//! A fuzzy line search: lines of a text are found through a full-text index,
//! scored by a set of text-matching heuristics, ranked and cut to a share of
//! the best ones.

pub mod config;
pub mod display;
pub mod filter;
pub mod score;
pub mod search;
pub mod text;

use crate::config::Cli;
use crate::score::{line_score, scored_line, LineScore, Score};
use crate::search::{
    finds, is_invalid_argument, numbered_lines, words_match, words_matched, Search, MAX_LINE_BYTES,
};
use crate::text::byte_len;
use tantivy::TantivyError;
use vstd::prelude::*;

verus! {

/// Why a search failed.
pub enum RunError {
    /// The index could not be set up.
    Index(TantivyError),
    /// Indexing or searching failed, as the message says.
    Search(&'static str),
}

/// `found` is exactly the lines of `lines` that match the words of `text`
/// (`words_match`), each once, best first (a line matching more of the
/// words never after one matching fewer), each with its number and its
/// score: `found[k]` is line `places[k] + 1`.
pub open spec fn finds_lines(
    found: Seq<(usize, LineScore, String)>,
    lines: Seq<String>,
    text: Seq<char>,
    places: Seq<int>,
) -> bool {
    &&& places.len() == found.len()
    &&& places.no_duplicates()
    &&& forall|k: int|
        #![trigger places[k]]
        0 <= k < places.len() ==> {
            &&& 0 <= places[k] < lines.len()
            &&& found[k].0 == places[k] + 1
            &&& found[k].2@ == lines[places[k]]@
            &&& line_score(found[k].1, text, found[k].2@)
        }
    &&& forall|j: int|
        0 <= j < lines.len() ==> (places.contains(j) <==> words_match(text, #[trigger] lines[j]@))
    &&& forall|k1: int, k2: int|
        0 <= k1 < k2 < places.len() ==> words_matched(text, lines[#[trigger] places[k1]]@)
            >= words_matched(text, lines[#[trigger] places[k2]]@)
}

/// Indexes the lines of the file (`lines[i]` is line `i + 1`), finds those
/// holding a word within two edits of a lowercased word of the search text
/// of `config`, and scores each of them.
pub fn run(config: &Cli, lines: Vec<String>) -> (r: Result<Vec<(usize, LineScore, String)>, RunError>)
    requires
        lines@.len() > 0,
        forall|i: int| 0 <= i < lines@.len() ==> byte_len(#[trigger] lines@[i]@) <= MAX_LINE_BYTES,
    ensures
        r matches Ok(found) ==> found@.len() <= lines@.len() && exists|places: Seq<int>|
            #[trigger] finds_lines(found@, lines@, config.text@, places),
        r matches Err(RunError::Index(e)) ==> !is_invalid_argument(e),
        r matches Err(RunError::Search(e)) ==> e@ == "cannot add document"@ || e@
            == "cannot commit index"@ || e@ == "could not setup query reader"@ || e@
            == "docs selection error"@ || e@ == "retrieved document error"@,
{
    let mut search = match Search::new() {
        Ok(search) => search,
        Err(e) => return Err(RunError::Index(e)),
    };
    let line_count = lines.len();
    assert(line_count == lines@.len());
    if let Err(e) = search.index_lines(&lines) {
        return Err(RunError::Search(e));
    }
    let ghost entries = search.committed_entries();
    assert(entries =~= numbered_lines(lines@));
    let found = match search.query(&config.text) {
        Ok(found) => found,
        Err(e) => return Err(RunError::Search(e)),
    };
    let ghost places = choose|places: Seq<int>| #[trigger] finds(found@, entries, config.text@, places);
    let scored = Score::calculate(config.text.as_str(), found);
    assert forall|k: int| #![trigger places[k]] 0 <= k < places.len() implies {
        &&& 0 <= places[k] < lines@.len()
        &&& scored@[k].0 == places[k] + 1
        &&& scored@[k].2@ == lines@[places[k]]@
        &&& line_score(scored@[k].1, config.text@, scored@[k].2@)
    } by {
        assert(scored_line(scored@[k], found@[k], config.text@));
        assert(entries[places[k]] == ((places[k] + 1) as u64, lines@[places[k]]@));
    }
    assert forall|j: int| 0 <= j < lines@.len() implies (places.contains(j) <==> words_match(
        config.text@,
        #[trigger] lines@[j]@,
    )) by {
        assert(entries[j].1 == lines@[j]@);
    }
    assert forall|k1: int, k2: int| 0 <= k1 < k2 < places.len() implies words_matched(
        config.text@,
        lines@[#[trigger] places[k1]]@,
    ) >= words_matched(config.text@, lines@[#[trigger] places[k2]]@) by {
        assert(entries[places[k1]].1 == lines@[places[k1]]@);
        assert(entries[places[k2]].1 == lines@[places[k2]]@);
    }
    assert(finds_lines(scored@, lines@, config.text@, places));
    Ok(scored)
}

} // verus!
