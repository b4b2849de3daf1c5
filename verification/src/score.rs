//! The relevance heuristics that score a line against the search text.
//!
//! Each heuristic is a count or a test over the chars of the two texts; the
//! weights that turn them into points are the constants below.
use crate::text::{
    byte_len, byte_len_exec, byte_offset, byte_offset_exec, char_is_alphanumeric, chars_of,
    contains, contains_exec, find, find_from, find_from_exec, is_alphanumeric, lemma_find,
    lemma_encode_utf8_concat, lemma_find_from, lowercase, matches_at, matches_at_exec, split_whitespace,
    split_whitespace_exec, starts_with, to_lowercase, words_view,
};
use vstd::prelude::*;

verus! {

/// Points when the line equals the search text.
pub const EQUAL_POINTS: u32 = 100;

/// Points when the line starts with the search text.
pub const PREFIX_POINTS: u32 = 95;

/// Points when the line contains the search text.
pub const CONTAINED_POINTS: u32 = 90;

/// Points when the lowercased line equals the lowercased search text.
pub const LOWERCASE_EQUAL_POINTS: u32 = 80;

/// Points when the lowercased line starts with the lowercased search text.
pub const LOWERCASE_PREFIX_POINTS: u32 = 75;

/// Points when the lowercased line contains the lowercased search text.
pub const LOWERCASE_CONTAINED_POINTS: u32 = 70;

/// Points for each word of the search text found in the line.
pub const TOKEN_POINTS: u32 = 25;

/// Points for each lowercased word found in the lowercased line.
pub const LOWERCASE_TOKEN_POINTS: u32 = 15;

/// The n-th word found in order earns n times this many points.
pub const ORDER_STEP_POINTS: u32 = 5;

/// Points for each word found at the start of a word of the line.
pub const WORD_START_POINTS: u32 = 10;

/// Base points for each char of the search text found in order in the line;
/// the length of the run of consecutive such chars is added to it.
pub const SUBSEQUENCE_BASE_POINTS: u32 = 3;

/// What the heuristics found when scoring one line against the search text.
pub struct LineScore {
    /// Points for the search text as a whole in the line.
    pub phrase_points: u32,
    /// Points for the lowercased search text as a whole in the lowercased line.
    pub lowercase_phrase_points: u32,
    /// How many words of the search text occur in the line.
    pub exact_tokens: usize,
    /// How many lowercased words occur in the lowercased line.
    pub lowercase_tokens: usize,
    /// How many leading lowercased words occur in order.
    pub ordered_tokens: usize,
    /// Bytes from the first to the last lowercased word found, when at least
    /// two are found.
    pub distance: Option<u128>,
    /// How many lowercased words are found at the start of a word.
    pub word_starts: usize,
    /// For each char of the lowercased search text matched in order, the run
    /// of consecutive matches it ends.
    pub subsequence_runs: Vec<usize>,
    /// Bytes by which the lowercased line is longer than the lowercased text.
    pub length_excess: u128,
}

/// An optional counter, as an optional natural number.
pub open spec fn opt_nat(d: Option<u128>) -> Option<nat> {
    match d {
        Some(x) => Some(x as nat),
        None => None,
    }
}

/// `s` holds nothing: the score of an empty search text or an empty line.
pub open spec fn is_zero_score(s: LineScore) -> bool {
    &&& s.phrase_points == 0
    &&& s.lowercase_phrase_points == 0
    &&& s.exact_tokens == 0
    &&& s.lowercase_tokens == 0
    &&& s.ordered_tokens == 0
    &&& s.distance is None
    &&& s.word_starts == 0
    &&& s.subsequence_runs@.len() == 0
    &&& s.length_excess == 0
}

/// `s` is the score of `line` for `query`, where `lower_query` and
/// `lower_line` are their lowercase forms.
pub open spec fn is_line_score(
    s: LineScore,
    query: Seq<char>,
    line: Seq<char>,
    lower_query: Seq<char>,
    lower_line: Seq<char>,
) -> bool {
    if query.len() == 0 || line.len() == 0 {
        is_zero_score(s)
    } else {
        let words = split_whitespace(query);
        let lower_words = split_whitespace(lower_query);
        &&& s.phrase_points == phrase_points_spec(
            query,
            line,
            EQUAL_POINTS,
            PREFIX_POINTS,
            CONTAINED_POINTS,
        )
        &&& s.lowercase_phrase_points == phrase_points_spec(
            lower_query,
            lower_line,
            LOWERCASE_EQUAL_POINTS,
            LOWERCASE_PREFIX_POINTS,
            LOWERCASE_CONTAINED_POINTS,
        )
        &&& s.exact_tokens == contained_count(words, line)
        &&& s.lowercase_tokens == contained_count(lower_words, lower_line)
        &&& s.ordered_tokens == ordered_count(lower_words, lower_line, 0)
        &&& opt_nat(s.distance) == token_distance(lower_words, lower_line)
        &&& s.word_starts == word_start_count(lower_words, lower_line)
        &&& nats(s.subsequence_runs@) == subsequence_runs(lower_query, lower_line, 0, 0)
        &&& s.length_excess == length_excess(lower_query, lower_line)
    }
}

/// The score of `line` for `query`.
pub open spec fn line_score(s: LineScore, query: Seq<char>, line: Seq<char>) -> bool {
    is_line_score(s, query, line, lowercase(query), lowercase(line))
}

/// The phrase tests nest: an equal line starts with the search text, and a
/// line that starts with it contains it; so the phrase points are 0, 90,
/// 185 or 285.
pub proof fn lemma_phrase_tests_nest(query: Seq<char>, line: Seq<char>)
    ensures
        query == line ==> starts_with(line, query),
        starts_with(line, query) ==> contains(line, query),
        phrase_points_spec(query, line, EQUAL_POINTS, PREFIX_POINTS, CONTAINED_POINTS) == if query
            == line {
            285nat
        } else if starts_with(line, query) {
            185nat
        } else if contains(line, query) {
            90nat
        } else {
            0nat
        },
{
    if query == line {
        assert(line.subrange(0, query.len() as int) =~= query);
    }
    if starts_with(line, query) {
        assert(matches_at(line, query, 0));
    }
}

/// Counting with a weaker test never counts fewer tokens.
pub proof fn lemma_count_tokens_weaker(
    tokens: Seq<Seq<char>>,
    p: spec_fn(Seq<char>) -> bool,
    q: spec_fn(Seq<char>) -> bool,
)
    requires
        forall|t: Seq<char>| #[trigger] p(t) ==> q(t),
    ensures
        count_tokens(tokens, p) <= count_tokens(tokens, q),
    decreases tokens.len(),
{
    if tokens.len() > 0 {
        lemma_count_tokens_weaker(tokens.drop_last(), p, q);
    }
}

/// A prefix of the tokens never counts more than all of them.
pub proof fn lemma_count_tokens_prefix(
    tokens: Seq<Seq<char>>,
    k: int,
    p: spec_fn(Seq<char>) -> bool,
)
    requires
        0 <= k <= tokens.len(),
    ensures
        count_tokens(tokens.take(k), p) <= count_tokens(tokens, p),
    decreases tokens.len(),
{
    if k == tokens.len() {
        assert(tokens.take(k) =~= tokens);
    } else {
        assert(tokens.drop_last().take(k) =~= tokens.take(k));
        lemma_count_tokens_prefix(tokens.drop_last(), k, p);
    }
}

/// When every token passes the test, all of them are counted.
pub proof fn lemma_count_tokens_all(tokens: Seq<Seq<char>>, p: spec_fn(Seq<char>) -> bool)
    requires
        forall|i: int| 0 <= i < tokens.len() ==> #[trigger] p(tokens[i]),
    ensures
        count_tokens(tokens, p) == tokens.len(),
    decreases tokens.len(),
{
    if tokens.len() > 0 {
        let init = tokens.drop_last();
        assert forall|i: int| 0 <= i < init.len() implies #[trigger] p(init[i]) by {
            assert(init[i] == tokens[i]);
        }
        lemma_count_tokens_all(init, p);
        assert(p(tokens[tokens.len() - 1]));
    }
}

/// Each token counted as found in order occurs in the line.
pub proof fn lemma_ordered_tokens_occur(tokens: Seq<Seq<char>>, line: Seq<char>, from: int)
    requires
        0 <= from,
    ensures
        ordered_count(tokens, line, from) <= tokens.len(),
        forall|i: int|
            0 <= i < ordered_count(tokens, line, from) ==> contains(line, #[trigger] tokens[i]),
    decreases tokens.len(),
{
    if tokens.len() > 0 {
        lemma_find_from(line, tokens[0], from);
        match find_from(line, tokens[0], from) {
            Some(q) => {
                let rest = tokens.drop_first();
                lemma_ordered_tokens_occur(rest, line, q + tokens[0].len());
                assert forall|i: int|
                    0 <= i < ordered_count(tokens, line, from) implies contains(
                    line,
                    #[trigger] tokens[i],
                ) by {
                    if i == 0 {
                        assert(matches_at(line, tokens[0], q));
                    } else {
                        assert(tokens[i] == rest[i - 1]);
                    }
                }
            },
            None => {},
        }
    }
}

/// Each found offset belongs to a token that occurs: there are as many
/// found offsets as tokens that occur.
pub proof fn lemma_found_offsets_len(tokens: Seq<Seq<char>>, line: Seq<char>)
    ensures
        found_offsets(tokens, line).len() == contained_count(tokens, line),
    decreases tokens.len(),
{
    if tokens.len() > 0 {
        lemma_found_offsets_len(tokens.drop_last(), line);
        lemma_find(line, tokens.last());
    }
}

/// The heuristics agree with one another: the words found in order, and the
/// words found at a word start, are among the words found at all; a
/// distance is measured exactly when at least two words are found; each
/// char of the search text is matched at most once and each char of the
/// line at most once; and the phrase tests nest.
pub proof fn lemma_line_score_consistent(
    s: LineScore,
    query: Seq<char>,
    line: Seq<char>,
    lower_query: Seq<char>,
    lower_line: Seq<char>,
)
    requires
        is_line_score(s, query, line, lower_query, lower_line),
    ensures
        s.ordered_tokens <= s.lowercase_tokens,
        s.word_starts <= s.lowercase_tokens,
        s.distance is Some <==> s.lowercase_tokens >= 2,
        s.subsequence_runs@.len() <= lower_query.len(),
        s.subsequence_runs@.len() <= lower_line.len(),
        s.phrase_points == 0 || s.phrase_points == 90 || s.phrase_points == 185
            || s.phrase_points == 285,
{
    if query.len() > 0 && line.len() > 0 {
        let words = split_whitespace(lower_query);
        lemma_ordered_tokens_occur(words, lower_line, 0);
        let k = ordered_count(words, lower_line, 0) as int;
        let found = |t: Seq<char>| contains(lower_line, t);
        assert forall|i: int| 0 <= i < words.take(k).len() implies #[trigger] found(
            words.take(k)[i],
        ) by {
            assert(words.take(k)[i] == words[i]);
        }
        lemma_count_tokens_all(words.take(k), found);
        lemma_count_tokens_prefix(words, k, found);
        let at_start = |t: Seq<char>| at_word_start(lower_line, t);
        assert forall|t: Seq<char>| #[trigger] at_start(t) implies found(t) by {
            lemma_find(lower_line, t);
        }
        lemma_count_tokens_weaker(words, at_start, found);
        lemma_found_offsets_len(words, lower_line);
        lemma_subsequence_runs_len(lower_query, lower_line, 0, 0);
        lemma_phrase_tests_nest(query, line);
        assert(nats(s.subsequence_runs@).len() == s.subsequence_runs@.len());
    }
}

/// Matching reads each char of the line at most once and matches each char
/// of the search text at most once.
pub proof fn lemma_subsequence_runs_len(query: Seq<char>, line: Seq<char>, qi: int, run: nat)
    requires
        0 <= qi,
    ensures
        subsequence_runs(query, line, qi, run).len() <= line.len(),
        qi <= query.len() ==> subsequence_runs(query, line, qi, run).len() <= query.len() - qi,
    decreases line.len(),
{
    if line.len() > 0 && qi < query.len() {
        if line[0] == query[qi] {
            lemma_subsequence_runs_len(query, line.drop_first(), qi + 1, run + 1);
        } else {
            lemma_subsequence_runs_len(query, line.drop_first(), qi, 0);
        }
    }
}

/// `scored` is the found line `found`, with its number and text kept and its
/// score for `query`.
pub open spec fn scored_line(
    scored: (usize, LineScore, String),
    found: (usize, String),
    query: Seq<char>,
) -> bool {
    &&& scored.0 == found.0
    &&& scored.2@ == found.1@
    &&& line_score(scored.1, query, found.1@)
}

/// The scoring heuristics.
pub struct Score {}

/// The points of the three phrase tests, with the given weights.
pub open spec fn phrase_points_spec(
    query: Seq<char>,
    line: Seq<char>,
    equal: u32,
    prefix: u32,
    contained: u32,
) -> nat {
    (if query == line { equal as nat } else { 0 }) + (if starts_with(line, query) {
        prefix as nat
    } else {
        0
    }) + (if contains(line, query) { contained as nat } else { 0 })
}

/// How many of `tokens` satisfy `p`.
pub open spec fn count_tokens(tokens: Seq<Seq<char>>, p: spec_fn(Seq<char>) -> bool) -> nat
    decreases tokens.len(),
{
    if tokens.len() == 0 {
        0
    } else {
        count_tokens(tokens.drop_last(), p) + if p(tokens.last()) {
            1nat
        } else {
            0nat
        }
    }
}

/// How many of `tokens` occur in `line`.
pub open spec fn contained_count(tokens: Seq<Seq<char>>, line: Seq<char>) -> nat {
    count_tokens(tokens, |t: Seq<char>| contains(line, t))
}

/// How many leading `tokens` occur in `line` one after the other, each
/// searched from the end of the previous one's first occurrence after `from`.
pub open spec fn ordered_count(tokens: Seq<Seq<char>>, line: Seq<char>, from: int) -> nat
    decreases tokens.len(),
{
    if tokens.len() == 0 {
        0
    } else {
        match find_from(line, tokens[0], from) {
            Some(q) => 1 + ordered_count(tokens.drop_first(), line, q + tokens[0].len()),
            None => 0,
        }
    }
}

/// The byte offsets of the first occurrences in `line` of those `tokens` that
/// occur, in the order of the tokens.
pub open spec fn found_offsets(tokens: Seq<Seq<char>>, line: Seq<char>) -> Seq<nat>
    decreases tokens.len(),
{
    if tokens.len() == 0 {
        seq![]
    } else {
        let rest = found_offsets(tokens.drop_last(), line);
        match find(line, tokens.last()) {
            Some(p) => rest.push(byte_offset(line, p)),
            None => rest,
        }
    }
}

/// The byte distance from the first found token to the last found token (0
/// where the last lies before the first); none when fewer than two occur.
pub open spec fn token_distance(tokens: Seq<Seq<char>>, line: Seq<char>) -> Option<nat> {
    let offs = found_offsets(tokens, line);
    if offs.len() < 2 {
        None
    } else if offs.last() >= offs[0] {
        Some((offs.last() - offs[0]) as nat)
    } else {
        Some(0)
    }
}

/// `tok` occurs in `line`, and its first occurrence starts the line or
/// follows a char that is not alphanumeric.
pub open spec fn at_word_start(line: Seq<char>, tok: Seq<char>) -> bool {
    match find(line, tok) {
        Some(p) => p == 0 || !is_alphanumeric(line[p - 1]),
        None => false,
    }
}

/// How many of `tokens` occur at a word start of `line`.
pub open spec fn word_start_count(tokens: Seq<Seq<char>>, line: Seq<char>) -> nat {
    count_tokens(tokens, |t: Seq<char>| at_word_start(line, t))
}

/// Reading `line` from its start, each char equal to the next unmatched
/// char of `query` (from index `qi`) is matched; the result holds, for each
/// match, the length of the run of consecutive matches that it ends. `run`
/// is the run that ends just before `line`.
pub open spec fn subsequence_runs(query: Seq<char>, line: Seq<char>, qi: int, run: nat) -> Seq<
    nat,
>
    decreases line.len(),
{
    if line.len() == 0 || qi < 0 || qi >= query.len() {
        seq![]
    } else if line[0] == query[qi] {
        seq![run + 1] + subsequence_runs(query, line.drop_first(), qi + 1, run + 1)
    } else {
        subsequence_runs(query, line.drop_first(), qi, 0)
    }
}

/// By how many bytes `line` is longer than `query`.
pub open spec fn length_excess(query: Seq<char>, line: Seq<char>) -> nat {
    if byte_len(line) > byte_len(query) {
        (byte_len(line) - byte_len(query)) as nat
    } else {
        0
    }
}

/// A list of counters, as natural numbers.
pub open spec fn nats(v: Seq<usize>) -> Seq<nat> {
    v.map_values(|x: usize| x as nat)
}

/// The first occurrence of `pat` in `s` is at `p` when it occurs there and
/// nowhere before.
pub proof fn lemma_find_is_first_match(s: Seq<char>, pat: Seq<char>, p: int)
    requires
        matches_at(s, pat, p),
        forall|j: int| 0 <= j < p ==> !matches_at(s, pat, j),
    ensures
        find(s, pat) == Some(p),
{
    lemma_find(s, pat);
    assert(contains(s, pat));
    let k = find(s, pat)->0;
    assert(!(k < p));
    assert(!(p < k));
}

/// Text appended to a line does not move the first occurrence of a word
/// that already occurs in the line.
pub proof fn lemma_find_in_longer_line(line: Seq<char>, rest: Seq<char>, tok: Seq<char>)
    requires
        contains(line, tok),
    ensures
        find(line + rest, tok) == find(line, tok),
{
    lemma_find(line, tok);
    let p = find(line, tok)->0;
    let longer = line + rest;
    assert(matches_at(line, tok, p));
    assert(p + tok.len() <= line.len());
    assert(longer.subrange(p, p + tok.len()) =~= line.subrange(p, p + tok.len()));
    assert forall|j: int| 0 <= j < p implies !matches_at(longer, tok, j) by {
        assert(!matches_at(line, tok, j));
        assert(j + tok.len() <= line.len());
        assert(longer.subrange(j, j + tok.len()) =~= line.subrange(j, j + tok.len()));
    }
    lemma_find_is_first_match(longer, tok, p);
}

/// Whether a word of the line starts a word does not depend on what follows
/// it: appending text to the line leaves the answer unchanged for every
/// word that occurs in the line, and so never lowers the number of words
/// found at a word start.
pub proof fn lemma_word_start_ignores_what_follows(
    tokens: Seq<Seq<char>>,
    line: Seq<char>,
    rest: Seq<char>,
)
    ensures
        forall|t: Seq<char>|
            contains(line, t) ==> (#[trigger] at_word_start(line + rest, t) == at_word_start(
                line,
                t,
            )),
        word_start_count(tokens, line) <= word_start_count(tokens, line + rest),
{
    let longer = line + rest;
    assert forall|t: Seq<char>| contains(line, t) implies (#[trigger] at_word_start(longer, t)
        == at_word_start(line, t)) by {
        lemma_find_in_longer_line(line, rest, t);
        lemma_find(line, t);
        let p = find(line, t)->0;
        if p > 0 {
            assert(longer[p - 1] == line[p - 1]);
        }
    }
    let short_start = |t: Seq<char>| at_word_start(line, t);
    let long_start = |t: Seq<char>| at_word_start(longer, t);
    assert forall|t: Seq<char>| #[trigger] short_start(t) implies long_start(t) by {
        lemma_find(line, t);
        assert(contains(line, t));
        assert(at_word_start(longer, t) == at_word_start(line, t));
    }
    lemma_count_tokens_weaker(tokens, short_start, long_start);
}

/// A word at the very start of a line is at a word start, whatever follows
/// it in the line.
pub proof fn lemma_word_at_line_start(line: Seq<char>, tok: Seq<char>)
    requires
        matches_at(line, tok, 0),
    ensures
        at_word_start(line, tok),
{
    lemma_find_is_first_match(line, tok, 0);
}

/// The length penalty counts only the bytes by which the line is longer
/// than the search text: none when it is not longer, and the difference
/// when it is; a longer search text never raises it.
pub proof fn lemma_length_excess_counts_only_extra_bytes(
    query: Seq<char>,
    line: Seq<char>,
    more: Seq<char>,
)
    ensures
        byte_len(line) <= byte_len(query) ==> length_excess(query, line) == 0,
        byte_len(line) > byte_len(query) ==> length_excess(query, line) + byte_len(query)
            == byte_len(line),
        length_excess(query + more, line) <= length_excess(query, line),
{
    lemma_encode_utf8_concat(query, more);
}

/// Words that occur in the line one after the other, each at or after the
/// end of the one before (the first at or after `from`), are all counted as
/// found in order: the count reaches the length of any such chain of
/// occurrences `positions`, whatever earlier occurrences the words have.
pub proof fn lemma_ordered_count_covers_chain(
    tokens: Seq<Seq<char>>,
    line: Seq<char>,
    from: int,
    positions: Seq<int>,
)
    requires
        0 <= from,
        positions.len() <= tokens.len(),
        forall|i: int| 0 <= i < positions.len() ==> matches_at(line, tokens[i], #[trigger] positions[i]),
        positions.len() > 0 ==> positions[0] >= from,
        forall|i: int|
            0 <= i < positions.len() - 1 ==> #[trigger] positions[i + 1] >= positions[i]
                + tokens[i].len(),
    ensures
        ordered_count(tokens, line, from) >= positions.len(),
    decreases positions.len(),
{
    if positions.len() > 0 {
        lemma_find_from(line, tokens[0], from);
        assert(matches_at(line, tokens[0], positions[0]));
        let q = find_from(line, tokens[0], from)->0;
        assert(q <= positions[0]);
        let rest = tokens.drop_first();
        let ps = positions.drop_first();
        assert forall|i: int| 0 <= i < ps.len() implies matches_at(line, rest[i], #[trigger] ps[i]) by {
            assert(rest[i] == tokens[i + 1]);
            assert(ps[i] == positions[i + 1]);
        }
        assert forall|i: int| 0 <= i < ps.len() - 1 implies #[trigger] ps[i + 1] >= ps[i]
            + rest[i].len() by {
            assert(ps[i + 1] == positions[i + 2]);
            assert(ps[i] == positions[i + 1]);
            assert(rest[i] == tokens[i + 1]);
        }
        if ps.len() > 0 {
            assert(ps[0] == positions[1]);
            assert(positions[1] >= positions[0] + tokens[0].len());
        }
        lemma_ordered_count_covers_chain(rest, line, q + tokens[0].len(), ps);
    }
}

/// The byte offset of the first occurrence of `tok` in `line`.
pub open spec fn first_offset(line: Seq<char>, tok: Seq<char>) -> nat {
    byte_offset(line, find(line, tok)->0)
}

/// `tokens[i]` occurs in the line and no word before it does.
pub open spec fn is_first_found(tokens: Seq<Seq<char>>, line: Seq<char>, i: int) -> bool {
    &&& 0 <= i < tokens.len()
    &&& contains(line, tokens[i])
    &&& forall|k: int| 0 <= k < i ==> !contains(line, #[trigger] tokens[k])
}

/// `tokens[j]` occurs in the line and no word after it does.
pub open spec fn is_last_found(tokens: Seq<Seq<char>>, line: Seq<char>, j: int) -> bool {
    &&& 0 <= j < tokens.len()
    &&& contains(line, tokens[j])
    &&& forall|k: int| j < k < tokens.len() ==> !contains(line, #[trigger] tokens[k])
}

/// The shape of the found offsets: there are some exactly when a word
/// occurs, at least two exactly when two words occur, the first is that of
/// the first word found and the last that of the last word found.
proof fn lemma_found_offsets_shape(tokens: Seq<Seq<char>>, line: Seq<char>)
    ensures
        found_offsets(tokens, line).len() > 0 <==> exists|a: int|
            0 <= a < tokens.len() && contains(line, #[trigger] tokens[a]),
        found_offsets(tokens, line).len() >= 2 <==> exists|a: int, b: int|
            0 <= a < b < tokens.len() && contains(line, #[trigger] tokens[a]) && contains(
                line,
                #[trigger] tokens[b],
            ),
        forall|i: int|
            #[trigger] is_first_found(tokens, line, i) ==> found_offsets(tokens, line).len() > 0
                && found_offsets(tokens, line)[0] == first_offset(line, tokens[i]),
        forall|j: int|
            #[trigger] is_last_found(tokens, line, j) ==> found_offsets(tokens, line).len() > 0
                && found_offsets(tokens, line).last() == first_offset(line, tokens[j]),
    decreases tokens.len(),
{
    if tokens.len() > 0 {
        let init = tokens.drop_last();
        let x = tokens.last();
        let n = tokens.len() - 1;
        lemma_found_offsets_shape(init, line);
        lemma_find(line, x);
        let offs = found_offsets(tokens, line);
        let io = found_offsets(init, line);
        assert forall|k: int| 0 <= k < init.len() implies #[trigger] init[k] == tokens[k] by {}
        // some word occurs
        if exists|a: int| 0 <= a < tokens.len() && contains(line, #[trigger] tokens[a]) {
            let a = choose|a: int| 0 <= a < tokens.len() && contains(line, #[trigger] tokens[a]);
            if a < n {
                assert(contains(line, init[a]));
            }
        }
        if io.len() > 0 {
            let a = choose|a: int| 0 <= a < init.len() && contains(line, #[trigger] init[a]);
            assert(contains(line, tokens[a]));
        }
        // two words occur
        if exists|a: int, b: int|
            0 <= a < b < tokens.len() && contains(line, #[trigger] tokens[a]) && contains(
                line,
                #[trigger] tokens[b],
            ) {
            let (a, b) = choose|a: int, b: int|
                0 <= a < b < tokens.len() && contains(line, #[trigger] tokens[a]) && contains(
                    line,
                    #[trigger] tokens[b],
                );
            assert(contains(line, init[a]));
            if b < n {
                assert(contains(line, init[b]));
            }
        }
        if offs.len() >= 2 {
            if contains(line, x) {
                let a = choose|a: int| 0 <= a < init.len() && contains(line, #[trigger] init[a]);
                assert(contains(line, tokens[a]) && contains(line, tokens[n]));
            } else {
                let (a, b) = choose|a: int, b: int|
                    0 <= a < b < init.len() && contains(line, #[trigger] init[a]) && contains(
                        line,
                        #[trigger] init[b],
                    );
                assert(contains(line, tokens[a]) && contains(line, tokens[b]));
            }
        }
        // first found
        assert forall|i: int| #[trigger] is_first_found(tokens, line, i) implies offs.len() > 0
            && offs[0] == first_offset(line, tokens[i]) by {
            if i < n {
                assert(is_first_found(init, line, i));
            } else {
                assert forall|a: int| 0 <= a < init.len() implies !contains(line, #[trigger] init[a]) by {
                    assert(init[a] == tokens[a]);
                }
                assert(io.len() == 0);
            }
        }
        // last found
        assert forall|j: int| #[trigger] is_last_found(tokens, line, j) implies offs.len() > 0
            && offs.last() == first_offset(line, tokens[j]) by {
            if j < n {
                assert(!contains(line, tokens[n]));
                assert(is_last_found(init, line, j));
            }
        }
    }
}

/// With two words or more found in the line, the distance runs from the
/// first occurrence of the first word found to the first occurrence of the
/// last word found, in bytes (0 when the last lies before the first); with
/// fewer there is none.
pub proof fn lemma_distance_spans_first_to_last_found(tokens: Seq<Seq<char>>, line: Seq<char>)
    ensures
        token_distance(tokens, line) is Some <==> exists|a: int, b: int|
            0 <= a < b < tokens.len() && contains(line, #[trigger] tokens[a]) && contains(
                line,
                #[trigger] tokens[b],
            ),
        forall|i: int, j: int|
            #[trigger] is_first_found(tokens, line, i) && #[trigger] is_last_found(tokens, line, j)
                && token_distance(tokens, line) is Some ==> token_distance(tokens, line) == Some(
                if first_offset(line, tokens[j]) >= first_offset(line, tokens[i]) {
                    (first_offset(line, tokens[j]) - first_offset(line, tokens[i])) as nat
                } else {
                    0nat
                },
            ),
{
    lemma_found_offsets_shape(tokens, line);
}

/// Whether two texts are equal.
pub fn same_text(a: &Vec<char>, b: &Vec<char>) -> (r: bool)
    ensures
        r == (a@ == b@),
{
    if a.len() != b.len() {
        return false;
    }
    let r = matches_at_exec(b, a, 0);
    assert(b@.subrange(0, a@.len() as int) =~= b@);
    r
}

/// The points of the three phrase tests of `query` against `line`.
fn phrase_points(
    query: &Vec<char>,
    line: &Vec<char>,
    equal: u32,
    prefix: u32,
    contained: u32,
) -> (r: u32)
    requires
        equal as nat + prefix as nat + contained as nat <= u32::MAX,
    ensures
        r == phrase_points_spec(query@, line@, equal, prefix, contained),
{
    let mut points: u32 = 0;
    if same_text(query, line) {
        points = points + equal;
    }
    if matches_at_exec(line, query, 0) {
        points = points + prefix;
    }
    if contains_exec(line, query) {
        points = points + contained;
    }
    points
}

impl Score {
    /// Points for the search text as a whole, compared case-sensitively:
    /// equal to the line, a prefix of it, contained in it.
    pub fn calculate_exact_start_values(query: &Vec<char>, line: &Vec<char>) -> (r: u32)
        ensures
            r == phrase_points_spec(
                query@,
                line@,
                EQUAL_POINTS,
                PREFIX_POINTS,
                CONTAINED_POINTS,
            ),
    {
        phrase_points(query, line, EQUAL_POINTS, PREFIX_POINTS, CONTAINED_POINTS)
    }

    /// Points for the lowercased search text as a whole against the
    /// lowercased line: equal, a prefix, contained.
    pub fn calculate_exact_lowercase_values(query: &Vec<char>, line: &Vec<char>) -> (r: u32)
        ensures
            r == phrase_points_spec(
                query@,
                line@,
                LOWERCASE_EQUAL_POINTS,
                LOWERCASE_PREFIX_POINTS,
                LOWERCASE_CONTAINED_POINTS,
            ),
    {
        phrase_points(
            query,
            line,
            LOWERCASE_EQUAL_POINTS,
            LOWERCASE_PREFIX_POINTS,
            LOWERCASE_CONTAINED_POINTS,
        )
    }

    /// How many of the words occur in the line.
    pub fn calculate_token_matches(tokens: &Vec<Vec<char>>, line: &Vec<char>) -> (r: usize)
        ensures
            r == contained_count(words_view(tokens@), line@),
    {
        let ghost ws = words_view(tokens@);
        let mut count: usize = 0;
        let mut i: usize = 0;
        while i < tokens.len()
            invariant
                i <= tokens.len(),
                ws == words_view(tokens@),
                count <= i,
                count == contained_count(ws.take(i as int), line@),
            decreases tokens.len() - i,
        {
            assert(ws.take(i + 1).drop_last() =~= ws.take(i as int));
            if contains_exec(line, &tokens[i]) {
                count = count + 1;
            }
            i = i + 1;
        }
        assert(ws.take(tokens.len() as int) =~= ws);
        count
    }

    /// How many leading words occur in the line one after the other.
    pub fn calculate_order_bonus(tokens: &Vec<Vec<char>>, line: &Vec<char>) -> (r: usize)
        ensures
            r == ordered_count(words_view(tokens@), line@, 0),
    {
        let ghost ws = words_view(tokens@);
        let mut last_pos: usize = 0;
        let mut count: usize = 0;
        assert(ws.skip(0) =~= ws);
        while count < tokens.len()
            invariant
                count <= tokens.len(),
                ws == words_view(tokens@),
                last_pos <= line.len(),
                ordered_count(ws, line@, 0) == count + ordered_count(
                    ws.skip(count as int),
                    line@,
                    last_pos as int,
                ),
            decreases tokens.len() - count,
        {
            let tok = &tokens[count];
            assert(ws.skip(count as int)[0] == tok@);
            assert(ws.skip(count as int).drop_first() =~= ws.skip(count + 1));
            match find_from_exec(line, tok, last_pos) {
                Some(q) => {
                    proof {
                        lemma_find_from(line@, tok@, last_pos as int);
                    }
                    last_pos = q + tok.len();
                    count = count + 1;
                },
                None => {
                    return count;
                },
            }
        }
        assert(ws.skip(count as int) =~= Seq::<Seq<char>>::empty());
        count
    }

    /// The byte distance between the first occurrences of the first and the
    /// last of the words that occur in the line; none when fewer than two
    /// occur.
    pub fn calculate_distance_bonus(tokens: &Vec<Vec<char>>, line: &Vec<char>) -> (r: Option<
        u128,
    >)
        ensures
            r matches Some(d) ==> token_distance(words_view(tokens@), line@) == Some(d as nat),
            r is None ==> token_distance(words_view(tokens@), line@) is None,
    {
        let ghost ws = words_view(tokens@);
        let mut first: u128 = 0;
        let mut last: u128 = 0;
        let mut found: usize = 0;
        let mut i: usize = 0;
        while i < tokens.len()
            invariant
                i <= tokens.len(),
                ws == words_view(tokens@),
                found <= i,
                found == found_offsets(ws.take(i as int), line@).len(),
                found > 0 ==> first == found_offsets(ws.take(i as int), line@)[0],
                found > 0 ==> last == found_offsets(ws.take(i as int), line@).last(),
            decreases tokens.len() - i,
        {
            assert(ws.take(i + 1).drop_last() =~= ws.take(i as int));
            let ghost before = found_offsets(ws.take(i as int), line@);
            let tok = &tokens[i];
            proof {
                lemma_find(line@, tok@);
                lemma_find_from(line@, tok@, 0);
            }
            match find_from_exec(line, tok, 0) {
                Some(p) => {
                    let off = byte_offset_exec(line, p);
                    if found == 0 {
                        first = off;
                    }
                    last = off;
                    found = found + 1;
                    assert(found_offsets(ws.take(i + 1), line@) =~= before.push(off as nat));
                },
                None => {},
            }
            i = i + 1;
        }
        assert(ws.take(tokens.len() as int) =~= ws);
        if found < 2 {
            None
        } else if last >= first {
            Some(last - first)
        } else {
            Some(0)
        }
    }

    /// How many of the words occur in the line with their first occurrence
    /// at the start of a word.
    pub fn calculate_word_boundary_bonus(tokens: &Vec<Vec<char>>, line: &Vec<char>) -> (r:
        usize)
        ensures
            r == word_start_count(words_view(tokens@), line@),
    {
        let ghost ws = words_view(tokens@);
        let mut count: usize = 0;
        let mut i: usize = 0;
        while i < tokens.len()
            invariant
                i <= tokens.len(),
                ws == words_view(tokens@),
                count <= i,
                count == word_start_count(ws.take(i as int), line@),
            decreases tokens.len() - i,
        {
            assert(ws.take(i + 1).drop_last() =~= ws.take(i as int));
            let tok = &tokens[i];
            proof {
                lemma_find_from(line@, tok@, 0);
            }
            match find_from_exec(line, tok, 0) {
                Some(p) => {
                    if p == 0 {
                        count = count + 1;
                    } else if !char_is_alphanumeric(line[p - 1]) {
                        count = count + 1;
                    }
                },
                None => {},
            }
            i = i + 1;
        }
        assert(ws.take(tokens.len() as int) =~= ws);
        count
    }

    /// The chars of the search text matched in order along the line: for
    /// each match, the length of the run of consecutive matches it ends.
    pub fn calculate_subsequence_bonus(query: &Vec<char>, line: &Vec<char>) -> (r: Vec<usize>)
        ensures
            nats(r@) == subsequence_runs(query@, line@, 0, 0),
    {
        let mut runs: Vec<usize> = Vec::new();
        if query.len() == 0 {
            return runs;
        }
        let mut qi: usize = 0;
        let mut run: usize = 0;
        let mut i: usize = 0;
        assert(line@.skip(0) =~= line@);
        while i < line.len()
            invariant
                i <= line.len(),
                qi <= query.len(),
                run <= i,
                nats(runs@) + subsequence_runs(query@, line@.skip(i as int), qi as int, run as nat)
                    == subsequence_runs(query@, line@, 0, 0),
            decreases line.len() - i,
        {
            if qi >= query.len() {
                assert(subsequence_runs(query@, line@.skip(i as int), qi as int, run as nat)
                    =~= seq![]);
                assert(nats(runs@) + seq![] =~= nats(runs@));
                return runs;
            }
            let ghost rest = line@.skip(i as int);
            assert(rest[0] == line@[i as int]);
            assert(rest.drop_first() =~= line@.skip(i + 1));
            if line[i] == query[qi] {
                run = run + 1;
                let ghost before = nats(runs@);
                runs.push(run);
                assert(nats(runs@) =~= before.push(run as nat));
                assert(nats(runs@) + subsequence_runs(
                    query@,
                    line@.skip(i + 1),
                    qi + 1,
                    run as nat,
                ) =~= before + (seq![run as nat] + subsequence_runs(
                    query@,
                    line@.skip(i + 1),
                    qi + 1,
                    run as nat,
                )));
                qi = qi + 1;
            } else {
                run = 0;
            }
            i = i + 1;
        }
        assert(line@.skip(i as int) =~= Seq::<char>::empty());
        assert(nats(runs@) + seq![] =~= nats(runs@));
        runs
    }

    /// By how many bytes the line is longer than the search text.
    pub fn calculate_length_penalty(query: &Vec<char>, line: &Vec<char>) -> (r: u128)
        ensures
            r == length_excess(query@, line@),
    {
        let ql = byte_len_exec(query);
        let ll = byte_len_exec(line);
        if ll > ql {
            ll - ql
        } else {
            0
        }
    }

    /// Scores `line` for `query`, given their lowercase forms.
    pub fn score_lowered(query: &str, line: &str, lower_query: &str, lower_line: &str) -> (r:
        LineScore)
        ensures
            is_line_score(r, query@, line@, lower_query@, lower_line@),
    {
        if query.is_empty() || line.is_empty() {
            return LineScore {
                phrase_points: 0,
                lowercase_phrase_points: 0,
                exact_tokens: 0,
                lowercase_tokens: 0,
                ordered_tokens: 0,
                distance: None,
                word_starts: 0,
                subsequence_runs: Vec::new(),
                length_excess: 0,
            };
        }
        let q = chars_of(query);
        let l = chars_of(line);
        let lq = chars_of(lower_query);
        let ll = chars_of(lower_line);
        let words = split_whitespace_exec(&q);
        let lower_words = split_whitespace_exec(&lq);
        LineScore {
            phrase_points: Self::calculate_exact_start_values(&q, &l),
            lowercase_phrase_points: Self::calculate_exact_lowercase_values(&lq, &ll),
            exact_tokens: Self::calculate_token_matches(&words, &l),
            lowercase_tokens: Self::calculate_token_matches(&lower_words, &ll),
            ordered_tokens: Self::calculate_order_bonus(&lower_words, &ll),
            distance: Self::calculate_distance_bonus(&lower_words, &ll),
            word_starts: Self::calculate_word_boundary_bonus(&lower_words, &ll),
            subsequence_runs: Self::calculate_subsequence_bonus(&lq, &ll),
            length_excess: Self::calculate_length_penalty(&lq, &ll),
        }
    }

    /// Scores `line` for `query`.
    pub fn calculate_line(query: &str, line: &str) -> (r: LineScore)
        ensures
            line_score(r, query@, line@),
    {
        let lower_query = to_lowercase(query);
        let lower_line = to_lowercase(line);
        Self::score_lowered(query, line, lower_query.as_str(), lower_line.as_str())
    }

    /// Scores each found line for `query`, keeping its number and text.
    pub fn calculate(query: &str, lines: Vec<(usize, String)>) -> (r: Vec<(usize, LineScore, String)>)
        ensures
            r@.len() == lines@.len(),
            forall|i: int|
                #![trigger r@[i]]
                0 <= i < r@.len() ==> scored_line(r@[i], lines@[i], query@),
    {
        let ghost input = lines@;
        let mut rest = lines;
        // Lines are taken from the back and collected in reverse, then put
        // back in order.
        let mut rev: Vec<(usize, LineScore, String)> = Vec::new();
        while rest.len() > 0
            invariant
                rest@ == input.take(rest@.len() as int),
                rest@.len() + rev@.len() == input.len(),
                forall|i: int|
                    #![trigger rev@[i]]
                    0 <= i < rev@.len() ==> scored_line(rev@[i], input[input.len() - 1 - i], query@),
            decreases rest@.len(),
        {
            let (n, line) = rest.pop().unwrap();
            let s = Self::calculate_line(query, line.as_str());
            rev.push((n, s, line));
        }
        let mut out: Vec<(usize, LineScore, String)> = Vec::new();
        while rev.len() > 0
            invariant
                rev@.len() + out@.len() == input.len(),
                forall|i: int|
                    #![trigger rev@[i]]
                    0 <= i < rev@.len() ==> scored_line(rev@[i], input[input.len() - 1 - i], query@),
                forall|i: int|
                    #![trigger out@[i]]
                    0 <= i < out@.len() ==> scored_line(out@[i], input[i], query@),
            decreases rev@.len(),
        {
            let ghost last = rev@.len() - 1;
            assert(scored_line(rev@[last], input[out@.len() as int], query@));
            let item = rev.pop().unwrap();
            out.push(item);
        }
        out
    }
}

} // verus!
