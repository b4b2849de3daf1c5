//! The text shown for the ranked lines: one line of output per found line,
//! optionally preceded by its line number and its score.
use crate::filter::Ranked;
use crate::text::string_from_chars;
use vstd::prelude::*;

verus! {

/// Terminal color of line numbers.
pub const GREEN: &'static str = "\x1b[32m";

/// Terminal color of scores.
pub const YELLOW: &'static str = "\x1b[33m";

/// Resets the terminal color.
pub const RESET: &'static str = "\x1b[0m";

/// The texts joined with a line break between each two.
pub open spec fn join_lines(parts: Seq<Seq<char>>) -> Seq<char>
    decreases parts.len(),
{
    if parts.len() == 0 {
        seq![]
    } else if parts.len() == 1 {
        parts[0]
    } else {
        join_lines(parts.drop_last()) + "\n"@ + parts.last()
    }
}

/// The decimal digit for `d < 10`.
pub open spec fn digit_char(d: nat) -> char {
    ((48 + d) as u8) as char
}

/// The decimal numeral of `n`, without leading zeros.
pub open spec fn decimal(n: nat) -> Seq<char>
    decreases n,
{
    if n < 10 {
        seq![digit_char(n)]
    } else {
        decimal(n / 10).push(digit_char(n % 10))
    }
}

/// A line preceded by its colored number.
pub open spec fn numbered(n: nat, line: Seq<char>) -> Seq<char> {
    GREEN@ + decimal(n) + ":"@ + RESET@ + " "@ + line
}

/// A line preceded by its colored score text in brackets.
pub open spec fn with_score(score: Seq<char>, line: Seq<char>) -> Seq<char> {
    YELLOW@ + "["@ + score + "]"@ + RESET@ + " "@ + line
}

/// The texts of the found lines.
pub open spec fn plain_parts(results: Seq<Ranked>) -> Seq<Seq<char>> {
    results.map_values(|r: Ranked| r.2@)
}

/// The found lines, each preceded by its number.
pub open spec fn numbered_parts(results: Seq<Ranked>) -> Seq<Seq<char>> {
    results.map_values(|r: Ranked| numbered(r.0 as nat, r.2@))
}

/// The found lines, each preceded by its score text.
pub open spec fn scored_parts(results: Seq<Ranked>, scores: Seq<String>) -> Seq<Seq<char>> {
    Seq::new(results.len(), |i: int| with_score(scores[i]@, results[i].2@))
}

/// The found lines, each preceded by its number and its score text.
pub open spec fn numbered_scored_parts(results: Seq<Ranked>, scores: Seq<String>) -> Seq<
    Seq<char>,
> {
    Seq::new(
        results.len(),
        |i: int| GREEN@ + decimal(results[i].0 as nat) + ":"@ + RESET@ + " "@ + with_score(
            scores[i]@,
            results[i].2@,
        ),
    )
}

/// The texts of a list of strings.
pub open spec fn texts(v: Seq<String>) -> Seq<Seq<char>> {
    v.map_values(|p: String| p@)
}

/// The decimal numeral of `n`.
pub fn decimal_exec(n: usize) -> (r: Vec<char>)
    ensures
        r@ == decimal(n as nat),
    decreases n,
{
    let d = (n % 10) as u8;
    let c = (48u8 + d) as char;
    if n < 10 {
        let mut v: Vec<char> = Vec::new();
        v.push(c);
        assert(v@ =~= seq![digit_char(n as nat)]);
        v
    } else {
        let mut v = decimal_exec(n / 10);
        v.push(c);
        v
    }
}

/// The texts joined with a line break between each two.
pub fn join_lines_exec(parts: &Vec<String>) -> (r: String)
    ensures
        r@ == join_lines(texts(parts@)),
{
    let ghost ps = texts(parts@);
    let mut out = String::new();
    let mut i: usize = 0;
    while i < parts.len()
        invariant
            i <= parts.len(),
            ps == texts(parts@),
            out@ == join_lines(ps.take(i as int)),
        decreases parts.len() - i,
    {
        assert(ps.take(i + 1).drop_last() =~= ps.take(i as int));
        if i > 0 {
            out.append("\n");
        } else {
            assert(ps.take(1) =~= seq![ps[0]]);
        }
        out.append(parts[i].as_str());
        i = i + 1;
    }
    assert(ps.take(parts.len() as int) =~= ps);
    out
}

/// The texts of the found lines, one per line.
pub fn display_plain(results: Vec<Ranked>) -> (r: String)
    ensures
        r@ == join_lines(plain_parts(results@)),
{
    let mut parts: Vec<String> = Vec::new();
    let mut i: usize = 0;
    while i < results.len()
        invariant
            i <= results.len(),
            texts(parts@) == plain_parts(results@).take(i as int),
        decreases results.len() - i,
    {
        let text = results[i].2.clone();
        let ghost before = texts(parts@);
        assert(text@ == plain_parts(results@)[i as int]);
        parts.push(text);
        assert(texts(parts@) =~= before.push(text@));
        assert(texts(parts@) =~= plain_parts(results@).take(i + 1));
        i = i + 1;
    }
    assert(plain_parts(results@).take(results.len() as int) =~= plain_parts(results@));
    join_lines_exec(&parts)
}

/// The found lines, one per line, each preceded by its colored number.
pub fn display_with_line_numbers(results: Vec<Ranked>) -> (r: String)
    ensures
        r@ == join_lines(numbered_parts(results@)),
{
    let mut parts: Vec<String> = Vec::new();
    let mut i: usize = 0;
    while i < results.len()
        invariant
            i <= results.len(),
            texts(parts@) == numbered_parts(results@).take(i as int),
        decreases results.len() - i,
    {
        let mut text = String::new();
        text.append(GREEN);
        text.append(string_from_chars(&decimal_exec(results[i].0)).as_str());
        text.append(":");
        text.append(RESET);
        text.append(" ");
        text.append(results[i].2.as_str());
        let ghost before = texts(parts@);
        assert(text@ =~= numbered_parts(results@)[i as int]);
        parts.push(text);
        assert(texts(parts@) =~= before.push(text@));
        assert(texts(parts@) =~= numbered_parts(results@).take(i + 1));
        i = i + 1;
    }
    assert(numbered_parts(results@).take(results.len() as int) =~= numbered_parts(results@));
    join_lines_exec(&parts)
}

/// The found lines, one per line, each preceded by its score text: the
/// score of `results[i]` written as `scores[i]`.
pub fn display_with_score(results: Vec<Ranked>, scores: &Vec<String>) -> (r: String)
    requires
        scores@.len() == results@.len(),
    ensures
        r@ == join_lines(scored_parts(results@, scores@)),
{
    let mut parts: Vec<String> = Vec::new();
    let mut i: usize = 0;
    while i < results.len()
        invariant
            i <= results.len(),
            scores@.len() == results@.len(),
            texts(parts@) == scored_parts(results@, scores@).take(i as int),
        decreases results.len() - i,
    {
        let mut text = String::new();
        text.append(YELLOW);
        text.append("[");
        text.append(scores[i].as_str());
        text.append("]");
        text.append(RESET);
        text.append(" ");
        text.append(results[i].2.as_str());
        let ghost before = texts(parts@);
        assert(text@ =~= scored_parts(results@, scores@)[i as int]);
        parts.push(text);
        assert(texts(parts@) =~= before.push(text@));
        assert(texts(parts@) =~= scored_parts(results@, scores@).take(i + 1));
        i = i + 1;
    }
    assert(scored_parts(results@, scores@).take(results.len() as int) =~= scored_parts(
        results@,
        scores@,
    ));
    join_lines_exec(&parts)
}

/// The found lines, one per line, each preceded by its colored number and
/// its score text: the score of `results[i]` written as `scores[i]`.
pub fn display_with_line_numbers_and_score(results: Vec<Ranked>, scores: &Vec<String>) -> (r:
    String)
    requires
        scores@.len() == results@.len(),
    ensures
        r@ == join_lines(numbered_scored_parts(results@, scores@)),
{
    let mut parts: Vec<String> = Vec::new();
    let mut i: usize = 0;
    while i < results.len()
        invariant
            i <= results.len(),
            scores@.len() == results@.len(),
            texts(parts@) == numbered_scored_parts(results@, scores@).take(i as int),
        decreases results.len() - i,
    {
        let mut text = String::new();
        text.append(GREEN);
        text.append(string_from_chars(&decimal_exec(results[i].0)).as_str());
        text.append(":");
        text.append(RESET);
        text.append(" ");
        text.append(YELLOW);
        text.append("[");
        text.append(scores[i].as_str());
        text.append("]");
        text.append(RESET);
        text.append(" ");
        text.append(results[i].2.as_str());
        let ghost before = texts(parts@);
        assert(text@ =~= numbered_scored_parts(results@, scores@)[i as int]);
        parts.push(text);
        assert(texts(parts@) =~= before.push(text@));
        assert(texts(parts@) =~= numbered_scored_parts(results@, scores@).take(i + 1));
        i = i + 1;
    }
    assert(numbered_scored_parts(results@, scores@).take(results.len() as int)
        =~= numbered_scored_parts(results@, scores@));
    join_lines_exec(&parts)
}

/// The parts shown for the ranked lines as the two flags choose: each line
/// alone, or preceded by its number, its score text, or both.
pub open spec fn shown_parts(
    results: Seq<Ranked>,
    scores: Seq<String>,
    line_numbers: bool,
    score: bool,
) -> Seq<Seq<char>> {
    if line_numbers && score {
        numbered_scored_parts(results, scores)
    } else if line_numbers {
        numbered_parts(results)
    } else if score {
        scored_parts(results, scores)
    } else {
        plain_parts(results)
    }
}

/// The text shown for the ranked lines, one line of output each, with line
/// numbers when `line_numbers` and score texts when `score`: the score of
/// `results[i]` written as `scores[i]`.
pub fn show(results: Vec<Ranked>, scores: &Vec<String>, line_numbers: bool, score: bool) -> (r:
    String)
    requires
        scores@.len() == results@.len(),
    ensures
        r@ == join_lines(shown_parts(results@, scores@, line_numbers, score)),
{
    match (line_numbers, score) {
        (false, false) => display_plain(results),
        (true, false) => display_with_line_numbers(results),
        (false, true) => display_with_score(results, scores),
        (true, true) => display_with_line_numbers_and_score(results, scores),
    }
}

} // verus!
