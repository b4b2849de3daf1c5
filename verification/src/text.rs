//! Text as sequences of `char`s: substring search, whitespace splitting and
//! UTF-8 byte offsets, the building blocks of the scoring heuristics.
use vstd::prelude::*;
use vstd::utf8::{encode_scalar, encode_utf8};

verus! {

broadcast use vstd::string::group_string_axioms;

/// `pat` occurs in `s` starting at char index `i`.
pub open spec fn matches_at(s: Seq<char>, pat: Seq<char>, i: int) -> bool {
    &&& 0 <= i
    &&& i + pat.len() <= s.len()
    &&& s.subrange(i, i + pat.len()) == pat
}

/// `pat` occurs somewhere in `s` (the empty pattern occurs in every text).
pub open spec fn contains(s: Seq<char>, pat: Seq<char>) -> bool {
    exists|i: int| matches_at(s, pat, i)
}

/// `s` begins with `pat`.
pub open spec fn starts_with(s: Seq<char>, pat: Seq<char>) -> bool {
    matches_at(s, pat, 0)
}

/// The first char index at or after `i` at which `pat` occurs in `s`.
pub open spec fn find_from(s: Seq<char>, pat: Seq<char>, i: int) -> Option<int>
    decreases s.len() + 1 - i,
{
    if i < 0 || i + pat.len() > s.len() {
        None
    } else if matches_at(s, pat, i) {
        Some(i)
    } else {
        find_from(s, pat, i + 1)
    }
}

/// The char index of the first occurrence of `pat` in `s`.
pub open spec fn find(s: Seq<char>, pat: Seq<char>) -> Option<int> {
    find_from(s, pat, 0)
}

/// `find_from` gives the least index at or after `i` at which `pat` occurs.
pub proof fn lemma_find_from(s: Seq<char>, pat: Seq<char>, i: int)
    requires
        0 <= i,
    ensures
        match find_from(s, pat, i) {
            Some(k) => i <= k && matches_at(s, pat, k) && forall|j: int|
                i <= j < k ==> !matches_at(s, pat, j),
            None => forall|j: int| i <= j ==> !matches_at(s, pat, j),
        },
    decreases s.len() + 1 - i,
{
    if i + pat.len() > s.len() {
    } else if matches_at(s, pat, i) {
    } else {
        lemma_find_from(s, pat, i + 1);
    }
}

/// `find` succeeds exactly when `pat` occurs, at its first occurrence.
pub proof fn lemma_find(s: Seq<char>, pat: Seq<char>)
    ensures
        find(s, pat) is Some <==> contains(s, pat),
        find(s, pat) matches Some(k) ==> matches_at(s, pat, k) && forall|j: int|
            0 <= j < k ==> !matches_at(s, pat, j),
{
    lemma_find_from(s, pat, 0);
    if find(s, pat) is None && contains(s, pat) {
        let j = choose|j: int| matches_at(s, pat, j);
        assert(!matches_at(s, pat, j));
    }
}

/// What `char::is_whitespace` answers: whether the char has the Unicode
/// `White_Space` property, held by these 25 code points.
pub open spec fn is_whitespace(c: char) -> bool {
    let u = c as u32;
    ||| 0x09 <= u <= 0x0d
    ||| u == 0x20
    ||| u == 0x85
    ||| u == 0xa0
    ||| u == 0x1680
    ||| 0x2000 <= u <= 0x200a
    ||| u == 0x2028
    ||| u == 0x2029
    ||| u == 0x202f
    ||| u == 0x205f
    ||| u == 0x3000
}

/// What `char::is_alphanumeric` answers: whether the char is alphabetic or
/// numeric in the Unicode sense.
pub uninterp spec fn is_alphanumeric(c: char) -> bool;

/// What `str::to_lowercase` gives for a text: its Unicode lowercase form.
pub uninterp spec fn lowercase(s: Seq<char>) -> Seq<char>;

/// Whether `c` is whitespace, as `char::is_whitespace` answers.
pub(crate) fn char_is_whitespace(c: char) -> (r: bool)
    ensures
        r == is_whitespace(c),
{
    let u = c as u32;
    (0x09 <= u && u <= 0x0d) || u == 0x20 || u == 0x85 || u == 0xa0 || u == 0x1680 || (0x2000
        <= u && u <= 0x200a) || u == 0x2028 || u == 0x2029 || u == 0x202f || u == 0x205f || u
        == 0x3000
}

/// Calls `char::is_alphanumeric`; its answer is named `is_alphanumeric`.
#[verifier::external_body]
pub(crate) fn char_is_alphanumeric(c: char) -> (r: bool)
    ensures
        r == is_alphanumeric(c),
{
    c.is_alphanumeric()
}

/// Calls `str::to_lowercase`; its result is named `lowercase`.
#[verifier::external_body]
pub(crate) fn to_lowercase(s: &str) -> (r: String)
    ensures
        r@ == lowercase(s@),
{
    s.to_lowercase()
}

/// Splitting state after reading `s`: the finished words and the word being
/// read.
pub open spec fn split_state(s: Seq<char>) -> (Seq<Seq<char>>, Seq<char>)
    decreases s.len(),
{
    if s.len() == 0 {
        (seq![], seq![])
    } else {
        let (words, cur) = split_state(s.drop_last());
        let c = s.last();
        if is_whitespace(c) {
            if cur.len() > 0 {
                (words.push(cur), seq![])
            } else {
                (words, seq![])
            }
        } else {
            (words, cur.push(c))
        }
    }
}

/// The maximal runs of non-whitespace chars of `s`, in order: what
/// `str::split_whitespace` yields.
pub open spec fn split_whitespace(s: Seq<char>) -> Seq<Seq<char>> {
    let (words, cur) = split_state(s);
    if cur.len() > 0 {
        words.push(cur)
    } else {
        words
    }
}

/// The texts held by a list of char vectors.
pub open spec fn words_view(v: Seq<Vec<char>>) -> Seq<Seq<char>> {
    v.map_values(|w: Vec<char>| w@)
}

/// A text free of whitespace.
pub open spec fn no_whitespace(w: Seq<char>) -> bool {
    forall|j: int| 0 <= j < w.len() ==> !is_whitespace(#[trigger] w[j])
}

/// The words of the splitting state are non-empty and free of whitespace,
/// and so is the word being read.
pub proof fn lemma_split_state_words(s: Seq<char>)
    ensures
        forall|i: int|
            0 <= i < split_state(s).0.len() ==> #[trigger] split_state(s).0[i].len() > 0
                && no_whitespace(split_state(s).0[i]),
        no_whitespace(split_state(s).1),
    decreases s.len(),
{
    if s.len() > 0 {
        lemma_split_state_words(s.drop_last());
        let (words, cur) = split_state(s.drop_last());
        let c = s.last();
        if !is_whitespace(c) {
            assert forall|j: int| 0 <= j < cur.push(c).len() implies !is_whitespace(
                #[trigger] cur.push(c)[j],
            ) by {
                if j < cur.len() {
                    assert(cur.push(c)[j] == cur[j]);
                }
            }
        }
    }
}

/// The words of a text are non-empty and hold no whitespace.
pub proof fn lemma_split_whitespace_words(s: Seq<char>)
    ensures
        forall|i: int|
            0 <= i < split_whitespace(s).len() ==> #[trigger] split_whitespace(s)[i].len() > 0
                && no_whitespace(split_whitespace(s)[i]),
{
    lemma_split_state_words(s);
}

/// The words of `s`, as `str::split_whitespace` yields them.
pub fn split_whitespace_exec(s: &Vec<char>) -> (r: Vec<Vec<char>>)
    ensures
        words_view(r@) == split_whitespace(s@),
{
    let mut words: Vec<Vec<char>> = Vec::new();
    let mut cur: Vec<char> = Vec::new();
    let mut i: usize = 0;
    while i < s.len()
        invariant
            i <= s.len(),
            (words_view(words@), cur@) == split_state(s@.take(i as int)),
        decreases s.len() - i,
    {
        let c = s[i];
        proof {
            assert(s@.take(i + 1).drop_last() =~= s@.take(i as int));
        }
        if char_is_whitespace(c) {
            if cur.len() > 0 {
                let ghost old_words = words_view(words@);
                let ghost w_view = cur@;
                let w = cur;
                words.push(w);
                cur = Vec::new();
                assert(words_view(words@) =~= old_words.push(w_view));
                assert(words_view(words@) =~= split_state(s@.take(i + 1)).0);
            } else {
                cur = Vec::new();
            }
        } else {
            cur.push(c);
        }
        assert(cur@ =~= split_state(s@.take(i + 1)).1);
        i = i + 1;
    }
    assert(s@.take(s.len() as int) =~= s@);
    if cur.len() > 0 {
        let ghost old_words = words_view(words@);
        let ghost w_view = cur@;
        words.push(cur);
        assert(words_view(words@) =~= old_words.push(w_view));
        assert(words_view(words@) =~= split_whitespace(s@));
    }
    words
}

/// The number of bytes of the UTF-8 encoding of `s`: its length as a `str`.
pub open spec fn byte_len(s: Seq<char>) -> nat {
    encode_utf8(s).len()
}

/// The byte offset of char index `i` in the UTF-8 encoding of `s`.
pub open spec fn byte_offset(s: Seq<char>, i: int) -> nat {
    byte_len(s.take(i))
}

/// UTF-8 encoding distributes over concatenation.
pub proof fn lemma_encode_utf8_concat(a: Seq<char>, b: Seq<char>)
    ensures
        encode_utf8(a + b) == encode_utf8(a) + encode_utf8(b),
    decreases a.len(),
{
    if a.len() == 0 {
        assert(a + b =~= b);
        assert(encode_utf8(a) =~= seq![]);
        assert(encode_utf8(a) + encode_utf8(b) =~= encode_utf8(b));
    } else {
        lemma_encode_utf8_concat(a.drop_first(), b);
        assert((a + b).drop_first() =~= a.drop_first() + b);
        assert((a + b)[0] == a[0]);
        assert(encode_utf8(a + b) =~= encode_scalar(a[0] as u32) + encode_utf8(
            a.drop_first() + b,
        ));
        assert(encode_utf8(a) + encode_utf8(b) =~= encode_scalar(a[0] as u32) + (encode_utf8(
            a.drop_first(),
        ) + encode_utf8(b)));
    }
}

/// The number of bytes that encode `c` in UTF-8, as `char::len_utf8` counts.
pub fn utf8_width(c: char) -> (w: usize)
    ensures
        w == byte_len(seq![c]),
        1 <= w <= 4,
{
    proof {
        assert(seq![c].drop_first() =~= Seq::<char>::empty());
        assert(encode_utf8(seq![c]) =~= encode_scalar(c as u32) + encode_utf8(
            Seq::<char>::empty(),
        ));
        assert(encode_utf8(Seq::<char>::empty()) =~= Seq::<u8>::empty());
    }
    let u = c as u32;
    if u <= 0x7f {
        1
    } else if u <= 0x7ff {
        2
    } else if u <= 0xffff {
        3
    } else {
        4
    }
}

/// The byte offset of each char index `i <= s.len()`, one step at a time.
pub proof fn lemma_byte_offset_step(s: Seq<char>, i: int)
    requires
        0 <= i < s.len(),
    ensures
        byte_offset(s, i + 1) == byte_offset(s, i) + byte_len(seq![s[i]]),
{
    assert(s.take(i + 1) =~= s.take(i) + seq![s[i]]);
    lemma_encode_utf8_concat(s.take(i), seq![s[i]]);
}

/// The byte offset of char index `i` in `s`. It is counted in a `u128`,
/// which holds four bytes for every char a `Vec` can hold.
pub fn byte_offset_exec(s: &Vec<char>, i: usize) -> (r: u128)
    requires
        i <= s.len(),
    ensures
        r == byte_offset(s@, i as int),
{
    let mut off: u128 = 0;
    let mut k: usize = 0;
    proof {
        assert(s@.take(0) =~= Seq::<char>::empty());
        assert(encode_utf8(Seq::<char>::empty()) =~= Seq::<u8>::empty());
    }
    while k < i
        invariant
            k <= i <= s.len(),
            off == byte_offset(s@, k as int),
            off <= 4 * k,
        decreases i - k,
    {
        proof {
            lemma_byte_offset_step(s@, k as int);
        }
        let w = utf8_width(s[k]);
        off = off + w as u128;
        k = k + 1;
    }
    off
}

/// The number of bytes of the UTF-8 encoding of `s`.
pub fn byte_len_exec(s: &Vec<char>) -> (r: u128)
    ensures
        r == byte_len(s@),
{
    assert(s@.take(s@.len() as int) =~= s@);
    byte_offset_exec(s, s.len())
}

/// Calls `String::from_iter` on the chars; the string holds exactly them.
#[verifier::external_body]
pub(crate) fn string_from_chars(v: &Vec<char>) -> (r: String)
    ensures
        r@ == v@,
{
    v.iter().collect()
}

/// The chars of a string slice.
pub fn chars_of(s: &str) -> (r: Vec<char>)
    ensures
        r@ == s@,
{
    let mut r: Vec<char> = Vec::new();
    for c in it: s.chars()
        invariant
            it.seq() == s@,
            r@ == it.seq().take(it.index()),
    {
        r.push(c);
    }
    r
}

/// Whether `pat` occurs in `s` at char index `i`.
pub fn matches_at_exec(s: &Vec<char>, pat: &Vec<char>, i: usize) -> (r: bool)
    ensures
        r == matches_at(s@, pat@, i as int),
{
    if i > s.len() || pat.len() > s.len() - i {
        return false;
    }
    let mut k: usize = 0;
    while k < pat.len()
        invariant
            i + pat.len() <= s.len(),
            k <= pat.len(),
            forall|j: int| 0 <= j < k ==> s@[i + j] == pat@[j],
        decreases pat.len() - k,
    {
        if s[i + k] != pat[k] {
            assert(s@.subrange(i as int, i + pat.len())[k as int] != pat@[k as int]);
            return false;
        }
        k = k + 1;
    }
    assert(s@.subrange(i as int, i + pat.len()) =~= pat@);
    true
}

/// The first char index at or after `from` at which `pat` occurs in `s`.
pub fn find_from_exec(s: &Vec<char>, pat: &Vec<char>, from: usize) -> (r: Option<usize>)
    ensures
        r matches Some(k) ==> find_from(s@, pat@, from as int) == Some(k as int),
        r is None ==> find_from(s@, pat@, from as int) is None,
{
    if pat.len() == 0 {
        return if from <= s.len() {
            assert(s@.subrange(from as int, from as int) =~= pat@);
            Some(from)
        } else {
            None
        };
    }
    let mut i = from;
    while i <= s.len() && pat.len() <= s.len() - i
        invariant
            from <= i,
            pat.len() > 0,
            find_from(s@, pat@, from as int) == find_from(s@, pat@, i as int),
        decreases s.len() + 1 - i,
    {
        if matches_at_exec(s, pat, i) {
            return Some(i);
        }
        i = i + 1;
    }
    None
}

/// Whether `pat` occurs in `s`.
pub fn contains_exec(s: &Vec<char>, pat: &Vec<char>) -> (r: bool)
    ensures
        r == contains(s@, pat@),
{
    proof {
        lemma_find(s@, pat@);
    }
    find_from_exec(s, pat, 0).is_some()
}

} // verus!
