//! Ranking of the found lines: a stable sort by descending score, cut to the
//! requested share of the lines.
//!
//! A found line is a triple of its line number, the order key of its score
//! and its text. Order keys compare as the scores do: a higher key is a
//! higher score.
use vstd::prelude::*;

verus! {

/// A found line: its number, the order key of its score, its text.
pub type Ranked = (usize, u64, String);

/// How many leading items of `s` have a key above `k`: where an item with
/// key `k` goes in `s`, ahead of the items whose key equals its own.
pub open spec fn insert_pos(s: Seq<Ranked>, k: u64) -> nat
    decreases s.len(),
{
    if s.len() == 0 || s[0].1 <= k {
        0
    } else {
        1 + insert_pos(s.drop_first(), k)
    }
}

/// `s` sorted by descending key; items with equal keys keep their order.
pub open spec fn sorted_desc(s: Seq<Ranked>) -> Seq<Ranked>
    decreases s.len(),
{
    if s.len() == 0 {
        s
    } else {
        let t = sorted_desc(s.drop_first());
        t.insert(insert_pos(t, s[0].1) as int, s[0])
    }
}

/// The keys of `s` never increase.
pub open spec fn is_descending(s: Seq<Ranked>) -> bool {
    forall|i: int, j: int| 0 <= i < j < s.len() ==> s[i].1 >= s[j].1
}

/// The items of `s` whose key is `k`, in order.
pub open spec fn with_key(s: Seq<Ranked>, k: u64) -> Seq<Ranked> {
    s.filter(key_is(k))
}

/// Whether an item's key is `k`.
pub open spec fn key_is(k: u64) -> spec_fn(Ranked) -> bool {
    |x: Ranked| x.1 == k
}

/// `insert_pos` lies within `s`, and every item ahead of it has a key above
/// `k`.
pub proof fn lemma_insert_pos_bound(s: Seq<Ranked>, k: u64)
    ensures
        insert_pos(s, k) <= s.len(),
        forall|i: int| 0 <= i < insert_pos(s, k) ==> s[i].1 > k,
        insert_pos(s, k) < s.len() ==> s[insert_pos(s, k) as int].1 <= k,
    decreases s.len(),
{
    if s.len() > 0 && s[0].1 > k {
        lemma_insert_pos_bound(s.drop_first(), k);
        assert forall|i: int| 0 <= i < insert_pos(s, k) implies s[i].1 > k by {
            if i > 0 {
                assert(s[i] == s.drop_first()[i - 1]);
            }
        }
    }
}

/// Sorting keeps the number of items.
pub proof fn lemma_sorted_desc_len(s: Seq<Ranked>)
    ensures
        sorted_desc(s).len() == s.len(),
    decreases s.len(),
{
    if s.len() > 0 {
        let t = sorted_desc(s.drop_first());
        lemma_sorted_desc_len(s.drop_first());
        lemma_insert_pos_bound(t, s[0].1);
    }
}

/// The sorted lines are in descending order of score.
pub proof fn lemma_sorted_desc_is_descending(s: Seq<Ranked>)
    ensures
        is_descending(sorted_desc(s)),
    decreases s.len(),
{
    if s.len() > 0 {
        let x = s[0];
        let t = sorted_desc(s.drop_first());
        lemma_sorted_desc_is_descending(s.drop_first());
        lemma_insert_pos_bound(t, x.1);
        let p = insert_pos(t, x.1) as int;
        let r = t.insert(p, x);
        t.insert_ensures(p, x);
        assert forall|i: int, j: int| 0 <= i < j < r.len() implies r[i].1 >= r[j].1 by {
            if j < p {
            } else if j == p {
            } else if i < p {
                assert(r[j] == t[j - 1]);
                assert(t[i].1 >= t[j - 1].1);
            } else if i == p {
                assert(r[j] == t[j - 1]);
                if p < t.len() {
                    assert(t[p].1 >= t[j - 1].1);
                }
            } else {
                assert(r[i] == t[i - 1]);
                assert(r[j] == t[j - 1]);
            }
        }
    }
}

/// The sorted lines are the same lines, each as often.
pub proof fn lemma_sorted_desc_permutes(s: Seq<Ranked>)
    ensures
        sorted_desc(s).to_multiset() == s.to_multiset(),
    decreases s.len(),
{
    if s.len() > 0 {
        let x = s[0];
        let tail = s.drop_first();
        let t = sorted_desc(tail);
        lemma_sorted_desc_permutes(tail);
        lemma_insert_pos_bound(t, x.1);
        let p = insert_pos(t, x.1) as int;
        let r = t.insert(p, x);
        t.insert_ensures(p, x);
        r.to_multiset_ensures();
        assert(r.remove(p) =~= t);
        assert(r.to_multiset().count(x) > 0) by {
            assert(r[p] == x);
            assert(r.contains(x));
        }
        assert(r.to_multiset() =~= t.to_multiset().insert(x));
        tail.to_multiset_ensures();
        assert(s =~= seq![x] + tail);
        vstd::seq_lib::lemma_multiset_commutative(seq![x], tail);
        seq![x].to_multiset_ensures();
        assert(seq![x] =~= Seq::<Ranked>::empty().push(x));
        Seq::<Ranked>::empty().to_multiset_ensures();
        assert(Seq::<Ranked>::empty().to_multiset() =~= vstd::multiset::Multiset::empty()) by {
            Seq::<Ranked>::empty().to_multiset_ensures();
        }
    }
}

/// Lines with equal scores keep their order: for every score, the sorted
/// lines with that score are the input lines with that score, in the same
/// order.
pub proof fn lemma_sorted_desc_stable(s: Seq<Ranked>, k: u64)
    ensures
        with_key(sorted_desc(s), k) == with_key(s, k),
    decreases s.len(),
{
    broadcast use vstd::seq_lib::group_filter_ensures;

    if s.len() > 0 {
        let pred = key_is(k);
        let x = s[0];
        let tail = s.drop_first();
        let t = sorted_desc(tail);
        lemma_sorted_desc_stable(tail, k);
        lemma_insert_pos_bound(t, x.1);
        let p = insert_pos(t, x.1) as int;
        assert(t.insert(p, x) =~= t.take(p) + (seq![x] + t.skip(p)));
        Seq::filter_distributes_over_add(t.take(p), seq![x] + t.skip(p), pred);
        t.skip(p).lemma_filter_prepend(x, pred);
        assert(t =~= t.take(p) + t.skip(p));
        Seq::filter_distributes_over_add(t.take(p), t.skip(p), pred);
        assert(s =~= seq![x] + tail);
        tail.lemma_filter_prepend(x, pred);
        if x.1 == k {
            assert(t.take(p).filter(pred) =~= Seq::<Ranked>::empty()) by {
                assert(t.take(p).all(|y: Ranked| !pred(y)));
                t.take(p).lemma_all_neg_filter_empty(pred);
            }
        }
        assert(with_key(sorted_desc(s), k) =~= with_key(s, k));
    }
}

/// The share kept is never zero.
pub proof fn lemma_top_lines_at_least_one(top_percent: u8, lines: nat)
    ensures
        top_lines(top_percent, lines) >= 1,
{
}

/// The share kept is `top_percent` percent of the lines rounded up: the
/// least whole number of lines that reaches that share, when it is not zero.
pub proof fn lemma_top_lines_rounds_up(top_percent: u8, lines: nat)
    requires
        top_percent * lines > 0,
    ensures
        top_lines(top_percent, lines) * 100 >= top_percent * lines,
        (top_lines(top_percent, lines) - 1) * 100 < top_percent * lines,
{
    let x = top_percent * lines;
    assert((x + 99) / 100 * 100 >= x && ((x + 99) / 100 - 1) * 100 < x) by (nonlinear_arith)
        requires
            x > 0,
    ;
}

/// A share of at most 100 percent keeps no more lines than there are, when
/// there is one.
pub proof fn lemma_top_lines_at_most_all(top_percent: u8, lines: nat)
    requires
        top_percent <= 100,
        lines >= 1,
    ensures
        top_lines(top_percent, lines) <= lines,
{
    let t = top_percent as nat;
    assert((t * lines + 99) / 100 <= lines) by (nonlinear_arith)
        requires
            t <= 100,
            lines >= 1,
    ;
}

/// A larger share keeps at least as many lines.
pub proof fn lemma_top_lines_monotonic(a: u8, b: u8, lines: nat)
    requires
        a <= b,
    ensures
        top_lines(a, lines) <= top_lines(b, lines),
{
    assert(a * lines <= b * lines) by (nonlinear_arith)
        requires
            a <= b,
    ;
    let x = a * lines + 99;
    let y = b * lines + 99;
    assert(x / 100 <= y / 100) by (nonlinear_arith)
        requires
            x <= y,
            0 <= x,
    ;
}

/// What `Filter::apply` keeps of `s` for a share of `top_percent`: the
/// lines sorted by descending score, cut to the share.
pub open spec fn applied(top_percent: u8, s: Seq<Ranked>) -> Seq<Ranked> {
    sorted_desc(s).take(vstd::math::min(top_lines(top_percent, s.len()) as int, s.len() as int))
}

/// The lines kept are the best ones: as many as the share asks (all when
/// there are fewer), at least one when there is one, in descending order of
/// score, each one a line of the input, and none scoring below a line left
/// out.
pub proof fn lemma_apply_keeps_best(top_percent: u8, s: Seq<Ranked>)
    ensures
        applied(top_percent, s).len() == vstd::math::min(
            top_lines(top_percent, s.len()) as int,
            s.len() as int,
        ),
        s.len() > 0 ==> applied(top_percent, s).len() > 0,
        is_descending(applied(top_percent, s)),
        forall|i: int|
            0 <= i < applied(top_percent, s).len() ==> s.contains(
                #[trigger] applied(top_percent, s)[i],
            ),
        forall|i: int, j: int|
            0 <= i < applied(top_percent, s).len() <= j < s.len() ==> applied(top_percent, s)[i].1
                >= sorted_desc(s)[j].1,
{
    let t = sorted_desc(s);
    let m = vstd::math::min(top_lines(top_percent, s.len()) as int, s.len() as int);
    lemma_sorted_desc_len(s);
    lemma_sorted_desc_is_descending(s);
    lemma_sorted_desc_permutes(s);
    let r = t.take(m);
    assert forall|i: int| 0 <= i < r.len() implies s.contains(#[trigger] r[i]) by {
        assert(r[i] == t[i]);
        t.to_multiset_ensures();
        s.to_multiset_ensures();
        assert(t.contains(t[i]));
        assert(t.to_multiset().count(r[i]) > 0);
        assert(s.to_multiset().count(r[i]) > 0);
    }
}

/// Lines already in descending order of score stay as they are.
pub proof fn lemma_sorted_desc_of_descending(s: Seq<Ranked>)
    requires
        is_descending(s),
    ensures
        sorted_desc(s) == s,
    decreases s.len(),
{
    if s.len() > 0 {
        let tail = s.drop_first();
        assert(is_descending(tail)) by {
            assert forall|i: int, j: int| 0 <= i < j < tail.len() implies tail[i].1 >= tail[j].1 by {
                assert(tail[i] == s[i + 1] && tail[j] == s[j + 1]);
            }
        }
        lemma_sorted_desc_of_descending(tail);
        if tail.len() > 0 {
            assert(tail[0] == s[1]);
        }
        assert(insert_pos(tail, s[0].1) == 0);
        assert(tail.insert(0, s[0]) =~= s);
    }
}

/// Sorting sorted lines changes nothing.
pub proof fn lemma_sort_idempotent(s: Seq<Ranked>)
    ensures
        sorted_desc(sorted_desc(s)) == sorted_desc(s),
{
    lemma_sorted_desc_is_descending(s);
    lemma_sorted_desc_of_descending(sorted_desc(s));
}

/// How many lines a share of `top_percent` percent of `lines` lines keeps:
/// the share rounded up, and at least one.
pub open spec fn top_lines(top_percent: u8, lines: nat) -> nat {
    let share = (top_percent * lines + 99) / 100;
    if share >= 1 {
        share as nat
    } else {
        1
    }
}

/// The magnitude bits of an IEEE-754 double's bit pattern: all but the sign.
pub open spec fn magnitude(bits: u64) -> int {
    (bits % 0x8000_0000_0000_0000) as int
}

/// The signed ordinal of an IEEE-754 double's bit pattern: its magnitude
/// bits, negated when the sign bit is set, 0 for both zeros. For doubles
/// that are not NaN, the ordinals order as the values do (the order that
/// `f64::total_cmp` documents, with the two zeros made equal).
pub open spec fn ordinal(bits: u64) -> int {
    if bits < 0x8000_0000_0000_0000 {
        magnitude(bits)
    } else {
        -magnitude(bits)
    }
}

/// The order key of a score given by its bit pattern: its ordinal, shifted
/// to be non-negative.
pub fn score_key(bits: u64) -> (k: u64)
    ensures
        k == ordinal(bits) + 0x8000_0000_0000_0000,
{
    if bits < 0x8000_0000_0000_0000 {
        bits + 0x8000_0000_0000_0000
    } else {
        0x8000_0000_0000_0000 - (bits - 0x8000_0000_0000_0000)
    }
}

/// The bit pattern of the score with order key `k`; a zero comes back
/// positive.
pub fn score_bits(k: u64) -> (bits: u64)
    requires
        k > 0,
    ensures
        ordinal(bits) + 0x8000_0000_0000_0000 == k,
        bits != 0x8000_0000_0000_0000,
{
    if k >= 0x8000_0000_0000_0000 {
        k - 0x8000_0000_0000_0000
    } else {
        0x8000_0000_0000_0000 + (0x8000_0000_0000_0000 - k)
    }
}

/// Bit patterns with equal ordinals are equal, but for the two zeros: a
/// score taken to its key and back keeps its bit pattern, a negative zero
/// comes back positive.
pub proof fn lemma_ordinal_injective(a: u64, b: u64)
    requires
        ordinal(a) == ordinal(b),
        a != b,
    ensures
        (a == 0 && b == 0x8000_0000_0000_0000) || (a == 0x8000_0000_0000_0000 && b == 0),
{
}

/// The ranking of the found lines.
pub struct Filter {}

impl Filter {
    /// Sorts the lines by descending score and keeps the best `top` percent
    /// of them, rounded up, and at least one when there is one.
    pub fn apply(top: u8, results: &mut Vec<Ranked>)
        requires
            top * old(results)@.len() + 99 <= usize::MAX,
        ensures
            final(results)@ == sorted_desc(old(results)@).take(
                vstd::math::min(top_lines(top, old(results)@.len()) as int, old(results)@.len() as int),
            ),
    {
        proof {
            lemma_sorted_desc_len(old(results)@);
        }
        Self::sort_results(results);
        let limit = Self::calculate_top_lines(top, results.len());
        results.truncate(limit);
    }

    /// Sorts the lines by descending score; lines with equal scores keep
    /// their order.
    pub fn sort_results(results: &mut Vec<Ranked>)
        ensures
            final(results)@ == sorted_desc(old(results)@),
    {
        let ghost orig = results@;
        let mut sorted: Vec<Ranked> = Vec::new();
        assert(orig.skip(orig.len() as int) =~= Seq::<Ranked>::empty());
        while results.len() > 0
            invariant
                results@ == orig.take(results@.len() as int),
                results@.len() <= orig.len(),
                sorted@ == sorted_desc(orig.skip(results@.len() as int)),
            decreases results@.len(),
        {
            let ghost n = results@.len() - 1;
            let x = results.pop().unwrap();
            assert(orig.skip(n).drop_first() =~= orig.skip(n + 1));
            assert(orig.skip(n)[0] == x);
            assert(results@ =~= orig.take(n));
            let mut j: usize = 0;
            assert(sorted@.skip(0) =~= sorted@);
            while j < sorted.len() && sorted[j].1 > x.1
                invariant
                    j <= sorted@.len(),
                    insert_pos(sorted@, x.1) == j + insert_pos(sorted@.skip(j as int), x.1),
                decreases sorted@.len() - j,
            {
                assert(sorted@.skip(j as int).drop_first() =~= sorted@.skip(j + 1));
                j = j + 1;
            }
            proof {
                lemma_insert_pos_bound(sorted@, x.1);
            }
            sorted.insert(j, x);
        }
        assert(orig.skip(0) =~= orig);
        *results = sorted;
    }

    /// How many lines a share of `top_percent` percent of `lines` lines
    /// keeps: the share rounded up, and at least one.
    pub fn calculate_top_lines(top_percent: u8, lines: usize) -> (r: usize)
        requires
            top_percent * lines + 99 <= usize::MAX,
        ensures
            r == top_lines(top_percent, lines as nat),
    {
        let top = top_percent as usize;
        let share = (top * lines + 99) / 100;
        if share >= 1 {
            share
        } else {
            1
        }
    }
}

} // verus!
