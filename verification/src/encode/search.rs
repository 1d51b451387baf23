//! Finding a long match by binary search in a suffix array.

use vstd::prelude::*;

use crate::encode::suffix;

verus! {

/// The length of the common prefix of `a` and `b`.
pub open spec fn match_len(a: Seq<u8>, b: Seq<u8>) -> int
    decreases a.len(),
{
    if a.len() > 0 && b.len() > 0 && a[0] == b[0] {
        1 + match_len(a.skip(1), b.skip(1))
    } else {
        0
    }
}

/// `a` is lexicographically less than `b`.
pub open spec fn lex_less(a: Seq<u8>, b: Seq<u8>) -> bool
    decreases a.len(),
{
    if b.len() == 0 {
        false
    } else if a.len() == 0 {
        true
    } else {
        a[0] < b[0] || (a[0] == b[0] && lex_less(a.skip(1), b.skip(1)))
    }
}

pub open spec fn min(a: int, b: int) -> int {
    if a < b {
        a
    } else {
        b
    }
}

/// The suffix at `oi`, cut to the length of `new`, is less than `new` cut to the length of the suffix.
pub open spec fn suffix_less(from: Seq<u8>, oi: int, new: Seq<u8>) -> bool {
    let n = min(from.len() - oi, new.len() as int);
    lex_less(from.subrange(oi, oi + n), new.take(n))
}

/// The match of a prefix of `new` with a suffix of `from` that a binary search over `sa[st..=en]` ends
/// at: its length and its position in `from`. Of the two suffixes it ends between, the one with the
/// longer match counts, the later one if both match equally far.
pub open spec fn best_match(sa: Seq<int>, from: Seq<u8>, new: Seq<u8>, st: int, en: int) -> (
    int,
    int,
)
    decreases en - st,
{
    if en - st < 2 {
        let x = match_len(from.skip(sa[st]), new);
        let y = match_len(from.skip(sa[en]), new);
        if x > y {
            (x, sa[st])
        } else {
            (y, sa[en])
        }
    } else {
        let x = st + (en - st) / 2;
        if suffix_less(from, sa[x], new) {
            best_match(sa, from, new, x, en)
        } else {
            best_match(sa, from, new, st, x)
        }
    }
}

/// The match that a search over all suffixes of `from` ends at.
pub open spec fn match_in(from: Seq<u8>, new: Seq<u8>) -> (int, int) {
    best_match(suffix::with_sentinel(from), from, new, 0, from.len() as int)
}

proof fn lemma_match_len(a: Seq<u8>, b: Seq<u8>)
    ensures
        0 <= match_len(a, b) <= a.len(),
        match_len(a, b) <= b.len(),
    decreases a.len(),
{
    if a.len() > 0 && b.len() > 0 && a[0] == b[0] {
        lemma_match_len(a.skip(1), b.skip(1));
    }
}

proof fn lemma_best_match_bounds(sa: Seq<int>, from: Seq<u8>, new: Seq<u8>, st: int, en: int)
    requires
        0 <= st <= en < sa.len(),
        forall|x: int| 0 <= x < sa.len() ==> 0 <= #[trigger] sa[x] <= from.len(),
    ensures
        ({
            let (len, pos) = best_match(sa, from, new, st, en);
            &&& 0 <= len <= new.len()
            &&& 0 <= pos
            &&& pos + len <= from.len()
        }),
    decreases en - st,
{
    if en - st < 2 {
        lemma_match_len(from.skip(sa[st]), new);
        lemma_match_len(from.skip(sa[en]), new);
    } else {
        let x = st + (en - st) / 2;
        lemma_best_match_bounds(sa, from, new, x, en);
        lemma_best_match_bounds(sa, from, new, st, x);
    }
}

/// The places of a suffix array with the empty suffix in front.
pub proof fn lemma_sentinel_bounds(from: Seq<u8>)
    ensures
        suffix::with_sentinel(from).len() == from.len() + 1,
        forall|x: int|
            0 <= x <= from.len() ==> 0 <= #[trigger] suffix::with_sentinel(from)[x] <= from.len(),
        forall|x: int|
            1 <= x <= from.len() ==> 0 <= #[trigger] suffix::with_sentinel(from)[x] < from.len(),
{
    suffix::lemma_suffix_order(from);
    let sa = suffix::suffix_order(from);
    assert forall|x: int| 1 <= x <= from.len() implies 0 <= #[trigger] suffix::with_sentinel(
        from,
    )[x] < from.len() by {
        assert(suffix::with_sentinel(from)[x] == sa[x - 1]);
    }
}

/// A match lies within both strings.
pub proof fn lemma_match_bounds(from: Seq<u8>, new: Seq<u8>)
    ensures
        ({
            let (len, pos) = match_in(from, new);
            &&& 0 <= len <= new.len()
            &&& 0 <= pos
            &&& pos + len <= from.len()
        }),
{
    lemma_sentinel_bounds(from);
    lemma_best_match_bounds(suffix::with_sentinel(from), from, new, 0, from.len() as int);
}

/// The first byte of the suffix at place `x`, the empty suffix counting as less than any byte.
spec fn first_byte(sa: Seq<int>, from: Seq<u8>, x: int) -> int {
    if sa[x] < from.len() {
        from[sa[x]] as int
    } else {
        -1
    }
}

proof fn lemma_first_bytes_ascend(from: Seq<u8>, x: int, y: int)
    requires
        0 <= x <= y <= from.len(),
    ensures
        first_byte(suffix::with_sentinel(from), from, x) <= first_byte(
            suffix::with_sentinel(from),
            from,
            y,
        ),
{
    lemma_sentinel_bounds(from);
    suffix::lemma_suffix_order(from);
    let sa = suffix::with_sentinel(from);
    let order = suffix::suffix_order(from);
    if 1 <= x < y {
        assert(sa[x] == order[x - 1]);
        assert(sa[y] == order[y - 1]);
        assert(suffix::suffix_before(from, order[x - 1], order[y - 1]));
    }
}

proof fn lemma_search_finds(from: Seq<u8>, new: Seq<u8>, st: int, en: int, q: int)
    requires
        0 <= st <= en <= from.len(),
        1 <= q <= from.len(),
        new.len() > 0,
        first_byte(suffix::with_sentinel(from), from, q) == new[0],
        first_byte(suffix::with_sentinel(from), from, st) <= new[0],
        new[0] <= first_byte(suffix::with_sentinel(from), from, en),
    ensures
        best_match(suffix::with_sentinel(from), from, new, st, en).0 >= 1,
    decreases en - st,
{
    lemma_sentinel_bounds(from);
    let sa = suffix::with_sentinel(from);
    if en - st < 2 {
        if q <= st {
            lemma_first_bytes_ascend(from, q, st);
        } else {
            lemma_first_bytes_ascend(from, en, q);
        }
        lemma_match_len(from.skip(sa[st]), new);
        lemma_match_len(from.skip(sa[en]), new);
        lemma_match_len(from.skip(sa[st]).skip(1), new.skip(1));
        lemma_match_len(from.skip(sa[en]).skip(1), new.skip(1));
    } else {
        let x = st + (en - st) / 2;
        let oi = sa[x];
        assert(0 <= oi < from.len());
        let n = min(from.len() - oi, new.len() as int);
        assert(from.subrange(oi, oi + n)[0] == from[oi]);
        assert(new.take(n)[0] == new[0]);
        if suffix_less(from, oi, new) {
            lemma_search_finds(from, new, x, en, q);
        } else {
            lemma_search_finds(from, new, st, x, q);
        }
    }
}

/// If the first byte of `new` occurs in `from` at all, the search matches at least that byte.
pub proof fn lemma_match_nonempty(from: Seq<u8>, new: Seq<u8>, p: int)
    requires
        new.len() > 0,
        0 <= p < from.len(),
        from[p] == new[0],
    ensures
        match_in(from, new).0 >= 1,
{
    lemma_sentinel_bounds(from);
    suffix::lemma_suffix_order(from);
    let order = suffix::suffix_order(from);
    let a = suffix::lemma_position(order, from.len(), p);
    assert(suffix::with_sentinel(from)[a + 1] == order[a]);
    lemma_first_bytes_ascend(from, a + 1, from.len() as int);
    lemma_search_finds(from, new, 0, from.len() as int, a + 1);
}

/// The length of the common prefix of `a` and `b`.
pub fn matchlen(a: &[u8], b: &[u8]) -> (len: usize)
    ensures
        len == match_len(a@, b@),
        len <= a@.len(),
        len <= b@.len(),
{
    let n: usize = if a.len() < b.len() { a.len() } else { b.len() };
    let mut i: usize = 0;
    assert(a@.skip(0) =~= a@);
    assert(b@.skip(0) =~= b@);
    while i < n && a[i] == b[i]
        invariant
            n <= a@.len(),
            n <= b@.len(),
            i <= n,
            match_len(a@, b@) == i + match_len(a@.skip(i as int), b@.skip(i as int)),
        decreases n - i,
    {
        assert(a@.skip(i as int).skip(1) =~= a@.skip(i + 1));
        assert(b@.skip(i as int).skip(1) =~= b@.skip(i + 1));
        i = i + 1;
    }
    i
}

/// Compares the suffix of `from` at `oi` with `new`, as far as both go.
fn is_suffix_less(from: &[u8], oi: usize, new: &[u8]) -> (less: bool)
    requires
        oi <= from@.len(),
    ensures
        less == suffix_less(from@, oi as int, new@),
{
    let size: usize = from.len();
    let rest: usize = size - oi;
    let n: usize = if rest < new.len() { rest } else { new.len() };
    let ghost a = from@.subrange(oi as int, oi + n);
    let ghost b = new@.take(n as int);
    let mut i: usize = 0;
    assert(a.skip(0) =~= a);
    assert(b.skip(0) =~= b);
    while i < n
        invariant
            size == from@.len(),
            n == min(size - oi, new@.len() as int),
            oi + n <= from@.len(),
            i <= n,
            a == from@.subrange(oi as int, oi + n),
            b == new@.take(n as int),
            lex_less(a, b) == lex_less(a.skip(i as int), b.skip(i as int)),
        decreases n - i,
    {
        assert(a.skip(i as int)[0] == from@[oi + i]);
        assert(b.skip(i as int)[0] == new@[i as int]);
        if from[oi + i] < new[i] {
            return true;
        }
        if from[oi + i] > new[i] {
            return false;
        }
        assert(a.skip(i as int).skip(1) =~= a.skip(i + 1));
        assert(b.skip(i as int).skip(1) =~= b.skip(i + 1));
        i = i + 1;
    }
    false
}

/// A long prefix of `new` that occurs in `from`, by binary search in the suffix array `sa[st..=en]`: the
/// length of the match and its position. It need not be the longest one there is.
pub fn search(sa: &Vec<usize>, from: &[u8], new: &[u8], st: usize, en: usize) -> (found: (
    usize,
    usize,
))
    requires
        st <= en < sa@.len(),
        forall|x: int| 0 <= x < sa@.len() ==> #[trigger] sa@[x] <= from@.len(),
    ensures
        (found.0 as int, found.1 as int) == best_match(
            suffix::positions(sa@),
            from@,
            new@,
            st as int,
            en as int,
        ),
    decreases en - st,
{
    if en - st < 2 {
        let first: usize = sa[st];
        let last: usize = sa[en];
        let x: usize = matchlen(vstd::slice::slice_subrange(from, first, from.len()), new);
        let y: usize = matchlen(vstd::slice::slice_subrange(from, last, from.len()), new);
        assert(from@.subrange(first as int, from@.len() as int) =~= from@.skip(first as int));
        assert(from@.subrange(last as int, from@.len() as int) =~= from@.skip(last as int));
        if x > y {
            (x, first)
        } else {
            (y, last)
        }
    } else {
        let x: usize = st + (en - st) / 2;
        if is_suffix_less(from, sa[x], new) {
            search(sa, from, new, x, en)
        } else {
            search(sa, from, new, st, x)
        }
    }
}

} // verus!
