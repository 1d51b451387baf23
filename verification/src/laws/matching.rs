//! How a diff finds and extends matches.

use vstd::prelude::*;

use crate::encode::bsdiff;
use crate::encode::search;
use crate::encode::suffix;

verus! {

/// The suffixes at `i` and `j` agree `x` places on.
pub open spec fn agree(s: Seq<u8>, i: int, j: int, x: int) -> bool {
    i + x < s.len() && s[i + x] == s[j + x]
}

/// The suffix at `i` sorts before the one at `j` by the byte `k` places on: they agree up to there, and the first
/// ends there or has the smaller byte.
pub open spec fn decides(s: Seq<u8>, i: int, j: int, k: int) -> bool {
    &&& 0 <= k
    &&& j + k < s.len()
    &&& forall|x: int| 0 <= x < k ==> #[trigger] agree(s, i, j, x)
    &&& i + k >= s.len() || s[i + k] < s[j + k]
}

proof fn lemma_decides(s: Seq<u8>, i: int, j: int, h: nat) -> (k: int)
    requires
        0 <= i,
        0 <= j,
        suffix::sorts_before(s, i, j, h),
    ensures
        decides(s, i, j, k),
        k < h,
    decreases h,
{
    if i >= s.len() || s[i] < s[j] {
        0
    } else {
        let k = lemma_decides(s, i + 1, j + 1, (h - 1) as nat);
        assert forall|x: int| 0 <= x < k + 1 implies #[trigger] agree(s, i, j, x) by {
            if x > 0 {
                assert(agree(s, i + 1, j + 1, x - 1));
            }
        }
        k + 1
    }
}

proof fn lemma_decided(s: Seq<u8>, i: int, j: int, h: nat, k: int)
    requires
        0 <= i,
        0 <= j,
        decides(s, i, j, k),
        k < h,
    ensures
        suffix::sorts_before(s, i, j, h),
    decreases h,
{
    if k > 0 {
        assert(agree(s, i, j, 0));
        assert forall|x: int| 0 <= x < k - 1 implies #[trigger] agree(s, i + 1, j + 1, x) by {
            assert(agree(s, i, j, x + 1));
        }
        lemma_decided(s, i + 1, j + 1, (h - 1) as nat, k - 1);
    }
}

/// Suffixes are ordered by the first byte in which they differ, and one that ends first comes first.
pub proof fn order_of_suffixes(s: Seq<u8>, i: int, j: int)
    requires
        0 <= i < s.len(),
        0 <= j < s.len(),
    ensures
        suffix::suffix_before(s, i, j) <==> exists|k: int| decides(s, i, j, k),
{
    if suffix::suffix_before(s, i, j) {
        let k = lemma_decides(s, i, j, s.len());
        assert(decides(s, i, j, k));
    }
    if exists|k: int| decides(s, i, j, k) {
        let k = choose|k: int| decides(s, i, j, k);
        lemma_decided(s, i, j, s.len(), k);
    }
}

/// The suffix at `oi` is less than `new` by the byte `k` places on, which both have.
pub open spec fn less_at(from: Seq<u8>, oi: int, new: Seq<u8>, k: int) -> bool {
    &&& 0 <= k < new.len()
    &&& oi + k < from.len()
    &&& forall|x: int| 0 <= x < k ==> from[oi + x] == #[trigger] new[x]
    &&& from[oi + k] < new[k]
}

proof fn lemma_lex(a: Seq<u8>, b: Seq<u8>) -> (k: int)
    requires
        a.len() == b.len(),
        search::lex_less(a, b),
    ensures
        0 <= k < a.len(),
        forall|x: int| 0 <= x < k ==> a[x] == #[trigger] b[x],
        a[k] < b[k],
    decreases a.len(),
{
    if a[0] < b[0] {
        0
    } else {
        let (c, d) = (a.skip(1), b.skip(1));
        let k = lemma_lex(c, d);
        assert forall|x: int| 0 <= x < k + 1 implies a[x] == #[trigger] b[x] by {
            if x > 0 {
                assert(c[x - 1] == d[x - 1]);
            }
        }
        k + 1
    }
}

proof fn lemma_lexed(a: Seq<u8>, b: Seq<u8>, k: int)
    requires
        a.len() == b.len(),
        0 <= k < a.len(),
        forall|x: int| 0 <= x < k ==> a[x] == #[trigger] b[x],
        a[k] < b[k],
    ensures
        search::lex_less(a, b),
    decreases a.len(),
{
    if k > 0 {
        assert(a[0] == b[0]);
        let (c, d) = (a.skip(1), b.skip(1));
        assert forall|x: int| 0 <= x < k - 1 implies c[x] == #[trigger] d[x] by {
            assert(a[x + 1] == b[x + 1]);
        }
        lemma_lexed(c, d, k - 1);
    }
}

/// A suffix counts as less than what is looked for if the first byte in which they differ, of those that both
/// have, is smaller.
pub proof fn smaller_suffix(from: Seq<u8>, oi: int, new: Seq<u8>)
    requires
        0 <= oi <= from.len(),
    ensures
        search::suffix_less(from, oi, new) <==> exists|k: int| less_at(from, oi, new, k),
{
    let n = search::min(from.len() - oi, new.len() as int);
    let (a, b) = (from.subrange(oi, oi + n), new.take(n));
    if search::lex_less(a, b) {
        let k = lemma_lex(a, b);
        assert forall|x: int| 0 <= x < k implies from[oi + x] == #[trigger] new[x] by {
            assert(a[x] == b[x]);
        }
        assert(less_at(from, oi, new, k));
    }
    if exists|k: int| less_at(from, oi, new, k) {
        let k = choose|k: int| less_at(from, oi, new, k);
        assert forall|x: int| 0 <= x < k implies a[x] == #[trigger] b[x] by {
            assert(from[oi + x] == new[x]);
        }
        lemma_lexed(a, b, k);
    }
}

/// A search over the places `st..=en` ends at the places `i` and `j`, which are neighbours: what stands at `i` is
/// less than what is looked for, unless `i` is the first place, and what stands at `j` is not, unless `j` is the
/// last.
pub open spec fn ends_at(sa: Seq<int>, from: Seq<u8>, new: Seq<u8>, st: int, en: int, i: int, j: int) -> bool {
    &&& st <= i <= j <= en
    &&& j == i + 1 || (st == en && i == j)
    &&& i == st || search::suffix_less(from, sa[i], new)
    &&& j == en || !search::suffix_less(from, sa[j], new)
}

/// A search gives the longer of the two matches that it ends at, and the second where both are as long.
pub proof fn search_ends_between(sa: Seq<int>, from: Seq<u8>, new: Seq<u8>, st: int, en: int) -> (ends: (int, int))
    requires
        0 <= st <= en < sa.len(),
    ensures
        ({
            let (i, j) = ends;
            let x = search::match_len(from.skip(sa[i]), new);
            let y = search::match_len(from.skip(sa[j]), new);
            &&& ends_at(sa, from, new, st, en, i, j)
            &&& x > y ==> search::best_match(sa, from, new, st, en) == (x, sa[i])
            &&& x <= y ==> search::best_match(sa, from, new, st, en) == (y, sa[j])
        }),
    decreases en - st,
{
    if en - st < 2 {
        (st, en)
    } else {
        let x = st + (en - st) / 2;
        if search::suffix_less(from, sa[x], new) {
            search_ends_between(sa, from, new, x, en)
        } else {
            search_ends_between(sa, from, new, st, x)
        }
    }
}

/// Hits are counted: none in no place, one in a place whose bytes agree under the alignment, and those of two
/// stretches together.
pub proof fn counted_hits(from: Seq<u8>, to: Seq<u8>, off: int, a: int, m: int, b: int)
    requires
        a <= m <= b,
    ensures
        bsdiff::hits(from, to, off, a, a) == 0,
        bsdiff::hits(from, to, off, a, a + 1) == if 0 <= a + off < from.len() && from[a + off] == to[a] {
            1int
        } else {
            0
        },
        bsdiff::hits(from, to, off, a, b) == bsdiff::hits(from, to, off, a, m) + bsdiff::hits(from, to, off, m, b),
    decreases b - m,
{
    assert(bsdiff::hits(from, to, off, a, a) == 0);
    assert(bsdiff::hits(from, to, off, a, a + 1) == bsdiff::hits(from, to, off, a, a) + if bsdiff::hit(
        from,
        to,
        off,
        a,
    ) {
        1int
    } else {
        0
    });
    if m < b {
        counted_hits(from, to, off, a, m, b - 1);
    }
}

/// How far the hits of a stretch of length `n` from `start` on exceed its misses.
pub open spec fn gain(from: Seq<u8>, to: Seq<u8>, off: int, start: int, n: int) -> int {
    let h = bsdiff::hits(from, to, off, start, start + n);
    h - (n - h)
}

/// A match is extended forward to the first length at which its hits exceed its misses the most.
pub proof fn best_way_forward(from: Seq<u8>, to: Seq<u8>, off: int, start: int, m: int)
    requires
        0 <= m,
    ensures
        ({
            let p = bsdiff::best_forward(from, to, off, start, m);
            &&& 0 <= p <= m
            &&& forall|q: int|
                0 <= q <= m ==> #[trigger] gain(from, to, off, start, q) <= gain(from, to, off, start, p)
            &&& forall|q: int|
                0 <= q < p ==> #[trigger] gain(from, to, off, start, q) < gain(from, to, off, start, p)
        }),
    decreases m,
{
    if m > 0 {
        best_way_forward(from, to, off, start, m - 1);
        let p = bsdiff::best_forward(from, to, off, start, m - 1);
        assert(gain(from, to, off, start, m) == 2 * bsdiff::hits(from, to, off, start, start + m) - m);
        assert(gain(from, to, off, start, p) == 2 * bsdiff::hits(from, to, off, start, start + p) - p);
        assert forall|q: int| 0 <= q <= m implies #[trigger] gain(from, to, off, start, q) <= gain(
            from,
            to,
            off,
            start,
            bsdiff::best_forward(from, to, off, start, m),
        ) by {
            if q < m {
                assert(gain(from, to, off, start, q) <= gain(from, to, off, start, p));
            }
        }
    }
}

/// A match is extended backward to the first length at which its hits exceed its misses the most.
pub proof fn best_way_back(from: Seq<u8>, to: Seq<u8>, off: int, end: int, m: int)
    requires
        0 <= m,
    ensures
        ({
            let p = bsdiff::best_backward(from, to, off, end, m);
            &&& 0 <= p <= m
            &&& forall|q: int|
                0 <= q <= m ==> #[trigger] gain(from, to, off, end - q, q) <= gain(from, to, off, end - p, p)
            &&& forall|q: int|
                0 <= q < p ==> #[trigger] gain(from, to, off, end - q, q) < gain(from, to, off, end - p, p)
        }),
    decreases m,
{
    let r = bsdiff::best_backward(from, to, off, end, m);
    if m > 0 {
        best_way_back(from, to, off, end, m - 1);
        let p = bsdiff::best_backward(from, to, off, end, m - 1);
        assert((end - m) + m == end && (end - p) + p == end);
        assert(gain(from, to, off, end - m, m) == 2 * bsdiff::hits(from, to, off, end - m, end) - m);
        assert(gain(from, to, off, end - p, p) == 2 * bsdiff::hits(from, to, off, end - p, end) - p);
        assert forall|q: int| 0 <= q <= m implies #[trigger] gain(from, to, off, end - q, q) <= gain(
            from,
            to,
            off,
            end - r,
            r,
        ) by {
            if q < m {
                assert(gain(from, to, off, end - q, q) <= gain(from, to, off, end - p, p));
            }
        }
        assert forall|q: int| 0 <= q < r implies #[trigger] gain(from, to, off, end - q, q) < gain(
            from,
            to,
            off,
            end - r,
            r,
        ) by {
            if r == m {
                assert(gain(from, to, off, end - q, q) <= gain(from, to, off, end - p, p));
            }
        }
    } else {
        assert forall|q: int| 0 <= q <= m implies #[trigger] gain(from, to, off, end - q, q) <= gain(
            from,
            to,
            off,
            end - r,
            r,
        ) by {
            assert(q == r);
        }
    }
}

/// How many more hits the first `n` places have under one alignment than under the other.
pub open spec fn lead(from: Seq<u8>, to: Seq<u8>, off1: int, off2: int, start: int, n: int) -> int {
    bsdiff::hits(from, to, off1, start, start + n) - bsdiff::hits(from, to, off2, start, start + n)
}

/// A stretch that both matches claim is cut at the first place at which the former leads the most.
pub proof fn best_place_to_cut(from: Seq<u8>, to: Seq<u8>, off1: int, off2: int, start: int, m: int)
    requires
        0 <= m,
    ensures
        ({
            let p = bsdiff::best_cut(from, to, off1, off2, start, m);
            &&& 0 <= p <= m
            &&& forall|q: int|
                0 <= q <= m ==> #[trigger] lead(from, to, off1, off2, start, q) <= lead(
                    from,
                    to,
                    off1,
                    off2,
                    start,
                    p,
                )
            &&& forall|q: int|
                0 <= q < p ==> #[trigger] lead(from, to, off1, off2, start, q) < lead(
                    from,
                    to,
                    off1,
                    off2,
                    start,
                    p,
                )
        }),
    decreases m,
{
    if m > 0 {
        best_place_to_cut(from, to, off1, off2, start, m - 1);
        let p = bsdiff::best_cut(from, to, off1, off2, start, m - 1);
        assert(lead(from, to, off1, off2, start, m) == lead(from, to, off1, off2, start, m));
        assert(lead(from, to, off1, off2, start, p) == lead(from, to, off1, off2, start, p));
    }
}

/// What a search finds for the rest of the target from `s` on: the length of the match, and where it stands.
pub open spec fn found(from: Seq<u8>, to: Seq<u8>, s: int) -> (int, int) {
    search::match_in(from, to.skip(s))
}

/// The furthest end of what is found at the places `start..=s`.
pub open spec fn reach(from: Seq<u8>, to: Seq<u8>, start: int, s: int) -> int
    decreases s - start + 1,
{
    if s < start {
        start
    } else {
        let before = reach(from, to, start, s - 1);
        let end = s + found(from, to, s).0;
        if end > before {
            end
        } else {
            before
        }
    }
}

/// How many bytes from `s` up to the furthest end the latest alignment hits.
pub open spec fn covered(from: Seq<u8>, to: Seq<u8>, off: int, start: int, s: int) -> int {
    bsdiff::hits(from, to, off, s, reach(from, to, start, s))
}

/// What is found at `s` pays: it is more than eight bytes longer than what the latest alignment hits there, or the
/// latest alignment hits it all.
pub open spec fn pays(from: Seq<u8>, to: Seq<u8>, off: int, start: int, s: int) -> bool {
    let len = found(from, to, s).0;
    let hit = covered(from, to, off, start, s);
    len > hit + 8 || (len == hit && len > 0)
}

proof fn lemma_hit_is_found(from: Seq<u8>, to: Seq<u8>, off: int, s: int)
    requires
        0 <= s < to.len(),
        bsdiff::hit(from, to, off, s),
    ensures
        found(from, to, s).0 >= 1,
{
    let new = to.skip(s);
    assert(new[0] == to[s]);
    search::lemma_match_nonempty(from, new, s + off);
}

proof fn lemma_no_hits(from: Seq<u8>, to: Seq<u8>, off: int, a: int, b: int)
    requires
        forall|j: int| a <= j < b ==> !#[trigger] bsdiff::hit(from, to, off, j),
    ensures
        bsdiff::hits(from, to, off, a, b) == 0,
    decreases b - a,
{
    if a < b {
        lemma_no_hits(from, to, off, a, b - 1);
        assert(!bsdiff::hit(from, to, off, b - 1));
    }
}

proof fn lemma_walks(
    from: Seq<u8>,
    to: Seq<u8>,
    off: int,
    start: int,
    scan: int,
    len: int,
    pos: int,
    score: int,
    counted: int,
)
    requires
        0 <= start <= scan <= to.len(),
        counted == reach(from, to, start, scan - 1),
        score == bsdiff::hits(from, to, off, scan, counted),
        forall|j: int| counted <= j < scan ==> !#[trigger] bsdiff::hit(from, to, off, j),
        scan > start ==> (len, pos) == found(from, to, scan - 1),
    ensures
        ({
            let (scan2, len2, pos2, score2) = bsdiff::next_match(from, to, off, scan, len, pos, score, counted);
            &&& scan <= scan2 <= to.len()
            &&& forall|s: int| scan <= s < scan2 ==> !#[trigger] pays(from, to, off, start, s)
            &&& scan2 < to.len() ==> {
                &&& pays(from, to, off, start, scan2)
                &&& (len2, pos2) == found(from, to, scan2)
                &&& score2 == covered(from, to, off, start, scan2)
            }
            &&& scan2 == to.len() ==> (len2, pos2) == if scan2 > start {
                found(from, to, scan2 - 1)
            } else {
                (len, pos)
            }
        }),
    decreases to.len() - scan,
{
    if scan < to.len() {
        let (len2, pos2) = found(from, to, scan);
        let end = scan + len2;
        let score2 = score + bsdiff::hits(from, to, off, counted, end);
        let counted2 = if counted < end {
            end
        } else {
            counted
        };
        search::lemma_match_bounds(from, to.skip(scan));
        assert(counted2 == reach(from, to, start, scan));
        assert(score2 == bsdiff::hits(from, to, off, scan, counted2)) by {
            if counted < end {
                if counted >= scan {
                    counted_hits(from, to, off, scan, counted, end);
                } else {
                    lemma_no_hits(from, to, off, counted, scan);
                    counted_hits(from, to, off, counted, scan, end);
                }
            }
        }
        assert(score2 == covered(from, to, off, start, scan));
        if !pays(from, to, off, start, scan) {
            let hit = bsdiff::hit(from, to, off, scan);
            let score3 = score2 - if hit {
                1int
            } else {
                0
            };
            if hit {
                lemma_hit_is_found(from, to, off, scan);
            }
            assert(score3 == bsdiff::hits(from, to, off, scan + 1, counted2)) by {
                if counted2 > scan {
                    counted_hits(from, to, off, scan, scan + 1, counted2);
                }
            }
            lemma_walks(from, to, off, start, scan + 1, len2, pos2, score3, counted2);
            assert forall|s: int|
                scan <= s < bsdiff::next_match(from, to, off, scan, len, pos, score, counted).0 implies !#[trigger] pays(
                from,
                to,
                off,
                start,
                s,
            ) by {
                if s > scan {
                    assert(scan + 1 <= s);
                }
            }
        }
    }
}

/// From a fresh start on, the next match is what is found at the first place at which it pays, with the count of
/// what the latest alignment hits there. If it pays nowhere, the walk ends with the target.
pub proof fn next_match_is_the_first_that_pays(from: Seq<u8>, to: Seq<u8>, off: int, start: int, len: int, pos: int)
    requires
        0 <= start <= to.len(),
    ensures
        ({
            let (scan2, len2, pos2, score2) = bsdiff::next_match(from, to, off, start, len, pos, 0, start);
            &&& start <= scan2 <= to.len()
            &&& forall|s: int| start <= s < scan2 ==> !#[trigger] pays(from, to, off, start, s)
            &&& scan2 < to.len() ==> {
                &&& pays(from, to, off, start, scan2)
                &&& (len2, pos2) == found(from, to, scan2)
                &&& score2 == covered(from, to, off, start, scan2)
            }
            &&& scan2 == to.len() ==> (len2, pos2) == if scan2 > start {
                found(from, to, scan2 - 1)
            } else {
                (len, pos)
            }
        }),
{
    lemma_walks(from, to, off, start, start, len, pos, 0, start);
}

/// The smaller of two numbers.
pub open spec fn smaller(a: int, b: int) -> int {
    if a < b {
        a
    } else {
        b
    }
}

/// The stretch between two matches is shared out: each takes what it gains the most from, and where they overlap,
/// the former takes the part of the overlap up to where its lead is the greatest, and the latter the rest. At the
/// end of the target there is no latter match.
pub proof fn stretches_are_shared_out(from: Seq<u8>, to: Seq<u8>, lastscan: int, lastpos: int, scan: int, pos: int)
    requires
        0 <= lastscan <= scan <= to.len(),
        0 <= lastpos <= from.len(),
        0 <= pos <= from.len(),
    ensures
        ({
            let (f, b) = bsdiff::extents(from, to, lastscan, lastpos, scan, pos);
            let ahead = bsdiff::best_forward(
                from,
                to,
                lastpos - lastscan,
                lastscan,
                smaller(scan - lastscan, from.len() - lastpos),
            );
            let back = if scan < to.len() {
                bsdiff::best_backward(from, to, pos - scan, scan, smaller(scan - lastscan, pos))
            } else {
                0
            };
            let both = (lastscan + ahead) - (scan - back);
            &&& both <= 0 ==> f == ahead && b == back
            &&& both > 0 ==> {
                let cut = bsdiff::best_cut(from, to, lastpos - lastscan, pos - scan, scan - back, both);
                &&& lastscan + f == scan - b
                &&& f == ahead - (both - cut)
                &&& b == back - cut
            }
        }),
{
}

proof fn lemma_all_hits(x: Seq<u8>, a: int, b: int)
    requires
        0 <= a <= b <= x.len(),
    ensures
        bsdiff::hits(x, x, 0, a, b) == b - a,
    decreases b - a,
{
    if a < b {
        lemma_all_hits(x, a, b - 1);
        assert(bsdiff::hit(x, x, 0, b - 1));
    }
}

proof fn lemma_reach(from: Seq<u8>, to: Seq<u8>, start: int, s: int)
    requires
        0 <= start <= s < to.len(),
    ensures
        s + found(from, to, s).0 <= reach(from, to, start, s) <= to.len(),
    decreases s - start,
{
    search::lemma_match_bounds(from, to.skip(s));
    if s > start {
        lemma_reach(from, to, start, s - 1);
    } else {
        assert(reach(from, to, start, start - 1) == start);
    }
}

proof fn lemma_same_extent(x: Seq<u8>, pos: int)
    requires
        0 <= pos <= x.len(),
    ensures
        bsdiff::extents(x, x, 0, 0, x.len() as int, pos) == (x.len() as int, 0int),
{
    let n = x.len() as int;
    let p = bsdiff::best_forward(x, x, 0, 0, n);
    best_way_forward(x, x, 0, 0, n);
    lemma_all_hits(x, 0, n);
    lemma_all_hits(x, 0, p);
    assert(gain(x, x, 0, 0, n) == n);
    assert(gain(x, x, 0, 0, p) == p);
}

proof fn lemma_same_stream(x: Seq<u8>, scan: int, len: int, pos: int) -> (seek: int)
    requires
        0 <= scan < x.len(),
        0 <= len,
        scan + len <= x.len(),
        0 <= pos <= x.len(),
    ensures
        bsdiff::stream_from(x, x, scan, len, pos, 0, 0, 0) == bsdiff::entry(
            Seq::new(x.len(), |i: int| 0u8),
            seq![],
            seek,
        ),
    decreases x.len() - scan - len,
{
    let n = x.len() as int;
    let start = scan + len;
    let (scan2, len2, pos2, score) = bsdiff::next_match(x, x, 0, start, len, pos, 0, start);
    next_match_is_the_first_that_pays(x, x, 0, start, len, pos);
    bsdiff::lemma_walk(x, x, 0, start, len, pos);
    if scan2 < n {
        search::lemma_match_bounds(x, x.skip(scan2));
        lemma_reach(x, x, start, scan2);
        lemma_all_hits(x, scan2, reach(x, x, start, scan2));
        assert(len2 == score);
        lemma_same_stream(x, scan2, len2, pos2)
    } else {
        lemma_same_extent(x, pos2);
        let zeros = Seq::new(x.len(), |i: int| 0u8);
        assert(bsdiff::differences(x, x, 0, 0, n) =~= zeros);
        assert(x.subrange(n, n) =~= seq![]);
        let seek = pos2 - n;
        assert(bsdiff::stretch(x, x, 0, 0, n, pos2, n, 0) + seq![] =~= bsdiff::entry(zeros, seq![], seek));
        seek
    }
}

/// An image is turned into itself by one entry, of which every difference is zero and which has no literal bytes.
pub proof fn nothing_to_do(x: Seq<u8>) -> (seek: int)
    requires
        x.len() > 0,
    ensures
        bsdiff::diff_stream(x, x) == bsdiff::entry(Seq::new(x.len(), |i: int| 0u8), seq![], seek),
{
    lemma_same_stream(x, 0, 0, 0)
}

} // verus!
