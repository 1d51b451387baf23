//! Suffix arrays by prefix doubling.
//!
//! The suffixes of a byte string are compared lexicographically, and a suffix that ends first sorts
//! first. Round by round the array is sorted by twice as many leading bytes, the ranks of the previous
//! round standing for the bytes.

use vstd::prelude::*;

verus! {

/// Among the first `h` bytes, the suffix at `i` sorts strictly before the one at `j`.
pub open spec fn sorts_before(s: Seq<u8>, i: int, j: int, h: nat) -> bool
    decreases h,
{
    if h == 0 || j >= s.len() {
        false
    } else if i >= s.len() {
        true
    } else {
        s[i] < s[j] || (s[i] == s[j] && sorts_before(s, i + 1, j + 1, (h - 1) as nat))
    }
}

/// The suffixes at `i` and `j` agree in their first `h` bytes.
pub open spec fn agrees(s: Seq<u8>, i: int, j: int, h: nat) -> bool
    decreases h,
{
    if h == 0 {
        true
    } else if i >= s.len() || j >= s.len() {
        i >= s.len() && j >= s.len()
    } else {
        s[i] == s[j] && agrees(s, i + 1, j + 1, (h - 1) as nat)
    }
}

/// The suffix at `i` sorts strictly before the one at `j`.
pub open spec fn suffix_before(s: Seq<u8>, i: int, j: int) -> bool {
    sorts_before(s, i, j, s.len())
}

/// `sa` lists each of `0..n` once.
pub open spec fn is_permutation(sa: Seq<int>, n: nat) -> bool {
    &&& sa.len() == n
    &&& forall|a: int| 0 <= a < sa.len() ==> 0 <= #[trigger] sa[a] < n
    &&& sa.no_duplicates()
}

/// `sa` lists every position of `s` once, in the order of the suffixes that begin there.
pub open spec fn is_suffix_array(s: Seq<u8>, sa: Seq<int>) -> bool {
    &&& is_permutation(sa, s.len())
    &&& forall|a: int, b: int|
        0 <= a < b < sa.len() ==> #[trigger] suffix_before(s, #[trigger] sa[a], #[trigger] sa[b])
}

proof fn lemma_split(s: Seq<u8>, i: int, j: int, h1: nat, h2: nat)
    requires
        0 <= i,
        0 <= j,
    ensures
        sorts_before(s, i, j, h1 + h2) <==> (sorts_before(s, i, j, h1) || (agrees(s, i, j, h1)
            && sorts_before(s, i + h1, j + h1, h2))),
        agrees(s, i, j, h1 + h2) <==> (agrees(s, i, j, h1) && agrees(s, i + h1, j + h1, h2)),
    decreases h1,
{
    if h1 > 0 {
        if i < s.len() && j < s.len() {
            lemma_split(s, i + 1, j + 1, (h1 - 1) as nat, h2);
            assert((h1 + h2 - 1) as nat == (h1 - 1) as nat + h2);
        } else if i >= s.len() && j >= s.len() {
            lemma_both_ended(s, i + h1, j + h1, h2);
        }
    }
}

proof fn lemma_both_ended(s: Seq<u8>, i: int, j: int, h: nat)
    requires
        i >= s.len(),
        j >= s.len(),
    ensures
        !sorts_before(s, i, j, h),
        agrees(s, i, j, h),
{
}

proof fn lemma_asymmetric(s: Seq<u8>, i: int, j: int, h: nat)
    ensures
        sorts_before(s, i, j, h) ==> !sorts_before(s, j, i, h),
    decreases h,
{
    if h > 0 && i < s.len() && j < s.len() {
        lemma_asymmetric(s, i + 1, j + 1, (h - 1) as nat);
    }
}

/// Two different suffixes differ somewhere within the length of the whole.
proof fn lemma_differ(s: Seq<u8>, i: int, j: int, h: nat)
    requires
        0 <= i,
        0 <= j,
        i != j,
        i < s.len() || j < s.len(),
        i + h >= s.len(),
        j + h >= s.len(),
    ensures
        !agrees(s, i, j, h),
    decreases h,
{
    if h > 0 && i < s.len() && j < s.len() {
        lemma_differ(s, i + 1, j + 1, (h - 1) as nat);
    }
}

/// An order within any number of leading bytes is the order of the suffixes.
proof fn lemma_before_whole(s: Seq<u8>, i: int, j: int, h: nat)
    requires
        0 <= i < s.len(),
        0 <= j < s.len(),
        i != j,
        sorts_before(s, i, j, h),
    ensures
        suffix_before(s, i, j),
{
    let n = s.len();
    if h <= n {
        lemma_split(s, i, j, h, (n - h) as nat);
        assert(h + (n - h) as nat == n);
    } else {
        lemma_split(s, i, j, n, (h - n) as nat);
        assert(n + (h - n) as nat == h);
        lemma_differ(s, i, j, n);
    }
}

proof fn lemma_transitive(s: Seq<u8>, i: int, j: int, k: int, h: nat)
    ensures
        sorts_before(s, i, j, h) && sorts_before(s, j, k, h) ==> sorts_before(s, i, k, h),
    decreases h,
{
    if h > 0 && i < s.len() && j < s.len() && k < s.len() {
        lemma_transitive(s, i + 1, j + 1, k + 1, (h - 1) as nat);
    }
}

proof fn lemma_total(s: Seq<u8>, i: int, j: int, h: nat)
    ensures
        sorts_before(s, i, j, h) || sorts_before(s, j, i, h) || agrees(s, i, j, h),
    decreases h,
{
    if h > 0 && i < s.len() && j < s.len() {
        lemma_total(s, i + 1, j + 1, (h - 1) as nat);
    }
}

/// The order of the suffixes, continued to all integers: those that are no position come last.
spec fn not_after(s: Seq<u8>, i: int, j: int) -> bool {
    let i_in = 0 <= i < s.len();
    let j_in = 0 <= j < s.len();
    if i_in && j_in {
        i == j || suffix_before(s, i, j)
    } else if i_in || j_in {
        i_in
    } else {
        i <= j
    }
}

/// Every byte string has a suffix array.
pub proof fn suffix_array_exists(s: Seq<u8>)
    ensures
        exists|sa: Seq<int>| is_suffix_array(s, sa),
{
    let n = s.len();
    let leq = |i: int, j: int| not_after(s, i, j);
    assert(vstd::relations::total_ordering(leq)) by {
        assert forall|i: int, j: int| leq(i, j) && #[trigger] leq(j, i) implies i == j by {
            lemma_asymmetric(s, i, j, n);
        }
        assert forall|i: int, j: int, k: int| #[trigger] leq(i, j) && #[trigger] leq(j, k) implies leq(
            i,
            k,
        ) by {
            lemma_transitive(s, i, j, k, n);
        }
        assert forall|i: int, j: int| #[trigger] leq(i, j) || leq(j, i) by {
            lemma_total(s, i, j, n);
            if 0 <= i < n && 0 <= j < n && i != j {
                lemma_differ(s, i, j, n);
            }
        }
    }
    let all = Seq::new(n, |i: int| i);
    all.lemma_sort_by_ensures(leq);
    let sa = all.sort_by(leq);
    lemma_reordered(all, sa);
    assert(is_suffix_array(s, sa)) by {
        assert forall|a: int| 0 <= a < sa.len() implies 0 <= #[trigger] sa[a] < n by {
            assert(all.contains(sa[a]));
        }
        assert forall|a: int, b: int| 0 <= a < b < sa.len() implies #[trigger] suffix_before(
            s,
            #[trigger] sa[a],
            #[trigger] sa[b],
        ) by {
            assert(leq(sa[a], sa[b]));
        }
    }
}

/// The suffix array of `s`.
pub open spec fn suffix_order(s: Seq<u8>) -> Seq<int> {
    choose|sa: Seq<int>| is_suffix_array(s, sa)
}

/// The suffix array of `s` is what its definition says.
pub proof fn lemma_suffix_order(s: Seq<u8>)
    ensures
        is_suffix_array(s, suffix_order(s)),
{
    suffix_array_exists(s);
}

/// A byte string has only one suffix array.
pub proof fn suffix_array_unique(s: Seq<u8>, x: Seq<int>, y: Seq<int>)
    requires
        is_suffix_array(s, x),
        is_suffix_array(s, y),
    ensures
        x == y,
{
    lemma_equal_prefix(s, x, y, s.len());
    assert(x =~= y);
}

/// Every value has its place in a permutation.
pub proof fn lemma_position(sa: Seq<int>, n: nat, v: int) -> (a: int)
    requires
        is_permutation(sa, n),
        0 <= v < n,
    ensures
        0 <= a < sa.len(),
        sa[a] == v,
{
    let all = vstd::set_lib::set_int_range(0, n as int);
    vstd::set_lib::lemma_int_range(0, n as int);
    let seen = sa.to_set();
    sa.unique_seq_to_set();
    assert(seen.subset_of(all)) by {
        assert forall|x: int| seen.contains(x) implies all.contains(x) by {
            assert(sa.contains(x));
        }
    }
    vstd::set_lib::lemma_subset_equality(seen, all);
    assert(seen.contains(v));
    choose|a: int| 0 <= a < sa.len() && sa[a] == v
}

proof fn lemma_equal_prefix(s: Seq<u8>, x: Seq<int>, y: Seq<int>, n: nat)
    requires
        is_suffix_array(s, x),
        is_suffix_array(s, y),
        n <= s.len(),
    ensures
        forall|a: int| 0 <= a < n ==> x[a] == y[a],
    decreases n,
{
    if n > 0 {
        let a = n - 1;
        lemma_equal_prefix(s, x, y, (n - 1) as nat);
        if x[a] != y[a] {
            let b = lemma_position(x, s.len(), y[a]);
            let c = lemma_position(y, s.len(), x[a]);
            if b < a {
                assert(y[b] == y[a]);
            }
            if c < a {
                assert(x[c] == x[a]);
            }
            assert(suffix_before(s, x[a], x[b]));
            assert(suffix_before(s, y[a], y[c]));
            lemma_asymmetric(s, x[a], y[a], s.len());
        }
    }
}

/// The positions that a vector of indices stands for.
pub open spec fn positions(v: Seq<usize>) -> Seq<int> {
    Seq::new(v.len(), |a: int| v[a] as int)
}

/// What a suffix is sorted by in one round: its own rank and that of the suffix `k` bytes further on.
pub open spec fn rank_pair(rank: Seq<i128>, i: int, k: int) -> (int, int) {
    (rank[i] as int, if i + k < rank.len() { rank[i + k] as int } else { -1 })
}

/// The lexicographic order of pairs.
pub open spec fn pair_less(x: (int, int), y: (int, int)) -> bool {
    x.0 < y.0 || (x.0 == y.0 && x.1 < y.1)
}

/// The positions among `sa` that are sorted by the pair `c`, in the order in which they stand.
pub open spec fn with_pair(sa: Seq<usize>, rank: Seq<i128>, k: int, c: (int, int)) -> Seq<usize> {
    sa.filter(|x: usize| rank_pair(rank, x as int, k) == c)
}

/// The ranks order the positions as their first `k` bytes do.
spec fn ranked(s: Seq<u8>, rank: Seq<i128>, k: nat) -> bool {
    &&& rank.len() == s.len()
    &&& forall|i: int| 0 <= i < rank.len() ==> 0 <= #[trigger] rank[i]
    &&& forall|i: int, j: int|
        #![trigger rank[i], rank[j]]
        0 <= i < rank.len() && 0 <= j < rank.len() ==> {
            &&& rank[i] < rank[j] <==> sorts_before(s, i, j, k)
            &&& rank[i] == rank[j] <==> agrees(s, i, j, k)
        }
}

proof fn lemma_pairs_double(s: Seq<u8>, rank: Seq<i128>, k: nat, i: int, j: int)
    requires
        ranked(s, rank, k),
        k > 0,
        0 <= i < s.len(),
        0 <= j < s.len(),
    ensures
        pair_less(rank_pair(rank, i, k as int), rank_pair(rank, j, k as int)) <==> sorts_before(
            s,
            i,
            j,
            2 * k,
        ),
        rank_pair(rank, i, k as int) == rank_pair(rank, j, k as int) <==> agrees(s, i, j, 2 * k),
{
    lemma_split(s, i, j, k, k);
    assert(k + k == 2 * k);
    assert(rank[i] < rank[j] <==> sorts_before(s, i, j, k));
    assert(rank[i] == rank[j] <==> agrees(s, i, j, k));
    if i + k < s.len() && j + k < s.len() {
        assert(rank[i + k] < rank[j + k] <==> sorts_before(s, i + k, j + k, k));
        assert(rank[i + k] == rank[j + k] <==> agrees(s, i + k, j + k, k));
    } else if i + k >= s.len() && j + k >= s.len() {
        lemma_both_ended(s, i + k, j + k, k);
    } else if i + k < s.len() {
        assert(0 <= rank[i + k]);
    } else {
        assert(0 <= rank[j + k]);
    }
}

/// The pair a suffix is sorted by.
fn key(rank: &Vec<i128>, i: usize, k: usize) -> (pair: (i128, i128))
    requires
        i < rank@.len(),
    ensures
        (pair.0 as int, pair.1 as int) == rank_pair(rank@, i as int, k as int),
{
    let second: i128 = if k < rank.len() - i { rank[i + k] } else { -1 };
    (rank[i], second)
}

/// Sorts the positions by [`key`], with `slice::sort_by_key` of the standard library. What is taken from
/// its documentation: the elements stay the same, they come out in non-descending order of their keys
/// (pairs of integers, compared lexicographically), and elements with equal keys keep their order.
#[verifier::external_body]
fn sort_by_rank(sa: &mut Vec<usize>, rank: &Vec<i128>, k: usize)
    requires
        forall|a: int| 0 <= a < old(sa)@.len() ==> #[trigger] old(sa)@[a] < rank@.len(),
    ensures
        final(sa)@.to_multiset() == old(sa)@.to_multiset(),
        forall|a: int, b: int|
            #![trigger final(sa)@[a], final(sa)@[b]]
            0 <= a < b < final(sa)@.len() ==> !pair_less(
                rank_pair(rank@, final(sa)@[b] as int, k as int),
                rank_pair(rank@, final(sa)@[a] as int, k as int),
            ),
        forall|c: (int, int)| #[trigger]
            with_pair(final(sa)@, rank@, k as int, c) == with_pair(old(sa)@, rank@, k as int, c),
{
    sa.sort_by_key(|&a| key(rank, a, k));
}

/// Reordering keeps the elements, and keeps them distinct.
proof fn lemma_reordered<A>(x: Seq<A>, y: Seq<A>)
    requires
        x.to_multiset() == y.to_multiset(),
        x.no_duplicates(),
    ensures
        y.len() == x.len(),
        y.no_duplicates(),
        forall|a: int| 0 <= a < y.len() ==> x.contains(#[trigger] y[a]),
{
    x.to_multiset_ensures();
    y.to_multiset_ensures();
    x.lemma_multiset_has_no_duplicates();
    y.lemma_multiset_has_no_duplicates_conv();
    assert forall|a: int| 0 <= a < y.len() implies x.contains(#[trigger] y[a]) by {
        assert(y.contains(y[a]));
        assert(x.to_multiset().count(y[a]) > 0);
    }
}

proof fn lemma_still_permutation(old_sa: Seq<usize>, new_sa: Seq<usize>, n: nat)
    requires
        is_permutation(positions(old_sa), n),
        old_sa.to_multiset() == new_sa.to_multiset(),
    ensures
        is_permutation(positions(new_sa), n),
{
    assert forall|i: int, j: int|
        0 <= i < old_sa.len() && 0 <= j < old_sa.len() && i != j implies old_sa[i] != old_sa[j] by {
        assert(positions(old_sa)[i] != positions(old_sa)[j]);
    }
    lemma_reordered(old_sa, new_sa);
    assert forall|a: int| 0 <= a < new_sa.len() implies 0 <= #[trigger] positions(new_sa)[a]
        < n by {
        assert(old_sa.contains(new_sa[a]));
        let b = choose|b: int| 0 <= b < old_sa.len() && old_sa[b] == new_sa[a];
        assert(0 <= positions(old_sa)[b] < n);
    }
}

/// The new ranks of one round: equal where the pairs are equal, one higher wherever they change.
spec fn counted(sa: Seq<usize>, rank: Seq<i128>, k: int, tmp: Seq<i128>, w: int) -> bool {
    &&& tmp[sa[0] as int] == 0
    &&& forall|a: int, b: int|
        #![trigger tmp[sa[a] as int], tmp[sa[b] as int]]
        0 <= a <= b < w ==> {
            &&& tmp[sa[a] as int] <= tmp[sa[b] as int] <= tmp[sa[a] as int] + (b - a)
            &&& tmp[sa[a] as int] == tmp[sa[b] as int] <==> rank_pair(rank, sa[a] as int, k)
                == rank_pair(rank, sa[b] as int, k)
        }
}

spec fn sorted_by_pair(sa: Seq<usize>, rank: Seq<i128>, k: int) -> bool {
    forall|a: int, b: int|
        #![trigger sa[a], sa[b]]
        0 <= a < b < sa.len() ==> !pair_less(
            rank_pair(rank, sa[b] as int, k),
            rank_pair(rank, sa[a] as int, k),
        )
}

proof fn lemma_new_ranks(s: Seq<u8>, sa: Seq<usize>, rank: Seq<i128>, k: nat, tmp: Seq<i128>)
    requires
        ranked(s, rank, k),
        k > 0,
        s.len() > 0,
        is_permutation(positions(sa), s.len()),
        sorted_by_pair(sa, rank, k as int),
        tmp.len() == s.len(),
        counted(sa, rank, k as int, tmp, s.len() as int),
    ensures
        ranked(s, tmp, 2 * k),
{
    assert forall|i: int| 0 <= i < tmp.len() implies 0 <= #[trigger] tmp[i] by {
        let a = lemma_position(positions(sa), s.len(), i);
        assert(tmp[sa[0] as int] <= tmp[sa[a] as int]);
    }
    assert forall|i: int, j: int|
        #![trigger tmp[i], tmp[j]]
        0 <= i < tmp.len() && 0 <= j < tmp.len() implies {
        &&& tmp[i] < tmp[j] <==> sorts_before(s, i, j, 2 * k)
        &&& tmp[i] == tmp[j] <==> agrees(s, i, j, 2 * k)
    } by {
        let a = lemma_position(positions(sa), s.len(), i);
        let b = lemma_position(positions(sa), s.len(), j);
        lemma_pairs_double(s, rank, k, i, j);
        assert(sa[a] as int == i && sa[b] as int == j);
        if a <= b {
            assert(tmp[sa[a] as int] <= tmp[sa[b] as int]);
        } else {
            assert(tmp[sa[b] as int] <= tmp[sa[a] as int]);
        }
    }
}

/// Once all ranks differ, or the ranks look at the whole suffixes, the array is sorted.
proof fn lemma_sorted(s: Seq<u8>, sa: Seq<usize>, rank: Seq<i128>, k: nat, tmp: Seq<i128>)
    requires
        ranked(s, rank, k),
        k > 0,
        s.len() > 0,
        is_permutation(positions(sa), s.len()),
        sorted_by_pair(sa, rank, k as int),
        tmp.len() == s.len(),
        counted(sa, rank, k as int, tmp, s.len() as int),
        tmp[sa[s.len() - 1] as int] == s.len() - 1 || 2 * k >= s.len(),
    ensures
        is_suffix_array(s, positions(sa)),
{
    let n = s.len() as int;
    let p = positions(sa);
    assert forall|a: int, b: int| 0 <= a < b < p.len() implies #[trigger] suffix_before(
        s,
        #[trigger] p[a],
        #[trigger] p[b],
    ) by {
        let i = sa[a] as int;
        let j = sa[b] as int;
        assert(p[a] != p[b]);
        lemma_pairs_double(s, rank, k, i, j);
        if 2 * k >= s.len() {
            lemma_differ(s, i, j, 2 * k);
        } else {
            assert(tmp[sa[0] as int] <= tmp[sa[a] as int] <= tmp[sa[0] as int] + a);
            assert(tmp[sa[b] as int] <= tmp[sa[n - 1] as int] <= tmp[sa[b] as int] + (n - 1 - b));
        }
        lemma_before_whole(s, i, j, 2 * k);
    }
}

/// The suffix array of `s`: its positions in the order of the suffixes that begin there.
pub fn suffix_array(s: &[u8]) -> (sa: Vec<usize>)
    ensures
        positions(sa@) == suffix_order(s@),
        is_suffix_array(s@, positions(sa@)),
{
    let n: usize = s.len();
    let mut sa: Vec<usize> = Vec::new();
    let mut rank: Vec<i128> = Vec::new();
    let mut tmp: Vec<i128> = Vec::new();
    let mut i: usize = 0;
    while i < n
        invariant
            n == s@.len(),
            i <= n,
            sa@.len() == i,
            rank@.len() == i,
            tmp@.len() == i,
            forall|a: int| 0 <= a < i ==> #[trigger] sa@[a] == a,
            forall|a: int| 0 <= a < i ==> #[trigger] rank@[a] == s@[a],
        decreases n - i,
    {
        sa.push(i);
        rank.push(s[i] as i128);
        tmp.push(0);
        i = i + 1;
    }
    if n == 0 {
        proof {
            lemma_suffix_order(s@);
            suffix_array_unique(s@, positions(sa@), suffix_order(s@));
        }
        return sa;
    }
    let mut k: usize = 1;
    proof {
        reveal_with_fuel(sorts_before, 2);
        reveal_with_fuel(agrees, 2);
        assert(ranked(s@, rank@, 1));
    }
    loop
        invariant_except_break
            n == s@.len(),
            0 < n,
            k == 1 || k < n,
            1 <= k,
            is_permutation(positions(sa@), n as nat),
            ranked(s@, rank@, k as nat),
            tmp@.len() == n,
        ensures
            is_suffix_array(s@, positions(sa@)),
        decreases n - k,
    {
        let ghost unsorted = sa@;
        assert forall|a: int| 0 <= a < sa@.len() implies #[trigger] sa@[a] < rank@.len() by {
            assert(positions(sa@)[a] < n);
        }
        sort_by_rank(&mut sa, &rank, k);
        proof {
            lemma_still_permutation(unsorted, sa@, n as nat);
        }
        assert(sorted_by_pair(sa@, rank@, k as int));
        assert forall|a: int| 0 <= a < n implies positions(sa@)[a] == #[trigger] sa@[a] && sa@[a]
            < n by {
            assert(0 <= positions(sa@)[a] < n);
        }
        let first: usize = sa[0];
        tmp[first] = 0;
        let mut w: usize = 1;
        while w < n
            invariant
                n == s@.len(),
                1 <= w <= n,
                1 <= k <= n,
                sa@.len() == n,
                rank@.len() == n,
                tmp@.len() == n,
                is_permutation(positions(sa@), n as nat),
                forall|a: int|
                    0 <= a < n ==> positions(sa@)[a] == #[trigger] sa@[a] && sa@[a] < n,
                sorted_by_pair(sa@, rank@, k as int),
                counted(sa@, rank@, k as int, tmp@, w as int),
            decreases n - w,
        {
            let ghost tmp_before = tmp@;
            let prev: (i128, i128) = key(&rank, sa[w - 1], k);
            let cur: (i128, i128) = key(&rank, sa[w], k);
            let at: usize = sa[w];
            let below: i128 = tmp[sa[w - 1]];
            assert(tmp@[sa@[0] as int] <= tmp@[sa@[w - 1] as int] <= tmp@[sa@[0] as int] + (w - 1));
            let step: i128 = if cur.0 != prev.0 || cur.1 != prev.1 { 1 } else { 0 };
            tmp[at] = below + step;
            proof {
                assert forall|a: int| 0 <= a < w implies tmp@[#[trigger] sa@[a] as int]
                    == tmp_before[sa@[a] as int] by {
                    assert(positions(sa@)[a] != positions(sa@)[w as int]);
                }
                assert forall|a: int, b: int|
                    #![trigger tmp@[sa@[a] as int], tmp@[sa@[b] as int]]
                    0 <= a <= b < w + 1 implies {
                    &&& tmp@[sa@[a] as int] <= tmp@[sa@[b] as int] <= tmp@[sa@[a] as int] + (b - a)
                    &&& tmp@[sa@[a] as int] == tmp@[sa@[b] as int] <==> rank_pair(
                        rank@,
                        sa@[a] as int,
                        k as int,
                    ) == rank_pair(rank@, sa@[b] as int, k as int)
                } by {
                    if b < w {
                        assert(tmp_before[sa@[a] as int] <= tmp_before[sa@[b] as int]);
                    } else if a < w {
                        assert(tmp_before[sa@[a] as int] <= tmp_before[sa@[w - 1] as int]);
                        assert(!pair_less(
                            rank_pair(rank@, sa@[w as int] as int, k as int),
                            rank_pair(rank@, sa@[w - 1] as int, k as int),
                        ));
                        if a < w - 1 {
                            assert(!pair_less(
                                rank_pair(rank@, sa@[w - 1] as int, k as int),
                                rank_pair(rank@, sa@[a] as int, k as int),
                            ));
                        }
                    }
                }
            }
            w = w + 1;
        }
        let ghost old_rank = rank@;
        let ghost new_rank = tmp@;
        proof {
            lemma_new_ranks(s@, sa@, old_rank, k as nat, new_rank);
        }
        core::mem::swap(&mut rank, &mut tmp);
        let last: usize = sa[n - 1];
        let top: i128 = rank[last];
        proof {
            assert(new_rank[sa@[0] as int] <= new_rank[sa@[n - 1] as int]);
        }
        if top == n as i128 - 1 {
            proof {
                lemma_sorted(s@, sa@, old_rank, k as nat, new_rank);
            }
            break;
        }
        if k >= n - k {
            proof {
                lemma_sorted(s@, sa@, old_rank, k as nat, new_rank);
            }
            break;
        }
        k = 2 * k;
    }
    proof {
        lemma_suffix_order(s@);
        suffix_array_unique(s@, positions(sa@), suffix_order(s@));
    }
    sa
}

/// The suffix array of `s` with the empty suffix, which sorts first, in front.
pub open spec fn with_sentinel(s: Seq<u8>) -> Seq<int> {
    seq![s.len() as int] + suffix_order(s)
}

/// [`suffix_array`] with the position of the empty suffix in front.
pub fn suffix_array_with_sentinel(s: &[u8]) -> (all: Vec<usize>)
    ensures
        positions(all@) == with_sentinel(s@),
{
    let mut sa = suffix_array(s);
    let mut all: Vec<usize> = Vec::new();
    all.push(s.len());
    all.append(&mut sa);
    assert(positions(all@) =~= with_sentinel(s@));
    all
}

} // verus!
