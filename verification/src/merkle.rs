//! The MeshCore payload merkle tree.
//!
//! Each payload block hashes to a 4-byte leaf (`sha2-256:4`), and the root over the leaves is a
//! Merkle-Mountain-Range: leaves are folded into per-level peaks like incrementing a binary counter (a
//! carry combines two equal subtrees), then the leftover peaks are bagged right to left. What comes out is
//! the root of the tree whose left half is the largest complete subtree, and so on down.

use vstd::arithmetic::power2;
use vstd::prelude::*;

use crate::crypto;
use crate::crypto::mh;
use crate::format::arr;

verus! {

/// A leaf or the root of a subtree: the first 4 bytes of the SHA-256 digest of `data`.
pub open spec fn digest4(data: Seq<u8>) -> Seq<u8> {
    crypto::sha256_of(data)@.take(4)
}

/// The root over a left and a right subtree.
pub open spec fn node(left: Seq<u8>, right: Seq<u8>) -> Seq<u8> {
    digest4(left + right)
}

/// The largest power of two below `n`, looked for from the power of two `p` on.
pub open spec fn split_from(n: int, p: int) -> int
    decreases n - p,
{
    if p <= 0 || 2 * p >= n {
        p
    } else {
        split_from(n, 2 * p)
    }
}

/// The number of leaves in the left subtree over `n` leaves: the largest power of two below `n`.
pub open spec fn split(n: int) -> int {
    split_from(n, 1)
}

/// `split_from` stays below `n`.
pub proof fn lemma_split_bounds(n: int, p: int)
    requires
        1 <= p < n,
    ensures
        1 <= split_from(n, p) < n,
    decreases n - p,
{
    if 2 * p < n {
        lemma_split_bounds(n, 2 * p);
    }
}

/// The root over a sequence of leaves.
pub open spec fn tree_root(leaves: Seq<Seq<u8>>) -> Seq<u8>
    decreases leaves.len(),
{
    if leaves.len() == 0 {
        seq![0, 0, 0, 0]
    } else if leaves.len() == 1 {
        leaves[0]
    } else {
        proof {
            lemma_split_bounds(leaves.len() as int, 1);
        }
        let p = split(leaves.len() as int);
        node(tree_root(leaves.take(p)), tree_root(leaves.skip(p)))
    }
}

/// The bytes of each 4-byte array.
pub open spec fn views(leaves: Seq<[u8; 4]>) -> Seq<Seq<u8>> {
    Seq::new(leaves.len(), |i: int| leaves[i]@)
}

/// Block `i` of a payload; the last one may be short.
pub open spec fn block(payload: Seq<u8>, block_size: int, i: int) -> Seq<u8> {
    payload.subrange(
        i * block_size,
        if (i + 1) * block_size <= payload.len() {
            (i + 1) * block_size
        } else {
            payload.len() as int
        },
    )
}

/// The leaves over the blocks of a payload.
pub open spec fn payload_leaves(payload: Seq<u8>, block_size: int) -> Seq<Seq<u8>> {
    Seq::new(
        crate::format::ceil_div(payload.len() as int, block_size) as nat,
        |i: int| digest4(block(payload, block_size, i)),
    )
}

/// Leaves one after the other, as a container stores them.
pub open spec fn joined(leaves: Seq<Seq<u8>>) -> Seq<u8> {
    Seq::new(4 * leaves.len(), |i: int| leaves[i / 4][i % 4])
}

/// The 4-byte words of a byte string.
pub open spec fn words(bytes: Seq<u8>) -> Seq<Seq<u8>> {
    Seq::new(bytes.len() / 4, |i: int| bytes.subrange(4 * i, 4 * i + 4))
}

/// Stored leaves are read back.
pub proof fn words_of_joined(leaves: Seq<Seq<u8>>)
    requires
        forall|i: int| 0 <= i < leaves.len() ==> (#[trigger] leaves[i]).len() == 4,
    ensures
        words(joined(leaves)) == leaves,
{
    let bytes = joined(leaves);
    assert(words(bytes).len() == leaves.len());
    assert forall|i: int| 0 <= i < leaves.len() implies words(bytes)[i] == leaves[i] by {
        assert forall|k: int| 0 <= k < 4 implies bytes[4 * i + k] == leaves[i][k] by {
            assert((4 * i + k) / 4 == i && (4 * i + k) % 4 == k);
        }
        assert(words(bytes)[i] =~= leaves[i]);
    }
    assert(words(bytes) =~= leaves);
}

/// `i` blocks of `b` bytes, the last of them not empty, are what `n` bytes need.
pub proof fn lemma_ceil_div(n: int, b: int, i: int)
    requires
        b > 0,
        (i - 1) * b < n <= i * b,
    ensures
        crate::format::ceil_div(n, b) == i,
{
    let r: int = n + b - 1 - i * b;
    assert((i - 1) * b == i * b - b) by (nonlinear_arith);
    assert(0 <= r < b);
    assert((i * b + r) / b == i) by (nonlinear_arith)
        requires
            0 <= r < b,
    ;
}

/// 4-byte leaf of one payload block.
pub fn leaf(block: &[u8]) -> (hash: [u8; 4])
    ensures
        hash@ == digest4(block@),
        hash@ == crypto::sha256_of(block@)@.take(4),
{
    mh::<4>(block)
}

/// Combines a left and a right subtree hash into their parent.
pub fn combine(left: &[u8; 4], right: &[u8; 4]) -> (parent: [u8; 4])
    ensures
        parent@ == node(left@, right@),
        parent@ == crypto::sha256_of(left@ + right@)@.take(4),
{
    let buf: [u8; 8] = [
        left[0],
        left[1],
        left[2],
        left[3],
        right[0],
        right[1],
        right[2],
        right[3],
    ];
    assert(buf@ =~= left@ + right@);
    mh::<4>(&buf)
}

/// The leaves over `payload`, split into blocks of `block_size` (the last one may be short).
pub fn leaf_hashes(payload: &[u8], block_size: usize) -> (leaves: Vec<[u8; 4]>)
    requires
        block_size > 0,
    ensures
        views(leaves@) == payload_leaves(payload@, block_size as int),
{
    let n: usize = payload.len();
    let mut leaves: Vec<[u8; 4]> = Vec::new();
    let mut at: usize = 0;
    proof {
        assert(0 * block_size == 0) by (nonlinear_arith);
    }
    while at < n
        invariant
            n == payload@.len(),
            at <= n,
            block_size > 0,
            at < n ==> at == leaves@.len() * block_size,
            at == n ==> (leaves@.len() - 1) * block_size < n <= leaves@.len() * block_size,
            forall|i: int|
                0 <= i < leaves@.len() ==> (#[trigger] leaves@[i])@ == digest4(
                    block(payload@, block_size as int, i),
                ),
        decreases n - at,
    {
        let end: usize = if n - at > block_size {
            at + block_size
        } else {
            n
        };
        let ghost i = leaves@.len() as int;
        proof {
            assert((i + 1) * block_size == i * block_size + block_size) by (nonlinear_arith);
            assert((i + 1 - 1) * block_size == i * block_size);
        }
        let piece: &[u8] = vstd::slice::slice_subrange(payload, at, end);
        assert(piece@ =~= block(payload@, block_size as int, i));
        leaves.push(leaf(piece));
        at = end;
    }
    proof {
        lemma_ceil_div(n as int, block_size as int, leaves@.len() as int);
        assert(views(leaves@) =~= payload_leaves(payload@, block_size as int));
    }
    leaves
}

/// The bytes of leaves, one after the other.
pub fn join(leaves: &[[u8; 4]]) -> (bytes: Vec<u8>)
    ensures
        bytes@ == joined(views(leaves@)),
{
    let n: usize = leaves.len();
    let mut bytes: Vec<u8> = Vec::new();
    let mut i: usize = 0;
    while i < n
        invariant
            n == leaves@.len(),
            i <= n,
            bytes@ == joined(views(leaves@.take(i as int))),
        decreases n - i,
    {
        let word: [u8; 4] = leaves[i];
        bytes.push(word[0]);
        bytes.push(word[1]);
        bytes.push(word[2]);
        bytes.push(word[3]);
        i = i + 1;
        assert(bytes@ =~= joined(views(leaves@.take(i as int))));
    }
    assert(leaves@.take(n as int) =~= leaves@);
    bytes
}

/// The 4-byte words of a byte string.
pub fn split_words(bytes: &[u8]) -> (leaves: Vec<[u8; 4]>)
    ensures
        views(leaves@) == words(bytes@),
{
    let size: usize = bytes.len();
    let n: usize = size / 4;
    let mut leaves: Vec<[u8; 4]> = Vec::new();
    let mut i: usize = 0;
    while i < n
        invariant
            size == bytes@.len(),
            n == size / 4,
            i <= n,
            leaves@.len() == i,
            forall|k: int| 0 <= k < i ==> (#[trigger] leaves@[k])@ == words(bytes@)[k],
        decreases n - i,
    {
        leaves.push(arr::<4>(bytes, 4 * i));
        i = i + 1;
    }
    assert(views(leaves@) =~= words(bytes@));
    leaves
}

/// What the peaks hold after the leaves `s` went in: the peak of level `k`, where there is one, is the root
/// over `2^k` leaves; higher levels cover earlier leaves.
pub open spec fn peaks_hold(peaks: Seq<Option<[u8; 4]>>, s: Seq<Seq<u8>>) -> bool
    decreases peaks.len(),
{
    if peaks.len() == 0 {
        s.len() == 0
    } else {
        let lower = peaks.drop_last();
        let w = power2::pow2(lower.len()) as int;
        match peaks.last() {
            Some(h) => s.len() >= w && h@ == tree_root(s.take(w)) && peaks_hold(lower, s.skip(w)),
            None => peaks_hold(lower, s),
        }
    }
}

/// No peak below `level`.
pub open spec fn vacant(peaks: Seq<Option<[u8; 4]>>, level: int) -> bool {
    forall|k: int| 0 <= k < level ==> #[trigger] peaks[k] == None::<[u8; 4]>
}

/// The peaks bagged right to left.
pub open spec fn bagged(peaks: Seq<Option<[u8; 4]>>) -> Option<Seq<u8>>
    decreases peaks.len(),
{
    if peaks.len() == 0 {
        None
    } else {
        match (peaks.last(), bagged(peaks.drop_last())) {
            (None, acc) => acc,
            (Some(h), None) => Some(h@),
            (Some(h), Some(acc)) => Some(node(h@, acc)),
        }
    }
}

proof fn lemma_split_is(n: int, j: nat, k: nat)
    requires
        j <= k,
        power2::pow2(k) < n <= power2::pow2(k + 1),
    ensures
        split_from(n, power2::pow2(j) as int) == power2::pow2(k),
    decreases k - j,
{
    power2::lemma_pow2_pos(j);
    power2::lemma_pow2_unfold(j + 1);
    if j < k {
        if j + 1 < k {
            power2::lemma_pow2_strictly_increases(j + 1, k);
        }
        lemma_split_is(n, j + 1, k);
    }
}

/// The left subtree over more than `2^k` and at most `2^(k+1)` leaves has `2^k` of them.
pub proof fn lemma_split(n: int, k: nat)
    requires
        power2::pow2(k) < n <= power2::pow2(k + 1),
    ensures
        split(n) == power2::pow2(k),
{
    power2::lemma2_to64();
    lemma_split_is(n, 0, k);
}

/// Without a peak there is no leaf.
proof fn lemma_vacant(peaks: Seq<Option<[u8; 4]>>, s: Seq<Seq<u8>>)
    requires
        vacant(peaks, peaks.len() as int),
    ensures
        peaks_hold(peaks, s) == (s.len() == 0),
    decreases peaks.len(),
{
    if peaks.len() > 0 {
        assert(peaks.last() == peaks[peaks.len() - 1]);
        lemma_vacant(peaks.drop_last(), s);
    }
}

proof fn lemma_peaks_len(peaks: Seq<Option<[u8; 4]>>, s: Seq<Seq<u8>>)
    requires
        peaks_hold(peaks, s),
    ensures
        s.len() < power2::pow2(peaks.len()),
    decreases peaks.len(),
{
    power2::lemma_pow2_pos(peaks.len());
    if peaks.len() > 0 {
        let lower = peaks.drop_last();
        let w = power2::pow2(lower.len()) as int;
        power2::lemma_pow2_unfold(peaks.len());
        match peaks.last() {
            Some(h) => lemma_peaks_len(lower, s.skip(w)),
            None => lemma_peaks_len(lower, s),
        }
    }
}

/// The lowest peak covers the last leaves.
proof fn lemma_take_peak(peaks: Seq<Option<[u8; 4]>>, level: nat, s: Seq<Seq<u8>>)
    requires
        level < peaks.len(),
        vacant(peaks, level as int),
        peaks[level as int] is Some,
        peaks_hold(peaks, s),
    ensures
        s.len() >= power2::pow2(level),
        (peaks[level as int]->0)@ == tree_root(s.skip(s.len() - power2::pow2(level))),
        peaks_hold(
            peaks.update(level as int, None),
            s.take(s.len() - power2::pow2(level)),
        ),
    decreases peaks.len(),
{
    let lower = peaks.drop_last();
    let top = peaks.update(level as int, None);
    let w = power2::pow2(lower.len()) as int;
    let cut = s.len() - power2::pow2(level);
    if level + 1 == peaks.len() {
        lemma_vacant(lower, s.skip(w));
        assert(s.take(w) =~= s.skip(cut));
        assert(top.drop_last() =~= lower);
        lemma_vacant(lower, s.take(cut));
    } else {
        assert(top.drop_last() =~= lower.update(level as int, None));
        match peaks.last() {
            Some(h) => {
                let rest = s.skip(w);
                lemma_take_peak(lower, level, rest);
                let rest_cut = rest.len() - power2::pow2(level);
                assert(rest.skip(rest_cut) =~= s.skip(cut));
                assert(s.take(cut).take(w) =~= s.take(w));
                assert(s.take(cut).skip(w) =~= rest.take(rest_cut));
            },
            None => {
                lemma_take_peak(lower, level, s);
            },
        }
    }
}

/// A peak put on a vacant level, with none below, covers leaves that come last.
proof fn lemma_put_peak(
    peaks: Seq<Option<[u8; 4]>>,
    level: nat,
    s: Seq<Seq<u8>>,
    t: Seq<Seq<u8>>,
    h: [u8; 4],
)
    requires
        level < peaks.len(),
        vacant(peaks, level as int + 1),
        peaks_hold(peaks, s),
        t.len() == power2::pow2(level),
        h@ == tree_root(t),
    ensures
        peaks_hold(peaks.update(level as int, Some(h)), s + t),
    decreases peaks.len(),
{
    let lower = peaks.drop_last();
    let top = peaks.update(level as int, Some(h));
    let w = power2::pow2(lower.len()) as int;
    if level + 1 == peaks.len() {
        lemma_vacant(peaks, s);
        assert(top.drop_last() =~= lower);
        assert((s + t).take(w) =~= t);
        lemma_vacant(lower, (s + t).skip(w));
    } else {
        assert(top.drop_last() =~= lower.update(level as int, Some(h)));
        match peaks.last() {
            Some(_) => {
                lemma_put_peak(lower, level, s.skip(w), t, h);
                assert((s + t).take(w) =~= s.take(w));
                assert((s + t).skip(w) =~= s.skip(w) + t);
            },
            None => {
                lemma_put_peak(lower, level, s, t, h);
            },
        }
    }
}

/// The same for a level above all others.
proof fn lemma_push_peak(
    peaks: Seq<Option<[u8; 4]>>,
    s: Seq<Seq<u8>>,
    t: Seq<Seq<u8>>,
    h: [u8; 4],
)
    requires
        vacant(peaks, peaks.len() as int),
        peaks_hold(peaks, s),
        t.len() == power2::pow2(peaks.len()),
        h@ == tree_root(t),
    ensures
        peaks_hold(peaks.push(Some(h)), s + t),
{
    lemma_vacant(peaks, s);
    assert(peaks.push(Some(h)).drop_last() =~= peaks);
    assert((s + t).take(t.len() as int) =~= t);
    lemma_vacant(peaks, (s + t).skip(t.len() as int));
}

/// Two complete subtrees side by side make a complete tree.
proof fn lemma_carry(a: Seq<Seq<u8>>, b: Seq<Seq<u8>>, level: nat)
    requires
        a.len() == power2::pow2(level),
        b.len() == power2::pow2(level),
    ensures
        (a + b).len() == power2::pow2(level + 1),
        tree_root(a + b) == node(tree_root(a), tree_root(b)),
{
    power2::lemma_pow2_pos(level);
    power2::lemma_pow2_unfold(level + 1);
    lemma_split((a + b).len() as int, level);
    assert((a + b).take(a.len() as int) =~= a);
    assert((a + b).skip(a.len() as int) =~= b);
}

/// Bagging the peaks gives the root.
proof fn lemma_bagged(peaks: Seq<Option<[u8; 4]>>, s: Seq<Seq<u8>>)
    requires
        peaks_hold(peaks, s),
    ensures
        bagged(peaks) == if s.len() == 0 {
            None
        } else {
            Some(tree_root(s))
        },
    decreases peaks.len(),
{
    if peaks.len() > 0 {
        let lower = peaks.drop_last();
        let w = power2::pow2(lower.len()) as int;
        power2::lemma_pow2_pos(lower.len());
        match peaks.last() {
            Some(h) => {
                let rest = s.skip(w);
                lemma_bagged(lower, rest);
                if rest.len() == 0 {
                    assert(s.take(w) =~= s);
                } else {
                    lemma_peaks_len(lower, rest);
                    power2::lemma_pow2_unfold(lower.len() + 1);
                    lemma_split(s.len() as int, lower.len());
                }
            },
            None => lemma_bagged(lower, s),
        }
    }
}

/// Adds one leaf to the peaks.
fn add_leaf(peaks: &mut Vec<Option<[u8; 4]>>, leaf: [u8; 4], Ghost(s): Ghost<Seq<Seq<u8>>>)
    requires
        peaks_hold(old(peaks)@, s),
    ensures
        peaks_hold(final(peaks)@, s.push(leaf@)),
{
    let mut cur: [u8; 4] = leaf;
    let mut level: usize = 0;
    let ghost mut before = s;
    let ghost mut covered: Seq<Seq<u8>> = seq![leaf@];
    proof {
        power2::lemma2_to64();
        assert(before + covered =~= s.push(leaf@));
    }
    while level < peaks.len() && peaks[level].is_some()
        invariant
            level <= peaks@.len(),
            vacant(peaks@, level as int),
            peaks_hold(peaks@, before),
            covered.len() == power2::pow2(level as nat),
            cur@ == tree_root(covered),
            before + covered == s.push(leaf@),
        decreases peaks@.len() - level,
    {
        let ghost cut = before.len() - power2::pow2(level as nat);
        let ghost left = before.skip(cut);
        proof {
            lemma_take_peak(peaks@, level as nat, before);
            lemma_carry(left, covered, level as nat);
        }
        if let Some(peak) = peaks[level] {
            cur = combine(&peak, &cur);
        }
        peaks.set(level, None);
        proof {
            assert(before.take(cut) + (left + covered) =~= before + covered);
            covered = left + covered;
            before = before.take(cut);
        }
        level = level + 1;
    }
    if level == peaks.len() {
        proof {
            lemma_push_peak(peaks@, before, covered, cur);
        }
        peaks.push(Some(cur));
    } else {
        proof {
            lemma_put_peak(peaks@, level as nat, before, covered, cur);
        }
        peaks.set(level, Some(cur));
    }
}

/// Bags the peaks right to left: each higher peak is a larger, further-left subtree, so it joins as the
/// left child.
fn bag(peaks: &Vec<Option<[u8; 4]>>) -> (acc: Option<[u8; 4]>)
    ensures
        match acc {
            Some(h) => bagged(peaks@) == Some(h@),
            None => bagged(peaks@) is None,
        },
{
    let n: usize = peaks.len();
    let mut acc: Option<[u8; 4]> = None;
    let mut level: usize = 0;
    while level < n
        invariant
            n == peaks@.len(),
            level <= n,
            match acc {
                Some(h) => bagged(peaks@.take(level as int)) == Some(h@),
                None => bagged(peaks@.take(level as int)) is None,
            },
        decreases n - level,
    {
        assert(peaks@.take(level + 1).drop_last() =~= peaks@.take(level as int));
        if let Some(higher) = peaks[level] {
            acc = match acc {
                None => Some(higher),
                Some(right) => Some(combine(&higher, &right)),
            };
        }
        level = level + 1;
    }
    assert(peaks@.take(n as int) =~= peaks@);
    acc
}

/// The 4-byte merkle root over the block leaves. No leaves: all zero. A single leaf is its own root.
pub fn root(leaves: &[[u8; 4]]) -> (r: [u8; 4])
    ensures
        r@ == tree_root(views(leaves@)),
{
    let n: usize = leaves.len();
    if n == 0 {
        let zero: [u8; 4] = [0, 0, 0, 0];
        assert(zero@ =~= seq![0u8, 0, 0, 0]);
        return zero;
    }
    if n == 1 {
        return leaves[0];
    }
    let mut peaks: Vec<Option<[u8; 4]>> = Vec::new();
    let mut i: usize = 0;
    while i < n
        invariant
            n == leaves@.len(),
            i <= n,
            peaks_hold(peaks@, views(leaves@.take(i as int))),
        decreases n - i,
    {
        let ghost s = views(leaves@.take(i as int));
        assert(s.push(leaves@[i as int]@) =~= views(leaves@.take(i + 1)));
        add_leaf(&mut peaks, leaves[i], Ghost(s));
        i = i + 1;
    }
    assert(leaves@.take(n as int) =~= leaves@);
    proof {
        lemma_bagged(peaks@, views(leaves@));
    }
    match bag(&peaks) {
        Some(acc) => acc,
        None => [0, 0, 0, 0],
    }
}

} // verus!
