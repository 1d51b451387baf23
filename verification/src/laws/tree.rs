//! The merkle tree.

use vstd::arithmetic::power2;
use vstd::prelude::*;

use crate::crypto;
use crate::merkle;

verus! {

/// No leaves have the root zero, and a single leaf is its own root.
pub proof fn small_trees(leaf: Seq<u8>)
    ensures
        merkle::tree_root(seq![]) == seq![0u8, 0, 0, 0],
        merkle::tree_root(seq![leaf]) == leaf,
{
}

/// The root over `2^k` leaves and up to as many more is the first four bytes of the SHA-256 digest of the root
/// over the former and the root over the latter.
pub proof fn larger_trees(left: Seq<Seq<u8>>, right: Seq<Seq<u8>>, k: nat)
    requires
        left.len() == power2::pow2(k),
        1 <= right.len() <= left.len(),
    ensures
        merkle::tree_root(left + right) == crypto::sha256_of(
            merkle::tree_root(left) + merkle::tree_root(right),
        )@.take(4),
{
    power2::lemma_pow2_pos(k);
    power2::lemma_pow2_unfold(k + 1);
    merkle::lemma_split((left + right).len() as int, k);
    assert((left + right).take(left.len() as int) =~= left);
    assert((left + right).skip(left.len() as int) =~= right);
}

/// Leaves are stored one after the other, and read in groups of four bytes.
pub proof fn stored_leaves(leaves: Seq<Seq<u8>>, bytes: Seq<u8>)
    ensures
        merkle::joined(leaves).len() == 4 * leaves.len(),
        forall|i: int, k: int|
            0 <= i < leaves.len() && 0 <= k < 4 ==> merkle::joined(leaves)[4 * i + k] == #[trigger] leaves[i][k],
        merkle::words(bytes).len() == bytes.len() / 4,
        forall|i: int, k: int|
            0 <= i < bytes.len() / 4 && 0 <= k < 4 ==> #[trigger] merkle::words(bytes)[i][k] == bytes[4 * i + k],
{
    assert forall|i: int, k: int| 0 <= i < leaves.len() && 0 <= k < 4 implies merkle::joined(leaves)[4 * i
        + k] == #[trigger] leaves[i][k] by {
        assert((4 * i + k) / 4 == i && (4 * i + k) % 4 == k);
    }
}

} // verus!
