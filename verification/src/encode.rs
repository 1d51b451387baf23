//! The encoder for sequential patches.
//!
//! A patch is a stream of bytes that a small decoder applies to the running image to rebuild the target.
//! It is correct if that decoder rebuilds the target byte for byte; how small it is depends on how good
//! the matches are.
//!
//! ```text
//! header(1)                                     ; layout and compression
//! size(to_len)                                  ; not compressed
//! crle( size(0)                                 ; data format: none
//!       repeat: size(diff_len) diff[diff_len]   ; to = from + diff (mod 256), from advances diff_len
//!               size(extra_len) extra[extra_len]; literal bytes, from unchanged
//!               size(seek) )                    ; signed; the cursor in from moves by seek
//! ```

pub mod bsdiff;
pub mod crle;
pub mod search;
pub mod suffix;
pub mod varint;

use vstd::prelude::*;

pub use crate::delta::PatchType;
pub use crate::encode::crle::crle_compress;
pub use crate::encode::varint::{crle_pack_size, pack_size};

use crate::decode;
use crate::encode::varint::pack_difference;

verus! {

/// The first byte of a patch: the sequential layout (0) in the high half, `crle` (2) in the low half.
pub const SEQUENTIAL_CRLE: u8 = 2;

/// What a patch holds after its header, before compression.
pub open spec fn sequential_body(from: Seq<u8>, to: Seq<u8>) -> Seq<u8> {
    varint::size_bytes(0) + bsdiff::diff_stream(from, to)
}

/// The patch that turns `from` into `to`.
pub open spec fn sequential_patch(from: Seq<u8>, to: Seq<u8>) -> Seq<u8> {
    seq![SEQUENTIAL_CRLE] + varint::size_bytes(to.len() as int) + crle::compressed(
        sequential_body(from, to),
    )
}

/// Encodes a sequential, `crle`-compressed patch that turns `from` into `to`.
pub fn encode_sequential(from: &[u8], to: &[u8]) -> (patch: Vec<u8>)
    ensures
        patch@ == sequential_patch(from@, to@),
        decode::patched(from@, patch@) == Some(to@),
{
    proof {
        decode::sequential_round_trip(from@, to@);
    }
    let mut patch: Vec<u8> = Vec::new();
    patch.push(SEQUENTIAL_CRLE);
    let size = pack_difference(to.len() as u64, 0);
    patch.extend_from_slice(size.as_slice());
    let mut body = pack_size(0);
    bsdiff::bsdiff(from, to, &mut body);
    let compressed = crle_compress(body.as_slice());
    patch.extend_from_slice(compressed.as_slice());
    assert(patch@ =~= sequential_patch(from@, to@));
    patch
}

} // verus!
