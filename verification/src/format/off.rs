//! Manifest field offsets, relative to the manifest start.

use vstd::prelude::*;

verus! {

pub const FORMAT_VER: usize = 0;

pub const FLAGS: usize = 1;

pub const HASH_ALGO: usize = 2;

pub const TARGET_ID: usize = 3;

pub const FW_VERSION: usize = 7;

pub const IMAGE_SIZE: usize = 11;

pub const PAYLOAD_SIZE: usize = 15;

pub const BLOCK_SIZE_LOG2: usize = 19;

/// 4 bytes.
pub const MERKLE_ROOT: usize = 20;

/// 32 bytes.
pub const IMAGE_HASH: usize = 24;

pub const CODEC_ID: usize = 56;

/// 32 bytes, NUL-padded.
pub const HW_ID: usize = 57;

/// 8 bytes, zero for a full image.
pub const BASE_HASH: usize = 89;

/// 32 bytes, zero if unsigned.
pub const SIGNER: usize = 97;

/// 64 bytes, zero if unsigned.
pub const SIGNATURE: usize = 129;

/// 4 bytes.
pub const APPROVAL: usize = 193;

} // verus!
