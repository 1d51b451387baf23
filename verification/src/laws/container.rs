//! Containers, byte by byte.

use vstd::arithmetic::power2;
use vstd::prelude::*;
use vstd::utf8;

use crate::build::layout;
use crate::build::layout::Content;
use crate::crypto;
use crate::format::{Codec, Manifest, ParseError};
use crate::merkle;
use crate::verify;

verus! {

/// The 32-bit number whose bytes stand at `at`, the lowest first.
pub open spec fn word(s: Seq<u8>, at: int) -> int {
    s[at] + 256 * s[at + 1] + 65536 * s[at + 2] + 16777216 * s[at + 3]
}

/// The bytes at `at` are these.
pub open spec fn stands_at(s: Seq<u8>, at: int, bytes: Seq<u8>) -> bool {
    &&& 0 <= at
    &&& at + bytes.len() <= s.len()
    &&& forall|i: int| 0 <= i < bytes.len() ==> s[at + i] == #[trigger] bytes[i]
}

/// The size of the payload that a container states.
pub open spec fn stated_size(blob: Seq<u8>) -> int {
    word(blob, 23)
}

/// The size of the blocks that a container states.
pub open spec fn stated_block(blob: Seq<u8>) -> int {
    power2::pow2(blob[27] as nat) as int
}

/// How many blocks of that size the payload takes.
pub open spec fn stated_count(blob: Seq<u8>) -> int {
    (stated_size(blob) + stated_block(blob) - 1) / stated_block(blob)
}

/// The magic is `mOTA`.
pub open spec fn has_magic(blob: Seq<u8>) -> bool {
    blob[0] == 0x6d && blob[1] == 0x4f && blob[2] == 0x54 && blob[3] == 0x41
}

/// The trailer is `vk496`.
pub open spec fn has_trailer(blob: Seq<u8>) -> bool {
    let n = blob.len() as int;
    blob[n - 5] == 0x76 && blob[n - 4] == 0x6b && blob[n - 3] == 0x34 && blob[n - 2] == 0x39 && blob[n - 1]
        == 0x36
}

/// When a container can be parsed, and why not: it is long enough, begins with the magic and its own length,
/// ends with the trailer, is of version 2, states a block size of 2 to 2^24 bytes and a payload, makes at most
/// 0xFFFF blocks of it, and is as long as 210 bytes, four bytes a block and the payload together.
pub proof fn parsing_by_bytes(blob: Seq<u8>)
    ensures
        match crate::format::container_error(blob) {
            Some(ParseError::TooSmall) => blob.len() < 210,
            Some(ParseError::BadMagic) => blob.len() >= 210 && !has_magic(blob),
            Some(ParseError::WrongTotal) => blob.len() >= 210 && has_magic(blob) && word(blob, 4)
                != blob.len(),
            Some(ParseError::BadTrailer) => blob.len() >= 210 && has_magic(blob) && word(blob, 4)
                == blob.len() && !has_trailer(blob),
            Some(ParseError::UnsupportedVersion(v)) => {
                &&& blob.len() >= 210
                &&& has_magic(blob)
                &&& word(blob, 4) == blob.len()
                &&& has_trailer(blob)
                &&& v == blob[8]
                &&& v != 2
            },
            Some(ParseError::BadBlockSizeOrPayload) => {
                &&& blob.len() >= 210
                &&& has_magic(blob)
                &&& word(blob, 4) == blob.len()
                &&& has_trailer(blob)
                &&& blob[8] == 2
                &&& blob[27] < 1 || blob[27] > 24 || stated_size(blob) == 0
            },
            Some(ParseError::BlockCountOutOfRange) => {
                &&& blob.len() >= 210
                &&& has_magic(blob)
                &&& word(blob, 4) == blob.len()
                &&& has_trailer(blob)
                &&& blob[8] == 2
                &&& 1 <= blob[27] <= 24
                &&& stated_count(blob) > 0xFFFF
            },
            Some(ParseError::WrongGeometry) => {
                &&& blob.len() >= 210
                &&& has_magic(blob)
                &&& word(blob, 4) == blob.len()
                &&& has_trailer(blob)
                &&& blob[8] == 2
                &&& 1 <= blob[27] <= 24
                &&& stated_size(blob) >= 1
                &&& stated_count(blob) <= 0xFFFF
                &&& blob.len() != 210 + 4 * stated_count(blob) + stated_size(blob)
            },
            None => {
                &&& blob.len() >= 210
                &&& has_magic(blob)
                &&& word(blob, 4) == blob.len()
                &&& has_trailer(blob)
                &&& blob[8] == 2
                &&& 1 <= blob[27] <= 24
                &&& stated_size(blob) >= 1
                &&& 1 <= stated_count(blob) <= 0xFFFF
                &&& blob.len() == 210 + 4 * stated_count(blob) + stated_size(blob)
            },
        },
{
    let n = blob.len() as int;
    if n >= 210 {
        let magic = crate::format::MAGIC@;
        let head = blob.take(4);
        assert(has_magic(blob) ==> head =~= magic);
        assert(head == magic ==> has_magic(blob)) by {
            assert(head[0] == blob[0] && head[1] == blob[1] && head[2] == blob[2] && head[3] == blob[3]);
        }
        let trailer = crate::format::TRAILER@;
        let tail = blob.skip(n - 5);
        assert(has_trailer(blob) ==> tail =~= trailer);
        assert(tail == trailer ==> has_trailer(blob)) by {
            assert(tail[0] == blob[n - 5] && tail[1] == blob[n - 4] && tail[2] == blob[n - 3] && tail[3]
                == blob[n - 2] && tail[4] == blob[n - 1]);
        }
        power2::lemma_pow2_pos(blob[27] as nat);
        let (size, block) = (stated_size(blob), stated_block(blob));
        if size >= 1 {
            assert((size + block - 1) / block >= 1) by (nonlinear_arith)
                requires
                    size >= 1,
                    block >= 1,
            ;
        }
    }
}

/// A parsed manifest holds what stands at the places of its fields.
pub proof fn fields_by_bytes(m: Manifest, blob: Seq<u8>)
    requires
        blob.len() >= 210,
        m.describes(blob),
    ensures
        m.format_ver == blob[8],
        m.flags == blob[9],
        m.hash_algo == blob[10],
        m.target_id == word(blob, 11),
        m.fw_version == word(blob, 15),
        m.image_size == word(blob, 19),
        m.payload_size == word(blob, 23),
        m.block_size_log2 == blob[27],
        m.block_count == stated_count(blob),
        stands_at(blob, 28, m.merkle_root@),
        stands_at(blob, 32, m.image_hash@),
        m.codec_id == blob[64],
        stands_at(blob, 65, m.hw_id@),
        stands_at(blob, 97, m.base_hash@),
        stands_at(blob, 105, m.signer@),
        stands_at(blob, 137, m.signature@),
        stands_at(blob, 201, m.approval@),
{
    assert forall|i: int| 0 <= i < 4 implies blob[28 + i] == #[trigger] m.merkle_root@[i] by {
        assert(blob.subrange(28, 32)[i] == blob[28 + i]);
    }
    assert forall|i: int| 0 <= i < 32 implies blob[32 + i] == #[trigger] m.image_hash@[i] by {
        assert(blob.subrange(32, 64)[i] == blob[32 + i]);
    }
    assert forall|i: int| 0 <= i < 32 implies blob[65 + i] == #[trigger] m.hw_id@[i] by {
        assert(blob.subrange(65, 97)[i] == blob[65 + i]);
    }
    assert forall|i: int| 0 <= i < 8 implies blob[97 + i] == #[trigger] m.base_hash@[i] by {
        assert(blob.subrange(97, 105)[i] == blob[97 + i]);
    }
    assert forall|i: int| 0 <= i < 32 implies blob[105 + i] == #[trigger] m.signer@[i] by {
        assert(blob.subrange(105, 137)[i] == blob[105 + i]);
    }
    assert forall|i: int| 0 <= i < 64 implies blob[137 + i] == #[trigger] m.signature@[i] by {
        assert(blob.subrange(137, 201)[i] == blob[137 + i]);
    }
    assert forall|i: int| 0 <= i < 4 implies blob[201 + i] == #[trigger] m.approval@[i] by {
        assert(blob.subrange(201, 205)[i] == blob[201 + i]);
    }
}

/// The smaller of two numbers.
pub open spec fn smaller(a: int, b: int) -> int {
    if a < b {
        a
    } else {
        b
    }
}

proof fn lemma_blocks(len: int, size: int)
    requires
        len >= 0,
        size >= 1,
    ensures
        ({
            let n = crate::format::ceil_div(len, size);
            &&& n >= 0
            &&& (n - 1) * size < len <= n * size
        }),
{
    let n = crate::format::ceil_div(len, size);
    assert(n >= 0 && (n - 1) * size < len && len <= n * size) by (nonlinear_arith)
        requires
            len >= 0,
            size >= 1,
            n == (len + size - 1) / size,
    ;
}

/// A payload of `len` bytes makes as many leaves as blocks of `size` bytes are needed to hold it, and each leaf
/// is the first four bytes of the SHA-256 digest of its block; the last block ends with the payload.
pub proof fn leaves_by_block(payload: Seq<u8>, size: int)
    requires
        size >= 1,
    ensures
        ({
            let leaves = merkle::payload_leaves(payload, size);
            let n = leaves.len() as int;
            &&& (n - 1) * size < payload.len() <= n * size
            &&& forall|i: int|
                0 <= i < n ==> #[trigger] leaves[i] == crypto::sha256_of(
                    payload.subrange(i * size, smaller((i + 1) * size, payload.len() as int)),
                )@.take(4)
        }),
{
    lemma_blocks(payload.len() as int, size);
}

/// The fields of a container that holds this content, each at its place: version 2, flag 1 for a full image and 2
/// for a signature, SHA-256, the target, the version, the sizes, the logarithm of the block size, the merkle
/// root, the image hash, the codec, the hardware tag up to 32 bytes and then zeros, the base hash, the signer,
/// the signature, and four bytes 0xFF.
pub open spec fn has_fields(c: Content, blob: Seq<u8>) -> bool {
    let hw = utf8::encode_utf8(c.hw_id);
    &&& blob[8] == 2
    &&& blob[9] == (if c.codec == Codec::Full {
        1int
    } else {
        0
    }) + (if c.seed is Some {
        2int
    } else {
        0
    })
    &&& blob[10] == 0x12
    &&& word(blob, 11) == c.target_id
    &&& word(blob, 15) == c.fw_version
    &&& word(blob, 19) == c.image.len() % 0x1_0000_0000
    &&& word(blob, 23) == c.payload.len() % 0x1_0000_0000
    &&& power2::pow2(blob[27] as nat) <= c.block_size < power2::pow2(blob[27] as nat + 1)
    &&& blob.subrange(28, 32) == merkle::tree_root(c.leaves())
    &&& blob.subrange(32, 64) == crypto::sha256_of(c.image)@
    &&& blob[64] == match c.codec {
        Codec::Full => 0u8,
        Codec::DetoolsSequential => 1,
        Codec::DetoolsInplace => 2,
    }
    &&& forall|i: int|
        0 <= i < 32 ==> #[trigger] blob.subrange(65, 97)[i] == if i < hw.len() {
            hw[i]
        } else {
            0
        }
    &&& blob.subrange(97, 105) == c.base_hash
    &&& match c.seed {
        Some(seed) => {
            &&& blob.subrange(105, 137) == crypto::public_key_of(seed)@
            &&& blob.subrange(137, 201) == crypto::signature_of(seed, blob.subrange(8, 137))@
        },
        None => forall|i: int| 0 <= i < 96 ==> #[trigger] blob.subrange(105, 201)[i] == 0,
    }
    &&& blob.subrange(201, 205) == seq![0xFFu8, 0xFF, 0xFF, 0xFF]
}

/// A container that is put together has its fields at their places.
#[verifier::rlimit(40)]
pub proof fn built_fields_by_bytes(c: Content)
    requires
        c.wf(),
    ensures
        has_fields(c, c.container()),
{
    let blob = c.container();
    layout::container_holds(c);
    layout::lemma_lengths(c);
    layout::lemma_log2_u32(c.block_size);
    layout::lemma_log2_floor(c.block_size);
    lemma_built_fields(c, blob);
}

#[verifier::rlimit(40)]
proof fn lemma_built_fields(c: Content, blob: Seq<u8>)
    requires
        layout::holds(c, blob),
        blob.len() >= 210,
        0 <= layout::log2_floor(c.block_size) < 32,
    ensures
        ({
            let hw = utf8::encode_utf8(c.hw_id);
            &&& blob[8] == 2
            &&& blob[9] == (if c.codec == Codec::Full {
                1int
            } else {
                0
            }) + (if c.seed is Some {
                2int
            } else {
                0
            })
            &&& blob[10] == 0x12
            &&& word(blob, 11) == c.target_id
            &&& word(blob, 15) == c.fw_version
            &&& word(blob, 19) == c.image.len() % 0x1_0000_0000
            &&& word(blob, 23) == c.payload.len() % 0x1_0000_0000
            &&& blob[27] == layout::log2_floor(c.block_size)
            &&& blob.subrange(28, 32) == merkle::tree_root(c.leaves())
            &&& blob.subrange(32, 64) == crypto::sha256_of(c.image)@
            &&& blob[64] == match c.codec {
                Codec::Full => 0u8,
                Codec::DetoolsSequential => 1,
                Codec::DetoolsInplace => 2,
            }
            &&& forall|i: int|
                0 <= i < 32 ==> #[trigger] blob.subrange(65, 97)[i] == if i < hw.len() {
                    hw[i]
                } else {
                    0
                }
            &&& blob.subrange(97, 105) == c.base_hash
            &&& match c.seed {
                Some(seed) => {
                    &&& blob.subrange(105, 137) == crypto::public_key_of(seed)@
                    &&& blob.subrange(137, 201) == crypto::signature_of(seed, blob.subrange(8, 137))@
                },
                None => forall|i: int| 0 <= i < 96 ==> #[trigger] blob.subrange(105, 201)[i] == 0,
            }
            &&& blob.subrange(201, 205) == seq![0xFFu8, 0xFF, 0xFF, 0xFF]
        }),
{
    assert(1u8 | 2u8 == 3u8) by (bit_vector);
    assert(crate::format::APPROVAL_NONE@ =~= seq![0xFFu8, 0xFF, 0xFF, 0xFF]);
    if c.seed is None {
        assert forall|i: int| 0 <= i < 96 implies #[trigger] blob.subrange(105, 201)[i] == 0 by {
            if i < 32 {
                assert(blob.subrange(105, 137)[i] == layout::zeros(32)[i]);
            } else {
                assert(blob.subrange(137, 201)[i - 32] == layout::zeros(64)[i - 32]);
            }
        }
    }
}

/// The frame of a container: the magic, its length modulo 2^32, the manifest up to byte 205, the leaves of the
/// payload blocks, the payload, and the trailer.
pub open spec fn has_frame(c: Content, blob: Seq<u8>) -> bool {
    let n = c.leaves().len() as int;
    let size = c.payload.len() as int;
    &&& (n - 1) * c.block_size < size <= n * c.block_size
    &&& blob.len() == 210 + 4 * n + size
    &&& has_magic(blob)
    &&& word(blob, 4) == blob.len() % 0x1_0000_0000
    &&& forall|i: int|
        0 <= i < n ==> blob.subrange(205 + 4 * i, 209 + 4 * i) == crypto::sha256_of(
            #[trigger] c.payload.subrange(
                i * c.block_size,
                smaller((i + 1) * c.block_size, size),
            ),
        )@.take(4)
    &&& blob.subrange(205 + 4 * n, 205 + 4 * n + size) == c.payload
    &&& has_trailer(blob)
}

/// A container that is put together has its frame.
#[verifier::rlimit(40)]
pub proof fn built_frame_by_bytes(c: Content)
    requires
        c.wf(),
    ensures
        has_frame(c, c.container()),
{
    let blob = c.container();
    let leaves = c.leaves();
    let n = leaves.len() as int;
    layout::lemma_places(c);
    leaves_by_block(c.payload, c.block_size);
    lemma_frame(blob, leaves, n);
    assert(crate::format::le_u32(blob, 4) == crate::format::low32(c.total())) by {
        layout::lemma_word(blob, crate::format::low32(c.total()));
    }
    let size = c.payload.len() as int;
    assert(blob.subrange(205 + 4 * n, 205 + 4 * n + size) =~= c.payload);
    assert forall|i: int| 0 <= i < n implies blob.subrange(205 + 4 * i, 209 + 4 * i) == crypto::sha256_of(
        #[trigger] c.payload.subrange(i * c.block_size, smaller((i + 1) * c.block_size, size)),
    )@.take(4) by {
        assert(blob.subrange(205 + 4 * i, 209 + 4 * i) == leaves[i]);
    }
}

proof fn lemma_frame(blob: Seq<u8>, leaves: Seq<Seq<u8>>, n: int)
    requires
        n == leaves.len(),
        blob.len() >= 210 + 4 * n,
        blob.take(4) == crate::format::MAGIC@,
        blob.skip(blob.len() - 5) == crate::format::TRAILER@,
        blob.subrange(205, 205 + 4 * n) == merkle::joined(leaves),
        forall|i: int| 0 <= i < n ==> (#[trigger] leaves[i]).len() == 4,
    ensures
        has_magic(blob),
        has_trailer(blob),
        forall|i: int| 0 <= i < n ==> blob.subrange(205 + 4 * i, 209 + 4 * i) == #[trigger] leaves[i],
{
    let head = blob.take(4);
    let tail = blob.skip(blob.len() - 5);
    let last = blob.len() as int;
    assert(head[0] == blob[0] && head[1] == blob[1] && head[2] == blob[2] && head[3] == blob[3]);
    assert(tail[0] == blob[last - 5] && tail[1] == blob[last - 4] && tail[2] == blob[last - 3] && tail[3]
        == blob[last - 2] && tail[4] == blob[last - 1]);
    assert forall|i: int| 0 <= i < n implies blob.subrange(205 + 4 * i, 209 + 4 * i) == #[trigger] leaves[i] by {
        let piece = blob.subrange(205 + 4 * i, 209 + 4 * i);
        assert forall|k: int| 0 <= k < 4 implies piece[k] == leaves[i][k] by {
            assert(merkle::joined(leaves)[4 * i + k] == leaves[(4 * i + k) / 4][(4 * i + k) % 4]);
            assert((4 * i + k) / 4 == i && (4 * i + k) % 4 == k);
            assert(blob.subrange(205, 205 + 4 * n)[4 * i + k] == blob[205 + (4 * i + k)]);
        }
        assert(piece =~= leaves[i]);
    }
}

} // verus!
