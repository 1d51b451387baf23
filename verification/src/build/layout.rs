//! The bytes of a container: `MAGIC ‖ total(4) ‖ manifest ‖ leaves[] ‖ payload ‖ TRAILER`.

use vstd::arithmetic::power2;
use vstd::prelude::*;
use vstd::utf8;

use crate::crypto;
use crate::format::{
    off, Codec, Manifest, ParseError, APPROVAL_NONE, FORMAT_VER, HASH_ALGO_SHA256, HEADER_LEN,
    HW_ID_LEN, MAGIC, MFL, MFLAG_FULL, MFLAG_SIGNED, SIGNED_LEN, TRAILER, TRAILER_LEN,
};
use crate::merkle;
use crate::verify;

verus! {

/// What goes into a container.
pub struct Content {
    pub codec: Codec,
    pub target_id: u32,
    pub fw_version: u32,
    pub hw_id: Seq<char>,
    pub image: Seq<u8>,
    pub payload: Seq<u8>,
    /// 8 bytes.
    pub base_hash: Seq<u8>,
    /// 32 bytes.
    pub seed: Option<Seq<u8>>,
    pub block_size: int,
}

/// `count` zero bytes.
pub open spec fn zeros(count: nat) -> Seq<u8> {
    Seq::new(count, |i: int| 0u8)
}

/// The logarithm to base two, rounded down.
pub open spec fn log2_floor(n: int) -> int
    decreases n,
{
    if n <= 1 {
        0
    } else {
        1 + log2_floor(n / 2)
    }
}

impl Content {
    /// The base hash has its length, the block size is in its range, and the payload of a full container is
    /// the image.
    pub open spec fn wf(self) -> bool {
        &&& self.base_hash.len() == 8
        &&& 1 <= self.block_size <= u32::MAX
        &&& self.codec == Codec::Full ==> self.payload == self.image
    }

    /// The leaves over the payload.
    pub open spec fn leaves(self) -> Seq<Seq<u8>> {
        merkle::payload_leaves(self.payload, self.block_size)
    }

    /// The flags byte.
    pub open spec fn flags(self) -> u8 {
        if self.codec == Codec::Full {
            if self.seed is Some {
                MFLAG_FULL | MFLAG_SIGNED
            } else {
                MFLAG_FULL
            }
        } else {
            if self.seed is Some {
                MFLAG_SIGNED
            } else {
                0
            }
        }
    }

    /// The manifest up to the merkle root.
    pub open spec fn sizes(self) -> Seq<u8> {
        seq![FORMAT_VER, self.flags(), HASH_ALGO_SHA256] + crate::format::le_bytes(self.target_id)
            + crate::format::le_bytes(self.fw_version) + crate::format::le_bytes(
            crate::format::low32(self.image.len() as int),
        ) + crate::format::le_bytes(crate::format::low32(self.payload.len() as int)) + seq![
            log2_floor(self.block_size) as u8,
        ]
    }

    /// The manifest from the merkle root up to the hardware tag.
    pub open spec fn hashes(self) -> Seq<u8> {
        merkle::tree_root(self.leaves()) + crypto::sha256_of(self.image)@ + seq![self.codec.id()]
    }

    /// The manifest from the hardware tag to the end of the signed part.
    pub open spec fn identity(self) -> Seq<u8> {
        crate::format::hw_field(utf8::encode_utf8(self.hw_id)) + self.base_hash + self.signer()
    }

    /// The public key of the signer; zero if unsigned.
    pub open spec fn signer(self) -> Seq<u8> {
        match self.seed {
            Some(seed) => crypto::public_key_of(seed)@,
            None => zeros(32),
        }
    }

    /// The part of the manifest that a signature covers.
    pub open spec fn signed_part(self) -> Seq<u8> {
        self.sizes() + self.hashes() + self.identity()
    }

    /// The signature; zero if unsigned.
    pub open spec fn signature(self) -> Seq<u8> {
        match self.seed {
            Some(seed) => crypto::signature_of(seed, self.signed_part())@,
            None => zeros(64),
        }
    }

    /// The manifest.
    pub open spec fn manifest(self) -> Seq<u8> {
        self.signed_part() + self.signature() + APPROVAL_NONE@
    }

    /// The length of the container.
    pub open spec fn total(self) -> int {
        crate::format::container_len(self.leaves().len() as int, self.payload.len() as int)
    }

    /// The container.
    pub open spec fn container(self) -> Seq<u8> {
        MAGIC@ + crate::format::le_bytes(crate::format::low32(self.total())) + self.manifest()
            + merkle::joined(self.leaves()) + self.payload + TRAILER@
    }

    /// The block size that a container can state: the largest power of two up to the block size.
    pub open spec fn stated_block_size(self) -> int {
        power2::pow2(log2_floor(self.block_size) as nat) as int
    }

    /// The number of blocks that readers derive from a container.
    pub open spec fn stated_blocks(self) -> int {
        crate::format::ceil_div(self.payload.len() as int, self.stated_block_size())
    }

    /// Why the container cannot be read; `None` if it can. It cannot if its length does not fit 32 bits, if
    /// its blocks are too small, too large or too many, or if there is no payload. With a block size that is
    /// no power of two it cannot either, unless the payload happens to make as many blocks of the stated
    /// size.
    pub open spec fn fault(self) -> Option<ParseError> {
        if self.total() >= 0x1_0000_0000 {
            Some(ParseError::WrongTotal)
        } else if !(1 <= log2_floor(self.block_size) <= 24) || self.payload.len() == 0 {
            Some(ParseError::BadBlockSizeOrPayload)
        } else if self.stated_blocks() > 0xFFFF {
            Some(ParseError::BlockCountOutOfRange)
        } else if self.stated_blocks() != self.leaves().len() {
            Some(ParseError::WrongGeometry)
        } else {
            None
        }
    }
}

pub proof fn lemma_tree_root_len(leaves: Seq<Seq<u8>>)
    requires
        forall|i: int| 0 <= i < leaves.len() ==> (#[trigger] leaves[i]).len() == 4,
    ensures
        merkle::tree_root(leaves).len() == 4,
{
}

/// The parts of a manifest have their lengths.
pub proof fn lemma_lengths(c: Content)
    requires
        c.wf(),
    ensures
        c.sizes().len() == off::MERKLE_ROOT,
        c.hashes().len() == off::HW_ID - off::MERKLE_ROOT,
        c.identity().len() == off::SIGNATURE - off::HW_ID,
        c.signed_part().len() == SIGNED_LEN,
        c.signature().len() == 64,
        c.manifest().len() == MFL,
        merkle::joined(c.leaves()).len() == 4 * c.leaves().len(),
        c.container().len() == c.total(),
{
    let leaves = c.leaves();
    assert forall|i: int| 0 <= i < leaves.len() implies (#[trigger] leaves[i]).len() == 4 by {}
    lemma_tree_root_len(leaves);
}

proof fn lemma_sizes(c: Content)
    requires
        c.wf(),
    ensures
        ({
            let m = c.sizes();
            &&& m.len() == 20
            &&& m[off::FORMAT_VER as int] == FORMAT_VER
            &&& m[off::FLAGS as int] == c.flags()
            &&& m[off::HASH_ALGO as int] == HASH_ALGO_SHA256
            &&& crate::format::le_u32(m, off::TARGET_ID as int) == c.target_id
            &&& crate::format::le_u32(m, off::FW_VERSION as int) == c.fw_version
            &&& crate::format::le_u32(m, off::IMAGE_SIZE as int) == crate::format::low32(
                c.image.len() as int,
            )
            &&& crate::format::le_u32(m, off::PAYLOAD_SIZE as int) == crate::format::low32(
                c.payload.len() as int,
            )
            &&& m[off::BLOCK_SIZE_LOG2 as int] == log2_floor(c.block_size) as u8
        }),
{
    crate::format::lemma_le_bytes(c.target_id);
    crate::format::lemma_le_bytes(c.fw_version);
    crate::format::lemma_le_bytes(crate::format::low32(c.image.len() as int));
    crate::format::lemma_le_bytes(crate::format::low32(c.payload.len() as int));
}

proof fn lemma_hashes(c: Content)
    requires
        c.wf(),
    ensures
        ({
            let m = c.hashes();
            &&& m.subrange(0, 4) == merkle::tree_root(c.leaves())
            &&& m.subrange(4, 36) == crypto::sha256_of(c.image)@
            &&& m[36] == c.codec.id()
        }),
{
    lemma_lengths(c);
    assert(c.hashes().subrange(0, 4) =~= merkle::tree_root(c.leaves()));
    assert(c.hashes().subrange(4, 36) =~= crypto::sha256_of(c.image)@);
}

proof fn lemma_identity(c: Content)
    requires
        c.wf(),
    ensures
        ({
            let m = c.identity();
            &&& m.subrange(0, 32) == crate::format::hw_field(utf8::encode_utf8(c.hw_id))
            &&& m.subrange(32, 40) == c.base_hash
            &&& m.subrange(40, 72) == c.signer()
        }),
{
    lemma_lengths(c);
    assert(c.identity().subrange(0, 32) =~= crate::format::hw_field(utf8::encode_utf8(c.hw_id)));
    assert(c.identity().subrange(32, 40) =~= c.base_hash);
    assert(c.identity().subrange(40, 72) =~= c.signer());
}

/// Where a part stands, its pieces stand too.
proof fn lemma_part(whole: Seq<u8>, at: int, part: Seq<u8>)
    requires
        0 <= at,
        at + part.len() <= whole.len(),
        whole.subrange(at, at + part.len()) == part,
    ensures
        forall|i: int| #![trigger part[i]] 0 <= i < part.len() ==> whole[at + i] == part[i],
        forall|i: int, j: int|
            #![trigger part.subrange(i, j)]
            0 <= i <= j <= part.len() ==> whole.subrange(at + i, at + j) == part.subrange(i, j),
{
    assert forall|i: int| #![trigger part[i]] 0 <= i < part.len() implies whole[at + i] == part[i] by {
        assert(whole.subrange(at, at + part.len())[i] == part[i]);
    }
    assert forall|i: int, j: int|
        #![trigger part.subrange(i, j)]
        0 <= i <= j <= part.len() implies whole.subrange(at + i, at + j) == part.subrange(i, j) by {
        assert(whole.subrange(at + i, at + j) =~= part.subrange(i, j));
    }
}

/// Where the parts of a container stand.
#[verifier::rlimit(40)]
pub proof fn lemma_places(c: Content)
    requires
        c.wf(),
    ensures
        ({
            let blob = c.container();
            let start = crate::format::payload_start(c.leaves().len() as int);
            &&& blob.len() == c.total()
            &&& blob.take(4) == MAGIC@
            &&& blob.subrange(4, 8) == crate::format::le_bytes(crate::format::low32(c.total()))
            &&& blob.subrange(8, 205) == c.manifest()
            &&& blob.subrange(205, start) == merkle::joined(c.leaves())
            &&& blob.subrange(start, start + c.payload.len()) == c.payload
            &&& blob.skip(blob.len() - TRAILER_LEN) == TRAILER@
        }),
{
    lemma_lengths(c);
    let blob = c.container();
    let start = crate::format::payload_start(c.leaves().len() as int);
    assert(blob.take(4) =~= MAGIC@);
    assert(blob.subrange(4, 8) =~= crate::format::le_bytes(crate::format::low32(c.total())));
    assert(blob.subrange(8, 205) =~= c.manifest());
    assert(blob.subrange(205, start) =~= merkle::joined(c.leaves()));
    assert(blob.subrange(start, start + c.payload.len()) =~= c.payload);
    assert(blob.skip(blob.len() - TRAILER_LEN) =~= TRAILER@);
}

/// Where the parts of a manifest stand.
#[verifier::rlimit(40)]
proof fn lemma_manifest_places(c: Content)
    requires
        c.wf(),
    ensures
        ({
            let m = c.manifest();
            &&& m.len() == MFL
            &&& m.subrange(0, 129) == c.signed_part()
            &&& m.subrange(0, 20) == c.sizes()
            &&& m.subrange(20, 57) == c.hashes()
            &&& m.subrange(57, 129) == c.identity()
            &&& m.subrange(129, 193) == c.signature()
            &&& m.subrange(193, 197) == APPROVAL_NONE@
        }),
{
    lemma_lengths(c);
    let m = c.manifest();
    assert(m.subrange(0, 129) =~= c.signed_part());
    assert(m.subrange(0, 20) =~= c.sizes());
    assert(m.subrange(20, 57) =~= c.hashes());
    assert(m.subrange(57, 129) =~= c.identity());
    assert(m.subrange(129, 193) =~= c.signature());
    assert(m.subrange(193, 197) =~= APPROVAL_NONE@);
}

/// What the fields of a container hold.
pub open spec fn holds(c: Content, blob: Seq<u8>) -> bool {
    let at = HEADER_LEN as int;
    &&& blob[at + off::FORMAT_VER] == FORMAT_VER
    &&& blob[at + off::FLAGS] == c.flags()
    &&& blob[at + off::HASH_ALGO] == HASH_ALGO_SHA256
    &&& crate::format::le_u32(blob, at + off::TARGET_ID) == c.target_id
    &&& crate::format::le_u32(blob, at + off::FW_VERSION) == c.fw_version
    &&& crate::format::le_u32(blob, at + off::IMAGE_SIZE) == crate::format::low32(c.image.len() as int)
    &&& crate::format::le_u32(blob, at + off::PAYLOAD_SIZE) == crate::format::low32(
        c.payload.len() as int,
    )
    &&& blob[at + off::BLOCK_SIZE_LOG2] == log2_floor(c.block_size) as u8
    &&& verify::field_in(blob, off::MERKLE_ROOT as int, 4) == merkle::tree_root(c.leaves())
    &&& verify::field_in(blob, off::IMAGE_HASH as int, 32) == crypto::sha256_of(c.image)@
    &&& blob[at + off::CODEC_ID] == c.codec.id()
    &&& verify::field_in(blob, off::HW_ID as int, 32) == crate::format::hw_field(
        utf8::encode_utf8(c.hw_id),
    )
    &&& verify::field_in(blob, off::BASE_HASH as int, 8) == c.base_hash
    &&& verify::field_in(blob, off::SIGNER as int, 32) == c.signer()
    &&& verify::field_in(blob, 0, SIGNED_LEN as int) == c.signed_part()
    &&& verify::field_in(blob, off::SIGNATURE as int, 64) == c.signature()
    &&& verify::field_in(blob, off::APPROVAL as int, 4) == APPROVAL_NONE@
}

/// A container holds what went into it, each field at its place.
#[verifier::rlimit(40)]
pub proof fn container_holds(c: Content)
    requires
        c.wf(),
    ensures
        holds(c, c.container()),
{
    let blob = c.container();
    let m = c.manifest();
    lemma_places(c);
    lemma_manifest_places(c);
    lemma_lengths(c);
    lemma_part(blob, 8, m);
    assert(blob.subrange(8, 28) == m.subrange(0, 20));
    assert(blob.subrange(28, 65) == m.subrange(20, 57));
    assert(blob.subrange(65, 137) == m.subrange(57, 129));
    assert(blob.subrange(8, 137) == m.subrange(0, 129));
    assert(blob.subrange(137, 201) == m.subrange(129, 193));
    assert(blob.subrange(201, 205) == m.subrange(193, 197));
    lemma_holds_sizes(c, blob);
    lemma_hashes(c);
    lemma_identity(c);
    lemma_part(blob, 28, c.hashes());
    assert(c.hashes().subrange(0, 4) == blob.subrange(28, 32));
    assert(c.hashes().subrange(4, 36) == blob.subrange(32, 64));
    assert(c.hashes()[36] == blob[64]);
    lemma_part(blob, 65, c.identity());
    assert(c.identity().subrange(0, 32) == blob.subrange(65, 97));
    assert(c.identity().subrange(32, 40) == blob.subrange(97, 105));
    assert(c.identity().subrange(40, 72) == blob.subrange(105, 137));
}

proof fn lemma_holds_sizes(c: Content, blob: Seq<u8>)
    requires
        c.wf(),
        blob.len() >= 28,
        blob.subrange(8, 28) == c.sizes(),
    ensures
        ({
            let at = HEADER_LEN as int;
            &&& blob[at + off::FORMAT_VER] == FORMAT_VER
            &&& blob[at + off::FLAGS] == c.flags()
            &&& blob[at + off::HASH_ALGO] == HASH_ALGO_SHA256
            &&& crate::format::le_u32(blob, at + off::TARGET_ID) == c.target_id
            &&& crate::format::le_u32(blob, at + off::FW_VERSION) == c.fw_version
            &&& crate::format::le_u32(blob, at + off::IMAGE_SIZE) == crate::format::low32(
                c.image.len() as int,
            )
            &&& crate::format::le_u32(blob, at + off::PAYLOAD_SIZE) == crate::format::low32(
                c.payload.len() as int,
            )
            &&& blob[at + off::BLOCK_SIZE_LOG2] == log2_floor(c.block_size) as u8
        }),
{
    let m = c.sizes();
    lemma_sizes(c);
    assert forall|i: int| 0 <= i < 20 implies #[trigger] m[i] == blob[8 + i] by {
        assert(blob.subrange(8, 28)[i] == blob[8 + i]);
    }
}

/// A parsed container gives back what went into it. The hardware tag comes back whole if it has at most
/// `HW_ID_LEN` bytes and no NUL, and the sizes do if they fit 32 bits.
#[verifier::rlimit(40)]
pub proof fn manifest_is_read_back(c: Content, m: Manifest)
    requires
        c.wf(),
        c.fault() is None,
        m.describes(c.container()),
    ensures
        m.target_id == c.target_id,
        m.fw_version == c.fw_version,
        m.codec_id == c.codec.id(),
        m.flags & MFLAG_FULL != 0 <==> c.codec == Codec::Full,
        m.flags & MFLAG_SIGNED != 0 <==> c.seed is Some,
        c.image.len() <= u32::MAX ==> m.image_size == c.image.len(),
        m.payload_size == c.payload.len(),
        m.block_count == c.leaves().len(),
        m.merkle_root@ == merkle::tree_root(c.leaves()),
        m.image_hash@ == crypto::sha256_of(c.image)@,
        m.base_hash@ == c.base_hash,
        m.signer@ == c.signer(),
        m.signature@ == c.signature(),
        m.approval@ == APPROVAL_NONE@,
        utf8::encode_utf8(c.hw_id).len() <= HW_ID_LEN && !utf8::encode_utf8(c.hw_id).contains(0)
            ==> utf8::decode_utf8(crate::format::until_nul(m.hw_id@)) == c.hw_id,
{
    let blob = c.container();
    container_holds(c);
    lemma_flags(c);
    lemma_read_words(c, m, blob);
    lemma_read_sizes(c, m);
    lemma_read_hashes(c, m, blob);
    if utf8::encode_utf8(c.hw_id).len() <= HW_ID_LEN && !utf8::encode_utf8(c.hw_id).contains(0) {
        lemma_read_hw_id(c.hw_id);
    }
}

#[verifier::rlimit(40)]
proof fn lemma_read_words(c: Content, m: Manifest, blob: Seq<u8>)
    requires
        holds(c, blob),
        m.describes(blob),
    ensures
        m.target_id == c.target_id,
        m.fw_version == c.fw_version,
        m.codec_id == c.codec.id(),
        m.flags == c.flags(),
        m.image_size == crate::format::low32(c.image.len() as int),
        m.payload_size == crate::format::low32(c.payload.len() as int),
        m.block_size_log2 == log2_floor(c.block_size) as u8,
        m.block_count == crate::format::ceil_div(
            m.payload_size as int,
            power2::pow2(m.block_size_log2 as nat) as int,
        ),
{
}

proof fn lemma_read_sizes(c: Content, m: Manifest)
    requires
        c.wf(),
        c.fault() is None,
        m.payload_size == crate::format::low32(c.payload.len() as int),
        m.block_size_log2 == log2_floor(c.block_size) as u8,
        m.block_count == crate::format::ceil_div(
            m.payload_size as int,
            power2::pow2(m.block_size_log2 as nat) as int,
        ),
    ensures
        m.payload_size == c.payload.len(),
        m.block_count == c.leaves().len(),
{
    lemma_log2_u32(c.block_size);
    assert(c.payload.len() < 0x1_0000_0000);
    assert(m.block_size_log2 == log2_floor(c.block_size));
}

#[verifier::rlimit(40)]
proof fn lemma_read_hashes(c: Content, m: Manifest, blob: Seq<u8>)
    requires
        holds(c, blob),
        m.describes(blob),
    ensures
        m.merkle_root@ == merkle::tree_root(c.leaves()),
        m.image_hash@ == crypto::sha256_of(c.image)@,
        m.hw_id@ == crate::format::hw_field(utf8::encode_utf8(c.hw_id)),
        m.base_hash@ == c.base_hash,
        m.signer@ == c.signer(),
        m.signature@ == c.signature(),
        m.approval@ == APPROVAL_NONE@,
{
}

proof fn lemma_read_hw_id(hw_id: Seq<char>)
    requires
        utf8::encode_utf8(hw_id).len() <= HW_ID_LEN,
        !utf8::encode_utf8(hw_id).contains(0),
    ensures
        utf8::decode_utf8(
            crate::format::until_nul(crate::format::hw_field(utf8::encode_utf8(hw_id))),
        ) == hw_id,
{
    let bytes = utf8::encode_utf8(hw_id);
    assert forall|i: int| 0 <= i < bytes.len() implies #[trigger] bytes[i] != 0 by {
        assert(bytes.contains(bytes[i]));
    }
    crate::format::lemma_hw_field(bytes);
    utf8::encode_utf8_decode_utf8(hw_id);
}

/// The logarithm rounded down is the exponent of the largest power of two up to a number.
pub proof fn lemma_log2_floor(n: int)
    requires
        n >= 1,
    ensures
        log2_floor(n) >= 0,
        power2::pow2(log2_floor(n) as nat) <= n < power2::pow2((log2_floor(n) + 1) as nat),
    decreases n,
{
    power2::lemma2_to64();
    if n > 1 {
        lemma_log2_floor(n / 2);
        let k = log2_floor(n / 2) as nat;
        power2::lemma_pow2_unfold(k + 1);
        power2::lemma_pow2_unfold(k + 2);
    }
}

/// A 32-bit number has a logarithm below 32.
pub proof fn lemma_log2_u32(n: int)
    requires
        1 <= n <= u32::MAX,
    ensures
        0 <= log2_floor(n) < 32,
{
    lemma_log2_floor(n);
    power2::lemma2_to64();
    if log2_floor(n) > 32 {
        power2::lemma_pow2_strictly_increases(32, log2_floor(n) as nat);
    }
}

/// The rounded-down logarithm of a power of two is its exponent.
pub proof fn lemma_log2_of_pow2(k: nat)
    ensures
        log2_floor(power2::pow2(k) as int) == k,
    decreases k,
{
    power2::lemma2_to64();
    if k > 0 {
        power2::lemma_pow2_unfold(k);
        power2::lemma_pow2_pos((k - 1) as nat);
        lemma_log2_of_pow2((k - 1) as nat);
    }
}

pub proof fn lemma_word(blob: Seq<u8>, v: u32)
    requires
        blob.len() >= 8,
        blob.subrange(4, 8) == crate::format::le_bytes(v),
    ensures
        crate::format::le_u32(blob, 4) == v,
{
    crate::format::lemma_le_bytes(v);
    let word = blob.subrange(4, 8);
    assert(word[0] == blob[4] && word[1] == blob[5] && word[2] == blob[6] && word[3] == blob[7]);
}

proof fn lemma_fault(c: Content, blob: Seq<u8>)
    requires
        c.wf(),
        blob.len() == c.total(),
        blob.take(4) == MAGIC@,
        blob.skip(blob.len() - TRAILER_LEN) == TRAILER@,
        crate::format::le_u32(blob, 4) == crate::format::low32(c.total()),
        blob[HEADER_LEN + off::FORMAT_VER] == FORMAT_VER,
        blob[HEADER_LEN + off::BLOCK_SIZE_LOG2] == log2_floor(c.block_size) as u8,
        crate::format::le_u32(blob, HEADER_LEN + off::PAYLOAD_SIZE) == crate::format::low32(
            c.payload.len() as int,
        ),
    ensures
        crate::format::container_error(blob) == c.fault(),
{
    lemma_log2_u32(c.block_size);
}

/// Where reading a container fails.
#[verifier::rlimit(40)]
pub proof fn container_fault(c: Content)
    requires
        c.wf(),
    ensures
        crate::format::container_error(c.container()) == c.fault(),
{
    let blob = c.container();
    lemma_places(c);
    container_holds(c);
    lemma_word(blob, crate::format::low32(c.total()));
    lemma_fault(c, blob);
}

proof fn lemma_flags(c: Content)
    ensures
        c.flags() & MFLAG_FULL != 0 <==> c.codec == Codec::Full,
        c.flags() & MFLAG_SIGNED != 0 <==> c.seed is Some,
{
    assert(0u8 & 1u8 == 0 && 0u8 & 2u8 == 0 && 1u8 & 1u8 == 1 && 1u8 & 2u8 == 0 && 2u8 & 1u8 == 0 && 2u8 & 2u8
        == 2 && (1u8 | 2u8) & 1u8 == 1 && (1u8 | 2u8) & 2u8 == 2) by (bit_vector);
}

#[verifier::rlimit(40)]
proof fn lemma_stored(c: Content, blob: Seq<u8>)
    requires
        c.wf(),
        c.fault() is None,
        blob[HEADER_LEN + off::BLOCK_SIZE_LOG2] == log2_floor(c.block_size) as u8,
        crate::format::le_u32(blob, HEADER_LEN + off::PAYLOAD_SIZE) == crate::format::low32(
            c.payload.len() as int,
        ),
        ({
            let start = crate::format::payload_start(c.leaves().len() as int);
            &&& blob.subrange(205, start) == merkle::joined(c.leaves())
            &&& blob.subrange(start, start + c.payload.len()) == c.payload
        }),
    ensures
        verify::block_size_in(blob) == c.stated_block_size(),
        verify::block_count_in(blob) == c.leaves().len(),
        verify::payload_in(blob) == c.payload,
        verify::leaves_in(blob) == merkle::joined(c.leaves()),
{
    lemma_log2_u32(c.block_size);
}

proof fn lemma_root(blob: Seq<u8>, leaves: Seq<Seq<u8>>)
    requires
        verify::leaves_in(blob) == merkle::joined(leaves),
        verify::field_in(blob, off::MERKLE_ROOT as int, 4) == merkle::tree_root(leaves),
        forall|i: int| 0 <= i < leaves.len() ==> (#[trigger] leaves[i]).len() == 4,
    ensures
        verify::root_matches(blob),
{
    merkle::words_of_joined(leaves);
}

proof fn lemma_problems(blob: Seq<u8>)
    requires
        crate::format::container_error(blob) is None,
        verify::root_matches(blob),
        verify::image_matches(blob),
        verify::signature_holds(blob),
        verify::unapproved(blob),
    ensures
        verify::problems_of(blob) == verify::unless(
            verify::leaves_match(blob),
            "leaves[] do not match the payload (corruption)"@,
        ),
{
    assert(verify::problems_of(blob) =~= verify::unless(
        verify::leaves_match(blob),
        "leaves[] do not match the payload (corruption)"@,
    ));
}

/// What is wrong with a container that can be read and whose signature, if it has one, is accepted: nothing,
/// or that its leaves are not those for the stated block size. They are if the block size is a power of two.
#[verifier::rlimit(40)]
pub proof fn container_problems(c: Content)
    requires
        c.wf(),
        c.fault() is None,
        c.seed is Some ==> crypto::signature_accepted(c.signer(), c.signed_part(), c.signature()),
    ensures
        verify::problems_of(c.container()) == verify::unless(
            merkle::joined(merkle::payload_leaves(c.payload, c.stated_block_size())) == merkle::joined(
                c.leaves(),
            ),
            "leaves[] do not match the payload (corruption)"@,
        ),
        c.stated_block_size() == c.block_size ==> verify::problems_of(c.container()).len() == 0,
{
    let blob = c.container();
    let leaves = c.leaves();
    container_fault(c);
    container_holds(c);
    lemma_places(c);
    lemma_flags(c);
    assert forall|i: int| 0 <= i < leaves.len() implies (#[trigger] leaves[i]).len() == 4 by {}
    lemma_stored(c, blob);
    lemma_root(blob, leaves);
    lemma_problems(blob);
}

/// With blocks of 2 to 2^24 bytes, a power of two, up to 0xFFFF of them, and a length that fits 32 bits, a
/// container can be read, and the block size that it states is the block size.
pub proof fn power_of_two_blocks(c: Content, k: nat)
    requires
        c.wf(),
        1 <= k <= 24,
        c.block_size == power2::pow2(k),
        1 <= c.leaves().len() <= 0xFFFF,
        c.total() < 0x1_0000_0000,
    ensures
        c.fault() is None,
        c.stated_block_size() == c.block_size,
{
    lemma_log2_of_pow2(k);
    power2::lemma_pow2_pos(k);
    if c.payload.len() == 0 {
        merkle::lemma_ceil_div(0, c.block_size, 0);
    }
}

} // verus!
