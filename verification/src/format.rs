//! The `.mota` container format and its fixed manifest layout.
//!
//! A container is `MAGIC(4) ‖ total_size(4, LE) ‖ manifest(197) ‖ leaves[](block_count * 4) ‖ payload ‖
//! TRAILER(5)`. The manifest is **fixed-layout**: every field sits at a constant offset and is always
//! present (base hash, signer and signature are zero-filled when unused); only the leaves and the payload
//! vary.

pub mod off;
pub mod seeder;

use vstd::arithmetic::power2;
use vstd::prelude::*;
use vstd::string::*;
use vstd::utf8;

use crate::laws::reports;
use crate::text;
use crate::text::push_decimal;

verus! {

/// `mOTA`
pub const MAGIC: [u8; 4] = [0x6d, 0x4f, 0x54, 0x41];

/// `vk496`
pub const TRAILER: [u8; 5] = [0x76, 0x6b, 0x34, 0x39, 0x36];

/// The magic and the total size.
pub const HEADER_LEN: usize = 8;

pub const TRAILER_LEN: usize = 5;

pub const FORMAT_VER: u8 = 0x02;

pub const HASH_ALGO_SHA256: u8 = 0x12;

pub const MFLAG_FULL: u8 = 0x01;

pub const MFLAG_SIGNED: u8 = 0x02;

/// Required on the wire.
pub const APPROVAL_NONE: [u8; 4] = [0xff, 0xff, 0xff, 0xff];

/// `APRV`
pub const APPROVAL_YES: [u8; 4] = [0x41, 0x50, 0x52, 0x56];

/// The length of the manifest.
pub const MFL: usize = 197;

/// The signature covers this much of the manifest.
pub const SIGNED_LEN: usize = 129;

pub const HW_ID_LEN: usize = 32;

pub const DEFAULT_BLOCK_SIZE: u32 = 1024;

/// `EndF`
pub const ENDF_MAGIC: [u8; 4] = [0x45, 0x6e, 0x64, 0x46];

/// marker(4) body_len(4) body_hash(8) fw_version(4) target_id(4) hw_id(32)
pub const ENDF_LEN: usize = 56;

pub const ENDF_OFF_FWVER: usize = 16;

pub const ENDF_OFF_TARGET: usize = 20;

pub const ENDF_OFF_HWID: usize = 24;

pub const NRF52_INPLACE_MEMORY: u32 = 0x0009_8000;

pub const NRF52_INPLACE_SEGMENT: u32 = 4096;

pub const NRF52_FLASH_SPAN: u32 = 0x000D_4000 - 0x0002_6000;

pub const NRF52_MAX_INPLACE_MOTA: u32 = NRF52_FLASH_SPAN - NRF52_INPLACE_MEMORY;

/// How the payload of a container is to be read (`codec_id` in the manifest).
#[derive(Clone, Copy, PartialEq, Eq, Debug, Structural)]
pub enum Codec {
    /// The payload is the image.
    Full,
    /// A patch decoded into a fresh slot (ESP32 A/B).
    DetoolsSequential,
    /// A patch applied within one slot (nRF52).
    DetoolsInplace,
}

impl Codec {
    /// The number that stands for a codec in the manifest.
    pub open spec fn id(self) -> u8 {
        match self {
            Codec::Full => 0,
            Codec::DetoolsSequential => 1,
            Codec::DetoolsInplace => 2,
        }
    }

    /// The number that stands for a codec in the manifest.
    pub fn to_u8(self) -> (v: u8)
        ensures
            v == self.id(),
    {
        match self {
            Codec::Full => 0,
            Codec::DetoolsSequential => 1,
            Codec::DetoolsInplace => 2,
        }
    }

    /// The codec with the number `v`.
    pub fn from_u8(v: u8) -> (codec: Option<Codec>)
        ensures
            codec matches Some(c) ==> c.id() == v,
            codec is None ==> v > 2,
            codec == match v {
                0u8 => Some(Codec::Full),
                1u8 => Some(Codec::DetoolsSequential),
                2u8 => Some(Codec::DetoolsInplace),
                _ => None,
            },
    {
        match v {
            0 => Some(Codec::Full),
            1 => Some(Codec::DetoolsSequential),
            2 => Some(Codec::DetoolsInplace),
            _ => None,
        }
    }

    /// The text of [`Codec::label`].
    pub open spec fn label_text(self) -> Seq<char> {
        match self {
            Codec::Full => "full"@,
            Codec::DetoolsSequential => "detools-sequential"@,
            Codec::DetoolsInplace => "detools-in-place"@,
        }
    }

    /// A readable label.
    pub fn label(self) -> (s: &'static str)
        ensures
            s@ == self.label_text(),
    {
        match self {
            Codec::Full => "full",
            Codec::DetoolsSequential => "detools-sequential",
            Codec::DetoolsInplace => "detools-in-place",
        }
    }

    /// The text of [`Codec::name_tag`].
    pub open spec fn name_tag_text(self) -> Seq<char> {
        match self {
            Codec::Full => "full"@,
            Codec::DetoolsSequential => "seqdelta"@,
            Codec::DetoolsInplace => "ipdelta"@,
        }
    }

    /// A short tag, as used in suggested file names.
    pub fn name_tag(self) -> (s: &'static str)
        ensures
            s@ == self.name_tag_text(),
    {
        match self {
            Codec::Full => "full",
            Codec::DetoolsSequential => "seqdelta",
            Codec::DetoolsInplace => "ipdelta",
        }
    }
}

/// The firmware identity that an image carries in its EndF trailer.
#[derive(Clone, Debug)]
pub struct FwIdent {
    pub fw_version: u32,
    pub target_id: u32,
    /// Without the NUL padding.
    pub hw_id: String,
}

impl Default for FwIdent {
    fn default() -> (ident: Self)
        ensures
            ident.fw_version == 0,
            ident.target_id == 0,
            ident.hw_id@ == Seq::<char>::empty(),
    {
        FwIdent { fw_version: 0, target_id: 0, hw_id: String::new() }
    }
}

impl FwIdent {
    /// Whether any part of the identity is known.
    pub fn any(&self) -> (known: bool)
        ensures
            known == (self.fw_version != 0 || self.target_id != 0 || self.hw_id@.len() != 0),
    {
        self.fw_version != 0 || self.target_id != 0 || !self.hw_id.as_str().is_empty()
    }
}

/// Why a container cannot be parsed.
#[derive(Clone, Copy, PartialEq, Eq, Debug, Structural)]
pub enum ParseError {
    TooSmall,
    BadMagic,
    WrongTotal,
    BadTrailer,
    UnsupportedVersion(u8),
    BadBlockSizeOrPayload,
    BlockCountOutOfRange,
    WrongGeometry,
}

impl ParseError {
    /// The text of [`ParseError::message`].
    pub open spec fn text(self) -> Seq<char> {
        match self {
            ParseError::TooSmall => "too small for a .mota"@,
            ParseError::BadMagic => "bad MAGIC (not a .mota)"@,
            ParseError::WrongTotal => "MOTA_TOTAL_SIZE != file length"@,
            ParseError::BadTrailer => "bad TRAILER"@,
            ParseError::UnsupportedVersion(v) => "unsupported format_ver "@ + text::decimal(
                v as nat,
            ),
            ParseError::BadBlockSizeOrPayload => "bad block_size/payload"@,
            ParseError::BlockCountOutOfRange => "block_count out of range"@,
            ParseError::WrongGeometry => "geometry (leaves+payload) != file length"@,
        }
    }

    /// The error in words.
    pub fn message(&self) -> (s: String)
        ensures
            s@ == self.text(),
    {
        match self {
            ParseError::TooSmall => "too small for a .mota".to_owned(),
            ParseError::BadMagic => "bad MAGIC (not a .mota)".to_owned(),
            ParseError::WrongTotal => "MOTA_TOTAL_SIZE != file length".to_owned(),
            ParseError::BadTrailer => "bad TRAILER".to_owned(),
            ParseError::UnsupportedVersion(v) => {
                let mut s = "unsupported format_ver ".to_owned();
                push_decimal(&mut s, *v as u64);
                s
            },
            ParseError::BadBlockSizeOrPayload => "bad block_size/payload".to_owned(),
            ParseError::BlockCountOutOfRange => "block_count out of range".to_owned(),
            ParseError::WrongGeometry => "geometry (leaves+payload) != file length".to_owned(),
        }
    }
}

/// A parsed manifest, with the derived block count.
#[derive(Clone, Debug)]
pub struct Manifest {
    pub format_ver: u8,
    pub flags: u8,
    pub hash_algo: u8,
    pub target_id: u32,
    pub fw_version: u32,
    pub image_size: u32,
    pub payload_size: u32,
    pub block_size_log2: u8,
    pub block_count: u32,
    pub merkle_root: [u8; 4],
    pub image_hash: [u8; 32],
    pub codec_id: u8,
    pub hw_id: [u8; 32],
    pub base_hash: [u8; 8],
    pub signer: [u8; 32],
    pub signature: [u8; 64],
    pub approval: [u8; 4],
}

/// The little-endian 32-bit number at `off`.
pub open spec fn le_u32(s: Seq<u8>, off: int) -> int {
    s[off] + 0x100 * s[off + 1] + 0x1_0000 * s[off + 2] + 0x100_0000 * s[off + 3]
}

/// The little-endian bytes of `v`.
pub open spec fn le_bytes(v: u32) -> Seq<u8> {
    seq![
        (v % 0x100) as u8,
        (v / 0x100 % 0x100) as u8,
        (v / 0x1_0000 % 0x100) as u8,
        (v / 0x100_0000) as u8,
    ]
}

/// The low 32 bits of a length, which is what the format stores of it.
pub open spec fn low32(n: int) -> u32 {
    (n % 0x1_0000_0000) as u32
}

/// `a / b`, rounded up.
pub open spec fn ceil_div(a: int, b: int) -> int {
    (a + b - 1) / b
}

/// Where the payload starts in a container with `block_count` blocks.
pub open spec fn payload_start(block_count: int) -> int {
    HEADER_LEN + MFL + 4 * block_count
}

/// The length of a container with this geometry.
pub open spec fn container_len(block_count: int, payload_size: int) -> int {
    payload_start(block_count) + payload_size + TRAILER_LEN
}

/// The byte string up to its first NUL.
pub open spec fn until_nul(s: Seq<u8>) -> Seq<u8>
    decreases s.len(),
{
    if s.len() == 0 || s[0] == 0 {
        seq![]
    } else {
        seq![s[0]] + until_nul(s.skip(1))
    }
}

/// What is wrong with the framing or the geometry of a container; `None` if nothing is. The checks are
/// made in this order.
pub open spec fn container_error(blob: Seq<u8>) -> Option<ParseError> {
    let n = blob.len() as int;
    let at = HEADER_LEN as int;
    let log2 = blob[at + off::BLOCK_SIZE_LOG2];
    let payload_size = le_u32(blob, at + off::PAYLOAD_SIZE);
    let block_count = ceil_div(payload_size, power2::pow2(log2 as nat) as int);
    if n < HEADER_LEN + MFL + TRAILER_LEN {
        Some(ParseError::TooSmall)
    } else if blob.take(4) != MAGIC@ {
        Some(ParseError::BadMagic)
    } else if le_u32(blob, 4) != n {
        Some(ParseError::WrongTotal)
    } else if blob.skip(n - TRAILER_LEN) != TRAILER@ {
        Some(ParseError::BadTrailer)
    } else if blob[at + off::FORMAT_VER] != FORMAT_VER {
        Some(ParseError::UnsupportedVersion(blob[at + off::FORMAT_VER]))
    } else if !(1 <= log2 <= 24) || payload_size == 0 {
        Some(ParseError::BadBlockSizeOrPayload)
    } else if block_count > 0xFFFF {
        Some(ParseError::BlockCountOutOfRange)
    } else if container_len(block_count, payload_size) != n {
        Some(ParseError::WrongGeometry)
    } else {
        None
    }
}

impl Manifest {
    /// The fields are those that `blob` holds, each at its place.
    pub open spec fn describes(self, blob: Seq<u8>) -> bool {
        let at = HEADER_LEN as int;
        &&& self.format_ver == blob[at + off::FORMAT_VER]
        &&& self.flags == blob[at + off::FLAGS]
        &&& self.hash_algo == blob[at + off::HASH_ALGO]
        &&& self.target_id == le_u32(blob, at + off::TARGET_ID)
        &&& self.fw_version == le_u32(blob, at + off::FW_VERSION)
        &&& self.image_size == le_u32(blob, at + off::IMAGE_SIZE)
        &&& self.payload_size == le_u32(blob, at + off::PAYLOAD_SIZE)
        &&& self.block_size_log2 == blob[at + off::BLOCK_SIZE_LOG2]
        &&& self.block_count == ceil_div(
            self.payload_size as int,
            power2::pow2(self.block_size_log2 as nat) as int,
        )
        &&& self.merkle_root@ == blob.subrange(at + off::MERKLE_ROOT, at + off::MERKLE_ROOT + 4)
        &&& self.image_hash@ == blob.subrange(at + off::IMAGE_HASH, at + off::IMAGE_HASH + 32)
        &&& self.codec_id == blob[at + off::CODEC_ID]
        &&& self.hw_id@ == blob.subrange(at + off::HW_ID, at + off::HW_ID + 32)
        &&& self.base_hash@ == blob.subrange(at + off::BASE_HASH, at + off::BASE_HASH + 8)
        &&& self.signer@ == blob.subrange(at + off::SIGNER, at + off::SIGNER + 32)
        &&& self.signature@ == blob.subrange(at + off::SIGNATURE, at + off::SIGNATURE + 64)
        &&& self.approval@ == blob.subrange(at + off::APPROVAL, at + off::APPROVAL + 4)
    }

    /// The payload is the image itself.
    pub fn is_full(&self) -> (full: bool)
        ensures
            full == (self.flags & MFLAG_FULL != 0),
            full == (self.flags % 2 == 1),
    {
        proof {
            reports::flags(*self);
        }
        self.flags & MFLAG_FULL != 0
    }

    /// The container carries a signature.
    pub fn is_signed(&self) -> (signed: bool)
        ensures
            signed == (self.flags & MFLAG_SIGNED != 0),
            signed == (self.flags / 2 % 2 == 1),
    {
        proof {
            reports::flags(*self);
        }
        self.flags & MFLAG_SIGNED != 0
    }

    /// The container was approved on a device.
    pub fn is_approved(&self) -> (approved: bool)
        ensures
            approved == (self.approval@ == APPROVAL_YES@),
    {
        same_bytes(&self.approval, &APPROVAL_YES)
    }

    /// The size of a payload block.
    pub fn block_size(&self) -> (size: u32)
        requires
            self.block_size_log2 < 32,
        ensures
            size == power2::pow2(self.block_size_log2 as nat),
    {
        power_of_two(self.block_size_log2)
    }

    /// The codec, if the number is a known one.
    pub fn codec(&self) -> (codec: Option<Codec>)
        ensures
            codec matches Some(c) ==> c.id() == self.codec_id,
            codec is None ==> self.codec_id > 2,
            codec == match self.codec_id {
                0u8 => Some(Codec::Full),
                1u8 => Some(Codec::DetoolsSequential),
                2u8 => Some(Codec::DetoolsInplace),
                _ => None,
            },
    {
        Codec::from_u8(self.codec_id)
    }

    /// Where the leaves start.
    pub fn leaves_off(&self) -> (at: usize)
        ensures
            at == HEADER_LEN + MFL,
            at == 205,
    {
        HEADER_LEN + MFL
    }

    /// Where the payload starts.
    pub fn payload_off(&self) -> (at: usize)
        requires
            payload_start(self.block_count as int) <= usize::MAX,
        ensures
            at == payload_start(self.block_count as int),
            at == 205 + 4 * self.block_count,
    {
        self.leaves_off() + self.block_count as usize * 4
    }

    /// The length of the whole container.
    pub fn total_size(&self) -> (size: usize)
        requires
            container_len(self.block_count as int, self.payload_size as int) <= usize::MAX,
        ensures
            size == container_len(self.block_count as int, self.payload_size as int),
            size == 210 + 4 * self.block_count + self.payload_size,
    {
        self.payload_off() + self.payload_size as usize + TRAILER_LEN
    }

    /// The hardware tag, without its padding.
    pub fn hw_id_str(&self) -> (s: String)
        ensures
            s@ == utf8_lossy(until_nul(self.hw_id@)),
            utf8::valid_utf8(until_nul(self.hw_id@)) ==> s@ == utf8::decode_utf8(until_nul(self.hw_id@)),
    {
        cstr(&self.hw_id)
    }

    /// Parses a whole container and checks its framing, its format version, and that the declared geometry
    /// matches its length. No hash is recomputed.
    pub fn parse(blob: &[u8]) -> (r: Result<Manifest, ParseError>)
        ensures
            match r {
                Ok(m) => container_error(blob@) is None && m.describes(blob@),
                Err(e) => container_error(blob@) == Some(e),
            },
    {
        let n: usize = blob.len();
        if n < HEADER_LEN + MFL + TRAILER_LEN {
            return Err(ParseError::TooSmall);
        }
        let at: usize = HEADER_LEN;
        let magic: &[u8] = vstd::slice::slice_subrange(blob, 0, 4);
        assert(magic@ =~= blob@.take(4));
        if !same_bytes(magic, &MAGIC) {
            return Err(ParseError::BadMagic);
        }
        let total: u32 = rd_u32(blob, 4);
        if total as u64 != n as u64 {
            return Err(ParseError::WrongTotal);
        }
        let trailer: &[u8] = vstd::slice::slice_subrange(blob, n - TRAILER_LEN, n);
        assert(trailer@ =~= blob@.skip(n - TRAILER_LEN));
        if !same_bytes(trailer, &TRAILER) {
            return Err(ParseError::BadTrailer);
        }
        let format_ver: u8 = blob[at + off::FORMAT_VER];
        if format_ver != FORMAT_VER {
            return Err(ParseError::UnsupportedVersion(format_ver));
        }
        let block_size_log2: u8 = blob[at + off::BLOCK_SIZE_LOG2];
        let payload_size: u32 = rd_u32(blob, at + off::PAYLOAD_SIZE);
        if !(1 <= block_size_log2 && block_size_log2 <= 24) || payload_size == 0 {
            return Err(ParseError::BadBlockSizeOrPayload);
        }
        let block_size: u32 = power_of_two(block_size_log2);
        let blocks: u64 = (payload_size as u64 + block_size as u64 - 1) / block_size as u64;
        if blocks > 0xFFFF {
            return Err(ParseError::BlockCountOutOfRange);
        }
        let block_count: u32 = blocks as u32;
        let m = Manifest {
            format_ver,
            flags: blob[at + off::FLAGS],
            hash_algo: blob[at + off::HASH_ALGO],
            target_id: rd_u32(blob, at + off::TARGET_ID),
            fw_version: rd_u32(blob, at + off::FW_VERSION),
            image_size: rd_u32(blob, at + off::IMAGE_SIZE),
            payload_size,
            block_size_log2,
            block_count,
            merkle_root: arr::<4>(blob, at + off::MERKLE_ROOT),
            image_hash: arr::<32>(blob, at + off::IMAGE_HASH),
            codec_id: blob[at + off::CODEC_ID],
            hw_id: arr::<32>(blob, at + off::HW_ID),
            base_hash: arr::<8>(blob, at + off::BASE_HASH),
            signer: arr::<32>(blob, at + off::SIGNER),
            signature: arr::<64>(blob, at + off::SIGNATURE),
            approval: arr::<4>(blob, at + off::APPROVAL),
        };
        let want: u64 = (HEADER_LEN + MFL + TRAILER_LEN) as u64 + 4 * block_count as u64
            + payload_size as u64;
        if want != n as u64 {
            return Err(ParseError::WrongGeometry);
        }
        Ok(m)
    }
}

/// A container that parses has the length that its manifest says, and one block or more.
pub proof fn length_is_the_declared_one(m: Manifest, blob: Seq<u8>)
    requires
        container_error(blob) is None,
        m.describes(blob),
    ensures
        container_len(m.block_count as int, m.payload_size as int) == blob.len(),
        1 <= m.block_count <= 0xFFFF,
        1 <= m.block_size_log2 <= 24,
        m.payload_size >= 1,
{
    let size = m.payload_size as int;
    let block = power2::pow2(m.block_size_log2 as nat) as int;
    power2::lemma_pow2_pos(m.block_size_log2 as nat);
    assert((size + block - 1) / block >= 1) by (nonlinear_arith)
        requires
            size >= 1,
            block >= 1,
    ;
}

/// The little-endian bytes of a number give the number back.
pub proof fn lemma_le_bytes(v: u32)
    ensures
        le_bytes(v).len() == 4,
        le_u32(le_bytes(v), 0) == v,
{
    let (b, c, d) = (v / 0x100, v / 0x1_0000, v / 0x100_0000);
    assert(b / 0x100 == c && c / 0x100 == d && d < 0x100) by (nonlinear_arith)
        requires
            b == v / 0x100,
            c == v / 0x1_0000,
            d == v / 0x100_0000,
            v <= 0xFFFF_FFFF,
    ;
}

/// NUL padding does not change what a byte string without NULs reads as.
pub proof fn lemma_until_nul(text: Seq<u8>, padding: Seq<u8>)
    requires
        forall|i: int| 0 <= i < text.len() ==> #[trigger] text[i] != 0,
        padding.len() > 0 ==> padding[0] == 0,
    ensures
        until_nul(text + padding) == text,
    decreases text.len(),
{
    let field = text + padding;
    if text.len() == 0 {
        assert(field =~= padding);
        assert(until_nul(field) =~= text);
    } else {
        let rest = text.skip(1);
        assert forall|i: int| 0 <= i < rest.len() implies #[trigger] rest[i] != 0 by {
            assert(rest[i] == text[i + 1]);
        }
        lemma_until_nul(rest, padding);
        assert(field.skip(1) =~= rest + padding);
        assert(seq![field[0]] + rest =~= text);
    }
}

/// Appends bytes.
pub fn put(out: &mut Vec<u8>, bytes: &[u8])
    ensures
        final(out)@ == old(out)@ + bytes@,
{
    out.extend_from_slice(bytes);
    assert(out@ =~= old(out)@ + bytes@);
}

/// Appends the little-endian bytes of `v`.
pub fn put_u32(out: &mut Vec<u8>, v: u32)
    ensures
        final(out)@ == old(out)@ + le_bytes(v),
{
    out.push((v % 0x100) as u8);
    out.push((v / 0x100 % 0x100) as u8);
    out.push((v / 0x1_0000 % 0x100) as u8);
    out.push((v / 0x100_0000) as u8);
    assert(out@ =~= old(out)@ + le_bytes(v));
}

/// The low 32 bits of a length.
pub fn truncated(n: usize) -> (v: u32)
    ensures
        v == low32(n as int),
{
    (n as u64 % 0x1_0000_0000) as u32
}

/// A field of `HW_ID_LEN` bytes that holds the first bytes of a text, NUL-padded.
pub open spec fn hw_field(text: Seq<u8>) -> Seq<u8> {
    Seq::new(
        HW_ID_LEN as nat,
        |i: int|
            if i < text.len() {
                text[i]
            } else {
                0
            },
    )
}

/// A hardware tag of at most `HW_ID_LEN` bytes without NULs is read back from its field.
pub proof fn lemma_hw_field(text: Seq<u8>)
    requires
        text.len() <= HW_ID_LEN,
        forall|i: int| 0 <= i < text.len() ==> #[trigger] text[i] != 0,
    ensures
        until_nul(hw_field(text)) == text,
{
    let padding = hw_field(text).skip(text.len() as int);
    assert(text + padding =~= hw_field(text));
    lemma_until_nul(text, padding);
}

/// The field for a hardware tag.
pub fn hw_id_field(hw_id: &str) -> (field: [u8; 32])
    ensures
        field@ == hw_field(utf8::encode_utf8(hw_id@)),
{
    let bytes: &[u8] = hw_id.as_bytes();
    let n: usize = bytes.len();
    let mut field: [u8; 32] = [0u8; 32];
    let mut i: usize = 0;
    while i < n && i < HW_ID_LEN
        invariant
            n == bytes@.len(),
            i <= n,
            i <= HW_ID_LEN,
            forall|k: int|
                0 <= k < HW_ID_LEN ==> field@[k] == if k < i {
                    bytes@[k]
                } else {
                    0
                },
        decreases n - i,
    {
        field[i] = bytes[i];
        i = i + 1;
    }
    assert(field@ =~= hw_field(bytes@));
    field
}

/// Whether two byte strings are equal.
pub fn same_bytes(a: &[u8], b: &[u8]) -> (same: bool)
    ensures
        same == (a@ == b@),
{
    let n: usize = a.len();
    if n != b.len() {
        return false;
    }
    let mut i: usize = 0;
    while i < n
        invariant
            n == a@.len(),
            n == b@.len(),
            i <= n,
            forall|k: int| 0 <= k < i ==> a@[k] == b@[k],
        decreases n - i,
    {
        if a[i] != b[i] {
            return false;
        }
        i = i + 1;
    }
    assert(a@ =~= b@);
    true
}

/// `2^k`.
pub fn power_of_two(k: u8) -> (v: u32)
    requires
        k < 32,
    ensures
        v == power2::pow2(k as nat),
        v >= 1,
{
    proof {
        power2::lemma_pow2_pos(k as nat);
        vstd::bits::lemma_u32_pow2_no_overflow(k as nat);
        vstd::bits::lemma_u32_shl_is_mul(1, k as u32);
    }
    1u32 << k
}

/// The little-endian 32-bit number at `off`.
pub fn rd_u32(buf: &[u8], off: usize) -> (v: u32)
    requires
        off + 4 <= buf@.len(),
    ensures
        v == le_u32(buf@, off as int),
{
    let n: usize = buf.len();
    buf[off] as u32 + 0x100 * (buf[off + 1] as u32) + 0x1_0000 * (buf[off + 2] as u32) + 0x100_0000
        * (buf[off + 3] as u32)
}

/// Writes `v` at `off`, little-endian.
pub fn wr_u32(buf: &mut [u8], off: usize, v: u32)
    requires
        off + 4 <= old(buf)@.len(),
    ensures
        final(buf)@ == old(buf)@.update(off as int, le_bytes(v)[0]).update(
            off + 1,
            le_bytes(v)[1],
        ).update(off + 2, le_bytes(v)[2]).update(off + 3, le_bytes(v)[3]),
{
    let n: usize = buf.len();
    buf[off] = (v % 0x100) as u8;
    buf[off + 1] = (v / 0x100 % 0x100) as u8;
    buf[off + 2] = (v / 0x1_0000 % 0x100) as u8;
    buf[off + 3] = (v / 0x100_0000) as u8;
}

/// Reads a fixed-size byte array at `off`.
pub fn arr<const N: usize>(buf: &[u8], off: usize) -> (out: [u8; N])
    requires
        off + N <= buf@.len(),
    ensures
        out@ == buf@.subrange(off as int, off + N),
{
    let size: usize = buf.len();
    let mut out: [u8; N] = [0u8; N];
    let mut i: usize = 0;
    while i < N
        invariant
            i <= N,
            size == buf@.len(),
            off + N <= size,
            forall|k: int| 0 <= k < i ==> out@[k] == buf@[off + k],
        decreases N - i,
    {
        out[i] = buf[off + i];
        i = i + 1;
    }
    assert(out@ =~= buf@.subrange(off as int, off + N));
    out
}

/// What [`lossy_string`] makes of a byte string.
pub uninterp spec fn utf8_lossy(bytes: Seq<u8>) -> Seq<char>;

/// Reads bytes as UTF-8 text, with `String::from_utf8_lossy` of the standard library. What is taken from
/// its documentation: the text depends on the bytes alone, and is the text that valid UTF-8 encodes. What
/// becomes of invalid bytes (they give way to U+FFFD) is left unsaid.
#[verifier::external_body]
fn lossy_string(bytes: &[u8]) -> (s: String)
    ensures
        s@ == utf8_lossy(bytes@),
        utf8::valid_utf8(bytes@) ==> s@ == utf8::decode_utf8(bytes@),
{
    String::from_utf8_lossy(bytes).into_owned()
}

/// Reads a NUL-padded byte field as text, up to the first NUL.
pub fn cstr(bytes: &[u8]) -> (s: String)
    ensures
        s@ == utf8_lossy(until_nul(bytes@)),
        utf8::valid_utf8(until_nul(bytes@)) ==> s@ == utf8::decode_utf8(until_nul(bytes@)),
{
    let n: usize = bytes.len();
    let mut end: usize = 0;
    assert(bytes@.take(0) + until_nul(bytes@.skip(0)) =~= until_nul(bytes@)) by {
        assert(bytes@.skip(0) =~= bytes@);
    }
    while end < n && bytes[end] != 0
        invariant
            n == bytes@.len(),
            end <= n,
            bytes@.take(end as int) + until_nul(bytes@.skip(end as int)) == until_nul(bytes@),
        decreases n - end,
    {
        let ghost rest = bytes@.skip(end as int);
        assert(rest.skip(1) =~= bytes@.skip(end + 1));
        assert(bytes@.take(end as int) + until_nul(rest) =~= bytes@.take(end + 1) + until_nul(
            rest.skip(1),
        ));
        end = end + 1;
    }
    let head: &[u8] = vstd::slice::slice_subrange(bytes, 0, end);
    assert(head@ =~= until_nul(bytes@)) by {
        assert(bytes@.take(end as int) + until_nul(bytes@.skip(end as int)) =~= bytes@.take(
            end as int,
        ));
    }
    lossy_string(head)
}

} // verus!
