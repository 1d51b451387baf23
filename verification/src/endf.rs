//! The `EndF` firmware-identity trailer and version/target helpers.
//!
//! A firmware image describes itself by a fixed 56-byte trailer: `EndF ‖ body_len(4) ‖ body_hash8(8) ‖
//! fw_version(4) ‖ target_id(4) ‖ hw_id(32)`.

pub mod version;

pub use version::{pack_version, version_str, VersionError};

use vstd::prelude::*;
use vstd::string::*;
use vstd::utf8;

use crate::crypto;
use crate::crypto::mh;
use crate::format::{
    arr, cstr, hw_id_field, put, put_u32, rd_u32, same_bytes, truncated, FwIdent, ENDF_LEN, ENDF_MAGIC,
    ENDF_OFF_FWVER, ENDF_OFF_HWID, ENDF_OFF_TARGET, HW_ID_LEN,
};
use crate::laws::container;

verus! {

/// The 8-byte hash of an image body.
pub open spec fn body_hash(body: Seq<u8>) -> Seq<u8> {
    crypto::sha256_of(body)@.take(8)
}

/// What stands before the place of the trailer.
pub open spec fn body_of(image: Seq<u8>) -> Seq<u8> {
    image.take(image.len() - ENDF_LEN)
}

/// What stands at the place of the trailer.
pub open spec fn trailer_of(image: Seq<u8>) -> Seq<u8> {
    image.skip(image.len() - ENDF_LEN)
}

/// The image ends with a valid trailer: the magic, the length of the body, and the hash of the body.
pub open spec fn is_trailed(image: Seq<u8>) -> bool {
    let t = trailer_of(image);
    &&& image.len() >= ENDF_LEN
    &&& t.take(4) == ENDF_MAGIC@
    &&& crate::format::le_u32(t, 4) == body_of(image).len()
    &&& t.subrange(8, 16) == body_hash(body_of(image))
}

/// The trailer for an image body.
pub open spec fn trailer(body: Seq<u8>, fw_version: u32, target_id: u32, hw_id: Seq<char>) -> Seq<u8> {
    ENDF_MAGIC@ + crate::format::le_bytes(crate::format::low32(body.len() as int)) + body_hash(body)
        + crate::format::le_bytes(fw_version) + crate::format::le_bytes(target_id)
        + crate::format::hw_field(utf8::encode_utf8(hw_id))
}

/// The image with a trailer: as it is if it has one.
pub open spec fn trailed(image: Seq<u8>, fw_version: u32, target_id: u32, hw_id: Seq<char>) -> Seq<u8> {
    if is_trailed(image) {
        image
    } else {
        image + trailer(image, fw_version, target_id, hw_id)
    }
}

/// The version that a trailed image carries.
pub open spec fn fw_version_in(image: Seq<u8>) -> int {
    crate::format::le_u32(trailer_of(image), ENDF_OFF_FWVER as int)
}

/// The target that a trailed image carries.
pub open spec fn target_id_in(image: Seq<u8>) -> int {
    crate::format::le_u32(trailer_of(image), ENDF_OFF_TARGET as int)
}

/// The bytes of the hardware tag that a trailed image carries, without the padding.
pub open spec fn hw_id_in(image: Seq<u8>) -> Seq<u8> {
    crate::format::until_nul(
        trailer_of(image).subrange(ENDF_OFF_HWID as int, ENDF_OFF_HWID + HW_ID_LEN),
    )
}

/// The version of an image: that of its trailer, or zero.
pub open spec fn own_version(image: Seq<u8>) -> int {
    if is_trailed(image) {
        fw_version_in(image)
    } else {
        0
    }
}

/// The target of an image: that of its trailer, or zero.
pub open spec fn own_target(image: Seq<u8>) -> int {
    if is_trailed(image) {
        target_id_in(image)
    } else {
        0
    }
}

/// The hardware tag of an image: that of its trailer, or none.
pub open spec fn own_hardware(image: Seq<u8>) -> Seq<char> {
    if is_trailed(image) {
        crate::format::utf8_lossy(hw_id_in(image))
    } else {
        seq![]
    }
}

/// `ident` is the identity that `image` carries: nothing if it has no trailer.
pub open spec fn identifies(ident: FwIdent, image: Seq<u8>) -> bool {
    &&& ident.fw_version == own_version(image)
    &&& ident.target_id == own_target(image)
    &&& ident.hw_id@ == own_hardware(image)
    &&& is_trailed(image) && utf8::valid_utf8(hw_id_in(image)) ==> ident.hw_id@ == utf8::decode_utf8(
        hw_id_in(image),
    )
}

pub proof fn lemma_trailer(body: Seq<u8>, fw_version: u32, target_id: u32, hw_id: Seq<char>)
    ensures
        ({
            let t = trailer(body, fw_version, target_id, hw_id);
            &&& t.len() == ENDF_LEN
            &&& t.take(4) == ENDF_MAGIC@
            &&& crate::format::le_u32(t, 4) == crate::format::low32(body.len() as int)
            &&& t.subrange(8, 16) == body_hash(body)
            &&& crate::format::le_u32(t, ENDF_OFF_FWVER as int) == fw_version
            &&& crate::format::le_u32(t, ENDF_OFF_TARGET as int) == target_id
            &&& t.subrange(ENDF_OFF_HWID as int, ENDF_OFF_HWID + HW_ID_LEN) == crate::format::hw_field(
                utf8::encode_utf8(hw_id),
            )
        }),
{
    let t = trailer(body, fw_version, target_id, hw_id);
    crate::format::lemma_le_bytes(crate::format::low32(body.len() as int));
    crate::format::lemma_le_bytes(fw_version);
    crate::format::lemma_le_bytes(target_id);
    assert(t.take(4) =~= ENDF_MAGIC@);
    assert(t.subrange(8, 16) =~= body_hash(body));
    assert(t.subrange(ENDF_OFF_HWID as int, ENDF_OFF_HWID + HW_ID_LEN) =~= crate::format::hw_field(
        utf8::encode_utf8(hw_id),
    ));
}

proof fn lemma_appended(image: Seq<u8>, t: Seq<u8>)
    requires
        t.len() == ENDF_LEN,
        t.take(4) == ENDF_MAGIC@,
        crate::format::le_u32(t, 4) == image.len(),
        t.subrange(8, 16) == body_hash(image),
    ensures
        is_trailed(image + t),
        body_of(image + t) == image,
        trailer_of(image + t) == t,
{
    assert(body_of(image + t) =~= image);
    assert(trailer_of(image + t) =~= t);
}

/// An image gets a valid trailer, unless its length does not fit the 32-bit field for it.
pub proof fn trailed_is_trailed(image: Seq<u8>, fw_version: u32, target_id: u32, hw_id: Seq<char>)
    requires
        image.len() < 0x1_0000_0000,
    ensures
        is_trailed(trailed(image, fw_version, target_id, hw_id)),
        !is_trailed(image) ==> body_of(trailed(image, fw_version, target_id, hw_id)) == image,
{
    if !is_trailed(image) {
        lemma_trailer(image, fw_version, target_id, hw_id);
        lemma_appended(image, trailer(image, fw_version, target_id, hw_id));
    }
}

/// A second trailer is never added, whatever identity it would carry.
pub proof fn trailed_is_idempotent(
    image: Seq<u8>,
    fw_version: u32,
    target_id: u32,
    hw_id: Seq<char>,
    fw_version2: u32,
    target_id2: u32,
    hw_id2: Seq<char>,
)
    requires
        image.len() < 0x1_0000_0000,
    ensures
        trailed(trailed(image, fw_version, target_id, hw_id), fw_version2, target_id2, hw_id2)
            == trailed(image, fw_version, target_id, hw_id),
{
    trailed_is_trailed(image, fw_version, target_id, hw_id);
}

/// The identity that went into a trailer is read back from it. A hardware tag comes back whole if it has
/// at most `HW_ID_LEN` bytes and no NUL.
pub proof fn identity_is_read_back(
    image: Seq<u8>,
    fw_version: u32,
    target_id: u32,
    hw_id: Seq<char>,
    ident: FwIdent,
)
    requires
        image.len() < 0x1_0000_0000,
        !is_trailed(image),
        identifies(ident, trailed(image, fw_version, target_id, hw_id)),
    ensures
        ident.fw_version == fw_version,
        ident.target_id == target_id,
        utf8::encode_utf8(hw_id).len() <= HW_ID_LEN && !utf8::encode_utf8(hw_id).contains(0)
            ==> ident.hw_id@ == hw_id,
{
    let bytes = utf8::encode_utf8(hw_id);
    lemma_trailer(image, fw_version, target_id, hw_id);
    lemma_appended(image, trailer(image, fw_version, target_id, hw_id));
    if bytes.len() <= HW_ID_LEN && !bytes.contains(0) {
        assert forall|i: int| 0 <= i < bytes.len() implies #[trigger] bytes[i] != 0 by {
            assert(bytes.contains(bytes[i]));
        }
        crate::format::lemma_hw_field(bytes);
        utf8::encode_utf8_valid_utf8(hw_id);
        utf8::encode_utf8_decode_utf8(hw_id);
    }
}

/// Whether `image` ends with a valid EndF trailer (the magic, the body length and the body hash).
pub fn has_endf(image: &[u8]) -> (valid: bool)
    ensures
        valid == is_trailed(image@),
{
    let n: usize = image.len();
    if n < ENDF_LEN {
        return false;
    }
    let body: &[u8] = vstd::slice::slice_subrange(image, 0, n - ENDF_LEN);
    let t: &[u8] = vstd::slice::slice_subrange(image, n - ENDF_LEN, n);
    proof {
        assert(body@ =~= body_of(image@));
        assert(t@ =~= trailer_of(image@));
        assert(t@.subrange(0, 4) =~= t@.take(4));
    }
    same_bytes(vstd::slice::slice_subrange(t, 0, 4), &ENDF_MAGIC) && rd_u32(t, 4) as u64 == body.len() as u64
        && same_bytes(vstd::slice::slice_subrange(t, 8, 16), &mh::<8>(body))
}

/// Reads the firmware identity from the EndF trailer of an image (zero and empty if there is none).
pub fn parse_ident(image: &[u8]) -> (ident: FwIdent)
    ensures
        identifies(ident, image@),
{
    if !has_endf(image) {
        return FwIdent::default();
    }
    let n: usize = image.len();
    let t: &[u8] = vstd::slice::slice_subrange(image, n - ENDF_LEN, n);
    assert(t@ =~= trailer_of(image@));
    FwIdent {
        fw_version: rd_u32(t, ENDF_OFF_FWVER),
        target_id: rd_u32(t, ENDF_OFF_TARGET),
        hw_id: cstr(vstd::slice::slice_subrange(t, ENDF_OFF_HWID, ENDF_OFF_HWID + HW_ID_LEN)),
    }
}

/// Appends a 56-byte EndF trailer that carries `ident` if `image` has none; a trailed image is returned
/// unchanged. Returns the image and its 8-byte body hash.
pub fn ensure_endf(image: &[u8], ident: &FwIdent) -> (r: (Vec<u8>, [u8; 8]))
    ensures
        r.0@ == trailed(image@, ident.fw_version, ident.target_id, ident.hw_id@),
        r.1@ == body_hash(
            if is_trailed(image@) {
                body_of(image@)
            } else {
                image@
            },
        ),
{
    let n: usize = image.len();
    let mut out: Vec<u8> = Vec::new();
    put(&mut out, image);
    assert(out@ =~= image@);
    if has_endf(image) {
        let t: &[u8] = vstd::slice::slice_subrange(image, n - ENDF_LEN, n);
        assert(t@ =~= trailer_of(image@));
        return (out, arr::<8>(t, 8));
    }
    let hash: [u8; 8] = mh::<8>(image);
    put(&mut out, &ENDF_MAGIC);
    put_u32(&mut out, truncated(n));
    put(&mut out, &hash);
    put_u32(&mut out, ident.fw_version);
    put_u32(&mut out, ident.target_id);
    put(&mut out, &hw_id_field(ident.hw_id.as_str()));
    assert(out@ =~= image@ + trailer(image@, ident.fw_version, ident.target_id, ident.hw_id@));
    (out, hash)
}

/// The target for an environment name: `sha2-256:4(env_name)` read as a little-endian u32.
pub fn target_id_for_env(env: &str) -> (id: u32)
    ensures
        id == crate::format::le_u32(crypto::sha256_of(utf8::encode_utf8(env@))@, 0),
        id == container::word(crypto::sha256_of(utf8::encode_utf8(env@))@, 0),
{
    let hash: [u8; 4] = mh::<4>(env.as_bytes());
    rd_u32(&hash, 0)
}

} // verus!
