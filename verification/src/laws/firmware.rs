//! Firmware images, byte by byte.

use vstd::prelude::*;
use vstd::utf8;

use crate::crypto;
use crate::endf;
use crate::format::FwIdent;
use crate::laws::container;

verus! {

/// The image ends with 56 bytes that begin with `EndF`, the length of what stands before them, and the first
/// eight bytes of its SHA-256 digest.
pub open spec fn ends_with_trailer(image: Seq<u8>) -> bool {
    let at = image.len() - 56;
    &&& image.len() >= 56
    &&& image[at] == 0x45
    &&& image[at + 1] == 0x6e
    &&& image[at + 2] == 0x64
    &&& image[at + 3] == 0x46
    &&& container::word(image, at + 4) == at
    &&& image.subrange(at + 8, at + 16) == crypto::sha256_of(image.take(at))@.take(8)
}

/// An image has a valid trailer if and only if it ends with one.
pub proof fn trailer_by_bytes(image: Seq<u8>)
    ensures
        endf::is_trailed(image) <==> ends_with_trailer(image),
{
    if image.len() >= 56 {
        let at = image.len() - 56;
        let t = endf::trailer_of(image);
        let magic = crate::format::ENDF_MAGIC@;
        assert(t.take(4)[0] == image[at] && t.take(4)[1] == image[at + 1] && t.take(4)[2] == image[at + 2]
            && t.take(4)[3] == image[at + 3]);
        if ends_with_trailer(image) {
            assert(t.take(4) =~= magic);
        }
        assert(t.subrange(8, 16) =~= image.subrange(at + 8, at + 16));
        assert(endf::body_of(image).len() == at);
    }
}

/// The identity of an image is in the last forty bytes of its trailer: the version, the target and the hardware
/// tag up to the first zero. An image without a trailer has none.
pub proof fn identity_by_bytes(image: Seq<u8>)
    ensures
        ends_with_trailer(image) ==> {
            &&& endf::own_version(image) == container::word(image, image.len() - 40)
            &&& endf::own_target(image) == container::word(image, image.len() - 36)
            &&& endf::own_hardware(image) == crate::format::utf8_lossy(
                crate::format::until_nul(image.subrange(image.len() - 32, image.len() as int)),
            )
        },
        !ends_with_trailer(image) ==> {
            &&& endf::own_version(image) == 0
            &&& endf::own_target(image) == 0
            &&& endf::own_hardware(image).len() == 0
        },
{
    trailer_by_bytes(image);
    if ends_with_trailer(image) {
        let t = endf::trailer_of(image);
        assert(t.subrange(24, 56) =~= image.subrange(image.len() - 32, image.len() as int));
    }
}

/// What stands before the first zero byte, or all.
pub proof fn text_before_a_zero(field: Seq<u8>)
    ensures
        ({
            let text = crate::format::until_nul(field);
            let n = text.len() as int;
            &&& n <= field.len()
            &&& text == field.take(n)
            &&& forall|i: int| 0 <= i < n ==> #[trigger] field[i] != 0
            &&& n < field.len() ==> field[n] == 0
        }),
    decreases field.len(),
{
    let text = crate::format::until_nul(field);
    if field.len() == 0 || field[0] == 0 {
        assert(text =~= field.take(0));
    } else {
        let rest = field.skip(1);
        text_before_a_zero(rest);
        let inner = crate::format::until_nul(rest);
        assert(text.len() == inner.len() + 1);
        assert forall|i: int| 0 <= i < text.len() implies text[i] == #[trigger] field[i] && field[i] != 0 by {
            if i > 0 {
                assert(inner[i - 1] == rest.take(inner.len() as int)[i - 1]);
                assert(rest[i - 1] == field[i]);
            }
        }
        assert(text =~= field.take(text.len() as int));
        if text.len() < field.len() {
            assert(rest[inner.len() as int] == field[text.len() as int]);
        }
    }
}

/// An image with a trailer stays as it is. One without gets 56 bytes: `EndF`, its length modulo 2^32, the first
/// eight bytes of its SHA-256 digest, the version, the target, and up to 32 bytes of the hardware tag and then
/// zeros.
pub proof fn trailing_by_bytes(image: Seq<u8>, fw_version: u32, target_id: u32, hw_id: Seq<char>)
    ensures
        ({
            let out = endf::trailed(image, fw_version, target_id, hw_id);
            let n = image.len() as int;
            let hw = utf8::encode_utf8(hw_id);
            if ends_with_trailer(image) {
                out == image
            } else {
                &&& out.len() == n + 56
                &&& out.take(n) == image
                &&& out[n] == 0x45
                &&& out[n + 1] == 0x6e
                &&& out[n + 2] == 0x64
                &&& out[n + 3] == 0x46
                &&& container::word(out, n + 4) == n % 0x1_0000_0000
                &&& out.subrange(n + 8, n + 16) == crypto::sha256_of(image)@.take(8)
                &&& container::word(out, n + 16) == fw_version
                &&& container::word(out, n + 20) == target_id
                &&& forall|i: int|
                    0 <= i < 32 ==> #[trigger] out.subrange(n + 24, n + 56)[i] == if i < hw.len() {
                        hw[i]
                    } else {
                        0
                    }
            }
        }),
{
    trailer_by_bytes(image);
    if !endf::is_trailed(image) {
        endf::lemma_trailer(image, fw_version, target_id, hw_id);
        lemma_trailing(image, endf::trailer(image, fw_version, target_id, hw_id), fw_version, target_id, hw_id);
    }
}

proof fn lemma_trailing(image: Seq<u8>, t: Seq<u8>, fw_version: u32, target_id: u32, hw_id: Seq<char>)
    requires
        t.len() == 56,
        t.take(4) == crate::format::ENDF_MAGIC@,
        crate::format::le_u32(t, 4) == crate::format::low32(image.len() as int),
        t.subrange(8, 16) == endf::body_hash(image),
        crate::format::le_u32(t, 16) == fw_version,
        crate::format::le_u32(t, 20) == target_id,
        t.subrange(24, 56) == crate::format::hw_field(utf8::encode_utf8(hw_id)),
    ensures
        ({
            let out = image + t;
            let n = image.len() as int;
            let hw = utf8::encode_utf8(hw_id);
            &&& out.len() == n + 56
            &&& out.take(n) == image
            &&& out[n] == 0x45
            &&& out[n + 1] == 0x6e
            &&& out[n + 2] == 0x64
            &&& out[n + 3] == 0x46
            &&& container::word(out, n + 4) == n % 0x1_0000_0000
            &&& out.subrange(n + 8, n + 16) == crypto::sha256_of(image)@.take(8)
            &&& container::word(out, n + 16) == fw_version
            &&& container::word(out, n + 20) == target_id
            &&& forall|i: int|
                0 <= i < 32 ==> #[trigger] out.subrange(n + 24, n + 56)[i] == if i < hw.len() {
                    hw[i]
                } else {
                    0
                }
        }),
{
    let out = image + t;
    let n = image.len() as int;
    assert(out.take(n) =~= image);
    assert(t.take(4)[0] == t[0] && t.take(4)[1] == t[1] && t.take(4)[2] == t[2] && t.take(4)[3] == t[3]);
    assert(out.subrange(n + 8, n + 16) =~= t.subrange(8, 16));
    assert(out.subrange(n + 24, n + 56) =~= t.subrange(24, 56));
    assert forall|i: int| 0 <= i < 56 implies out[n + i] == #[trigger] t[i] by {}
}

/// What reading an image gives is the version, the target and the tag that stand in it, and nothing where
/// there is no trailer.
pub proof fn parsed_identity_by_bytes(ident: FwIdent, image: Seq<u8>)
    requires
        endf::identifies(ident, image),
    ensures
        if ends_with_trailer(image) {
            &&& ident.fw_version == container::word(image, image.len() - 40)
            &&& ident.target_id == container::word(image, image.len() - 36)
            &&& ident.hw_id@ == crate::format::utf8_lossy(
                crate::format::until_nul(image.subrange(image.len() - 32, image.len() as int)),
            )
        } else {
            ident.fw_version == 0 && ident.target_id == 0 && ident.hw_id@.len() == 0
        },
{
    identity_by_bytes(image);
}

} // verus!
