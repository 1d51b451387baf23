//! What is built from which options.

use vstd::arithmetic::power2;
use vstd::prelude::*;
use vstd::utf8;

use crate::build;
use crate::build::layout;
use crate::build::layout::Content;
use crate::build::{BuildError, BuildOpts, Built, Plan, Refusal};
use crate::crypto;
use crate::delta::{InPlaceParams, PatchType};
use crate::encode;
use crate::format::{Codec, Manifest};
use crate::laws::container;
use crate::laws::firmware;

verus! {

/// The version: the one in the options, else the one in the trailer of the firmware, else zero.
pub open spec fn asked_version(o: BuildOpts) -> int {
    match o.fw_version {
        Some(v) => v as int,
        None => if firmware::ends_with_trailer(o.fw@) {
            container::word(o.fw@, o.fw@.len() - 40)
        } else {
            0
        },
    }
}

/// The target: the one in the options, else the one in the trailer of the firmware, else zero.
pub open spec fn asked_target(o: BuildOpts) -> int {
    match o.target_id {
        Some(id) => id as int,
        None => if firmware::ends_with_trailer(o.fw@) {
            container::word(o.fw@, o.fw@.len() - 36)
        } else {
            0
        },
    }
}

/// The hardware tag in the trailer of an image.
pub open spec fn tag_of(image: Seq<u8>) -> Seq<char> {
    crate::format::utf8_lossy(
        crate::format::until_nul(image.subrange(image.len() - 32, image.len() as int)),
    )
}

/// The hardware tag: the one in the options, else the one in the trailer of the firmware, else empty.
pub open spec fn asked_hardware(o: BuildOpts) -> Seq<char> {
    match o.hw_id {
        Some(hw) => hw@,
        None => if firmware::ends_with_trailer(o.fw@) {
            tag_of(o.fw@)
        } else {
            seq![]
        },
    }
}

/// A field of 32 bytes holds up to 32 bytes of a tag, and then zeros.
pub open spec fn holds_tag(field: Seq<u8>, tag: Seq<char>) -> bool {
    let hw = utf8::encode_utf8(tag);
    &&& field.len() == 32
    &&& forall|i: int|
        0 <= i < 32 ==> #[trigger] field[i] == if i < hw.len() {
            hw[i]
        } else {
            0
        }
}

/// The image is the firmware, with a trailer behind it that states the identity if the firmware has none.
pub open spec fn is_image_for(o: BuildOpts, image: Seq<u8>) -> bool {
    let n = o.fw@.len() as int;
    if firmware::ends_with_trailer(o.fw@) {
        image == o.fw@
    } else {
        &&& image.len() == n + 56
        &&& image.take(n) == o.fw@
        &&& image[n] == 0x45
        &&& image[n + 1] == 0x6e
        &&& image[n + 2] == 0x64
        &&& image[n + 3] == 0x46
        &&& container::word(image, n + 4) == n % 0x1_0000_0000
        &&& image.subrange(n + 8, n + 16) == crypto::sha256_of(o.fw@)@.take(8)
        &&& container::word(image, n + 16) == asked_version(o)
        &&& container::word(image, n + 20) == asked_target(o)
        &&& holds_tag(image.subrange(n + 24, n + 56), asked_hardware(o))
    }
}

/// Options ask for an identity and an image, whatever the base.
proof fn lemma_identity(o: BuildOpts)
    ensures
        o.version() == asked_version(o),
        o.target() == asked_target(o),
        o.hardware() == asked_hardware(o),
        is_image_for(o, o.image()),
{
    firmware::identity_by_bytes(o.fw@);
    firmware::trailing_by_bytes(o.fw@, o.version(), o.target(), o.hardware());
    assert(o.hardware() =~= asked_hardware(o));
}

/// A plan states the identity that the options ask for, explicitly or in the trailer of the firmware, and holds
/// the image with it. For a delta it holds the base as it is and the hash in the trailer of the base.
pub open spec fn planned_for(o: BuildOpts, plan: Plan) -> bool {
    &&& plan.ident.fw_version == asked_version(o)
    &&& plan.ident.target_id == asked_target(o)
    &&& plan.ident.hw_id@ == asked_hardware(o)
    &&& is_image_for(o, plan.image@)
    &&& match o.base {
        None => plan.delta is None,
        Some(base) => match plan.delta {
            None => false,
            Some(d) => {
                let n = base@.len() as int;
                &&& n >= 56
                &&& d.base_image@ == base@
                &&& d.base_hash@ == base@.subrange(n - 48, n - 40)
                &&& d.patch_type == o.patch_type
                &&& d.window == match o.inplace_memory {
                    None => None,
                    Some(memory) => if o.patch_type == PatchType::InPlace {
                        Some(InPlaceParams { memory_size: memory, segment_size: o.segment_size })
                    } else {
                        None
                    },
                }
            },
        },
    }
}

proof fn lemma_base_hash(base: Seq<u8>)
    requires
        crate::endf::is_trailed(base),
    ensures
        base.len() >= 56,
        crate::endf::body_hash(crate::endf::body_of(base)) == base.subrange(base.len() - 48, base.len() - 40),
{
    firmware::trailer_by_bytes(base);
}

/// Every plan is the one for its options.
pub proof fn plans(o: BuildOpts, plan: Plan)
    requires
        plan.follows(o),
    ensures
        planned_for(o, plan),
{
    lemma_identity(o);
    match o.base {
        Some(base) => {
            lemma_base_hash(base@);
        },
        None => {},
    }
}

/// A container states, in its bytes and in its manifest, the identity that the options ask for, explicitly or in
/// the trailer of the firmware. A full one holds the image. A delta pins the base by the hash in its trailer,
/// and holds a patch.
pub open spec fn built_for(o: BuildOpts, built: Built) -> bool {
    let blob = built.bytes@;
    let m = built.manifest;
    let image = o.image();
    let payload = o.payload();
    let last = blob.len() - 5;
    &&& container::word(blob, 15) == asked_version(o)
    &&& m.fw_version == asked_version(o)
    &&& container::word(blob, 11) == asked_target(o)
    &&& m.target_id == asked_target(o)
    &&& holds_tag(blob.subrange(65, 97), asked_hardware(o))
    &&& m.hw_id@ == blob.subrange(65, 97)
    &&& is_image_for(o, image)
    &&& m.image_size == image.len() % 0x1_0000_0000
    &&& m.image_hash@ == crypto::sha256_of(image)@
    &&& m.payload_size == payload.len()
    &&& blob.subrange(last - payload.len(), last) == payload
    &&& match (o.base, o.patch_type) {
        (None, _) => {
            &&& m.codec_id == 0
            &&& m.flags % 2 == 1
            &&& payload == image
            &&& forall|i: int| 0 <= i < 8 ==> #[trigger] m.base_hash@[i] == 0
        },
        (Some(base), PatchType::Sequential) => {
            &&& m.codec_id == 1
            &&& m.flags % 2 == 0
            &&& payload == encode::sequential_patch(base@, image)
            &&& m.base_hash@ == base@.subrange(base@.len() - 48, base@.len() - 40)
        },
        (Some(base), PatchType::InPlace) => {
            &&& m.codec_id == 2
            &&& m.flags % 2 == 0
            &&& payload == o.inplace_patch@
            &&& m.base_hash@ == base@.subrange(base@.len() - 48, base@.len() - 40)
        },
    }
    &&& match o.sign_seed {
        Some(seed) => {
            &&& m.flags / 2 == 1
            &&& m.signer@ == crypto::public_key_of(seed@)@
            &&& m.signature@ == crypto::signature_of(seed@, blob.subrange(8, 137))@
        },
        None => {
            &&& m.flags / 2 == 0
            &&& forall|i: int| 0 <= i < 32 ==> #[trigger] m.signer@[i] == 0
            &&& forall|i: int| 0 <= i < 64 ==> #[trigger] m.signature@[i] == 0
        },
    }
    &&& m.approval@ == seq![0xFFu8, 0xFF, 0xFF, 0xFF]
}

proof fn lemma_manifest(m: Manifest, blob: Seq<u8>)
    requires
        m.describes(blob),
    ensures
        m.flags == blob[9],
        m.target_id == container::word(blob, 11),
        m.fw_version == container::word(blob, 15),
        m.image_size == container::word(blob, 19),
        m.payload_size == container::word(blob, 23),
        m.image_hash@ == blob.subrange(32, 64),
        m.codec_id == blob[64],
        m.hw_id@ == blob.subrange(65, 97),
        m.base_hash@ == blob.subrange(97, 105),
        m.signer@ == blob.subrange(105, 137),
        m.signature@ == blob.subrange(137, 201),
        m.approval@ == blob.subrange(201, 205),
{
}

/// The bytes of a container hold this content.
spec fn hold(c: Content, blob: Seq<u8>) -> bool {
    let last = blob.len() - 5;
    &&& container::word(blob, 15) == c.fw_version
    &&& container::word(blob, 11) == c.target_id
    &&& holds_tag(blob.subrange(65, 97), c.hw_id)
    &&& container::word(blob, 19) == c.image.len() % 0x1_0000_0000
    &&& container::word(blob, 23) == c.payload.len()
    &&& blob.subrange(32, 64) == crypto::sha256_of(c.image)@
    &&& blob.subrange(last - c.payload.len(), last) == c.payload
    &&& blob[9] % 2 == (if c.codec == Codec::Full {
        1int
    } else {
        0
    })
    &&& blob[9] / 2 == (if c.seed is Some {
        1int
    } else {
        0
    })
    &&& blob[64] == (match c.codec {
        Codec::Full => 0u8,
        Codec::DetoolsSequential => 1,
        Codec::DetoolsInplace => 2,
    })
    &&& blob.subrange(97, 105) == c.base_hash
    &&& match c.seed {
        Some(seed) => {
            &&& blob.subrange(105, 137) == crypto::public_key_of(seed)@
            &&& blob.subrange(137, 201) == crypto::signature_of(seed, blob.subrange(8, 137))@
        },
        None => {
            &&& forall|i: int| 0 <= i < 32 ==> #[trigger] blob.subrange(105, 137)[i] == 0
            &&& forall|i: int| 0 <= i < 64 ==> #[trigger] blob.subrange(137, 201)[i] == 0
        },
    }
    &&& blob.subrange(201, 205) == seq![0xFFu8, 0xFF, 0xFF, 0xFF]
}

proof fn lemma_unsigned(blob: Seq<u8>)
    requires
        blob.len() >= 210,
        forall|i: int| 0 <= i < 96 ==> #[trigger] blob.subrange(105, 201)[i] == 0,
    ensures
        forall|i: int| 0 <= i < 32 ==> #[trigger] blob.subrange(105, 137)[i] == 0,
        forall|i: int| 0 <= i < 64 ==> #[trigger] blob.subrange(137, 201)[i] == 0,
{
    let sig = blob.subrange(105, 201);
    assert forall|i: int| 0 <= i < 32 implies #[trigger] blob.subrange(105, 137)[i] == 0 by {
        assert(sig[i] == 0);
    }
    assert forall|i: int| 0 <= i < 64 implies #[trigger] blob.subrange(137, 201)[i] == 0 by {
        assert(sig[32 + i] == 0);
    }
}

proof fn lemma_hold_bytes(c: Content, blob: Seq<u8>)
    requires
        container::has_fields(c, blob),
        container::has_frame(c, blob),
        c.payload.len() < 0x1_0000_0000,
    ensures
        hold(c, blob),
{
    if c.seed is None {
        lemma_unsigned(blob);
    }
}

proof fn lemma_hold(c: Content)
    requires
        c.wf(),
        c.fault() is None,
    ensures
        hold(c, c.container()),
{
    container::built_fields_by_bytes(c);
    container::built_frame_by_bytes(c);
    lemma_hold_bytes(c, c.container());
}

proof fn lemma_built(o: BuildOpts, c: Content, built: Built)
    requires
        c == o.content(o.payload()),
        o.refusal() is None,
        hold(c, built.bytes@),
        built.manifest.describes(built.bytes@),
    ensures
        built_for(o, built),
{
    lemma_identity(o);
    lemma_manifest(built.manifest, built.bytes@);
    match o.base {
        Some(base) => {
            lemma_base_hash(base@);
        },
        None => {},
    }
}

/// Every container is the one for its options.
pub proof fn containers(o: BuildOpts, built: Built)
    requires
        o.block_size > 0,
        o.refusal() is None,
        build::assembled(o.content(o.payload()), Ok(built)),
    ensures
        built_for(o, built),
{
    let c = o.content(o.payload());
    match o.base {
        Some(base) => {
            lemma_base_hash(base@);
        },
        None => {},
    }
    lemma_hold(c);
    lemma_built(o, c, built);
}

/// A payload makes as many blocks as are needed to hold it. There is no container if that is none or more than
/// 65535, or if it could not be parsed, and else there is one.
pub proof fn outcomes(c: Content, r: Result<Built, BuildError>)
    requires
        c.wf(),
        build::assembled(c, r),
    ensures
        ({
            let n = c.leaves().len() as int;
            &&& (n - 1) * c.block_size < c.payload.len() <= n * c.block_size
            &&& r is Ok <==> 1 <= n <= 65535 && crate::format::container_error(c.container()) is None
            &&& r matches Ok(built) ==> built.bytes@ == c.container()
            &&& r matches Err(e) ==> e@ == if 1 <= n <= 65535 {
                Refusal::Unreadable(crate::format::container_error(c.container())->0)
            } else {
                Refusal::BlockCount(n)
            }
        }),
{
    container::leaves_by_block(c.payload, c.block_size);
    layout::container_fault(c);
}

/// Block sizes are stated by the largest power of two that they hold; one of zero counts as one.
pub proof fn stated_block_sizes(n: int)
    requires
        0 <= n <= u32::MAX,
    ensures
        ({
            let log2 = layout::log2_floor(n);
            &&& 0 <= log2 < 32
            &&& n >= 1 ==> power2::pow2(log2 as nat) <= n < power2::pow2((log2 + 1) as nat)
            &&& n == 0 ==> log2 == 0
        }),
{
    if n >= 1 {
        layout::lemma_log2_u32(n);
        layout::lemma_log2_floor(n);
    }
}

/// Two builds that agree on the firmware and on what overrides its trailer state the same target, version and
/// hardware, whatever else they differ in: the base, the layout of the patch, the key, the block size.
pub proof fn the_base_has_no_say(a: BuildOpts, b: BuildOpts, x: Built, y: Built)
    requires
        a.fw@ == b.fw@,
        a.fw_version == b.fw_version,
        a.target_id == b.target_id,
        a.hw_id == b.hw_id,
        built_for(a, x),
        built_for(b, y),
    ensures
        x.manifest.fw_version == y.manifest.fw_version,
        x.manifest.target_id == y.manifest.target_id,
        x.manifest.hw_id@ == y.manifest.hw_id@,
        x.manifest.image_hash@ == y.manifest.image_hash@,
{
    assert(x.manifest.hw_id@ =~= y.manifest.hw_id@);
    assert(a.image() == b.image());
}

/// Why there is no delta: the base has no trailer; its hardware tag is another and nothing is forced; the segment
/// size of an in-place patch is zero; or its window is zero or no multiple of the segment size. There is no
/// other reason, and without a base there is none.
pub proof fn refusals(o: BuildOpts)
    ensures
        match o.base {
            None => o.refusal() is None,
            Some(base) => {
                let trailed = firmware::ends_with_trailer(base@);
                let same = tag_of(base@) == asked_hardware(o) || o.force;
                let inplace = o.patch_type == PatchType::InPlace;
                let fits = match o.inplace_memory {
                    Some(memory) => memory > 0 && memory % o.segment_size == 0,
                    None => true,
                };
                &&& o.refusal() is None <==> trailed && same && (inplace ==> o.segment_size > 0 && fits)
                &&& o.refusal() is Some && !trailed ==> o.refusal() == Some(Refusal::BaseWithoutTrailer)
                &&& o.refusal() is Some && trailed && !same ==> o.refusal() == Some(
                    Refusal::OtherHardware { base: tag_of(base@), target: asked_hardware(o) },
                )
                &&& o.refusal() is Some && trailed && same && o.segment_size == 0 ==> o.refusal() == Some(
                    Refusal::ZeroSegment,
                )
                &&& o.refusal() is Some && trailed && same && o.segment_size > 0 ==> o.refusal() == Some(
                    Refusal::BadWindow { memory: o.inplace_memory->0, segment: o.segment_size },
                )
            },
        },
{
    lemma_identity(o);
    match o.base {
        Some(base) => {
            firmware::trailer_by_bytes(base@);
            firmware::identity_by_bytes(base@);
        },
        None => {},
    }
}

} // verus!
