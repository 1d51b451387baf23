//! Assembles a `.mota` container from a firmware image.
//!
//! The payload of a full container is the image. That of a delta is a patch that turns a base image into
//! the image; `codec_id` marks the patch layout, and `base_hash` pins the image that the delta must be
//! applied to. Sequential patches are made here; in-place patches come from outside, see [`plan`].

pub mod layout;

use vstd::prelude::*;
use vstd::string::*;

use crate::crypto;
use crate::crypto::{ed25519_public_from_seed, ed25519_sign, sha256};
use crate::decode;
use crate::delta::{InPlaceParams, PatchType};
use crate::encode;
use crate::encode::encode_sequential;
use crate::endf;
use crate::endf::{ensure_endf, has_endf, parse_ident, version_str};
use crate::format::{
    hw_id_field, put, put_u32, truncated, Codec, FwIdent, Manifest, ParseError, APPROVAL_NONE,
    FORMAT_VER, HASH_ALGO_SHA256, HEADER_LEN, MAGIC, MFL, MFLAG_FULL, MFLAG_SIGNED, TRAILER, TRAILER_LEN,
};
use crate::laws::building;
use crate::laws::messages;
use crate::merkle;
use crate::text;
use crate::text::{hex_encode_upper, push_decimal, push_hex, quote};
use crate::verify;

use layout::Content;

verus! {

/// What to build a container from.
pub struct BuildOpts {
    pub fw: Vec<u8>,
    /// Makes a delta against this image.
    pub base: Option<Vec<u8>>,
    /// The layout of a delta.
    pub patch_type: PatchType,
    /// The window of an in-place delta.
    pub inplace_memory: Option<u32>,
    /// The segment size of an in-place delta.
    pub segment_size: u32,
    /// The patch of an in-place delta, as an in-place encoder makes it from what [`plan`] gives; else unused.
    pub inplace_patch: Vec<u8>,
    /// Overrides the target in the EndF trailer.
    pub target_id: Option<u32>,
    /// Overrides the version in the EndF trailer.
    pub fw_version: Option<u32>,
    /// Overrides the hardware tag in the EndF trailer.
    pub hw_id: Option<String>,
    pub sign_seed: Option<[u8; 32]>,
    pub block_size: u32,
    /// Allows a delta across hardware tags.
    pub force: bool,
}

/// A container, with a name for its file.
pub struct Built {
    pub bytes: Vec<u8>,
    pub suggested_name: String,
    pub manifest: Manifest,
}

/// Why no container is built.
#[derive(Debug)]
pub enum BuildError {
    /// The base image has no EndF trailer.
    BaseWithoutTrailer,
    /// The base image is for other hardware than the target.
    OtherHardware { base: String, target: String },
    /// The segment size of an in-place delta is zero.
    ZeroSegment,
    /// The window of an in-place delta is no multiple of the segment size, or zero.
    BadWindow { memory: u32, segment: u32 },
    /// The payload makes no block, or too many.
    BlockCount(usize),
    /// The container could not be read.
    Unreadable(ParseError),
}

/// A [`BuildError`], with texts in place of strings.
pub enum Refusal {
    BaseWithoutTrailer,
    OtherHardware { base: Seq<char>, target: Seq<char> },
    ZeroSegment,
    BadWindow { memory: u32, segment: u32 },
    BlockCount(int),
    Unreadable(ParseError),
}

impl View for BuildError {
    type V = Refusal;

    open spec fn view(&self) -> Refusal {
        match *self {
            BuildError::BaseWithoutTrailer => Refusal::BaseWithoutTrailer,
            BuildError::OtherHardware { base, target } => Refusal::OtherHardware {
                base: base@,
                target: target@,
            },
            BuildError::ZeroSegment => Refusal::ZeroSegment,
            BuildError::BadWindow { memory, segment } => Refusal::BadWindow { memory, segment },
            BuildError::BlockCount(n) => Refusal::BlockCount(n as int),
            BuildError::Unreadable(e) => Refusal::Unreadable(e),
        }
    }
}

impl Refusal {
    /// The text of [`BuildError::message`].
    pub open spec fn text(self) -> Seq<char> {
        match self {
            Refusal::BaseWithoutTrailer => {
                "--base must be a real firmware image with its EndF trailer (the device's running image); this one has none"@
            },
            Refusal::OtherHardware { base, target } => "base hardware "@ + text::quoted(base)
                + " != target hardware "@ + text::quoted(target)
                + "; a cross-hardware delta will not apply (use --force to override)"@,
            Refusal::ZeroSegment => "in-place: --segment-size must be non-zero"@,
            Refusal::BadWindow { memory, segment } => "in-place: --inplace-memory ("@ + text::decimal(
                memory as nat,
            ) + ") must be a non-zero multiple of --segment-size ("@ + text::decimal(segment as nat)
                + ")"@,
            Refusal::BlockCount(n) => "payload yields an invalid block count ("@ + text::decimal(
                n as nat,
            ) + ")"@,
            Refusal::Unreadable(e) => e.text(),
        }
    }
}

impl BuildError {
    /// The error in words.
    pub fn message(&self) -> (s: String)
        ensures
            s@ == self@.text(),
    {
        match self {
            BuildError::BaseWithoutTrailer => {
                "--base must be a real firmware image with its EndF trailer (the device's running image); this one has none".to_owned()
            },
            BuildError::OtherHardware { base, target } => {
                let mut s: String = "base hardware ".to_owned();
                s.append(quote(base.as_str()).as_str());
                s.append(" != target hardware ");
                s.append(quote(target.as_str()).as_str());
                s.append("; a cross-hardware delta will not apply (use --force to override)");
                s
            },
            BuildError::ZeroSegment => "in-place: --segment-size must be non-zero".to_owned(),
            BuildError::BadWindow { memory, segment } => {
                let mut s: String = "in-place: --inplace-memory (".to_owned();
                push_decimal(&mut s, *memory as u64);
                s.append(") must be a non-zero multiple of --segment-size (");
                push_decimal(&mut s, *segment as u64);
                s.append(")");
                s
            },
            BuildError::BlockCount(n) => {
                let mut s: String = "payload yields an invalid block count (".to_owned();
                push_decimal(&mut s, *n as u64);
                s.append(")");
                s
            },
            BuildError::Unreadable(e) => e.message(),
        }
    }
}

/// What a delta is made against.
pub struct DeltaPlan {
    pub patch_type: PatchType,
    pub base_image: Vec<u8>,
    pub base_hash: [u8; 8],
    /// For an in-place patch, where it is given.
    pub window: Option<InPlaceParams>,
}

/// What a container is to hold, but for a patch.
pub struct Plan {
    pub ident: FwIdent,
    /// The target image, with its trailer.
    pub image: Vec<u8>,
    /// For a delta.
    pub delta: Option<DeltaPlan>,
}

impl BuildOpts {
    /// The version that the container states.
    pub open spec fn version(self) -> u32 {
        match self.fw_version {
            Some(v) => v,
            None => endf::own_version(self.fw@) as u32,
        }
    }

    /// The target that the container states.
    pub open spec fn target(self) -> u32 {
        match self.target_id {
            Some(id) => id,
            None => endf::own_target(self.fw@) as u32,
        }
    }

    /// The hardware tag that the container states.
    pub open spec fn hardware(self) -> Seq<char> {
        match self.hw_id {
            Some(hw) => hw@,
            None => endf::own_hardware(self.fw@),
        }
    }

    /// The target image, with its trailer.
    pub open spec fn image(self) -> Seq<u8> {
        endf::trailed(self.fw@, self.version(), self.target(), self.hardware())
    }

    /// Why a delta cannot be made.
    pub open spec fn refusal(self) -> Option<Refusal> {
        match self.base {
            None => None,
            Some(base) => if !endf::is_trailed(base@) {
                Some(Refusal::BaseWithoutTrailer)
            } else if !self.force && endf::own_hardware(base@) != self.hardware() {
                Some(
                    Refusal::OtherHardware {
                        base: endf::own_hardware(base@),
                        target: self.hardware(),
                    },
                )
            } else if self.patch_type == PatchType::Sequential {
                None
            } else if self.segment_size == 0 {
                Some(Refusal::ZeroSegment)
            } else {
                match self.inplace_memory {
                    Some(memory) => if memory == 0 || memory % self.segment_size != 0 {
                        Some(Refusal::BadWindow { memory, segment: self.segment_size })
                    } else {
                        None
                    },
                    None => None,
                }
            },
        }
    }

    /// The codec that the container states.
    pub open spec fn codec(self) -> Codec {
        match (self.base, self.patch_type) {
            (None, _) => Codec::Full,
            (Some(_), PatchType::Sequential) => Codec::DetoolsSequential,
            (Some(_), PatchType::InPlace) => Codec::DetoolsInplace,
        }
    }

    /// The hash that pins the image a delta applies to; zero for a full container.
    pub open spec fn base_hash(self) -> Seq<u8> {
        match self.base {
            Some(base) => endf::body_hash(endf::body_of(base@)),
            None => layout::zeros(8),
        }
    }

    /// The window of an in-place delta, where it is given.
    pub open spec fn window(self) -> Option<InPlaceParams> {
        match (self.patch_type, self.inplace_memory) {
            (PatchType::InPlace, Some(memory_size)) => Some(
                InPlaceParams { memory_size, segment_size: self.segment_size },
            ),
            _ => None,
        }
    }

    /// What goes into a container with this payload.
    pub open spec fn content(self, payload: Seq<u8>) -> Content {
        Content {
            codec: self.codec(),
            target_id: self.target(),
            fw_version: self.version(),
            hw_id: self.hardware(),
            image: self.image(),
            payload,
            base_hash: self.base_hash(),
            seed: match self.sign_seed {
                Some(seed) => Some(seed@),
                None => None,
            },
            block_size: self.block_size as int,
        }
    }

    /// The payload: the image, the sequential patch from the base to it, or the in-place patch.
    pub open spec fn payload(self) -> Seq<u8> {
        match (self.base, self.patch_type) {
            (None, _) => self.image(),
            (Some(base), PatchType::Sequential) => encode::sequential_patch(base@, self.image()),
            (Some(_), PatchType::InPlace) => self.inplace_patch@,
        }
    }
}

impl Plan {
    /// The plan is the one for these options.
    pub open spec fn follows(self, o: BuildOpts) -> bool {
        &&& o.refusal() is None
        &&& self.ident.fw_version == o.version()
        &&& self.ident.target_id == o.target()
        &&& self.ident.hw_id@ == o.hardware()
        &&& self.image@ == o.image()
        &&& match (self.delta, o.base) {
            (None, None) => true,
            (Some(d), Some(base)) => {
                &&& d.patch_type == o.patch_type
                &&& d.base_image@ == base@
                &&& d.base_hash@ == o.base_hash()
                &&& d.window == o.window()
            },
            _ => false,
        }
    }
}

/// A file name: `<hw|fw>_<target8>_v<version>_<full|seqdelta|ipdelta>_<root8>.mota`.
pub open spec fn file_name(c: Content) -> Seq<char> {
    (if c.hw_id.len() == 0 {
        "fw"@
    } else {
        c.hw_id
    }) + "_"@ + text::hexadecimal(c.target_id as nat, 8, true) + "_v"@ + endf::version::version_text(
        c.fw_version,
    ) + "_"@ + c.codec.name_tag_text() + "_"@ + text::hex_upper(merkle::tree_root(c.leaves()))
        + ".mota"@
}

/// The outcome of putting together a container: refused if the payload makes no block or more than 0xFFFF,
/// or if the container could not be read; else the container, its manifest, and a name.
pub open spec fn assembled(c: Content, r: Result<Built, BuildError>) -> bool {
    let blocks = c.leaves().len() as int;
    match r {
        Ok(built) => {
            &&& 1 <= blocks <= 0xFFFF
            &&& c.fault() is None
            &&& built.bytes@ == c.container()
            &&& built.manifest.describes(built.bytes@)
            &&& built.suggested_name@ == file_name(c)
        },
        Err(e) => if !(1 <= blocks <= 0xFFFF) {
            e@ == Refusal::BlockCount(blocks)
        } else {
            c.fault() is Some && e@ == Refusal::Unreadable(c.fault()->0)
        },
    }
}

/// The logarithm to base two of a block size, rounded down (1024 gives 10). Zero counts as one.
pub fn block_size_log2(block_size: u32) -> (log2: u8)
    ensures
        log2 == layout::log2_floor(block_size as int),
{
    if block_size == 0 {
        return 0;
    }
    let mut n: u32 = block_size;
    let mut log2: u8 = 0;
    proof {
        layout::lemma_log2_u32(block_size as int);
    }
    while n > 1
        invariant
            n >= 1,
            log2 + layout::log2_floor(n as int) == layout::log2_floor(block_size as int),
            layout::log2_floor(block_size as int) < 32,
            layout::log2_floor(n as int) >= 0,
        decreases n,
    {
        proof {
            layout::lemma_log2_u32((n / 2) as int);
        }
        n = n / 2;
        log2 = log2 + 1;
    }
    log2
}

/// A name for the file of a container.
fn suggested_name(ident: &FwIdent, codec: Codec, root: &[u8; 4], Ghost(c): Ghost<Content>) -> (name: String)
    requires
        ident.hw_id@ == c.hw_id,
        ident.target_id == c.target_id,
        ident.fw_version == c.fw_version,
        codec == c.codec,
        root@ == merkle::tree_root(c.leaves()),
    ensures
        name@ == file_name(c),
{
    let mut name = String::new();
    if ident.hw_id.as_str().is_empty() {
        name.append("fw");
    } else {
        name.append(ident.hw_id.as_str());
    }
    name.append("_");
    push_hex(&mut name, ident.target_id, 8, true);
    name.append("_v");
    name.append(version_str(ident.fw_version).as_str());
    name.append("_");
    name.append(codec.name_tag());
    name.append("_");
    name.append(hex_encode_upper(root).as_str());
    name.append(".mota");
    assert(name@ =~= file_name(c));
    name
}

/// The flags byte of a manifest.
fn flags_byte(codec: Codec, signed: bool) -> (flags: u8)
    ensures
        flags == if codec == Codec::Full {
            if signed {
                MFLAG_FULL | MFLAG_SIGNED
            } else {
                MFLAG_FULL
            }
        } else {
            if signed {
                MFLAG_SIGNED
            } else {
                0
            }
        },
{
    if codec == Codec::Full {
        if signed {
            MFLAG_FULL | MFLAG_SIGNED
        } else {
            MFLAG_FULL
        }
    } else {
        if signed {
            MFLAG_SIGNED
        } else {
            0
        }
    }
}

/// The part of a manifest that a signature covers, but for the signer.
#[verifier::rlimit(40)]
fn unsigned_part(
    ident: &FwIdent,
    codec: Codec,
    image: &[u8],
    payload: &[u8],
    base_hash: &[u8; 8],
    signed: bool,
    block_size: u32,
    root: &[u8; 4],
    Ghost(c): Ghost<Content>,
) -> (m: Vec<u8>)
    requires
        c.wf(),
        ident.hw_id@ == c.hw_id,
        ident.target_id == c.target_id,
        ident.fw_version == c.fw_version,
        codec == c.codec,
        image@ == c.image,
        payload@ == c.payload,
        base_hash@ == c.base_hash,
        signed == (c.seed is Some),
        block_size == c.block_size,
        root@ == merkle::tree_root(c.leaves()),
    ensures
        m@ + c.signer() == c.signed_part(),
{
    let mut m: Vec<u8> = Vec::new();
    m.push(FORMAT_VER);
    m.push(flags_byte(codec, signed));
    m.push(HASH_ALGO_SHA256);
    assert(m@ =~= seq![FORMAT_VER, c.flags(), HASH_ALGO_SHA256]);
    put_u32(&mut m, ident.target_id);
    put_u32(&mut m, ident.fw_version);
    put_u32(&mut m, truncated(image.len()));
    put_u32(&mut m, truncated(payload.len()));
    m.push(block_size_log2(block_size));
    assert(m@ =~= c.sizes());
    put(&mut m, root);
    put(&mut m, &sha256(image));
    m.push(codec.to_u8());
    assert(m@ =~= c.sizes() + c.hashes());
    put(&mut m, &hw_id_field(ident.hw_id.as_str()));
    put(&mut m, base_hash);
    assert(m@ + c.signer() =~= c.signed_part());
    m
}

/// The signer, the signature and the approval that follow the rest of a manifest.
fn finish_manifest(m: &mut Vec<u8>, seed: &Option<[u8; 32]>, Ghost(c): Ghost<Content>)
    requires
        match (*seed, c.seed) {
            (Some(s), Some(t)) => s@ == t,
            (None, None) => true,
            _ => false,
        },
        old(m)@ + c.signer() == c.signed_part(),
    ensures
        final(m)@ == c.manifest(),
        c.seed is Some ==> crypto::signature_accepted(c.signer(), c.signed_part(), c.signature()),
{
    match seed {
        Some(seed) => {
            put(m, &ed25519_public_from_seed(seed));
            let sig: [u8; 64] = ed25519_sign(seed, m.as_slice());
            put(m, &sig);
        },
        None => {
            let signer: [u8; 32] = [0u8; 32];
            let sig: [u8; 64] = [0u8; 64];
            assert(signer@ =~= layout::zeros(32));
            assert(sig@ =~= layout::zeros(64));
            put(m, &signer);
            put(m, &sig);
        },
    }
    put(m, &APPROVAL_NONE);
}

/// The container around a manifest, its leaves and its payload.
fn frame(manifest: &[u8], leaves: &[[u8; 4]], payload: &[u8], Ghost(c): Ghost<Content>) -> (bytes: Vec<u8>)
    requires
        manifest@ == c.manifest(),
        merkle::views(leaves@) == c.leaves(),
        payload@ == c.payload,
    ensures
        bytes@ == c.container(),
{
    let total: u128 = (HEADER_LEN + MFL + TRAILER_LEN) as u128 + 4 * leaves.len() as u128
        + payload.len() as u128;
    let mut bytes: Vec<u8> = Vec::new();
    put(&mut bytes, &MAGIC);
    put_u32(&mut bytes, (total % 0x1_0000_0000) as u32);
    put(&mut bytes, manifest);
    put(&mut bytes, merkle::join(leaves).as_slice());
    put(&mut bytes, payload);
    put(&mut bytes, &TRAILER);
    assert(merkle::views(leaves@).len() == leaves@.len());
    assert(bytes@ =~= c.container());
    bytes
}

/// Resolves what a container is to hold. Explicit options win over the identity in the EndF trailer of the
/// firmware. A delta is against a base image with a trailer, and for the same hardware unless forced; the
/// window of an in-place delta, where it is given, is a multiple of the segment size.
pub fn plan(o: &BuildOpts) -> (r: Result<Plan, BuildError>)
    ensures
        match r {
            Ok(plan) => plan.follows(*o) && building::planned_for(*o, plan),
            Err(e) => o.refusal() == Some(e@),
        },
{
    let from_fw: FwIdent = parse_ident(o.fw.as_slice());
    let ident = FwIdent {
        fw_version: match o.fw_version {
            Some(v) => v,
            None => from_fw.fw_version,
        },
        target_id: match o.target_id {
            Some(id) => id,
            None => from_fw.target_id,
        },
        hw_id: match &o.hw_id {
            Some(hw) => hw.clone(),
            None => from_fw.hw_id,
        },
    };
    let (image, _hash) = ensure_endf(o.fw.as_slice(), &ident);
    let base: &Vec<u8> = match &o.base {
        None => {
            let plan = Plan { ident, image, delta: None };
            proof {
                building::plans(*o, plan);
            }
            return Ok(plan);
        },
        Some(base) => base,
    };
    if !has_endf(base.as_slice()) {
        return Err(BuildError::BaseWithoutTrailer);
    }
    let base_ident: FwIdent = parse_ident(base.as_slice());
    if !o.force && base_ident.hw_id != ident.hw_id {
        return Err(BuildError::OtherHardware { base: base_ident.hw_id, target: ident.hw_id });
    }
    let mut window: Option<InPlaceParams> = None;
    if o.patch_type == PatchType::InPlace {
        if o.segment_size == 0 {
            return Err(BuildError::ZeroSegment);
        }
        if let Some(memory) = o.inplace_memory {
            if memory == 0 || memory % o.segment_size != 0 {
                return Err(BuildError::BadWindow { memory, segment: o.segment_size });
            }
            window = Some(InPlaceParams { memory_size: memory, segment_size: o.segment_size });
        }
    }
    let (base_image, base_hash) = ensure_endf(base.as_slice(), &base_ident);
    let delta = DeltaPlan { patch_type: o.patch_type, base_image, base_hash, window };
    let plan = Plan { ident, image, delta: Some(delta) };
    proof {
        building::plans(*o, plan);
    }
    Ok(plan)
}

/// Puts together the container for a plan with this payload: the image itself if there is no delta, else a
/// patch of the planned layout. Nothing is wrong with a container that comes out, if the block size is a
/// power of two; else its leaves may not be those for the block size that it states.
#[verifier::rlimit(40)]
fn assemble(o: &BuildOpts, plan: &Plan, payload: &[u8]) -> (r: Result<Built, BuildError>)
    requires
        plan.follows(*o),
        o.block_size > 0,
        o.base is None ==> payload@ == o.image(),
    ensures
        assembled(o.content(payload@), r),
        r matches Ok(built) ==> {
            let c = o.content(payload@);
            &&& verify::problems_of(built.bytes@) == verify::unless(
                merkle::joined(merkle::payload_leaves(payload@, c.stated_block_size()))
                    == merkle::joined(c.leaves()),
                "leaves[] do not match the payload (corruption)"@,
            )
            &&& c.stated_block_size() == c.block_size ==> verify::problems_of(built.bytes@).len() == 0
        },
{
    let ghost c = o.content(payload@);
    let codec: Codec;
    let base_hash: [u8; 8];
    match &plan.delta {
        None => {
            codec = Codec::Full;
            base_hash = [0u8; 8];
            assert(base_hash@ =~= layout::zeros(8));
        },
        Some(delta) => {
            codec = match delta.patch_type {
                PatchType::Sequential => Codec::DetoolsSequential,
                PatchType::InPlace => Codec::DetoolsInplace,
            };
            base_hash = delta.base_hash;
        },
    }
    let leaves: Vec<[u8; 4]> = merkle::leaf_hashes(payload, o.block_size as usize);
    assert(merkle::views(leaves@).len() == leaves@.len());
    let blocks: usize = leaves.len();
    if blocks < 1 || blocks > 0xFFFF {
        return Err(BuildError::BlockCount(blocks));
    }
    let root: [u8; 4] = merkle::root(leaves.as_slice());
    let mut manifest: Vec<u8> = unsigned_part(
        &plan.ident,
        codec,
        plan.image.as_slice(),
        payload,
        &base_hash,
        o.sign_seed.is_some(),
        o.block_size,
        &root,
        Ghost(c),
    );
    finish_manifest(&mut manifest, &o.sign_seed, Ghost(c));
    let bytes: Vec<u8> = frame(manifest.as_slice(), leaves.as_slice(), payload, Ghost(c));
    proof {
        layout::container_fault(c);
        if c.fault() is None {
            layout::container_problems(c);
        }
    }
    match Manifest::parse(bytes.as_slice()) {
        Ok(manifest) => {
            let suggested_name: String = suggested_name(&plan.ident, codec, &root, Ghost(c));
            Ok(Built { bytes, suggested_name, manifest })
        },
        Err(e) => Err(BuildError::Unreadable(e)),
    }
}

/// Builds a container: full, or a delta against `base`. The patch of a sequential delta is made here, and gives
/// the image when it is applied to the base image; that of an in-place delta is the one in the options.
/// Nothing is wrong with a container that comes out, if the block size is a power of two; else its leaves may
/// not be those for the block size that it states.
#[verifier::rlimit(40)]
pub fn build(o: &BuildOpts) -> (r: Result<Built, BuildError>)
    requires
        o.block_size > 0,
    ensures
        if o.refusal() is Some {
            r matches Err(e) && o.refusal() == Some(e@)
        } else {
            assembled(o.content(o.payload()), r)
        },
        r matches Ok(built) ==> {
            let c = o.content(o.payload());
            &&& verify::problems_of(built.bytes@) == verify::unless(
                merkle::joined(merkle::payload_leaves(o.payload(), c.stated_block_size()))
                    == merkle::joined(c.leaves()),
                "leaves[] do not match the payload (corruption)"@,
            )
            &&& c.stated_block_size() == c.block_size ==> verify::problems_of(built.bytes@).len() == 0
            &&& o.codec() == Codec::DetoolsSequential ==> decode::patched(o.base->0@, o.payload()) == Some(
                o.image(),
            )
            &&& building::built_for(*o, built)
            &&& messages::is_name(built.suggested_name@, c)
        },
{
    let plan: Plan = match plan(o) {
        Ok(plan) => plan,
        Err(e) => return Err(e),
    };
    let r: Result<Built, BuildError> = match &plan.delta {
        None => assemble(o, &plan, plan.image.as_slice()),
        Some(delta) => match delta.patch_type {
            PatchType::Sequential => {
                let patch: Vec<u8> = encode_sequential(delta.base_image.as_slice(), plan.image.as_slice());
                assemble(o, &plan, patch.as_slice())
            },
            PatchType::InPlace => assemble(o, &plan, o.inplace_patch.as_slice()),
        },
    };
    proof {
        if r is Ok {
            building::containers(*o, r->Ok_0);
            messages::file_names(o.content(o.payload()));
        }
    }
    r
}

} // verus!
