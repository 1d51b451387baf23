//! Deltas end to end: the container, and what its patch rebuilds.

use motatool::build::{plan, BuildError};
use motatool::decode::apply_sequential;
use motatool::delta::{apply_args, encode_args, InPlaceParams};
use motatool::endf::ensure_endf;
use motatool::{build, verify, BuildOpts, Codec, FwIdent, Manifest, PatchType};

const MEM: u32 = 0x8000;
const SEG: u32 = 0x1000;

fn ident() -> FwIdent {
    FwIdent {
        fw_version: 0x0111_0000,
        target_id: 0x04D4_13FD,
        hw_id: "RAK4631".into(),
    }
}

/// A base body and a target body: mostly identical, a few scattered edits and a small tail.
fn base_and_target() -> (Vec<u8>, Vec<u8>) {
    let base: Vec<u8> = (0..4000u32)
        .map(|i| (i.wrapping_mul(2654435761) >> 13) as u8)
        .collect();
    let mut tgt = base.clone();
    for off in [7usize, 8, 9, 1500, 2600, 3999] {
        tgt[off] ^= 0x5A;
    }
    tgt.extend((0..200u32).map(|i| (i.wrapping_mul(40503) >> 3) as u8));
    (base, tgt)
}

fn opts(new_fw: Vec<u8>, base_fw: Vec<u8>, ptype: PatchType) -> BuildOpts {
    BuildOpts {
        fw: new_fw,
        base: Some(base_fw),
        patch_type: ptype,
        inplace_memory: Some(MEM),
        segment_size: SEG,
        inplace_patch: b"a patch from outside".to_vec(),
        target_id: Some(0x04D4_13FD),
        fw_version: Some(0x0111_0000),
        hw_id: Some("RAK4631".into()),
        sign_seed: None,
        block_size: 1024,
        force: false,
    }
}

#[test]
fn sequential_delta_applies_to_target() {
    let (base_body, tgt_body) = base_and_target();
    let (base_image, base_body_hash) = ensure_endf(&base_body, &ident());
    let (target_image, _) = ensure_endf(&tgt_body, &ident());

    let built = build(&opts(tgt_body, base_image.clone(), PatchType::Sequential)).expect("delta build");
    assert!(verify(&built.bytes).is_empty(), "delta .mota must verify");

    let m = Manifest::parse(&built.bytes).unwrap();
    assert!(!m.is_full(), "must be flagged as a delta");
    assert_eq!(m.codec(), Some(Codec::DetoolsSequential));
    assert_eq!(
        &m.base_hash, &base_body_hash,
        "base_hash == base EndF body hash"
    );
    assert_eq!(m.image_size as usize, target_image.len());

    let payload = &built.bytes[m.payload_off()..m.payload_off() + m.payload_size as usize];
    let rebuilt = apply_sequential(&base_image, payload, 1 << 20).unwrap();
    assert_eq!(rebuilt, target_image, "decoded image must equal the target");
    assert_eq!(
        motatool::crypto::sha256(&rebuilt).as_slice(),
        &m.image_hash[..],
        "image_hash must match the decoded target",
    );
}

#[test]
fn delta_suggested_name_tags_the_codec() {
    let (base_body, tgt_body) = base_and_target();
    let (base_image, _) = ensure_endf(&base_body, &ident());
    let seq = build(&opts(
        tgt_body.clone(),
        base_image.clone(),
        PatchType::Sequential,
    ))
    .unwrap();
    assert!(
        seq.suggested_name.contains("_seqdelta_"),
        "{}",
        seq.suggested_name
    );
    let ip = build(&opts(tgt_body, base_image, PatchType::InPlace)).unwrap();
    assert!(
        ip.suggested_name.contains("_ipdelta_"),
        "{}",
        ip.suggested_name
    );
}

#[test]
fn in_place_delta_around_a_patch() {
    let (base_body, tgt_body) = base_and_target();
    let (base_image, base_body_hash) = ensure_endf(&base_body, &ident());
    let (target_image, _) = ensure_endf(&tgt_body, &ident());
    let mut o = opts(tgt_body, base_image.clone(), PatchType::InPlace);
    let p = plan(&o).unwrap();
    assert_eq!(p.image, target_image);
    let d = p.delta.as_ref().unwrap();
    assert_eq!(d.base_image, base_image);
    let window = d.window.unwrap();
    assert_eq!((window.memory_size, window.segment_size), (MEM, SEG));

    o.inplace_patch = vec![0x55; 3000];
    let built = build(&o).unwrap();
    assert!(verify(&built.bytes).is_empty());
    let m = &built.manifest;
    assert_eq!(m.codec(), Some(Codec::DetoolsInplace));
    assert!(!m.is_full());
    assert_eq!(m.base_hash, base_body_hash);
    assert_eq!(m.image_size as usize, target_image.len());
    assert_eq!(m.payload_size, 3000);
    assert_eq!(built.bytes[m.payload_off()..m.payload_off() + 3000], o.inplace_patch);
    o.inplace_patch = Vec::new();
    assert!(matches!(build(&o), Err(BuildError::BlockCount(0))));
}

#[test]
fn signed_delta_verifies() {
    let (base_body, tgt_body) = base_and_target();
    let (base_image, _) = ensure_endf(&base_body, &ident());
    let mut o = opts(tgt_body, base_image, PatchType::Sequential);
    o.sign_seed = Some([3; 32]);
    let built = build(&o).unwrap();
    assert!(verify(&built.bytes).is_empty());
    assert!(built.manifest.is_signed());
}

#[test]
fn deltas_that_are_refused() {
    let (base_body, tgt_body) = base_and_target();
    let (base_image, _) = ensure_endf(&base_body, &ident());

    let o = opts(tgt_body.clone(), base_body, PatchType::Sequential);
    assert!(matches!(build(&o), Err(BuildError::BaseWithoutTrailer)));

    let mut o = opts(tgt_body.clone(), base_image.clone(), PatchType::Sequential);
    o.hw_id = Some("Heltec_v3".into());
    match build(&o) {
        Err(BuildError::OtherHardware { base, target }) => {
            assert_eq!(base, "RAK4631");
            assert_eq!(target, "Heltec_v3");
        }
        _ => panic!("a delta across hardware must be refused"),
    }
    o.force = true;
    assert!(verify(&build(&o).unwrap().bytes).is_empty());

    let mut o = opts(tgt_body.clone(), base_image.clone(), PatchType::InPlace);
    o.segment_size = 0;
    assert!(matches!(plan(&o), Err(BuildError::ZeroSegment)));
    for memory in [0, SEG + 1] {
        let mut o = opts(tgt_body.clone(), base_image.clone(), PatchType::InPlace);
        o.inplace_memory = Some(memory);
        assert!(
            matches!(plan(&o), Err(BuildError::BadWindow { memory: m, segment: SEG }) if m == memory)
        );
    }
    let mut o = opts(tgt_body, base_image, PatchType::InPlace);
    o.inplace_memory = None;
    assert!(plan(&o).unwrap().delta.unwrap().window.is_none());
}

#[test]
fn command_lines_of_the_patch_tool() {
    assert_eq!(
        encode_args("b", "n", "o", PatchType::Sequential, None).unwrap(),
        ["encode", "b", "n", "o", "--patch-type", "sequential", "--compression", "crle"]
    );
    let window = InPlaceParams { memory_size: MEM, segment_size: SEG };
    assert_eq!(
        encode_args("b", "n", "o", PatchType::InPlace, Some(window)).unwrap(),
        [
            "encode", "b", "n", "o", "--patch-type", "in-place", "--compression", "crle",
            "--memory-size", "32768", "--segment-size", "4096"
        ]
    );
    assert!(encode_args("b", "n", "o", PatchType::InPlace, None).is_none());
    assert_eq!(
        apply_args("b", "p", "o", PatchType::Sequential, 0, 10),
        ["apply", "b", "p", "o", "--patch-type", "sequential"]
    );
    assert_eq!(
        apply_args("b", "p", "o", PatchType::InPlace, MEM, 10),
        [
            "apply", "b", "p", "o", "--patch-type", "in-place", "--memory-size", "32768",
            "--to-size", "10"
        ]
    );
}

#[test]
fn refusals_in_words() {
    assert_eq!(
        BuildError::OtherHardware { base: "A".into(), target: "B".into() }.message(),
        "base hardware \"A\" != target hardware \"B\"; a cross-hardware delta will not apply (use --force to override)"
    );
    assert_eq!(
        BuildError::BaseWithoutTrailer.message(),
        "--base must be a real firmware image with its EndF trailer (the device's running image); this one has none"
    );
    assert_eq!(BuildError::ZeroSegment.message(), "in-place: --segment-size must be non-zero");
    assert_eq!(
        BuildError::BadWindow { memory: 5, segment: 4096 }.message(),
        "in-place: --inplace-memory (5) must be a non-zero multiple of --segment-size (4096)"
    );
    assert_eq!(BuildError::BlockCount(0).message(), "payload yields an invalid block count (0)");
    assert_eq!(
        BuildError::Unreadable(motatool::format::ParseError::WrongTotal).message(),
        "MOTA_TOTAL_SIZE != file length"
    );
}
