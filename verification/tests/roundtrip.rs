//! A built container verifies, reads back, and shows tampering.

use motatool::build::{block_size_log2, BuildError};
use motatool::crypto::ed25519_public_from_seed;
use motatool::format::ParseError;
use motatool::{build, verify, BuildOpts, Manifest, PatchType};

fn synthetic_fw(n: usize) -> Vec<u8> {
    (0..n).map(|i| (i.wrapping_mul(7).wrapping_add(3)) as u8).collect()
}

fn opts(fw: Vec<u8>) -> BuildOpts {
    BuildOpts {
        fw,
        base: None,
        patch_type: PatchType::Sequential,
        inplace_memory: None,
        segment_size: 4096,
        inplace_patch: Vec::new(),
        target_id: Some(0x04D4_13FD),
        fw_version: Some(0x0111_0000),
        hw_id: Some("RAK4631".into()),
        sign_seed: None,
        block_size: 1024,
        force: false,
    }
}

#[test]
fn full_build_verifies_and_roundtrips() {
    let built = build(&opts(synthetic_fw(2500))).unwrap();
    assert!(verify(&built.bytes).is_empty(), "a freshly built container must verify");

    let m = Manifest::parse(&built.bytes).unwrap();
    assert!(m.is_full() && !m.is_signed());
    assert_eq!(m.target_id, 0x04D4_13FD);
    assert_eq!(m.fw_version, 0x0111_0000);
    assert_eq!(m.hw_id_str(), "RAK4631");
    assert_eq!(m.block_count, 3); // 2500 + 56-byte EndF = 2556 → ceil(/1024) = 3
    assert!(built.suggested_name.starts_with("RAK4631_04D413FD_v1.17.0_full_"));
    assert!(built.suggested_name.ends_with(".mota"));
}

#[test]
fn signed_build_verifies_with_embedded_key() {
    let seed = [7u8; 32];
    let mut o = opts(synthetic_fw(1500));
    o.sign_seed = Some(seed);
    let built = build(&o).unwrap();

    assert!(verify(&built.bytes).is_empty());
    let m = Manifest::parse(&built.bytes).unwrap();
    assert!(m.is_signed());
    assert_eq!(m.signer, ed25519_public_from_seed(&seed));
}

#[test]
fn payload_tamper_is_detected() {
    let built = build(&opts(synthetic_fw(2500))).unwrap();
    let mut bad = built.bytes.clone();
    let payload_off = Manifest::parse(&bad).unwrap().payload_off();
    bad[payload_off] ^= 0xFF;
    let problems = verify(&bad);
    assert!(problems.iter().any(|p| p.contains("leaves")), "tamper must be caught: {problems:?}");
}

#[test]
fn delta_build_is_rejected_for_now() {
    let mut o = opts(synthetic_fw(2500));
    o.base = Some(synthetic_fw(2400));
    assert!(build(&o).is_err(), "delta builds are deferred and must error, not misbuild");
}

#[test]
fn each_check_has_its_problem() {
    let mut o = opts(synthetic_fw(2500));
    o.sign_seed = Some([7; 32]);
    let good = build(&o).unwrap().bytes;
    let m = Manifest::parse(&good).unwrap();

    let mut bad = good.clone();
    bad[8 + 20] ^= 1;
    assert_eq!(verify(&bad), ["merkle_root mismatch", "Ed25519 signature INVALID"]);

    let mut bad = good.clone();
    bad[8 + 24] ^= 1;
    assert_eq!(verify(&bad), ["image_hash mismatch (full image)", "Ed25519 signature INVALID"]);

    let mut bad = good.clone();
    bad[8 + 129] ^= 1;
    assert_eq!(verify(&bad), ["Ed25519 signature INVALID"]);

    let mut bad = good.clone();
    bad[8 + 193..8 + 197].copy_from_slice(b"APRV");
    assert_eq!(verify(&bad), ["container is pre-approved (must be FF FF FF FF on the wire)"]);
    for other in [[0; 4], [0xFF, 0xFF, 0xFF, 0xFE]] {
        bad[8 + 193..8 + 197].copy_from_slice(&other);
        assert_eq!(verify(&bad), ["container is pre-approved (must be FF FF FF FF on the wire)"]);
    }

    let mut bad = good.clone();
    bad[m.leaves_off()] ^= 1;
    assert_eq!(
        verify(&bad),
        ["leaves[] do not match the payload (corruption)", "merkle_root mismatch"]
    );

    let mut bad = good.clone();
    bad[8] = 9;
    assert_eq!(verify(&bad), ["unsupported format_ver 9"]);
    assert_eq!(verify(&[]), ["too small for a .mota"]);
}

#[test]
fn identity_comes_from_the_trailer_unless_given() {
    let stamped = build(&opts(synthetic_fw(300))).unwrap();
    let image = stamped.bytes[stamped.manifest.payload_off()..stamped.bytes.len() - 5].to_vec();
    let mut o = opts(image.clone());
    o.target_id = None;
    o.fw_version = None;
    o.hw_id = None;
    let built = build(&o).unwrap();
    assert_eq!(built.bytes, stamped.bytes);
    o.target_id = Some(7);
    let other = build(&o).unwrap();
    assert_eq!(other.manifest.target_id, 7);
    assert_eq!(other.manifest.fw_version, 0x0111_0000);
    assert_eq!(other.manifest.image_hash, built.manifest.image_hash);
}

#[test]
fn suggested_name_in_full() {
    let mut o = opts(b"abc".to_vec());
    o.hw_id = Some(String::new());
    o.target_id = Some(0xAB);
    let built = build(&o).unwrap();
    let root: String = built.manifest.merkle_root.iter().map(|b| format!("{b:02X}")).collect();
    assert_eq!(built.suggested_name, format!("fw_000000AB_v1.17.0_full_{root}.mota"));
    // One block: the root is the head of the image hash.
    assert_eq!(built.manifest.merkle_root[..], built.manifest.image_hash[..4]);
    assert_eq!(built.bytes.len(), 8 + 197 + 4 + 59 + 5);
    assert_eq!(built.manifest.total_size(), built.bytes.len());
    assert_eq!(built.bytes[..8], [0x6d, 0x4f, 0x54, 0x41, 17, 1, 0, 0]);
}

#[test]
fn block_sizes_out_of_range_are_refused() {
    let mut o = opts(synthetic_fw(10));
    o.block_size = 1;
    assert!(matches!(
        build(&o),
        Err(BuildError::Unreadable(ParseError::BadBlockSizeOrPayload))
    ));
    o.block_size = 1 << 25;
    assert!(matches!(
        build(&o),
        Err(BuildError::Unreadable(ParseError::BadBlockSizeOrPayload))
    ));
    o.block_size = 1 << 24;
    assert!(verify(&build(&o).unwrap().bytes).is_empty());
    let mut o = opts(synthetic_fw(0x2_0000));
    o.block_size = 2;
    assert!(matches!(build(&o), Err(BuildError::BlockCount(65564))));
}

#[test]
fn block_sizes_that_are_no_power_of_two() {
    // 956 bytes make two blocks of 600 and two of 512: readable, with leaves for the wrong blocks.
    let mut o = opts(synthetic_fw(900));
    o.block_size = 600;
    let built = build(&o).unwrap();
    assert_eq!(built.manifest.block_size(), 512);
    assert_eq!(verify(&built.bytes), ["leaves[] do not match the payload (corruption)"]);
    // 4152 bytes make five blocks of 1000 and nine of 512.
    let mut o = opts(synthetic_fw(4096));
    o.block_size = 1000;
    assert!(matches!(build(&o), Err(BuildError::Unreadable(ParseError::WrongGeometry))));
}

#[test]
fn logarithms_of_block_sizes() {
    for (size, log2) in [(0, 0), (1, 0), (2, 1), (1023, 9), (1024, 10), (u32::MAX, 31)] {
        assert_eq!(block_size_log2(size), log2);
    }
}
