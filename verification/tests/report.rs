//! What the commands print.

use motatool::report::inspect::describe;
use motatool::report::serve::{entry_line, folder_line, seed_line, take_seed, toggles_relay};
use motatool::report::{describe_built, judge, kind_label, public_key_line, verdict_line};
use motatool::crypto::ed25519_public_from_seed;
use motatool::format::ParseError;
use motatool::{build, BuildOpts, Built, Manifest, PatchType};

fn built(hw: &str, seed: Option<[u8; 32]>) -> Built {
    build(&BuildOpts {
        fw: b"abc".to_vec(),
        base: None,
        patch_type: PatchType::Sequential,
        inplace_memory: None,
        segment_size: 4096,
        inplace_patch: Vec::new(),
        target_id: Some(0x04D4_13FD),
        fw_version: Some(0x0111_0000),
        hw_id: Some(hw.into()),
        sign_seed: seed,
        block_size: 1024,
        force: false,
    })
    .unwrap()
}

fn hex(bytes: &[u8]) -> String {
    bytes.iter().map(|b| format!("{b:02X}")).collect()
}

#[test]
fn kinds_of_containers() {
    let mut m = built("", None).manifest;
    assert_eq!(kind_label(&m), "full");
    m.codec_id = 9;
    assert_eq!(kind_label(&m), "full");
    m.codec_id = 1;
    assert_eq!(kind_label(&m), "sequential delta");
    m.codec_id = 2;
    assert_eq!(kind_label(&m), "in-place delta");
    m.flags = 0;
    assert_eq!(kind_label(&m), "in-place delta");
    m.codec_id = 0;
    assert_eq!(kind_label(&m), "sequential delta");
}

#[test]
fn lines_after_a_build() {
    let b = built("RAK4631", Some([7; 32]));
    assert_eq!(
        describe_built(&b.manifest, "out/x.mota", b.bytes.len() as u64),
        [
            "wrote out/x.mota",
            "  full  target=04D413FD  v1.17.0  hw=RAK4631  signed",
            "  image=59B  payload=59B  blocks=1  total=273B",
        ]
    );
    let b = built("", None);
    assert_eq!(
        describe_built(&b.manifest, "y", 1)[1],
        "  full  target=04D413FD  v1.17.0  hw=?  unsigned"
    );
}

#[test]
fn lines_of_a_verification() {
    let b = built("RAK4631", Some([7; 32]));
    let key = ed25519_public_from_seed(&[7; 32]);
    let v = judge(&b.bytes, &Some(key));
    assert!(v.ok());
    assert_eq!(
        verdict_line("a.mota", &v, "some_env", b.bytes.len() as u64),
        "OK    a.mota : full target=04D413FD [some_env] v1.17.0 hw=RAK4631 signed blocks=1 size=273"
    );

    let v = judge(&b.bytes, &Some([0; 32]));
    assert!(!v.ok());
    assert_eq!(
        verdict_line("a.mota", &v, "", 0),
        "FAIL  a.mota : [signed by a different key than --pub]"
    );

    let v = judge(&built("", None).bytes, &Some(key));
    assert_eq!(
        verdict_line("b.mota", &v, "", 0),
        "FAIL  b.mota : [not signed (but --pub was given)]"
    );
    assert!(judge(&built("", None).bytes, &None).ok());

    let mut bad = b.bytes.clone();
    bad[8 + 20] ^= 1;
    assert_eq!(
        verdict_line("c", &judge(&bad, &None), "", 0),
        "FAIL  c : [merkle_root mismatch] [Ed25519 signature INVALID]"
    );
    let v = judge(&[], &Some(key));
    assert!(v.manifest.is_none() && !v.ok());
    assert_eq!(verdict_line("d", &v, "", 0), "FAIL  d : [too small for a .mota]");
}

#[test]
fn every_field_of_a_signed_container() {
    let b = built("RAK4631", Some([7; 32]));
    let m = &b.manifest;
    assert_eq!(
        describe(m, 273, "some_env"),
        [
            "total_size     : 273".to_string(),
            "format_ver     : 2".into(),
            "flags          : 0x03  FULL=true SIGNED=true".into(),
            "hash_algo      : 0x12 (sha2-256)".into(),
            "target_id      : 0x04d413fd  (some_env)".into(),
            "fw_version     : 1.17.0  (0x01110000)".into(),
            "image_size     : 59".into(),
            "payload_size   : 59".into(),
            "block_size     : 1024  (log2=10)  block_count=1".into(),
            "codec_id       : 0 (full)".into(),
            format!("merkle_root    : {}", hex(&m.merkle_root)),
            format!("image_hash     : {}", hex(&m.image_hash)),
            "hw_id          : RAK4631".into(),
            format!("signer_pubkey  : {}", hex(&m.signer)),
            format!("signature      : {}", hex(&m.signature)),
            "approval       : FFFFFFFF  (not approved)".into(),
            "leaves[]       : 1 x 4 bytes".into(),
        ]
    );
}

#[test]
fn fields_that_only_some_containers_have() {
    let mut m: Manifest = built("", None).manifest;
    m.flags = 0;
    m.codec_id = 7;
    m.approval = *b"APRV";
    let lines = describe(&m, 1, "");
    assert!(lines.contains(&"codec_id       : 7 (?)".to_string()));
    assert!(lines.contains(&"hw_id          : (none)".to_string()));
    assert!(lines.contains(&"base_hash      : 0000000000000000  (zero)".to_string()));
    assert!(lines.contains(&"approval       : 41505256  (APPROVED)".to_string()));
    assert_eq!(lines.len(), 16);
    m.base_hash[7] = 1;
    assert!(describe(&m, 1, "").contains(&"base_hash      : 0000000000000001".to_string()));
}

#[test]
fn lines_about_serving() {
    assert_eq!(folder_line(3, "motas", true), "motatool serve: 3 valid .mota in motas (recursive)");
    assert_eq!(folder_line(0, "m", false), "motatool serve: 0 valid .mota in m");
    let b = built("RAK4631", None);
    let mid = hex(&b.manifest.merkle_root);
    assert_eq!(
        entry_line("f.mota", &b.manifest, "env", 273),
        format!("  - f.mota : mid={mid} target=04D413FD [env] v1.17.0 full unsigned blocks=1 size=273")
    );
    assert_eq!(
        seed_line("f.mota", &b.manifest),
        format!("seed: f.mota mid={mid} blocks=1 payload=59 (staged into each capture for `ota pull … validate`)")
    );
    assert_eq!(
        public_key_line(&[0xAB; 32]),
        format!("pubkey: {}", "AB".repeat(32))
    );
}

#[test]
fn seeds_and_relays() {
    let b = built("RAK4631", None);
    let seed = take_seed(&b.bytes).unwrap();
    assert_eq!(seed.payload, &b.bytes[209..268]);
    assert_eq!(seed.manifest.block_count, 1);
    assert!(matches!(take_seed(&[1, 2]), Err(ParseError::TooSmall)));
    assert!(toggles_relay(false, false));
    assert!(!toggles_relay(true, false));
    assert!(!toggles_relay(false, true));
}
