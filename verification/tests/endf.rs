//! The EndF trailer, versions and targets.

use motatool::crypto::mh;
use motatool::endf::{
    ensure_endf, has_endf, pack_version, parse_ident, target_id_for_env, version_str, VersionError,
};
use motatool::FwIdent;

#[test]
fn version_roundtrip() {
    assert_eq!(pack_version("1.17.0").unwrap(), 0x0111_0000);
    assert_eq!(version_str(0x0111_0000), "1.17.0");
    assert!(pack_version("1..2").is_err());
    assert!(pack_version("").is_err());
    assert!(pack_version("1.2.x").is_err());
}

#[test]
fn ensure_endf_is_idempotent() {
    let img = vec![0xABu8; 200];
    let id = FwIdent {
        fw_version: 0x0111_0000,
        target_id: 0x04D4_13FD,
        hw_id: "RAK4631".into(),
    };
    let (trailed, h1) = ensure_endf(&img, &id);
    assert!(has_endf(&trailed));
    let (again, h2) = ensure_endf(&trailed, &id);
    assert_eq!(trailed, again); // no double trailer
    assert_eq!(h1, h2);
    let back = parse_ident(&trailed);
    assert_eq!(back.target_id, id.target_id);
    assert_eq!(back.hw_id, "RAK4631");
}

#[test]
fn trailer_in_bytes() {
    let id = FwIdent { fw_version: 0x0102_0304, target_id: 0x0A0B_0C0D, hw_id: "hw".into() };
    let (trailed, hash) = ensure_endf(b"abc", &id);
    let mut want = b"abcEndF".to_vec();
    want.extend([3, 0, 0, 0]);
    want.extend([0xba, 0x78, 0x16, 0xbf, 0x8f, 0x01, 0xcf, 0xea]);
    want.extend([4, 3, 2, 1, 0x0D, 0x0C, 0x0B, 0x0A]);
    want.extend(b"hw");
    want.extend([0; 30]);
    assert_eq!(trailed, want);
    assert_eq!(hash, mh::<8>(b"abc"));
    assert_eq!(parse_ident(&trailed).fw_version, 0x0102_0304);
}

#[test]
fn a_second_identity_is_not_stamped() {
    let first = FwIdent { fw_version: 1, target_id: 2, hw_id: "one".into() };
    let second = FwIdent { fw_version: 3, target_id: 4, hw_id: "two".into() };
    let (trailed, _) = ensure_endf(&[9; 10], &first);
    let (again, _) = ensure_endf(&trailed, &second);
    assert_eq!(again, trailed);
    assert_eq!(parse_ident(&again).hw_id, "one");
}

#[test]
fn damaged_trailers_are_none() {
    let id = FwIdent { fw_version: 1, target_id: 2, hw_id: "one".into() };
    let (trailed, _) = ensure_endf(&[9; 10], &id);
    for at in [0, 10, 14, 18] {
        let mut bad = trailed.clone();
        bad[at] ^= 1;
        assert!(!has_endf(&bad));
        assert!(!parse_ident(&bad).any());
    }
    assert!(!has_endf(&trailed[1..]));
    assert!(!has_endf(&[]));
    assert!(parse_ident(&trailed).any());
}

#[test]
fn long_hardware_tags_are_cut() {
    let id = FwIdent { fw_version: 0, target_id: 0, hw_id: "0123456789012345678901234567890123456789".into() };
    let (trailed, _) = ensure_endf(&[1], &id);
    assert_eq!(parse_ident(&trailed).hw_id, "01234567890123456789012345678901");
    assert_eq!(trailed.len(), 57);
}

#[test]
fn versions_take_four_components() {
    assert_eq!(pack_version("1"), Ok(0x0100_0000));
    assert_eq!(pack_version("1.2.3.4"), Ok(0x0102_0304));
    assert_eq!(pack_version("1.2.3.4.anything"), Ok(0x0102_0304));
    assert_eq!(pack_version("257.0.256"), Ok(0xFF00_FF00));
    assert_eq!(pack_version("300.0.0"), Ok(0xFF00_0000));
    assert_eq!(pack_version("255.256.254.255"), Ok(0xFFFF_FEFF));
    assert_eq!(pack_version("0004294967295.1"), Ok(0xFF01_0000));
    assert_eq!(pack_version("4294967296"), Err(VersionError::TooLarge));
    assert_eq!(pack_version("1.99999999999999999999999999"), Err(VersionError::TooLarge));
    assert_eq!(pack_version("1.99999999999.x"), Err(VersionError::TooLarge));
    assert_eq!(pack_version("-1"), Err(VersionError::Bad));
    assert_eq!(pack_version("1.2."), Err(VersionError::Bad));
    assert_eq!(pack_version("1.é"), Err(VersionError::Bad));
}

#[test]
fn version_text_packs_back_without_its_low_byte() {
    for v in [0u32, 0x0111_0005, 0xFFFF_FFFF, 0x0A64_0100] {
        assert_eq!(pack_version(&version_str(v)), Ok(v & 0xFFFF_FF00));
    }
    assert_eq!(version_str(0xFF0A_64FF), "255.10.100");
}

#[test]
fn target_is_the_head_of_a_hash() {
    // SHA-256 of "abc" begins ba7816bf.
    assert_eq!(target_id_for_env("abc"), 0xbf16_78ba);
}

#[test]
fn version_errors_in_words() {
    assert_eq!(VersionError::Bad.message("1.x"), "bad version: \"1.x\"");
    assert_eq!(VersionError::TooLarge.message("5000000000"), "version component too large: \"5000000000\"");
}
