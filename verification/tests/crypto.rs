//! Hashes, signatures and keys.

use motatool::crypto::{
    ed25519_keygen, ed25519_public_from_seed, ed25519_sign, ed25519_verify, key_from_hex, key_text, mh,
    parse_key32, sha256,
};

/// The first test vector of RFC 8032.
const SEED: &str = "9d61b19deffd5a60ba844af492ec2cc44449c5697b326919703bac031cae7f60";
const PUBLIC: &str = "d75a980182b10ab7d54bfed3c964073a0ee172f3daa62325af021a68f707511a";
const SIGNATURE: &str = "e5564300c360ac729086e2cc806e828a84877f1eb8e5d974d873e065224901555fb8821590a33bacc61e39701cf9b46bd25bf5f0595bbe24655141438e7a100b";

#[test]
fn digest_of_abc() {
    let hex: String = sha256(b"abc").iter().map(|b| format!("{b:02x}")).collect();
    assert_eq!(hex, "ba7816bf8f01cfea414140de5dae2223b00361a396177a9cb410ff61f20015ad");
    assert_eq!(mh::<4>(b"abc"), [0xba, 0x78, 0x16, 0xbf]);
    assert_eq!(mh::<32>(b"abc"), sha256(b"abc"));
    assert_eq!(mh::<0>(b"abc"), [0u8; 0]);
}

#[test]
fn signature_of_the_empty_message() {
    let seed = key_from_hex(SEED).unwrap();
    let public = ed25519_public_from_seed(&seed);
    assert_eq!(public, key_from_hex(PUBLIC).unwrap());
    let sig = ed25519_sign(&seed, b"");
    let hex: String = sig.iter().map(|b| format!("{b:02x}")).collect();
    assert_eq!(hex, SIGNATURE);
    assert!(ed25519_verify(&public, b"", &sig));
    assert!(!ed25519_verify(&public, b"x", &sig));
    let mut bad = sig;
    bad[0] ^= 1;
    assert!(!ed25519_verify(&public, b"", &bad));
}

#[test]
fn bytes_that_are_no_public_key_accept_nothing() {
    let mut no_key = [0u8; 32];
    no_key[0] = 2;
    no_key[31] = 0x80;
    let sig = ed25519_sign(&[1; 32], b"m");
    assert!(!ed25519_verify(&no_key, b"m", &sig));
}

#[test]
fn fresh_keys_sign() {
    let (seed, public) = ed25519_keygen();
    assert_eq!(public, ed25519_public_from_seed(&seed));
    assert!(ed25519_verify(&public, b"message", &ed25519_sign(&seed, b"message")));
    assert_ne!(ed25519_keygen().0, seed);
}

#[test]
fn key_files_read_back() {
    let key = key_from_hex(SEED).unwrap();
    let text = key_text(&key);
    assert_eq!(text, format!("{}\n", SEED.to_uppercase()));
    assert_eq!(parse_key32(text.as_bytes()), Some(key));
    assert_eq!(parse_key32(format!(" \t{SEED}\r\n").as_bytes()), Some(key));
    assert_eq!(parse_key32(&key), Some(key));
    assert_eq!(parse_key32(&[b'a'; 32]), Some([b'a'; 32]));
}

#[test]
fn files_that_hold_no_key() {
    assert_eq!(parse_key32(b""), None);
    assert_eq!(parse_key32(&[7; 31]), None);
    assert_eq!(parse_key32(SEED[..62].as_bytes()), None);
    assert_eq!(parse_key32(format!("{SEED}00").as_bytes()), None);
    assert_eq!(key_from_hex("zz"), None);
    assert_eq!(key_from_hex(&SEED[..63]), None);
}
