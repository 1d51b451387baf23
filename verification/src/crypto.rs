//! Hashing and signatures used by the `.mota` format.
//!
//! **Truncated SHA-256** serves wherever a short digest is needed (`sha2-256:N` is the first `N` bytes of
//! the SHA-256 of the data), and **Ed25519** (RFC 8032) for optional container signing.

use vstd::prelude::*;
use vstd::string::*;
use vstd::utf8;

use crate::format::arr;
use crate::text;
use crate::text::{hex_decode, hex_encode_upper, trim, utf8_text};

verus! {

/// The SHA-256 digest of `data`.
pub uninterp spec fn sha256_of(data: Seq<u8>) -> [u8; 32];

/// The Ed25519 public key that belongs to a seed.
pub uninterp spec fn public_key_of(seed: Seq<u8>) -> [u8; 32];

/// The Ed25519 signature of `msg` under a seed.
pub uninterp spec fn signature_of(seed: Seq<u8>, msg: Seq<u8>) -> [u8; 64];

/// Whether `sig` is accepted as an Ed25519 signature of `msg` under a public key.
pub uninterp spec fn signature_accepted(public_key: Seq<u8>, msg: Seq<u8>, sig: Seq<u8>) -> bool;

/// The full SHA-256 digest, with `sha2::Sha256::digest`. Its contract says that the digest depends on the
/// data alone.
#[verifier::external_body]
pub fn sha256(data: &[u8]) -> (digest: [u8; 32])
    ensures
        digest == sha256_of(data@),
{
    <sha2::Sha256 as sha2::Digest>::digest(data).into()
}

/// The first `N` bytes of the SHA-256 digest of `data` (`sha2-256:N`).
pub fn mh<const N: usize>(data: &[u8]) -> (out: [u8; N])
    requires
        N <= 32,
    ensures
        out@ == sha256_of(data@)@.take(N as int),
{
    let digest: [u8; 32] = sha256(data);
    let out: [u8; N] = arr::<N>(&digest, 0);
    assert(digest@.subrange(0, N as int) =~= digest@.take(N as int));
    out
}

/// Signs `msg` with a 32-byte Ed25519 seed, with `ed25519_dalek::SigningKey`. Its contract says that the
/// signature depends on the seed and the message alone, and that it is accepted under the public key of
/// the same seed.
#[verifier::external_body]
pub fn ed25519_sign(seed: &[u8; 32], msg: &[u8]) -> (sig: [u8; 64])
    ensures
        sig == signature_of(seed@, msg@),
        signature_accepted(public_key_of(seed@)@, msg@, sig@),
{
    ed25519_dalek::Signer::sign(&ed25519_dalek::SigningKey::from_bytes(seed), msg).to_bytes()
}

/// Verifies an Ed25519 signature of `msg` under a public key, with `ed25519_dalek::VerifyingKey`. Bytes
/// that are no public key accept nothing. Its contract says that the answer depends on the key, the
/// message and the signature alone.
#[verifier::external_body]
pub fn ed25519_verify(public_key: &[u8; 32], msg: &[u8], sig: &[u8; 64]) -> (ok: bool)
    ensures
        ok == signature_accepted(public_key@, msg@, sig@),
{
    match ed25519_dalek::VerifyingKey::from_bytes(public_key) {
        Ok(vk) => {
            let sig = ed25519_dalek::Signature::from_bytes(sig);
            ed25519_dalek::Verifier::verify(&vk, msg, &sig).is_ok()
        },
        Err(_) => false,
    }
}

/// The Ed25519 public key that belongs to a seed, with `ed25519_dalek::SigningKey`. Its contract says that
/// the key depends on the seed alone.
#[verifier::external_body]
pub fn ed25519_public_from_seed(seed: &[u8; 32]) -> (public_key: [u8; 32])
    ensures
        public_key == public_key_of(seed@),
{
    ed25519_dalek::SigningKey::from_bytes(seed).verifying_key().to_bytes()
}

/// A fresh Ed25519 seed from the random numbers of the operating system, with
/// `ed25519_dalek::SigningKey::generate` over `rand_core::OsRng`. Nothing is promised of it. The call panics if
/// the operating system has no random numbers to give.
#[verifier::external_body]
fn fresh_seed() -> (seed: [u8; 32]) {
    ed25519_dalek::SigningKey::generate(&mut rand_core::OsRng).to_bytes()
}

/// A fresh Ed25519 key pair: the seed and the public key that belongs to it. Panics if the operating system
/// has no random numbers to give.
pub fn ed25519_keygen() -> (pair: ([u8; 32], [u8; 32]))
    ensures
        pair.1 == public_key_of(pair.0@),
{
    let seed: [u8; 32] = fresh_seed();
    let public_key: [u8; 32] = ed25519_public_from_seed(&seed);
    (seed, public_key)
}

/// The key that hexadecimal text stands for, if it stands for 32 bytes.
pub open spec fn key_in_hex(text: Seq<char>) -> Option<Seq<u8>> {
    let digits = utf8::encode_utf8(text);
    if text::is_hex(digits) && digits.len() == 64 {
        Some(text::hex_bytes(digits))
    } else {
        None
    }
}

/// The key that a key file holds: 64 hexadecimal digits, or else 32 bytes as they are.
pub open spec fn key_in(raw: Seq<u8>) -> Option<Seq<u8>> {
    let from_text = if utf8::valid_utf8(raw) {
        key_in_hex(text::trimmed(utf8::decode_utf8(raw)))
    } else {
        None
    };
    if from_text is Some {
        from_text
    } else if raw.len() == 32 {
        Some(raw)
    } else {
        None
    }
}

/// What a key file is written as: the key in upper-case hexadecimal, and a line end.
pub open spec fn key_file(key: Seq<u8>) -> Seq<char> {
    text::hex_upper(key).push('\n')
}

/// The contents of a file for a key: the key in hexadecimal, and a line end.
pub fn key_text(key: &[u8; 32]) -> (s: String)
    ensures
        s@ == key_file(key@),
{
    let mut s: String = hex_encode_upper(key);
    s.append("\n");
    proof {
        reveal_strlit("\n");
        assert(s@ =~= key_file(key@));
    }
    s
}

/// The 32-byte key that `text` gives in hexadecimal.
pub fn key_from_hex(text: &str) -> (r: Option<[u8; 32]>)
    ensures
        r matches Some(key) ==> key_in_hex(text@) == Some(key@),
        r is None ==> key_in_hex(text@) is None,
{
    match hex_decode(text) {
        Some(bytes) => if bytes.len() == 32 {
            let key: [u8; 32] = arr::<32>(bytes.as_slice(), 0);
            assert(key@ =~= bytes@);
            Some(key)
        } else {
            None
        },
        None => None,
    }
}

/// The 32-byte key in the contents of a key file: either 64 hexadecimal digits, with white space around
/// them, or 32 raw bytes. What [`key_text`] writes is read back.
pub fn parse_key32(raw: &[u8]) -> (r: Option<[u8; 32]>)
    ensures
        r matches Some(key) ==> key_in(raw@) == Some(key@),
        r is None ==> key_in(raw@) is None,
        forall|key: Seq<u8>|
            key.len() == 32 && raw@ == utf8::encode_utf8(#[trigger] key_file(key)) ==> r is Some
                && r->0@ == key,
{
    if let Some(text) = utf8_text(raw) {
        let core: &str = trim(text);
        let found: Option<[u8; 32]> = key_from_hex(core);
        proof {
            assert forall|key: Seq<u8>|
                key.len() == 32 && raw@ == utf8::encode_utf8(
                    #[trigger] key_file(key),
                ) implies found is Some && found->0@ == key by {
                let hex = text::hex_upper(key);
                text::lemma_hex_round_trip(key);
                utf8::encode_utf8_decode_utf8(key_file(key));
                utf8::is_ascii_chars_encode_utf8(hex);
                assert(text@.subrange(0, 64) =~= hex);
            }
        }
        if found.is_some() {
            return found;
        }
    }
    proof {
        assert forall|key: Seq<u8>| raw@ == utf8::encode_utf8(
            #[trigger] key_file(key),
        ) implies utf8::valid_utf8(raw@) by {
            utf8::encode_utf8_valid_utf8(key_file(key));
        }
    }
    if raw.len() == 32 {
        let key: [u8; 32] = arr::<32>(raw, 0);
        assert(key@ =~= raw@);
        Some(key)
    } else {
        None
    }
}

} // verus!
