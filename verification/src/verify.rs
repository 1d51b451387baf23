//! Content-integrity verification of a `.mota` container.
//!
//! Recomputes the leaves from the payload, the merkle root, the full-image hash, and (if signed) the Ed25519
//! signature under the embedded signer key. The result is a list of problems; none means valid. The
//! `image_hash` of a delta is not checked here, as that needs the base image.

use vstd::arithmetic::power2;
use vstd::prelude::*;
use vstd::string::*;

use crate::crypto;
use crate::crypto::{ed25519_verify, sha256};
use crate::format::{
    off, same_bytes, Manifest, APPROVAL_NONE, HEADER_LEN, MFLAG_FULL, MFLAG_SIGNED, SIGNED_LEN,
};
use crate::laws::verification;
use crate::merkle;
use crate::text;

verus! {

/// The size of the blocks of a container.
pub open spec fn block_size_in(blob: Seq<u8>) -> int {
    power2::pow2(blob[HEADER_LEN + off::BLOCK_SIZE_LOG2] as nat) as int
}

/// The declared size of the payload.
pub open spec fn payload_size_in(blob: Seq<u8>) -> int {
    crate::format::le_u32(blob, HEADER_LEN + off::PAYLOAD_SIZE)
}

/// The number of blocks that the payload makes.
pub open spec fn block_count_in(blob: Seq<u8>) -> int {
    crate::format::ceil_div(payload_size_in(blob), block_size_in(blob))
}

/// The `len` bytes at `at` of the manifest.
pub open spec fn field_in(blob: Seq<u8>, at: int, len: int) -> Seq<u8> {
    blob.subrange(HEADER_LEN + at, HEADER_LEN + at + len)
}

/// The stored leaves of a container.
pub open spec fn leaves_in(blob: Seq<u8>) -> Seq<u8> {
    blob.subrange(crate::format::payload_start(0), crate::format::payload_start(block_count_in(blob)))
}

/// The payload of a container.
pub open spec fn payload_in(blob: Seq<u8>) -> Seq<u8> {
    let start = crate::format::payload_start(block_count_in(blob));
    blob.subrange(start, start + payload_size_in(blob))
}

/// The stored leaves are those of the payload.
pub open spec fn leaves_match(blob: Seq<u8>) -> bool {
    merkle::joined(merkle::payload_leaves(payload_in(blob), block_size_in(blob))) == leaves_in(blob)
}

/// The merkle root is that of the stored leaves.
pub open spec fn root_matches(blob: Seq<u8>) -> bool {
    merkle::tree_root(merkle::words(leaves_in(blob))) == field_in(blob, off::MERKLE_ROOT as int, 4)
}

/// If the payload is the image, the image hash is that of the payload.
pub open spec fn image_matches(blob: Seq<u8>) -> bool {
    blob[HEADER_LEN + off::FLAGS] & MFLAG_FULL != 0 ==> crypto::sha256_of(payload_in(blob))@
        == field_in(blob, off::IMAGE_HASH as int, 32)
}

/// If the container is signed, its signature holds under its signer key.
pub open spec fn signature_holds(blob: Seq<u8>) -> bool {
    blob[HEADER_LEN + off::FLAGS] & MFLAG_SIGNED != 0 ==> crypto::signature_accepted(
        field_in(blob, off::SIGNER as int, 32),
        field_in(blob, 0, SIGNED_LEN as int),
        field_in(blob, off::SIGNATURE as int, 64),
    )
}

/// The approval field is as it must be on the wire: unwritten.
pub open spec fn unapproved(blob: Seq<u8>) -> bool {
    field_in(blob, off::APPROVAL as int, 4) == APPROVAL_NONE@
}

/// A problem, unless the check holds.
pub open spec fn unless(holds: bool, text: Seq<char>) -> Seq<Seq<char>> {
    if holds {
        seq![]
    } else {
        seq![text]
    }
}

/// Every problem of a container, in the order of the checks. One that cannot be parsed has just that
/// problem.
pub open spec fn problems_of(blob: Seq<u8>) -> Seq<Seq<char>> {
    match crate::format::container_error(blob) {
        Some(e) => seq![e.text()],
        None => unless(leaves_match(blob), "leaves[] do not match the payload (corruption)"@) + unless(
            root_matches(blob),
            "merkle_root mismatch"@,
        ) + unless(image_matches(blob), "image_hash mismatch (full image)"@) + unless(
            signature_holds(blob),
            "Ed25519 signature INVALID"@,
        ) + unless(
            unapproved(blob),
            "container is pre-approved (must be FF FF FF FF on the wire)"@,
        ),
    }
}

/// A container without problems is one that parses and passes every check.
pub proof fn valid_container(blob: Seq<u8>)
    ensures
        problems_of(blob).len() == 0 <==> {
            &&& crate::format::container_error(blob) is None
            &&& leaves_match(blob)
            &&& root_matches(blob)
            &&& image_matches(blob)
            &&& signature_holds(blob)
            &&& unapproved(blob)
        },
{
}

/// A payload block whose hash is not the stored leaf is reported.
pub proof fn corrupt_block_is_reported(blob: Seq<u8>, i: int)
    requires
        crate::format::container_error(blob) is None,
        0 <= i < block_count_in(blob),
        merkle::digest4(merkle::block(payload_in(blob), block_size_in(blob), i)) != leaves_in(blob).subrange(
            4 * i,
            4 * i + 4,
        ),
    ensures
        problems_of(blob).len() >= 1,
        problems_of(blob)[0] == "leaves[] do not match the payload (corruption)"@,
{
    if leaves_match(blob) {
        let leaves = merkle::payload_leaves(payload_in(blob), block_size_in(blob));
        assert(payload_in(blob).len() == payload_size_in(blob)) by {
            lemma_block_count(blob);
        }
        assert forall|k: int| 0 <= k < leaves.len() implies (#[trigger] leaves[k]).len() == 4 by {}
        merkle::words_of_joined(leaves);
        assert(merkle::words(leaves_in(blob))[i] == leaves[i]);
    }
}

/// The number of blocks of a container that can be parsed is not negative.
pub proof fn lemma_block_count(blob: Seq<u8>)
    requires
        crate::format::container_error(blob) is None,
    ensures
        block_size_in(blob) >= 1,
        block_count_in(blob) >= 0,
{
    power2::lemma_pow2_pos(blob[HEADER_LEN + off::BLOCK_SIZE_LOG2] as nat);
    vstd::arithmetic::div_mod::lemma_div_pos_is_pos(
        payload_size_in(blob) + block_size_in(blob) - 1,
        block_size_in(blob),
    );
}

/// Adds a problem, unless the check holds.
fn note(problems: &mut Vec<String>, holds: bool, text: &str)
    ensures
        text::texts(final(problems)@) == text::texts(old(problems)@) + unless(holds, text@),
{
    if !holds {
        problems.push(text.to_owned());
    }
    assert(text::texts(problems@) =~= text::texts(old(problems)@) + unless(holds, text@));
}

/// Verifies the integrity of a container. Returns every problem found; none means valid.
pub fn verify(blob: &[u8]) -> (problems: Vec<String>)
    ensures
        text::texts(problems@) == problems_of(blob@),
        match crate::format::container_error(blob@) {
            None => verification::finds(blob@, text::texts(problems@)),
            Some(_) => verification::refuses(blob@, text::texts(problems@)),
        },
{
    proof {
        if crate::format::container_error(blob@) is None {
            verification::problems_by_bytes(blob@);
        } else {
            verification::unreadable_container(blob@);
        }
    }
    let mut problems: Vec<String> = Vec::new();
    let m: Manifest = match Manifest::parse(blob) {
        Ok(m) => m,
        Err(e) => {
            problems.push(e.message());
            assert(text::texts(problems@) =~= problems_of(blob@));
            return problems;
        },
    };
    let size: usize = blob.len();
    let start: usize = m.leaves_off();
    proof {
        lemma_block_count(blob@);
    }
    let mid: usize = m.payload_off();
    let end: usize = mid + m.payload_size as usize;
    let stored: &[u8] = vstd::slice::slice_subrange(blob, start, mid);
    let payload: &[u8] = vstd::slice::slice_subrange(blob, mid, end);
    let block_size: u32 = m.block_size();

    let leaves: Vec<[u8; 4]> = merkle::leaf_hashes(payload, block_size as usize);
    let recomputed: Vec<u8> = merkle::join(leaves.as_slice());
    note(
        &mut problems,
        same_bytes(recomputed.as_slice(), stored),
        "leaves[] do not match the payload (corruption)",
    );

    let words: Vec<[u8; 4]> = merkle::split_words(stored);
    let root: [u8; 4] = merkle::root(words.as_slice());
    note(&mut problems, same_bytes(&root, &m.merkle_root), "merkle_root mismatch");

    let image_ok: bool = !m.is_full() || same_bytes(&sha256(payload), &m.image_hash);
    note(&mut problems, image_ok, "image_hash mismatch (full image)");

    let signed: &[u8] = vstd::slice::slice_subrange(blob, HEADER_LEN, HEADER_LEN + SIGNED_LEN);
    let signature_ok: bool = !m.is_signed() || ed25519_verify(&m.signer, signed, &m.signature);
    note(&mut problems, signature_ok, "Ed25519 signature INVALID");

    note(
        &mut problems,
        same_bytes(&m.approval, &APPROVAL_NONE),
        "container is pre-approved (must be FF FF FF FF on the wire)",
    );
    assert(text::texts(problems@) =~= problems_of(blob@));
    problems
}

} // verus!
