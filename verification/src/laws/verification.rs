//! What verification reports of a container, by its bytes.

use vstd::arithmetic::power2;
use vstd::prelude::*;
use vstd::string::*;

use crate::crypto;
use crate::format::{Manifest, ParseError};
use crate::laws::container;
use crate::laws::reports;
use crate::merkle;
use crate::report;
use crate::report::Verdict;
use crate::text;
use crate::verify;

verus! {

/// Leaf `i` of a container.
pub open spec fn leaf_at(blob: Seq<u8>, i: int) -> Seq<u8> {
    blob.subrange(205 + 4 * i, 209 + 4 * i)
}

/// The leaves of a container.
pub open spec fn leaves_at(blob: Seq<u8>) -> Seq<Seq<u8>> {
    Seq::new(container::stated_count(blob) as nat, |i: int| leaf_at(blob, i))
}

/// The payload of a container.
pub open spec fn payload_at(blob: Seq<u8>) -> Seq<u8> {
    let start = 205 + 4 * container::stated_count(blob);
    blob.subrange(start, start + container::stated_size(blob))
}

/// Block `i` of the payload of a container.
pub open spec fn block_at(blob: Seq<u8>, i: int) -> Seq<u8> {
    let b = container::stated_block(blob);
    payload_at(blob).subrange(i * b, container::smaller((i + 1) * b, container::stated_size(blob)))
}

/// The payload of a container stands behind its leaves and ends before the trailer.
pub proof fn payload_by_bytes(blob: Seq<u8>)
    requires
        crate::format::container_error(blob) is None,
    ensures
        verify::payload_in(blob) == payload_at(blob),
        verify::payload_in(blob) == blob.subrange(
            blob.len() - 5 - container::stated_size(blob),
            blob.len() - 5,
        ),
{
    container::parsing_by_bytes(blob);
    lemma_same_parts(blob);
}

/// Some block does not hash to its leaf.
pub open spec fn some_leaf_is_wrong(blob: Seq<u8>) -> bool {
    exists|i: int|
        0 <= i < container::stated_count(blob) && #[trigger] leaf_at(blob, i) != crypto::sha256_of(
            block_at(blob, i),
        )@.take(4)
}

/// The merkle root field is not the root over the leaves.
pub open spec fn root_is_wrong(blob: Seq<u8>) -> bool {
    merkle::tree_root(leaves_at(blob)) != blob.subrange(28, 32)
}

/// The image hash field of a full image is not the hash of the payload.
pub open spec fn image_is_wrong(blob: Seq<u8>) -> bool {
    blob[9] % 2 == 1 && crypto::sha256_of(payload_at(blob))@ != blob.subrange(32, 64)
}

/// The signature of a signed container does not hold for the first 129 bytes of the manifest under the signer
/// field.
pub open spec fn signature_is_wrong(blob: Seq<u8>) -> bool {
    (blob[9] / 2) % 2 == 1 && !crypto::signature_accepted(
        blob.subrange(105, 137),
        blob.subrange(8, 137),
        blob.subrange(137, 201),
    )
}

/// The approval field is not four bytes 0xFF.
pub open spec fn approval_is_wrong(blob: Seq<u8>) -> bool {
    !(blob[201] == 0xFF && blob[202] == 0xFF && blob[203] == 0xFF && blob[204] == 0xFF)
}

proof fn lemma_bits(f: u8)
    ensures
        f & 1 != 0 <==> f % 2 == 1,
        f & 2 != 0 <==> (f / 2) % 2 == 1,
{
    assert(f & 1 != 0 <==> f % 2 == 1) by (bit_vector);
    assert(f & 2 != 0 <==> (f / 2) % 2 == 1) by (bit_vector);
}

proof fn lemma_same_parts(blob: Seq<u8>)
    requires
        crate::format::container_error(blob) is None,
    ensures
        verify::payload_in(blob) == payload_at(blob),
        merkle::words(verify::leaves_in(blob)) == leaves_at(blob),
        payload_at(blob).len() == container::stated_size(blob),
        verify::leaves_in(blob).len() == 4 * container::stated_count(blob),
{
    container::parsing_by_bytes(blob);
    let stored = verify::leaves_in(blob);
    let n = container::stated_count(blob);
    assert forall|i: int| 0 <= i < n implies #[trigger] merkle::words(stored)[i] == leaf_at(blob, i) by {
        assert(stored.subrange(4 * i, 4 * i + 4) =~= blob.subrange(205 + 4 * i, 209 + 4 * i));
    }
    assert(merkle::words(stored) =~= leaves_at(blob));
}

proof fn lemma_leaves(blob: Seq<u8>)
    requires
        crate::format::container_error(blob) is None,
    ensures
        verify::leaves_match(blob) <==> !some_leaf_is_wrong(blob),
{
    lemma_same_parts(blob);
    container::parsing_by_bytes(blob);
    let payload = payload_at(blob);
    let b = container::stated_block(blob);
    let n = container::stated_count(blob);
    power2::lemma_pow2_pos(blob[27] as nat);
    container::leaves_by_block(payload, b);
    let leaves = merkle::payload_leaves(payload, b);
    assert(leaves.len() == n);
    assert forall|i: int| 0 <= i < n implies #[trigger] leaves[i] == crypto::sha256_of(
        block_at(blob, i),
    )@.take(4) by {}
    assert forall|i: int| 0 <= i < n implies (#[trigger] leaves[i]).len() == 4 by {}
    merkle::words_of_joined(leaves);
    let stored = verify::leaves_in(blob);
    if verify::leaves_match(blob) {
        assert forall|i: int| 0 <= i < n implies #[trigger] leaf_at(blob, i) == crypto::sha256_of(
            block_at(blob, i),
        )@.take(4) by {
            assert(leaves_at(blob)[i] == leaves[i]);
        }
    }
    if !some_leaf_is_wrong(blob) {
        assert forall|i: int| 0 <= i < n implies leaves_at(blob)[i] == #[trigger] leaves[i] by {
            assert(leaf_at(blob, i) == leaves[i]);
        }
        assert(leaves_at(blob) =~= leaves);
        assert forall|j: int| 0 <= j < stored.len() implies stored[j] == #[trigger] merkle::joined(leaves)[j] by {
            let (i, k) = (j / 4, j % 4);
            assert(merkle::words(stored)[i] == stored.subrange(4 * i, 4 * i + 4));
            assert(stored.subrange(4 * i, 4 * i + 4)[k] == stored[4 * i + k]);
            assert(leaves[i][k] == merkle::words(stored)[i][k]);
        }
        assert(merkle::joined(leaves) =~= stored);
    }
}

/// The five texts, no two of which are the same.
proof fn lemma_texts()
    ensures
        ({
            let a = "leaves[] do not match the payload (corruption)"@;
            let b = "merkle_root mismatch"@;
            let c = "image_hash mismatch (full image)"@;
            let d = "Ed25519 signature INVALID"@;
            let e = "container is pre-approved (must be FF FF FF FF on the wire)"@;
            &&& a != b && a != c && a != d && a != e
            &&& b != c && b != d && b != e
            &&& c != d && c != e
            &&& d != e
        }),
{
    reveal_strlit("leaves[] do not match the payload (corruption)");
    reveal_strlit("merkle_root mismatch");
    reveal_strlit("image_hash mismatch (full image)");
    reveal_strlit("Ed25519 signature INVALID");
    reveal_strlit("container is pre-approved (must be FF FF FF FF on the wire)");
    assert("leaves[] do not match the payload (corruption)"@[0] == 'l');
    assert("merkle_root mismatch"@[0] == 'm');
    assert("image_hash mismatch (full image)"@[0] == 'i');
    assert("Ed25519 signature INVALID"@[0] == 'E');
    assert("container is pre-approved (must be FF FF FF FF on the wire)"@[0] == 'c');
}

/// One text, or none.
spec fn noted(text: Seq<char>, bad: bool) -> Seq<Seq<char>> {
    if bad {
        seq![text]
    } else {
        seq![]
    }
}

proof fn lemma_one_more(before: Seq<Seq<char>>, text: Seq<char>, bad: bool, t: Seq<char>)
    ensures
        (before + noted(text, bad)).contains(t) <==> before.contains(t) || (bad && t == text),
        (before + noted(text, bad)).len() == before.len() + if bad {
            1int
        } else {
            0
        },
{
    let all = before + noted(text, bad);
    if before.contains(t) {
        let k = choose|k: int| 0 <= k < before.len() && before[k] == t;
        assert(all[k] == t);
    }
    if bad && t == text {
        assert(all[before.len() as int] == t);
    }
    if all.contains(t) {
        let k = choose|k: int| 0 <= k < all.len() && all[k] == t;
        if k < before.len() {
            assert(before[k] == t);
        }
    }
}

/// A container that can be parsed has the problem that its leaves are wrong if and only if some block does not
/// hash to its leaf; that its merkle root is wrong if and only if the field is not the root over the leaves, for
/// a full image and a delta alike; that its image is wrong if and only if it is full and its payload does not
/// hash to the image hash; that its signature is wrong if and only if it is signed, full or not, and the
/// signature does not hold; and that it is approved if and only if the approval is not four bytes 0xFF. It has
/// no other problem.
pub open spec fn finds(blob: Seq<u8>, problems: Seq<Seq<char>>) -> bool {
    let a = "leaves[] do not match the payload (corruption)"@;
    let b = "merkle_root mismatch"@;
    let c = "image_hash mismatch (full image)"@;
    let d = "Ed25519 signature INVALID"@;
    let e = "container is pre-approved (must be FF FF FF FF on the wire)"@;
    &&& problems.contains(a) <==> some_leaf_is_wrong(blob)
    &&& problems.contains(b) <==> root_is_wrong(blob)
    &&& problems.contains(c) <==> image_is_wrong(blob)
    &&& problems.contains(d) <==> signature_is_wrong(blob)
    &&& problems.contains(e) <==> approval_is_wrong(blob)
    &&& forall|t: Seq<char>| #[trigger] problems.contains(t) ==> t == a || t == b || t == c || t == d || t == e
    &&& problems.len() == 0 <==> !some_leaf_is_wrong(blob) && !root_is_wrong(blob) && !image_is_wrong(blob)
        && !signature_is_wrong(blob) && !approval_is_wrong(blob)
}

/// The problems of a container that can be parsed are those that its bytes show.
pub proof fn problems_by_bytes(blob: Seq<u8>)
    requires
        crate::format::container_error(blob) is None,
    ensures
        finds(blob, verify::problems_of(blob)),
{
    let a = "leaves[] do not match the payload (corruption)"@;
    let b = "merkle_root mismatch"@;
    let c = "image_hash mismatch (full image)"@;
    let d = "Ed25519 signature INVALID"@;
    let e = "container is pre-approved (must be FF FF FF FF on the wire)"@;
    lemma_texts();
    lemma_checks(blob);
    let none: Seq<Seq<char>> = seq![];
    let p1 = none + noted(a, some_leaf_is_wrong(blob));
    let p2 = p1 + noted(b, root_is_wrong(blob));
    let p3 = p2 + noted(c, image_is_wrong(blob));
    let p4 = p3 + noted(d, signature_is_wrong(blob));
    let p5 = p4 + noted(e, approval_is_wrong(blob));
    assert(p5 =~= verify::problems_of(blob));
    lemma_five(blob, a);
    lemma_five(blob, b);
    lemma_five(blob, c);
    lemma_five(blob, d);
    lemma_five(blob, e);
    assert forall|t: Seq<char>| #[trigger] verify::problems_of(blob).contains(t) implies t == a || t == b || t == c
        || t == d || t == e by {
        lemma_five(blob, t);
    }
}

/// A container that cannot be parsed has one problem, in which it is said why.
pub open spec fn refuses(blob: Seq<u8>, problems: Seq<Seq<char>>) -> bool {
    &&& problems.len() == 1
    &&& problems[0] == match crate::format::container_error(blob)->0 {
        ParseError::TooSmall => "too small for a .mota"@,
        ParseError::BadMagic => "bad MAGIC (not a .mota)"@,
        ParseError::WrongTotal => "MOTA_TOTAL_SIZE != file length"@,
        ParseError::BadTrailer => "bad TRAILER"@,
        ParseError::UnsupportedVersion(v) => "unsupported format_ver "@ + text::decimal(blob[8] as nat),
        ParseError::BadBlockSizeOrPayload => "bad block_size/payload"@,
        ParseError::BlockCountOutOfRange => "block_count out of range"@,
        ParseError::WrongGeometry => "geometry (leaves+payload) != file length"@,
    }
}

/// The problem of a container that cannot be parsed is why it cannot.
pub proof fn unreadable_container(blob: Seq<u8>)
    requires
        crate::format::container_error(blob) is Some,
    ensures
        refuses(blob, verify::problems_of(blob)),
{
    container::parsing_by_bytes(blob);
}

/// What is judged of a container is what verification finds, and after that what is wrong with its signer. Nothing
/// is wrong if and only if the container can be parsed, nothing is found, and the key that is asked for, if one
/// is, stands in the signer field of a signed container.
pub proof fn judgements(v: Verdict, blob: Seq<u8>, want: Option<[u8; 32]>)
    requires
        v.judges(blob, want),
    ensures
        ({
            let problems = text::texts(v.problems@);
            let n = verify::problems_of(blob).len() as int;
            &&& v.manifest is Some <==> crate::format::container_error(blob) is None
            &&& n <= problems.len() <= n + 1
            &&& problems.take(n) == verify::problems_of(blob)
            &&& problems.len() == n <==> {
                ||| want is None
                ||| v.manifest is None
                ||| blob[9] / 2 % 2 == 1 && blob.subrange(105, 137) == want->0@
            }
            &&& problems.len() > n ==> problems[n] == if blob[9] / 2 % 2 == 1 {
                "signed by a different key than --pub"@
            } else {
                "not signed (but --pub was given)"@
            }
        }),
{
    let problems = text::texts(v.problems@);
    let n = verify::problems_of(blob).len() as int;
    assert(problems.take(n) =~= verify::problems_of(blob));
    if v.manifest is Some {
        let m = v.manifest->0;
        reports::flags(m);
        assert(m.flags == blob[9]);
        assert(m.signer@ == blob.subrange(105, 137));
    }
}

/// Where a key is asked for, it is a problem if the container is not signed, and if it is signed by another key.
pub proof fn asked_for_a_signer(m: Manifest, key: [u8; 32])
    ensures
        report::signer_problems(m, None).len() == 0,
        ({
            let problems = report::signer_problems(m, Some(key));
            &&& m.flags / 2 % 2 == 0 ==> problems == seq!["not signed (but --pub was given)"@]
            &&& m.flags / 2 % 2 == 1 && (exists|i: int| 0 <= i < 32 && m.signer@[i] != key@[i]) ==> problems
                == seq!["signed by a different key than --pub"@]
            &&& m.flags / 2 % 2 == 1 && (forall|i: int| 0 <= i < 32 ==> m.signer@[i] == key@[i])
                ==> problems.len() == 0
        }),
{
    reports::flags(m);
    if forall|i: int| 0 <= i < 32 ==> m.signer@[i] == key@[i] {
        assert(m.signer@ =~= key@);
    }
}

proof fn lemma_five(blob: Seq<u8>, t: Seq<char>)
    ensures
        ({
            let a = "leaves[] do not match the payload (corruption)"@;
            let b = "merkle_root mismatch"@;
            let c = "image_hash mismatch (full image)"@;
            let d = "Ed25519 signature INVALID"@;
            let e = "container is pre-approved (must be FF FF FF FF on the wire)"@;
            let none: Seq<Seq<char>> = seq![];
            let all = none + noted(a, some_leaf_is_wrong(blob)) + noted(b, root_is_wrong(blob)) + noted(
                c,
                image_is_wrong(blob),
            ) + noted(d, signature_is_wrong(blob)) + noted(e, approval_is_wrong(blob));
            &&& all.contains(t) <==> {
                ||| t == a && some_leaf_is_wrong(blob)
                ||| t == b && root_is_wrong(blob)
                ||| t == c && image_is_wrong(blob)
                ||| t == d && signature_is_wrong(blob)
                ||| t == e && approval_is_wrong(blob)
            }
            &&& all.len() == 0 <==> !some_leaf_is_wrong(blob) && !root_is_wrong(blob) && !image_is_wrong(blob)
                && !signature_is_wrong(blob) && !approval_is_wrong(blob)
        }),
{
    let a = "leaves[] do not match the payload (corruption)"@;
    let b = "merkle_root mismatch"@;
    let c = "image_hash mismatch (full image)"@;
    let d = "Ed25519 signature INVALID"@;
    let e = "container is pre-approved (must be FF FF FF FF on the wire)"@;
    let none: Seq<Seq<char>> = seq![];
    let p1 = none + noted(a, some_leaf_is_wrong(blob));
    let p2 = p1 + noted(b, root_is_wrong(blob));
    let p3 = p2 + noted(c, image_is_wrong(blob));
    let p4 = p3 + noted(d, signature_is_wrong(blob));
    lemma_one_more(none, a, some_leaf_is_wrong(blob), t);
    lemma_one_more(p1, b, root_is_wrong(blob), t);
    lemma_one_more(p2, c, image_is_wrong(blob), t);
    lemma_one_more(p3, d, signature_is_wrong(blob), t);
    lemma_one_more(p4, e, approval_is_wrong(blob), t);
}

proof fn lemma_checks(blob: Seq<u8>)
    requires
        crate::format::container_error(blob) is None,
    ensures
        verify::leaves_match(blob) <==> !some_leaf_is_wrong(blob),
        verify::root_matches(blob) <==> !root_is_wrong(blob),
        verify::image_matches(blob) <==> !image_is_wrong(blob),
        verify::signature_holds(blob) <==> !signature_is_wrong(blob),
        verify::unapproved(blob) <==> !approval_is_wrong(blob),
{
    container::parsing_by_bytes(blob);
    lemma_leaves(blob);
    lemma_same_parts(blob);
    lemma_bits(blob[9]);
    let field = blob.subrange(201, 205);
    let unwritten = crate::format::APPROVAL_NONE@;
    assert(field[0] == blob[201] && field[1] == blob[202] && field[2] == blob[203] && field[3] == blob[204]);
    if !approval_is_wrong(blob) {
        assert(field =~= unwritten);
    }
}

} // verus!
