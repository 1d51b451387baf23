//! The sequential encoder, held to the decoder on a deterministic sweep of inputs.

use motatool::crypto::sha256;
use motatool::decode::{apply_sequential, crle_decompress};
use motatool::encode::bsdiff::bsdiff;
use motatool::encode::crle::{CRLE_REPEATED, CRLE_SCATTERED};
use motatool::encode::search::{matchlen, search};
use motatool::encode::suffix::{suffix_array, suffix_array_with_sentinel};
use motatool::encode::varint::pack_difference;
use motatool::encode::{crle_compress, crle_pack_size, encode_sequential, pack_size};

const LIMIT: usize = 1 << 24;

/// A deterministic byte stream (SplitMix64).
fn prng(seed: u64, n: usize) -> Vec<u8> {
    let mut z = seed;
    (0..n)
        .map(|_| {
            z = z.wrapping_add(0x9E37_79B9_7F4A_7C15);
            let mut x = z;
            x = (x ^ (x >> 30)).wrapping_mul(0xBF58_476D_1CE4_E5B9);
            x = (x ^ (x >> 27)).wrapping_mul(0x94D0_49BB_1331_11EB);
            (x ^ (x >> 31)) as u8
        })
        .collect()
}

/// (name, base, target) cases: identical, scattered edits, insert/delete/append/prepend, truncate/grow,
/// wholly different, empty edges, and a run-heavy image.
fn cases() -> Vec<(String, Vec<u8>, Vec<u8>)> {
    let mut v: Vec<(String, Vec<u8>, Vec<u8>)> = Vec::new();

    for n in [0usize, 1, 2, 3, 7, 15, 64] {
        let b = prng(1000 + n as u64, n);
        v.push((format!("identical/{n}"), b.clone(), b.clone()));
        let mut t = b.clone();
        if !t.is_empty() {
            t[n / 2] ^= 0xFF;
        }
        v.push((format!("one-flip/{n}"), b, t));
    }

    for &n in &[256usize, 1000, 4096, 20000] {
        let base = prng(42 + n as u64, n);

        let mut t = base.clone();
        for k in [0usize, 3, 4, n / 3, n / 2, n - 1] {
            t[k] ^= 0x5A;
        }
        v.push((format!("scattered/{n}"), base.clone(), t));

        let mut t = base.clone();
        t.extend(prng(7, n / 10));
        v.push((format!("append/{n}"), base.clone(), t));

        let mut t = prng(9, n / 10);
        t.extend_from_slice(&base);
        v.push((format!("prepend/{n}"), base.clone(), t));

        let mut t = base[..n / 4].to_vec();
        t.extend_from_slice(&base[n / 2..]);
        v.push((format!("delete-mid/{n}"), base.clone(), t));

        v.push((format!("truncate/{n}"), base.clone(), base[..n / 2].to_vec()));
        let mut t = base.clone();
        t.extend(prng(11, n / 2));
        v.push((format!("grow/{n}"), base.clone(), t));

        v.push((format!("different/{n}"), base.clone(), prng(999 + n as u64, n)));

        v.push((format!("base-empty/{n}"), Vec::new(), base.clone()));
        v.push((format!("target-empty/{n}"), base.clone(), Vec::new()));
    }

    let base = prng(5, 3000);
    let mut t = base.clone();
    for (i, chunk) in t.chunks_mut(50).enumerate() {
        if i % 2 == 0 {
            chunk.fill(0x00);
        }
    }
    v.push(("run-heavy/3000".into(), base, t));

    v
}

fn assert_case(name: &str, base: &[u8], target: &[u8]) {
    let patch = encode_sequential(base, target);
    assert_eq!(
        patch,
        encode_sequential(base, target),
        "[{name}] encoder is not deterministic"
    );
    let decoded = apply_sequential(base, &patch, LIMIT).expect("the patch applies");
    assert_eq!(
        sha256(&decoded),
        sha256(target),
        "[{name}] decoded image hash != target (len {} vs {})",
        decoded.len(),
        target.len()
    );
}

#[test]
fn sequential_encoder_reconstructs_every_case() {
    for (name, base, target) in cases() {
        assert_case(&name, &base, &target);
    }
}

#[test]
fn crle_output_is_a_valid_detools_stream() {
    let mut inputs: Vec<Vec<u8>> = vec![Vec::new(), vec![0u8; 6], vec![0xAA; 1000]];
    inputs.push(prng(1, 500));
    let mut mixed = prng(2, 400);
    mixed.extend(vec![0x11; 40]);
    mixed.extend(prng(3, 400));
    mixed.extend(vec![0x22; 7]);
    inputs.push(mixed);
    for n in [1usize, 5, 6, 7, 100] {
        inputs.push(vec![0x5A; n]);
    }

    for data in inputs {
        let comp = crle_compress(&data);
        let back = crle_decompress(&comp, data.len()).unwrap();
        assert_eq!(back, data, "crle round-trip mismatch (len {})", data.len());
    }
}

#[test]
fn pack_size_matches_examples() {
    assert_eq!(pack_size(0), vec![0x00]);
    assert_eq!(pack_size(1), vec![0x01]);
    assert_eq!(pack_size(-1), vec![0x41]); // sign bit
    assert_eq!(pack_size(0x3f), vec![0x3f]);
    assert_eq!(pack_size(0x40), vec![0x80, 0x01]); // needs a continuation byte
}

#[test]
fn crle_pack_size_examples() {
    assert_eq!(crle_pack_size(0), vec![0x00]);
    assert_eq!(crle_pack_size(1), vec![0x01]);
    assert_eq!(crle_pack_size(0x7f), vec![0x7f]);
    assert_eq!(crle_pack_size(0x80), vec![0x80, 0x01]);
}

#[test]
fn crle_runs_and_scatter() {
    // < 6 repeats stay scattered; >= 6 become one repeated segment.
    let out = crle_compress(&[1, 2, 3]);
    assert_eq!(out, vec![CRLE_SCATTERED, 3, 1, 2, 3]);
    let out = crle_compress(&[7u8; 6]);
    assert_eq!(out, vec![CRLE_REPEATED, 6, 7]);
}

#[test]
fn crle_mixes_segments_in_order() {
    assert_eq!(
        crle_compress(&[1, 2, 9, 9, 9, 9, 9, 9, 9, 3]),
        vec![CRLE_SCATTERED, 2, 1, 2, CRLE_REPEATED, 7, 9, CRLE_SCATTERED, 1, 3]
    );
    assert_eq!(crle_compress(&[4, 4, 4, 4, 4]), vec![CRLE_SCATTERED, 5, 4, 4, 4, 4, 4]);
}

#[test]
fn sizes_with_several_continuation_bytes() {
    assert_eq!(pack_size(0x2000), vec![0x80, 0x80, 0x01]);
    assert_eq!(pack_size(-0x40), vec![0xC0, 0x01]);
    assert_eq!(crle_pack_size(0x4000), vec![0x80, 0x80, 0x01]);
}

#[test]
fn suffixes_in_order() {
    // a, ana, anana, banana, na, nana
    assert_eq!(suffix_array(b"banana"), vec![5, 3, 1, 0, 4, 2]);
    assert_eq!(suffix_array_with_sentinel(b"banana"), vec![6, 5, 3, 1, 0, 4, 2]);
    assert_eq!(suffix_array(b""), Vec::<usize>::new());
    assert_eq!(suffix_array_with_sentinel(b""), vec![0]);
    assert_eq!(suffix_array(b"aaaa"), vec![3, 2, 1, 0]);
}

#[test]
fn a_match_is_found() {
    let from = b"the quick brown fox";
    let sa = suffix_array_with_sentinel(from);
    assert_eq!(matchlen(b"abcd", b"abxd"), 2);
    assert_eq!(search(&sa, from, b"brown bear", 0, from.len()), (6, 10));
    assert_eq!(search(&sa, from, b"zebra", 0, from.len()).0, 0);
}

#[test]
fn a_patch_in_bytes() {
    // Nothing shared: one stretch of literal bytes.
    assert_eq!(
        encode_sequential(b"", b"ab"),
        vec![2, 2, CRLE_SCATTERED, 6, 0, 0, 2, 97, 98, 0]
    );
    assert_eq!(encode_sequential(b"x", b""), vec![2, 0, CRLE_SCATTERED, 1, 0]);
}

#[test]
fn a_stream_is_appended() {
    let mut body = vec![9];
    bsdiff(b"", b"ab", &mut body);
    assert_eq!(body, [9, 0, 2, 97, 98, 0]);
    let mut body = Vec::new();
    bsdiff(b"0123456789abcdef", b"0123456789abcdef", &mut body);
    // One stretch of sixteen equal bytes, nothing literal, and a move of the cursor.
    assert_eq!(body[..18], [16, 0, 0, 0, 0, 0, 0, 0, 0, 0, 0, 0, 0, 0, 0, 0, 0, 0]);
    assert_eq!(body.len(), 19);
    bsdiff(b"abc", b"", &mut body);
    assert_eq!(body.len(), 19);
}

#[test]
fn differences_as_sizes() {
    assert_eq!(pack_difference(5, 0), pack_size(5));
    assert_eq!(pack_difference(0, 5), pack_size(-5));
    assert_eq!(pack_difference(7, 7), [0]);
    assert_eq!(
        pack_difference(0, u64::MAX),
        [0xFF, 0xFF, 0xFF, 0xFF, 0xFF, 0xFF, 0xFF, 0xFF, 0xFF, 0x03]
    );
}

#[test]
fn damaged_patches_do_not_apply() {
    let base = prng(21, 300);
    let mut target = base.clone();
    target[100] ^= 1;
    let patch = encode_sequential(&base, &target);
    assert_eq!(apply_sequential(&base, &patch, LIMIT), Some(target.clone()));
    assert_eq!(apply_sequential(&base, &[], LIMIT), None);
    assert_eq!(apply_sequential(&base, &patch[..patch.len() - 1], LIMIT), None);
    let mut other = patch.clone();
    other[0] = 0x12;
    assert_eq!(apply_sequential(&base, &other, LIMIT), None);
    assert_eq!(apply_sequential(&base, &patch, 10), None);
    assert_eq!(crle_decompress(&[CRLE_REPEATED, 6, 7], 5), None);
    assert_eq!(crle_decompress(&[9], 0), None);
    // A target size and a cursor move beyond all bounds.
    let mut huge = vec![2];
    huge.extend([0xFF; 20]);
    huge.push(1);
    huge.extend([CRLE_SCATTERED, 1, 0]);
    assert_eq!(apply_sequential(&base, &huge, LIMIT), None);
    let mut far = vec![2, 1, CRLE_SCATTERED, 18, 0, 0, 1, 65];
    far.extend([0xFF; 13]);
    far.push(1);
    assert_eq!(apply_sequential(&base, &far, LIMIT), None);
}
