//! The container format.

use motatool::format::seeder::{
    request_header_len, OP_BEGIN, OP_COUNT, OP_DESCRIBE, OP_FIN, OP_READ, OP_SREAD, OP_STAT, OP_WRITE,
};
use motatool::format::{arr, cstr, rd_u32, wr_u32, ParseError, NRF52_MAX_INPLACE_MOTA};
use motatool::{build, BuildOpts, Codec, FwIdent, Manifest, PatchType};

fn container() -> Vec<u8> {
    build(&BuildOpts {
        fw: (0..3000u32).map(|i| i as u8).collect(),
        base: None,
        patch_type: PatchType::Sequential,
        inplace_memory: None,
        segment_size: 4096,
        inplace_patch: Vec::new(),
        target_id: Some(0x04D4_13FD),
        fw_version: Some(0x0111_0000),
        hw_id: Some("RAK4631".into()),
        sign_seed: None,
        block_size: 1024,
        force: false,
    })
    .unwrap()
    .bytes
}

fn error_of(blob: &[u8]) -> ParseError {
    Manifest::parse(blob).unwrap_err()
}

#[test]
fn fields_read_back() {
    let blob = container();
    let m = Manifest::parse(&blob).unwrap();
    assert_eq!((m.format_ver, m.flags, m.hash_algo, m.codec_id), (2, 1, 0x12, 0));
    assert_eq!((m.image_size, m.payload_size, m.block_size_log2), (3056, 3056, 10));
    assert_eq!((m.block_size(), m.block_count), (1024, 3));
    assert_eq!((m.leaves_off(), m.payload_off(), m.total_size()), (205, 217, 3278));
    assert_eq!(m.approval, [0xFF; 4]);
    assert_eq!((m.base_hash, m.signer, m.signature), ([0; 8], [0; 32], [0; 64]));
    assert_eq!(m.codec(), Some(Codec::Full));
    assert!(!m.is_approved());
}

#[test]
fn each_way_a_container_is_unreadable() {
    let good = container();
    assert_eq!(error_of(&good[..209]), ParseError::TooSmall);
    assert_eq!(error_of(&good[..210]), ParseError::WrongTotal);

    let mut bad = good.clone();
    bad[0] ^= 1;
    assert_eq!(error_of(&bad), ParseError::BadMagic);

    let mut bad = good.clone();
    let last = bad.len() - 1;
    bad[last] ^= 1;
    assert_eq!(error_of(&bad), ParseError::BadTrailer);

    let mut bad = good.clone();
    bad[8] = 1;
    assert_eq!(error_of(&bad), ParseError::UnsupportedVersion(1));
    assert_eq!(error_of(&bad).message(), "unsupported format_ver 1");

    for log2 in [0, 25] {
        let mut bad = good.clone();
        bad[8 + 19] = log2;
        assert_eq!(error_of(&bad), ParseError::BadBlockSizeOrPayload);
    }
    let mut bad = good.clone();
    wr_u32(&mut bad, 8 + 15, 0);
    assert_eq!(error_of(&bad), ParseError::BadBlockSizeOrPayload);

    let mut bad = good.clone();
    wr_u32(&mut bad, 8 + 15, 0x0400_0000);
    assert_eq!(error_of(&bad), ParseError::BlockCountOutOfRange);

    let mut bad = good.clone();
    bad[8 + 19] = 11;
    assert_eq!(error_of(&bad), ParseError::WrongGeometry);
}

#[test]
fn errors_in_words() {
    assert_eq!(ParseError::TooSmall.message(), "too small for a .mota");
    assert_eq!(ParseError::BadMagic.message(), "bad MAGIC (not a .mota)");
    assert_eq!(ParseError::WrongTotal.message(), "MOTA_TOTAL_SIZE != file length");
    assert_eq!(ParseError::BadTrailer.message(), "bad TRAILER");
    assert_eq!(ParseError::UnsupportedVersion(255).message(), "unsupported format_ver 255");
    assert_eq!(ParseError::BadBlockSizeOrPayload.message(), "bad block_size/payload");
    assert_eq!(ParseError::BlockCountOutOfRange.message(), "block_count out of range");
    assert_eq!(
        ParseError::WrongGeometry.message(),
        "geometry (leaves+payload) != file length"
    );
}

#[test]
fn numbers_are_little_endian() {
    let mut buf = [0xEE; 6];
    wr_u32(&mut buf, 1, 0x0102_0304);
    assert_eq!(buf, [0xEE, 4, 3, 2, 1, 0xEE]);
    assert_eq!(rd_u32(&buf, 1), 0x0102_0304);
    assert_eq!(rd_u32(&[0xFF; 4], 0), u32::MAX);
    assert_eq!(arr::<3>(&buf, 2), [3, 2, 1]);
}

#[test]
fn text_fields_end_at_a_nul() {
    assert_eq!(cstr(b"RAK\0\0\0"), "RAK");
    assert_eq!(cstr(b"\0x"), "");
    assert_eq!(cstr(b"full"), "full");
    assert_eq!(cstr("é\0".as_bytes()), "é");
    assert_eq!(cstr(&[0x41, 0xFF]), "A\u{FFFD}");
}

#[test]
fn codecs_and_their_names() {
    for (id, codec, label, tag) in [
        (0, Codec::Full, "full", "full"),
        (1, Codec::DetoolsSequential, "detools-sequential", "seqdelta"),
        (2, Codec::DetoolsInplace, "detools-in-place", "ipdelta"),
    ] {
        assert_eq!(Codec::from_u8(id), Some(codec));
        assert_eq!(codec.to_u8(), id);
        assert_eq!(codec.label(), label);
        assert_eq!(codec.name_tag(), tag);
    }
    assert_eq!(Codec::from_u8(3), None);
}

#[test]
fn identities_that_say_something() {
    assert!(!FwIdent::default().any());
    assert!(FwIdent { fw_version: 1, ..FwIdent::default() }.any());
    assert!(FwIdent { target_id: 1, ..FwIdent::default() }.any());
    assert!(FwIdent { hw_id: "x".into(), ..FwIdent::default() }.any());
}

#[test]
fn seeder_requests() {
    let lens: Vec<Option<usize>> = [
        OP_COUNT, OP_DESCRIBE, OP_READ, OP_STAT, OP_BEGIN, OP_WRITE, OP_SREAD, OP_FIN, 0, 9,
    ]
    .iter()
    .map(|&op| request_header_len(op))
    .collect();
    assert_eq!(
        lens,
        [Some(0), Some(1), Some(7), Some(4), Some(8), Some(10), Some(10), Some(4), None, None]
    );
    assert_eq!(NRF52_MAX_INPLACE_MOTA, 0xAE000 - 0x98000);
}
