//! Firmware inputs.

use motatool::input::intel_hex::{flat_image, parse_intel_hex, records_in_range, HexError, HexRecord};
use motatool::input::{decode_input, is_hex_name, is_url, InputError};

/// A record with its checksum.
fn record(kind: u8, addr: u16, data: &[u8]) -> String {
    let mut bytes = vec![data.len() as u8, (addr >> 8) as u8, addr as u8, kind];
    bytes.extend_from_slice(data);
    let sum: u8 = bytes.iter().fold(0u8, |a, b| a.wrapping_add(*b));
    bytes.push(sum.wrapping_neg());
    let digits: String = bytes.iter().map(|b| format!("{b:02X}")).collect();
    format!(":{digits}\n")
}

const EOF: &str = ":00000001FF\n";

#[test]
fn urls_and_names() {
    assert!(is_url("http://example.org/a.bin"));
    assert!(is_url("https://example.org"));
    assert!(!is_url("HTTP://example.org"));
    assert!(!is_url("http:/"));
    assert!(!is_url("file.bin"));
    assert!(is_hex_name("a/b.hex"));
    assert!(is_hex_name("FW.HeX"));
    assert!(is_hex_name(".hex"));
    assert!(!is_hex_name("hex"));
    assert!(!is_hex_name("fw.hex.bin"));
    assert!(!is_hex_name("fw_hex"));
}

#[test]
fn other_inputs_are_taken_as_they_are() {
    assert_eq!(decode_input("fw.bin", &[1, 2, 3]), Ok(vec![1, 2, 3]));
    assert_eq!(decode_input("fw.bin", &[]), Err(InputError::Empty));
    assert_eq!(decode_input("fw.hex", &[]), Err(InputError::Empty));
    assert_eq!(decode_input("fw.hex", EOF.as_bytes()), Err(InputError::Hex(HexError::NoData)));
}

#[test]
fn gaps_are_filled() {
    let text = record(4, 0, &[0x00, 0x02]) + &record(0, 0x6000, &[1, 2]) + &record(0, 0x6004, &[3])
        + &record(5, 0, &[0, 2, 0x60, 0]) + EOF;
    assert_eq!(decode_input("fw.HEX", text.as_bytes()), Ok(vec![1, 2, 0xFF, 0xFF, 3]));
}

#[test]
fn later_records_count() {
    let text = record(0, 2, &[9, 9, 9]) + &record(0, 0, &[1, 2, 3]) + &record(0, 4, &[4, 5]) + EOF;
    assert_eq!(parse_intel_hex(text.as_bytes()), Ok(vec![1, 2, 3, 9, 4, 5]));
}

#[test]
fn segment_addresses() {
    let text = record(2, 0, &[0x10, 0x00]) + &record(0, 1, &[7]) + &record(3, 0, &[0, 0, 0, 0])
        + &record(4, 0, &[0x00, 0x01]) + &record(0, 3, &[8]) + EOF + &record(0, 9, &[1]);
    assert_eq!(parse_intel_hex(text.as_bytes()), Ok(vec![7, 0xFF, 8]));
}

#[test]
fn each_way_intel_hex_fails() {
    let data = record(0, 0, &[1]);
    assert_eq!(parse_intel_hex(&[0xFF, 0xFE]), Err(HexError::NotText));
    assert_eq!(parse_intel_hex(b":00000001FE\n"), Err(HexError::Malformed));
    assert_eq!(parse_intel_hex((data.clone() + "nonsense\n").as_bytes()), Err(HexError::Malformed));
    assert_eq!(parse_intel_hex(data.as_bytes()), Err(HexError::MissingEof));
    assert_eq!(parse_intel_hex(b""), Err(HexError::NoData));
    let high = record(4, 0, &[0xFF, 0xFF]) + &record(0, 0xFFFF, &[1]) + EOF;
    assert_eq!(parse_intel_hex(high.as_bytes()), Err(HexError::OutOfRange));
}

#[test]
fn records_without_a_file() {
    let records = [
        HexRecord::Linear(0xFFFF),
        HexRecord::Data { offset: 0xFFFE, value: vec![1] },
        HexRecord::Segment(1),
        HexRecord::Start,
        HexRecord::End,
        HexRecord::Malformed,
    ];
    assert!(records_in_range(&records));
    assert_eq!(flat_image(&records), Ok(vec![1]));
    assert_eq!(flat_image(&records[..4]), Err(HexError::MissingEof));
    assert_eq!(flat_image(&records[5..]), Err(HexError::Malformed));
    assert!(!records_in_range(&[HexRecord::Linear(0xFFFF), HexRecord::Data { offset: 0xFFFF, value: vec![1] }]));
}

#[test]
fn input_errors_in_words() {
    assert_eq!(InputError::Empty.message("a.bin"), "input is empty: a.bin");
    assert_eq!(
        InputError::Hex(HexError::MissingEof).message("a.hex"),
        "parsing Intel HEX: a.hex: Intel HEX missing EOF record"
    );
    assert_eq!(HexError::NotText.message(), "Intel HEX is not valid UTF-8");
    assert_eq!(HexError::Malformed.message(), "malformed Intel HEX record");
    assert_eq!(HexError::NoData.message(), "no data records in Intel HEX");
    assert_eq!(
        HexError::OutOfRange.message(),
        "Intel HEX data reaches beyond the 32-bit address space"
    );
}
