//! Numbers and addresses on a command line.

use motatool::args::{no_number_message, parse_host_port, parse_u32, parse_u32_auto, target_option};

#[test]
fn numbers_in_two_radices() {
    assert_eq!(parse_u32_auto("0x98000"), Some(0x98000));
    assert_eq!(parse_u32_auto("0XfF"), Some(255));
    assert_eq!(parse_u32_auto(" 4096\n"), Some(4096));
    assert_eq!(parse_u32_auto("+7"), Some(7));
    assert_eq!(parse_u32_auto("0x+7"), Some(7));
    assert_eq!(parse_u32_auto("4294967295"), Some(u32::MAX));
    assert_eq!(parse_u32_auto("0x00000000FFFFFFFF"), Some(u32::MAX));
    assert_eq!(parse_u32("12"), Some(12));
}

#[test]
fn texts_that_are_no_number() {
    for s in ["", "+", "-1", "0x", "0xG", "12a", "4294967296", "0x100000000", "1 2", "++1", "0x-1", "é"] {
        assert_eq!(parse_u32_auto(s), None, "{s:?}");
    }
    assert_eq!(parse_u32(" 12"), None);
    assert_eq!(parse_u32_auto("99999999999999999999999999"), None);
}

#[test]
fn hosts_and_ports() {
    assert_eq!(parse_host_port("192.168.1.50:5001"), Some(("192.168.1.50".into(), 5001)));
    assert_eq!(parse_host_port("node.local"), Some(("node.local".into(), 5001)));
    assert_eq!(parse_host_port("::1:80"), Some(("::1".into(), 80)));
    assert_eq!(parse_host_port(":65535"), Some((String::new(), 65535)));
    assert_eq!(parse_host_port("node:"), None);
    assert_eq!(parse_host_port("node:65536"), None);
    assert_eq!(parse_host_port("node:http"), None);
}

#[test]
fn a_target_by_number_or_name() {
    assert_eq!(target_option(Some("0x04D413FD"), None), Some(Some(0x04D4_13FD)));
    assert_eq!(target_option(Some("7"), Some("abc")), Some(Some(7)));
    assert_eq!(target_option(None, Some("abc")), Some(Some(0xbf16_78ba)));
    assert_eq!(target_option(None, None), Some(None));
    assert_eq!(target_option(Some("seven"), Some("abc")), None);
    assert_eq!(no_number_message(" seven "), "not a valid number: \"seven\"");
    assert_eq!(no_number_message("a\"b\\"), "not a valid number: \"a\\\"b\\\\\"");
}
