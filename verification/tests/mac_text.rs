use rxdp::addr::MacAddr;
use rxdp::mac_text::parse_mac;

#[test]
fn text_is_lower_case_with_colons() {
    let mac = MacAddr::new([0x52, 0x54, 0x00, 0x1a, 0xbb, 0xf0]);
    assert_eq!(mac.to_string(), "52:54:00:1a:bb:f0");
    assert_eq!(MacAddr::broadcast().to_string(), "ff:ff:ff:ff:ff:ff");
}

#[test]
fn text_parses_back() {
    for octets in [[0u8; 6], [0xff; 6], [0, 1, 0x10, 0x9f, 0xa0, 0xfe]] {
        let mac = MacAddr::new(octets);
        assert_eq!(parse_mac(mac.to_string().as_bytes()), Some(mac));
    }
}

#[test]
fn short_and_signed_groups_parse() {
    assert_eq!(
        parse_mac(b"1:2:A:+f:00ff:0"),
        Some(MacAddr::new([1, 2, 10, 15, 255, 0]))
    );
}

#[test]
fn malformed_text_is_rejected() {
    for text in [
        &b""[..],
        b"52:54:00:11:22",
        b"52:54:00:11:22:33:44",
        b"52:54:00:11:22:",
        b"52:54::11:22:33",
        b"52:54:00:11:22:333",
        b"52:54:00:11:22:g3",
        b"52:54:00:11:22:-3",
        b"52:54:00:11:22:+",
        b"52:54:00:11:22:++3",
        b"52-54-00-11-22-33",
        b" 52:54:00:11:22:33",
    ] {
        assert_eq!(parse_mac(text), None);
    }
}
