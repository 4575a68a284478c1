use rxdp::addr::{Ipv4Addr, MacAddr};
use rxdp::packet::{parse_udp, UdpFrame};

#[test]
fn ip_text_is_dotted_decimal() {
    assert_eq!(Ipv4Addr::new(10, 11, 0, 1).to_string(), "10.11.0.1");
    assert_eq!(Ipv4Addr::new(0, 9, 99, 100).to_string(), "0.9.99.100");
    assert_eq!(Ipv4Addr::new(255, 205, 250, 10).to_string(), "255.205.250.10");
}

#[test]
fn ip_text_of_every_octet() {
    for octet in 0..=255u8 {
        let other = 255 - octet;
        assert_eq!(
            Ipv4Addr::new(octet, other, 0, octet).to_string(),
            format!("{octet}.{other}.0.{octet}")
        );
    }
}

#[test]
fn debug_of_a_mac_is_its_text() {
    let mac = MacAddr::new([0x52, 0x54, 0x00, 0x1a, 0xbb, 0xf0]);
    assert_eq!(format!("{mac:?}"), "52:54:00:1a:bb:f0");
    assert_eq!(format!("<{mac:?}>"), "<52:54:00:1a:bb:f0>");
    assert_eq!(format!("{mac:20?}"), "52:54:00:1a:bb:f0");
    assert_eq!(format!("{mac:#?}"), "52:54:00:1a:bb:f0");
}

#[test]
fn debug_of_an_ip_is_its_text() {
    let ip = Ipv4Addr::new(10, 11, 0, 1);
    assert_eq!(format!("{ip:?}"), "10.11.0.1");
    assert_eq!(format!("{ip:#?}"), "10.11.0.1");
    assert_eq!(format!("{ip:12?}"), "10.11.0.1   ");
    assert_eq!(format!("{ip:*>12?}"), "***10.11.0.1");
}

#[test]
fn debug_of_a_datagram_shows_address_texts() {
    let frame = UdpFrame {
        dst_mac: MacAddr::broadcast(),
        src_mac: MacAddr::new([2, 0, 0, 0, 0, 1]),
        src_ip: Ipv4Addr::new(10, 11, 0, 1),
        dst_ip: Ipv4Addr::new(10, 11, 0, 2),
        src_port: 40000,
        dst_port: 8001,
        ttl: 64,
        ip_id: 0,
        payload: b"\x01",
    }
    .encode();
    assert_eq!(
        format!("{:?}", parse_udp(&frame).unwrap()),
        "UdpDatagram { dst_mac: ff:ff:ff:ff:ff:ff, src_mac: 02:00:00:00:00:01, \
         src_ip: 10.11.0.1, dst_ip: 10.11.0.2, src_port: 40000, dst_port: 8001, payload: [1] }"
    );
}
