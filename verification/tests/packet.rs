use rxdp::error::ParseError;
use rxdp::packet::{
    ipv4_checksum, ones_complement_fold, parse_udp, sum16, udp_checksum, Ipv4Addr, MacAddr,
    UdpFrame, ETH_HDR_LEN, HDR_OVERHEAD, IPV4_HDR_LEN,
};

fn sample() -> UdpFrame<'static> {
    UdpFrame {
        dst_mac: MacAddr::new([0x52, 0x54, 0x00, 0x11, 0x22, 0x33]),
        src_mac: MacAddr::new([0x52, 0x54, 0x00, 0xaa, 0xbb, 0xcc]),
        src_ip: Ipv4Addr::new(10, 11, 0, 1),
        dst_ip: Ipv4Addr::new(10, 11, 0, 2),
        src_port: 40000,
        dst_port: 8001,
        ttl: 64,
        ip_id: 0x1234,
        payload: b"solana-shred-payload",
    }
}

#[test]
fn ipv4_checksum_known_vector() {
    // Classic worked example from many networking texts. Header with the
    // checksum field zeroed; expected checksum is 0xb861.
    let hdr = [
        0x45u8, 0x00, 0x00, 0x73, 0x00, 0x00, 0x40, 0x00, 0x40, 0x11, 0x00, 0x00, 0xc0, 0xa8, 0x00,
        0x01, 0xc0, 0xa8, 0x00, 0xc7,
    ];
    assert_eq!(ipv4_checksum(&hdr), 0xb861);
}

#[test]
fn ipv4_checksum_is_self_verifying() {
    // A correct IPv4 header (checksum field included) sums to 0 under the
    // one's-complement sum — receivers rely on this property.
    let frame = sample().encode();
    let ip = &frame[ETH_HDR_LEN..ETH_HDR_LEN + IPV4_HDR_LEN];
    let folded = ones_complement_fold(sum16(ip, 0));
    assert_eq!(folded, 0, "valid IPv4 header must checksum to zero");
}

#[test]
fn roundtrip_build_then_parse() {
    let frame = sample().encode();
    let dg = parse_udp(&frame).expect("should parse our own frame");

    assert_eq!(dg.dst_mac, sample().dst_mac);
    assert_eq!(dg.src_mac, sample().src_mac);
    assert_eq!(dg.src_ip, Ipv4Addr::new(10, 11, 0, 1));
    assert_eq!(dg.dst_ip, Ipv4Addr::new(10, 11, 0, 2));
    assert_eq!(dg.src_port, 40000);
    assert_eq!(dg.dst_port, 8001);
    assert_eq!(dg.payload, b"solana-shred-payload");
}

#[test]
fn encoded_len_matches_written() {
    let f = sample();
    let mut buf = vec![0u8; 2048];
    let n = f.encode_into(&mut buf);
    assert_eq!(n, f.encoded_len());
    assert_eq!(n, HDR_OVERHEAD + f.payload.len());
}

#[test]
fn parse_rejects_non_ipv4() {
    let mut frame = sample().encode();
    // Corrupt the ethertype to ARP (0x0806).
    frame[12..14].copy_from_slice(&0x0806u16.to_be_bytes());
    assert_eq!(parse_udp(&frame), Err(ParseError::NotIpv4(0x0806)));
}

#[test]
fn parse_rejects_non_udp() {
    let mut frame = sample().encode();
    // Set IPv4 protocol to TCP (6).
    frame[ETH_HDR_LEN + 9] = 6;
    // Re-fix the IPv4 checksum so we fail on protocol, not length/csum.
    frame[ETH_HDR_LEN + 10..ETH_HDR_LEN + 12].copy_from_slice(&[0, 0]);
    let csum = ipv4_checksum(&frame[ETH_HDR_LEN..ETH_HDR_LEN + IPV4_HDR_LEN]);
    frame[ETH_HDR_LEN + 10..ETH_HDR_LEN + 12].copy_from_slice(&csum.to_be_bytes());
    assert_eq!(parse_udp(&frame), Err(ParseError::NotUdp(6)));
}

#[test]
fn parse_rejects_truncated() {
    let frame = [0u8; 10];
    assert_eq!(
        parse_udp(&frame),
        Err(ParseError::TooShort {
            needed: ETH_HDR_LEN,
            got: 10
        })
    );
}

#[test]
fn empty_payload_is_valid() {
    let mut f = sample();
    f.payload = b"";
    let frame = f.encode();
    let dg = parse_udp(&frame).unwrap();
    assert_eq!(dg.payload, b"");
}

#[test]
fn udp_checksum_zero_becomes_all_ones() {
    // We don't easily force a true-zero checksum, but we can assert the
    // function never returns 0 for our sample (the reserved value).
    let frame = sample().encode();
    let udp_off = ETH_HDR_LEN + IPV4_HDR_LEN;
    let csum = u16::from_be_bytes([frame[udp_off + 6], frame[udp_off + 7]]);
    assert_ne!(csum, 0, "UDP checksum 0 must be transmitted as 0xffff");
}

#[test]
fn encoding_is_exact() {
    let f = UdpFrame {
        payload: b"abc",
        ..sample()
    };
    let expected: Vec<u8> = vec![
        // Ethernet
        0x52, 0x54, 0x00, 0x11, 0x22, 0x33, 0x52, 0x54, 0x00, 0xaa, 0xbb, 0xcc, 0x08, 0x00,
        // IPv4
        0x45, 0x00, 0x00, 0x1f, 0x12, 0x34, 0x40, 0x00, 0x40, 0x11, 0x14, 0x82, 0x0a, 0x0b, 0x00,
        0x01, 0x0a, 0x0b, 0x00, 0x02, // UDP
        0x9c, 0x40, 0x1f, 0x41, 0x00, 0x0b, 0x6b, 0xdb, b'a', b'b', b'c',
    ];
    assert_eq!(f.encode(), expected);
}

#[test]
fn encode_into_leaves_the_rest_of_the_buffer() {
    let f = sample();
    let mut buf = vec![0xeeu8; f.encoded_len() + 3];
    let n = f.encode_into(&mut buf);
    assert_eq!(&buf[..n], &f.encode()[..]);
    assert_eq!(&buf[n..], &[0xee, 0xee, 0xee]);
}

#[test]
fn computed_zero_udp_checksum_is_sent_as_all_ones() {
    // With these addresses the pseudo-header sums to 17 + 2; the datagram makes
    // up the rest of 0xffff.
    let zero = Ipv4Addr::new(0, 0, 0, 0);
    let rest: u16 = 0xffff - 19;
    assert_eq!(udp_checksum(zero, zero, &rest.to_be_bytes()), 0xffff);
    assert_eq!(udp_checksum(zero, zero, &(rest - 1).to_be_bytes()), 1);
}

#[test]
fn udp_part_is_self_verifying() {
    for payload in [&b""[..], &b"x"[..], &b"xy"[..], &b"odd"[..]] {
        let f = UdpFrame {
            payload,
            ..sample()
        };
        let frame = f.encode();
        let udp = &frame[ETH_HDR_LEN + IPV4_HDR_LEN..];
        let mut sum = sum16(&f.src_ip.octets(), 0);
        sum = sum16(&f.dst_ip.octets(), sum);
        sum += 17 + udp.len() as u32;
        assert_eq!(ones_complement_fold(sum16(udp, sum)), 0);
    }
}

#[test]
fn sum16_pads_an_odd_byte() {
    assert_eq!(sum16(&[], 7), 7);
    assert_eq!(sum16(&[0x12], 0), 0x1200);
    assert_eq!(sum16(&[0x12, 0x34, 0x56], 1), 0x1234 + 0x5600 + 1);
}

#[test]
fn fold_wraps_carries_around() {
    assert_eq!(ones_complement_fold(0), 0xffff);
    assert_eq!(ones_complement_fold(0xffff), 0);
    assert_eq!(ones_complement_fold(0x1_0000), 0xfffe);
    assert_eq!(ones_complement_fold(0xffff_ffff), 0);
    assert_eq!(ones_complement_fold(0x0001_ffff), 0xfffe);
}

#[test]
fn each_missing_header_is_too_short() {
    let frame = sample().encode();
    assert_eq!(
        parse_udp(&frame[..33]),
        Err(ParseError::TooShort {
            needed: 34,
            got: 33
        })
    );
    assert_eq!(
        parse_udp(&frame[..41]),
        Err(ParseError::TooShort {
            needed: 42,
            got: 41
        })
    );
    let mut long_ip = frame[..50].to_vec();
    long_ip[14] = 0x4f; // 15 words
    assert_eq!(
        parse_udp(&long_ip),
        Err(ParseError::TooShort {
            needed: 74,
            got: 50
        })
    );
}

#[test]
fn bad_ihl_is_rejected() {
    let mut frame = sample().encode();
    frame[14] = 0x44;
    assert_eq!(parse_udp(&frame), Err(ParseError::BadIhl(4)));
}

#[test]
fn other_ip_versions_are_rejected() {
    let mut frame = sample().encode();
    for version in 0..16u8 {
        frame[14] = version * 16 + 5;
        if version == 4 {
            assert!(parse_udp(&frame).is_ok());
        } else {
            assert_eq!(parse_udp(&frame), Err(ParseError::BadVersion(version)));
        }
    }
    // The version comes before the header length and the protocol.
    frame[14] = 0x64;
    frame[23] = 6;
    assert_eq!(parse_udp(&frame), Err(ParseError::BadVersion(6)));
}

#[test]
fn ip_options_are_skipped() {
    let frame = sample().encode();
    let mut with_options = frame[..34].to_vec();
    with_options[14] = 0x46;
    with_options.extend_from_slice(&[1, 1, 1, 0]);
    with_options.extend_from_slice(&frame[34..]);
    let dg = parse_udp(&with_options).unwrap();
    assert_eq!(dg.src_port, 40000);
    assert_eq!(dg.payload, b"solana-shred-payload");
}

#[test]
fn padding_after_the_datagram_is_dropped() {
    let mut frame = sample().encode();
    frame.extend_from_slice(&[0; 18]);
    let dg = parse_udp(&frame).unwrap();
    assert_eq!(dg.payload, b"solana-shred-payload");
}

#[test]
fn udp_length_is_clamped_to_the_frame() {
    let mut frame = sample().encode();
    frame[38..40].copy_from_slice(&0xffffu16.to_be_bytes());
    assert_eq!(parse_udp(&frame).unwrap().payload, b"solana-shred-payload");
    frame[38..40].copy_from_slice(&3u16.to_be_bytes());
    assert_eq!(parse_udp(&frame).unwrap().payload, b"");
    frame[38..40].copy_from_slice(&14u16.to_be_bytes());
    assert_eq!(parse_udp(&frame).unwrap().payload, b"solana");
}

#[test]
fn largest_payload_of_the_length_field_survives() {
    let payload = vec![0xa5u8; 65527];
    let f = UdpFrame {
        payload: &payload,
        ..sample()
    };
    let frame = f.encode();
    assert_eq!(parse_udp(&frame).unwrap().payload, &payload[..]);
}

#[test]
fn longer_payload_wraps_the_length_field() {
    let payload = vec![0xa5u8; 65528];
    let f = UdpFrame {
        payload: &payload,
        ..sample()
    };
    let frame = f.encode();
    assert_eq!(&frame[38..40], &[0, 0]);
    assert_eq!(parse_udp(&frame).unwrap().payload, b"");
}

#[test]
fn broadcast_is_all_ones() {
    assert_eq!(MacAddr::broadcast(), MacAddr::new([0xff; 6]));
}
