use rxdp::config::XdpConfig;
use rxdp::error::{ConfigError, XdpError};
use rxdp::packet::{parse_udp, Ipv4Addr, MacAddr, UdpFrame};
use rxdp::socket::{umem_frames, XdpSocket};

fn config() -> XdpConfig {
    XdpConfig {
        frame_count: 64,
        rx_batch_size: 4,
        tx_batch_size: 4,
        ..XdpConfig::new("veth0")
    }
}

fn datagram(payload: &[u8]) -> UdpFrame<'_> {
    UdpFrame {
        dst_mac: MacAddr::new([2, 0, 0, 0, 0, 2]),
        src_mac: MacAddr::new([2, 0, 0, 0, 0, 1]),
        src_ip: Ipv4Addr::new(10, 11, 0, 1),
        dst_ip: Ipv4Addr::new(10, 11, 0, 2),
        src_port: 40000,
        dst_port: 8001,
        ttl: 64,
        ip_id: 77,
        payload,
    }
}

/// The address at which the data of a frame starts.
fn addr(frame: usize) -> usize {
    frame * 2048 + 256
}

/// Take a frame through staging and the TX ring; returns its number.
fn send(socket: &mut XdpSocket) -> usize {
    let (slot, _) = socket.stage_send(&datagram(b"x")).unwrap();
    assert!(socket.send_accepted(1));
    slot
}

#[test]
fn bind_reports_configuration_errors() {
    let error = XdpSocket::bind(XdpConfig::default()).err().unwrap();
    assert!(matches!(
        error,
        XdpError::Config(ConfigError::EmptyInterface)
    ));
}

#[test]
fn bind_rejects_a_count_beyond_32_bits() {
    let cfg = XdpConfig {
        frame_count: 1 << 33,
        ..XdpConfig::new("veth0")
    };
    match XdpSocket::bind(cfg) {
        Err(XdpError::Transport(reason)) => assert_eq!(reason, "frame_count must be non-zero"),
        _ => panic!("expected a transport error"),
    }
}

#[test]
fn umem_frames_keeps_32_bits() {
    assert!(matches!(umem_frames(&config()), Ok(64)));
    let wide = XdpConfig {
        frame_count: (1 << 32) + 5,
        ..config()
    };
    assert!(matches!(umem_frames(&wide), Ok(5)));
    let none = XdpConfig {
        frame_count: 0,
        ..config()
    };
    assert!(matches!(umem_frames(&none), Err(XdpError::Transport(_))));
}

#[test]
fn new_socket_charges_the_whole_rx_pool() {
    let mut socket = XdpSocket::bind(config()).unwrap();
    assert_eq!(socket.to_fill(), (0, 32));
    socket.filled(0);
    assert_eq!(socket.to_fill(), (0, 32));
    socket.filled(20);
    assert_eq!(socket.to_fill(), (20, 32));
    socket.filled(12);
    assert_eq!(socket.to_fill(), (32, 32));
    assert_eq!(socket.free_tx_frames(), 32);
    assert_eq!(socket.completion_room(), 0);
}

#[test]
fn received_frames_go_back_to_the_fill_ring() {
    let mut socket = XdpSocket::bind(config()).unwrap();
    socket.filled(32);
    assert_eq!(socket.recv_limit(), 4);
    assert_eq!(socket.recv_batch(&[addr(3), addr(0), addr(9)]), 3);
    assert_eq!(socket.to_fill(), (0, 3));
    socket.filled(2);
    assert_eq!(socket.to_fill(), (2, 3));
    socket.filled(99);
    assert_eq!(socket.to_fill(), (3, 3));
    assert_eq!(socket.recv_batch(&[]), 0);
    assert_eq!(socket.to_fill(), (0, 0));
    assert_eq!(socket.free_tx_frames(), 32);
}

#[test]
fn payload_is_limited_by_the_frame() {
    let socket = XdpSocket::bind(config()).unwrap();
    assert!(socket.check_payload(2006).is_ok());
    assert!(matches!(
        socket.check_payload(2007),
        Err(XdpError::PayloadTooLarge {
            payload: 2007,
            capacity: 2006
        })
    ));
}

#[test]
fn largest_accepted_payload_encodes_and_parses() {
    let payload = vec![0x5au8; 2006];
    let mut socket = XdpSocket::bind(config()).unwrap();
    assert!(socket.check_payload(payload.len()).is_ok());
    let (_, spec) = socket.stage_send(&datagram(&payload)).unwrap();
    assert_eq!(spec.encoded_len(), 2048);
    let frame = spec.encode();
    assert_eq!(parse_udp(&frame).unwrap().payload, &payload[..]);
}

#[test]
fn staging_stamps_consecutive_identifications() {
    let mut socket = XdpSocket::bind(config()).unwrap();
    for n in 0..32u16 {
        let (slot, spec) = socket.stage_send(&datagram(b"hello")).unwrap();
        assert_eq!(slot, 63 - n as usize);
        assert_eq!(spec.ip_id, n);
        assert_eq!(spec.payload, b"hello");
        assert_eq!(spec.dst_port, 8001);
        assert_eq!(spec.ttl, 64);
        assert!(socket.send_accepted(1));
    }
}

#[test]
fn identifications_wrap_around() {
    let mut socket = XdpSocket::bind(config()).unwrap();
    let mut last = 0;
    for _ in 0..=0x1_0000u32 {
        let (slot, spec) = socket.stage_send(&datagram(b"")).unwrap();
        last = spec.ip_id;
        socket.send_accepted(1);
        socket.reclaim_completions(&[addr(slot)]);
    }
    assert_eq!(last, 0);
}

#[test]
fn exhausted_pool_has_no_free_frames() {
    let mut socket = XdpSocket::bind(config()).unwrap();
    for _ in 0..32 {
        send(&mut socket);
    }
    assert_eq!(socket.free_tx_frames(), 0);
    assert_eq!(socket.completion_room(), 32);
    assert!(matches!(
        socket.stage_send(&datagram(b"x")),
        Err(XdpError::NoFreeFrames)
    ));
    // The failed attempt used up no identification.
    socket.reclaim_completions(&[addr(63)]);
    let (slot, spec) = socket.stage_send(&datagram(b"x")).unwrap();
    assert_eq!(slot, 63);
    assert_eq!(spec.ip_id, 32);
}

#[test]
fn refused_frame_stays_staged() {
    let mut socket = XdpSocket::bind(config()).unwrap();
    socket.stage_send(&datagram(b"x")).unwrap();
    assert!(!socket.send_accepted(0));
    assert_eq!(socket.completion_room(), 0);
    assert!(socket.send_accepted(1));
    assert_eq!(socket.completion_room(), 1);
    assert_eq!(socket.free_tx_frames(), 31);
}

#[test]
fn only_completed_frames_become_free() {
    let mut socket = XdpSocket::bind(config()).unwrap();
    let first = send(&mut socket);
    let second = send(&mut socket);
    let third = send(&mut socket);
    // The kernel is done with the second one only.
    assert_eq!(socket.reclaim_completions(&[addr(second)]), 1);
    assert_eq!(socket.free_tx_frames(), 30);
    assert_eq!(socket.completion_room(), 2);
    // The next send may use that frame, never one still in flight.
    let next = send(&mut socket);
    assert_eq!(next, second);
    assert_ne!(next, first);
    assert_ne!(next, third);
}

#[test]
fn full_completion_restores_the_free_list() {
    let mut socket = XdpSocket::bind(config()).unwrap();
    let slots = [send(&mut socket), send(&mut socket), send(&mut socket)];
    assert_eq!(slots, [63, 62, 61]);
    let done = [addr(63), addr(62), addr(61)];
    assert_eq!(socket.reclaim_completions(&done), 3);
    assert_eq!(socket.completion_room(), 0);
    assert_eq!(socket.free_tx_frames(), 32);
    assert_eq!(send(&mut socket), 63);
    assert_eq!(send(&mut socket), 62);
    assert_eq!(send(&mut socket), 61);
}

#[test]
fn failed_frame_is_out_of_use_until_completed() {
    let mut socket = XdpSocket::bind(config()).unwrap();
    let (slot, _) = socket.stage_send(&datagram(b"x")).unwrap();
    match socket.send_failed("tx: gone".to_string()) {
        XdpError::Transport(reason) => assert_eq!(reason, "tx: gone"),
        _ => panic!("expected a transport error"),
    }
    assert_eq!(socket.free_tx_frames(), 31);
    assert_eq!(socket.completion_room(), 0);
    let other = send(&mut socket);
    assert_ne!(other, slot);
    assert_eq!(socket.reclaim_completions(&[addr(slot)]), 1);
    assert_eq!(socket.free_tx_frames(), 31);
    assert_eq!(socket.completion_room(), 1);
}

#[test]
fn configuration_is_kept() {
    let socket = XdpSocket::bind(config()).unwrap();
    assert_eq!(socket.config().if_name, "veth0");
    assert_eq!(socket.config().poll_timeout_ms, 100);
}

#[test]
fn no_frame_is_handed_out_twice_over_a_long_history() {
    let mut socket = XdpSocket::bind(config()).unwrap();
    socket.filled(32);
    let mut with_kernel: Vec<usize> = Vec::new();
    let mut stranded = 0;
    let mut seed: usize = 1;
    for round in 0..5000usize {
        seed = seed.wrapping_mul(1_103_515_245).wrapping_add(12_345) % (1 << 31);
        if (seed >> 8) % 3 != 0 {
            match socket.stage_send(&datagram(b"x")) {
                Ok((slot, _)) => {
                    assert!((32..64).contains(&slot));
                    assert!(!with_kernel.contains(&slot), "frame is still in flight");
                    with_kernel.push(slot);
                    if round % 997 == 500 {
                        socket.send_failed("tx: refused".to_string());
                        stranded += 1;
                    } else {
                        assert!(socket.send_accepted(1));
                    }
                }
                Err(_) => assert_eq!(with_kernel.len(), 32),
            }
        } else if socket.completion_room() > 0 {
            // The kernel completes one of the frames, not always the oldest.
            let at = (seed >> 12) % with_kernel.len();
            let done = with_kernel.remove(at);
            let before = socket.completion_room();
            assert_eq!(socket.reclaim_completions(&[addr(done)]), 1);
            if socket.completion_room() == before {
                stranded -= 1;
            }
        }
        assert_eq!(socket.free_tx_frames() + with_kernel.len(), 32);
        assert_eq!(
            socket.free_tx_frames() + socket.completion_room() + stranded,
            32
        );
    }
}

#[test]
fn completed_frames_serve_the_datagram_at_hand() {
    let mut socket = XdpSocket::bind(config()).unwrap();
    for _ in 0..32 {
        send(&mut socket);
    }
    assert!(matches!(
        socket.begin_send(&datagram(b"x"), &[]),
        Err(XdpError::NoFreeFrames)
    ));
    assert_eq!(socket.free_tx_frames(), 0);
    assert_eq!(socket.completion_room(), 32);
    // Two complete; the first of them is used next, as it was reclaimed last.
    let (slot, spec) = socket
        .begin_send(&datagram(b"late"), &[addr(40), addr(50)])
        .unwrap();
    assert_eq!(slot, 40);
    assert_eq!(spec.ip_id, 32);
    assert_eq!(spec.payload, b"late");
    assert_eq!(socket.free_tx_frames(), 1);
    assert_eq!(socket.completion_room(), 30);
    assert!(socket.send_accepted(1));
    assert_eq!(socket.completion_room(), 31);
}

#[test]
fn begin_send_uses_the_free_list_without_completions() {
    let mut socket = XdpSocket::bind(config()).unwrap();
    let (slot, spec) = socket.begin_send(&datagram(b"x"), &[]).unwrap();
    assert_eq!((slot, spec.ip_id), (63, 0));
    assert!(socket.send_accepted(1));
    assert_eq!(socket.free_tx_frames(), 31);
}

#[test]
fn identification_counter_changes_nothing_else() {
    let mut socket = XdpSocket::bind(config()).unwrap();
    for expected in (0..=0xffffu16).chain([0, 1]) {
        assert_eq!(socket.next_ip_id(), expected);
    }
    assert_eq!(socket.to_fill(), (0, 32));
    assert_eq!(socket.free_tx_frames(), 32);
    assert_eq!(socket.completion_room(), 0);
    let (_, spec) = socket.stage_send(&datagram(b"x")).unwrap();
    assert_eq!(spec.ip_id, 2);
}
