use rxdp::config::{PoolSplit, XdpConfig};
use rxdp::error::ConfigError;

#[test]
fn default_is_valid_with_interface() {
    let cfg = XdpConfig::new("eth0");
    let split = cfg.validate().expect("default config should validate");
    assert_eq!(split.rx_frames, 2048);
    assert_eq!(split.tx_frames, 2048);
}

#[test]
fn empty_interface_rejected() {
    let cfg = XdpConfig::default();
    assert_eq!(cfg.validate(), Err(ConfigError::EmptyInterface));
}

#[test]
fn non_power_of_two_frame_count_rejected() {
    let cfg = XdpConfig {
        frame_count: 3000,
        ..XdpConfig::new("eth0")
    };
    assert_eq!(cfg.validate(), Err(ConfigError::BadFrameCount(3000)));
}

#[test]
fn bad_frame_size_rejected() {
    let cfg = XdpConfig {
        frame_size: 1500,
        ..XdpConfig::new("eth0")
    };
    assert_eq!(cfg.validate(), Err(ConfigError::BadFrameSize(1500)));
}

#[test]
fn oversized_batch_rejected() {
    let cfg = XdpConfig {
        frame_count: 64,
        rx_batch_size: 100,
        ..XdpConfig::new("eth0")
    };
    assert!(matches!(
        cfg.validate(),
        Err(ConfigError::BatchTooLarge { .. })
    ));
}

#[test]
fn max_udp_payload_accounts_for_headers() {
    let cfg = XdpConfig::new("eth0"); // 2048 frame
                                      // 2048 - (14 + 20 + 8) = 2006
    assert_eq!(cfg.max_udp_payload(), 2006);
}

#[test]
fn new_keeps_name_and_default_tuning() {
    let cfg = XdpConfig::new("veth1");
    assert_eq!(cfg.if_name, "veth1");
    assert_eq!(cfg.queue_id, 0);
    assert_eq!(cfg.frame_count, 4096);
    assert_eq!(cfg.frame_size, 2048);
    assert_eq!(cfg.rx_batch_size, 64);
    assert_eq!(cfg.tx_batch_size, 64);
    assert_eq!(cfg.poll_timeout_ms, 100);
    assert_eq!(XdpConfig::default().if_name, "");
}

#[test]
fn jumbo_frames_hold_more() {
    let cfg = XdpConfig {
        frame_size: 4096,
        ..XdpConfig::new("eth0")
    };
    assert!(cfg.validate().is_ok());
    assert_eq!(cfg.max_udp_payload(), 4054);
}

#[test]
fn small_frame_counts_rejected() {
    for count in [0usize, 1, 2, 32, 63] {
        let cfg = XdpConfig {
            frame_count: count,
            rx_batch_size: 0,
            tx_batch_size: 0,
            ..XdpConfig::new("eth0")
        };
        assert_eq!(cfg.validate(), Err(ConfigError::BadFrameCount(count)));
    }
}

#[test]
fn every_power_of_two_from_64_splits_evenly() {
    for shift in 6..usize::BITS {
        let count = 1usize << shift;
        let cfg = XdpConfig {
            frame_count: count,
            rx_batch_size: 32,
            tx_batch_size: 32,
            ..XdpConfig::new("eth0")
        };
        assert_eq!(
            cfg.validate(),
            Ok(PoolSplit {
                rx_frames: count / 2,
                tx_frames: count / 2
            })
        );
    }
}

#[test]
fn batches_may_fill_their_half_but_not_more() {
    let fits = XdpConfig {
        frame_count: 64,
        rx_batch_size: 32,
        tx_batch_size: 32,
        ..XdpConfig::new("eth0")
    };
    assert!(fits.validate().is_ok());
    let tx_too_large = XdpConfig {
        tx_batch_size: 33,
        ..fits
    };
    assert_eq!(
        tx_too_large.validate(),
        Err(ConfigError::BatchTooLarge { rx: 32, frames: 64 })
    );
}

#[test]
fn first_mistake_is_reported() {
    let cfg = XdpConfig {
        frame_count: 3,
        frame_size: 1,
        ..XdpConfig::new("eth0")
    };
    assert_eq!(cfg.validate(), Err(ConfigError::BadFrameSize(1)));
}
