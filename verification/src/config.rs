//! Validated configuration for an [`crate::socket::XdpSocket`].

use vstd::arithmetic::power2::is_pow2;
use vstd::prelude::*;

use crate::error::ConfigError;
use crate::packet::HDR_OVERHEAD;

verus! {

/// How the UMEM frame pool is split. AF_XDP gives you one flat array of frames;
/// in practice you dedicate some to the RX path (kept cycling through the FILL
/// ring) and some to the TX path (a free list you draw from when sending).
///
/// The pool is split 50/50, which is a sane starting point for a mixed
/// ingest+egress service.
#[derive(Clone, Copy, Debug, PartialEq, Eq, Structural)]
pub struct PoolSplit {
    pub rx_frames: usize,
    pub tx_frames: usize,
}

/// Configuration for binding an AF_XDP socket to a single NIC queue.
///
/// AF_XDP sockets bind to **one (interface, queue_id) pair**. To use multiple
/// hardware queues (the usual way to scale past one core) you create one
/// `XdpSocket` per queue, typically pinned to the CPU that handles that queue's
/// IRQ. RSS/`ethtool -X` steers flows across queues.
#[derive(Clone, Debug)]
pub struct XdpConfig {
    /// Interface name, e.g. `"eth0"` or `"veth1"`.
    pub if_name: String,
    /// Hardware queue id to bind to. Start with 0.
    pub queue_id: u32,
    /// Total number of UMEM frames. Must be a power of two, even, and >= 64.
    /// More frames = more in-flight packets tolerated before drops.
    pub frame_count: usize,
    /// Per-frame size in bytes. 2048 fits a standard 1500-MTU packet with
    /// headroom; use 4096 if you enable jumbo frames.
    pub frame_size: u32,
    /// Max frames pulled from the RX ring per `recv_batch` call.
    pub rx_batch_size: usize,
    /// Max frames pushed to the TX ring per batch.
    pub tx_batch_size: usize,
    /// Timeout passed to `poll()` inside `recv_batch`, in milliseconds.
    /// `0` = non-blocking poll, `-1` = block indefinitely.
    pub poll_timeout_ms: i32,
}

/// Whether `n` is a power of two.
fn is_power_of_two(n: usize) -> (answer: bool)
    ensures
        answer == is_pow2(n as int),
{
    reveal(is_pow2);
    let mut odd_part: usize = n;
    while odd_part > 0 && odd_part % 2 == 0
        invariant
            is_pow2(odd_part as int) == is_pow2(n as int),
        decreases odd_part,
    {
        reveal(is_pow2);
        odd_part = odd_part / 2;
    }
    odd_part == 1
}

impl Default for XdpConfig {
    fn default() -> (cfg: Self)
        ensures
            cfg.if_name@.len() == 0,
            cfg.has_default_tuning(),
    {
        XdpConfig {
            if_name: String::new(),
            queue_id: 0,
            frame_count: 4096,
            frame_size: 2048,
            rx_batch_size: 64,
            tx_batch_size: 64,
            poll_timeout_ms: 100,
        }
    }
}

impl XdpConfig {
    /// Whether everything but the interface name has its default value.
    pub open spec fn has_default_tuning(&self) -> bool {
        &&& self.queue_id == 0
        &&& self.frame_count == 4096
        &&& self.frame_size == 2048
        &&& self.rx_batch_size == 64
        &&& self.tx_batch_size == 64
        &&& self.poll_timeout_ms == 100
    }

    /// What is wrong with the configuration, or `None` if it is valid.
    pub open spec fn config_error(&self) -> Option<ConfigError> {
        if self.if_name@.len() == 0 {
            Some(ConfigError::EmptyInterface)
        } else if self.frame_size != 2048 && self.frame_size != 4096 {
            Some(ConfigError::BadFrameSize(self.frame_size))
        } else if self.frame_count < 64 || !is_pow2(self.frame_count as int) {
            Some(ConfigError::BadFrameCount(self.frame_count))
        } else if self.rx_batch_size > self.frame_count / 2 || self.tx_batch_size
            > self.frame_count / 2 {
            Some(
                ConfigError::BatchTooLarge { rx: self.rx_batch_size, frames: self.frame_count },
            )
        } else {
            None
        }
    }

    /// Build a config for `if_name` with otherwise-default tuning.
    pub fn new(if_name: &str) -> (cfg: Self)
        ensures
            cfg.if_name@ == if_name@,
            cfg.has_default_tuning(),
    {
        XdpConfig { if_name: if_name.to_owned(), ..XdpConfig::default() }
    }

    /// Validate the configuration, returning the RX/TX pool split that the
    /// socket layer will use. Call this at startup so misconfiguration fails
    /// fast and loudly rather than corrupting the ring state at runtime.
    pub fn validate(&self) -> (split: Result<PoolSplit, ConfigError>)
        ensures
            match split {
                Ok(split) => {
                    &&& self.config_error() is None
                    &&& split.rx_frames == self.frame_count / 2
                    &&& split.tx_frames == self.frame_count / 2
                    &&& split.rx_frames + split.tx_frames == self.frame_count
                },
                Err(error) => self.config_error() == Some(error),
            },
    {
        if self.if_name.as_str().is_empty() {
            return Err(ConfigError::EmptyInterface);
        }
        if self.frame_size != 2048 && self.frame_size != 4096 {
            return Err(ConfigError::BadFrameSize(self.frame_size));
        }
        if self.frame_count < 64 || !is_power_of_two(self.frame_count) {
            return Err(ConfigError::BadFrameCount(self.frame_count));
        }
        // A power of two that is at least 64 is even, so the halves are equal.
        proof {
            power_of_two_splits_evenly(self.frame_count as int);
        }
        let rx_frames: usize = self.frame_count / 2;
        let tx_frames: usize = self.frame_count - rx_frames;

        // The RX batch can't exceed the RX pool, and likewise for TX. If it
        // did, we'd try to hand the kernel more frames than we own.
        if self.rx_batch_size > rx_frames || self.tx_batch_size > tx_frames {
            return Err(
                ConfigError::BatchTooLarge { rx: self.rx_batch_size, frames: self.frame_count },
            );
        }
        Ok(PoolSplit { rx_frames, tx_frames })
    }

    /// Usable payload capacity per frame: the frame size minus the space we
    /// reserve for Ethernet+IPv4+UDP headers. This is the largest UDP payload
    /// `send` can accept in a single (non-fragmented) datagram.
    pub fn max_udp_payload(&self) -> (capacity: usize)
        requires
            self.frame_size >= HDR_OVERHEAD,
        ensures
            capacity == self.frame_size - HDR_OVERHEAD,
    {
        self.frame_size as usize - HDR_OVERHEAD
    }
}

/// A power of two that is large enough for a frame pool is even, so every pool
/// of a valid size splits into equal halves and
/// [`OddFrameCount`](ConfigError::OddFrameCount) is never reported.
pub proof fn power_of_two_splits_evenly(n: int)
    requires
        n >= 64,
        is_pow2(n),
    ensures
        n % 2 == 0,
{
    reveal(is_pow2);
}

/// A configuration is refused exactly if one of its values is out of bounds, and
/// the first such value is the one that is named. Each batch has to fit in half of
/// the frames.
pub proof fn first_mistake_is_named(cfg: XdpConfig)
    ensures
        ({
            let named = cfg.if_name@.len() > 0;
            let sized = named && (cfg.frame_size == 2048 || cfg.frame_size == 4096);
            let counted = sized && cfg.frame_count >= 64 && is_pow2(cfg.frame_count as int);
            let fits = 2 * cfg.rx_batch_size <= cfg.frame_count && 2 * cfg.tx_batch_size
                <= cfg.frame_count;
            match cfg.config_error() {
                None => counted && fits,
                Some(ConfigError::EmptyInterface) => !named,
                Some(ConfigError::BadFrameSize(size)) => {
                    named && !sized && size == cfg.frame_size
                },
                Some(ConfigError::BadFrameCount(count)) => {
                    sized && !counted && count == cfg.frame_count
                },
                Some(ConfigError::BatchTooLarge { rx, frames }) => {
                    counted && !fits && rx == cfg.rx_batch_size && frames == cfg.frame_count
                },
                Some(ConfigError::OddFrameCount(_)) => false,
            }
        }),
{
    if cfg.frame_count >= 64 && is_pow2(cfg.frame_count as int) {
        power_of_two_splits_evenly(cfg.frame_count as int);
    }
}

/// Default tuning is queue 0, 4096 frames of 2048 bytes, batches of 64 and a
/// timeout of 100 ms, whatever the interface.
pub proof fn default_tuning_values(cfg: XdpConfig)
    ensures
        cfg.has_default_tuning() <==> cfg.queue_id == 0 && cfg.frame_count == 4096
            && cfg.frame_size == 2048 && cfg.rx_batch_size == 64 && cfg.tx_batch_size == 64
            && cfg.poll_timeout_ms == 100,
{
}

/// The default configuration is valid for every interface name but the empty one.
pub proof fn default_tuning_is_valid(cfg: XdpConfig)
    requires
        cfg.has_default_tuning(),
    ensures
        cfg.if_name@.len() > 0 ==> cfg.config_error() is None,
        cfg.if_name@.len() == 0 ==> cfg.config_error() == Some(ConfigError::EmptyInterface),
{
    reveal_with_fuel(is_pow2, 13);
}

} // verus!
