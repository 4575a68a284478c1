//! Error types for the crate.
//!
//! Errors are split so a caller can distinguish *configuration* mistakes (their
//! fault, fail fast at startup) from *runtime* transport errors (recoverable,
//! may retry).

use vstd::prelude::*;

verus! {

/// Errors that can occur while validating a [`crate::config::XdpConfig`].
#[derive(Debug, PartialEq, Eq, Structural)]
pub enum ConfigError {
    /// The interface name is empty.
    EmptyInterface,
    /// `frame_count`, given here, is not a power of two or is below 64.
    BadFrameCount(usize),
    /// `frame_size`, given here, is neither 2048 nor 4096.
    BadFrameSize(u32),
    /// A batch size exceeds its half of the frame pool.
    BatchTooLarge { rx: usize, frames: usize },
    /// `frame_count`, given here, cannot be split evenly between RX and TX.
    OddFrameCount(usize),
}

/// Errors that occur while parsing a received frame.
#[derive(Debug, PartialEq, Eq, Structural)]
pub enum ParseError {
    /// The frame ends before a header does.
    TooShort { needed: usize, got: usize },
    /// The EtherType, given here, is not IPv4.
    NotIpv4(u16),
    /// The IP version, given here, is not 4.
    BadVersion(u8),
    /// The IPv4 protocol, given here, is not UDP.
    NotUdp(u8),
    /// The IPv4 header length in words, given here, is below 5.
    BadIhl(u8),
}

/// Top-level error type returned by socket operations.
#[derive(Debug)]
pub enum XdpError {
    /// The configuration is invalid.
    Config(ConfigError),
    /// A lower-level error from the AF_XDP layer.
    Transport(String),
    /// The UMEM frame pool is exhausted: there are no free TX frames.
    NoFreeFrames,
    /// The payload exceeds the usable frame capacity.
    PayloadTooLarge { payload: usize, capacity: usize },
}

impl From<ConfigError> for XdpError {
    fn from(error: ConfigError) -> (wrapped: Self) {
        XdpError::Config(error)
    }
}

impl vstd::std_specs::convert::FromSpecImpl<ConfigError> for XdpError {
    open spec fn obeys_from_spec() -> bool {
        true
    }

    open spec fn from_spec(error: ConfigError) -> Self {
        XdpError::Config(error)
    }
}

/// Every configuration error keeps what it says when it becomes a socket error.
pub proof fn config_errors_are_kept(error: ConfigError)
    ensures
        <XdpError as vstd::std_specs::convert::FromSpec<ConfigError>>::obeys_from_spec(),
        <XdpError as vstd::std_specs::convert::FromSpec<ConfigError>>::from_spec(error)
            == XdpError::Config(error),
{
}

} // verus!
