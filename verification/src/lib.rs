//! # rxdp — AF_XDP helpers
//!
//! The decisions behind a UDP service on AF_XDP sockets, each with a contract
//! that says what it does and a proof that it does so.
//!
//! ## Mental model: AF_XDP in one paragraph
//!
//! An XDP/eBPF program runs *in the NIC driver*, before the kernel builds an
//! `sk_buff`. It can redirect a packet into a shared-memory region called the
//! **UMEM**. Userspace reads that packet with no copy and no per-packet syscall,
//! coordinating with the kernel through four single-producer/single-consumer
//! rings:
//!
//! | Ring         | Producer | Consumer | Meaning                              |
//! |--------------|----------|----------|--------------------------------------|
//! | `FILL`       | us       | kernel   | "here are empty frames to fill"      |
//! | `RX`         | kernel   | us       | "here are frames I filled for you"   |
//! | `TX`         | us       | kernel   | "please transmit these frames"       |
//! | `COMPLETION` | kernel   | us       | "I'm done with these TX frames"      |
//!
//! ## Layering
//!
//! - [`packet`] — Ethernet/IPv4/UDP parse and build, over [`addr`] and
//!   [`checksum`].
//! - [`mac_text`], [`ip_text`] — addresses as text, and [`debug`], which shows them
//!   so.
//! - [`config`] — validated [`XdpConfig`].
//! - [`pools`] — the model of which frame is where, and the rule that no frame is
//!   ever in two places.
//! - [`socket`] — [`XdpSocket`], the bookkeeping that keeps to that model. A
//!   driver performs the ring operations that it asks for.

pub mod addr;
pub mod checksum;
pub mod config;
pub mod debug;
pub mod error;
pub mod ip_text;
pub mod mac_text;
pub mod packet;
pub mod pools;
pub mod socket;

pub use config::XdpConfig;
pub use error::{ConfigError, ParseError, XdpError};
pub use socket::XdpSocket;
