//! Link-layer and network-layer addresses.

use vstd::prelude::*;

verus! {

/// A 6-byte Ethernet (MAC) address.
#[derive(Clone, Copy, PartialEq, Eq, Hash)]
pub struct MacAddr(pub [u8; 6]);

impl MacAddr {
    /// The broadcast address `ff:ff:ff:ff:ff:ff`.
    pub fn broadcast() -> (mac: Self)
        ensures
            mac.0@ == seq![0xffu8, 0xff, 0xff, 0xff, 0xff, 0xff],
    {
        MacAddr([0xff, 0xff, 0xff, 0xff, 0xff, 0xff])
    }

    /// The address with these six octets, first on the wire first.
    pub fn new(octets: [u8; 6]) -> (mac: Self)
        ensures
            mac.0 == octets,
    {
        MacAddr(octets)
    }
}

/// An IPv4 address.
#[derive(Clone, Copy, PartialEq, Eq, Hash)]
pub struct Ipv4Addr(pub [u8; 4]);

impl Ipv4Addr {
    /// The address `a.b.c.d`.
    pub fn new(a: u8, b: u8, c: u8, d: u8) -> (ip: Self)
        ensures
            ip.0@ == seq![a, b, c, d],
    {
        Ipv4Addr([a, b, c, d])
    }

    /// The four octets, in network byte order.
    pub fn octets(&self) -> (octets: [u8; 4])
        ensures
            octets == self.0,
    {
        self.0
    }
}

} // verus!
