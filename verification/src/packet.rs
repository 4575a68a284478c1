//! Ethernet / IPv4 / UDP parsing and construction.
//!
//! AF_XDP hands you (and takes from you) **raw L2 frames**: no kernel socket
//! layer adds headers for you. To send a UDP datagram you build the entire
//! Ethernet + IPv4 + UDP header stack yourself, and to receive one you parse it
//! yourself.
//!
//! - **Zero-copy parsing**: [`parse_udp`] borrows from the input buffer and does
//!   not allocate.
//! - **In-place building**: [`UdpFrame::encode_into`] writes directly into a
//!   caller-provided buffer (a UMEM frame). [`UdpFrame::encode`] is a convenience
//!   that allocates.
//! - All multi-byte integers are big-endian ("network byte order").
//!
//! [`frame_error`] and [`datagram_of`] say what a received frame is, and
//! [`UdpFrame::encoding`] says what a built one is, byte for byte.

use vstd::prelude::*;
use vstd::slice::slice_subrange;

pub use crate::addr::{Ipv4Addr, MacAddr};
pub use crate::checksum::{ipv4_checksum, ones_complement_fold, sum16, udp_checksum, IPPROTO_UDP};
use crate::checksum::{
    be16, checksum_complements_sum, checksum_of, hi8, ipv4_checksum_verifies, lemma_sum_of_four,
    lo8, only_large_datagrams_do_not_fit, pseudo_header_follows_rfc_768, pseudo_header_sum,
    udp_checksum_of, udp_checksum_verifies, udp_sum_fits, with_checksum, word_sum,
    word_sum_adds_up,
};
use crate::error::ParseError;

verus! {

/// Length of an Ethernet II header (no VLAN tag).
pub const ETH_HDR_LEN: usize = 14;

/// Length of an IPv4 header with no options (IHL = 5).
pub const IPV4_HDR_LEN: usize = 20;

/// Length of a UDP header.
pub const UDP_HDR_LEN: usize = 8;

/// Total header overhead for an Ethernet/IPv4/UDP datagram.
pub const HDR_OVERHEAD: usize = ETH_HDR_LEN + IPV4_HDR_LEN + UDP_HDR_LEN;

/// EtherType value indicating the payload is an IPv4 packet.
pub const ETHERTYPE_IPV4: u16 = 0x0800;

/// A parsed UDP-over-IPv4-over-Ethernet datagram. The payload borrows from the
/// frame that was parsed, so this is a zero-copy view.
#[derive(Debug, PartialEq, Eq)]
pub struct UdpDatagram<'a> {
    pub dst_mac: MacAddr,
    pub src_mac: MacAddr,
    pub src_ip: Ipv4Addr,
    pub dst_ip: Ipv4Addr,
    pub src_port: u16,
    pub dst_port: u16,
    /// The UDP payload (application bytes).
    pub payload: &'a [u8],
}

/// What a [`UdpDatagram`] says, with addresses and payload as byte sequences.
pub struct Datagram {
    pub dst_mac: Seq<u8>,
    pub src_mac: Seq<u8>,
    pub src_ip: Seq<u8>,
    pub dst_ip: Seq<u8>,
    pub src_port: nat,
    pub dst_port: nat,
    pub payload: Seq<u8>,
}

impl<'a> View for UdpDatagram<'a> {
    type V = Datagram;

    open spec fn view(&self) -> Datagram {
        Datagram {
            dst_mac: self.dst_mac.0@,
            src_mac: self.src_mac.0@,
            src_ip: self.src_ip.0@,
            dst_ip: self.dst_ip.0@,
            src_port: self.src_port as nat,
            dst_port: self.dst_port as nat,
            payload: self.payload@,
        }
    }
}

/// The 16-bit big-endian number at `at` in `frame`.
pub open spec fn field16(frame: Seq<u8>, at: int) -> nat {
    be16(frame[at], frame[at + 1])
}

/// The IP version that the frame declares: the high nibble of the IP header's
/// first byte.
pub open spec fn ip_version(frame: Seq<u8>) -> u8 {
    frame[ETH_HDR_LEN as int] / 16
}

/// The IPv4 header length in bytes that the frame declares: four times the low
/// nibble of the header's first byte.
pub open spec fn declared_ip_hdr_len(frame: Seq<u8>) -> nat {
    (frame[ETH_HDR_LEN as int] % 16 * 4) as nat
}

/// Where the UDP header starts in `frame`.
pub open spec fn udp_offset(frame: Seq<u8>) -> nat {
    ETH_HDR_LEN as nat + declared_ip_hdr_len(frame)
}

/// What keeps `frame` from being a UDP/IPv4 datagram, or `None` if nothing does.
pub open spec fn frame_error(frame: Seq<u8>) -> Option<ParseError> {
    let got = frame.len() as usize;
    if frame.len() < ETH_HDR_LEN {
        Some(ParseError::TooShort { needed: ETH_HDR_LEN, got })
    } else if field16(frame, 12) != ETHERTYPE_IPV4 {
        Some(ParseError::NotIpv4(field16(frame, 12) as u16))
    } else if frame.len() < ETH_HDR_LEN + IPV4_HDR_LEN {
        Some(ParseError::TooShort { needed: (ETH_HDR_LEN + IPV4_HDR_LEN) as usize, got })
    } else if ip_version(frame) != 4 {
        Some(ParseError::BadVersion(ip_version(frame)))
    } else if declared_ip_hdr_len(frame) < IPV4_HDR_LEN {
        Some(ParseError::BadIhl(frame[ETH_HDR_LEN as int] % 16))
    } else if frame[ETH_HDR_LEN + 9] != IPPROTO_UDP {
        Some(ParseError::NotUdp(frame[ETH_HDR_LEN + 9]))
    } else if frame.len() < udp_offset(frame) {
        Some(ParseError::TooShort { needed: udp_offset(frame) as usize, got })
    } else if frame.len() < udp_offset(frame) + UDP_HDR_LEN {
        Some(ParseError::TooShort { needed: (udp_offset(frame) + UDP_HDR_LEN) as usize, got })
    } else {
        None
    }
}

/// The number of payload bytes that `frame` carries: what the UDP length field
/// declares beyond the header, but no more than the frame holds.
pub open spec fn payload_len(frame: Seq<u8>) -> int {
    let udp = udp_offset(frame) as int;
    let declared = field16(frame, udp + 4) - UDP_HDR_LEN;
    let available = frame.len() - (udp + UDP_HDR_LEN);
    if declared < 0 {
        0
    } else if declared < available {
        declared
    } else {
        available
    }
}

/// The datagram that `frame` carries.
pub open spec fn datagram_of(frame: Seq<u8>) -> Datagram {
    let ip = ETH_HDR_LEN as int;
    let udp = udp_offset(frame) as int;
    let start = udp + UDP_HDR_LEN;
    Datagram {
        dst_mac: frame.subrange(0, 6),
        src_mac: frame.subrange(6, 12),
        src_ip: frame.subrange(ip + 12, ip + 16),
        dst_ip: frame.subrange(ip + 16, ip + 20),
        src_port: field16(frame, udp),
        dst_port: field16(frame, udp + 2),
        payload: frame.subrange(start, start + payload_len(frame)),
    }
}

/// Read a 16-bit big-endian number at `at`.
fn read16(bytes: &[u8], at: usize) -> (value: u16)
    requires
        at + 1 < bytes@.len(),
    ensures
        value == field16(bytes@, at as int),
{
    bytes[at] as u16 * 256 + bytes[at + 1] as u16
}

/// Parse a raw Ethernet frame as a UDP/IPv4 datagram.
///
/// Returns a borrowed [`UdpDatagram`] on success. Anything that isn't
/// well-formed UDP-over-IPv4 yields a [`ParseError`] (cheaply — this is on the
/// RX hot path, so it does bounds checks and bails, never panics).
pub fn parse_udp<'a>(frame: &'a [u8]) -> (parsed: Result<UdpDatagram<'a>, ParseError>)
    ensures
        match parsed {
            Ok(datagram) => frame_error(frame@) is None && datagram@ == datagram_of(frame@),
            Err(error) => frame_error(frame@) == Some(error),
        },
{
    let got: usize = frame.len();

    // --- Ethernet header ---
    if got < ETH_HDR_LEN {
        return Err(ParseError::TooShort { needed: ETH_HDR_LEN, got });
    }
    let dst_mac = MacAddr([frame[0], frame[1], frame[2], frame[3], frame[4], frame[5]]);
    let src_mac = MacAddr([frame[6], frame[7], frame[8], frame[9], frame[10], frame[11]]);
    let ethertype: u16 = read16(frame, 12);
    if ethertype != ETHERTYPE_IPV4 {
        return Err(ParseError::NotIpv4(ethertype));
    }

    // --- IPv4 header ---
    if got < ETH_HDR_LEN + IPV4_HDR_LEN {
        return Err(ParseError::TooShort { needed: ETH_HDR_LEN + IPV4_HDR_LEN, got });
    }
    // The high nibble of byte 0 is the IP version.
    let first: u8 = frame[ETH_HDR_LEN];
    assert(first >> 4 == first / 16 && first & 0x0f == first % 16) by (bit_vector);
    let version: u8 = first >> 4;
    if version != 4 {
        return Err(ParseError::BadVersion(version));
    }
    // The low nibble of byte 0 is IHL: header length in 32-bit words.
    let ihl: u8 = first & 0x0f;
    if ihl < 5 {
        return Err(ParseError::BadIhl(ihl));
    }
    let udp: usize = ETH_HDR_LEN + ihl as usize * 4;
    if frame[ETH_HDR_LEN + 9] != IPPROTO_UDP {
        return Err(ParseError::NotUdp(frame[ETH_HDR_LEN + 9]));
    }
    if got < udp {
        return Err(ParseError::TooShort { needed: udp, got });
    }
    let src_ip = Ipv4Addr::new(frame[26], frame[27], frame[28], frame[29]);
    let dst_ip = Ipv4Addr::new(frame[30], frame[31], frame[32], frame[33]);

    // --- UDP header ---
    if got < udp + UDP_HDR_LEN {
        return Err(ParseError::TooShort { needed: udp + UDP_HDR_LEN, got });
    }
    let src_port: u16 = read16(frame, udp);
    let dst_port: u16 = read16(frame, udp + 2);
    let udp_len: usize = read16(frame, udp + 4) as usize;
    // The UDP length field covers the 8-byte header + payload. Clamp to what's
    // actually present so a malformed/truncated length can't over-read.
    let declared: usize = if udp_len < UDP_HDR_LEN { 0 } else { udp_len - UDP_HDR_LEN };
    let available: usize = got - (udp + UDP_HDR_LEN);
    let len: usize = if declared < available { declared } else { available };
    let payload = slice_subrange(frame, udp + UDP_HDR_LEN, udp + UDP_HDR_LEN + len);

    let datagram = UdpDatagram { dst_mac, src_mac, src_ip, dst_ip, src_port, dst_port, payload };
    proof {
        let model = datagram_of(frame@);
        assert(datagram@.dst_mac =~= model.dst_mac);
        assert(datagram@.src_mac =~= model.src_mac);
        assert(datagram@.src_ip =~= model.src_ip);
        assert(datagram@.dst_ip =~= model.dst_ip);
        assert(datagram@.payload =~= model.payload);
    }
    Ok(datagram)
}

/// A frame that parses is IPv4 with protocol UDP, holds all three headers, and
/// its payload lies inside it.
pub proof fn parsed_frame_is_well_formed(frame: Seq<u8>)
    requires
        frame_error(frame) is None,
    ensures
        field16(frame, 12) == ETHERTYPE_IPV4,
        ip_version(frame) == 4,
        frame[ETH_HDR_LEN + 9] == IPPROTO_UDP,
        frame.len() >= HDR_OVERHEAD,
        0 <= payload_len(frame),
        udp_offset(frame) + UDP_HDR_LEN + payload_len(frame) <= frame.len(),
{
}

/// A frame is refused exactly if a header is missing or is not what it should be,
/// and the first fault from the front is the one that is named.
pub proof fn first_fault_is_named(frame: Seq<u8>)
    requires
        frame.len() <= usize::MAX,
    ensures
        ({
            let len = frame.len();
            let ethertype = frame[12] * 256 + frame[13];
            let words = (frame[14] % 16) as int;
            let ipv4 = len >= 34 && ethertype == 0x0800 && frame[14] / 16 == 4;
            let udp = ipv4 && words >= 5 && frame[23] == 17;
            match frame_error(frame) {
                None => udp && len >= 22 + 4 * words,
                Some(ParseError::TooShort { needed, got }) => {
                    &&& got == len
                    &&& needed > len
                    &&& {
                        ||| needed == 14
                        ||| needed == 34 && len >= 14 && ethertype == 0x0800
                        ||| needed == 14 + 4 * words && udp
                        ||| needed == 22 + 4 * words && udp && len >= 14 + 4 * words
                    }
                },
                Some(ParseError::NotIpv4(given)) => {
                    len >= 14 && given == ethertype && ethertype != 0x0800
                },
                Some(ParseError::BadVersion(version)) => {
                    &&& len >= 34
                    &&& ethertype == 0x0800
                    &&& version == frame[14] / 16
                    &&& version != 4
                },
                Some(ParseError::BadIhl(given)) => ipv4 && given == words && words < 5,
                Some(ParseError::NotUdp(protocol)) => {
                    &&& ipv4
                    &&& words >= 5
                    &&& protocol == frame[23]
                    &&& protocol != 17
                },
            }
        }),
{
}

/// Where each part of a parsed datagram comes from. The IPv4 header takes four
/// bytes for each word that it declares; the payload follows the UDP header and
/// is as long as the UDP length field says, less the eight bytes of the header,
/// but not longer than what is there.
pub proof fn datagram_is_read_off_the_frame(frame: Seq<u8>)
    requires
        frame_error(frame) is None,
    ensures
        ({
            let datagram = datagram_of(frame);
            let udp = 14 + 4 * (frame[14] % 16);
            let declared = frame[udp + 4] * 256 + frame[udp + 5] - 8;
            let present = frame.len() - udp - 8;
            &&& datagram.dst_mac == frame.subrange(0, 6)
            &&& datagram.src_mac == frame.subrange(6, 12)
            &&& datagram.src_ip == frame.subrange(26, 30)
            &&& datagram.dst_ip == frame.subrange(30, 34)
            &&& datagram.src_port == frame[udp] * 256 + frame[udp + 1]
            &&& datagram.dst_port == frame[udp + 2] * 256 + frame[udp + 3]
            &&& 0 <= present
            &&& declared >= present ==> datagram.payload.len() == present
            &&& 0 <= declared < present ==> datagram.payload.len() == declared
            &&& declared < 0 ==> datagram.payload.len() == 0
            &&& forall|i: int|
                0 <= i < datagram.payload.len() ==> #[trigger] datagram.payload[i] == frame[udp + 8
                    + i]
        }),
{
}

/// Ports and payload depend on the frame only through the declared header length
/// and the bytes from the UDP header on: whatever else two frames of one length
/// differ in, they carry the same.
pub proof fn headers_before_udp_do_not_touch_payload(a: Seq<u8>, b: Seq<u8>)
    requires
        frame_error(a) is None,
        frame_error(b) is None,
        a.len() == b.len(),
        a[14] == b[14],
        forall|i: int| 14 + 4 * (a[14] % 16) <= i < a.len() ==> #[trigger] a[i] == b[i],
    ensures
        datagram_of(a).src_port == datagram_of(b).src_port,
        datagram_of(a).dst_port == datagram_of(b).dst_port,
        datagram_of(a).payload == datagram_of(b).payload,
{
    datagram_is_read_off_the_frame(a);
    datagram_is_read_off_the_frame(b);
    assert(datagram_of(a).payload =~= datagram_of(b).payload);
}

/// The model of a datagram holds what its fields hold.
pub proof fn datagram_view_is_faithful<'a>(datagram: UdpDatagram<'a>)
    ensures
        datagram@.dst_mac == datagram.dst_mac.0@,
        datagram@.src_mac == datagram.src_mac.0@,
        datagram@.src_ip == datagram.src_ip.0@,
        datagram@.dst_ip == datagram.dst_ip.0@,
        datagram@.src_port == datagram.src_port,
        datagram@.dst_port == datagram.dst_port,
        datagram@.payload == datagram.payload@,
{
}

/// The sizes of the headers and the protocol numbers are those of Ethernet II,
/// IPv4 without options and UDP.
pub proof fn header_sizes_are_standard()
    ensures
        ETH_HDR_LEN == 14,
        IPV4_HDR_LEN == 20,
        UDP_HDR_LEN == 8,
        HDR_OVERHEAD == 42,
        ETHERTYPE_IPV4 == 0x0800,
        IPPROTO_UDP == 17,
{
}

/// Specification for a UDP datagram to transmit. Build one of these, then
/// [`encode_into`](UdpFrame::encode_into) it directly into a UMEM frame.
#[derive(Debug, Clone)]
pub struct UdpFrame<'a> {
    pub dst_mac: MacAddr,
    pub src_mac: MacAddr,
    pub src_ip: Ipv4Addr,
    pub dst_ip: Ipv4Addr,
    pub src_port: u16,
    pub dst_port: u16,
    /// `ttl` for the IPv4 header. 64 is the conventional default.
    pub ttl: u8,
    /// 16-bit IPv4 identification field. For datagrams that won't be
    /// fragmented this can be anything; a per-socket incrementing counter is
    /// fine and avoids RNG on the hot path.
    pub ip_id: u16,
    pub payload: &'a [u8],
}

/// An Ethernet II header for an IPv4 packet.
pub open spec fn eth_header(dst_mac: Seq<u8>, src_mac: Seq<u8>) -> Seq<u8> {
    dst_mac + src_mac + seq![hi8(ETHERTYPE_IPV4 as int), lo8(ETHERTYPE_IPV4 as int)]
}

impl<'a> UdpFrame<'a> {
    /// The size of the encoded frame in bytes.
    pub open spec fn spec_encoded_len(&self) -> nat {
        HDR_OVERHEAD as nat + self.payload@.len()
    }

    /// The IPv4 header, with `checksum` in its checksum field: version 4, five
    /// words, "don't fragment", protocol UDP. The total length field holds the
    /// low 16 bits of the packet's length.
    pub open spec fn ip_header(&self, checksum: u16) -> Seq<u8> {
        let total = IPV4_HDR_LEN + UDP_HDR_LEN + self.payload@.len();
        seq![
            0x45u8, 0x00, hi8(total), lo8(total),
            hi8(self.ip_id as int), lo8(self.ip_id as int), 0x40, 0x00,
            self.ttl, IPPROTO_UDP, hi8(checksum as int), lo8(checksum as int),
            self.src_ip.0@[0], self.src_ip.0@[1], self.src_ip.0@[2], self.src_ip.0@[3],
            self.dst_ip.0@[0], self.dst_ip.0@[1], self.dst_ip.0@[2], self.dst_ip.0@[3],
        ]
    }

    /// The UDP header, with `checksum` in its checksum field, and the payload.
    /// The length field holds the low 16 bits of their length.
    pub open spec fn udp_segment(&self, checksum: u16) -> Seq<u8> {
        let len = UDP_HDR_LEN + self.payload@.len();
        seq![
            hi8(self.src_port as int), lo8(self.src_port as int),
            hi8(self.dst_port as int), lo8(self.dst_port as int),
            hi8(len), lo8(len),
            hi8(checksum as int), lo8(checksum as int),
        ] + self.payload@
    }

    /// The IPv4 header checksum of the frame.
    pub open spec fn spec_ip_checksum(&self) -> u16 {
        checksum_of(word_sum(self.ip_header(0)))
    }

    /// The UDP checksum of the frame.
    pub open spec fn spec_udp_checksum(&self) -> u16 {
        udp_checksum_of(self.src_ip.0@, self.dst_ip.0@, self.udp_segment(0))
    }

    /// The bytes of the frame on the wire.
    pub open spec fn encoding(&self) -> Seq<u8> {
        eth_header(self.dst_mac.0@, self.src_mac.0@) + self.ip_header(self.spec_ip_checksum())
            + self.udp_segment(self.spec_udp_checksum())
    }

    /// Whether the UDP checksum of the frame can be computed in the 32-bit
    /// accumulator. It always can for a payload that fits in an IP datagram.
    pub open spec fn encodable(&self) -> bool {
        udp_sum_fits(self.src_ip.0@, self.dst_ip.0@, self.udp_segment(0))
    }

    /// Total encoded size of this frame (headers + payload).
    pub fn encoded_len(&self) -> (len: usize)
        requires
            self.spec_encoded_len() <= usize::MAX,
        ensures
            len == self.spec_encoded_len(),
    {
        HDR_OVERHEAD + self.payload.len()
    }

    /// Encode the full Ethernet/IPv4/UDP frame into `buf`, returning the number
    /// of bytes written. `buf` must be at least [`encoded_len`](Self::encoded_len).
    ///
    /// Both the IPv4 header checksum and the UDP checksum are computed. (The
    /// UDP checksum is technically optional over IPv4, but NICs and middleboxes
    /// are happier when it's correct, and it's cheap.)
    pub fn encode_into(&self, buf: &mut [u8]) -> (written: usize)
        requires
            old(buf)@.len() >= self.spec_encoded_len(),
            self.encodable(),
        ensures
            written == self.spec_encoded_len(),
            final(buf)@ == self.encoding() + old(buf)@.skip(written as int),
    {
        assert(buf.len() == buf@.len());
        let total: usize = self.encoded_len();
        let ghost rest = buf@.skip(total as int);
        let udp: usize = ETH_HDR_LEN + IPV4_HDR_LEN;

        let unsummed: [u8; 20] = self.ip_header_bytes(0);
        let ip_checksum: u16 = ipv4_checksum(unsummed.as_slice());
        let eth_header: [u8; 14] = self.eth_header_bytes();
        let ip_header: [u8; 20] = self.ip_header_bytes(ip_checksum);
        let udp_header: [u8; 8] = self.udp_header_bytes();
        write_bytes(buf, 0, eth_header.as_slice());
        write_bytes(buf, ETH_HDR_LEN, ip_header.as_slice());
        write_bytes(buf, udp, udp_header.as_slice());
        write_bytes(buf, udp + UDP_HDR_LEN, self.payload);
        let ghost headers = eth_header@ + ip_header@;
        let ghost segment = self.udp_segment(0);
        proof {
            assert(segment =~= udp_header@ + self.payload@);
            assert(buf@ =~= headers + segment + rest);
            assert(buf@.subrange(34, total as int) =~= segment);
        }

        // The UDP checksum spans a pseudo-header + the UDP header + payload.
        let udp_sum: u16 = udp_checksum(
            self.src_ip,
            self.dst_ip,
            slice_subrange(buf, udp, total),
        );
        write16(buf, udp + 6, udp_sum);
        proof {
            self.lemma_segment_checksum(udp_sum);
            assert(buf@ =~= headers + with_checksum(segment, 6, udp_sum) + rest);
        }
        total
    }

    /// Allocate a `Vec<u8>` and encode into it. Convenience for tests and
    /// non-hot paths; prefer [`encode_into`](Self::encode_into) in a TX loop.
    pub fn encode(&self) -> (bytes: Vec<u8>)
        requires
            self.spec_encoded_len() <= usize::MAX,
            self.encodable(),
        ensures
            bytes@ == self.encoding(),
    {
        let mut buf: Vec<u8> = vec![0u8; self.encoded_len()];
        let written: usize = self.encode_into(buf.as_mut_slice());
        proof {
            self.encoding_has_encoded_len();
            assert(buf@ =~= self.encoding());
        }
        buf
    }

    /// What the frame says, as a receiver sees it.
    pub open spec fn datagram(&self) -> Datagram {
        Datagram {
            dst_mac: self.dst_mac.0@,
            src_mac: self.src_mac.0@,
            src_ip: self.src_ip.0@,
            dst_ip: self.dst_ip.0@,
            src_port: self.src_port as nat,
            dst_port: self.dst_port as nat,
            payload: self.payload@,
        }
    }

    /// An encoded frame is as long as [`encoded_len`](Self::encoded_len) says.
    pub proof fn encoding_has_encoded_len(&self)
        ensures
            self.encoding().len() == self.spec_encoded_len(),
    {
    }

    /// What a receiver sees is what the frame was built from.
    pub proof fn datagram_holds_the_fields(&self)
        ensures
            self.datagram().dst_mac == self.dst_mac.0@,
            self.datagram().src_mac == self.src_mac.0@,
            self.datagram().src_ip == self.src_ip.0@,
            self.datagram().dst_ip == self.dst_ip.0@,
            self.datagram().src_port == self.src_port,
            self.datagram().dst_port == self.dst_port,
            self.datagram().payload == self.payload@,
    {
    }

    /// The Ethernet and IPv4 headers on the wire, field by field. The total length
    /// field counts the IP packet, which is the frame without the Ethernet header.
    pub proof fn encoded_ip_fields(&self)
        ensures
            ({
                let frame = self.encoding();
                let packet = 28 + self.payload@.len();
                &&& frame.len() == 14 + packet
                &&& self.spec_encoded_len() == 14 + packet
                &&& frame.subrange(0, 6) == self.dst_mac.0@
                &&& frame.subrange(6, 12) == self.src_mac.0@
                &&& frame[12] == 0x08 && frame[13] == 0x00
                // Version 4, five words; no type of service.
                &&& frame[14] == 0x45 && frame[15] == 0
                &&& frame[16] * 256 + frame[17] == packet % 0x1_0000
                &&& packet <= 0xffff ==> frame[16] * 256 + frame[17] == frame.len() - 14
                &&& frame[18] * 256 + frame[19] == self.ip_id
                // "Don't fragment", at offset zero.
                &&& frame[20] == 0x40 && frame[21] == 0
                &&& frame[22] == self.ttl
                &&& frame[23] == 17
                &&& frame.subrange(26, 30) == self.src_ip.0@
                &&& frame.subrange(30, 34) == self.dst_ip.0@
            }),
    {
        let frame = self.encoding();
        let eth = eth_header(self.dst_mac.0@, self.src_mac.0@);
        let ip = self.ip_header(self.spec_ip_checksum());
        self.lemma_parts();
        assert forall|i: int| 0 <= i < 14 implies frame[i] == eth[i] by {
            assert(frame.take(14)[i] == eth[i]);
        }
        assert forall|i: int| 0 <= i < 20 implies frame[14 + i] == ip[i] by {
            assert(frame.subrange(14, 34)[i] == ip[i]);
        }
        assert(frame[12] == eth[12] && frame[13] == eth[13]);
        assert(frame.subrange(0, 6) =~= self.dst_mac.0@);
        assert(frame.subrange(6, 12) =~= self.src_mac.0@);
        assert(frame[14] == ip[0] && frame[15] == ip[1] && frame[16] == ip[2] && frame[17] == ip[3]);
        assert(frame[18] == ip[4] && frame[19] == ip[5] && frame[20] == ip[6] && frame[21] == ip[7]);
        assert(frame[22] == ip[8] && frame[23] == ip[9]);
        assert(frame.subrange(26, 30) =~= self.src_ip.0@) by {
            assert(frame[26] == ip[12] && frame[27] == ip[13] && frame[28] == ip[14] && frame[29]
                == ip[15]);
        }
        assert(frame.subrange(30, 34) =~= self.dst_ip.0@) by {
            assert(frame[30] == ip[16] && frame[31] == ip[17] && frame[32] == ip[18] && frame[33]
                == ip[19]);
        }
    }

    /// The UDP header on the wire, field by field, and the payload behind it. The
    /// length field counts both.
    pub proof fn encoded_udp_fields(&self)
        ensures
            ({
                let frame = self.encoding();
                &&& frame[34] * 256 + frame[35] == self.src_port
                &&& frame[36] * 256 + frame[37] == self.dst_port
                &&& frame[38] * 256 + frame[39] == (8 + self.payload@.len()) % 0x1_0000
                &&& frame.skip(42) == self.payload@
            }),
    {
        let frame = self.encoding();
        let udp = self.udp_segment(self.spec_udp_checksum());
        self.lemma_parts();
        assert forall|i: int| 0 <= i < 8 + self.payload@.len() implies frame[34 + i] == udp[i] by {
            assert(frame.skip(34)[i] == udp[i]);
        }
        assert(frame[34] == udp[0] && frame[35] == udp[1] && frame[36] == udp[2] && frame[37]
            == udp[3] && frame[38] == udp[4] && frame[39] == udp[5]);
        assert(frame.skip(42) =~= self.payload@) by {
            assert forall|i: int| 0 <= i < self.payload@.len() implies frame[42 + i]
                == self.payload@[i] by {
                assert(frame[34 + (8 + i)] == udp[8 + i]);
            }
        }
    }

    /// The two checksum fields on the wire make the words of the IPv4 header, and
    /// those of the UDP part with its pseudo-header, add up to a multiple of
    /// 0xffff. The first is never all ones and the second is never zero, which
    /// leaves one value for each.
    pub proof fn encoded_checksum_fields(&self)
        ensures
            ({
                let frame = self.encoding();
                let src = self.src_ip.0@;
                let dst = self.dst_ip.0@;
                &&& word_sum(frame.subrange(14, 34)) % 0xffff == 0
                &&& frame[24] * 256 + frame[25] != 0xffff
                &&& ((src[0] + src[2] + dst[0] + dst[2]) * 256 + src[1] + src[3] + dst[1] + dst[3]
                    + 17 + (8 + self.payload@.len()) % 0x1_0000_0000 + word_sum(frame.skip(34)))
                    % 0xffff == 0
                &&& frame[40] * 256 + frame[41] != 0
            }),
    {
        let frame = self.encoding();
        let src = self.src_ip.0@;
        let dst = self.dst_ip.0@;
        let ip = self.ip_header(self.spec_ip_checksum());
        let udp = self.udp_segment(self.spec_udp_checksum());
        self.lemma_parts();
        self.encoded_ip_header_verifies();
        self.encoded_udp_segment_verifies();
        checksum_complements_sum(word_sum(frame.subrange(14, 34)));
        assert(frame.subrange(14, 34)[10] == ip[10] && frame.subrange(14, 34)[11] == ip[11]);
        lemma_leading_byte_counts(self.ip_header(0));
        checksum_complements_sum(word_sum(self.ip_header(0)));
        let sum = pseudo_header_sum(src, dst, frame.skip(34).len()) + word_sum(frame.skip(34));
        checksum_complements_sum(sum);
        pseudo_header_follows_rfc_768(src, dst, frame.skip(34).len());
        assert(frame.skip(34)[6] == frame[40] && frame.skip(34)[7] == frame[41]);
    }

    /// A frame can be encoded unless the words behind its UDP checksum add up to
    /// more than 32 bits hold. No payload that fits in an IP datagram does that.
    pub proof fn every_ip_datagram_is_encodable(&self)
        ensures
            self.payload@.len() <= 0xfff8 ==> self.encodable(),
            ({
                let src = self.src_ip.0@;
                let dst = self.dst_ip.0@;
                let len = 8 + self.payload@.len();
                self.encodable() <==> (src[0] + src[2] + dst[0] + dst[2]) * 256 + src[1] + src[3]
                    + dst[1] + dst[3] + 17 + len % 0x1_0000_0000 + self.src_port + self.dst_port
                    + len % 0x1_0000 + word_sum(self.payload@) <= u32::MAX
            }),
    {
        let segment = self.udp_segment(0);
        let header = segment.take(8);
        assert(segment =~= header + self.payload@);
        word_sum_adds_up(header, self.payload@);
        assert(header =~= header.take(4) + header.skip(4));
        word_sum_adds_up(header.take(4), header.skip(4));
        lemma_sum_of_four(header.take(4));
        lemma_sum_of_four(header.skip(4));
        assert(word_sum(header) == self.src_port + self.dst_port + (8 + self.payload@.len())
            % 0x1_0000);
        only_large_datagrams_do_not_fit(self.src_ip.0@, self.dst_ip.0@, segment);
    }

    /// The parts of an encoded frame: the Ethernet header, then the IPv4 header,
    /// then the UDP header and the payload.
    proof fn lemma_parts(&self)
        ensures
            self.encoding().take(14) == eth_header(self.dst_mac.0@, self.src_mac.0@),
            self.encoding().subrange(14, 34) == self.ip_header(self.spec_ip_checksum()),
            self.encoding().skip(34) == self.udp_segment(self.spec_udp_checksum()),
    {
        let eth = eth_header(self.dst_mac.0@, self.src_mac.0@);
        let ip = self.ip_header(self.spec_ip_checksum());
        let udp = self.udp_segment(self.spec_udp_checksum());
        assert(eth.len() == 14 && ip.len() == 20);
        lemma_concat_parts(eth, ip, udp);
    }

    /// Parsing undoes encoding: any frame whose length fits the UDP length field
    /// parses back to the same addresses, ports and payload, whatever padding
    /// follows it on the wire.
    pub proof fn parse_undoes_encode(&self, padding: Seq<u8>)
        requires
            UDP_HDR_LEN + self.payload@.len() <= 0xffff,
        ensures
            frame_error(self.encoding() + padding) is None,
            datagram_of(self.encoding() + padding) == self.datagram(),
    {
        let frame = self.encoding() + padding;
        let eth = eth_header(self.dst_mac.0@, self.src_mac.0@);
        let ip = self.ip_header(self.spec_ip_checksum());
        let udp = self.udp_segment(self.spec_udp_checksum());
        self.lemma_parts();
        assert(frame.len() >= 42 + self.payload@.len());
        assert forall|i: int| 0 <= i < 14 implies frame[i] == eth[i] by {
            assert(self.encoding().take(14)[i] == eth[i]);
        }
        assert forall|i: int| 0 <= i < 20 implies frame[14 + i] == ip[i] by {
            assert(self.encoding().subrange(14, 34)[i] == ip[i]);
        }
        assert forall|i: int| 0 <= i < 8 + self.payload@.len() implies frame[34 + i] == udp[i] by {
            assert(self.encoding().skip(34)[i] == udp[i]);
        }
        assert(frame[12] == eth[12] && frame[13] == eth[13]);
        assert(frame[14] == ip[0] && frame[23] == ip[9]);
        assert(udp_offset(frame) == 34);
        assert(frame_error(frame) is None);
        assert(frame[34] == udp[0] && frame[35] == udp[1]);
        assert(frame[36] == udp[2] && frame[37] == udp[3]);
        assert(frame[38] == udp[4] && frame[39] == udp[5]);
        assert(field16(frame, 38) == 8 + self.payload@.len());
        assert(payload_len(frame) == self.payload@.len());
        let parsed = datagram_of(frame);
        assert(parsed.dst_mac =~= self.dst_mac.0@);
        assert(parsed.src_mac =~= self.src_mac.0@);
        assert(parsed.src_ip =~= self.src_ip.0@) by {
            assert(frame[26] == ip[12] && frame[27] == ip[13] && frame[28] == ip[14] && frame[29]
                == ip[15]);
        }
        assert(parsed.dst_ip =~= self.dst_ip.0@) by {
            assert(frame[30] == ip[16] && frame[31] == ip[17] && frame[32] == ip[18] && frame[33]
                == ip[19]);
        }
        assert(parsed.payload =~= self.payload@);
    }

    /// The IPv4 header of every encoded frame, its checksum field included,
    /// checksums to zero.
    pub proof fn encoded_ip_header_verifies(&self)
        ensures
            checksum_of(
                word_sum(
                    self.encoding().subrange(
                        ETH_HDR_LEN as int,
                        ETH_HDR_LEN + IPV4_HDR_LEN,
                    ),
                ),
            ) == 0,
    {
        self.lemma_parts();
        let unsummed = self.ip_header(0);
        ipv4_checksum_verifies(unsummed, 10);
        assert(self.ip_header(self.spec_ip_checksum()) =~= with_checksum(
            unsummed,
            10,
            self.spec_ip_checksum(),
        ));
    }

    /// The UDP part of every encoded frame, its checksum field included,
    /// checksums to zero together with the pseudo-header, and its checksum
    /// field is never zero, which would mean "no checksum".
    pub proof fn encoded_udp_segment_verifies(&self)
        ensures
            ({
                let udp = self.encoding().skip(ETH_HDR_LEN + IPV4_HDR_LEN);
                &&& checksum_of(
                    pseudo_header_sum(self.src_ip.0@, self.dst_ip.0@, udp.len()) + word_sum(udp),
                ) == 0
                &&& field16(udp, 6) != 0
            }),
    {
        self.lemma_parts();
        self.lemma_segment_checksum(self.spec_udp_checksum());
        udp_checksum_verifies(self.src_ip.0@, self.dst_ip.0@, self.udp_segment(0), 6);
    }

    proof fn lemma_segment_checksum(&self, checksum: u16)
        ensures
            self.udp_segment(checksum) == with_checksum(self.udp_segment(0), 6, checksum),
    {
        assert(self.udp_segment(checksum) =~= with_checksum(self.udp_segment(0), 6, checksum));
    }

    /// The Ethernet header.
    fn eth_header_bytes(&self) -> (header: [u8; 14])
        ensures
            header@ == eth_header(self.dst_mac.0@, self.src_mac.0@),
    {
        let dst: [u8; 6] = self.dst_mac.0;
        let src: [u8; 6] = self.src_mac.0;
        let header: [u8; 14] = [
            dst[0], dst[1], dst[2], dst[3], dst[4], dst[5],
            src[0], src[1], src[2], src[3], src[4], src[5],
            high_byte(ETHERTYPE_IPV4), low_byte(ETHERTYPE_IPV4),
        ];
        assert(header@ =~= eth_header(dst@, src@));
        header
    }

    /// The IPv4 header with `checksum` in its checksum field.
    fn ip_header_bytes(&self, checksum: u16) -> (header: [u8; 20])
        requires
            self.spec_encoded_len() <= usize::MAX,
        ensures
            header@ == self.ip_header(checksum),
    {
        let total: u16 = low16(IPV4_HDR_LEN + UDP_HDR_LEN + self.payload.len());
        let src: [u8; 4] = self.src_ip.octets();
        let dst: [u8; 4] = self.dst_ip.octets();
        let header: [u8; 20] = [
            0x45,  // version 4, IHL 5
            0x00,  // DSCP / ECN
            high_byte(total), low_byte(total),
            high_byte(self.ip_id), low_byte(self.ip_id),
            0x40, 0x00,  // "Don't Fragment": fragments are never emitted here
            self.ttl, IPPROTO_UDP,
            high_byte(checksum), low_byte(checksum),
            src[0], src[1], src[2], src[3],
            dst[0], dst[1], dst[2], dst[3],
        ];
        assert(header@ =~= self.ip_header(checksum));
        header
    }

    /// The UDP header with a zero checksum field.
    fn udp_header_bytes(&self) -> (header: [u8; 8])
        requires
            self.spec_encoded_len() <= usize::MAX,
        ensures
            header@ == self.udp_segment(0).take(UDP_HDR_LEN as int),
    {
        let len: u16 = low16(UDP_HDR_LEN + self.payload.len());
        let header: [u8; 8] = [
            high_byte(self.src_port), low_byte(self.src_port),
            high_byte(self.dst_port), low_byte(self.dst_port),
            high_byte(len), low_byte(len),
            0, 0,  // checksum placeholder
        ];
        assert(header@ =~= self.udp_segment(0).take(UDP_HDR_LEN as int));
        header
    }
}

/// The more significant byte of `value`.
fn high_byte(value: u16) -> (byte: u8)
    ensures
        byte == hi8(value as int),
{
    (value / 256) as u8
}

/// The less significant byte of `value`.
fn low_byte(value: u16) -> (byte: u8)
    ensures
        byte == lo8(value as int),
{
    (value % 256) as u8
}

proof fn lemma_leading_byte_counts(data: Seq<u8>)
    requires
        data.len() >= 2,
        data[0] > 0,
    ensures
        word_sum(data) > 0,
{
}

proof fn lemma_concat_parts(a: Seq<u8>, b: Seq<u8>, c: Seq<u8>)
    ensures
        (a + b + c).take(a.len() as int) == a,
        (a + b + c).subrange(a.len() as int, (a.len() + b.len()) as int) == b,
        (a + b + c).skip((a.len() + b.len()) as int) == c,
{
    assert((a + b + c).take(a.len() as int) =~= a);
    assert((a + b + c).subrange(a.len() as int, (a.len() + b.len()) as int) =~= b);
    assert((a + b + c).skip((a.len() + b.len()) as int) =~= c);
}

/// The low 16 bits of a length.
fn low16(len: usize) -> (low: u16)
    ensures
        hi8(low as int) == hi8(len as int),
        lo8(low as int) == lo8(len as int),
{
    (len % 0x1_0000) as u16
}

/// Write a 16-bit number in network byte order at `at`.
fn write16(buf: &mut [u8], at: usize, value: u16)
    requires
        at + 1 < old(buf)@.len(),
    ensures
        final(buf)@ == with_checksum(old(buf)@, at as int, value),
{
    buf[at] = high_byte(value);
    buf[at + 1] = low_byte(value);
}

/// Copy `bytes` into `buf` from `at` on.
fn write_bytes(buf: &mut [u8], at: usize, bytes: &[u8])
    requires
        at + bytes@.len() <= old(buf)@.len(),
    ensures
        final(buf)@.len() == old(buf)@.len(),
        forall|i: int| 0 <= i < old(buf)@.len() ==> #[trigger] final(buf)@[i] == (
            if at <= i < at + bytes@.len() { bytes@[i - at] } else { old(buf)@[i] }),
{
    let ghost before = buf@;
    let room: usize = buf.len();
    let mut n: usize = 0;
    while n < bytes.len()
        invariant
            n <= bytes@.len(),
            at + bytes@.len() <= room,
            room == buf@.len(),
            room == before.len(),
            forall|i: int| 0 <= i < before.len() ==> #[trigger] buf@[i] == (
                if at <= i < at + n { bytes@[i - at] } else { before[i] }),
        decreases bytes@.len() - n,
    {
        buf[at + n] = bytes[n];
        n = n + 1;
    }
}

} // verus!
