//! The Internet checksum: a one's-complement sum of big-endian 16-bit words.

use vstd::prelude::*;
use vstd::arithmetic::div_mod::lemma_mod_multiples_vanish;

use crate::addr::Ipv4Addr;

verus! {

/// IPv4 `protocol` field value for UDP.
pub const IPPROTO_UDP: u8 = 17;

/// The number that two bytes in network byte order stand for.
pub open spec fn be16(hi: u8, lo: u8) -> nat {
    (hi * 256 + lo) as nat
}

/// The more significant byte of the low 16 bits of `v`.
pub open spec fn hi8(v: int) -> u8 {
    ((v / 256) % 256) as u8
}

/// The less significant byte of `v`.
pub open spec fn lo8(v: int) -> u8 {
    (v % 256) as u8
}

/// The sum of `data` read as big-endian 16-bit words. An odd last byte is the
/// high byte of a word whose low byte is zero.
pub open spec fn word_sum(data: Seq<u8>) -> nat
    decreases data.len(),
{
    if data.len() == 0 {
        0
    } else if data.len() == 1 {
        be16(data[0], 0)
    } else {
        be16(data[0], data[1]) + word_sum(data.skip(2))
    }
}

/// The 16-bit one's-complement value of a sum: zero stays zero, and any other
/// sum becomes the number from 1 to 0xffff that it is congruent to modulo
/// 0xffff.
pub open spec fn folded(sum: nat) -> nat {
    if sum == 0 {
        0
    } else {
        ((sum - 1) % 0xffff + 1) as nat
    }
}

/// The checksum that belongs to a word sum: the complement of its folded value.
pub open spec fn checksum_of(sum: nat) -> u16 {
    (0xffff - folded(sum)) as u16
}

/// The word sum of the pseudo-header that a UDP checksum covers besides the
/// datagram itself: both addresses, the protocol number and the UDP length,
/// which is held in 32 bits.
pub open spec fn pseudo_header_sum(src: Seq<u8>, dst: Seq<u8>, udp_len: nat) -> nat {
    word_sum(src) + word_sum(dst) + IPPROTO_UDP as nat + udp_len % 0x1_0000_0000
}

/// The UDP checksum of `udp`, the header (with a zero checksum field) and the
/// payload. A computed zero is sent as all ones, since zero is reserved to mean
/// "no checksum".
pub open spec fn udp_checksum_of(src: Seq<u8>, dst: Seq<u8>, udp: Seq<u8>) -> u16 {
    let sum = checksum_of(pseudo_header_sum(src, dst, udp.len()) + word_sum(udp));
    if sum == 0 {
        0xffff
    } else {
        sum
    }
}

/// Whether the word sum of `data` fits in the 32-bit accumulator. It always
/// does for 64 KiB, the most that an IP datagram can hold.
pub open spec fn sum_fits(data: Seq<u8>) -> bool {
    data.len() <= 0x1_0000 || word_sum(data) <= u32::MAX
}

/// Whether the sum behind a UDP checksum fits in the 32-bit accumulator. It
/// always does for 64 KiB, the most that an IP datagram can hold.
pub open spec fn udp_sum_fits(src: Seq<u8>, dst: Seq<u8>, udp: Seq<u8>) -> bool {
    udp.len() <= 0x1_0000 || pseudo_header_sum(src, dst, udp.len()) + word_sum(udp) <= u32::MAX
}

/// `data` with the 16-bit number `sum` written at `at`.
pub open spec fn with_checksum(data: Seq<u8>, at: int, sum: u16) -> Seq<u8> {
    data.update(at, hi8(sum as int)).update(at + 1, lo8(sum as int))
}

proof fn lemma_word_sum_bound(data: Seq<u8>)
    ensures
        word_sum(data) <= (data.len() + 1) / 2 * 0xffff,
    decreases data.len(),
{
    if data.len() >= 2 {
        lemma_word_sum_bound(data.skip(2));
    }
}

/// The word sum of a whole is the sum over its parts, where the first part ends
/// on a word boundary.
pub proof fn word_sum_adds_up(a: Seq<u8>, b: Seq<u8>)
    requires
        a.len() % 2 == 0,
    ensures
        word_sum(a + b) == word_sum(a) + word_sum(b),
    decreases a.len(),
{
    if a.len() == 0 {
        assert(a + b =~= b);
    } else {
        assert((a + b).skip(2) =~= a.skip(2) + b);
        word_sum_adds_up(a.skip(2), b);
    }
}

proof fn lemma_fold_step(sum: nat)
    requires
        sum >= 0x1_0000,
    ensures
        folded(sum % 0x1_0000 + sum / 0x1_0000) == folded(sum),
{
    let hi = (sum / 0x1_0000) as int;
    let lo = (sum % 0x1_0000) as int;
    lemma_mod_multiples_vanish(hi, lo + hi - 1, 0xffff);
    assert(0xffff * hi + (lo + hi - 1) == sum - 1);
}

/// Writing the complement of a sum into a field that was zero makes the whole
/// sum fold to all ones.
proof fn lemma_complement_completes(sum: nat, field: nat)
    requires
        field == 0xffff - folded(sum) || (field == 0xffff && folded(sum) == 0xffff),
    ensures
        checksum_of(sum + field) == 0,
{
    if sum > 0 {
        let q = (sum - 1) / 0xffff;
        let r = (sum - 1) % 0xffff;
        assert(sum - 1 == 0xffff * q + r);
        if field == 0xffff - folded(sum) {
            lemma_mod_multiples_vanish(q, 0xfffe, 0xffff);
        } else {
            lemma_mod_multiples_vanish(q + 1, 0xfffe, 0xffff);
        }
    }
}

proof fn lemma_word_sum_with_checksum(data: Seq<u8>, at: int, sum: u16)
    requires
        0 <= at,
        at + 2 <= data.len(),
        at % 2 == 0,
        data[at] == 0,
        data[at + 1] == 0,
    ensures
        word_sum(with_checksum(data, at, sum)) == word_sum(data) + sum,
{
    let before = data.take(at);
    let after = data.skip(at + 2);
    let zero = seq![0u8, 0u8];
    let field = seq![hi8(sum as int), lo8(sum as int)];
    assert(data =~= before + (zero + after));
    assert(with_checksum(data, at, sum) =~= before + (field + after));
    word_sum_adds_up(before, zero + after);
    word_sum_adds_up(before, field + after);
    word_sum_adds_up(zero, after);
    word_sum_adds_up(field, after);
    assert(zero.skip(2) =~= Seq::empty());
    assert(field.skip(2) =~= Seq::empty());
    reveal_with_fuel(word_sum, 2);
}

/// A header verifies against its own checksum: once the checksum of `header`
/// stands in the field that was zero, the header checksums to zero. Receivers
/// rely on this.
pub proof fn ipv4_checksum_verifies(header: Seq<u8>, at: int)
    requires
        0 <= at,
        at + 2 <= header.len(),
        at % 2 == 0,
        header[at] == 0,
        header[at + 1] == 0,
    ensures
        checksum_of(word_sum(with_checksum(header, at, checksum_of(word_sum(header))))) == 0,
{
    lemma_word_sum_with_checksum(header, at, checksum_of(word_sum(header)));
    lemma_complement_completes(word_sum(header), checksum_of(word_sum(header)) as nat);
}

/// A UDP datagram verifies against its own checksum: once the checksum of `udp`
/// stands in the field that was zero, pseudo-header and datagram together
/// checksum to zero, also where a computed zero was replaced by all ones.
pub proof fn udp_checksum_verifies(src: Seq<u8>, dst: Seq<u8>, udp: Seq<u8>, at: int)
    requires
        0 <= at,
        at + 2 <= udp.len(),
        at % 2 == 0,
        udp[at] == 0,
        udp[at + 1] == 0,
    ensures
        ({
            let sent = with_checksum(udp, at, udp_checksum_of(src, dst, udp));
            checksum_of(pseudo_header_sum(src, dst, sent.len()) + word_sum(sent)) == 0
        }),
{
    let sum = pseudo_header_sum(src, dst, udp.len()) + word_sum(udp);
    let field = udp_checksum_of(src, dst, udp);
    lemma_word_sum_with_checksum(udp, at, field);
    lemma_complement_completes(sum, field as nat);
}

/// Splitting a number into two bytes and reading them back keeps its low 16 bits,
/// the more significant byte first.
pub proof fn bytes_are_big_endian(v: int, hi: u8, lo: u8)
    requires
        0 <= v,
    ensures
        hi8(v) * 256 + lo8(v) == v % 0x1_0000,
        be16(hi, lo) == hi * 256 + lo,
{
}

/// The word sum of at most one word. With [`word_sum_adds_up`] this fixes every
/// word sum.
pub proof fn word_sum_of_one_word(hi: u8, lo: u8)
    ensures
        word_sum(Seq::empty()) == 0,
        word_sum(seq![hi]) == hi * 256,
        word_sum(seq![hi, lo]) == hi * 256 + lo,
{
    assert(seq![hi, lo].skip(2) =~= Seq::empty());
    reveal_with_fuel(word_sum, 2);
}

/// Every byte counts: changing one changes the word sum by the difference, times
/// 256 at an even position.
pub proof fn word_sum_weighs_each_byte(data: Seq<u8>, at: int, byte: u8)
    requires
        0 <= at < data.len(),
    ensures
        word_sum(data.update(at, byte)) == word_sum(data) + (byte - data[at]) * (if at % 2 == 0 {
            256int
        } else {
            1int
        }),
    decreases data.len(),
{
    let changed = data.update(at, byte);
    if data.len() >= 2 {
        if at < 2 {
            assert(changed.skip(2) =~= data.skip(2));
        } else {
            assert(changed.skip(2) =~= data.skip(2).update(at - 2, byte));
            word_sum_weighs_each_byte(data.skip(2), at - 2, byte);
        }
    }
}

/// A checksum makes up for its sum: together they are a multiple of 0xffff. It is
/// all ones for an empty sum and for no other, which leaves one value for it.
pub proof fn checksum_complements_sum(sum: nat)
    ensures
        (sum + checksum_of(sum)) % 0xffff == 0,
        checksum_of(sum) == 0xffff <==> sum == 0,
{
}

/// The accumulator overflows on no other data than that whose word sum does not
/// fit in 32 bits.
pub proof fn only_large_sums_do_not_fit(data: Seq<u8>)
    ensures
        sum_fits(data) <==> word_sum(data) <= u32::MAX,
{
    lemma_word_sum_bound(data);
}

/// The pseudo-header of RFC 768: source and destination address, a zero byte, the
/// protocol number 17 and the UDP length.
pub proof fn pseudo_header_follows_rfc_768(src: Seq<u8>, dst: Seq<u8>, udp_len: nat)
    requires
        src.len() == 4,
        dst.len() == 4,
    ensures
        pseudo_header_sum(src, dst, udp_len) == (src[0] + src[2] + dst[0] + dst[2]) * 256 + src[1]
            + src[3] + dst[1] + dst[3] + 17 + udp_len % 0x1_0000_0000,
        udp_len <= 0xffff ==> pseudo_header_sum(src, dst, udp_len) == word_sum(
            src + dst + seq![0u8, 17u8, (udp_len / 256) as u8, (udp_len % 256) as u8],
        ),
{
    lemma_sum_of_four(src);
    lemma_sum_of_four(dst);
    if udp_len <= 0xffff {
        let tail = seq![0u8, 17u8, (udp_len / 256) as u8, (udp_len % 256) as u8];
        word_sum_adds_up(src + dst, tail);
        word_sum_adds_up(src, dst);
        lemma_sum_of_four(tail);
    }
}

pub(crate) proof fn lemma_sum_of_four(bytes: Seq<u8>)
    requires
        bytes.len() == 4,
    ensures
        word_sum(bytes) == (bytes[0] + bytes[2]) * 256 + bytes[1] + bytes[3],
{
    reveal_with_fuel(word_sum, 3);
    assert(bytes.skip(2).skip(2) =~= Seq::empty());
}

/// The UDP checksum is never zero, and makes up for the one's-complement sum of
/// pseudo-header and datagram: together they are a multiple of 0xffff. That leaves
/// one value for it.
pub proof fn udp_checksum_complements_datagram(src: Seq<u8>, dst: Seq<u8>, udp: Seq<u8>)
    requires
        src.len() == 4,
        dst.len() == 4,
    ensures
        udp_checksum_of(src, dst, udp) != 0,
        ((src[0] + src[2] + dst[0] + dst[2]) * 256 + src[1] + src[3] + dst[1] + dst[3] + 17
            + udp.len() % 0x1_0000_0000 + word_sum(udp) + udp_checksum_of(src, dst, udp)) % 0xffff
            == 0,
        udp.len() <= 0xffff ==> (word_sum(
            src + dst + seq![0u8, 17u8, (udp.len() / 256) as u8, (udp.len() % 256) as u8] + udp,
        ) + udp_checksum_of(src, dst, udp)) % 0xffff == 0,
{
    let sum = pseudo_header_sum(src, dst, udp.len()) + word_sum(udp);
    pseudo_header_follows_rfc_768(src, dst, udp.len());
    checksum_complements_sum(sum);
    if udp.len() <= 0xffff {
        let tail = seq![0u8, 17u8, (udp.len() / 256) as u8, (udp.len() % 256) as u8];
        word_sum_adds_up(src + dst + tail, udp);
    }
}

/// The accumulator of a UDP checksum overflows on no other datagrams than those
/// whose sum, with the pseudo-header, does not fit in 32 bits.
pub proof fn only_large_datagrams_do_not_fit(src: Seq<u8>, dst: Seq<u8>, udp: Seq<u8>)
    requires
        src.len() == 4,
        dst.len() == 4,
    ensures
        udp_sum_fits(src, dst, udp) <==> (src[0] + src[2] + dst[0] + dst[2]) * 256 + src[1]
            + src[3] + dst[1] + dst[3] + 17 + udp.len() % 0x1_0000_0000 + word_sum(udp)
            <= u32::MAX,
{
    pseudo_header_follows_rfc_768(src, dst, udp.len());
    lemma_word_sum_bound(udp);
}

/// Writing a checksum changes two bytes and no other, and they read as the
/// checksum.
pub proof fn checksum_takes_two_bytes(data: Seq<u8>, at: int, sum: u16)
    requires
        0 <= at,
        at + 2 <= data.len(),
    ensures
        with_checksum(data, at, sum).len() == data.len(),
        with_checksum(data, at, sum)[at] * 256 + with_checksum(data, at, sum)[at + 1] == sum,
        forall|i: int|
            0 <= i < data.len() && i != at && i != at + 1 ==> #[trigger] with_checksum(
                data,
                at,
                sum,
            )[i] == data[i],
{
}

/// Sum `data` as a sequence of big-endian 16-bit words into a 32-bit
/// accumulator (an odd last byte is padded with a zero low byte), starting
/// from `init`.
pub fn sum16(data: &[u8], init: u32) -> (sum: u32)
    requires
        init + word_sum(data@) <= u32::MAX,
    ensures
        sum == init + word_sum(data@),
{
    let mut sum: u32 = init;
    let mut i: usize = 0;
    assert(data@.skip(0) =~= data@);
    while data.len() - i >= 2
        invariant
            i <= data.len(),
            sum + word_sum(data@.skip(i as int)) == init + word_sum(data@),
            init + word_sum(data@) <= u32::MAX,
        decreases data.len() - i,
    {
        assert(data@.skip(i as int).skip(2) =~= data@.skip(i + 2));
        sum = sum + (data[i] as u32 * 256 + data[i + 1] as u32);
        i = i + 2;
    }
    if i < data.len() {
        sum = sum + data[i] as u32 * 256;
    }
    sum
}

/// Fold a 32-bit one's-complement sum down to 16 bits and complement it.
pub fn ones_complement_fold(sum: u32) -> (checksum: u16)
    ensures
        checksum == checksum_of(sum as nat),
{
    let mut rest: u32 = sum;
    while rest >> 16 != 0
        invariant
            folded(rest as nat) == folded(sum as nat),
        decreases rest,
    {
        assert(rest >> 16 == rest / 0x1_0000 && rest & 0xffff == rest % 0x1_0000) by (bit_vector);
        proof {
            lemma_fold_step(rest as nat);
        }
        rest = (rest & 0xffff) + (rest >> 16);
    }
    assert(rest >> 16 == 0 ==> rest <= 0xffff) by (bit_vector);
    let low: u16 = rest as u16;
    assert(!low == 0xffff - low) by (bit_vector);
    !low
}

/// Compute the IPv4 header checksum over a 20-byte (or longer, with options)
/// header. The checksum field itself must be zero in `header` when called.
pub fn ipv4_checksum(header: &[u8]) -> (checksum: u16)
    requires
        sum_fits(header@),
    ensures
        checksum == checksum_of(word_sum(header@)),
{
    proof {
        lemma_word_sum_bound(header@);
    }
    ones_complement_fold(sum16(header, 0))
}

/// Compute the UDP checksum given the IPv4 pseudo-header fields and the UDP
/// header+payload slice (`udp` = 8-byte header followed by payload, with the
/// checksum field zeroed).
pub fn udp_checksum(src_ip: Ipv4Addr, dst_ip: Ipv4Addr, udp: &[u8]) -> (checksum: u16)
    requires
        udp_sum_fits(src_ip.0@, dst_ip.0@, udp@),
    ensures
        checksum == udp_checksum_of(src_ip.0@, dst_ip.0@, udp@),
        checksum != 0,
{
    let src: [u8; 4] = src_ip.octets();
    let dst: [u8; 4] = dst_ip.octets();
    let len: u64 = udp.len() as u64;
    let len32: u32 = #[verifier::truncate] (len as u32);
    assert(len as u32 == len % 0x1_0000_0000) by (bit_vector);
    proof {
        lemma_word_sum_bound(udp@);
        lemma_word_sum_bound(src@);
        lemma_word_sum_bound(dst@);
    }
    let addresses: u32 = sum16(dst.as_slice(), sum16(src.as_slice(), 0));
    let pseudo: u32 = addresses + IPPROTO_UDP as u32 + len32;
    let checksum: u16 = ones_complement_fold(sum16(udp, pseudo));
    if checksum == 0 {
        0xffff
    } else {
        checksum
    }
}

} // verus!
