//! The text form of an IPv4 address: four decimal octets separated by dots.

use vstd::prelude::*;

use crate::addr::Ipv4Addr;
use crate::mac_text::{hex_digit, hex_str};

verus! {

/// The decimal digits of an octet, without leading zeros.
pub open spec fn decimal_text(octet: u8) -> Seq<char> {
    let ones = hex_digit(octet % 10);
    let tens = hex_digit(octet / 10 % 10);
    let hundreds = hex_digit(octet / 100);
    if octet < 10 {
        seq![ones]
    } else if octet < 100 {
        seq![tens, ones]
    } else {
        seq![hundreds, tens, ones]
    }
}

/// The four octets in decimal, with dots between them.
pub open spec fn ip_text(octets: Seq<u8>) -> Seq<char> {
    decimal_text(octets[0]) + seq!['.'] + decimal_text(octets[1]) + seq!['.'] + decimal_text(
        octets[2],
    ) + seq!['.'] + decimal_text(octets[3])
}

/// Append the decimal digits of `octet` to `text`.
fn append_decimal(text: &mut String, octet: u8)
    ensures
        final(text)@ == old(text)@ + decimal_text(octet),
{
    if octet >= 100 {
        text.append(hex_str(octet / 100));
    }
    if octet >= 10 {
        text.append(hex_str(octet / 10 % 10));
    }
    text.append(hex_str(octet % 10));
    assert(text@ =~= old(text)@ + decimal_text(octet));
}

impl Ipv4Addr {
    /// The address as text, such as `10.11.0.1`.
    pub fn to_string(&self) -> (text: String)
        ensures
            text@ == ip_text(self.0@),
    {
        proof {
            reveal_strlit(".");
        }
        let mut text: String = String::new();
        append_decimal(&mut text, self.0[0]);
        text.append(".");
        append_decimal(&mut text, self.0[1]);
        text.append(".");
        append_decimal(&mut text, self.0[2]);
        text.append(".");
        append_decimal(&mut text, self.0[3]);
        assert(text@ =~= ip_text(self.0@));
        text
    }
}

/// The digits of an octet make its number, and there are no more of them than it
/// takes.
pub proof fn decimal_text_is_the_number(octet: u8)
    ensures
        ({
            let text = decimal_text(octet);
            &&& 1 <= text.len() <= 3
            &&& forall|i: int| 0 <= i < text.len() ==> '0' as int <= #[trigger] text[i] as int <= '9' as int
            &&& text.len() > 1 ==> text[0] != '0'
            &&& text.len() == 1 ==> octet == text[0] as int - '0' as int
            &&& text.len() == 2 ==> octet == (text[0] as int - '0' as int) * 10 + (text[1] as int - '0' as int)
            &&& text.len() == 3 ==> octet == (text[0] as int - '0' as int) * 100 + (text[1] as int - '0' as int) * 10 + (text[2] as int - '0' as int)
        }),
{
}

/// The text of an address is its four numbers, in order, with a dot after each but
/// the last.
pub proof fn text_is_four_numbers(a: u8, b: u8, c: u8, d: u8)
    ensures
        ip_text(seq![a, b, c, d]) == decimal_text(a) + "."@ + decimal_text(b) + "."@
            + decimal_text(c) + "."@ + decimal_text(d),
{
    reveal_strlit(".");
    assert(seq!['.'] =~= "."@);
}

} // verus!
