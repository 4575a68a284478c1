//! The text form of a MAC address: six hexadecimal octets separated by colons.

use vstd::prelude::*;
use vstd::slice::slice_subrange;

use crate::addr::MacAddr;

verus! {

/// The character for a value below 16, in lower case.
pub open spec fn hex_digit(value: u8) -> char {
    if value < 10 {
        ('0' as u8 + value) as char
    } else {
        ('a' as u8 + value - 10) as char
    }
}

/// The two characters for an octet.
pub open spec fn octet_text(octet: u8) -> Seq<char> {
    seq![hex_digit((octet / 16) as u8), hex_digit((octet % 16) as u8)]
}

/// The octets in two characters each, with colons between them.
pub open spec fn mac_text(octets: Seq<u8>) -> Seq<char>
    decreases octets.len(),
{
    if octets.len() == 0 {
        Seq::empty()
    } else if octets.len() == 1 {
        octet_text(octets[0])
    } else {
        mac_text(octets.drop_last()) + seq![':'] + octet_text(octets.last())
    }
}

/// The character for a value below 16, as a string.
pub(crate) fn hex_str(value: u8) -> (digit: &'static str)
    requires
        value < 16,
    ensures
        digit@ == seq![hex_digit(value)],
{
    proof {
        reveal_strlit("0");
        reveal_strlit("1");
        reveal_strlit("2");
        reveal_strlit("3");
        reveal_strlit("4");
        reveal_strlit("5");
        reveal_strlit("6");
        reveal_strlit("7");
        reveal_strlit("8");
        reveal_strlit("9");
        reveal_strlit("a");
        reveal_strlit("b");
        reveal_strlit("c");
        reveal_strlit("d");
        reveal_strlit("e");
        reveal_strlit("f");
    }
    match value {
        0 => "0",
        1 => "1",
        2 => "2",
        3 => "3",
        4 => "4",
        5 => "5",
        6 => "6",
        7 => "7",
        8 => "8",
        9 => "9",
        10 => "a",
        11 => "b",
        12 => "c",
        13 => "d",
        14 => "e",
        _ => "f",
    }
}

impl MacAddr {
    /// The address as text, such as `52:54:00:11:22:33`.
    pub fn to_string(&self) -> (text: String)
        ensures
            text@ == mac_text(self.0@),
    {
        let mut text: String = String::new();
        let mut i: usize = 0;
        while i < 6
            invariant
                i <= 6,
                text@ == mac_text(self.0@.take(i as int)),
            decreases 6 - i,
        {
            proof {
                reveal_strlit(":");
                let next = self.0@.take(i + 1);
                assert(next.drop_last() =~= self.0@.take(i as int));
            }
            if i > 0 {
                text.append(":");
            }
            text.append(hex_str(self.0[i] / 16));
            text.append(hex_str(self.0[i] % 16));
            i = i + 1;
            assert(text@ =~= mac_text(self.0@.take(i as int)));
        }
        assert(self.0@.take(6) =~= self.0@);
        text
    }
}

/// The value of a hexadecimal digit in either case.
pub open spec fn digit_value(byte: u8) -> Option<nat> {
    if '0' as u8 <= byte <= '9' as u8 {
        Some((byte - '0' as u8) as nat)
    } else if 'a' as u8 <= byte <= 'f' as u8 {
        Some((byte - 'a' as u8 + 10) as nat)
    } else if 'A' as u8 <= byte <= 'F' as u8 {
        Some((byte - 'A' as u8 + 10) as nat)
    } else {
        None
    }
}

/// The number that hexadecimal digits stand for.
pub open spec fn hex_value(digits: Seq<u8>) -> nat
    decreases digits.len(),
{
    if digits.len() == 0 {
        0
    } else {
        match digit_value(digits.last()) {
            Some(value) => hex_value(digits.drop_last()) * 16 + value,
            None => 0,
        }
    }
}

/// Whether all bytes are hexadecimal digits.
pub open spec fn all_digits(bytes: Seq<u8>) -> bool {
    forall|i: int| 0 <= i < bytes.len() ==> digit_value(#[trigger] bytes[i]) is Some
}

/// What is left of a number after the plus sign that may precede it.
pub open spec fn without_plus(group: Seq<u8>) -> Seq<u8> {
    if group.len() > 1 && group[0] == '+' as u8 {
        group.skip(1)
    } else {
        group
    }
}

/// The octet that a group of hexadecimal digits stands for: one digit or more,
/// perhaps with a plus sign in front, that make a number below 256.
pub open spec fn octet_of(group: Seq<u8>) -> Option<u8> {
    let digits = without_plus(group);
    if digits.len() > 0 && all_digits(digits) && hex_value(digits) < 256 {
        Some(hex_value(digits) as u8)
    } else {
        None
    }
}

/// The position of the first colon, or the length if there is none.
pub open spec fn group_end(text: Seq<u8>) -> nat
    decreases text.len(),
{
    if text.len() == 0 || text[0] == ':' as u8 {
        0
    } else {
        1 + group_end(text.skip(1))
    }
}

/// The groups between the colons of `text`.
pub open spec fn groups(text: Seq<u8>) -> Seq<Seq<u8>>
    decreases text.len(),
{
    let end = group_end(text) as int;
    if end < text.len() {
        seq![text.take(end)] + groups(text.skip(end + 1))
    } else {
        seq![text]
    }
}

/// The address that `text` stands for: six groups, each of them an octet.
pub open spec fn mac_of(text: Seq<u8>) -> Option<Seq<u8>> {
    let parts = groups(text);
    if parts.len() == 6 && forall|i: int| 0 <= i < 6 ==> octet_of(#[trigger] parts[i]) is Some {
        Some(Seq::new(6, |i: int| octet_of(parts[i])->0))
    } else {
        None
    }
}

proof fn lemma_group_end(text: Seq<u8>, end: nat)
    requires
        end <= text.len(),
        forall|i: int| 0 <= i < end ==> text[i] != ':' as u8,
        end == text.len() || text[end as int] == ':' as u8,
    ensures
        group_end(text) == end,
    decreases text.len(),
{
    if end > 0 {
        lemma_group_end(text.skip(1), (end - 1) as nat);
    }
}

proof fn lemma_hex_value_grows(digits: Seq<u8>, n: int)
    requires
        all_digits(digits),
        0 <= n <= digits.len(),
    ensures
        hex_value(digits.take(n)) <= hex_value(digits),
    decreases digits.len(),
{
    if n == digits.len() {
        assert(digits.take(n) =~= digits);
    } else {
        lemma_hex_value_grows(digits.drop_last(), n);
        assert(digits.drop_last().take(n) =~= digits.take(n));
        assert(digit_value(digits[digits.len() - 1]) is Some);
    }
}

/// The value of a hexadecimal digit in either case.
fn parse_digit(byte: u8) -> (value: Option<u8>)
    ensures
        match value {
            Some(value) => digit_value(byte) == Some(value as nat) && value < 16,
            None => digit_value(byte) is None,
        },
{
    if '0' as u8 <= byte && byte <= '9' as u8 {
        Some(byte - '0' as u8)
    } else if 'a' as u8 <= byte && byte <= 'f' as u8 {
        Some(byte - 'a' as u8 + 10)
    } else if 'A' as u8 <= byte && byte <= 'F' as u8 {
        Some(byte - 'A' as u8 + 10)
    } else {
        None
    }
}

/// The octet that a group of hexadecimal digits stands for.
fn parse_octet(group: &[u8]) -> (octet: Option<u8>)
    ensures
        octet == octet_of(group@),
{
    let start: usize = if group.len() > 1 && group[0] == '+' as u8 {
        1
    } else {
        0
    };
    let ghost digits = without_plus(group@);
    assert(digits =~= group@.skip(start as int));
    if group.len() == start {
        return None;
    }
    let mut value: u8 = 0;
    let mut i: usize = start;
    assert(digits.take(0) =~= Seq::empty());
    while i < group.len()
        invariant
            start <= i <= group@.len(),
            start < group@.len(),
            digits == without_plus(group@),
            digits == group@.skip(start as int),
            all_digits(digits.take(i - start)),
            value == hex_value(digits.take(i - start)),
        decreases group@.len() - i,
    {
        let ghost n = i - start;
        let ghost next = digits.take(n + 1);
        proof {
            assert(next.drop_last() =~= digits.take(n));
            assert(next.last() == group@[i as int]);
            assert(digits[n] == group@[i as int]);
        }
        match parse_digit(group[i]) {
            None => {
                return None;
            },
            Some(digit) => {
                let wide: u16 = value as u16 * 16 + digit as u16;
                proof {
                    assert forall|j: int| 0 <= j < next.len() implies digit_value(
                        #[trigger] next[j],
                    ) is Some by {
                        if j < n {
                            assert(digits.take(n)[j] == next[j]);
                        }
                    }
                    assert(wide == hex_value(next));
                }
                if wide > 0xff {
                    proof {
                        if all_digits(digits) {
                            lemma_hex_value_grows(digits, n + 1);
                        }
                    }
                    return None;
                }
                value = wide as u8;
            },
        }
        i = i + 1;
    }
    assert(digits.take(digits.len() as int) =~= digits);
    Some(value)
}

/// Parse the text form of a MAC address, such as `52:54:00:11:22:33`.
pub fn parse_mac(text: &[u8]) -> (mac: Option<MacAddr>)
    ensures
        match mac {
            Some(mac) => mac_of(text@) == Some(mac.0@),
            None => mac_of(text@) is None,
        },
{
    let mut octets: [u8; 6] = [0, 0, 0, 0, 0, 0];
    let mut start: usize = 0;
    let mut count: usize = 0;
    let ghost parts = groups(text@);
    assert(text@.skip(0) =~= text@);
    loop
        invariant
            count < 6,
            start <= text@.len(),
            parts == groups(text@),
            parts.len() == count + groups(text@.skip(start as int)).len(),
            parts.skip(count as int) == groups(text@.skip(start as int)),
            forall|i: int| 0 <= i < count ==> octet_of(#[trigger] parts[i]) == Some(octets@[i]),
        decreases text@.len() - start,
    {
        let ghost rest = text@.skip(start as int);
        let mut end: usize = start;
        while end < text.len() && text[end] != ':' as u8
            invariant
                start <= end <= text@.len(),
                rest == text@.skip(start as int),
                forall|i: int| 0 <= i < end - start ==> rest[i] != ':' as u8,
            decreases text@.len() - end,
        {
            end = end + 1;
        }
        proof {
            lemma_group_end(rest, (end - start) as nat);
            assert(text@.subrange(start as int, end as int) =~= rest.take(end - start));
            assert(rest.take(end - start) =~= parts.skip(count as int)[0]);
            assert(parts[count as int] == rest.take(end - start));
        }
        match parse_octet(slice_subrange(text, start, end)) {
            None => {
                return None;
            },
            Some(octet) => {
                octets[count] = octet;
            },
        }
        if end == text.len() {
            assert(parts.len() == count + 1);
            if count != 5 {
                return None;
            }
            let ghost found = mac_of(text@)->0;
            assert(found =~= octets@);
            return Some(MacAddr(octets));
        }
        proof {
            assert(text@.skip(end + 1) =~= rest.skip(end - start + 1));
            assert(parts.skip(count + 1) =~= parts.skip(count as int).skip(1));
            assert(parts.skip(count + 1) =~= groups(text@.skip(end + 1)));
        }
        if count == 5 {
            assert(groups(text@.skip(end + 1)).len() > 0);
            return None;
        }
        count = count + 1;
        start = end + 1;
    }
}

/// The bytes of a text of ASCII characters.
pub open spec fn ascii(text: Seq<char>) -> Seq<u8> {
    text.map_values(|c: char| c as u8)
}

proof fn lemma_octet_roundtrip(octet: u8)
    ensures
        octet_of(ascii(octet_text(octet))) == Some(octet),
        ascii(octet_text(octet)).len() == 2,
        ascii(octet_text(octet))[0] != ':' as u8,
        ascii(octet_text(octet))[1] != ':' as u8,
{
    let group = ascii(octet_text(octet));
    let hi = (octet / 16) as u8;
    let lo = (octet % 16) as u8;
    assert(digit_value(group[0]) == Some(hi as nat));
    assert(digit_value(group[1]) == Some(lo as nat));
    assert(without_plus(group) == group);
    assert(group.drop_last().drop_last() =~= Seq::empty());
    reveal_with_fuel(hex_value, 3);
    assert(group.drop_last().last() == group[0]);
    assert(hex_value(group) == hi * 16 + lo);
}

/// The groups of the text of an address are the texts of its octets.
proof fn lemma_groups_of_text(octets: Seq<u8>)
    requires
        octets.len() > 0,
    ensures
        groups(ascii(mac_text(octets))) == octets.map_values(|o: u8| ascii(octet_text(o))),
    decreases octets.len(),
{
    let texts = octets.map_values(|o: u8| ascii(octet_text(o)));
    let text = ascii(mac_text(octets));
    lemma_octet_roundtrip(octets[0]);
    if octets.len() == 1 {
        assert(text == ascii(octet_text(octets[0])));
        lemma_group_end(text, 2);
        assert(groups(text) =~= texts);
    } else {
        let rest = octets.skip(1);
        lemma_text_from_front(octets);
        lemma_groups_of_text(rest);
        assert(text =~= ascii(octet_text(octets[0])) + seq![':' as u8] + ascii(mac_text(rest)));
        lemma_group_end(text, 2);
        assert(text.take(2) =~= ascii(octet_text(octets[0])));
        assert(text.skip(3) =~= ascii(mac_text(rest)));
        assert(groups(text) =~= texts);
    }
}

/// The text of an address starts with its first octet.
proof fn lemma_text_from_front(octets: Seq<u8>)
    requires
        octets.len() > 1,
    ensures
        mac_text(octets) == octet_text(octets[0]) + seq![':'] + mac_text(octets.skip(1)),
    decreases octets.len(),
{
    let rest = octets.skip(1);
    reveal_with_fuel(mac_text, 2);
    if octets.len() == 2 {
        assert(octets.drop_last().len() == 1);
        assert(mac_text(octets) =~= octet_text(octets[0]) + seq![':'] + mac_text(rest));
    } else {
        lemma_text_from_front(octets.drop_last());
        assert(octets.drop_last().skip(1) =~= rest.drop_last());
        assert(mac_text(octets) =~= octet_text(octets[0]) + seq![':'] + mac_text(rest));
    }
}

/// Parsing the text of an address gives the address back.
pub proof fn parse_undoes_to_string(octets: Seq<u8>)
    requires
        octets.len() == 6,
    ensures
        mac_of(ascii(mac_text(octets))) == Some(octets),
{
    let parts = groups(ascii(mac_text(octets)));
    lemma_groups_of_text(octets);
    assert forall|i: int| 0 <= i < 6 implies octet_of(#[trigger] parts[i]) == Some(octets[i]) by {
        lemma_octet_roundtrip(octets[i]);
    }
    assert(mac_of(ascii(mac_text(octets)))->0 =~= octets);
}

proof fn lemma_hex_digit(value: u8)
    requires
        value < 16,
    ensures
        "0123456789abcdef"@.len() == 16,
        hex_digit(value) == "0123456789abcdef"@[value as int],
{
    reveal_strlit("0123456789abcdef");
}

proof fn lemma_text_layout(octets: Seq<u8>)
    requires
        octets.len() > 0,
    ensures
        mac_text(octets).len() == 3 * octets.len() - 1,
        forall|i: int|
            #![trigger octets[i]]
            0 <= i < octets.len() ==> {
                &&& mac_text(octets)[3 * i] == "0123456789abcdef"@[octets[i] as int / 16]
                &&& mac_text(octets)[3 * i + 1] == "0123456789abcdef"@[octets[i] as int % 16]
                &&& i > 0 ==> mac_text(octets)[3 * i - 1] == ':'
            },
    decreases octets.len(),
{
    let last = octets.len() - 1;
    lemma_hex_digit((octets[last] / 16) as u8);
    lemma_hex_digit((octets[last] % 16) as u8);
    if last > 0 {
        let front = octets.drop_last();
        lemma_text_layout(front);
        assert forall|i: int| #![trigger octets[i]] 0 <= i < octets.len() implies {
            &&& mac_text(octets)[3 * i] == "0123456789abcdef"@[octets[i] as int / 16]
            &&& mac_text(octets)[3 * i + 1] == "0123456789abcdef"@[octets[i] as int % 16]
            &&& i > 0 ==> mac_text(octets)[3 * i - 1] == ':'
        } by {
            if i < last {
                assert(front[i] == octets[i]);
            }
        }
    }
}

/// The text of an address, character by character: two lower-case hexadecimal
/// digits for each octet, the upper four bits first, and a colon between octets.
pub proof fn text_is_two_digits_an_octet(octets: Seq<u8>)
    requires
        octets.len() == 6,
    ensures
        mac_text(octets).len() == 17,
        forall|i: int|
            #![trigger octets[i]]
            0 <= i < 6 ==> {
                &&& mac_text(octets)[3 * i] == "0123456789abcdef"@[octets[i] as int / 16]
                &&& mac_text(octets)[3 * i + 1] == "0123456789abcdef"@[octets[i] as int % 16]
                &&& i > 0 ==> mac_text(octets)[3 * i - 1] == ':'
            },
{
    lemma_text_layout(octets);
}

/// The bytes of a text, one for each character.
pub proof fn ascii_keeps_characters(text: Seq<char>)
    ensures
        ascii(text).len() == text.len(),
        forall|i: int| 0 <= i < text.len() ==> #[trigger] ascii(text)[i] == text[i] as u8,
{
}

/// The sixteen digits, in either case, have the values 0 to 15 in order, and no
/// other byte has one.
pub proof fn digits_have_their_values(byte: u8, value: nat)
    ensures
        digit_value(byte) == Some(value) <==> value < 16 && (byte
            == "0123456789abcdef"@[value as int] as u8 || byte
            == "0123456789ABCDEF"@[value as int] as u8),
        digit_value(byte) matches Some(v) ==> v < 16,
{
    reveal_strlit("0123456789abcdef");
    reveal_strlit("0123456789ABCDEF");
}

/// Reading an octet digit by digit: a further digit adds to sixteen times what was
/// read, as long as the number stays below 256, and anything but a digit spoils the
/// group. One plus sign in front of a digit is read over. This fixes the reading
/// of every group.
pub proof fn octet_is_read_digit_by_digit(group: Seq<u8>, byte: u8)
    ensures
        octet_of(Seq::empty()) is None,
        digit_value(byte) is None ==> octet_of(group.push(byte)) is None,
        digit_value(byte) matches Some(digit) ==> {
            &&& group.len() == 0 || group == seq!['+' as u8] ==> octet_of(group.push(byte)) == Some(
                digit as u8,
            )
            &&& group.len() > 0 && group != seq!['+' as u8] ==> octet_of(group.push(byte)) == (
            match octet_of(group) {
                Some(read) => if read * 16 + digit < 256 {
                    Some((read * 16 + digit) as u8)
                } else {
                    None
                },
                None => None,
            })
        },
{
    let longer = group.push(byte);
    let digits = without_plus(longer);
    digits_have_their_values(byte, 0);
    assert(longer.last() == byte && digits.last() == byte);
    if digit_value(byte) is None {
        assert(digit_value(digits[digits.len() - 1]) is None);
    } else if group.len() == 0 || group == seq!['+' as u8] {
        assert(digits =~= seq![byte]);
        assert(digits.drop_last() =~= Seq::empty());
        reveal_with_fuel(hex_value, 2);
    } else {
        let read = without_plus(group);
        if group.len() == 1 {
            assert(longer[0] == group[0]);
            assert(group =~= seq![group[0]]);
        }
        assert(digits =~= read.push(byte));
        assert(digits.drop_last() =~= read);
        assert(all_digits(digits) <==> all_digits(read)) by {
            assert forall|i: int| 0 <= i < read.len() implies digits[i] == read[i] by {}
            if all_digits(digits) {
                assert forall|i: int| 0 <= i < read.len() implies digit_value(
                    #[trigger] read[i],
                ) is Some by {
                    assert(digit_value(digits[i]) is Some);
                }
            }
        }
    }
}

/// A colon ends a group: the groups of a text are what stands before the first
/// colon and the groups of what follows it, and a text without a colon is one
/// group.
pub proof fn colons_separate_groups(group: Seq<u8>, rest: Seq<u8>)
    requires
        !group.contains(':' as u8),
    ensures
        groups(group) == seq![group],
        groups(group + seq![':' as u8] + rest) == seq![group] + groups(rest),
{
    let text = group + seq![':' as u8] + rest;
    assert forall|i: int| 0 <= i < group.len() implies group[i] != ':' as u8 by {
        assert(group.contains(group[i]));
    }
    lemma_group_end(group, group.len());
    lemma_group_end(text, group.len());
    assert(text.take(group.len() as int) =~= group);
    assert(text.skip(group.len() as int + 1) =~= rest);
}

/// An address is six groups, each of them an octet, in order.
pub proof fn address_is_six_octets(text: Seq<u8>)
    ensures
        match mac_of(text) {
            Some(octets) => {
                &&& groups(text).len() == 6
                &&& octets.len() == 6
                &&& forall|i: int|
                    0 <= i < 6 ==> octet_of(#[trigger] groups(text)[i]) == Some(octets[i])
            },
            None => groups(text).len() != 6 || exists|i: int|
                0 <= i < 6 && octet_of(#[trigger] groups(text)[i]) is None,
        },
{
}

} // verus!
