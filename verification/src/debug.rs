//! `Debug` for the address types: an address shows as its text.

use core::fmt::{Debug, Formatter};

use vstd::prelude::*;

use crate::addr::{Ipv4Addr, MacAddr};
use crate::ip_text::ip_text;
use crate::mac_text::mac_text;

verus! {

/// `core::fmt::Formatter`, where a `Debug` impl writes its text.
#[verifier::external_type_specification]
#[verifier::external_body]
pub struct ExFormatter<'a>(Formatter<'a>);

/// `core::fmt::Error`, with which a formatter says that it could not write.
#[verifier::external_type_specification]
#[verifier::external_body]
pub struct ExError(core::fmt::Error);

/// The text that was written to the buffer of a formatter.
pub uninterp spec fn written(f: Formatter<'_>) -> Seq<char>;

/// The width and the precision that a formatter was made with.
pub uninterp spec fn width_and_precision(f: Formatter<'_>) -> (Option<usize>, Option<usize>);

/// `core::fmt::Formatter::write_str` writes all of `data` to the buffer, or fails.
/// What the buffer holds after a failure is not said.
pub assume_specification<'a>[ Formatter::<'a>::write_str ](
    f: &mut Formatter<'a>,
    data: &str,
) -> (outcome: core::fmt::Result)
    ensures
        outcome is Ok ==> written(*final(f)) == written(*old(f)) + data@,
;

/// `core::fmt::Formatter::pad` writes `s` to the buffer after applying the width
/// and the precision, or fails. Where the formatter has neither, that is `s` as it
/// is. Fill and alignment, which matter where there is a width, are not said.
pub assume_specification<'a>[ Formatter::<'a>::pad ](f: &mut Formatter<'a>, s: &str) -> (outcome:
    core::fmt::Result)
    ensures
        outcome is Ok && width_and_precision(*old(f)) == (None::<usize>, None::<usize>)
            ==> written(*final(f)) == written(*old(f)) + s@,
;

impl Debug for MacAddr {
    /// Write the address as text, such as `52:54:00:11:22:33`, whatever width the
    /// formatter has.
    fn fmt(&self, f: &mut Formatter<'_>) -> (outcome: core::fmt::Result)
        ensures
            outcome is Ok ==> written(*final(f)) == written(*old(f)) + mac_text(self.0@),
    {
        f.write_str(self.to_string().as_str())
    }
}

impl Debug for Ipv4Addr {
    /// Write the address as text, such as `10.11.0.1`, padded to the width of the
    /// formatter.
    fn fmt(&self, f: &mut Formatter<'_>) -> (outcome: core::fmt::Result)
        ensures
            outcome is Ok && width_and_precision(*old(f)) == (None::<usize>, None::<usize>)
                ==> written(*final(f)) == written(*old(f)) + ip_text(self.0@),
    {
        f.pad(self.to_string().as_str())
    }
}

} // verus!
