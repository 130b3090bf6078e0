//! IPv6 addresses.
use vstd::prelude::*;

verus! {

/// An IPv6 address, as the 128-bit number that its sixteen bytes denote.
#[derive(Debug, Clone, Copy, PartialEq, Eq, PartialOrd, Ord, Hash, Structural)]
pub struct Ipv6Addr {
    /// The address as a number, its first byte the most significant.
    pub bits: u128,
}

impl DeepView for Ipv6Addr {
    type V = Ipv6Addr;

    open spec fn deep_view(&self) -> Ipv6Addr {
        *self
    }
}

/// Appends a 16-bit segment to the number that the segments before it denote.
pub open spec fn append_segment(upper: int, segment: u16) -> int {
    upper * 0x1_0000 + segment
}

impl Ipv6Addr {
    /// The address with the given eight 16-bit segments, written
    /// `a:b:c:d:e:f:g:h`.
    pub fn new(a: u16, b: u16, c: u16, d: u16, e: u16, f: u16, g: u16, h: u16) -> (addr: Ipv6Addr)
        ensures
            addr.bits == ({
                let upper = append_segment(
                    append_segment(append_segment(a as int, b), c),
                    d,
                );
                append_segment(append_segment(append_segment(append_segment(upper, e), f), g), h)
            }),
    {
        let upper: u128 = ((a as u128 * 0x1_0000 + b as u128) * 0x1_0000 + c as u128) * 0x1_0000
            + d as u128;
        let bits: u128 = (((upper * 0x1_0000 + e as u128) * 0x1_0000 + f as u128) * 0x1_0000
            + g as u128) * 0x1_0000 + h as u128;
        Ipv6Addr { bits }
    }
}

} // verus!
