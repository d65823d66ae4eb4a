//! Endpoint network identity as a plain value.
//!
//! The aggregation core never parses or formats addresses; it only compares
//! them for equality and uses them as a deterministic tie-break. An address is
//! therefore carried as the 128-bit value of the IPv6 form, with IPv4
//! addresses in their IPv4-mapped form (`::ffff:a.b.c.d`). The collection
//! layer converts to and from the operating system's address types.

use vstd::prelude::*;

verus! {

/// One endpoint's network address, as the 128-bit value of its IPv6 form.
#[derive(Debug, Clone, Copy, PartialEq, Eq, Structural)]
pub struct IpAddress {
    pub value: u128,
}

impl IpAddress {
    /// Wraps a raw 128-bit address value.
    pub fn new(value: u128) -> (r: IpAddress)
        ensures
            r.value == value,
    {
        IpAddress { value }
    }
}

} // verus!
