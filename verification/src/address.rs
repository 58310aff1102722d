use vstd::prelude::*;

verus! {

/// A network peer's identity: an IPv4 or IPv6 host and a port.
///
/// Addresses are opaque, comparable values; they key the visited store's
/// dedup gate and ride through the frontier queue as work items. An IPv4
/// host is its four octets; an IPv6 host is its eight 16-bit groups.
#[derive(Clone, Copy, PartialEq, Eq, Structural, Hash, Debug)]
pub enum Address {
    V4 { o1: u8, o2: u8, o3: u8, o4: u8, port: u16 },
    V6 { s1: u16, s2: u16, s3: u16, s4: u16, s5: u16, s6: u16, s7: u16, s8: u16, port: u16 },
}

impl Address {
    /// Builds the IPv4 address `o1.o2.o3.o4:port`.
    pub fn v4(o1: u8, o2: u8, o3: u8, o4: u8, port: u16) -> (r: Address)
        ensures
            r == (Address::V4 { o1, o2, o3, o4, port }),
    {
        Address::V4 { o1, o2, o3, o4, port }
    }

    /// Builds the IPv6 address whose groups are `s1` through `s8`, most
    /// significant first.
    pub fn v6(
        s1: u16,
        s2: u16,
        s3: u16,
        s4: u16,
        s5: u16,
        s6: u16,
        s7: u16,
        s8: u16,
        port: u16,
    ) -> (r: Address)
        ensures
            r == (Address::V6 { s1, s2, s3, s4, s5, s6, s7, s8, port }),
    {
        Address::V6 { s1, s2, s3, s4, s5, s6, s7, s8, port }
    }
}

} // verus!
