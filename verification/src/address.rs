use vstd::prelude::*;

verus! {

/// The network address of a backend host: an IP address and a port.
///
/// An IPv4 address is held as its 32-bit number (`127.0.0.1` is
/// `0x7f00_0001`), an IPv6 address as its 128-bit number together with the
/// flow information and scope id that a socket address carries.
#[allow(inconsistent_fields)]
#[derive(Debug, Clone, Copy, PartialEq, Eq, Structural)]
pub enum HostAddress {
    V4 { ip: u32, port: u16 },
    V6 { ip: u128, port: u16, flowinfo: u32, scope_id: u32 },
}

/// The IPv4 loopback address `127.0.0.1` as a number.
pub const LOCALHOST_V4: u32 = 0x7f00_0001u32;

impl HostAddress {
    /// The address `127.0.0.1:port`.
    pub fn localhost(port: u16) -> (addr: HostAddress)
        ensures
            addr == (HostAddress::V4 { ip: LOCALHOST_V4, port }),
    {
        HostAddress::V4 { ip: LOCALHOST_V4, port }
    }
}

} // verus!
