use vstd::prelude::*;

verus! {

/// An IP address as a number: 32 bits for version 4, 128 bits for version 6,
/// the first byte of the address being the most significant.
#[derive(Clone, Copy, Debug, PartialEq, Eq, Hash, Structural)]
pub enum IpAddress {
    V4(u32),
    V6(u128),
}

/// The address family of a socket.
#[derive(Clone, Copy, Debug, PartialEq, Eq, Hash, Structural)]
pub enum AddressFamily {
    V4,
    V6,
}

/// A transport address: an IP address and a port.
#[derive(Clone, Copy, Debug, PartialEq, Eq, Hash, Structural)]
pub struct SocketAddress {
    pub ip: IpAddress,
    pub port: u16,
}

impl IpAddress {
    /// The version 4 address `a.b.c.d`.
    pub fn v4(a: u8, b: u8, c: u8, d: u8) -> (ip: IpAddress)
        ensures
            ip == IpAddress::V4(crate::id::be32(a, b, c, d) as u32),
    {
        IpAddress::V4(
            (a as u32) * 0x100_0000 + (b as u32) * 0x1_0000 + (c as u32) * 0x100 + (d as u32),
        )
    }

    pub open spec fn spec_family(self) -> AddressFamily {
        match self {
            IpAddress::V4(_) => AddressFamily::V4,
            IpAddress::V6(_) => AddressFamily::V6,
        }
    }

    /// The family that the address belongs to.
    pub fn family(&self) -> (f: AddressFamily)
        ensures
            f == self.spec_family(),
    {
        match self {
            IpAddress::V4(_) => AddressFamily::V4,
            IpAddress::V6(_) => AddressFamily::V6,
        }
    }
}

impl IpAddress {
    /// The address as a number; every address of version 4 comes before
    /// every address of version 6.
    pub open spec fn spec_rank(self) -> int {
        match self {
            IpAddress::V4(ip) => ip as int,
            IpAddress::V6(ip) => 0x1_0000_0000 + ip as int,
        }
    }

    /// Whether the address comes before `other` in the order of the addresses.
    pub fn before(&self, other: &IpAddress) -> (r: bool)
        ensures
            r == (self.spec_rank() < other.spec_rank()),
    {
        match (self, other) {
            (IpAddress::V4(a), IpAddress::V4(b)) => *a < *b,
            (IpAddress::V4(_), IpAddress::V6(_)) => true,
            (IpAddress::V6(_), IpAddress::V4(_)) => false,
            (IpAddress::V6(a), IpAddress::V6(b)) => *a < *b,
        }
    }
}

impl SocketAddress {
    /// Whether the address comes before `other` in the order of the socket
    /// addresses: by the IP address, and by the port where that is the same.
    pub open spec fn spec_before(self, other: SocketAddress) -> bool {
        self.ip.spec_rank() < other.ip.spec_rank() || (self.ip.spec_rank() == other.ip.spec_rank()
            && self.port < other.port)
    }

    /// Whether the address comes before `other` in the order of the socket addresses.
    pub fn before(&self, other: &SocketAddress) -> (r: bool)
        ensures
            r == self.spec_before(*other),
    {
        self.ip.before(&other.ip) || (!other.ip.before(&self.ip) && self.port < other.port)
    }

    pub fn new(ip: IpAddress, port: u16) -> (addr: SocketAddress)
        ensures
            addr == (SocketAddress { ip, port }),
    {
        SocketAddress { ip, port }
    }

    pub fn ip(&self) -> (ip: IpAddress)
        ensures
            ip == self.ip,
    {
        self.ip
    }

    pub fn port(&self) -> (port: u16)
        ensures
            port == self.port,
    {
        self.port
    }

    pub open spec fn spec_is_ipv4(self) -> bool {
        self.ip is V4
    }

    pub fn is_ipv4(&self) -> (r: bool)
        ensures
            r == self.spec_is_ipv4(),
    {
        match self.ip {
            IpAddress::V4(_) => true,
            IpAddress::V6(_) => false,
        }
    }

    pub fn is_ipv6(&self) -> (r: bool)
        ensures
            r == !self.spec_is_ipv4(),
    {
        !self.is_ipv4()
    }

    /// The same host on another port.
    pub fn with_port(&self, port: u16) -> (addr: SocketAddress)
        ensures
            addr == (SocketAddress { ip: self.ip, port }),
    {
        SocketAddress { ip: self.ip, port }
    }
}

} // verus!
