use vstd::prelude::*;

use crate::table::TableKey;

verus! {

/// A socket address: an IPv4 or IPv6 address with a port.
#[derive(Clone, Copy, Debug, PartialEq, Eq, Structural)]
pub enum SocketAddress {
    V4(u32, u16),
    V6(u128, u16),
}

impl SocketAddress {
    pub open spec fn port_spec(&self) -> u16 {
        match *self {
            SocketAddress::V4(_, port) => port,
            SocketAddress::V6(_, port) => port,
        }
    }

    /// The address with another port.
    pub open spec fn with_port(&self, port: u16) -> SocketAddress {
        match *self {
            SocketAddress::V4(ip, _) => SocketAddress::V4(ip, port),
            SocketAddress::V6(ip, _) => SocketAddress::V6(ip, port),
        }
    }

    pub fn port(&self) -> (port: u16)
        ensures
            port == self.port_spec(),
    {
        match *self {
            SocketAddress::V4(_, port) => port,
            SocketAddress::V6(_, port) => port,
        }
    }

    pub fn set_port(&mut self, port: u16)
        ensures
            *final(self) == old(self).with_port(port),
    {
        *self = match *self {
            SocketAddress::V4(ip, _) => SocketAddress::V4(ip, port),
            SocketAddress::V6(ip, _) => SocketAddress::V6(ip, port),
        };
    }
}

impl TableKey for SocketAddress {
    fn same(&self, other: &Self) -> (result: bool) {
        *self == *other
    }
}

/// A request sent to an address, identified by its packet index.
#[derive(Clone, Copy, Debug, PartialEq, Eq, Structural)]
pub struct RequestKey {
    pub address: SocketAddress,
    pub index: u8,
}

impl TableKey for RequestKey {
    fn same(&self, other: &Self) -> (result: bool) {
        *self == *other
    }
}

} // verus!
