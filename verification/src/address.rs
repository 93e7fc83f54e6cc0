//! Network addresses: IP addresses, socket addresses, and the transport
//! addresses that peers advertise.

use crate::keys::{same_key, LookupKey};
use crate::peer_id::PeerId;
use crate::table::TableKey;
use vstd::prelude::*;

verus! {

/// An IP address, as the unsigned integer that its octets spell.
#[derive(Debug, Clone, Copy, PartialEq, Eq, Hash, Structural)]
pub enum IpAddr {
    /// IPv4 address.
    V4(u32),
    /// IPv6 address.
    V6(u128),
}

impl View for IpAddr {
    type V = IpAddr;

    open spec fn view(&self) -> IpAddr {
        *self
    }
}

impl TableKey for IpAddr {
    fn same(&self, other: &Self) -> (same: bool) {
        *self == *other
    }

    fn duplicate(&self) -> (copy: Self) {
        *self
    }
}

/// The integer that four octets spell.
pub open spec fn octets_value(a: u8, b: u8, c: u8, d: u8) -> int {
    ((a * 256 + b) * 256 + c) * 256 + d
}

/// The prefix `::ffff:0:0/96` that marks an IPv4 address inside IPv6.
pub const MAPPED_PREFIX: u128 = 0xffff;

impl IpAddr {
    /// The IPv4 address with the given octets.
    pub fn v4(a: u8, b: u8, c: u8, d: u8) -> (ip: Self)
        ensures
            ip == IpAddr::V4(octets_value(a, b, c, d) as u32),
            0 <= octets_value(a, b, c, d) <= 0xffff_ffff,
    {
        IpAddr::V4(((a as u32 * 256 + b as u32) * 256 + c as u32) * 256 + d as u32)
    }

    /// Whether this is the address of all zeros.
    pub open spec fn unspecified(self) -> bool {
        match self {
            IpAddr::V4(v) => v == 0,
            IpAddr::V6(v) => v == 0,
        }
    }

    /// Whether this is `127.0.0.0/8` or `::1`.
    pub open spec fn loopback(self) -> bool {
        match self {
            IpAddr::V4(v) => v / 0x100_0000 == 127,
            IpAddr::V6(v) => v == 1,
        }
    }

    /// Whether this is `10.0.0.0/8`, `172.16.0.0/12`, `192.168.0.0/16` or
    /// `fc00::/7`.
    pub open spec fn private(self) -> bool {
        match self {
            IpAddr::V4(v) => v / 0x100_0000 == 10 || v / 0x10_0000 == 172 * 16 + 1 || v / 0x1_0000
                == 192 * 256 + 168,
            IpAddr::V6(v) => v / 0x2_0000000000_0000000000_0000000000 == 0x7e,
        }
    }

    /// Whether this is `169.254.0.0/16` or `fe80::/10`.
    pub open spec fn link_local(self) -> bool {
        match self {
            IpAddr::V4(v) => v / 0x1_0000 == 169 * 256 + 254,
            IpAddr::V6(v) => v / 0x40_0000000000_0000000000_00000000 == 0x3fa,
        }
    }

    /// Whether this is `224.0.0.0/4` or `ff00::/8`.
    pub open spec fn multicast(self) -> bool {
        match self {
            IpAddr::V4(v) => v / 0x1000_0000 == 14,
            IpAddr::V6(v) => v / 0x1_0000000000_0000000000_0000000000 == 0xff,
        }
    }

    /// An IPv4 address that is written inside IPv6 stands for itself.
    pub open spec fn canonical(self) -> IpAddr {
        match self {
            IpAddr::V4(v) => IpAddr::V4(v),
            IpAddr::V6(v) => if v / 0x1_0000_0000 == MAPPED_PREFIX {
                IpAddr::V4((v % 0x1_0000_0000) as u32)
            } else {
                IpAddr::V6(v)
            },
        }
    }

    /// Whether an address, however it is written, is of local scope: loopback,
    /// private or link-local.
    pub open spec fn lan(self) -> bool {
        self.canonical().loopback() || self.canonical().private() || self.canonical().link_local()
    }

    /// Whether the address is all zeros.
    pub fn is_unspecified(&self) -> (result: bool)
        ensures
            result == self.unspecified(),
    {
        match self {
            IpAddr::V4(v) => *v == 0,
            IpAddr::V6(v) => *v == 0,
        }
    }

    /// Check if this is a loopback address.
    pub fn is_loopback(&self) -> (result: bool)
        ensures
            result == self.loopback(),
    {
        match self {
            IpAddr::V4(v) => *v / 0x100_0000 == 127,
            IpAddr::V6(v) => *v == 1,
        }
    }

    /// Check if this is a private address.
    pub fn is_private(&self) -> (result: bool)
        ensures
            result == self.private(),
    {
        match self {
            IpAddr::V4(v) => *v / 0x100_0000 == 10 || *v / 0x10_0000 == 172 * 16 + 1 || *v / 0x1_0000
                == 192 * 256 + 168,
            IpAddr::V6(v) => *v / 0x2_0000000000_0000000000_0000000000 == 0x7e,
        }
    }

    /// Check if this is a link-local address.
    pub fn is_link_local(&self) -> (result: bool)
        ensures
            result == self.link_local(),
    {
        match self {
            IpAddr::V4(v) => *v / 0x1_0000 == 169 * 256 + 254,
            IpAddr::V6(v) => *v / 0x40_0000000000_0000000000_00000000 == 0x3fa,
        }
    }

    /// Check if this is a multicast address.
    pub fn is_multicast(&self) -> (result: bool)
        ensures
            result == self.multicast(),
    {
        match self {
            IpAddr::V4(v) => *v / 0x1000_0000 == 14,
            IpAddr::V6(v) => *v / 0x1_0000000000_0000000000_0000000000 == 0xff,
        }
    }
}

/// Turn an IPv4 address that is written inside IPv6 into that IPv4 address.
pub fn canonicalize_ip(ip: IpAddr) -> (canonical: IpAddr)
    ensures
        canonical == ip.canonical(),
{
    match ip {
        IpAddr::V4(v) => IpAddr::V4(v),
        IpAddr::V6(v) => if v / 0x1_0000_0000 == MAPPED_PREFIX {
            IpAddr::V4((v % 0x1_0000_0000) as u32)
        } else {
            IpAddr::V6(v)
        },
    }
}

/// Whether an address is of local scope.
pub fn is_lan_ip(ip: IpAddr) -> (result: bool)
    ensures
        result == ip.lan(),
{
    let ip = canonicalize_ip(ip);
    ip.is_loopback() || ip.is_private() || ip.is_link_local()
}

/// An IP address with a port.
#[derive(Debug, Clone, Copy, PartialEq, Eq, Hash, Structural)]
pub struct SocketAddr {
    /// The IP address.
    pub ip: IpAddr,
    /// The port.
    pub port: u16,
    /// The flow label of an IPv6 socket address, zero for IPv4.
    pub flowinfo: u32,
    /// The scope of an IPv6 socket address, zero for IPv4.
    pub scope_id: u32,
}

impl SocketAddr {
    /// The socket address of an IP address and a port.
    pub fn new(ip: IpAddr, port: u16) -> (address: Self)
        ensures
            address == (SocketAddr { ip, port, flowinfo: 0, scope_id: 0 }),
    {
        SocketAddr { ip, port, flowinfo: 0, scope_id: 0 }
    }

    /// The same socket address with an IPv4 address written as such.
    pub open spec fn canonical(self) -> SocketAddr {
        match self.ip.canonical() {
            IpAddr::V4(v) => SocketAddr {
                ip: IpAddr::V4(v),
                port: self.port,
                flowinfo: 0,
                scope_id: 0,
            },
            IpAddr::V6(_) => self,
        }
    }

    /// The same socket address with an IPv4 address written as such.
    pub fn canonicalize(&self) -> (address: SocketAddr)
        ensures
            address == self.canonical(),
    {
        match canonicalize_ip(self.ip) {
            IpAddr::V4(v) => SocketAddr::new(IpAddr::V4(v), self.port),
            IpAddr::V6(_) => *self,
        }
    }
}

impl SocketAddr {
    /// The identity of the channel to a remote end: its canonical socket address
    /// without the flow label.
    pub open spec fn channel(self) -> SocketAddr {
        SocketAddr { flowinfo: 0, ..self.canonical() }
    }

    /// The identity of the channel to a remote end: its canonical socket address
    /// without the flow label.
    pub fn to_channel(&self) -> (channel: SocketAddr)
        ensures
            channel == self.channel(),
    {
        let remote = self.canonicalize();
        SocketAddr { ip: remote.ip, port: remote.port, flowinfo: 0, scope_id: remote.scope_id }
    }
}

/// How a peer is reached at a socket address.
#[derive(Debug, Clone, Copy, PartialEq, Eq, Hash)]
pub enum AddressTransport {
    /// Native QUIC.
    Quic,
    /// Signaling-free WebRTC, pinned to the hash of a certificate.
    WebRtcDirect {
        /// Hash of the certificate.
        certificate: LookupKey,
    },
}

/// A network address that a peer advertises.
#[derive(Debug, Clone, Copy, PartialEq, Eq, Hash)]
pub struct MultiAddr {
    /// The socket address (IP + port).
    pub socket_addr: SocketAddr,
    /// The transport spoken there.
    pub transport: AddressTransport,
    /// The peer that the address is bound to, where it says so.
    pub owner: Option<PeerId>,
}

impl MultiAddr {
    /// Create a new `MultiAddr` from a `SocketAddr`.
    #[must_use]
    pub fn new(socket_addr: SocketAddr) -> (address: Self)
        ensures
            address == (MultiAddr { socket_addr, transport: AddressTransport::Quic, owner: None }),
    {
        MultiAddr { socket_addr, transport: AddressTransport::Quic, owner: None }
    }

    /// The QUIC address of a socket.
    #[must_use]
    pub fn quic(socket_addr: SocketAddr) -> (address: Self)
        ensures
            address == (MultiAddr { socket_addr, transport: AddressTransport::Quic, owner: None }),
    {
        MultiAddr::new(socket_addr)
    }

    /// The WebRTC Direct address of a socket and a certificate hash.
    #[must_use]
    pub fn webrtc_direct(socket_addr: SocketAddr, certificate: LookupKey) -> (address: Self)
        ensures
            address == (MultiAddr {
                socket_addr,
                transport: AddressTransport::WebRtcDirect { certificate },
                owner: None,
            }),
    {
        MultiAddr {
            socket_addr,
            transport: AddressTransport::WebRtcDirect { certificate },
            owner: None,
        }
    }

    /// The same address, bound to a peer.
    #[must_use]
    pub fn with_peer_id(self, peer: PeerId) -> (address: Self)
        ensures
            address == (MultiAddr { owner: Some(peer), ..self }),
    {
        MultiAddr { socket_addr: self.socket_addr, transport: self.transport, owner: Some(peer) }
    }

    /// Create a `MultiAddr` from an IP address and port.
    #[must_use]
    pub fn from_ip_port(ip: IpAddr, port: u16) -> (address: Self)
        ensures
            address.socket_addr == (SocketAddr { ip, port, flowinfo: 0, scope_id: 0 }),
            address.transport is Quic,
            address.owner is None,
    {
        MultiAddr::new(SocketAddr::new(ip, port))
    }

    /// Create a `MultiAddr` from the bits of an IPv4 address and a port.
    #[must_use]
    pub fn from_ipv4(ip: u32, port: u16) -> (address: Self)
        ensures
            address.socket_addr == (SocketAddr {
                ip: IpAddr::V4(ip),
                port,
                flowinfo: 0,
                scope_id: 0,
            }),
            address.transport is Quic,
            address.owner is None,
    {
        MultiAddr::from_ip_port(IpAddr::V4(ip), port)
    }

    /// Create a `MultiAddr` from the bits of an IPv6 address and a port.
    #[must_use]
    pub fn from_ipv6(ip: u128, port: u16) -> (address: Self)
        ensures
            address.socket_addr == (SocketAddr {
                ip: IpAddr::V6(ip),
                port,
                flowinfo: 0,
                scope_id: 0,
            }),
            address.transport is Quic,
            address.owner is None,
    {
        MultiAddr::from_ip_port(IpAddr::V6(ip), port)
    }

    /// Get the IP address.
    #[must_use]
    pub fn ip(&self) -> (ip: IpAddr)
        ensures
            ip == self.socket_addr.ip,
    {
        self.socket_addr.ip
    }

    /// Get the port.
    pub fn port(&self) -> (port: u16)
        ensures
            port == self.socket_addr.port,
    {
        self.socket_addr.port
    }

    /// Check if this is an IPv4 address.
    pub fn is_ipv4(&self) -> (result: bool)
        ensures
            result == (self.socket_addr.ip is V4),
    {
        match self.socket_addr.ip {
            IpAddr::V4(_) => true,
            IpAddr::V6(_) => false,
        }
    }

    /// Check if this is an IPv6 address.
    pub fn is_ipv6(&self) -> (result: bool)
        ensures
            result == (self.socket_addr.ip is V6),
    {
        !self.is_ipv4()
    }

    /// Check if this is a loopback address.
    pub fn is_loopback(&self) -> (result: bool)
        ensures
            result == self.socket_addr.ip.loopback(),
    {
        self.socket_addr.ip.is_loopback()
    }

    /// Check if this is a private/local address.
    pub fn is_private(&self) -> (result: bool)
        ensures
            result == self.socket_addr.ip.private(),
    {
        self.socket_addr.ip.is_private()
    }

    /// Whether the address is spoken to over QUIC.
    pub fn is_quic(&self) -> (result: bool)
        ensures
            result == (self.transport is Quic),
    {
        match self.transport {
            AddressTransport::Quic => true,
            AddressTransport::WebRtcDirect { .. } => false,
        }
    }

    /// Whether the address is spoken to over WebRTC Direct.
    pub fn is_webrtc_direct(&self) -> (result: bool)
        ensures
            result == (self.transport is WebRtcDirect),
    {
        !self.is_quic()
    }

    /// The peer that the address is bound to.
    pub fn peer_id(&self) -> (peer: Option<PeerId>)
        ensures
            peer == self.owner,
    {
        self.owner
    }

    /// Whether the address names one endpoint: a specified IP address and a
    /// nonzero port.
    pub open spec fn storable(self) -> bool {
        !self.socket_addr.ip.unspecified() && self.socket_addr.port != 0
    }

    /// Whether the address names one endpoint.
    pub fn is_storable(&self) -> (result: bool)
        ensures
            result == self.storable(),
    {
        !self.socket_addr.ip.is_unspecified() && self.socket_addr.port != 0
    }

    /// The socket that a native node dials, which speaks QUIC only.
    pub open spec fn dialable(self) -> Option<SocketAddr> {
        if self.transport is Quic {
            Some(self.socket_addr)
        } else {
            None
        }
    }

    /// The socket that a native node dials, where there is one.
    pub fn dialable_socket_addr(&self) -> (socket: Option<SocketAddr>)
        ensures
            socket == self.dialable(),
    {
        if self.is_quic() {
            Some(self.socket_addr)
        } else {
            None
        }
    }

    /// Whether two addresses are equal in every part.
    pub fn is(&self, other: &MultiAddr) -> (same: bool)
        ensures
            same == (*self == *other),
    {
        if self.socket_addr != other.socket_addr {
            return false;
        }
        let same_owner = match (&self.owner, &other.owner) {
            (Some(left), Some(right)) => left.is(right),
            (None, None) => true,
            _ => false,
        };
        let same_transport = match (&self.transport, &other.transport) {
            (AddressTransport::Quic, AddressTransport::Quic) => true,
            (
                AddressTransport::WebRtcDirect { certificate: left },
                AddressTransport::WebRtcDirect { certificate: right },
            ) => same_key(left, right),
            _ => false,
        };
        same_owner && same_transport
    }
}

/// The octets of an IPv4 address decide its range: `127` is loopback, `10`,
/// `172.16` to `172.31` and `192.168` are private, `169.254` is link-local, and
/// `224` to `239` are multicast.
pub proof fn law_ipv4_ranges_go_by_the_octets(a: u8, b: u8, c: u8, d: u8)
    ensures
        ({
            let ip = IpAddr::V4(octets_value(a, b, c, d) as u32);
            &&& ip.unspecified() <==> a == 0 && b == 0 && c == 0 && d == 0
            &&& ip.loopback() <==> a == 127
            &&& ip.private() <==> a == 10 || (a == 172 && 16 <= b <= 31) || (a == 192 && b == 168)
            &&& ip.link_local() <==> a == 169 && b == 254
            &&& ip.multicast() <==> 224 <= a <= 239
            &&& ip.lan() <==> ip.loopback() || ip.private() || ip.link_local()
            &&& ip.canonical() == ip
        }),
{
}

/// The first sixteen bits of an IPv6 address decide its range: `fc00` to `fdff`
/// are private, `fe80` to `febf` are link-local, `ff00` and above are multicast.
pub proof fn law_ipv6_ranges_go_by_the_first_bits(v: u128)
    ensures
        ({
            let ip = IpAddr::V6(v);
            let first = v / 0x1_0000_0000_0000_0000_0000_0000_0000;
            &&& ip.unspecified() <==> v == 0
            &&& ip.loopback() <==> v == 1
            &&& ip.private() <==> 0xfc00 <= first <= 0xfdff
            &&& ip.link_local() <==> 0xfe80 <= first <= 0xfebf
            &&& ip.multicast() <==> 0xff00 <= first
        }),
{
}

/// An IPv4 address inside IPv6 is canonically that IPv4 address, every other
/// address is written canonically already, and distinct addresses of a family
/// stay distinct.
pub proof fn law_one_address_has_one_canonical_form(ip: IpAddr, other: IpAddr, bits: u32)
    ensures
        IpAddr::V6((0xffff_0000_0000 + bits) as u128).canonical() == IpAddr::V4(bits),
        ip.canonical().canonical() == ip.canonical(),
        ip is V4 ==> ip.canonical() == ip,
        (ip matches IpAddr::V6(v) && (v < 0xffff_0000_0000 || v > 0xffff_ffff_ffff))
            ==> ip.canonical() == ip,
        ip.canonical() == other.canonical() && (ip is V4 <==> other is V4) ==> ip == other,
        ip.lan() <==> ip.canonical().lan(),
{
}

/// A canonical socket address keeps its port, and its flow label and scope where
/// it stays an IPv6 one. Two remote ends are one channel exactly when their
/// canonical IP addresses, ports and scopes agree, whatever their flow labels.
pub proof fn law_channels_go_by_the_canonical_end(left: SocketAddr, right: SocketAddr)
    ensures
        left.canonical().ip == left.ip.canonical(),
        left.canonical().port == left.port,
        left.canonical().ip is V6 ==> left.canonical() == left,
        left.canonical().ip is V4 ==> left.canonical().flowinfo == 0 && left.canonical().scope_id
            == 0,
        left.channel() == right.channel() <==> left.ip.canonical() == right.ip.canonical()
            && left.port == right.port && (left.ip.canonical() is V6 ==> left.scope_id
            == right.scope_id),
        left.channel().flowinfo == 0,
        left.channel().channel() == left.channel(),
{
}

/// A native node dials the socket of each QUIC address, and no other address.
pub proof fn law_native_nodes_dial_quic(address: MultiAddr)
    ensures
        address.transport is Quic <==> address.dialable() == Some(address.socket_addr),
        address.transport is WebRtcDirect <==> address.dialable() is None,
        address.storable() <==> address.socket_addr.port != 0 && address.socket_addr.ip
            != IpAddr::V4(0) && address.socket_addr.ip != IpAddr::V6(0),
{
}

} // verus!
