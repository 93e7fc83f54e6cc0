//! Extensible address records for the versioned DHT address plane.
//!
//! The wire record deliberately stores numeric identifiers and an opaque,
//! length-delimited payload. A node that does not know a future transport or
//! reachability identifier can still decode, retain, and forward the record
//! without interpreting it.

use crate::address::{AddressTransport, IpAddr, MultiAddr, SocketAddr};
use crate::codec::{
    decode_extras, decode_socket, encode_extras, encode_socket, extras_decoding, extras_encoding,
    socket_decoding, socket_encoding, socket_parts, PlainExtras, PlainSocket, SocketParts,
};
use crate::keys::key_value;
use crate::octets::{
    from_v4_octets, from_v6_octets, lemma_v4_octets, lemma_v6_octets, to_v4_octets, to_v6_octets,
    v4_octets, v6_octets,
};
use crate::peer_id::{lemma_peer_is_its_bytes, PeerId};
use crate::peer_record::AddressType;
use vstd::prelude::*;

verus! {

/// Maximum encoded address payload accepted from the network.
pub const MAX_TRANSPORT_ADDRESS_PAYLOAD: usize = 2 * 1024;

/// Maximum number of records accepted in one complete address set.
pub const MAX_TRANSPORT_ADDRESS_RECORDS: usize = 16;

/// A transport understood by this implementation.
///
/// Its stable numeric identifier is carried by
/// [`TransportAddressRecord::transport`] so unknown future values remain
/// decodable.
#[derive(Debug, Clone, Copy, PartialEq, Eq, Structural)]
pub enum KnownTransport {
    /// Native QUIC transport.
    Quic,
    /// Signaling-free, certificate-pinned WebRTC Direct.
    WebRtcDirect,
}

impl KnownTransport {
    /// Stable wire identifier for QUIC.
    pub const QUIC_ID: u16 = 1;

    /// Stable wire identifier for WebRTC Direct.
    pub const WEBRTC_DIRECT_ID: u16 = 2;

    /// The stable wire identifier.
    pub open spec fn wire_id(self) -> u16 {
        match self {
            KnownTransport::Quic => 1,
            KnownTransport::WebRtcDirect => 2,
        }
    }

    /// The transport with a wire identifier.
    pub open spec fn with_wire_id(id: u16) -> Option<KnownTransport> {
        if id == 1 {
            Some(KnownTransport::Quic)
        } else if id == 2 {
            Some(KnownTransport::WebRtcDirect)
        } else {
            None
        }
    }

    /// Return the stable wire identifier.
    #[must_use]
    pub fn id(self) -> (id: u16)
        ensures
            id == self.wire_id(),
    {
        match self {
            KnownTransport::Quic => Self::QUIC_ID,
            KnownTransport::WebRtcDirect => Self::WEBRTC_DIRECT_ID,
        }
    }

    /// Resolve a known identifier, leaving unknown identifiers opaque.
    #[must_use]
    pub fn from_id(id: u16) -> (transport: Option<Self>)
        ensures
            transport == KnownTransport::with_wire_id(id),
    {
        if id == Self::QUIC_ID {
            Some(KnownTransport::Quic)
        } else if id == Self::WEBRTC_DIRECT_ID {
            Some(KnownTransport::WebRtcDirect)
        } else {
            None
        }
    }
}

/// A reachability class understood by this implementation.
///
/// Numeric identifiers are stable and must never be reused.
#[derive(Debug, Clone, Copy, PartialEq, Eq, Structural)]
pub enum KnownReachability {
    /// Reached through a relay.
    Relay,
    /// Reached without NAT traversal.
    Direct,
    /// Not confirmed.
    Unverified,
    /// Of local scope.
    Lan,
}

impl KnownReachability {
    /// Stable wire identifier for relayed addresses.
    pub const RELAY_ID: u16 = 1;

    /// Stable wire identifier for direct addresses.
    pub const DIRECT_ID: u16 = 2;

    /// Stable wire identifier for unverified addresses.
    pub const UNVERIFIED_ID: u16 = 3;

    /// Stable wire identifier for addresses of local scope.
    pub const LAN_ID: u16 = 4;

    /// The stable wire identifier.
    pub open spec fn wire_id(self) -> u16 {
        match self {
            KnownReachability::Relay => 1,
            KnownReachability::Direct => 2,
            KnownReachability::Unverified => 3,
            KnownReachability::Lan => 4,
        }
    }

    /// The reachability class with a wire identifier.
    pub open spec fn with_wire_id(id: u16) -> Option<KnownReachability> {
        if id == 1 {
            Some(KnownReachability::Relay)
        } else if id == 2 {
            Some(KnownReachability::Direct)
        } else if id == 3 {
            Some(KnownReachability::Unverified)
        } else if id == 4 {
            Some(KnownReachability::Lan)
        } else {
            None
        }
    }

    /// The address type of the same name.
    pub open spec fn legacy(self) -> AddressType {
        match self {
            KnownReachability::Relay => AddressType::Relay,
            KnownReachability::Direct => AddressType::Direct,
            KnownReachability::Unverified => AddressType::Unverified,
            KnownReachability::Lan => AddressType::Lan,
        }
    }

    /// Return the stable wire identifier.
    #[must_use]
    pub fn id(self) -> (id: u16)
        ensures
            id == self.wire_id(),
    {
        match self {
            KnownReachability::Relay => Self::RELAY_ID,
            KnownReachability::Direct => Self::DIRECT_ID,
            KnownReachability::Unverified => Self::UNVERIFIED_ID,
            KnownReachability::Lan => Self::LAN_ID,
        }
    }

    /// Resolve a known identifier, leaving unknown identifiers opaque.
    #[must_use]
    pub fn from_id(id: u16) -> (reachability: Option<Self>)
        ensures
            reachability == KnownReachability::with_wire_id(id),
    {
        if id == Self::RELAY_ID {
            Some(KnownReachability::Relay)
        } else if id == Self::DIRECT_ID {
            Some(KnownReachability::Direct)
        } else if id == Self::UNVERIFIED_ID {
            Some(KnownReachability::Unverified)
        } else if id == Self::LAN_ID {
            Some(KnownReachability::Lan)
        } else {
            None
        }
    }

    /// The class of the same name as an address type.
    #[must_use]
    pub fn from_legacy(value: AddressType) -> (reachability: Self)
        ensures
            reachability.legacy() == value,
    {
        match value {
            AddressType::Relay => KnownReachability::Relay,
            AddressType::Direct => KnownReachability::Direct,
            AddressType::Unverified => KnownReachability::Unverified,
            AddressType::Lan => KnownReachability::Lan,
        }
    }

    /// The address type of the same name.
    #[must_use]
    pub fn into_legacy(self) -> (value: AddressType)
        ensures
            value == self.legacy(),
    {
        match self {
            KnownReachability::Relay => AddressType::Relay,
            KnownReachability::Direct => AddressType::Direct,
            KnownReachability::Unverified => AddressType::Unverified,
            KnownReachability::Lan => AddressType::Lan,
        }
    }
}

/// Wire identifiers name at most one transport and one reachability class, and
/// each name has one.
pub proof fn law_wire_identifiers_are_stable(transport: KnownTransport, class: KnownReachability)
    ensures
        KnownTransport::with_wire_id(transport.wire_id()) == Some(transport),
        KnownReachability::with_wire_id(class.wire_id()) == Some(class),
{
}

/// One address in the extensible address plane.
///
/// `address` is an encoded [`MultiAddr`] for transports known today. Consumers
/// must inspect `transport` before decoding it. Unknown transports retain
/// opaque bytes so intermediaries can forward them unchanged.
#[derive(Debug, PartialEq, Eq)]
pub struct TransportAddressRecord {
    /// Wire identifier of the transport.
    pub transport: u16,
    /// Wire identifier of the reachability class.
    pub reachability: u16,
    /// Encoded address.
    pub address: Vec<u8>,
}

/// What a record is made of.
pub struct RecordView {
    /// Wire identifier of the transport.
    pub transport: u16,
    /// Wire identifier of the reachability class.
    pub reachability: u16,
    /// Encoded address.
    pub address: Seq<u8>,
}

impl View for TransportAddressRecord {
    type V = RecordView;

    open spec fn view(&self) -> RecordView {
        RecordView {
            transport: self.transport,
            reachability: self.reachability,
            address: self.address@,
        }
    }
}

/// A copy of a byte string.
pub fn copy_bytes(bytes: &[u8]) -> (copy: Vec<u8>)
    ensures
        copy@ == bytes@,
{
    let mut copy: Vec<u8> = Vec::new();
    let mut index: usize = 0;
    while index < bytes.len()
        invariant
            index <= bytes@.len(),
            copy@ == bytes@.take(index as int),
        decreases bytes@.len() - index,
    {
        copy.push(bytes[index]);
        proof {
            assert(bytes@.take(index as int + 1) =~= bytes@.take(index as int).push(
                bytes@[index as int],
            ));
        }
        index += 1;
    }
    assert(bytes@.take(bytes@.len() as int) =~= bytes@);
    copy
}

impl Clone for TransportAddressRecord {
    fn clone(&self) -> (copy: Self)
        ensures
            copy@ == self@,
    {
        TransportAddressRecord {
            transport: self.transport,
            reachability: self.reachability,
            address: copy_bytes(&self.address),
        }
    }
}

/// A socket address as its encoding carries it: the IP address and the port, without
/// flow information and scope.
pub open spec fn carried_socket(socket: SocketAddr) -> SocketParts {
    match socket.ip {
        IpAddr::V4(bits) => Ok((v4_octets(bits), socket.port)),
        IpAddr::V6(bits) => Err((v6_octets(bits), socket.port)),
    }
}

/// The socket address that an encoding carries.
pub open spec fn socket_of(parts: SocketParts) -> SocketAddr {
    let (ip, port) = match parts {
        Ok((octets, port)) => (IpAddr::V4(key_value(octets) as u32), port),
        Err((octets, port)) => (IpAddr::V6(key_value(octets) as u128), port),
    };
    SocketAddr { ip, port, flowinfo: 0, scope_id: 0 }
}

/// A socket address without flow information and scope.
pub open spec fn bare_socket(socket: SocketAddr) -> SocketAddr {
    SocketAddr { flowinfo: 0, scope_id: 0, ..socket }
}

pub(crate) fn to_plain_socket(socket: &SocketAddr) -> (plain: PlainSocket)
    ensures
        socket_parts(plain) == carried_socket(*socket),
{
    match socket.ip {
        IpAddr::V4(bits) => Ok((to_v4_octets(bits), socket.port)),
        IpAddr::V6(bits) => Err((to_v6_octets(bits), socket.port)),
    }
}

pub(crate) fn from_plain_socket(plain: &PlainSocket) -> (socket: SocketAddr)
    ensures
        socket == socket_of(socket_parts(*plain)),
{
    let (ip, port) = match plain {
        Ok((octets, port)) => (IpAddr::V4(from_v4_octets(octets)), *port),
        Err((octets, port)) => (IpAddr::V6(from_v6_octets(octets)), *port),
    };
    SocketAddr { ip, port, flowinfo: 0, scope_id: 0 }
}

/// A socket address is read back without flow information and scope.
pub proof fn lemma_carried_socket(socket: SocketAddr)
    ensures
        socket_of(carried_socket(socket)) == bare_socket(socket),
{
    match socket.ip {
        IpAddr::V4(bits) => {
            lemma_v4_octets(bits);
        },
        IpAddr::V6(bits) => {
            lemma_v6_octets(bits);
        },
    }
}

/// What an address says beside its socket.
pub open spec fn extras_of(address: MultiAddr) -> PlainExtras {
    let certificate: Option<[u8; 32]> = match address.transport {
        AddressTransport::Quic => None,
        AddressTransport::WebRtcDirect { certificate } => Some(certificate),
    };
    let owner: Option<[u8; 32]> = match address.owner {
        None => None,
        Some(peer) => Some(peer.key()),
    };
    (certificate, owner)
}

/// The address with a socket and what is said beside it.
pub open spec fn address_with(socket: SocketAddr, extras: PlainExtras) -> MultiAddr {
    MultiAddr {
        socket_addr: socket,
        transport: match extras.0 {
            None => AddressTransport::Quic,
            Some(certificate) => AddressTransport::WebRtcDirect { certificate },
        },
        owner: match extras.1 {
            None => None,
            Some(key) => Some(PeerId::with_key(key)),
        },
    }
}

fn to_extras(address: &MultiAddr) -> (extras: PlainExtras)
    ensures
        extras == extras_of(*address),
{
    let certificate = match address.transport {
        AddressTransport::Quic => None,
        AddressTransport::WebRtcDirect { certificate } => Some(certificate),
    };
    let owner = match address.owner {
        None => None,
        Some(peer) => Some(*peer.as_bytes()),
    };
    (certificate, owner)
}

fn with_extras(socket: SocketAddr, extras: &PlainExtras) -> (address: MultiAddr)
    ensures
        address == address_with(socket, *extras),
{
    let transport = match extras.0 {
        None => AddressTransport::Quic,
        Some(certificate) => AddressTransport::WebRtcDirect { certificate },
    };
    let owner = match extras.1 {
        None => None,
        Some(bytes) => Some(PeerId::from_bytes(bytes)),
    };
    MultiAddr { socket_addr: socket, transport, owner }
}

/// An address as its payload carries it.
pub open spec fn carried(address: MultiAddr) -> MultiAddr {
    MultiAddr { socket_addr: bare_socket(address.socket_addr), ..address }
}

/// The payload of an address: its socket, and behind it what a QUIC address without
/// an owner does not have.
pub open spec fn address_payload(address: MultiAddr) -> Seq<u8> {
    let socket = socket_encoding(carried_socket(address.socket_addr));
    if extras_of(address) == (None::<[u8; 32]>, None::<[u8; 32]>) {
        socket
    } else {
        socket + extras_encoding(extras_of(address))
    }
}

/// The address with a socket and what the bytes behind the socket say. Bytes that
/// say nothing are left alone.
pub open spec fn address_before(socket: SocketAddr, rest: Seq<u8>) -> MultiAddr {
    match extras_decoding(rest) {
        Some(extras) => if rest.len() > 0 {
            address_with(socket, extras)
        } else {
            address_with(socket, (None, None))
        },
        None => address_with(socket, (None, None)),
    }
}

/// What a payload decodes to.
pub open spec fn decoded_address(bytes: Seq<u8>) -> Option<MultiAddr> {
    match socket_decoding(bytes) {
        Some((parts, rest)) => Some(address_before(socket_of(parts), rest)),
        None => None,
    }
}

/// The payload of an address is read back as that address, without flow information
/// and scope.
fn encode_payload(address: &MultiAddr) -> (payload: Result<Vec<u8>, String>)
    ensures
        payload matches Ok(bytes) && bytes@ == address_payload(*address) && decoded_address(bytes@)
            == Some(carried(*address)),
{
    let mut payload = encode_socket(&to_plain_socket(&address.socket_addr))?;
    let ghost socket = payload@;
    let extras = to_extras(address);
    proof {
        lemma_carried_socket(address.socket_addr);
        if let Some(peer) = address.owner {
            lemma_peer_is_its_bytes(peer, peer);
        }
        assert(socket + Seq::<u8>::empty() =~= socket);
        assert(address_with(bare_socket(address.socket_addr), extras_of(*address)) == carried(
            *address,
        ));
    }
    if extras.0.is_some() || extras.1.is_some() {
        let mut said = encode_extras(&extras)?;
        let ghost behind = said@;
        payload.append(&mut said);
        assert(payload@ == socket + behind);
    }
    Ok(payload)
}

fn decode_payload(bytes: &[u8]) -> (address: Result<MultiAddr, String>)
    ensures
        match address {
            Ok(read) => decoded_address(bytes@) == Some(read),
            Err(_) => decoded_address(bytes@) is None,
        },
{
    let (plain, rest) = match decode_socket(bytes) {
        Ok(read) => read,
        Err(error) => {
            return Err(error);
        },
    };
    let socket = from_plain_socket(&plain);
    if rest.len() > 0 {
        if let Ok(extras) = decode_extras(&rest) {
            return Ok(with_extras(socket, &extras));
        }
    }
    Ok(with_extras(socket, &(None, None)))
}

/// The known transport of an address.
pub open spec fn transport_of(address: MultiAddr) -> KnownTransport {
    match address.transport {
        AddressTransport::Quic => KnownTransport::Quic,
        AddressTransport::WebRtcDirect { .. } => KnownTransport::WebRtcDirect,
    }
}

/// An address, where its transport is the one that a wire identifier names.
pub open spec fn matching_address(transport: u16, address: MultiAddr) -> Option<MultiAddr> {
    if KnownTransport::with_wire_id(transport) == Some(transport_of(address)) {
        Some(address)
    } else {
        None
    }
}

/// What a decoded payload says under a declared transport: nothing where the
/// transport is unknown or another than the address has.
pub fn resolve_known(transport: u16, decoded: Result<MultiAddr, String>) -> (address: Result<
    Option<MultiAddr>,
    String,
>)
    ensures
        address == match (KnownTransport::with_wire_id(transport), decoded) {
            (None, _) => Ok(None),
            (Some(_), Ok(a)) => Ok(matching_address(transport, a)),
            (Some(_), Err(error)) => Err(error),
        },
{
    match KnownTransport::from_id(transport) {
        None => Ok(None),
        Some(known) => match decoded {
            Ok(address) => {
                let matches_transport = match known {
                    KnownTransport::Quic => address.is_quic(),
                    KnownTransport::WebRtcDirect => address.is_webrtc_direct(),
                };
                if matches_transport {
                    Ok(Some(address))
                } else {
                    Ok(None)
                }
            },
            Err(error) => Err(error),
        },
    }
}

impl RecordView {
    /// The address of a record: none for an unknown transport or an address of
    /// another transport than the record declares.
    ///
    /// Meaningful for a record that [`RecordView::readable`] holds of.
    pub open spec fn known_address(self) -> Option<MultiAddr> {
        match decoded_address(self.address) {
            Some(address) => matching_address(self.transport, address),
            None => None,
        }
    }

    /// Whether the payload can be read, as far as the transport is known.
    pub open spec fn readable(self) -> bool {
        KnownTransport::with_wire_id(self.transport) is Some ==> decoded_address(self.address)
            is Some
    }

    /// Whether the payload is of an admissible size.
    pub open spec fn within_bounds(self) -> bool {
        0 < self.address.len() <= MAX_TRANSPORT_ADDRESS_PAYLOAD
    }
}

impl TransportAddressRecord {
    /// Encode an address as a record of its transport. Flow information and scope of
    /// an IPv6 address are not carried.
    pub fn from_multiaddr(address: &MultiAddr, reachability: KnownReachability) -> (record: Result<
        Option<Self>,
        String,
    >)
        ensures
            match record {
                Ok(Some(r)) => {
                    &&& r@.address == address_payload(*address)
                    &&& r@.transport == transport_of(*address).wire_id()
                    &&& r@.reachability == reachability.wire_id()
                    &&& r@.readable()
                    &&& r@.known_address() == Some(carried(*address))
                },
                _ => false,
            },
    {
        let transport = if address.is_quic() {
            KnownTransport::Quic
        } else {
            KnownTransport::WebRtcDirect
        };
        match encode_payload(address) {
            Ok(payload) => Ok(
                Some(
                    TransportAddressRecord {
                        transport: transport.id(),
                        reachability: reachability.id(),
                        address: payload,
                    },
                ),
            ),
            Err(error) => Err(error),
        }
    }

    /// Decode an address only when its transport identifier is known.
    ///
    /// Unknown identifiers return `Ok(None)` and remain safe to forward, and so
    /// does an address of another transport than the record declares. The error
    /// is the text of the decoder's failure.
    pub fn decode_known(&self) -> (address: Result<Option<MultiAddr>, String>)
        ensures
            address is Ok <==> self@.readable(),
            address matches Ok(a) ==> a == self@.known_address(),
    {
        if KnownTransport::from_id(self.transport).is_none() {
            return Ok(None);
        }
        resolve_known(self.transport, decode_payload(&self.address))
    }

    /// The address type that the reachability identifier names.
    #[must_use]
    pub fn legacy_reachability(&self) -> (value: Option<AddressType>)
        ensures
            value == match KnownReachability::with_wire_id(self@.reachability) {
                Some(class) => Some(class.legacy()),
                None => None,
            },
    {
        match KnownReachability::from_id(self.reachability) {
            Some(class) => Some(class.into_legacy()),
            None => None,
        }
    }

    /// Whether the payload is of an admissible size.
    #[must_use]
    pub fn is_within_wire_bounds(&self) -> (result: bool)
        ensures
            result == self@.within_bounds(),
    {
        self.address.len() > 0 && self.address.len() <= MAX_TRANSPORT_ADDRESS_PAYLOAD
    }
}

/// An address is carried with everything but the flow label and the scope of its
/// socket.
pub proof fn law_carried_addresses_keep_their_parts(address: MultiAddr)
    ensures
        carried(address).transport == address.transport,
        carried(address).owner == address.owner,
        carried(address).socket_addr.ip == address.socket_addr.ip,
        carried(address).socket_addr.port == address.socket_addr.port,
        carried(address).socket_addr.flowinfo == 0 && carried(address).socket_addr.scope_id == 0,
        carried(carried(address)) == carried(address),
{
}

/// What stands beside the socket says the certificate and the owner, and with the
/// socket makes the address again.
pub proof fn law_extras_make_the_address(address: MultiAddr)
    ensures
        extras_of(address).0 is None <==> address.transport is Quic,
        address.transport matches AddressTransport::WebRtcDirect { certificate } ==> extras_of(
            address,
        ).0 == Some(certificate),
        extras_of(address).1 is None <==> address.owner is None,
        address_with(address.socket_addr, extras_of(address)) == address,
{
    if let Some(peer) = address.owner {
        lemma_peer_is_its_bytes(peer, peer);
    }
}

/// A payload begins with the socket. A QUIC address without an owner has nothing
/// behind it, and every other address its certificate and owner.
pub proof fn law_payloads_begin_with_the_socket(address: MultiAddr)
    ensures
        ({
            let socket = socket_encoding(carried_socket(address.socket_addr));
            let payload = address_payload(address);
            &&& payload.len() >= socket.len()
            &&& payload.take(socket.len() as int) == socket
            &&& address.transport is Quic && address.owner is None ==> payload == socket
            &&& !(address.transport is Quic) || address.owner is Some ==> payload.skip(
                socket.len() as int,
            ) == extras_encoding(extras_of(address))
        }),
{
    let socket = socket_encoding(carried_socket(address.socket_addr));
    let payload = address_payload(address);
    assert(payload.take(socket.len() as int) =~= socket);
    if !(address.transport is Quic) || address.owner is Some {
        assert(payload.skip(socket.len() as int) =~= extras_encoding(extras_of(address)));
    }
}

/// A socket is carried as its octets, which spell the bits of its IP address, and
/// its port, and is read back as that.
pub proof fn law_carried_sockets_spell_the_address(socket: SocketAddr)
    ensures
        match (carried_socket(socket), socket.ip) {
            (Ok((octets, port)), IpAddr::V4(bits)) => octets.len() == 4 && key_value(octets) == bits
                && port == socket.port,
            (Err((octets, port)), IpAddr::V6(bits)) => octets.len() == 16 && key_value(octets)
                == bits && port == socket.port,
            _ => false,
        },
        socket_of(carried_socket(socket)).ip == socket.ip,
        socket_of(carried_socket(socket)).port == socket.port,
        socket_of(carried_socket(socket)).flowinfo == 0,
        socket_of(carried_socket(socket)).scope_id == 0,
{
    lemma_carried_socket(socket);
    match socket.ip {
        IpAddr::V4(bits) => {
            lemma_v4_octets(bits);
        },
        IpAddr::V6(bits) => {
            lemma_v6_octets(bits);
        },
    }
}

/// A record of a known transport is readable only where its payload is, one of
/// another transport always; it names an address only where payload and transport
/// agree.
pub proof fn law_unknown_transports_stay_opaque(record: RecordView)
    ensures
        record.transport != 1 && record.transport != 2 ==> record.readable()
            && record.known_address() is None,
        record.transport == 1 || record.transport == 2 ==> (record.readable() <==> decoded_address(
            record.address,
        ) is Some),
        record.known_address() matches Some(address) ==> decoded_address(record.address) == Some(
            address,
        ) && (record.transport == 1 <==> address.transport is Quic) && (record.transport == 2
            <==> address.transport is WebRtcDirect),
        decoded_address(record.address) matches Some(address) ==> ((record.transport == 1
            && address.transport is Quic) || (record.transport == 2 && address.transport
            is WebRtcDirect) ==> record.known_address() == Some(address)),
        record.within_bounds() <==> 1 <= record.address.len() <= 2048,
{
}

} // verus!
