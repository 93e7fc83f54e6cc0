//! What goes over a channel: signed messages, identity announcements with the
//! shared endpoint of a daemon, and the envelopes of requests and responses.

use crate::address::{IpAddr, MultiAddr, SocketAddr};
use crate::codec::{
    addressed_encoding, addressed_signable_encoding, capability_decoding, capability_encoding,
    decode_capability, decode_envelope, encode_addressed, encode_addressed_signable,
    encode_capability, encode_envelope, encode_message, encode_signable, envelope_decoding,
    envelope_encoding, message_encoding, signable_encoding, socket_parts, socket_views, PlainSocket,
    SocketParts,
};
use crate::identity::{is_signing_fault, signature_check, NodeIdentity, SIGNATURE_BYTES};
use crate::peer_id::PeerId;
use crate::peer_record::copy_addresses;
use crate::transport_address::{
    bare_socket, carried_socket, copy_bytes, from_plain_socket, lemma_carried_socket, socket_of,
    to_plain_socket,
};
use vstd::prelude::*;
use vstd::string::*;

verus! {

/// Internal protocol for automatic identity announcement on connect. Messages
/// of this protocol are not handed to applications.
pub const IDENTITY_ANNOUNCE_PROTOCOL: &'static str = "/saorsa/identity/1.0";

/// What the protocols of requests and responses begin with.
pub const REQUEST_PREFIX: &'static str = "/rr/";

/// Most addresses of a shared endpoint that are kept.
pub const MAX_CAPABILITY_ADDRESSES: usize = 4;

/// The shared endpoint of a daemon, as one of its identities announces it.
pub struct MultiplexCapability {
    /// Identity of the daemon's transport.
    pub daemon_peer_id: PeerId,
    /// Where the shared endpoint is reached.
    pub addresses: Vec<MultiAddr>,
}

impl View for MultiplexCapability {
    type V = (Seq<u8>, Seq<MultiAddr>);

    open spec fn view(&self) -> (Seq<u8>, Seq<MultiAddr>) {
        (self.daemon_peer_id@, self.addresses@)
    }
}

impl MultiplexCapability {
    /// The shared endpoint, once more.
    pub fn duplicate(&self) -> (copy: Self)
        ensures
            copy@ == self@,
    {
        MultiplexCapability {
            daemon_peer_id: self.daemon_peer_id,
            addresses: copy_addresses(&self.addresses),
        }
    }
}

/// What a message says, apart from who vouches for it.
pub struct Statement {
    /// Protocol of the data.
    pub protocol: String,
    /// The data.
    pub data: Vec<u8>,
    /// The sender.
    pub from: PeerId,
    /// The receiver, where the message names one.
    pub to: Option<PeerId>,
    /// When the message was made, in seconds.
    pub timestamp: u64,
    /// Software of the sender.
    pub user_agent: String,
}

/// What a message says, apart from who vouches for it.
#[verifier::ext_equal]
pub struct StatementView {
    /// Protocol of the data.
    pub protocol: Seq<char>,
    /// The data.
    pub data: Seq<u8>,
    /// The sender.
    pub from: Seq<u8>,
    /// The receiver, where the message names one.
    pub to: Option<Seq<u8>>,
    /// When the message was made, in seconds.
    pub timestamp: u64,
    /// Software of the sender.
    pub user_agent: Seq<char>,
}

impl View for Statement {
    type V = StatementView;

    open spec fn view(&self) -> StatementView {
        StatementView {
            protocol: self.protocol@,
            data: self.data@,
            from: self.from@,
            to: match self.to {
                Some(peer) => Some(peer@),
                None => None,
            },
            timestamp: self.timestamp,
            user_agent: self.user_agent@,
        }
    }
}

impl StatementView {
    /// What a sender states at a time.
    pub open spec fn composed(
        from: Seq<u8>,
        user_agent: Seq<char>,
        to: Option<Seq<u8>>,
        protocol: Seq<char>,
        data: Seq<u8>,
        timestamp: u64,
    ) -> StatementView {
        StatementView { protocol, data, from, to, timestamp, user_agent }
    }

    /// The bytes that the sender signs.
    pub open spec fn signable(self) -> Seq<u8> {
        match self.to {
            None => signable_encoding(
                self.protocol,
                self.data,
                self.from,
                self.timestamp,
                self.user_agent,
            ),
            Some(to) => addressed_signable_encoding(
                self.protocol,
                self.data,
                self.from,
                to,
                self.timestamp,
                self.user_agent,
            ),
        }
    }

    /// The bytes of the message with a public key and a signature.
    pub open spec fn encoded(self, public_key: Seq<u8>, signature: Seq<u8>) -> Seq<u8> {
        match self.to {
            None => message_encoding(
                (
                    self.protocol,
                    self.data,
                    self.from,
                    self.timestamp,
                    self.user_agent,
                    public_key,
                    signature,
                ),
            ),
            Some(to) => addressed_encoding(
                (
                    self.protocol,
                    self.data,
                    self.from,
                    to,
                    self.timestamp,
                    self.user_agent,
                    public_key,
                    signature,
                ),
            ),
        }
    }

    /// The bytes on the wire: an addressed message is marked as one.
    pub open spec fn framed(
        self,
        magic: Seq<u8>,
        public_key: Seq<u8>,
        signature: Seq<u8>,
    ) -> Seq<u8> {
        if self.to is Some {
            magic + self.encoded(public_key, signature)
        } else {
            self.encoded(public_key, signature)
        }
    }

    /// Whether bytes are the message with this signature, and the signature is
    /// good under a public key.
    pub open spec fn vouched_by(
        self,
        magic: Seq<u8>,
        public_key: Seq<u8>,
        signature: Seq<u8>,
        bytes: Seq<u8>,
    ) -> bool {
        &&& signature.len() == SIGNATURE_BYTES
        &&& signature_check(public_key, self.signable(), signature) == Some(true)
        &&& bytes == self.framed(magic, public_key, signature)
    }

    /// Whether bytes are the message with a good signature under a public key.
    pub open spec fn vouched(self, magic: Seq<u8>, public_key: Seq<u8>, bytes: Seq<u8>) -> bool {
        exists|signature: Seq<u8>| self.vouched_by(magic, public_key, signature, bytes)
    }
}

/// Why a message could not be made.
#[derive(Debug, Clone, PartialEq, Eq)]
pub enum WireFault {
    /// A message between identities names no receiver.
    NoDestination,
    /// The clock could not be read.
    Clock(String),
    /// The statement could not be encoded for signing.
    Signable(String),
    /// The statement could not be signed.
    Signing(String),
    /// The signed message could not be encoded.
    Encoding(String),
    /// The shared endpoint could not be encoded.
    Capability(String),
}

impl WireFault {
    /// What each fault is called, where it befalls an addressed message or
    /// another one, and the cause that it names.
    pub open spec fn text(self, addressed: bool) -> (Seq<char>, Seq<char>) {
        match self {
            WireFault::NoDestination => (
                "multiplexed messages require a logical destination"@,
                Seq::empty(),
            ),
            WireFault::Clock(cause) => ("System time error: "@, cause@),
            WireFault::Signable(cause) => (
                if addressed {
                    "Failed to serialize multiplexed signable bytes: "@
                } else {
                    "Failed to serialize signable bytes: "@
                },
                cause@,
            ),
            WireFault::Signing(cause) => (
                if addressed {
                    "Failed to sign multiplexed message: "@
                } else {
                    "Failed to sign message: "@
                },
                cause@,
            ),
            WireFault::Encoding(cause) => (
                if addressed {
                    "Failed to serialize multiplexed wire message: "@
                } else {
                    "Failed to serialize wire message: "@
                },
                cause@,
            ),
            WireFault::Capability(cause) => (
                "Failed to serialize multiplex capability: "@,
                cause@,
            ),
        }
    }

    /// The fault in words, where it befalls an addressed message or another one.
    pub fn message(&self, addressed: bool) -> (message: String)
        ensures
            message@ == self.text(addressed).0 + self.text(addressed).1,
    {
        let (name, cause): (&str, &str) = match self {
            WireFault::NoDestination => {
                let message = "multiplexed messages require a logical destination".to_owned();
                assert(message@ =~= self.text(addressed).0 + self.text(addressed).1);
                return message;
            },
            WireFault::Clock(cause) => ("System time error: ", cause.as_str()),
            WireFault::Signable(cause) => (
                if addressed {
                    "Failed to serialize multiplexed signable bytes: "
                } else {
                    "Failed to serialize signable bytes: "
                },
                cause.as_str(),
            ),
            WireFault::Signing(cause) => (
                if addressed {
                    "Failed to sign multiplexed message: "
                } else {
                    "Failed to sign message: "
                },
                cause.as_str(),
            ),
            WireFault::Encoding(cause) => (
                if addressed {
                    "Failed to serialize multiplexed wire message: "
                } else {
                    "Failed to serialize wire message: "
                },
                cause.as_str(),
            ),
            WireFault::Capability(cause) => (
                "Failed to serialize multiplex capability: ",
                cause.as_str(),
            ),
        };
        let mut message = name.to_owned();
        message.append(cause);
        message
    }
}

/// Two byte strings, one after the other.
fn joined(first: &[u8], second: &[u8]) -> (bytes: Vec<u8>)
    ensures
        bytes@ == first@ + second@,
{
    let mut bytes = copy_bytes(first);
    let mut index: usize = 0;
    while index < second.len()
        invariant
            index <= second@.len(),
            bytes@ == first@ + second@.take(index as int),
        decreases second@.len() - index,
    {
        bytes.push(second[index]);
        assert(second@.take(index as int + 1) =~= second@.take(index as int).push(
            second@[index as int],
        ));
        index += 1;
    }
    assert(second@.take(second@.len() as int) =~= second@);
    bytes
}

/// Compute the bytes that the sender of a message signs.
pub fn compute_signable_bytes(statement: &Statement) -> (signable: Result<Vec<u8>, WireFault>)
    ensures
        signable matches Ok(bytes) && bytes@ == statement@.signable(),
{
    let encoded = match &statement.to {
        None => encode_signable(
            statement.protocol.as_str(),
            &statement.data,
            statement.from.as_bytes(),
            statement.timestamp,
            statement.user_agent.as_str(),
        ),
        Some(to) => encode_addressed_signable(
            statement.protocol.as_str(),
            &statement.data,
            statement.from.as_bytes(),
            to.as_bytes(),
            statement.timestamp,
            statement.user_agent.as_str(),
        ),
    };
    match encoded {
        Ok(bytes) => Ok(bytes),
        Err(cause) => Err(WireFault::Signable(cause)),
    }
}

/// Put a public key and a signature to a message, and make its bytes.
pub fn serialize_wire_message(
    statement: &Statement,
    magic: &[u8],
    public_key: &[u8],
    signature: &[u8],
) -> (encoded: Result<Vec<u8>, WireFault>)
    ensures
        encoded matches Ok(bytes) && bytes@ == statement@.framed(magic@, public_key@, signature@),
{
    match &statement.to {
        None => {
            let plain = (
                statement.protocol.clone(),
                copy_bytes(&statement.data),
                *statement.from.as_bytes(),
                statement.timestamp,
                statement.user_agent.clone(),
                copy_bytes(public_key),
                copy_bytes(signature),
            );
            match encode_message(&plain) {
                Ok(bytes) => Ok(bytes),
                Err(cause) => Err(WireFault::Encoding(cause)),
            }
        },
        Some(to) => {
            let plain = (
                statement.protocol.clone(),
                copy_bytes(&statement.data),
                *statement.from.as_bytes(),
                *to.as_bytes(),
                statement.timestamp,
                statement.user_agent.clone(),
                copy_bytes(public_key),
                copy_bytes(signature),
            );
            match encode_addressed(&plain) {
                Ok(bytes) => Ok(joined(magic, &bytes)),
                Err(cause) => Err(WireFault::Encoding(cause)),
            }
        },
    }
}

/// Sign a message with the key of an identity and make its bytes.
///
/// Whatever signature comes, it is good under the key of the identity. Which
/// one comes, and whether the signing fails, is left to chance.
pub fn sign_wire_message(
    statement: &Statement,
    magic: &[u8],
    identity: &NodeIdentity,
) -> (signed: Result<Vec<u8>, WireFault>)
    ensures
        match signed {
            Ok(bytes) => statement@.vouched(magic@, identity.public(), bytes@),
            Err(fault) => fault matches WireFault::Signing(cause) && is_signing_fault(cause@),
        },
{
    let signable = compute_signable_bytes(statement)?;
    let signature = match identity.sign(&signable) {
        Ok(signature) => signature,
        Err(cause) => {
            return Err(WireFault::Signing(cause));
        },
    };
    let public_key = identity.public_key();
    let encoded = serialize_wire_message(statement, magic, &public_key, &signature);
    proof {
        if let Ok(bytes) = &encoded {
            assert(statement@.vouched_by(magic@, identity.public(), signature@, bytes@));
        }
    }
    encoded
}

/// Create the bytes of a message from an identity.
///
/// On a transport that identities share, the message names its receiver and is
/// marked with `magic`.
pub fn create_protocol_message(
    identity: &NodeIdentity,
    user_agent: &str,
    multiplexed: bool,
    magic: &[u8],
    destination: Option<PeerId>,
    protocol: &str,
    data: &[u8],
    timestamp: Result<u64, String>,
) -> (created: Result<Vec<u8>, WireFault>)
    ensures
        created matches Err(WireFault::NoDestination) <==> multiplexed && destination is None,
        !(multiplexed && destination is None) ==> match timestamp {
            Err(cause) => created == Err::<Vec<u8>, WireFault>(WireFault::Clock(cause)),
            Ok(seconds) => {
                let statement = StatementView::composed(
                    identity.owner()@,
                    user_agent@,
                    if multiplexed {
                        Some(destination->0@)
                    } else {
                        None
                    },
                    protocol@,
                    data@,
                    seconds,
                );
                match created {
                    Ok(bytes) => statement.vouched(magic@, identity.public(), bytes@),
                    Err(fault) => fault matches WireFault::Signing(cause) && is_signing_fault(
                        cause@,
                    ),
                }
            },
        },
{
    let to = if multiplexed {
        match destination {
            Some(peer) => Some(peer),
            None => {
                return Err(WireFault::NoDestination);
            },
        }
    } else {
        None
    };
    let timestamp: u64 = match timestamp {
        Ok(seconds) => seconds,
        Err(cause) => {
            return Err(WireFault::Clock(cause));
        },
    };
    let statement = Statement {
        protocol: protocol.to_owned(),
        data: copy_bytes(data),
        from: identity.peer_id(),
        to,
        timestamp,
        user_agent: user_agent.to_owned(),
    };
    sign_wire_message(&statement, magic, identity)
}

/// A QUIC address at a socket.
pub open spec fn quic_at(socket: SocketAddr) -> MultiAddr {
    MultiAddr { socket_addr: socket, transport: crate::address::AddressTransport::Quic, owner: None }
}

/// The sockets of the addresses that a native node dials, in order.
pub open spec fn native_sockets(addresses: Seq<MultiAddr>) -> Seq<SocketAddr>
    decreases addresses.len(),
{
    if addresses.len() == 0 {
        Seq::empty()
    } else {
        let before = native_sockets(addresses.drop_last());
        match addresses.last().dialable() {
            Some(socket) => before.push(socket),
            None => before,
        }
    }
}

/// The socket addresses as their encoding carries them.
pub open spec fn carried_sockets(sockets: Seq<SocketAddr>) -> Seq<SocketParts> {
    sockets.map(|_i: int, socket: SocketAddr| carried_socket(socket))
}

/// The addresses of a shared endpoint as a receiver reads them: those that a native
/// node dials, without flow information and scope.
pub open spec fn shared_addresses(addresses: Seq<MultiAddr>) -> Seq<MultiAddr> {
    native_sockets(addresses).map(|_i: int, socket: SocketAddr| quic_at(bare_socket(socket)))
}

/// The addresses that plain socket addresses stand for.
pub open spec fn read_addresses(parts: Seq<SocketParts>) -> Seq<MultiAddr> {
    parts.map(|_i: int, socket: SocketParts| quic_at(socket_of(socket)))
}

fn to_plain_sockets(addresses: &Vec<MultiAddr>) -> (plain: Vec<PlainSocket>)
    ensures
        socket_views(plain@) == carried_sockets(native_sockets(addresses@)),
{
    let mut plain: Vec<PlainSocket> = Vec::new();
    let mut index: usize = 0;
    while index < addresses.len()
        invariant
            index <= addresses@.len(),
            socket_views(plain@) == carried_sockets(native_sockets(addresses@.take(index as int))),
        decreases addresses@.len() - index,
    {
        let ghost held = plain@;
        proof {
            assert(addresses@.take(index as int + 1).drop_last() =~= addresses@.take(index as int));
        }
        if let Some(socket) = addresses[index].dialable_socket_addr() {
            plain.push(to_plain_socket(&socket));
            assert(socket_views(plain@) =~= socket_views(held).push(carried_socket(socket)));
            assert(carried_sockets(native_sockets(addresses@.take(index as int + 1)))
                =~= carried_sockets(native_sockets(addresses@.take(index as int))).push(
                carried_socket(socket),
            ));
        }
        index += 1;
    }
    assert(addresses@.take(addresses@.len() as int) =~= addresses@);
    plain
}

fn from_plain_sockets(plain: &Vec<PlainSocket>) -> (addresses: Vec<MultiAddr>)
    ensures
        addresses@ == read_addresses(socket_views(plain@)),
{
    let mut addresses: Vec<MultiAddr> = Vec::new();
    let mut index: usize = 0;
    while index < plain.len()
        invariant
            index <= plain@.len(),
            addresses@.len() == index,
            forall|i: int|
                0 <= i < index ==> #[trigger] addresses@[i] == quic_at(
                    socket_of(socket_parts(plain@[i])),
                ),
        decreases plain@.len() - index,
    {
        addresses.push(MultiAddr::quic(from_plain_socket(&plain[index])));
        index += 1;
    }
    assert(addresses@ =~= read_addresses(socket_views(plain@)));
    addresses
}

proof fn lemma_shared_addresses(addresses: Seq<MultiAddr>)
    ensures
        read_addresses(carried_sockets(native_sockets(addresses))) == shared_addresses(addresses),
{
    let sockets = native_sockets(addresses);
    assert forall|i: int| 0 <= i < sockets.len() implies read_addresses(
        carried_sockets(sockets),
    )[i] == #[trigger] shared_addresses(addresses)[i] by {
        lemma_carried_socket(sockets[i]);
    }
    assert(read_addresses(carried_sockets(sockets)) =~= shared_addresses(addresses));
}

/// The data of an identity announcement: the shared endpoint, marked as such,
/// where there is one.
pub open spec fn announcement_data(
    capability: Option<(Seq<u8>, Seq<MultiAddr>)>,
    magic: Seq<u8>,
) -> Seq<u8> {
    match capability {
        Some((daemon, addresses)) => magic + capability_encoding(
            (daemon, carried_sockets(native_sockets(addresses))),
        ),
        None => Seq::empty(),
    }
}

/// What a shared endpoint is made of.
pub open spec fn capability_view(capability: Option<&MultiplexCapability>) -> Option<
    (Seq<u8>, Seq<MultiAddr>),
> {
    match capability {
        Some(shared) => Some(shared@),
        None => None,
    }
}

/// Frame the data of an identity announcement. What is framed for a shared
/// endpoint is read as that endpoint, at the addresses that a native node dials.
pub fn frame_capability(capability: Option<&MultiplexCapability>, magic: &[u8]) -> (framed: Result<
    Vec<u8>,
    WireFault,
>)
    ensures
        framed matches Ok(bytes) && bytes@ == announcement_data(capability_view(capability), magic@)
            && (capability matches Some(shared) ==> announced(
            bytes@,
            magic@,
            shared.daemon_peer_id@,
            shared_addresses(shared.addresses@),
        )),
{
    match capability {
        Some(shared) => {
            let plain = (*shared.daemon_peer_id.as_bytes(), to_plain_sockets(&shared.addresses));
            match encode_capability(&plain) {
                Ok(bytes) => {
                    let framed = joined(magic, &bytes);
                    proof {
                        assert(framed@.skip(magic@.len() as int) =~= bytes@);
                        assert(framed@.take(magic@.len() as int) =~= magic@);
                        lemma_shared_addresses(shared.addresses@);
                    }
                    Ok(framed)
                },
                Err(cause) => Err(WireFault::Capability(cause)),
            }
        },
        None => {
            let none: Vec<u8> = Vec::new();
            assert(none@ =~= Seq::<u8>::empty());
            Ok(none)
        },
    }
}

/// Build the signed announcement of an identity, with the shared endpoint of
/// its daemon where there is one.
pub fn create_identity_announce_bytes(
    identity: &NodeIdentity,
    user_agent: &str,
    capability: Option<&MultiplexCapability>,
    magic: &[u8],
    timestamp: Result<u64, String>,
) -> (created: Result<Vec<u8>, WireFault>)
    ensures
        match timestamp {
            Err(cause) => created == Err::<Vec<u8>, WireFault>(WireFault::Clock(cause)),
            Ok(seconds) => {
                let statement = StatementView::composed(
                    identity.owner()@,
                    user_agent@,
                    None,
                    IDENTITY_ANNOUNCE_PROTOCOL@,
                    announcement_data(capability_view(capability), magic@),
                    seconds,
                );
                match created {
                    Ok(bytes) => statement.vouched(Seq::empty(), identity.public(), bytes@),
                    Err(fault) => fault matches WireFault::Signing(cause) && is_signing_fault(
                        cause@,
                    ),
                }
            },
        },
{
    let data = frame_capability(capability, magic)?;
    let unmarked: Vec<u8> = Vec::new();
    proof {
        assert(unmarked@ =~= Seq::<u8>::empty());
    }
    create_protocol_message(
        identity,
        user_agent,
        false,
        &unmarked,
        None,
        IDENTITY_ANNOUNCE_PROTOCOL,
        &data,
        timestamp,
    )
}

/// Where a shared endpoint that a peer announces is reached. An address that
/// means the announcing host itself stands for the host that the announcement
/// came from; one without a port, or of the other IP version, stands for
/// nothing.
pub open spec fn resolved_address(address: MultiAddr, remote: IpAddr) -> Option<MultiAddr> {
    match address.dialable() {
        None => None,
        Some(socket) => {
            let own = socket.ip.unspecified() || (socket.ip.loopback() && !remote.loopback());
            let at = if own {
                SocketAddr { ip: remote, port: socket.port, flowinfo: 0, scope_id: 0 }
            } else {
                socket
            };
            if socket.port == 0 || (own && (socket.ip is V4) != (remote is V4)) {
                None
            } else {
                Some(
                    MultiAddr {
                        socket_addr: at,
                        transport: crate::address::AddressTransport::Quic,
                        owner: None,
                    },
                )
            }
        },
    }
}

/// Where a shared endpoint with several addresses is reached, in order.
pub open spec fn resolved_addresses(addresses: Seq<MultiAddr>, remote: IpAddr) -> Seq<MultiAddr>
    decreases addresses.len(),
{
    if addresses.len() == 0 {
        Seq::empty()
    } else {
        let before = resolved_addresses(addresses.drop_last(), remote);
        match resolved_address(addresses.last(), remote) {
            Some(address) => before.push(address),
            None => before,
        }
    }
}

/// The first addresses at which a shared endpoint is reached, as many as are
/// kept.
pub open spec fn kept_addresses(addresses: Seq<MultiAddr>, remote: IpAddr) -> Seq<MultiAddr> {
    let all = resolved_addresses(addresses, remote);
    if all.len() <= MAX_CAPABILITY_ADDRESSES {
        all
    } else {
        all.take(MAX_CAPABILITY_ADDRESSES as int)
    }
}

fn resolve_address(address: &MultiAddr, remote_ip: IpAddr) -> (resolved: Option<MultiAddr>)
    ensures
        resolved == resolved_address(*address, remote_ip),
{
    let socket = match address.dialable_socket_addr() {
        Some(socket) => socket,
        None => {
            return None;
        },
    };
    if socket.port == 0 {
        return None;
    }
    if socket.ip.is_unspecified() || (socket.ip.is_loopback() && !remote_ip.is_loopback()) {
        let same_version = match (socket.ip, remote_ip) {
            (IpAddr::V4(_), IpAddr::V4(_)) => true,
            (IpAddr::V6(_), IpAddr::V6(_)) => true,
            _ => false,
        };
        if !same_version {
            return None;
        }
        return Some(MultiAddr::quic(SocketAddr::new(remote_ip, socket.port)));
    }
    Some(MultiAddr::quic(socket))
}

/// Where a shared endpoint that a peer announces is reached.
pub fn resolve_addresses(addresses: &Vec<MultiAddr>, remote_ip: IpAddr) -> (kept: Vec<MultiAddr>)
    ensures
        kept@ == kept_addresses(addresses@, remote_ip),
{
    let mut kept: Vec<MultiAddr> = Vec::new();
    let mut index: usize = 0;
    while index < addresses.len()
        invariant
            index <= addresses@.len(),
            kept@.len() <= MAX_CAPABILITY_ADDRESSES,
            kept@ == kept_addresses(addresses@.take(index as int), remote_ip),
        decreases addresses@.len() - index,
    {
        proof {
            assert(addresses@.take(index as int + 1).drop_last() =~= addresses@.take(index as int));
        }
        let ghost all = resolved_addresses(addresses@.take(index as int), remote_ip);
        let resolved = resolve_address(&addresses[index], remote_ip);
        if let Some(address) = resolved {
            if kept.len() < MAX_CAPABILITY_ADDRESSES {
                kept.push(address);
            } else {
                proof {
                    assert(all.push(address).take(MAX_CAPABILITY_ADDRESSES as int) =~= kept@);
                }
            }
        }
        index += 1;
    }
    assert(addresses@.take(addresses@.len() as int) =~= addresses@);
    kept
}

/// Whether data begins with a mark.
pub open spec fn marked(data: Seq<u8>, magic: Seq<u8>) -> bool {
    data.len() >= magic.len() && data.take(magic.len() as int) == magic
}

fn strip_mark(data: &[u8], magic: &[u8]) -> (rest: Option<Vec<u8>>)
    ensures
        match rest {
            Some(bytes) => marked(data@, magic@) && bytes@ == data@.skip(magic@.len() as int),
            None => !marked(data@, magic@),
        },
{
    if data.len() < magic.len() {
        return None;
    }
    let mut index: usize = 0;
    while index < magic.len()
        invariant
            index <= magic@.len() <= data@.len(),
            forall|i: int| 0 <= i < index ==> data@[i] == magic@[i],
        decreases magic@.len() - index,
    {
        if data[index] != magic[index] {
            assert(data@.take(magic@.len() as int)[index as int] != magic@[index as int]);
            return None;
        }
        index += 1;
    }
    assert(data@.take(magic@.len() as int) =~= magic@);
    let mut rest: Vec<u8> = Vec::new();
    let mut at: usize = magic.len();
    while at < data.len()
        invariant
            magic@.len() <= at <= data@.len(),
            rest@ == data@.subrange(magic@.len() as int, at as int),
        decreases data@.len() - at,
    {
        rest.push(data[at]);
        assert(rest@ =~= data@.subrange(magic@.len() as int, at as int + 1));
        at += 1;
    }
    assert(rest@ =~= data@.skip(magic@.len() as int));
    Some(rest)
}

/// The shared endpoint that the data of an announcement names, before its
/// addresses are resolved.
pub open spec fn announced(data: Seq<u8>, magic: Seq<u8>, daemon: Seq<u8>, listed: Seq<MultiAddr>) -> bool {
    marked(data, magic) && (capability_decoding(data.skip(magic.len() as int)) matches Some(read)
        && read.0 == daemon && read_addresses(read.1) == listed)
}

/// Whether the data of an announcement names a shared endpoint at these
/// addresses, as the receiver reaches them.
pub open spec fn names_endpoint(
    data: Seq<u8>,
    magic: Seq<u8>,
    remote: IpAddr,
    daemon: Seq<u8>,
    addresses: Seq<MultiAddr>,
) -> bool {
    exists|listed: Seq<MultiAddr>| #[trigger]
        announced(data, magic, daemon, listed) && addresses == kept_addresses(listed, remote)
}

/// Read the shared endpoint out of the data of an identity announcement that
/// came from a remote end.
pub fn parse_multiplex_capability(
    data: &[u8],
    magic: &[u8],
    remote_address: SocketAddr,
) -> (capability: Option<MultiplexCapability>)
    ensures
        match capability {
            Some(shared) => shared.addresses@.len() > 0 && names_endpoint(
                data@,
                magic@,
                remote_address.ip,
                shared.daemon_peer_id@,
                shared.addresses@,
            ),
            None => forall|daemon: Seq<u8>, listed: Seq<MultiAddr>| #[trigger]
                announced(data@, magic@, daemon, listed) ==> kept_addresses(
                    listed,
                    remote_address.ip,
                ).len() == 0,
        },
{
    let encoded = match strip_mark(data, magic) {
        Some(rest) => rest,
        None => {
            return None;
        },
    };
    let (daemon, plain) = match decode_capability(&encoded) {
        Ok(plain) => plain,
        Err(_) => {
            return None;
        },
    };
    let listed = from_plain_sockets(&plain);
    let addresses = resolve_addresses(&listed, remote_address.ip);
    proof {
        assert(announced(data@, magic@, daemon@, listed@));
    }
    if addresses.len() == 0 {
        return None;
    }
    let daemon_peer_id = PeerId::from_bytes(daemon);
    proof {
        let (heard, mark): (Seq<u8>, Seq<u8>) = (data@, magic@);
        let (owner, kept): (Seq<u8>, Seq<MultiAddr>) = (daemon_peer_id@, addresses@);
        assert(announced(heard, mark, owner, listed@) && kept == kept_addresses(
            listed@,
            remote_address.ip,
        ));
        assert(names_endpoint(heard, mark, remote_address.ip, owner, kept));
    }
    Some(MultiplexCapability { daemon_peer_id, addresses })
}

/// Whether a name of a protocol is not empty and holds no path separator and no
/// null character.
pub open spec fn valid_protocol_name(protocol: Seq<char>) -> bool {
    protocol.len() > 0 && forall|i: int|
        0 <= i < protocol.len() ==> (#[trigger] protocol[i]) != '/' && protocol[i] != '\\'
            && protocol[i] != '\0'
}

/// Validate the name of a protocol.
pub fn validate_protocol_name(protocol: &str) -> (valid: bool)
    ensures
        valid == valid_protocol_name(protocol@),
{
    let count: usize = protocol.unicode_len();
    let mut index: usize = 0;
    while index < count
        invariant
            index <= count,
            count == protocol@.len(),
            forall|i: int|
                0 <= i < index ==> (#[trigger] protocol@[i]) != '/' && protocol@[i] != '\\'
                    && protocol@[i] != '\0',
        decreases count - index,
    {
        let character = protocol.get_char(index);
        if character == '/' || character == '\\' || character == '\0' {
            return false;
        }
        index += 1;
    }
    count > 0
}

/// Why a request or a response could not be sent, or was not answered.
#[derive(Debug, Clone, PartialEq, Eq)]
pub enum RequestFault {
    /// The name of the protocol is not valid.
    InvalidProtocol,
    /// As many requests as are allowed wait for an answer.
    TooManyRequests,
    /// The envelope could not be encoded.
    Envelope(String),
    /// The peer hung up before it answered.
    ConnectionClosed(PeerId),
    /// No answer came in time, which is given in milliseconds.
    Timeout(u64),
}

/// What is sent for a request or a response: the protocol on the wire, and the
/// envelope.
pub fn frame_envelope(
    protocol: &str,
    message_id: &str,
    is_response: bool,
    payload: Vec<u8>,
) -> (framed: Result<(String, Vec<u8>), RequestFault>)
    ensures
        match framed {
            Ok((wire_protocol, bytes)) => {
                &&& valid_protocol_name(protocol@)
                &&& wire_protocol@ == REQUEST_PREFIX@ + protocol@
                &&& bytes@ == envelope_encoding((message_id@, is_response, payload@))
                &&& envelope_decoding(bytes@) == Some((message_id@, is_response, payload@))
            },
            Err(fault) => fault is InvalidProtocol && !valid_protocol_name(protocol@),
        },
{
    if !validate_protocol_name(protocol) {
        return Err(RequestFault::InvalidProtocol);
    }
    let mut wire_protocol = REQUEST_PREFIX.to_owned();
    wire_protocol.append(protocol);
    match encode_envelope(&(message_id.to_owned(), is_response, payload)) {
        Ok(bytes) => Ok((wire_protocol, bytes)),
        Err(cause) => Err(RequestFault::Envelope(cause)),
    }
}

/// Parse a request or a response out of the bytes of a message.
pub fn parse_request_envelope(data: &[u8]) -> (envelope: Option<(String, bool, Vec<u8>)>)
    ensures
        match envelope {
            Some((message_id, is_response, payload)) => envelope_decoding(data@) == Some(
                (message_id@, is_response, payload@),
            ),
            None => envelope_decoding(data@) is None,
        },
{
    match decode_envelope(data) {
        Ok(envelope) => Some(envelope),
        Err(_) => None,
    }
}

/// A message says who sends it, to whom, when, with which software, on which
/// protocol and what.
pub proof fn law_messages_say_who_sends_them(
    from: Seq<u8>,
    user_agent: Seq<char>,
    to: Option<Seq<u8>>,
    protocol: Seq<char>,
    data: Seq<u8>,
    timestamp: u64,
)
    ensures
        ({
            let statement = StatementView::composed(
                from,
                user_agent,
                to,
                protocol,
                data,
                timestamp,
            );
            &&& statement.from == from
            &&& statement.to == to
            &&& statement.timestamp == timestamp
            &&& statement.user_agent == user_agent
            &&& statement.protocol == protocol
            &&& statement.data == data
        }),
{
}

/// What is signed covers every part of a message but the key: the protocol, the
/// data, the sender, the time and the software, and the receiver where the message
/// names one.
pub proof fn law_signatures_cover_the_message(statement: StatementView, receiver: Seq<u8>)
    ensures
        statement.to is None ==> statement.signable() == signable_encoding(
            statement.protocol,
            statement.data,
            statement.from,
            statement.timestamp,
            statement.user_agent,
        ),
        statement.to == Some(receiver) ==> statement.signable() == addressed_signable_encoding(
            statement.protocol,
            statement.data,
            statement.from,
            receiver,
            statement.timestamp,
            statement.user_agent,
        ),
{
}

/// A message that names its receiver is marked, and the message stands behind the
/// mark; one that names none is sent as it is, whatever the mark.
pub proof fn law_only_addressed_messages_are_marked(
    statement: StatementView,
    magic: Seq<u8>,
    other: Seq<u8>,
    key: Seq<u8>,
    signature: Seq<u8>,
)
    ensures
        statement.to is Some ==> {
            let bytes = statement.framed(magic, key, signature);
            &&& marked(bytes, magic)
            &&& bytes.len() == magic.len() + statement.framed(Seq::empty(), key, signature).len()
            &&& bytes.skip(magic.len() as int) == statement.framed(Seq::empty(), key, signature)
        },
        statement.to is None ==> statement.framed(magic, key, signature) == statement.framed(
            other,
            key,
            signature,
        ),
        statement.to is None ==> statement.framed(magic, key, signature) == message_encoding(
            (
                statement.protocol,
                statement.data,
                statement.from,
                statement.timestamp,
                statement.user_agent,
                key,
                signature,
            ),
        ),
        statement.to matches Some(receiver) ==> statement.framed(Seq::empty(), key, signature)
            == addressed_encoding(
            (
                statement.protocol,
                statement.data,
                statement.from,
                receiver,
                statement.timestamp,
                statement.user_agent,
                key,
                signature,
            ),
        ),
{
    if statement.to is Some {
        let bytes = statement.framed(magic, key, signature);
        let plain = statement.framed(Seq::empty(), key, signature);
        assert(plain =~= statement.encoded(key, signature));
        assert(bytes.take(magic.len() as int) =~= magic);
        assert(bytes.skip(magic.len() as int) =~= plain);
    }
}

/// A message that is vouched for carries a signature of full length that is good
/// for what it says under the sender's key.
pub proof fn law_vouched_messages_are_signed(
    statement: StatementView,
    magic: Seq<u8>,
    key: Seq<u8>,
    bytes: Seq<u8>,
)
    requires
        statement.vouched(magic, key, bytes),
    ensures
        exists|signature: Seq<u8>|
            signature.len() == SIGNATURE_BYTES && #[trigger] signature_check(
                key,
                statement.signable(),
                signature,
            ) == Some(true) && bytes == statement.framed(magic, key, signature),
{
    let signature = choose|signature: Seq<u8>|
        statement.vouched_by(magic, key, signature, bytes);
    assert(signature_check(key, statement.signable(), signature) == Some(true));
}

/// A shared endpoint is announced at its QUIC addresses alone, in order: those
/// that a native node can dial.
pub proof fn law_endpoints_are_announced_at_native_addresses(addresses: Seq<MultiAddr>)
    ensures
        native_sockets(addresses) == addresses.filter(
            |address: MultiAddr| address.transport is Quic,
        ).map(|_i: int, address: MultiAddr| address.socket_addr),
    decreases addresses.len(),
{
    let native = |address: MultiAddr| address.transport is Quic;
    let socket = |_i: int, address: MultiAddr| address.socket_addr;
    reveal(Seq::filter);
    if addresses.len() > 0 {
        let rest = addresses.drop_last();
        law_endpoints_are_announced_at_native_addresses(rest);
        if native(addresses.last()) {
            assert(addresses.filter(native) == rest.filter(native).push(addresses.last()));
            assert(rest.filter(native).push(addresses.last()).map(socket) =~= rest.filter(
                native,
            ).map(socket).push(addresses.last().socket_addr));
        }
    } else {
        assert(addresses.filter(native).map(socket) =~= Seq::<SocketAddr>::empty());
    }
}

/// The addresses of an announcement are read as QUIC addresses without an owner,
/// one for each socket.
pub proof fn law_announced_addresses_are_native(addresses: Seq<MultiAddr>, index: int)
    requires
        0 <= index < native_sockets(addresses).len(),
    ensures
        shared_addresses(addresses).len() == native_sockets(addresses).len(),
        shared_addresses(addresses)[index].transport is Quic,
        shared_addresses(addresses)[index].owner is None,
        shared_addresses(addresses)[index].socket_addr.ip == native_sockets(addresses)[index].ip,
        shared_addresses(addresses)[index].socket_addr.port == native_sockets(addresses)[index].port,
{
}

/// An announcement without a shared endpoint has no data; one with an endpoint is
/// marked, and carries the daemon and its native sockets behind the mark.
pub proof fn law_announcements_carry_the_endpoint(
    daemon: Seq<u8>,
    addresses: Seq<MultiAddr>,
    magic: Seq<u8>,
)
    ensures
        announcement_data(None, magic).len() == 0,
        marked(announcement_data(Some((daemon, addresses)), magic), magic),
        announcement_data(Some((daemon, addresses)), magic).skip(magic.len() as int)
            == capability_encoding((daemon, carried_sockets(native_sockets(addresses)))),
{
    let data = announcement_data(Some((daemon, addresses)), magic);
    assert(data.take(magic.len() as int) =~= magic);
    assert(data.skip(magic.len() as int) =~= capability_encoding(
        (daemon, carried_sockets(native_sockets(addresses))),
    ));
}

/// An announced address is reached where it says, but for one that means the
/// announcing host itself, which is reached at the host that the announcement came
/// from: a wildcard always, a loopback address unless it came from this host. An
/// address without a port, of another transport, or of the other IP version than
/// that host is reached nowhere.
pub proof fn law_own_addresses_mean_the_sender(address: MultiAddr, remote: IpAddr)
    ensures
        ({
            let socket = address.socket_addr;
            let own = socket.ip.unspecified() || (socket.ip.loopback() && !remote.loopback());
            let found = resolved_address(address, remote);
            &&& !(address.transport is Quic) || socket.port == 0 ==> found is None
            &&& address.transport is Quic && socket.port != 0 && !own ==> (found matches Some(at)
                && at.socket_addr == socket && at.transport is Quic && at.owner is None)
            &&& address.transport is Quic && socket.port != 0 && own && (socket.ip is V4) == (remote
                is V4) ==> (found matches Some(at) && at.socket_addr.ip == remote
                && at.socket_addr.port == socket.port && at.transport is Quic && at.owner is None)
            &&& own && (socket.ip is V4) != (remote is V4) ==> found is None
        }),
{
}

/// Of the announced addresses those that are reached somewhere are kept, in order,
/// and no more than the limit.
pub proof fn law_kept_addresses_are_the_first(
    addresses: Seq<MultiAddr>,
    address: MultiAddr,
    remote: IpAddr,
)
    ensures
        kept_addresses(addresses, remote).len() <= MAX_CAPABILITY_ADDRESSES,
        kept_addresses(Seq::empty(), remote).len() == 0,
        resolved_address(address, remote) is None ==> kept_addresses(
            addresses.push(address),
            remote,
        ) == kept_addresses(addresses, remote),
        resolved_address(address, remote) matches Some(found) ==> {
            &&& kept_addresses(addresses, remote).len() < MAX_CAPABILITY_ADDRESSES
                ==> kept_addresses(addresses.push(address), remote) == kept_addresses(
                addresses,
                remote,
            ).push(found)
            &&& kept_addresses(addresses, remote).len() == MAX_CAPABILITY_ADDRESSES
                ==> kept_addresses(addresses.push(address), remote) == kept_addresses(
                addresses,
                remote,
            )
        },
{
    let all = resolved_addresses(addresses, remote);
    assert(addresses.push(address).drop_last() =~= addresses);
    if let Some(found) = resolved_address(address, remote) {
        assert(resolved_addresses(addresses.push(address), remote) == all.push(found));
        assert(all.push(found).take(MAX_CAPABILITY_ADDRESSES as int) =~= if all.len()
            < MAX_CAPABILITY_ADDRESSES {
            all.push(found).take(MAX_CAPABILITY_ADDRESSES as int)
        } else {
            all.take(MAX_CAPABILITY_ADDRESSES as int)
        });
        if all.len() == MAX_CAPABILITY_ADDRESSES {
            assert(all.push(found).take(MAX_CAPABILITY_ADDRESSES as int) =~= all);
        }
    }
}

} // verus!
