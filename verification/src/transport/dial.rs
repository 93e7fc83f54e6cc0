//! Whom a node dials, and what it learns from it.

use crate::address::{IpAddr, MultiAddr, SocketAddr};
use crate::concurrent::{EndpointSet, IpSet};
use crate::peer_id::PeerId;
use crate::peer_record::AddressType;
use crate::transport::maps::{observed, ProvenExternals};
use crate::transport::registry::{
    any_at_socket, has_socket, holds_peer, ChannelRegistry, RegistryView,
};
use vstd::prelude::*;
use vstd::string::*;

verus! {

/// Minimum distinct source-disjoint observers required before an external
/// address is considered cold-dialable.
///
/// An observer is source-disjoint where its IP address belonged to no known
/// peer when it connected. Two of them rule out that one known peer came back
/// through a binding that it had opened itself.
pub const MIN_DISTINCT_OBSERVERS_FOR_DIRECT: usize = 2;

/// Whether an external address has enough observers.
pub open spec fn proven(externals: Map<SocketAddr, Set<IpAddr>>, external: SocketAddr) -> bool {
    externals.dom().contains(external.canonical()) && externals[external.canonical()].len()
        >= MIN_DISTINCT_OBSERVERS_FOR_DIRECT
}

/// Check if an external address has cleared the proof threshold, however the
/// address is written.
pub fn external_meets_proof_threshold(
    external: SocketAddr,
    proven_externals: &ProvenExternals,
) -> (meets: bool)
    ensures
        meets == proven(proven_externals@, external),
{
    match proven_externals.observers(&external.canonicalize()) {
        Some(count) => count >= MIN_DISTINCT_OBSERVERS_FOR_DIRECT,
        None => false,
    }
}

/// The proof of an external address rests on its own observers alone: those of
/// another address change nothing, and another form of the address is proven as
/// well.
pub proof fn law_proofs_are_per_address(
    externals: Map<SocketAddr, Set<IpAddr>>,
    external: SocketAddr,
    other: SocketAddr,
    observers: Set<IpAddr>,
)
    ensures
        other.canonical() != external.canonical() ==> proven(
            externals.insert(other.canonical(), observers),
            external,
        ) == proven(externals, external),
        other.canonical() == external.canonical() ==> proven(externals, other) == proven(
            externals,
            external,
        ),
{
}

/// The label of an address tag in logs.
pub open spec fn kind_label(kind: Option<AddressType>) -> Seq<char> {
    match kind {
        Some(AddressType::Relay) => "Relay"@,
        Some(AddressType::Direct) => "Direct"@,
        Some(AddressType::Unverified) => "Unverified"@,
        Some(AddressType::Lan) => "Lan"@,
        None => "unknown"@,
    }
}

/// Get the label of an address tag in logs.
pub fn address_kind_label(kind: Option<AddressType>) -> (label: &'static str)
    ensures
        label@ == kind_label(kind),
{
    match kind {
        Some(AddressType::Relay) => "Relay",
        Some(AddressType::Direct) => "Direct",
        Some(AddressType::Unverified) => "Unverified",
        Some(AddressType::Lan) => "Lan",
        None => "unknown",
    }
}

/// The address that a wildcard address means for a dial.
pub open spec fn loopback_for(address: SocketAddr) -> SocketAddr {
    if address.ip.unspecified() {
        SocketAddr {
            ip: match address.ip {
                IpAddr::V4(_) => IpAddr::V4(0x7f00_0001),
                IpAddr::V6(_) => IpAddr::V6(1),
            },
            port: address.port,
            flowinfo: 0,
            scope_id: 0,
        }
    } else {
        address
    }
}

/// Turn a wildcard address into the loopback address of its IP version.
pub fn normalize_wildcard_to_loopback(address: SocketAddr) -> (target: SocketAddr)
    ensures
        target == loopback_for(address),
{
    if address.ip.is_unspecified() {
        let ip = match address.ip {
            IpAddr::V4(_) => IpAddr::V4(0x7f00_0001),
            IpAddr::V6(_) => IpAddr::V6(1),
        };
        SocketAddr::new(ip, address.port)
    } else {
        address
    }
}

/// Whom a node has dialed, and whom it therefore knows.
pub struct DialBook {
    dialed: EndpointSet,
    known_ips: IpSet,
}

/// Whom a node has dialed, and whom it therefore knows.
#[verifier::ext_equal]
pub struct DialView {
    /// Remote ends that were dialed.
    pub dialed: Set<SocketAddr>,
    /// IP addresses of known peers.
    pub known_ips: Set<IpAddr>,
}

impl View for DialBook {
    type V = DialView;

    closed spec fn view(&self) -> DialView {
        DialView { dialed: self.dialed@, known_ips: self.known_ips@ }
    }
}

impl DialView {
    /// What is known once a dial to an address is prepared, and the socket to dial.
    pub open spec fn prepared(self, address: MultiAddr) -> (DialView, Option<SocketAddr>) {
        match address.dialable() {
            Some(socket) => (
                DialView {
                    dialed: self.dialed.insert(loopback_for(socket).canonical()),
                    known_ips: self.known_ips.insert(
                        loopback_for(socket).canonical().ip.canonical(),
                    ),
                },
                Some(loopback_for(socket)),
            ),
            None => (self, None),
        }
    }
}

impl DialBook {
    /// Nobody was dialed.
    pub fn new() -> (book: Self)
        ensures
            book@ == (DialView { dialed: Set::empty(), known_ips: Set::empty() }),
    {
        DialBook { dialed: EndpointSet::new(), known_ips: IpSet::new() }
    }

    /// Check if a remote end was dialed.
    pub fn was_dialed(&self, remote: &SocketAddr) -> (dialed: bool)
        ensures
            dialed == self@.dialed.contains(*remote),
    {
        self.dialed.contains(remote)
    }

    /// Check if an IP address belongs to a known peer.
    pub fn is_known(&self, ip: &IpAddr) -> (known: bool)
        ensures
            known == self@.known_ips.contains(*ip),
    {
        self.known_ips.contains(ip)
    }

    /// Prepare to dial an address: say which socket to dial, and note it before
    /// the dial starts, so that what comes back from there is not taken for
    /// proof that the node can be dialed. Only QUIC addresses are dialed.
    pub fn prepare_dial(&mut self, address: &MultiAddr) -> (target: Option<SocketAddr>)
        ensures
            (final(self)@, target) == old(self)@.prepared(*address),
    {
        match address.dialable_socket_addr() {
            Some(socket) => {
                let target = normalize_wildcard_to_loopback(socket);
                let remote = target.canonicalize();
                self.dialed.insert(remote);
                self.known_ips.insert(crate::address::canonicalize_ip(remote.ip));
                Some(target)
            },
            None => None,
        }
    }
}

/// Once dialed, always dialed: what a node knows of whom it dialed only grows.
pub proof fn law_dials_are_remembered(book: DialView, target: SocketAddr, remote: SocketAddr, ip: IpAddr)
    ensures
        book.dialed.contains(remote) ==> book.dialed.insert(target).contains(remote),
        book.known_ips.contains(ip) ==> book.known_ips.insert(target.ip).contains(ip),
{
}

/// What is known once a dial was answered from a remote end, and the channel.
pub open spec fn concluded(
    registry: RegistryView,
    listen_addrs: Seq<MultiAddr>,
    remote: SocketAddr,
    address: MultiAddr,
    now: u64,
) -> (RegistryView, Option<SocketAddr>) {
    if has_socket(listen_addrs, remote) {
        (registry, None)
    } else {
        (registry.dialed(remote.channel(), address, now), Some(remote.channel()))
    }
}

/// Take note of a dial that was answered, at the address that was asked for.
/// None comes where the node itself answered: that connection is to be closed.
pub fn conclude_dial(
    registry: &mut ChannelRegistry,
    listen_addrs: &Vec<MultiAddr>,
    remote: SocketAddr,
    address: &MultiAddr,
    now: u64,
) -> (channel: Option<SocketAddr>)
    ensures
        (final(registry)@, channel) == concluded(old(registry)@, listen_addrs@, remote, *address, now),
{
    if any_at_socket(listen_addrs, &remote) {
        return None;
    }
    let channel = remote.to_channel();
    registry.record_dialed_channel(channel, *address, now);
    Some(channel)
}

/// Why a shared endpoint is not used.
#[derive(Debug, Clone, PartialEq, Eq)]
pub enum DaemonFault {
    /// The key of the endpoint stands for no identity.
    BadKey(String),
    /// The endpoint showed no key.
    NoIdentity,
    /// The endpoint belongs to another daemon.
    Mismatch(PeerId, PeerId),
}

impl DaemonFault {
    /// The fault in words.
    pub open spec fn text(self) -> Seq<char> {
        match self {
            DaemonFault::BadKey(cause) => cause@,
            DaemonFault::NoIdentity => {
                "shared endpoint did not expose an authenticated transport identity"@
            },
            DaemonFault::Mismatch(expected, actual) => {
                "shared endpoint identity mismatch: expected "@ + crate::text::hex(expected@)
                    + ", got "@ + crate::text::hex(actual@)
            },
        }
    }

    /// The fault in words.
    pub fn message(&self) -> (message: String)
        ensures
            message@ == self.text(),
    {
        match self {
            DaemonFault::BadKey(cause) => cause.clone(),
            DaemonFault::NoIdentity => {
                "shared endpoint did not expose an authenticated transport identity".to_owned()
            },
            DaemonFault::Mismatch(expected, actual) => {
                let mut message = "shared endpoint identity mismatch: expected ".to_owned();
                message.append(expected.to_hex().as_str());
                message.append(", got ");
                message.append(actual.to_hex().as_str());
                message
            },
        }
    }
}

/// What the check of a shared endpoint says, given the identity that its key
/// stands for.
pub open spec fn daemon_check(
    expected: PeerId,
    shown: Option<Result<PeerId, String>>,
) -> Result<(), DaemonFault> {
    match shown {
        Some(Ok(actual)) => if actual == expected {
            Ok::<(), DaemonFault>(())
        } else {
            Err(DaemonFault::Mismatch(expected, actual))
        },
        Some(Err(cause)) => Err(DaemonFault::BadKey(cause)),
        None => Err(DaemonFault::NoIdentity),
    }
}

/// Check that a shared endpoint belongs to the daemon that is expected there.
/// The key that the endpoint showed is given as the identity that it stands
/// for. Where the check fails, the connection is to be closed.
pub fn check_daemon_identity(
    expected: &PeerId,
    shown: Option<Result<PeerId, String>>,
) -> (checked: Result<(), DaemonFault>)
    ensures
        checked == daemon_check(*expected, shown),
{
    match shown {
        Some(Ok(actual)) => if actual.is(expected) {
            Ok(())
        } else {
            Err(DaemonFault::Mismatch(*expected, actual))
        },
        Some(Err(cause)) => Err(DaemonFault::BadKey(cause)),
        None => Err(DaemonFault::NoIdentity),
    }
}

/// What to do while an identity is awaited on a channel.
#[derive(Debug, Clone, Copy, PartialEq, Eq)]
pub enum IdentityWait {
    /// A peer has proven its identity.
    Authenticated(PeerId),
    /// The channel is gone, so no peer ever will.
    Closed,
    /// The time is up.
    TimedOut,
    /// Look again in a while.
    Wait,
}

/// What to do while an identity is awaited on a channel.
pub open spec fn wait_step(
    peers: Seq<PeerId>,
    expected_peer: Option<PeerId>,
    channel_active: bool,
    deadline_passed: bool,
) -> IdentityWait {
    match expected_peer {
        Some(expected) if peers.contains(expected) => IdentityWait::Authenticated(expected),
        None if peers.len() > 0 => IdentityWait::Authenticated(peers[0]),
        _ => if !channel_active {
            IdentityWait::Closed
        } else if deadline_passed {
            IdentityWait::TimedOut
        } else {
            IdentityWait::Wait
        },
    }
}

/// Decide what to do while an identity is awaited on a channel: a particular
/// one, or any. A channel that is gone ends the wait at once.
pub fn identity_wait_step(
    peers_on_channel: &Vec<PeerId>,
    expected_peer: Option<PeerId>,
    channel_active: bool,
    deadline_passed: bool,
) -> (step: IdentityWait)
    ensures
        step == wait_step(peers_on_channel@, expected_peer, channel_active, deadline_passed),
{
    match expected_peer {
        Some(expected) => {
            if holds_peer(peers_on_channel, &expected) {
                return IdentityWait::Authenticated(expected);
            }
        },
        None => {
            if peers_on_channel.len() > 0 {
                return IdentityWait::Authenticated(peers_on_channel[0]);
            }
        },
    }
    if !channel_active {
        IdentityWait::Closed
    } else if deadline_passed {
        IdentityWait::TimedOut
    } else {
        IdentityWait::Wait
    }
}

/// An external address is proven by two observers and by no fewer, and what was
/// proven stays so with more of them.
pub proof fn law_two_observers_prove_an_address(
    externals: Map<SocketAddr, Set<IpAddr>>,
    external: SocketAddr,
    first: IpAddr,
    second: IpAddr,
)
    ensures
        proven(externals, external) ==> externals.dom().contains(external.canonical())
            && externals[external.canonical()].len() >= 2,
        first != second ==> proven(
            externals.insert(external.canonical(), set![first, second]),
            external,
        ),
        !proven(externals.insert(external.canonical(), set![first]), external),
        !proven(externals.remove(external.canonical()), external),
        proven(externals, external) && externals[external.canonical()].finite() ==> proven(
            externals.insert(
                external.canonical(),
                externals[external.canonical()].insert(first),
            ),
            external,
        ),
{
    if first != second {
        assert(set![first, second].len() == 2);
    }
    assert(set![first].len() == 1);
}

/// A wildcard address is dialled at the loopback address of its IP version and its
/// port, which is no wildcard; every other address is dialled as it is.
pub proof fn law_wildcards_mean_this_host(address: SocketAddr)
    ensures
        !loopback_for(address).ip.unspecified(),
        loopback_for(address).port == address.port,
        loopback_for(address).ip is V4 <==> address.ip is V4,
        address.ip.unspecified() ==> loopback_for(address).ip.loopback(),
        address.ip == IpAddr::V4(0) ==> loopback_for(address).ip == IpAddr::V4(0x7f00_0001),
        address.ip == IpAddr::V6(0) ==> loopback_for(address).ip == IpAddr::V6(1),
        !address.ip.unspecified() ==> loopback_for(address) == address,
{
}

/// Before a QUIC address is dialled its remote end and its IP address are on
/// record, however they are written, beside all that were before and no other.
/// No other address is dialled or noted.
pub proof fn law_dials_are_noted_beforehand(
    book: DialView,
    address: MultiAddr,
    other: SocketAddr,
    ip: IpAddr,
)
    ensures
        ({
            let (after, target) = book.prepared(address);
            &&& target is Some <==> address.transport is Quic
            &&& target is None ==> after == book
            &&& target matches Some(socket) ==> {
                &&& !address.socket_addr.ip.unspecified() ==> socket == address.socket_addr
                &&& socket.port == address.socket_addr.port
                &&& after.dialed.contains(other) <==> book.dialed.contains(other) || other
                    == socket.canonical()
                &&& after.known_ips.contains(ip) <==> book.known_ips.contains(ip) || ip
                    == socket.ip.canonical()
            }
        }),
{
}

/// A dial that the node itself answered leaves no trace. Every other one makes the
/// channel of the remote end known and active at the address that was asked for.
pub proof fn law_answered_dials_make_channels(
    registry: RegistryView,
    listen_addrs: Seq<MultiAddr>,
    remote: SocketAddr,
    address: MultiAddr,
    now: u64,
)
    ensures
        ({
            let (after, channel) = concluded(registry, listen_addrs, remote, address, now);
            let own = exists|i: int|
                0 <= i < listen_addrs.len() && (#[trigger] listen_addrs[i]).socket_addr == remote;
            &&& own ==> channel is None && after == registry
            &&& !own ==> {
                &&& channel == Some(remote.channel())
                &&& after.active.contains(remote.channel())
                &&& after.info.dom().contains(remote.channel())
                &&& after.info[remote.channel()].addresses == seq![address]
                &&& after.links == registry.links
            }
        }),
{
}

/// A shared endpoint is used only where it showed the identity of the daemon that
/// is expected there, and each other case has its own fault.
pub proof fn law_only_the_expected_daemon_is_used(
    expected: PeerId,
    shown: Option<Result<PeerId, String>>,
)
    ensures
        daemon_check(expected, shown) is Ok <==> shown == Some(Ok::<PeerId, String>(expected)),
        shown is None ==> daemon_check(expected, shown) == Err::<(), _>(DaemonFault::NoIdentity),
        shown matches Some(Err(cause)) ==> daemon_check(expected, shown) == Err::<(), _>(
            DaemonFault::BadKey(cause),
        ),
        shown matches Some(Ok(actual)) ==> actual != expected ==> daemon_check(expected, shown)
            == Err::<(), _>(DaemonFault::Mismatch(expected, actual)),
{
}

/// A wait ends with a peer as soon as the awaited one, or any where none is named,
/// is on the channel, also when the channel is gone or the time is up. A channel
/// that is gone comes before the time, and without either the wait goes on.
pub proof fn law_waits_end_with_the_awaited_peer(
    peers: Seq<PeerId>,
    expected: PeerId,
    channel_active: bool,
    deadline_passed: bool,
)
    ensures
        ({
            let named = wait_step(peers, Some(expected), channel_active, deadline_passed);
            let any = wait_step(peers, None, channel_active, deadline_passed);
            &&& named is Authenticated <==> peers.contains(expected)
            &&& named matches IdentityWait::Authenticated(peer) ==> peer == expected
            &&& any is Authenticated <==> peers.len() > 0
            &&& any matches IdentityWait::Authenticated(peer) ==> peer == peers[0]
            &&& !(named is Authenticated) ==> {
                &&& named is Closed <==> !channel_active
                &&& named is TimedOut <==> channel_active && deadline_passed
                &&& named is Wait <==> channel_active && !deadline_passed
            }
            &&& !(any is Authenticated) ==> {
                &&& any is Closed <==> !channel_active
                &&& any is TimedOut <==> channel_active && deadline_passed
                &&& any is Wait <==> channel_active && !deadline_passed
            }
        }),
{
}

/// An external address is proven once two distinct IP addresses observed it, and
/// not by one of them alone, however often; observations of another address do
/// not count.
pub proof fn law_observations_add_up(
    externals: Map<SocketAddr, Set<IpAddr>>,
    external: SocketAddr,
    other: SocketAddr,
    first: IpAddr,
    second: IpAddr,
)
    requires
        first != second,
        !externals.dom().contains(external.canonical()),
        other != external.canonical(),
    ensures
        ({
            let once = observed(externals, external.canonical(), first);
            &&& !proven(once, external)
            &&& !proven(observed(once, external.canonical(), first), external)
            &&& proven(observed(once, external.canonical(), second), external)
            &&& !proven(observed(once, other, second), external)
            &&& observed(once, other, second)[external.canonical()] == once[external.canonical()]
        }),
{
    assert(set![first].len() == 1);
    assert(set![first].insert(first) =~= set![first]);
    assert(set![first].insert(second).len() == 2);
}

} // verus!
