//! The peers of a node over both of its transports: its own, and where it has
//! one the transport that it shares with other identities of the same daemon.

use crate::address::{IpAddr, MultiAddr, SocketAddr};
use crate::peer_id::{lemma_peer_is_its_bytes, PeerId};
use crate::transport::registry::{
    among, departed, dependents, holds_peer, lemma_push_contains, lost_with, ChannelRegistry,
    Connectivity, PeerInfo, RegistryView,
};
use vstd::prelude::*;

verus! {

/// One of the transports of a node.
#[derive(Debug, Clone, Copy, PartialEq, Eq, Structural)]
pub enum Backend {
    /// The transport of this identity alone.
    Own,
    /// The transport that the identities of a daemon share.
    Shared,
}

/// The channels and peers of both transports.
#[verifier::ext_equal]
pub struct HandleView {
    /// The transport of this identity alone.
    pub own: RegistryView,
    /// The shared transport.
    pub shared: Option<RegistryView>,
    /// On how many transports each peer is reached.
    pub counts: Map<Seq<u8>, usize>,
}

impl HandleView {
    /// Whether a channel is up on either transport.
    pub open spec fn active(self, channel: SocketAddr) -> bool {
        self.own.active.contains(channel) || self.shared_active(channel)
    }

    /// The software that a peer names, on the shared transport before the own one.
    pub open spec fn agent_of(self, peer: Seq<u8>) -> Option<Seq<char>> {
        if self.side(Backend::Shared).agents.dom().contains(peer) {
            Some(self.side(Backend::Shared).agents[peer])
        } else if self.own.agents.dom().contains(peer) {
            Some(self.own.agents[peer])
        } else {
            None
        }
    }

    /// Whether this is a peer at a channel, or at the other form of its address
    /// where the channel serves none, or none where neither serves any.
    pub open spec fn is_peer_at(self, channel: SocketAddr, peer: Option<PeerId>) -> bool {
        match peer {
            Some(found) => if self.own.occupied(channel) {
                self.own.linked(found@, channel)
            } else {
                alternate(channel) matches Some(other) && self.own.linked(found@, other)
            },
            None => !self.own.occupied(channel) && (alternate(channel) matches Some(other)
                ==> !self.own.occupied(other)),
        }
    }

    /// Whether a peer is reached over the shared transport.
    pub open spec fn shared_connected(self, peer: Seq<u8>) -> bool {
        self.shared matches Some(shared) && shared.connected(peer)
    }

    /// Whether a peer is reached over either transport.
    pub open spec fn connected(self, peer: Seq<u8>) -> bool {
        self.own.connected(peer) || self.shared_connected(peer)
    }

    /// Whether a channel is up on the shared transport.
    pub open spec fn shared_active(self, channel: SocketAddr) -> bool {
        self.shared matches Some(shared) && shared.active.contains(channel)
    }

    /// Whether a peer is reached over a channel of either transport.
    pub open spec fn linked(self, peer: Seq<u8>, channel: SocketAddr) -> bool {
        self.own.linked(peer, channel) || (self.shared matches Some(shared) && shared.linked(
            peer,
            channel,
        ))
    }

    /// The transport that a channel belongs to: the shared one where the channel
    /// is up there.
    pub open spec fn backend_of(self, channel: SocketAddr) -> Backend {
        if self.shared_active(channel) {
            Backend::Shared
        } else {
            Backend::Own
        }
    }

    /// The channels and peers of one transport.
    pub open spec fn side(self, backend: Backend) -> RegistryView {
        match backend {
            Backend::Own => self.own,
            Backend::Shared => match self.shared {
                Some(shared) => shared,
                None => RegistryView::empty(),
            },
        }
    }

    /// The same, with other channels and peers on one transport.
    pub open spec fn with_side(self, backend: Backend, registry: RegistryView) -> HandleView {
        match backend {
            Backend::Own => HandleView { own: registry, ..self },
            Backend::Shared => HandleView { shared: Some(registry), ..self },
        }
    }

    /// A channel is gone from the transport that it belongs to.
    pub open spec fn without_channel(self, channel: SocketAddr) -> HandleView {
        let backend = self.backend_of(channel);
        HandleView {
            counts: departed(self.counts, dependents(self.side(backend), channel)),
            ..self.with_side(backend, self.side(backend).without_channel(channel))
        }
    }

    /// The transport over which a message on a channel goes out: the shared one
    /// where the channel is up there and serves the destination, if one is named.
    pub open spec fn send_backend(
        self,
        channel: SocketAddr,
        destination: Option<Seq<u8>>,
    ) -> Backend {
        if self.shared_active(channel) && (destination matches Some(peer) ==> self.side(
            Backend::Shared,
        ).linked(peer, channel)) {
            Backend::Shared
        } else {
            Backend::Own
        }
    }
}

/// The peers of a node over both of its transports.
pub struct TransportHandle {
    /// The transport of this identity alone.
    pub own: ChannelRegistry,
    /// The shared transport.
    pub shared: Option<ChannelRegistry>,
    /// On how many transports each peer is reached.
    pub connectivity: Connectivity,
}

impl View for TransportHandle {
    type V = HandleView;

    open spec fn view(&self) -> HandleView {
        HandleView {
            own: self.own@,
            shared: match self.shared {
                Some(shared) => Some(shared@),
                None => None,
            },
            counts: self.connectivity@,
        }
    }
}

/// The identity of the channel to a remote end.
pub fn canonical_channel_id(remote: SocketAddr) -> (channel: SocketAddr)
    ensures
        channel == remote.channel(),
{
    remote.to_channel()
}

/// The other form of a socket address that an IPv4 peer may be known by: inside
/// IPv6, or plain. An IPv6 address has none.
pub open spec fn alternate(address: SocketAddr) -> Option<SocketAddr> {
    match address.ip {
        IpAddr::V4(v) => Some(
            SocketAddr {
                ip: IpAddr::V6((0xffff_0000_0000u128 + v) as u128),
                port: address.port,
                flowinfo: 0,
                scope_id: 0,
            },
        ),
        IpAddr::V6(_) => match address.ip.canonical() {
            IpAddr::V4(v) => Some(
                SocketAddr { ip: IpAddr::V4(v), port: address.port, flowinfo: 0, scope_id: 0 },
            ),
            IpAddr::V6(_) => None,
        },
    }
}

/// The other form of a socket address that an IPv4 peer may be known by.
pub fn dual_stack_alternate(address: &SocketAddr) -> (other: Option<SocketAddr>)
    ensures
        other == alternate(*address),
{
    match address.ip {
        IpAddr::V4(v) => Some(
            SocketAddr::new(IpAddr::V6(0xffff_0000_0000u128 + v as u128), address.port),
        ),
        IpAddr::V6(_) => match crate::address::canonicalize_ip(address.ip) {
            IpAddr::V4(v) => Some(SocketAddr::new(IpAddr::V4(v), address.port)),
            IpAddr::V6(_) => None,
        },
    }
}

/// What is left to do once a peer was let go.
pub struct PeerRelease {
    /// Channels of the shared transport to close.
    pub shared_channels: Vec<SocketAddr>,
    /// Whether the followers of the shared transport hear that the peer is gone.
    pub shared_event: bool,
    /// Channels of the own transport to close.
    pub own_channels: Vec<SocketAddr>,
    /// Whether the followers of the own transport hear that the peer is gone.
    pub own_event: bool,
}

impl TransportHandle {
    /// A node without peers, with a shared transport or without.
    pub fn new(has_shared: bool) -> (handle: Self)
        ensures
            handle@ == (HandleView {
                own: RegistryView::empty(),
                shared: if has_shared {
                    Some(RegistryView::empty())
                } else {
                    None
                },
                counts: Map::empty(),
            }),
    {
        TransportHandle {
            own: ChannelRegistry::new(),
            shared: if has_shared {
                Some(ChannelRegistry::new())
            } else {
                None
            },
            connectivity: Connectivity::new(),
        }
    }

    /// Check if an authenticated peer is connected.
    pub fn is_peer_connected(&self, peer_id: &PeerId) -> (connected: bool)
        ensures
            connected == self@.connected(peer_id@),
    {
        self.own.is_connected(peer_id) || match &self.shared {
            Some(shared) => shared.is_connected(peer_id),
            None => false,
        }
    }

    /// Return true if `peer_id` is a known authenticated peer.
    pub fn is_known_app_peer_id(&self, peer_id: &PeerId) -> (known: bool)
        ensures
            known == self@.connected(peer_id@),
    {
        self.is_peer_connected(peer_id)
    }

    /// Check if a channel is up on either transport.
    pub fn is_connection_active(&self, channel_id: &SocketAddr) -> (active: bool)
        ensures
            active == self@.active(*channel_id),
    {
        self.own.is_active(channel_id) || match &self.shared {
            Some(shared) => shared.is_active(channel_id),
            None => false,
        }
    }

    /// Get the authenticated peers of both transports, each once.
    pub fn connected_peers(&self) -> (peers: Vec<PeerId>)
        ensures
            peers@.no_duplicates(),
            forall|bytes: Seq<u8>| #[trigger]
                among(peers@, bytes) <==> self@.connected(bytes),
    {
        let own = self.own.connected_peers();
        match &self.shared {
            Some(shared) => union_of_peers(own, &shared.connected_peers()),
            None => own,
        }
    }

    /// Get the number of authenticated peers.
    pub fn peer_count(&self) -> (count: usize)
        ensures
            Set::new(|bytes: Seq<u8>| self@.connected(bytes)).finite(),
            count == Set::new(|bytes: Seq<u8>| self@.connected(bytes)).len(),
    {
        let peers = self.connected_peers();
        proof {
            let bytes = peers@.map(|_i: int, peer: PeerId| peer@);
            assert(bytes.no_duplicates()) by {
                assert forall|i: int, j: int|
                    0 <= i < j < bytes.len() implies bytes[i] != bytes[j] by {
                    lemma_peer_is_its_bytes(peers@[i], peers@[j]);
                }
            }
            bytes.unique_seq_to_set();
            assert(bytes.to_set() =~= Set::new(|b: Seq<u8>| self@.connected(b))) by {
                assert forall|b: Seq<u8>| #[trigger] bytes.to_set().contains(b)
                    == self@.connected(b) by {
                    assert(among(peers@, b) <==> self@.connected(b));
                    if bytes.contains(b) {
                        let i = bytes.index_of(b);
                        assert(peers@[i]@ == b);
                    }
                    if among(peers@, b) {
                        let i = choose|i: int|
                            0 <= i < peers@.len() && (#[trigger] peers@[i])@ == b;
                        assert(bytes[i] == b);
                    }
                }
            }
        }
        peers.len()
    }

    /// Get the software that a peer names, as the shared transport knows it
    /// where it does.
    pub fn peer_user_agent(&self, peer_id: &PeerId) -> (agent: Option<String>)
        ensures
            match agent {
                Some(text) => self@.agent_of(peer_id@) == Some(text@),
                None => self@.agent_of(peer_id@) is None,
            },
    {
        if let Some(shared) = &self.shared {
            if let Some(agent) = shared.user_agent(peer_id) {
                return Some(agent);
            }
        }
        self.own.user_agent(peer_id)
    }

    /// Get what is known of a channel to a peer: what the shared transport knows,
    /// and where that is nothing, what the own transport knows.
    pub fn peer_info(&self, peer_id: &PeerId) -> (info: Option<PeerInfo>)
        ensures
            match info {
                Some(known) => {
                    ||| self@.side(Backend::Shared).tells(peer_id@, known@)
                    ||| {
                        &&& self@.side(Backend::Shared).is_silent(peer_id@)
                        &&& self@.own.tells(peer_id@, known@)
                    }
                },
                None => self@.side(Backend::Shared).is_silent(peer_id@) && self@.own.is_silent(
                    peer_id@,
                ),
            },
    {
        if let Some(shared) = &self.shared {
            if let Some(info) = shared.peer_info(peer_id) {
                return Some(info);
            }
        } else {
            assert(!RegistryView::empty().connected(peer_id@)) by {
                assert forall|channel: SocketAddr| !RegistryView::empty().linked(
                    peer_id@,
                    channel,
                ) by {}
            }
        }
        self.own.peer_info(peer_id)
    }

    /// Get the channel of the own transport that has an address at a socket.
    pub fn get_channel_id_by_address(&self, addr: &MultiAddr) -> (channel: Option<SocketAddr>)
        ensures
            match channel {
                Some(found) => self@.own.info.dom().contains(found)
                    && crate::transport::registry::has_socket(
                    self@.own.info[found].addresses,
                    addr.socket_addr,
                ),
                None => forall|other: SocketAddr| #[trigger]
                    self@.own.info.dom().contains(other)
                        ==> !crate::transport::registry::has_socket(
                        self@.own.info[other].addresses,
                        addr.socket_addr,
                    ),
            },
    {
        self.own.channel_at(&addr.socket_addr)
    }

    /// Look up a peer by the address of a connection of the own transport.
    /// Where no channel of that name serves a peer, the other form of the
    /// address is tried. Which one of several peers is handed out is open.
    pub fn peer_id_for_addr(&self, addr: &SocketAddr) -> (peer: Option<PeerId>)
        ensures
            self@.is_peer_at(addr.channel(), peer),
    {
        let channel = addr.to_channel();
        let peers = self.own.peers_on(&channel);
        if peers.len() > 0 {
            proof {
                assert(peers@.contains(peers@[0]));
                assert(self@.own.linked(peers@[0]@, channel));
            }
            return Some(peers[0]);
        }
        match dual_stack_alternate(&channel) {
            Some(other) => {
                let peers = self.own.peers_on(&other);
                if peers.len() > 0 {
                    proof {
                        assert(peers@.contains(peers@[0]));
                        assert(self@.own.linked(peers@[0]@, other));
                    }
                    Some(peers[0])
                } else {
                    None
                }
            },
            None => None,
        }
    }

    /// Return all channels to a peer: those of the shared transport first, then
    /// those of the own transport that are not among them.
    pub fn channels_for_peer(&self, app_peer_id: &PeerId) -> (channels: Vec<SocketAddr>)
        ensures
            channels@.no_duplicates(),
            forall|channel: SocketAddr| #[trigger]
                channels@.contains(channel) <==> self@.linked(app_peer_id@, channel),
            forall|i: int, j: int|
                0 <= i < channels@.len() && 0 <= j < channels@.len() && self@.side(
                    Backend::Shared,
                ).linked(app_peer_id@, #[trigger] channels@[i]) && !self@.side(
                    Backend::Shared,
                ).linked(app_peer_id@, #[trigger] channels@[j]) ==> i < j,
    {
        let own = self.own.channels_of(app_peer_id);
        let mut channels: Vec<SocketAddr> = match &self.shared {
            Some(shared) => shared.channels_of(app_peer_id),
            None => Vec::new(),
        };
        let ghost first = channels@;
        let ghost peer = app_peer_id@;
        proof {
            assert forall|channel: SocketAddr| #[trigger] first.contains(channel) <==> self@.side(
                Backend::Shared,
            ).linked(peer, channel) by {}
        }
        let mut index: usize = 0;
        while index < own.len()
            invariant
                index <= own@.len(),
                channels@.no_duplicates(),
                first.len() <= channels@.len(),
                channels@.take(first.len() as int) == first,
                forall|i: int|
                    first.len() <= i < channels@.len() ==> !first.contains(#[trigger] channels@[i]),
                forall|channel: SocketAddr| #[trigger]
                    channels@.contains(channel) <==> (first.contains(channel) || own@.take(
                        index as int,
                    ).contains(channel)),
            decreases own@.len() - index,
        {
            let channel = own[index];
            let ghost held = channels@;
            let ghost done = own@.take(index as int);
            if !holds_channel(&channels, &channel) {
                channels.push(channel);
                assert(channels@.take(first.len() as int) =~= held.take(first.len() as int));
            }
            proof {
                let next = own@.take(index as int + 1);
                assert(next =~= done.push(channel));
                assert forall|c: SocketAddr| #[trigger]
                    channels@.contains(c) <==> (first.contains(c) || next.contains(c)) by {
                    lemma_push_contains(done, channel, c);
                    lemma_push_contains(held, channel, c);
                    assert(held.contains(c) <==> (first.contains(c) || done.contains(c)));
                    if held.contains(channel) {
                        assert(first.contains(channel) || done.contains(channel));
                    }
                }
            }
            index += 1;
        }
        proof {
            assert(own@.take(own@.len() as int) =~= own@);
            assert forall|channel: SocketAddr| #[trigger]
                channels@.contains(channel) <==> self@.linked(peer, channel) by {
                assert(first.contains(channel) <==> self@.side(Backend::Shared).linked(
                    peer,
                    channel,
                ));
                assert(own@.contains(channel) <==> self@.own.linked(peer, channel));
            }
            assert forall|i: int, j: int|
                0 <= i < channels@.len() && 0 <= j < channels@.len() && self@.side(
                    Backend::Shared,
                ).linked(peer, #[trigger] channels@[i]) && !self@.side(Backend::Shared).linked(
                    peer,
                    #[trigger] channels@[j],
                ) implies i < j by {
                assert(first.contains(channels@[i]));
                if j < first.len() {
                    assert(first[j] == channels@.take(first.len() as int)[j]);
                    assert(first.contains(channels@[j]));
                }
            }
        }
        channels
    }

    /// Get the authenticated peers on a channel of either transport, each once.
    pub fn peers_on_channel(&self, channel_id: &SocketAddr) -> (peers: Vec<PeerId>)
        ensures
            peers@.no_duplicates(),
            forall|bytes: Seq<u8>| #[trigger]
                among(peers@, bytes) <==> self@.linked(bytes, *channel_id),
    {
        let own = self.own.peers_on(channel_id);
        proof {
            lemma_listed(own@, self.own@, *channel_id);
        }
        match &self.shared {
            Some(shared) => {
                let others = shared.peers_on(channel_id);
                proof {
                    lemma_listed(others@, shared@, *channel_id);
                }
                union_of_peers(own, &others)
            },
            None => own,
        }
    }

    /// Over which transport a message on a channel goes out.
    pub fn send_route(&self, channel_id: &SocketAddr, destination: Option<PeerId>) -> (backend:
        Backend)
        ensures
            backend == self@.send_backend(
                *channel_id,
                match destination {
                    Some(peer) => Some(peer@),
                    None => None,
                },
            ),
    {
        match &self.shared {
            Some(shared) => {
                let serves = match &destination {
                    Some(peer) => shared.is_linked(peer, channel_id),
                    None => true,
                };
                if shared.is_active(channel_id) && serves {
                    Backend::Shared
                } else {
                    Backend::Own
                }
            },
            None => Backend::Own,
        }
    }

    /// Forget a channel. Says on which transport it stood, whether it was known
    /// there, and which peers are reached no more.
    pub fn remove_channel(&mut self, channel_id: &SocketAddr) -> (removed: (
        Backend,
        bool,
        Vec<PeerId>,
    ))
        ensures
            final(self)@ == old(self)@.without_channel(*channel_id),
            removed.0 == old(self)@.backend_of(*channel_id),
            removed.1 == old(self)@.side(removed.0).info.dom().contains(*channel_id),
            lost_with(
                old(self)@.side(removed.0),
                old(self)@.counts,
                *channel_id,
                removed.2@,
            ),
    {
        let on_shared = match &self.shared {
            Some(shared) => shared.is_active(channel_id),
            None => false,
        };
        if on_shared {
            if let Some(shared) = &mut self.shared {
                let (known, lost) = shared.remove_channel(&mut self.connectivity, channel_id);
                return (Backend::Shared, known, lost);
            }
        }
        let (known, lost) = self.own.remove_channel(&mut self.connectivity, channel_id);
        (Backend::Own, known, lost)
    }

    /// Disconnect from a peer on both transports, the shared one first.
    pub fn disconnect_peer(&mut self, peer_id: &PeerId) -> (release: PeerRelease)
        ensures
            final(self)@ == old(self)@.without_peer(peer_id@),
            release.shared_channels@.no_duplicates(),
            release.own_channels@.no_duplicates(),
            forall|channel: SocketAddr| #[trigger]
                release.shared_channels@.contains(channel) <==> (old(self)@.shared matches Some(
                    shared,
                ) && shared.serves_only(channel, peer_id@)),
            forall|channel: SocketAddr| #[trigger]
                release.own_channels@.contains(channel) <==> old(self)@.own.serves_only(
                    channel,
                    peer_id@,
                ),
            (release.shared_event, release.own_event) == release_news(old(self)@, peer_id@),
    {
        let (shared_channels, shared_event): (Vec<SocketAddr>, bool) = match &mut self.shared {
            Some(shared) => shared.disconnect_peer(&mut self.connectivity, peer_id),
            None => (Vec::new(), false),
        };
        let (own_channels, own_event) = self.own.disconnect_peer(&mut self.connectivity, peer_id);
        PeerRelease { shared_channels, shared_event, own_channels, own_event }
    }
}

/// The counts once a peer is let go on the shared transport, and once it is let
/// go on both.
pub open spec fn released_counts(handle: HandleView, peer: Seq<u8>) -> (
    Map<Seq<u8>, usize>,
    Map<Seq<u8>, usize>,
) {
    let first = if handle.shared_connected(peer) {
        departed(handle.counts, set![peer])
    } else {
        handle.counts
    };
    let second = if handle.own.connected(peer) {
        departed(first, set![peer])
    } else {
        first
    };
    (first, second)
}

impl HandleView {
    /// A peer is let go on both transports.
    pub open spec fn without_peer(self, peer: Seq<u8>) -> HandleView {
        HandleView {
            own: self.own.without_peer(peer),
            shared: match self.shared {
                Some(shared) => Some(shared.without_peer(peer)),
                None => None,
            },
            counts: released_counts(self, peer).1,
        }
    }
}

/// Whether letting go of a peer is news on the shared transport, and on the own
/// one.
pub open spec fn release_news(handle: HandleView, peer: Seq<u8>) -> (bool, bool) {
    (
        handle.shared_connected(peer) && !crate::transport::registry::doubly_reached(
            handle.counts,
            peer,
        ),
        handle.own.connected(peer) && !crate::transport::registry::doubly_reached(
            released_counts(handle, peer).0,
            peer,
        ),
    )
}

proof fn lemma_listed(peers: Seq<PeerId>, registry: RegistryView, channel: SocketAddr)
    requires
        forall|peer: PeerId|
            peers.contains(peer) <==> #[trigger] registry.linked(peer@, channel),
        forall|bytes: Seq<u8>| #[trigger]
            registry.linked(bytes, channel) ==> exists|peer: PeerId|
                peers.contains(peer) && #[trigger] peer@ == bytes,
    ensures
        forall|bytes: Seq<u8>| #[trigger]
            among(peers, bytes) <==> registry.linked(bytes, channel),
{
    assert forall|bytes: Seq<u8>| #[trigger]
        among(peers, bytes) <==> registry.linked(bytes, channel) by {
        if among(peers, bytes) {
            let i = choose|i: int| 0 <= i < peers.len() && (#[trigger] peers[i])@ == bytes;
            assert(peers.contains(peers[i]));
            assert(registry.linked(peers[i]@, channel));
        }
        if registry.linked(bytes, channel) {
            let peer = choose|peer: PeerId| peers.contains(peer) && #[trigger] peer@ == bytes;
            assert(peers[peers.index_of(peer)]@ == bytes);
        }
    }
}

fn holds_channel(channels: &Vec<SocketAddr>, channel: &SocketAddr) -> (found: bool)
    ensures
        found == channels@.contains(*channel),
{
    let mut index: usize = 0;
    while index < channels.len()
        invariant
            index <= channels@.len(),
            forall|i: int| 0 <= i < index ==> channels@[i] != *channel,
        decreases channels@.len() - index,
    {
        if channels[index] == *channel {
            return true;
        }
        index += 1;
    }
    false
}

/// The peers of two lists, each once.
fn union_of_peers(first: Vec<PeerId>, second: &Vec<PeerId>) -> (union: Vec<PeerId>)
    requires
        first@.no_duplicates(),
    ensures
        union@.no_duplicates(),
        forall|bytes: Seq<u8>| #[trigger]
            among(union@, bytes) <==> (among(first@, bytes) || among(second@, bytes)),
{
    let ghost start = first@;
    let mut union = first;
    let mut index: usize = 0;
    while index < second.len()
        invariant
            index <= second@.len(),
            union@.no_duplicates(),
            forall|bytes: Seq<u8>| #[trigger]
                among(union@, bytes) <==> (among(start, bytes) || among(
                    second@.take(index as int),
                    bytes,
                )),
        decreases second@.len() - index,
    {
        let peer = second[index];
        let ghost held = union@;
        proof {
            crate::transport::registry::lemma_among_next(second@, index as int);
        }
        if !holds_peer(&union, &peer) {
            union.push(peer);
            proof {
                crate::transport::registry::lemma_among_push(held, peer);
                assert(union@.no_duplicates());
            }
        }
        proof {
            assert forall|bytes: Seq<u8>| #[trigger]
                among(union@, bytes) <==> (among(start, bytes) || among(
                    second@.take(index as int + 1),
                    bytes,
                )) by {
                assert(among(held, bytes) <==> (among(start, bytes) || among(
                    second@.take(index as int),
                    bytes,
                )));
            }
        }
        index += 1;
    }
    assert(second@.take(second@.len() as int) =~= second@);
    union
}

/// A message goes over the shared transport exactly where its channel is up there
/// and, if it names a receiver, serves that receiver there.
pub proof fn law_sends_go_where_the_receiver_is(
    handle: HandleView,
    channel: SocketAddr,
    receiver: Seq<u8>,
)
    ensures
        handle.shared is None ==> handle.send_backend(channel, Some(receiver)) is Own
            && handle.send_backend(channel, None) is Own && handle.backend_of(channel) is Own,
        handle.shared matches Some(shared) ==> {
            &&& handle.send_backend(channel, None) is Shared <==> shared.active.contains(channel)
            &&& handle.send_backend(channel, Some(receiver)) is Shared
                <==> shared.active.contains(channel) && shared.links.contains((receiver, channel))
            &&& handle.backend_of(channel) is Shared <==> shared.active.contains(channel)
        },
{
}

/// A channel that is gone leaves the transport on which it is up, the own one
/// where it is up on none; the other transport stays as it is.
pub proof fn law_channels_leave_one_transport(handle: HandleView, channel: SocketAddr)
    ensures
        ({
            let after = handle.without_channel(channel);
            &&& handle.shared is None ==> after.own == handle.own.without_channel(channel)
                && after.shared is None
            &&& handle.shared matches Some(shared) ==> if shared.active.contains(channel) {
                &&& after.shared == Some(shared.without_channel(channel))
                &&& after.own == handle.own
            } else {
                &&& after.own == handle.own.without_channel(channel)
                &&& after.shared == handle.shared
            }
        }),
{
}

/// A peer is reached where either transport reaches it.
pub proof fn law_either_transport_reaches(
    handle: HandleView,
    peer: Seq<u8>,
    channel: SocketAddr,
)
    ensures
        handle.own.linked(peer, channel) ==> handle.linked(peer, channel) && handle.connected(peer),
        handle.shared matches Some(shared) ==> (shared.linked(peer, channel) ==> handle.linked(
            peer,
            channel,
        ) && handle.connected(peer)),
        handle.linked(peer, channel) && handle.shared is None ==> handle.own.linked(peer, channel),
        handle.connected(peer) ==> exists|c: SocketAddr| handle.linked(peer, c),
{
    if handle.own.linked(peer, channel) {
        assert(handle.own.connected(peer));
    }
    if let Some(shared) = handle.shared {
        if shared.linked(peer, channel) {
            assert(shared.connected(peer));
        }
        if shared.connected(peer) {
            let c = choose|c: SocketAddr| shared.linked(peer, c);
            assert(handle.linked(peer, c));
        }
    }
    if handle.own.connected(peer) {
        let c = choose|c: SocketAddr| handle.own.linked(peer, c);
        assert(handle.linked(peer, c));
    }
}

/// A peer that is let go is reached on neither transport, whichever reached it
/// before. That is told exactly once where it was reached, and never where it was
/// not; the peer has no count any more.
pub proof fn law_releases_are_news_once(handle: HandleView, peer: Seq<u8>)
    requires
        handle.shared matches Some(shared) && crate::transport::laws::counted(
            handle.own,
            shared,
            handle.counts,
        ),
    ensures
        !handle.without_peer(peer).connected(peer),
        !handle.without_peer(peer).counts.dom().contains(peer),
        ({
            let (on_shared, on_own) = release_news(handle, peer);
            &&& handle.connected(peer) <==> on_shared || on_own
            &&& !(on_shared && on_own)
        }),
{
    let shared = handle.shared->0;
    let _trigger = handle.counts.dom().contains(peer);
    let after = handle.without_peer(peer);
    assert forall|c: SocketAddr| !after.own.linked(peer, c) by {
        if handle.own.linked(peer, c) {
            assert(handle.own.connected(peer));
        }
    }
    assert forall|c: SocketAddr| !after.shared->0.linked(peer, c) by {
        if shared.linked(peer, c) {
            assert(shared.connected(peer));
        }
    }
}

/// An IPv4 address and the form of it inside IPv6 are each other's alternate, at
/// the same port; another IPv6 address has none.
pub proof fn law_alternates_are_the_other_form(bits: u32, wide: u128, port: u16)
    ensures
        ({
            let plain = SocketAddr { ip: IpAddr::V4(bits), port, flowinfo: 0, scope_id: 0 };
            let mapped = SocketAddr {
                ip: IpAddr::V6((0xffff_0000_0000 + bits) as u128),
                port,
                flowinfo: 0,
                scope_id: 0,
            };
            alternate(plain) == Some(mapped) && alternate(mapped) == Some(plain)
        }),
        wide < 0xffff_0000_0000 || wide > 0xffff_ffff_ffff ==> alternate(
            SocketAddr { ip: IpAddr::V6(wide), port, flowinfo: 0, scope_id: 0 },
        ) is None,
{
}

/// A channel is up where either transport has it up. The software of a peer is
/// that which it named on the shared transport, and else on the own one.
pub proof fn law_the_shared_transport_speaks_first(
    handle: HandleView,
    shared: RegistryView,
    peer: Seq<u8>,
    channel: SocketAddr,
)
    ensures
        handle.shared is None ==> (handle.active(channel) <==> handle.own.active.contains(channel)),
        handle.shared == Some(shared) ==> (handle.active(channel) <==> handle.own.active.contains(
            channel,
        ) || shared.active.contains(channel)),
        handle.shared == Some(shared) && shared.agents.dom().contains(peer) ==> handle.agent_of(
            peer,
        ) == Some(shared.agents[peer]),
        (handle.shared is None || (handle.shared == Some(shared) && !shared.agents.dom().contains(
            peer,
        ))) && handle.own.agents.dom().contains(peer) ==> handle.agent_of(peer) == Some(
            handle.own.agents[peer],
        ),
        (handle.shared is None || (handle.shared == Some(shared) && !shared.agents.dom().contains(
            peer,
        ))) && !handle.own.agents.dom().contains(peer) ==> handle.agent_of(peer) is None,
{
}

/// The peer at an address is one that its channel serves. A channel that serves
/// nobody is looked for under the other form of its address, and there is no peer
/// only where neither form serves any.
pub proof fn law_peers_are_found_under_either_form(
    handle: HandleView,
    bits: u32,
    port: u16,
    answer: Option<PeerId>,
    peer: PeerId,
)
    requires
        handle.is_peer_at(SocketAddr { ip: IpAddr::V4(bits), port, flowinfo: 0, scope_id: 0 }, answer),
    ensures
        ({
            let plain = SocketAddr { ip: IpAddr::V4(bits), port, flowinfo: 0, scope_id: 0 };
            let mapped = SocketAddr {
                ip: IpAddr::V6((0xffff_0000_0000 + bits) as u128),
                port,
                flowinfo: 0,
                scope_id: 0,
            };
            &&& handle.own.linked(peer@, plain) ==> (answer matches Some(found)
                && handle.own.linked(found@, plain))
            &&& handle.own.linked(peer@, mapped) ==> (answer matches Some(found) && (
            handle.own.linked(found@, plain) || handle.own.linked(found@, mapped)))
            &&& answer matches Some(found) ==> handle.own.linked(found@, plain)
                || handle.own.linked(found@, mapped)
        }),
{
    let plain = SocketAddr { ip: IpAddr::V4(bits), port, flowinfo: 0, scope_id: 0 };
    law_alternates_are_the_other_form(bits, 0, port);
    let mapped = alternate(plain)->0;
    if handle.own.linked(peer@, plain) {
        assert(handle.own.occupied(plain));
    }
    if handle.own.linked(peer@, mapped) {
        assert(handle.own.occupied(mapped));
    }
}

} // verus!
