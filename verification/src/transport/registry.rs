//! Channels, and the authenticated peers that are reached over them.
//!
//! A channel is a transport connection and is known by its canonical remote
//! socket address. A peer is an identity that has proven itself on a channel. One peer
//! may be reached over several channels, and one channel may serve several
//! peers.

use crate::address::{MultiAddr, SocketAddr};
use crate::concurrent::{EndpointSet, PeerCounts, PeerTexts};
use crate::peer_id::{lemma_peer_is_its_bytes, PeerId};
use crate::peer_record::copy_addresses;
use crate::transport::maps::{link_views, ChannelInfos, LinkSet};
use vstd::prelude::*;

verus! {

/// The protocol that a channel speaks once it was dialed.
pub const CHANNEL_PROTOCOL: &'static str = "p2p-foundation/1.0";

/// State of a transport connection.
#[derive(Debug, Clone, Copy, PartialEq, Eq, Structural)]
pub enum ConnectionStatus {
    /// The connection is being made.
    Connecting,
    /// The connection is up.
    Connected,
    /// The connection is being closed.
    Disconnecting,
    /// The connection is down.
    Disconnected,
}

/// What is known of a channel. Times are ticks of the caller's clock.
pub struct PeerInfo {
    /// The channel.
    pub channel_id: SocketAddr,
    /// Addresses of the remote end.
    pub addresses: Vec<MultiAddr>,
    /// State of the connection.
    pub status: ConnectionStatus,
    /// When the remote end was last heard of.
    pub last_seen: u64,
    /// When the connection came up.
    pub connected_at: u64,
    /// Protocols spoken over the channel.
    pub protocols: Vec<String>,
    /// Number of heartbeats seen.
    pub heartbeat_count: u64,
}

/// What is known of a channel.
#[verifier::ext_equal]
pub struct InfoView {
    /// The channel.
    pub channel_id: SocketAddr,
    /// Addresses of the remote end.
    pub addresses: Seq<MultiAddr>,
    /// State of the connection.
    pub status: ConnectionStatus,
    /// When the remote end was last heard of.
    pub last_seen: u64,
    /// When the connection came up.
    pub connected_at: u64,
    /// Protocols spoken over the channel.
    pub protocols: Seq<Seq<char>>,
    /// Number of heartbeats seen.
    pub heartbeat_count: u64,
}

impl View for PeerInfo {
    type V = InfoView;

    open spec fn view(&self) -> InfoView {
        InfoView {
            channel_id: self.channel_id,
            addresses: self.addresses@,
            status: self.status,
            last_seen: self.last_seen,
            connected_at: self.connected_at,
            protocols: self.protocols@.map(|_i: int, p: String| p@),
            heartbeat_count: self.heartbeat_count,
        }
    }
}

/// A channel that has just come up.
pub open spec fn fresh_channel(
    channel: SocketAddr,
    addresses: Seq<MultiAddr>,
    protocols: Seq<Seq<char>>,
    now: u64,
) -> InfoView {
    InfoView {
        channel_id: channel,
        addresses,
        status: ConnectionStatus::Connected,
        last_seen: now,
        connected_at: now,
        protocols,
        heartbeat_count: 0,
    }
}

impl PeerInfo {
    fn fresh(
        channel_id: SocketAddr,
        addresses: Vec<MultiAddr>,
        protocols: Vec<String>,
        now: u64,
    ) -> (info: Self)
        ensures
            info@ == fresh_channel(
                channel_id,
                addresses@,
                protocols@.map(|_i: int, p: String| p@),
                now,
            ),
    {
        PeerInfo {
            channel_id,
            addresses,
            status: ConnectionStatus::Connected,
            last_seen: now,
            connected_at: now,
            protocols,
            heartbeat_count: 0,
        }
    }

    /// What is known of the channel, once more.
    pub fn duplicate(&self) -> (copy: Self)
        ensures
            copy@ == self@,
    {
        let mut protocols: Vec<String> = Vec::new();
        let mut index: usize = 0;
        while index < self.protocols.len()
            invariant
                index <= self.protocols@.len(),
                protocols@.len() == index,
                forall|i: int| 0 <= i < index ==> (#[trigger] protocols@[i])@ == self.protocols@[i]@,
            decreases self.protocols@.len() - index,
        {
            protocols.push(self.protocols[index].clone());
            index += 1;
        }
        let copy = PeerInfo {
            channel_id: self.channel_id,
            addresses: copy_addresses(&self.addresses),
            status: self.status,
            last_seen: self.last_seen,
            connected_at: self.connected_at,
            protocols,
            heartbeat_count: self.heartbeat_count,
        };
        assert(copy@ =~= self@);
        copy
    }
}

/// That a peer is reached over a channel.
#[derive(Debug, Clone, Copy, PartialEq, Eq, Hash)]
pub struct Link {
    /// The authenticated peer.
    pub peer: PeerId,
    /// The channel.
    pub channel: SocketAddr,
}

impl View for Link {
    type V = (Seq<u8>, SocketAddr);

    open spec fn view(&self) -> (Seq<u8>, SocketAddr) {
        (self.peer@, self.channel)
    }
}

/// News of a peer for whoever follows the transport.
#[derive(Debug, Clone, PartialEq, Eq)]
pub enum PeerEvent {
    /// The peer is reached again, with the software that it names.
    Connected(PeerId, String),
    /// The peer is reached no more.
    Disconnected(PeerId),
}

/// Channels and the peers that are reached over them.
#[verifier::ext_equal]
pub struct RegistryView {
    /// Channels that are up.
    pub active: Set<SocketAddr>,
    /// What is known of each channel.
    pub info: Map<SocketAddr, InfoView>,
    /// Which peers are reached over which channels.
    pub links: Set<(Seq<u8>, SocketAddr)>,
    /// The software that each peer names.
    pub agents: Map<Seq<u8>, Seq<char>>,
}

/// The address of a channel's remote end.
pub open spec fn remote_end(remote: SocketAddr) -> MultiAddr {
    MultiAddr {
        socket_addr: remote.canonical(),
        transport: crate::address::AddressTransport::Quic,
        owner: None,
    }
}

/// A channel that is seen to be up, where it was known before.
pub open spec fn refreshed(info: InfoView, remote: SocketAddr, now: u64, refresh: bool) -> InfoView {
    InfoView {
        status: ConnectionStatus::Connected,
        connected_at: if refresh {
            now
        } else {
            info.connected_at
        },
        addresses: if info.addresses.contains(remote_end(remote)) {
            info.addresses
        } else {
            info.addresses.push(remote_end(remote))
        },
        ..info
    }
}

impl RegistryView {
    /// No channel and no peer.
    pub open spec fn empty() -> RegistryView {
        RegistryView {
            active: Set::empty(),
            info: Map::empty(),
            links: Set::empty(),
            agents: Map::empty(),
        }
    }

    /// Whether a peer is reached over a channel.
    pub open spec fn linked(self, peer: Seq<u8>, channel: SocketAddr) -> bool {
        self.links.contains((peer, channel))
    }

    /// Whether a peer is reached over any channel.
    pub open spec fn connected(self, peer: Seq<u8>) -> bool {
        exists|channel: SocketAddr| self.linked(peer, channel)
    }

    /// Whether a channel serves any peer.
    pub open spec fn occupied(self, channel: SocketAddr) -> bool {
        exists|peer: Seq<u8>| self.linked(peer, channel)
    }

    /// Whether a peer is reached over this channel and no other.
    pub open spec fn depends_on(self, peer: Seq<u8>, channel: SocketAddr) -> bool {
        self.linked(peer, channel) && forall|other: SocketAddr| #[trigger]
            self.linked(peer, other) ==> other == channel
    }

    /// Whether a channel serves this peer and no other.
    pub open spec fn serves_only(self, channel: SocketAddr, peer: Seq<u8>) -> bool {
        self.linked(peer, channel) && forall|other: Seq<u8>| #[trigger]
            self.linked(other, channel) ==> other == peer
    }

    /// Whether this is known of a channel over which a peer is reached.
    pub open spec fn tells(self, peer: Seq<u8>, known: InfoView) -> bool {
        exists|channel: SocketAddr| #[trigger]
            self.linked(peer, channel) && self.info.dom().contains(channel) && known
                == self.info[channel]
    }

    /// Whether a peer is not reached, or over a channel of which nothing is known.
    pub open spec fn is_silent(self, peer: Seq<u8>) -> bool {
        !self.connected(peer) || exists|channel: SocketAddr| #[trigger]
            self.linked(peer, channel) && !self.info.dom().contains(channel)
    }

    /// A channel is up.
    pub open spec fn upserted(
        self,
        channel: SocketAddr,
        remote: SocketAddr,
        now: u64,
        refresh: bool,
    ) -> RegistryView {
        RegistryView {
            active: self.active.insert(channel),
            info: self.info.insert(
                channel,
                if self.info.dom().contains(channel) {
                    refreshed(self.info[channel], remote, now, refresh)
                } else {
                    fresh_channel(channel, seq![remote_end(remote)], Seq::empty(), now)
                },
            ),
            ..self
        }
    }

    /// A peer has proven its identity on a channel.
    pub open spec fn registered(
        self,
        peer: Seq<u8>,
        channel: SocketAddr,
        remote: SocketAddr,
        agent: Seq<char>,
        now: u64,
    ) -> RegistryView {
        RegistryView {
            links: self.links.insert((peer, channel)),
            agents: if self.connected(peer) {
                self.agents
            } else {
                self.agents.insert(peer, agent)
            },
            ..self.upserted(channel, remote, now, false)
        }
    }

    /// A channel was dialed at an address.
    pub open spec fn dialed(self, channel: SocketAddr, address: MultiAddr, now: u64) -> RegistryView {
        RegistryView {
            active: self.active.insert(channel),
            info: self.info.insert(
                channel,
                fresh_channel(channel, seq![address], seq![CHANNEL_PROTOCOL@], now),
            ),
            ..self
        }
    }

    /// Something is about to be sent on a channel.
    pub open spec fn readied(
        self,
        channel: SocketAddr,
        active_elsewhere: bool,
        now: u64,
    ) -> RegistryView {
        RegistryView {
            active: if active_elsewhere {
                self.active
            } else {
                self.active.insert(channel)
            },
            info: if self.info.dom().contains(channel) {
                self.info
            } else {
                self.info.insert(
                    channel,
                    fresh_channel(
                        channel,
                        seq![
                            MultiAddr {
                                socket_addr: channel,
                                transport: crate::address::AddressTransport::Quic,
                                owner: None,
                            },
                        ],
                        Seq::empty(),
                        now,
                    ),
                )
            },
            ..self
        }
    }

    /// A send on a channel failed: the channel is not up.
    pub open spec fn silenced(self, channel: SocketAddr) -> RegistryView {
        RegistryView { active: self.active.remove(channel), ..self }
    }

    /// A channel serves no peer any more.
    pub open spec fn unlinked(self, channel: SocketAddr) -> RegistryView {
        RegistryView {
            links: self.links.filter(|link: (Seq<u8>, SocketAddr)| link.1 != channel),
            agents: self.agents.restrict(
                Set::new(|peer: Seq<u8>| !self.depends_on(peer, channel)),
            ),
            ..self
        }
    }

    /// A channel is gone.
    pub open spec fn without_channel(self, channel: SocketAddr) -> RegistryView {
        RegistryView {
            active: self.active.remove(channel),
            info: self.info.remove(channel),
            ..self.unlinked(channel)
        }
    }

    /// A peer is let go, with the channels that serve it alone.
    pub open spec fn without_peer(self, peer: Seq<u8>) -> RegistryView {
        if self.connected(peer) {
            RegistryView {
                active: self.active.filter(
                    |channel: SocketAddr| !self.serves_only(channel, peer),
                ),
                info: self.info.restrict(
                    Set::new(|channel: SocketAddr| !self.serves_only(channel, peer)),
                ),
                links: self.links.filter(|link: (Seq<u8>, SocketAddr)| link.0 != peer),
                agents: self.agents.remove(peer),
            }
        } else {
            self
        }
    }
}

/// On how many transports each peer is reached.
pub struct Connectivity {
    counts: PeerCounts,
}

impl View for Connectivity {
    type V = Map<Seq<u8>, usize>;

    closed spec fn view(&self) -> Map<Seq<u8>, usize> {
        self.counts@
    }
}

/// Whether a peer is reached on more than one transport.
pub open spec fn doubly_reached(counts: Map<Seq<u8>, usize>, peer: Seq<u8>) -> bool {
    counts.dom().contains(peer) && counts[peer] > 1
}

/// Whether a peer that proves its identity was reached on no transport before.
pub open spec fn newly_reached(
    registry: RegistryView,
    counts: Map<Seq<u8>, usize>,
    peer: Seq<u8>,
) -> bool {
    !registry.connected(peer) && !counts.dom().contains(peer)
}

/// Whether a peer that is let go is reached on no transport any more.
pub open spec fn left_behind(
    registry: RegistryView,
    counts: Map<Seq<u8>, usize>,
    peer: Seq<u8>,
) -> bool {
    registry.connected(peer) && !doubly_reached(counts, peer)
}

/// The counts once a peer is reached on one transport more.
pub open spec fn arrived(counts: Map<Seq<u8>, usize>, peer: Seq<u8>) -> Map<Seq<u8>, usize> {
    counts.insert(
        peer,
        if counts.dom().contains(peer) {
            (counts[peer] + 1) as usize
        } else {
            1
        },
    )
}

/// The counts once some peers are each reached on one transport less.
pub open spec fn departed(counts: Map<Seq<u8>, usize>, leaving: Set<Seq<u8>>) -> Map<
    Seq<u8>,
    usize,
> {
    Map::new(
        |peer: Seq<u8>|
            counts.dom().contains(peer) && (leaving.contains(peer) ==> doubly_reached(
                counts,
                peer,
            )),
        |peer: Seq<u8>|
            if leaving.contains(peer) {
                (counts[peer] - 1) as usize
            } else {
                counts[peer]
            },
    )
}

impl Connectivity {
    /// No peer is reached.
    pub fn new() -> (connectivity: Self)
        ensures
            connectivity@ == Map::<Seq<u8>, usize>::empty(),
    {
        Connectivity { counts: PeerCounts::new() }
    }

    /// On how many transports a peer is reached.
    pub fn count(&self, peer: &PeerId) -> (count: usize)
        ensures
            count == if self@.dom().contains(peer@) {
                self@[peer@]
            } else {
                0
            },
    {
        match self.counts.get(peer) {
            Some(count) => count,
            None => 0,
        }
    }

    /// A peer is reached on one transport more. Says whether it was not reached
    /// on any before.
    pub fn arrive(&mut self, peer: &PeerId) -> (first: bool)
        requires
            old(self)@.dom().contains(peer@) ==> old(self)@[peer@] < usize::MAX,
        ensures
            final(self)@ == arrived(old(self)@, peer@),
            first == !old(self)@.dom().contains(peer@),
    {
        let (count, first): (usize, bool) = match self.counts.get(peer) {
            Some(count) => (count + 1, false),
            None => (1, true),
        };
        self.counts.insert(peer, count);
        first
    }

    /// A peer is reached on one transport less. Says whether it is not reached
    /// on any other.
    pub fn depart(&mut self, peer: &PeerId) -> (last: bool)
        ensures
            final(self)@ == departed(old(self)@, set![peer@]),
            last == !doubly_reached(old(self)@, peer@),
    {
        let ghost before = self@;
        let count: usize = self.count(peer);
        if count > 1 {
            self.counts.insert(peer, count - 1);
            assert(self@ =~= departed(before, set![peer@]));
            false
        } else {
            self.counts.remove(peer);
            assert(self@ =~= departed(before, set![peer@]));
            true
        }
    }
}

/// Channels, and the authenticated peers that are reached over them.
pub struct ChannelRegistry {
    active: EndpointSet,
    info: ChannelInfos,
    links: LinkSet,
    agents: PeerTexts,
}

impl View for ChannelRegistry {
    type V = RegistryView;

    closed spec fn view(&self) -> RegistryView {
        RegistryView {
            active: self.active@,
            info: self.info@,
            links: self.links@,
            agents: self.agents@,
        }
    }
}

impl ChannelRegistry {
    /// No channel and no peer.
    pub fn new() -> (registry: Self)
        ensures
            registry@ == RegistryView::empty(),
    {
        let registry = ChannelRegistry {
            active: EndpointSet::new(),
            info: ChannelInfos::new(),
            links: LinkSet::new(),
            agents: PeerTexts::new(),
        };
        assert(registry@ =~= RegistryView::empty());
        registry
    }

    /// Note that a channel to a remote end is up.
    ///
    /// A channel that was known keeps what is known of it, gains the remote end
    /// as an address, and counts as connected from now where `refresh_connected_at`
    /// says so.
    pub fn upsert_connected_channel(
        &mut self,
        channel_id: SocketAddr,
        remote_address: SocketAddr,
        now: u64,
        refresh_connected_at: bool,
    )
        ensures
            final(self)@ == old(self)@.upserted(
                channel_id,
                remote_address,
                now,
                refresh_connected_at,
            ),
    {
        let ghost before = self@;
        let address = MultiAddr::quic(remote_address.canonicalize());
        self.active.insert(channel_id);
        match self.info.remove(&channel_id) {
            Some(known) => {
                let mut info = known;
                info.status = ConnectionStatus::Connected;
                if refresh_connected_at {
                    info.connected_at = now;
                }
                if !holds_address(&info.addresses, &address) {
                    info.addresses.push(address);
                }
                self.info.insert(channel_id, info);
            },
            None => {
                let mut addresses: Vec<MultiAddr> = Vec::new();
                addresses.push(address);
                let protocols: Vec<String> = Vec::new();
                proof {
                    assert(protocols@.map(|_i: int, p: String| p@) =~= Seq::<Seq<char>>::empty());
                    assert(addresses@ =~= seq![remote_end(remote_address)]);
                }
                self.info.insert(channel_id, PeerInfo::fresh(channel_id, addresses, protocols, now));
            },
        }
        assert(self@ =~= before.upserted(channel_id, remote_address, now, refresh_connected_at));
    }
}

impl ChannelRegistry {
    /// Whether a channel is up.
    pub fn is_active(&self, channel_id: &SocketAddr) -> (active: bool)
        ensures
            active == self@.active.contains(*channel_id),
    {
        self.active.contains(channel_id)
    }

    /// Whether a peer is reached over a channel.
    pub fn is_linked(&self, peer_id: &PeerId, channel_id: &SocketAddr) -> (linked: bool)
        ensures
            linked == self@.linked(peer_id@, *channel_id),
    {
        self.links.contains(&Link { peer: *peer_id, channel: *channel_id })
    }

    /// The channels over which a peer is reached.
    pub fn channels_of(&self, peer_id: &PeerId) -> (channels: Vec<SocketAddr>)
        ensures
            channels@.no_duplicates(),
            forall|channel: SocketAddr|
                channels@.contains(channel) <==> #[trigger] self@.linked(peer_id@, channel),
    {
        let links = self.links.members();
        let ghost order = link_views(links@);
        assert(forall|i: int| 0 <= i < links@.len() ==> order[i] == #[trigger] links@[i]@);
        let mut channels: Vec<SocketAddr> = Vec::new();
        let mut index: usize = 0;
        while index < links.len()
            invariant
                index <= links@.len(),
                links@.len() == order.len(),
                order.no_duplicates(),
                forall|i: int| 0 <= i < links@.len() ==> order[i] == #[trigger] links@[i]@,
                channels@.no_duplicates(),
                forall|channel: SocketAddr|
                    channels@.contains(channel) <==> #[trigger] order.take(index as int).contains(
                        (peer_id@, channel),
                    ),
            decreases links@.len() - index,
        {
            let link = links[index];
            let ghost held = channels@;
            proof {
                assert(order[index as int] == link@);
                assert(order.take(index as int + 1) =~= order.take(index as int).push(link@));
            }
            if link.peer.is(peer_id) {
                proof {
                    if held.contains(link.channel) {
                        assert(order.take(index as int).contains((peer_id@, link.channel)));
                        let i = order.take(index as int).index_of((peer_id@, link.channel));
                        assert(order[i] == order[index as int]);
                    }
                }
                channels.push(link.channel);
                assert forall|channel: SocketAddr|
                    channels@.contains(channel) <==> #[trigger] order.take(
                        index as int + 1,
                    ).contains((peer_id@, channel)) by {
                    let pair = (peer_id@, channel);
                    assert(order.take(index as int).contains(pair) == held.contains(channel));
                    lemma_push_contains(held, link.channel, channel);
                    lemma_push_contains(order.take(index as int), link@, pair);
                }
            } else {
                assert forall|channel: SocketAddr|
                    channels@.contains(channel) <==> #[trigger] order.take(
                        index as int + 1,
                    ).contains((peer_id@, channel)) by {
                    let pair = (peer_id@, channel);
                    assert(order.take(index as int).contains(pair) == held.contains(channel));
                    lemma_push_contains(order.take(index as int), link@, pair);
                }
            }
            index += 1;
        }
        proof {
            assert(order.take(links@.len() as int) =~= order);
            assert forall|channel: SocketAddr|
                channels@.contains(channel) <==> #[trigger] self@.linked(peer_id@, channel) by {
                assert(order.contains((peer_id@, channel)) == order.to_set().contains(
                    (peer_id@, channel),
                ));
                assert(order.take(links@.len() as int).contains((peer_id@, channel))
                    == channels@.contains(channel));
            }
        }
        channels
    }

    /// The peers that a channel serves.
    pub fn peers_on(&self, channel_id: &SocketAddr) -> (peers: Vec<PeerId>)
        ensures
            peers@.no_duplicates(),
            forall|peer: PeerId|
                peers@.contains(peer) <==> #[trigger] self@.linked(peer@, *channel_id),
            forall|bytes: Seq<u8>| #[trigger]
                self@.linked(bytes, *channel_id) ==> exists|peer: PeerId|
                    peers@.contains(peer) && #[trigger] peer@ == bytes,
    {
        let links = self.links.members();
        let ghost order = link_views(links@);
        assert(forall|i: int| 0 <= i < links@.len() ==> order[i] == #[trigger] links@[i]@);
        let mut peers: Vec<PeerId> = Vec::new();
        let mut index: usize = 0;
        while index < links.len()
            invariant
                index <= links@.len(),
                links@.len() == order.len(),
                order.no_duplicates(),
                forall|i: int| 0 <= i < links@.len() ==> order[i] == #[trigger] links@[i]@,
                peers@.no_duplicates(),
                forall|peer: PeerId|
                    peers@.contains(peer) <==> #[trigger] order.take(index as int).contains(
                        (peer@, *channel_id),
                    ),
            decreases links@.len() - index,
        {
            let link = links[index];
            let ghost held = peers@;
            proof {
                assert(order[index as int] == link@);
                assert(order.take(index as int + 1) =~= order.take(index as int).push(link@));
            }
            if link.channel == *channel_id {
                proof {
                    if held.contains(link.peer) {
                        assert(order.take(index as int).contains((link.peer@, *channel_id)));
                        let i = order.take(index as int).index_of((link.peer@, *channel_id));
                        assert(order[i] == order[index as int]);
                    }
                }
                peers.push(link.peer);
                assert forall|peer: PeerId|
                    peers@.contains(peer) <==> #[trigger] order.take(index as int + 1).contains(
                        (peer@, *channel_id),
                    ) by {
                    let pair = (peer@, *channel_id);
                    assert(order.take(index as int).contains(pair) == held.contains(peer));
                    lemma_push_contains(held, link.peer, peer);
                    lemma_push_contains(order.take(index as int), link@, pair);
                    lemma_peer_is_its_bytes(peer, link.peer);
                }
            } else {
                assert forall|peer: PeerId|
                    peers@.contains(peer) <==> #[trigger] order.take(index as int + 1).contains(
                        (peer@, *channel_id),
                    ) by {
                    let pair = (peer@, *channel_id);
                    assert(order.take(index as int).contains(pair) == held.contains(peer));
                    lemma_push_contains(order.take(index as int), link@, pair);
                }
            }
            index += 1;
        }
        proof {
            assert(order.take(links@.len() as int) =~= order);
            assert forall|peer: PeerId|
                peers@.contains(peer) <==> #[trigger] self@.linked(peer@, *channel_id) by {
                assert(order.contains((peer@, *channel_id)) == order.to_set().contains(
                    (peer@, *channel_id),
                ));
                assert(order.take(links@.len() as int).contains((peer@, *channel_id))
                    == peers@.contains(peer));
            }
            assert forall|bytes: Seq<u8>| #[trigger]
                self@.linked(bytes, *channel_id) implies exists|peer: PeerId|
                peers@.contains(peer) && #[trigger] peer@ == bytes by {
                assert(order.to_set().contains((bytes, *channel_id)));
                let i = order.index_of((bytes, *channel_id));
                let peer = links@[i].peer;
                assert(links@[i]@ == (bytes, *channel_id));
                assert(peer@ == bytes);
                assert(self@.linked(peer@, *channel_id));
            }
        }
        peers
    }

    /// Whether a peer is reached over any channel.
    pub fn is_connected(&self, peer_id: &PeerId) -> (connected: bool)
        ensures
            connected == self@.connected(peer_id@),
    {
        let channels = self.channels_of(peer_id);
        if channels.len() > 0 {
            assert(channels@.contains(channels@[0]));
            assert(self@.linked(peer_id@, channels@[0]));
            true
        } else {
            assert forall|channel: SocketAddr| !self@.linked(peer_id@, channel) by {
                assert(!channels@.contains(channel));
            }
            false
        }
    }

    /// Whether a channel serves any peer.
    pub fn is_occupied(&self, channel_id: &SocketAddr) -> (occupied: bool)
        ensures
            occupied == self@.occupied(*channel_id),
    {
        let peers = self.peers_on(channel_id);
        if peers.len() > 0 {
            assert(peers@.contains(peers@[0]));
            assert(self@.linked(peers@[0]@, *channel_id));
            true
        } else {
            assert(!self@.occupied(*channel_id));
            false
        }
    }

    /// Note that a peer has proven its identity on a channel.
    ///
    /// The channel is known as one to the peer before anyone hears of the peer. The
    /// event comes where the peer was reached neither here nor on any other
    /// transport.
    pub fn register_authenticated_peer_channel(
        &mut self,
        connectivity: &mut Connectivity,
        channel_id: SocketAddr,
        remote_address: SocketAddr,
        app_id: PeerId,
        peer_user_agent: String,
        now: u64,
    ) -> (event: Option<PeerEvent>)
        requires
            old(connectivity)@.dom().contains(app_id@) ==> old(connectivity)@[app_id@] < usize::MAX,
        ensures
            final(self)@ == old(self)@.registered(
                app_id@,
                channel_id,
                remote_address,
                peer_user_agent@,
                now,
            ),
            final(connectivity)@ == if old(self)@.connected(app_id@) {
                old(connectivity)@
            } else {
                arrived(old(connectivity)@, app_id@)
            },
            event == if newly_reached(old(self)@, old(connectivity)@, app_id@) {
                Some(PeerEvent::Connected(app_id, peer_user_agent))
            } else {
                None
            },
    {
        let ghost before = self@;
        let ghost agent = peer_user_agent@;
        self.upsert_connected_channel(channel_id, remote_address, now, false);
        let known = self.is_connected(&app_id);
        proof {
            assert(known == before.connected(app_id@)) by {
                if before.connected(app_id@) {
                    let channel = choose|channel: SocketAddr| before.linked(app_id@, channel);
                    assert(self@.linked(app_id@, channel));
                }
                if self@.connected(app_id@) {
                    let channel = choose|channel: SocketAddr| self@.linked(app_id@, channel);
                    assert(before.linked(app_id@, channel));
                }
            }
        }
        self.links.insert(Link { peer: app_id, channel: channel_id });
        if known {
            assert(self@ =~= before.registered(app_id@, channel_id, remote_address, agent, now));
            return None;
        }
        self.agents.insert(&app_id, peer_user_agent.clone());
        assert(self@ =~= before.registered(app_id@, channel_id, remote_address, agent, now));
        if connectivity.arrive(&app_id) {
            Some(PeerEvent::Connected(app_id, peer_user_agent))
        } else {
            None
        }
    }
}

/// The peers that are reached over a channel and no other.
pub open spec fn dependents(registry: RegistryView, channel: SocketAddr) -> Set<Seq<u8>> {
    Set::new(|peer: Seq<u8>| registry.depends_on(peer, channel))
}

/// Whether a list names exactly the peers that are lost with a channel: those
/// that are reached over no other channel and on no other transport.
pub open spec fn lost_with(
    registry: RegistryView,
    counts: Map<Seq<u8>, usize>,
    channel: SocketAddr,
    lost: Seq<PeerId>,
) -> bool {
    &&& lost.no_duplicates()
    &&& forall|peer: PeerId| #[trigger]
        lost.contains(peer) <==> (registry.depends_on(peer@, channel) && !doubly_reached(
            counts,
            peer@,
        ))
}

spec fn lost_so_far(
    registry: RegistryView,
    counts: Map<Seq<u8>, usize>,
    channel: SocketAddr,
    done: Seq<PeerId>,
    lost: Seq<PeerId>,
) -> bool {
    forall|peer: PeerId| #[trigger]
        lost.contains(peer) <==> (registry.depends_on(peer@, channel) && !doubly_reached(
            counts,
            peer@,
        ) && among(done, peer@))
}

impl ChannelRegistry {
    /// Take the peers off a channel, and say which of them are reached no more.
    pub fn remove_channel_mappings(
        &mut self,
        connectivity: &mut Connectivity,
        channel_id: &SocketAddr,
    ) -> (lost: Vec<PeerId>)
        ensures
            final(self)@ == old(self)@.unlinked(*channel_id),
            final(connectivity)@ == departed(
                old(connectivity)@,
                dependents(old(self)@, *channel_id),
            ),
            lost_with(old(self)@, old(connectivity)@, *channel_id, lost@),
    {
        let ghost before = self@;
        let ghost counts = connectivity@;
        let ghost channel = *channel_id;
        let peers = self.peers_on(channel_id);
        let mut lost: Vec<PeerId> = Vec::new();
        let mut index: usize = 0;
        while index < peers.len()
            invariant
                index <= peers@.len(),
                channel == *channel_id,
                peers@.no_duplicates(),
                forall|peer: PeerId|
                    peers@.contains(peer) <==> #[trigger] before.linked(peer@, channel),
                self@.active == before.active,
                self@.info == before.info,
                forall|peer: Seq<u8>, other: SocketAddr| #[trigger]
                    self@.linked(peer, other) == (before.linked(peer, other) && !(other == channel
                        && among(peers@.take(index as int), peer))),
                forall|peer: Seq<u8>| #[trigger]
                    self@.agents.dom().contains(peer) == (before.agents.dom().contains(peer) && !(
                    before.depends_on(peer, channel) && among(peers@.take(index as int), peer))),
                forall|peer: Seq<u8>| #[trigger]
                    self@.agents.dom().contains(peer) ==> self@.agents[peer] == before.agents[peer],
                connectivity@ == departed(
                    counts,
                    Set::new(
                        |peer: Seq<u8>|
                            before.depends_on(peer, channel) && among(
                                peers@.take(index as int),
                                peer,
                            ),
                    ),
                ),
                lost@.no_duplicates(),
                lost_so_far(before, counts, channel, peers@.take(index as int), lost@),
            decreases peers@.len() - index,
        {
            let peer = peers[index];
            let ghost done = peers@.take(index as int);
            let ghost next = peers@.take(index as int + 1);
            let ghost held = self@;
            let ghost held_counts = connectivity@;
            let ghost held_lost = lost@;
            proof {
                assert(peers@.contains(peer));
                lemma_among_next(peers@, index as int);
            }
            self.links.remove(&Link { peer, channel: *channel_id });
            let gone = !self.is_connected(&peer);
            let ghost unlinked = self@;
            proof {
                assert(unlinked.agents == held.agents);
                assert forall|p: Seq<u8>, other: SocketAddr| #[trigger]
                    self@.linked(p, other) == (before.linked(p, other) && !(other == channel
                        && among(next, p))) by {
                    assert(held.linked(p, other) == (before.linked(p, other) && !(other == channel
                        && among(done, p))));
                }
                assert(gone == before.depends_on(peer@, channel)) by {
                    if before.depends_on(peer@, channel) && self@.connected(peer@) {
                        let other = choose|other: SocketAddr| self@.linked(peer@, other);
                        assert(before.linked(peer@, other));
                    }
                    if !before.depends_on(peer@, channel) {
                        let other = choose|other: SocketAddr| #[trigger]
                            before.linked(peer@, other) && other != channel;
                        assert(self@.linked(peer@, other));
                    }
                }
            }
            if gone {
                self.agents.remove(&peer);
                let last = connectivity.depart(&peer);
                proof {
                    assert(!among(done, peer@)) by {
                        if among(done, peer@) {
                            let i = choose|i: int|
                                0 <= i < done.len() && (#[trigger] done[i])@ == peer@;
                            lemma_peer_is_its_bytes(peers@[i], peer);
                            assert(peers@[i] == peers@[index as int]);
                        }
                    }
                    assert(doubly_reached(held_counts, peer@) == doubly_reached(counts, peer@));
                    assert(connectivity@ =~= departed(
                        counts,
                        Set::new(
                            |p: Seq<u8>| before.depends_on(p, channel) && among(next, p),
                        ),
                    ));
                }
                if last {
                    proof {
                        assert(held_lost.contains(peer) <==> (before.depends_on(peer@, channel)
                            && !doubly_reached(counts, peer@) && among(done, peer@)));
                    }
                    lost.push(peer);
                }
            } else {
                proof {
                    assert(connectivity@ =~= departed(
                        counts,
                        Set::new(
                            |p: Seq<u8>| before.depends_on(p, channel) && among(next, p),
                        ),
                    ));
                }
            }
            proof {
                assert(self@.links == unlinked.links);
                assert forall|p: Seq<u8>, other: SocketAddr| #[trigger]
                    self@.linked(p, other) == (before.linked(p, other) && !(other == channel
                        && among(next, p))) by {
                    assert(unlinked.linked(p, other) == self@.linked(p, other));
                }
                assert(self@.agents =~= if gone {
                    held.agents.remove(peer@)
                } else {
                    held.agents
                });
                assert forall|p: Seq<u8>| #[trigger]
                    self@.agents.dom().contains(p) == (before.agents.dom().contains(p) && !(
                    before.depends_on(p, channel) && among(next, p))) by {
                    assert(held.agents.dom().contains(p) == (before.agents.dom().contains(p) && !(
                    before.depends_on(p, channel) && among(done, p))));
                }
                assert forall|p: Seq<u8>| #[trigger] self@.agents.dom().contains(p) implies
                    self@.agents[p] == before.agents[p] by {
                    assert(held.agents.dom().contains(p));
                }
                assert(lost_so_far(before, counts, channel, next, lost@)) by {
                    assert forall|p: PeerId| #[trigger] lost@.contains(p) <==> (
                    before.depends_on(p@, channel) && !doubly_reached(counts, p@) && among(
                        next,
                        p@,
                    )) by {
                        lemma_push_contains(held_lost, peer, p);
                        lemma_peer_is_its_bytes(p, peer);
                        assert(held_lost.contains(p) <==> (before.depends_on(p@, channel)
                            && !doubly_reached(counts, p@) && among(done, p@)));
                    }
                }
            }
            index += 1;
        }
        proof {
            assert(peers@.take(peers@.len() as int) =~= peers@);
            assert forall|p: Seq<u8>| #[trigger] before.linked(p, channel) implies among(
                peers@,
                p,
            ) by {
                let peer = choose|peer: PeerId| peers@.contains(peer) && #[trigger] peer@ == p;
                assert(peers@[peers@.index_of(peer)]@ == p);
            }
            assert(self@.links =~= before.unlinked(channel).links) by {
                assert forall|link: (Seq<u8>, SocketAddr)| #[trigger]
                    self@.links.contains(link) == before.unlinked(channel).links.contains(
                        link,
                    ) by {
                    assert(self@.linked(link.0, link.1) == (before.linked(link.0, link.1) && !(
                    link.1 == channel && among(peers@, link.0))));
                }
            }
            assert(self@.agents =~= before.unlinked(channel).agents);
            assert(self@ =~= before.unlinked(channel));
            assert(Set::new(
                |p: Seq<u8>| before.depends_on(p, channel) && among(peers@, p),
            ) =~= dependents(before, channel));
        }
        lost
    }

    /// Forget a channel. Says whether it was known, and which peers are reached
    /// no more.
    pub fn remove_channel(
        &mut self,
        connectivity: &mut Connectivity,
        channel_id: &SocketAddr,
    ) -> (removed: (bool, Vec<PeerId>))
        ensures
            final(self)@ == old(self)@.without_channel(*channel_id),
            final(connectivity)@ == departed(
                old(connectivity)@,
                dependents(old(self)@, *channel_id),
            ),
            removed.0 == old(self)@.info.dom().contains(*channel_id),
            lost_with(old(self)@, old(connectivity)@, *channel_id, removed.1@),
    {
        let ghost before = self@;
        let lost = self.remove_channel_mappings(connectivity, channel_id);
        self.active.remove(channel_id);
        let known = self.info.remove(channel_id).is_some();
        assert(self@ =~= before.without_channel(*channel_id));
        (known, lost)
    }
}

impl ChannelRegistry {
    /// Let go of a peer.
    ///
    /// Hands out the channels that served this peer alone, which are to be
    /// closed, and says whether the peer is now reached on no transport.
    pub fn disconnect_peer(
        &mut self,
        connectivity: &mut Connectivity,
        peer_id: &PeerId,
    ) -> (outcome: (Vec<SocketAddr>, bool))
        ensures
            final(self)@ == old(self)@.without_peer(peer_id@),
            final(connectivity)@ == if old(self)@.connected(peer_id@) {
                departed(old(connectivity)@, set![peer_id@])
            } else {
                old(connectivity)@
            },
            outcome.0@.no_duplicates(),
            forall|channel: SocketAddr| #[trigger]
                outcome.0@.contains(channel) <==> old(self)@.serves_only(channel, peer_id@),
            outcome.1 == left_behind(old(self)@, old(connectivity)@, peer_id@),
    {
        let ghost before = self@;
        let ghost peer = peer_id@;
        let channels = self.channels_of(peer_id);
        let mut orphaned: Vec<SocketAddr> = Vec::new();
        if channels.len() == 0 {
            proof {
                assert forall|channel: SocketAddr| !before.linked(peer, channel) by {
                    assert(!channels@.contains(channel));
                }
            }
            return (orphaned, false);
        }
        proof {
            assert(channels@.contains(channels@[0]));
            assert(before.linked(peer, channels@[0]));
        }
        let mut index: usize = 0;
        while index < channels.len()
            invariant
                index <= channels@.len(),
                peer == peer_id@,
                channels@.no_duplicates(),
                forall|channel: SocketAddr|
                    channels@.contains(channel) <==> #[trigger] before.linked(peer, channel),
                self@.active == before.active,
                self@.info == before.info,
                self@.agents == before.agents,
                forall|other: Seq<u8>, channel: SocketAddr| #[trigger]
                    self@.linked(other, channel) == (before.linked(other, channel) && !(other
                        == peer && channels@.take(index as int).contains(channel))),
                orphaned@.no_duplicates(),
                forall|channel: SocketAddr| #[trigger]
                    orphaned@.contains(channel) <==> (before.serves_only(channel, peer)
                        && channels@.take(index as int).contains(channel)),
            decreases channels@.len() - index,
        {
            let channel = channels[index];
            let ghost held = self@;
            let ghost held_orphaned = orphaned@;
            let ghost done = channels@.take(index as int);
            let ghost next = channels@.take(index as int + 1);
            proof {
                assert(channels@.contains(channel));
                assert(next =~= done.push(channel));
                assert(!done.contains(channel)) by {
                    if done.contains(channel) {
                        let i = done.index_of(channel);
                        assert(channels@[i] == channels@[index as int]);
                    }
                }
            }
            self.links.remove(&Link { peer: *peer_id, channel });
            proof {
                assert forall|other: Seq<u8>, c: SocketAddr| #[trigger]
                    self@.linked(other, c) == (before.linked(other, c) && !(other == peer
                        && next.contains(c))) by {
                    lemma_push_contains(done, channel, c);
                    assert(held.linked(other, c) == (before.linked(other, c) && !(other == peer
                        && done.contains(c))));
                }
            }
            let occupied = self.is_occupied(&channel);
            proof {
                assert(occupied == !before.serves_only(channel, peer)) by {
                    lemma_push_contains(done, channel, channel);
                    if self@.occupied(channel) {
                        let other = choose|other: Seq<u8>| self@.linked(other, channel);
                        assert(before.linked(other, channel) && other != peer);
                    }
                    if !before.serves_only(channel, peer) {
                        let other = choose|other: Seq<u8>| #[trigger]
                            before.linked(other, channel) && other != peer;
                        assert(self@.linked(other, channel));
                    }
                }
            }
            if !occupied {
                orphaned.push(channel);
            }
            proof {
                assert forall|c: SocketAddr| #[trigger] orphaned@.contains(c) <==> (
                before.serves_only(c, peer) && next.contains(c)) by {
                    lemma_push_contains(done, channel, c);
                    lemma_push_contains(held_orphaned, channel, c);
                    assert(held_orphaned.contains(c) <==> (before.serves_only(c, peer)
                        && done.contains(c)));
                }
                assert(!held_orphaned.contains(channel));
            }
            index += 1;
        }
        let ghost cut = self@;
        self.agents.remove(peer_id);
        let last = connectivity.depart(peer_id);
        let ghost let_go = self@;
        proof {
            assert(let_go.links == cut.links);
            assert(channels@.take(channels@.len() as int) =~= channels@);
            assert(let_go.links =~= before.without_peer(peer).links) by {
                assert forall|link: (Seq<u8>, SocketAddr)| #[trigger]
                    let_go.links.contains(link) == before.without_peer(peer).links.contains(
                        link,
                    ) by {
                    assert(cut.linked(link.0, link.1) == (before.linked(link.0, link.1) && !(link.0
                        == peer && channels@.contains(link.1))));
                    assert(channels@.contains(link.1) <==> before.linked(peer, link.1));
                }
            }
            assert(let_go.agents =~= before.agents.remove(peer));
            assert(let_go.info == before.info);
            assert forall|channel: SocketAddr| #[trigger]
                orphaned@.contains(channel) <==> before.serves_only(channel, peer) by {
                if before.serves_only(channel, peer) {
                    assert(before.linked(peer, channel));
                }
            }
        }
        let mut closing: usize = 0;
        while closing < orphaned.len()
            invariant
                closing <= orphaned@.len(),
                self@.links == let_go.links,
                self@.agents == let_go.agents,
                forall|channel: SocketAddr| #[trigger]
                    self@.active.contains(channel) == (let_go.active.contains(channel)
                        && !orphaned@.take(closing as int).contains(channel)),
                forall|channel: SocketAddr| #[trigger]
                    self@.info.dom().contains(channel) == (let_go.info.dom().contains(channel)
                        && !orphaned@.take(closing as int).contains(channel)),
                forall|channel: SocketAddr| #[trigger]
                    self@.info.dom().contains(channel) ==> self@.info[channel]
                        == let_go.info[channel],
            decreases orphaned@.len() - closing,
        {
            let ghost held = self@;
            let ghost done = orphaned@.take(closing as int);
            let ghost next = orphaned@.take(closing as int + 1);
            self.active.remove(&orphaned[closing]);
            self.info.remove(&orphaned[closing]);
            proof {
                let channel = orphaned@[closing as int];
                assert(next =~= done.push(channel));
                assert(self@.active == held.active.remove(channel));
                assert(self@.info =~= held.info.remove(channel));
                assert forall|c: SocketAddr| #[trigger]
                    self@.active.contains(c) == (let_go.active.contains(c) && !next.contains(c)) by {
                    lemma_push_contains(done, channel, c);
                    assert(held.active.contains(c) == (let_go.active.contains(c) && !done.contains(
                        c,
                    )));
                }
                assert forall|c: SocketAddr| #[trigger]
                    self@.info.dom().contains(c) == (let_go.info.dom().contains(c)
                        && !next.contains(c)) by {
                    lemma_push_contains(done, channel, c);
                    assert(held.info.dom().contains(c) == (let_go.info.dom().contains(c)
                        && !done.contains(c)));
                }
                assert forall|c: SocketAddr| #[trigger]
                    self@.info.dom().contains(c) implies self@.info[c] == let_go.info[c] by {
                    assert(held.info.dom().contains(c));
                }
            }
            closing += 1;
        }
        proof {
            assert(orphaned@.take(orphaned@.len() as int) =~= orphaned@);
            assert(before.connected(peer));
            assert(self@.active =~= before.without_peer(peer).active);
            assert(self@.info =~= before.without_peer(peer).info) by {
                assert forall|c: SocketAddr| #[trigger]
                    self@.info.dom().contains(c) == before.without_peer(peer).info.dom().contains(
                        c,
                    ) by {
                    assert(self@.info.dom().contains(c) == (let_go.info.dom().contains(c)
                        && !orphaned@.contains(c)));
                }
            }
            assert(self@ =~= before.without_peer(peer));
        }
        (orphaned, last)
    }

    /// Note that a channel was dialed, at the address that was asked for.
    pub fn record_dialed_channel(
        &mut self,
        channel_id: SocketAddr,
        address: MultiAddr,
        now: u64,
    )
        ensures
            final(self)@ == old(self)@.dialed(channel_id, address, now),
    {
        let ghost before = self@;
        let mut addresses: Vec<MultiAddr> = Vec::new();
        addresses.push(address);
        let mut protocols: Vec<String> = Vec::new();
        protocols.push(CHANNEL_PROTOCOL.to_owned());
        proof {
            assert(addresses@ =~= seq![address]);
            assert(protocols@.map(|_i: int, p: String| p@) =~= seq![CHANNEL_PROTOCOL@]);
        }
        self.info.insert(channel_id, PeerInfo::fresh(channel_id, addresses, protocols, now));
        self.active.insert(channel_id);
        assert(self@.info =~= before.info.insert(
            channel_id,
            fresh_channel(channel_id, seq![address], seq![CHANNEL_PROTOCOL@], now),
        ));
    }

    /// Note that something is about to be sent on a channel, which may be up at
    /// the transport without being known here yet.
    pub fn prepare_send(&mut self, channel_id: SocketAddr, active_elsewhere: bool, now: u64)
        ensures
            final(self)@ == old(self)@.readied(channel_id, active_elsewhere, now),
    {
        let ghost before = self@;
        if !self.info.contains(&channel_id) {
            let mut addresses: Vec<MultiAddr> = Vec::new();
            addresses.push(MultiAddr::quic(channel_id));
            let protocols: Vec<String> = Vec::new();
            proof {
                assert(addresses@ =~= seq![
                    MultiAddr {
                        socket_addr: channel_id,
                        transport: crate::address::AddressTransport::Quic,
                        owner: None,
                    },
                ]);
                assert(protocols@.map(|_i: int, p: String| p@) =~= Seq::<Seq<char>>::empty());
            }
            self.info.insert(channel_id, PeerInfo::fresh(channel_id, addresses, protocols, now));
            assert(self@.info =~= before.info.insert(
                channel_id,
                fresh_channel(channel_id, addresses@, Seq::empty(), now),
            ));
        }
        if !active_elsewhere {
            self.active.insert(channel_id);
        }
    }

    /// Note that a send on a channel failed: the channel is not up.
    pub fn note_send_failure(&mut self, channel_id: &SocketAddr)
        ensures
            final(self)@ == old(self)@.silenced(*channel_id),
    {
        self.active.remove(channel_id);
    }
}

impl ChannelRegistry {
    /// The peers that are reached.
    pub fn connected_peers(&self) -> (peers: Vec<PeerId>)
        ensures
            peers@.no_duplicates(),
            forall|bytes: Seq<u8>| #[trigger]
                among(peers@, bytes) <==> self@.connected(bytes),
    {
        let links = self.links.members();
        let ghost order = link_views(links@);
        assert(forall|i: int| 0 <= i < links@.len() ==> order[i] == #[trigger] links@[i]@);
        let mut peers: Vec<PeerId> = Vec::new();
        let mut index: usize = 0;
        while index < links.len()
            invariant
                index <= links@.len(),
                links@.len() == order.len(),
                self@.links == order.to_set(),
                forall|i: int| 0 <= i < links@.len() ==> order[i] == #[trigger] links@[i]@,
                peers@.no_duplicates(),
                forall|bytes: Seq<u8>| #[trigger]
                    among(peers@, bytes) ==> self@.connected(bytes),
                forall|i: int| 0 <= i < index ==> among(peers@, (#[trigger] links@[i]).peer@),
            decreases links@.len() - index,
        {
            let link = links[index];
            let ghost held = peers@;
            proof {
                assert(order[index as int] == link@);
                assert(order.to_set().contains(link@));
                assert(self@.linked(link.peer@, link.channel));
            }
            if !holds_peer(&peers, &link.peer) {
                peers.push(link.peer);
                proof {
                    assert(!held.contains(link.peer)) by {
                        if held.contains(link.peer) {
                            assert(held[held.index_of(link.peer)]@ == link.peer@);
                        }
                    }
                    lemma_among_push(held, link.peer);
                }
            }
            index += 1;
        }
        proof {
            assert forall|bytes: Seq<u8>| #[trigger]
                among(peers@, bytes) <==> self@.connected(bytes) by {
                if self@.connected(bytes) {
                    let channel = choose|channel: SocketAddr| self@.linked(bytes, channel);
                    assert(order.to_set().contains((bytes, channel)));
                    let i = order.index_of((bytes, channel));
                    assert(links@[i]@ == (bytes, channel));
                }
            }
        }
        peers
    }

    /// The software that a peer names, where the peer is reached.
    pub fn user_agent(&self, peer_id: &PeerId) -> (agent: Option<String>)
        ensures
            match agent {
                Some(text) => self@.agents.dom().contains(peer_id@) && text@
                    == self@.agents[peer_id@],
                None => !self@.agents.dom().contains(peer_id@),
            },
    {
        self.agents.get(peer_id)
    }

    /// The channels that are up.
    pub fn active_channels(&self) -> (channels: Vec<SocketAddr>)
        ensures
            channels@.no_duplicates(),
            channels@.to_set() == self@.active,
    {
        self.active.members()
    }

    /// The channels that are known.
    pub fn known_channels(&self) -> (channels: Vec<SocketAddr>)
        ensures
            channels@.no_duplicates(),
            channels@.to_set() == self@.info.dom(),
    {
        self.info.channels()
    }

    /// What is known of a channel.
    pub fn channel_info(&self, channel_id: &SocketAddr) -> (info: Option<PeerInfo>)
        ensures
            match info {
                Some(known) => self@.info.dom().contains(*channel_id) && known@
                    == self@.info[*channel_id],
                None => !self@.info.dom().contains(*channel_id),
            },
    {
        self.info.get(channel_id)
    }

    /// What is known of a channel over which a peer is reached. Which one of
    /// several is open.
    pub fn peer_info(&self, peer_id: &PeerId) -> (info: Option<PeerInfo>)
        ensures
            match info {
                Some(known) => self@.tells(peer_id@, known@),
                None => self@.is_silent(peer_id@),
            },
    {
        let channels = self.channels_of(peer_id);
        if channels.len() == 0 {
            proof {
                assert forall|channel: SocketAddr| !self@.linked(peer_id@, channel) by {
                    assert(!channels@.contains(channel));
                }
            }
            return None;
        }
        proof {
            assert(channels@.contains(channels@[0]));
            assert(self@.linked(peer_id@, channels@[0]));
        }
        self.info.get(&channels[0])
    }

    /// A channel that has an address at a socket. Which one of several is open.
    pub fn channel_at(&self, target: &SocketAddr) -> (channel: Option<SocketAddr>)
        ensures
            match channel {
                Some(found) => self@.info.dom().contains(found) && has_socket(
                    self@.info[found].addresses,
                    *target,
                ),
                None => forall|other: SocketAddr| #[trigger]
                    self@.info.dom().contains(other) ==> !has_socket(
                        self@.info[other].addresses,
                        *target,
                    ),
            },
    {
        let channels = self.info.channels();
        let mut index: usize = 0;
        while index < channels.len()
            invariant
                index <= channels@.len(),
                channels@.to_set() == self@.info.dom(),
                forall|i: int|
                    0 <= i < index ==> !has_socket(
                        self@.info[#[trigger] channels@[i]].addresses,
                        *target,
                    ),
            decreases channels@.len() - index,
        {
            let channel = channels[index];
            proof {
                assert(channels@.to_set().contains(channel));
            }
            if let Some(info) = self.info.get(&channel) {
                if any_at_socket(&info.addresses, target) {
                    return Some(channel);
                }
            }
            index += 1;
        }
        proof {
            assert forall|other: SocketAddr| #[trigger]
                self@.info.dom().contains(other) implies !has_socket(
                self@.info[other].addresses,
                *target,
            ) by {
                assert(channels@.to_set().contains(other));
                let i = channels@.index_of(other);
                assert(channels@[i] == other);
            }
        }
        None
    }
}

impl RegistryView {
    /// Whether a channel serves peers, all of them among some.
    pub open spec fn serves_within(self, channel: SocketAddr, peers: Set<Seq<u8>>) -> bool {
        self.occupied(channel) && forall|peer: Seq<u8>| #[trigger]
            self.linked(peer, channel) ==> peers.contains(peer)
    }

    /// Some peers are let go, with the channels that serve no other.
    pub open spec fn without_peers(self, peers: Set<Seq<u8>>) -> RegistryView {
        RegistryView {
            active: self.active.filter(
                |channel: SocketAddr| !self.serves_within(channel, peers),
            ),
            info: self.info.restrict(
                Set::new(|channel: SocketAddr| !self.serves_within(channel, peers)),
            ),
            links: self.links.filter(|link: (Seq<u8>, SocketAddr)| !peers.contains(link.0)),
            agents: self.agents.restrict(
                Set::new(|peer: Seq<u8>| !(peers.contains(peer) && self.connected(peer))),
            ),
        }
    }
}

proof fn lemma_without_one_more(registry: RegistryView, peers: Set<Seq<u8>>, peer: Seq<u8>)
    requires
        registry.connected(peer),
        !peers.contains(peer),
    ensures
        registry.without_peers(peers).connected(peer),
        registry.without_peers(peers).without_peer(peer) == registry.without_peers(
            peers.insert(peer),
        ),
        forall|channel: SocketAddr| #[trigger]
            registry.serves_within(channel, peers.insert(peer)) == (registry.serves_within(
                channel,
                peers,
            ) || registry.without_peers(peers).serves_only(channel, peer)),
{
    let before = registry.without_peers(peers);
    let after = registry.without_peers(peers.insert(peer));
    let some = choose|channel: SocketAddr| registry.linked(peer, channel);
    assert(before.linked(peer, some));
    let step = before.without_peer(peer);
    assert forall|channel: SocketAddr| #[trigger]
        registry.serves_within(channel, peers.insert(peer)) == (registry.serves_within(
            channel,
            peers,
        ) || before.serves_only(channel, peer)) by {
        if before.serves_only(channel, peer) {
            assert(before.linked(peer, channel));
            assert(registry.linked(peer, channel));
            assert forall|other: Seq<u8>| #[trigger]
                registry.linked(other, channel) implies peers.insert(peer).contains(other) by {
                if !peers.contains(other) {
                    assert(before.linked(other, channel));
                }
            }
        }
        if registry.serves_within(channel, peers.insert(peer)) && !registry.serves_within(
            channel,
            peers,
        ) {
            let stray = choose|other: Seq<u8>| #[trigger]
                registry.linked(other, channel) && !peers.contains(other);
            assert(stray == peer);
            assert(before.linked(peer, channel));
            assert forall|other: Seq<u8>| #[trigger]
                before.linked(other, channel) implies other == peer by {
                assert(registry.linked(other, channel));
            }
        }
    }
    assert(step.active =~= after.active) by {
        assert forall|channel: SocketAddr| #[trigger] step.active.contains(channel)
            == after.active.contains(channel) by {
            assert(registry.serves_within(channel, peers.insert(peer)) == (
            registry.serves_within(channel, peers) || before.serves_only(channel, peer)));
        }
    }
    assert(step.info =~= after.info) by {
        assert forall|channel: SocketAddr| #[trigger]
            step.info.dom().contains(channel) == after.info.dom().contains(channel) by {
            assert(registry.serves_within(channel, peers.insert(peer)) == (
            registry.serves_within(channel, peers) || before.serves_only(channel, peer)));
        }
    }
    assert(step.links =~= after.links);
    assert(step.agents =~= after.agents);
}

/// Whether a channel is to be closed with one of the peers that were let go.
pub open spec fn closes(released: Seq<Released>, channel: SocketAddr) -> bool {
    exists|i: int|
        0 <= i < released.len() && (#[trigger] released[i]).channels@.contains(channel)
}

/// What is left to do once a peer was let go: channels to close, and whether
/// the peer is reached on no transport.
pub struct Released {
    /// The peer.
    pub peer: PeerId,
    /// Channels to close.
    pub channels: Vec<SocketAddr>,
    /// Whether the peer is reached no more.
    pub lost: bool,
}

impl ChannelRegistry {
    /// Let go of every peer.
    pub fn disconnect_all_peers(&mut self, connectivity: &mut Connectivity) -> (released: Vec<
        Released,
    >)
        ensures
            final(self)@ == old(self)@.without_peers(
                Set::new(|peer: Seq<u8>| old(self)@.connected(peer)),
            ),
            forall|peer: Seq<u8>| !#[trigger] final(self)@.connected(peer),
            final(connectivity)@ == departed(
                old(connectivity)@,
                Set::new(|peer: Seq<u8>| old(self)@.connected(peer)),
            ),
            forall|peer: Seq<u8>| #[trigger]
                old(self)@.connected(peer) <==> exists|i: int|
                    0 <= i < released@.len() && (#[trigger] released@[i]).peer@ == peer,
            forall|i: int, j: int|
                0 <= i < j < released@.len() ==> (#[trigger] released@[i]).peer
                    != (#[trigger] released@[j]).peer,
            forall|i: int|
                0 <= i < released@.len() ==> (#[trigger] released@[i]).lost == !doubly_reached(
                    old(connectivity)@,
                    released@[i].peer@,
                ),
            forall|channel: SocketAddr| #[trigger]
                closes(released@, channel) <==> old(self)@.occupied(channel),
    {
        let ghost before = self@;
        let ghost counts = connectivity@;
        let peers = self.connected_peers();
        let mut released: Vec<Released> = Vec::new();
        let mut index: usize = 0;
        proof {
            assert(before.without_peers(listed(peers@.take(0))) =~= before) by {
                assert forall|channel: SocketAddr| !#[trigger] before.serves_within(
                    channel,
                    listed(peers@.take(0)),
                ) by {
                    if before.occupied(channel) {
                        let peer = choose|peer: Seq<u8>| before.linked(peer, channel);
                        assert(!among(peers@.take(0), peer));
                    }
                }
                assert forall|bytes: Seq<u8>| !#[trigger] listed(peers@.take(0)).contains(bytes) by {
                    assert(!among(peers@.take(0), bytes));
                }
            }
            assert(departed(counts, listed(peers@.take(0))) =~= counts) by {
                assert forall|bytes: Seq<u8>| !#[trigger] listed(peers@.take(0)).contains(bytes) by {
                    assert(!among(peers@.take(0), bytes));
                }
            }
            assert forall|channel: SocketAddr| #[trigger]
                closes(released@, channel) <==> before.serves_within(
                    channel,
                    listed(peers@.take(0)),
                ) by {
                if before.occupied(channel) {
                    let peer = choose|peer: Seq<u8>| before.linked(peer, channel);
                    assert(before.linked(peer, channel));
                    assert(!among(peers@.take(0), peer));
                }
            }
        }
        while index < peers.len()
            invariant
                index <= peers@.len(),
                peers@.no_duplicates(),
                forall|bytes: Seq<u8>| #[trigger]
                    among(peers@, bytes) <==> before.connected(bytes),
                self@ == before.without_peers(listed(peers@.take(index as int))),
                connectivity@ == departed(counts, listed(peers@.take(index as int))),
                released@.len() == index,
                forall|i: int|
                    0 <= i < index ==> (#[trigger] released@[i]).peer == peers@[i]
                        && released@[i].lost == !doubly_reached(counts, peers@[i]@),
                forall|channel: SocketAddr| #[trigger]
                    closes(released@, channel) <==> before.serves_within(
                        channel,
                        listed(peers@.take(index as int)),
                    ),
            decreases peers@.len() - index,
        {
            let peer = peers[index];
            proof {
                let done = peers@.take(index as int);
                assert(peers@[index as int]@ == peer@);
                assert(among(peers@, peer@));
                assert(!listed(done).contains(peer@)) by {
                    if among(done, peer@) {
                        let i = choose|i: int| 0 <= i < done.len() && (#[trigger] done[i])@ == peer@;
                        lemma_peer_is_its_bytes(peers@[i], peer);
                        assert(peers@[i] == peers@[index as int]);
                    }
                }
                lemma_without_one_more(before, listed(done), peer@);
                lemma_among_next(peers@, index as int);
                assert(listed(peers@.take(index as int + 1)) =~= listed(done).insert(peer@));
            }
            let ghost held = self@;
            let ghost held_released = released@;
            let (channels, lost) = self.disconnect_peer(connectivity, &peer);
            released.push(Released { peer, channels, lost });
            proof {
                let done = listed(peers@.take(index as int));
                let next = listed(peers@.take(index as int + 1));
                assert(next == done.insert(peer@));
                assert(departed(departed(counts, done), set![peer@]) =~= departed(counts, next));
                assert forall|channel: SocketAddr| #[trigger]
                    closes(released@, channel) <==> before.serves_within(channel, next) by {
                    assert(before.serves_within(channel, next) == (before.serves_within(
                        channel,
                        done,
                    ) || held.serves_only(channel, peer@)));
                    assert(closes(held_released, channel) <==> before.serves_within(channel, done));
                    if closes(held_released, channel) {
                        let i = choose|i: int|
                            0 <= i < held_released.len() && (
                            #[trigger] held_released[i]).channels@.contains(channel);
                        assert(released@[i] == held_released[i]);
                    }
                    if held.serves_only(channel, peer@) {
                        assert(released@[index as int].channels@.contains(channel));
                    }
                    if closes(released@, channel) {
                        let i = choose|i: int|
                            0 <= i < released@.len() && (#[trigger] released@[i]).channels@.contains(
                                channel,
                            );
                        if i < index {
                            assert(held_released[i] == released@[i]);
                        }
                    }
                }
            }
            index += 1;
        }
        proof {
            assert(peers@.take(peers@.len() as int) =~= peers@);
            assert(listed(peers@) =~= Set::new(|peer: Seq<u8>| before.connected(peer)));
            assert forall|peer: Seq<u8>| !#[trigger] self@.connected(peer) by {
                if self@.connected(peer) {
                    let channel = choose|channel: SocketAddr| self@.linked(peer, channel);
                    assert(before.linked(peer, channel));
                }
            }
            assert forall|channel: SocketAddr| #[trigger]
                closes(released@, channel) <==> before.occupied(channel) by {
                if before.occupied(channel) {
                    assert forall|peer: Seq<u8>| #[trigger]
                        before.linked(peer, channel) implies listed(peers@).contains(peer) by {
                        assert(before.connected(peer));
                        assert(among(peers@, peer));
                    }
                    assert(before.serves_within(channel, listed(peers@)));
                }
            }
            assert forall|peer: Seq<u8>| #[trigger]
                before.connected(peer) <==> exists|i: int|
                    0 <= i < released@.len() && (#[trigger] released@[i]).peer@ == peer by {
                if before.connected(peer) {
                    assert(among(peers@, peer));
                    let i = choose|i: int| 0 <= i < peers@.len() && (#[trigger] peers@[i])@ == peer;
                    assert(released@[i].peer == peers@[i]);
                }
                if exists|i: int| 0 <= i < released@.len() && (#[trigger] released@[i]).peer@ == peer {
                    let i = choose|i: int|
                        0 <= i < released@.len() && (#[trigger] released@[i]).peer@ == peer;
                    assert(peers@[i]@ == peer);
                    assert(among(peers@, peer));
                }
            }
        }
        released
    }

    /// The channels that are up, each with the addresses of its remote end as
    /// far as they are known.
    pub fn list_active_connections(&self) -> (listed: Vec<(SocketAddr, Vec<MultiAddr>)>)
        ensures
            listed@.map(|_i: int, entry: (SocketAddr, Vec<MultiAddr>)| entry.0).no_duplicates(),
            listed@.map(|_i: int, entry: (SocketAddr, Vec<MultiAddr>)| entry.0).to_set()
                == self@.active,
            forall|i: int|
                0 <= i < listed@.len() ==> (#[trigger] listed@[i]).1@
                    == if self@.info.dom().contains(listed@[i].0) {
                    self@.info[listed@[i].0].addresses
                } else {
                    Seq::empty()
                },
    {
        let channels = self.active_channels();
        let mut listed: Vec<(SocketAddr, Vec<MultiAddr>)> = Vec::new();
        let mut index: usize = 0;
        while index < channels.len()
            invariant
                index <= channels@.len(),
                listed@.len() == index,
                forall|i: int|
                    0 <= i < index ==> (#[trigger] listed@[i]).0 == channels@[i] && listed@[i].1@
                        == if self@.info.dom().contains(channels@[i]) {
                        self@.info[channels@[i]].addresses
                    } else {
                        Seq::empty()
                    },
            decreases channels@.len() - index,
        {
            let addresses = match self.channel_info(&channels[index]) {
                Some(info) => copy_addresses(&info.addresses),
                None => Vec::new(),
            };
            listed.push((channels[index], addresses));
            index += 1;
        }
        assert(listed@.map(|_i: int, entry: (SocketAddr, Vec<MultiAddr>)| entry.0) =~= channels@);
        listed
    }
}

/// The bytes of the peers of a list.
pub open spec fn listed(peers: Seq<PeerId>) -> Set<Seq<u8>> {
    Set::new(|bytes: Seq<u8>| among(peers, bytes))
}

/// Whether a list of addresses holds one at a socket.
pub open spec fn has_socket(addresses: Seq<MultiAddr>, target: SocketAddr) -> bool {
    exists|i: int| 0 <= i < addresses.len() && (#[trigger] addresses[i]).socket_addr == target
}

/// Whether a list of addresses holds one at a socket.
pub fn any_at_socket(addresses: &Vec<MultiAddr>, target: &SocketAddr) -> (found: bool)
    ensures
        found == has_socket(addresses@, *target),
{
    let mut index: usize = 0;
    while index < addresses.len()
        invariant
            index <= addresses@.len(),
            forall|i: int|
                0 <= i < index ==> (#[trigger] addresses@[i]).socket_addr != *target,
        decreases addresses@.len() - index,
    {
        if addresses[index].socket_addr == *target {
            return true;
        }
        index += 1;
    }
    false
}

/// Whether a list of peers holds a peer.
pub fn holds_peer(peers: &Vec<PeerId>, peer: &PeerId) -> (found: bool)
    ensures
        found == among(peers@, peer@),
        found == peers@.contains(*peer),
{
    let mut index: usize = 0;
    while index < peers.len()
        invariant
            index <= peers@.len(),
            forall|i: int| 0 <= i < index ==> (#[trigger] peers@[i])@ != peer@,
        decreases peers@.len() - index,
    {
        if peers[index].is(peer) {
            return true;
        }
        index += 1;
    }
    false
}

pub proof fn lemma_among_push(peers: Seq<PeerId>, peer: PeerId)
    ensures
        forall|bytes: Seq<u8>| #[trigger]
            among(peers.push(peer), bytes) == (among(peers, bytes) || bytes == peer@),
{
    let next = peers.push(peer);
    lemma_among_next(next, peers.len() as int);
    assert(next.take(peers.len() as int) =~= peers);
    assert(next.take(peers.len() as int + 1) =~= next);
}

/// Whether a list of peers holds the one with the given bytes.
pub open spec fn among(peers: Seq<PeerId>, bytes: Seq<u8>) -> bool {
    exists|i: int| 0 <= i < peers.len() && (#[trigger] peers[i])@ == bytes
}

pub proof fn lemma_among_next(peers: Seq<PeerId>, index: int)
    requires
        0 <= index < peers.len(),
    ensures
        forall|bytes: Seq<u8>| #[trigger]
            among(peers.take(index + 1), bytes) == (among(peers.take(index), bytes) || bytes
                == peers[index]@),
{
    let done = peers.take(index);
    let next = peers.take(index + 1);
    assert forall|bytes: Seq<u8>| #[trigger]
        among(next, bytes) == (among(done, bytes) || bytes == peers[index]@) by {
        if among(done, bytes) {
            let i = choose|i: int| 0 <= i < done.len() && (#[trigger] done[i])@ == bytes;
            assert(next[i]@ == bytes);
        }
        if bytes == peers[index]@ {
            assert(next[index]@ == bytes);
        }
        if among(next, bytes) && bytes != peers[index]@ {
            let i = choose|i: int| 0 <= i < next.len() && (#[trigger] next[i])@ == bytes;
            assert(done[i]@ == bytes);
        }
    }
}

/// A list with one item more holds that item and what it held before.
pub proof fn lemma_push_contains<T>(list: Seq<T>, last: T, item: T)
    ensures
        list.push(last).contains(item) == (list.contains(item) || item == last),
{
    if list.contains(item) {
        let i = list.index_of(item);
        assert(list.push(last)[i] == item);
    }
    if item == last {
        assert(list.push(last)[list.len() as int] == item);
    }
    if list.push(last).contains(item) && item != last {
        let i = list.push(last).index_of(item);
        assert(list[i] == item);
    }
}

/// Whether a list of addresses holds an address.
fn holds_address(addresses: &Vec<MultiAddr>, address: &MultiAddr) -> (found: bool)
    ensures
        found == addresses@.contains(*address),
{
    let mut index: usize = 0;
    while index < addresses.len()
        invariant
            index <= addresses@.len(),
            forall|i: int| 0 <= i < index ==> addresses@[i] != *address,
        decreases addresses@.len() - index,
    {
        if addresses[index].is(address) {
            return true;
        }
        index += 1;
    }
    false
}

} // verus!
