//! Laws of what each operation on channels and peers changes, and what it leaves.

use crate::address::{AddressTransport, MultiAddr, SocketAddr};
use crate::transport::registry::{
    arrived, departed, doubly_reached, ConnectionStatus, InfoView, RegistryView, CHANNEL_PROTOCOL,
};
use vstd::prelude::*;

verus! {

/// A channel that comes up is active, and nothing else becomes so. A channel that
/// was not known is known from then on at its remote end, connected and seen now,
/// without protocols; what is known of other channels and of peers stays.
pub proof fn law_new_channels_are_known_at_their_end(
    registry: RegistryView,
    channel: SocketAddr,
    remote: SocketAddr,
    now: u64,
    refresh: bool,
    other: SocketAddr,
)
    requires
        other != channel,
        !registry.info.dom().contains(channel),
    ensures
        ({
            let after = registry.upserted(channel, remote, now, refresh);
            let known = after.info[channel];
            &&& after.active.contains(channel)
            &&& after.active.contains(other) == registry.active.contains(other)
            &&& after.info.dom().contains(channel)
            &&& known.channel_id == channel
            &&& known.addresses.len() == 1
            &&& known.addresses[0].socket_addr == remote.canonical()
            &&& known.addresses[0].transport is Quic
            &&& known.addresses[0].owner is None
            &&& known.status == ConnectionStatus::Connected
            &&& known.connected_at == now
            &&& known.last_seen == now
            &&& known.protocols.len() == 0
            &&& known.heartbeat_count == 0
            &&& after.info.dom().contains(other) == registry.info.dom().contains(other)
            &&& after.info[other] == registry.info[other]
            &&& after.links == registry.links
            &&& after.agents == registry.agents
        }),
{
}

/// A known channel that comes up again is connected. It keeps every address in
/// its place and has the remote end among them, at the end where it is new; the
/// time since when it is connected changes only where that is asked for, and
/// nothing else of it does.
pub proof fn law_known_channels_keep_what_is_known(
    registry: RegistryView,
    channel: SocketAddr,
    remote: SocketAddr,
    now: u64,
    refresh: bool,
    other: SocketAddr,
)
    requires
        other != channel,
        registry.info.dom().contains(channel),
    ensures
        ({
            let after = registry.upserted(channel, remote, now, refresh);
            let before = registry.info[channel];
            let known = after.info[channel];
            let end = MultiAddr {
                socket_addr: remote.canonical(),
                transport: AddressTransport::Quic,
                owner: None,
            };
            &&& after.active.contains(channel)
            &&& after.active.contains(other) == registry.active.contains(other)
            &&& after.info.dom() == registry.info.dom()
            &&& after.info[other] == registry.info[other]
            &&& known.status == ConnectionStatus::Connected
            &&& refresh ==> known.connected_at == now
            &&& !refresh ==> known.connected_at == before.connected_at
            &&& before.addresses.is_prefix_of(known.addresses)
            &&& known.addresses.contains(end)
            &&& before.addresses.contains(end) ==> known.addresses == before.addresses
            &&& !before.addresses.contains(end) ==> known.addresses.len() == before.addresses.len()
                + 1
            &&& known == (InfoView {
                status: known.status,
                connected_at: known.connected_at,
                addresses: known.addresses,
                ..before
            })
            &&& after.links == registry.links
            &&& after.agents == registry.agents
        }),
{
    let after = registry.upserted(channel, remote, now, refresh);
    let addresses = after.info[channel].addresses;
    assert(after.info.dom() =~= registry.info.dom());
    if addresses != registry.info[channel].addresses {
        assert(addresses[addresses.len() - 1] == addresses.last());
    }
}

/// A registration links the peer to the channel and no other pair. The software
/// that a peer names is kept from its first registration as long as it is reached.
pub proof fn law_registrations_add_one_link(
    registry: RegistryView,
    peer: Seq<u8>,
    channel: SocketAddr,
    remote: SocketAddr,
    agent: Seq<char>,
    now: u64,
    other_peer: Seq<u8>,
    other: SocketAddr,
)
    ensures
        ({
            let after = registry.registered(peer, channel, remote, agent, now);
            &&& after.linked(other_peer, other) <==> registry.linked(other_peer, other) || (
            other_peer == peer && other == channel)
            &&& (forall|c: SocketAddr| !registry.linked(peer, c)) ==> after.agents.dom().contains(
                peer,
            ) && after.agents[peer] == agent
            &&& registry.linked(peer, other) ==> after.agents == registry.agents
            &&& other_peer != peer ==> after.agents.dom().contains(other_peer)
                == registry.agents.dom().contains(other_peer) && after.agents[other_peer]
                == registry.agents[other_peer]
            &&& after.active == registry.upserted(channel, remote, now, false).active
            &&& after.info == registry.upserted(channel, remote, now, false).info
        }),
{
    if forall|c: SocketAddr| !registry.linked(peer, c) {
        assert(!registry.connected(peer));
    }
    if registry.linked(peer, other) {
        assert(registry.connected(peer));
    }
}

/// A channel that is gone is neither active nor known and serves nobody; every
/// other channel stays as it is, with its peers. The software of a peer is
/// forgotten exactly where this was its last channel.
pub proof fn law_lost_channels_take_only_their_links(
    registry: RegistryView,
    channel: SocketAddr,
    peer: Seq<u8>,
    other: SocketAddr,
)
    requires
        other != channel,
    ensures
        ({
            let after = registry.without_channel(channel);
            &&& !after.active.contains(channel)
            &&& !after.info.dom().contains(channel)
            &&& !after.linked(peer, channel)
            &&& after.active.contains(other) == registry.active.contains(other)
            &&& after.info.dom().contains(other) == registry.info.dom().contains(other)
            &&& after.info[other] == registry.info[other]
            &&& after.linked(peer, other) == registry.linked(peer, other)
            &&& registry.linked(peer, channel) && (forall|c: SocketAddr| #[trigger]
                registry.linked(peer, c) ==> c == channel) ==> !after.agents.dom().contains(peer)
            &&& registry.linked(peer, other) || !registry.linked(peer, channel)
                ==> after.agents.dom().contains(peer) == registry.agents.dom().contains(peer)
            &&& after.agents.dom().contains(peer) ==> after.agents[peer] == registry.agents[peer]
        }),
{
}

/// The peers can be taken off a channel that stays up and known.
pub proof fn law_unlinked_channels_stay_up(
    registry: RegistryView,
    channel: SocketAddr,
    peer: Seq<u8>,
    other: SocketAddr,
)
    ensures
        registry.unlinked(channel).active == registry.active,
        registry.unlinked(channel).info == registry.info,
        registry.unlinked(channel).linked(peer, other) <==> registry.linked(peer, other) && other
            != channel,
        registry.unlinked(channel).agents == registry.without_channel(channel).agents,
{
}

/// A peer that is let go is reached no more and its software is forgotten. Its
/// channels go with it where they served nobody else, and every other channel
/// stays, those that serve nobody too. A peer that is not reached changes nothing.
pub proof fn law_releases_close_only_private_channels(
    registry: RegistryView,
    peer: Seq<u8>,
    channel: SocketAddr,
    other: Seq<u8>,
)
    requires
        other != peer,
    ensures
        ({
            let after = registry.without_peer(peer);
            &&& !after.linked(peer, channel)
            &&& after.linked(other, channel) == registry.linked(other, channel)
            &&& (forall|c: SocketAddr| !registry.linked(peer, c)) ==> after == registry
            &&& registry.linked(peer, channel) ==> !after.agents.dom().contains(peer)
            &&& after.agents.dom().contains(other) == registry.agents.dom().contains(other)
            &&& after.agents[other] == registry.agents[other]
            &&& registry.linked(peer, channel) && (forall|p: Seq<u8>| #[trigger]
                registry.linked(p, channel) ==> p == peer) ==> !after.active.contains(channel)
                && !after.info.dom().contains(channel)
            &&& !registry.linked(peer, channel) || registry.linked(other, channel)
                ==> after.active.contains(channel) == registry.active.contains(channel)
                && after.info.dom().contains(channel) == registry.info.dom().contains(channel)
            &&& after.info.dom().contains(channel) ==> after.info[channel] == registry.info[channel]
        }),
{
    if forall|c: SocketAddr| !registry.linked(peer, c) {
        assert(!registry.connected(peer));
    }
    if registry.linked(peer, channel) {
        assert(registry.connected(peer));
    }
}

/// Letting go of several peers reaches none of them any more, takes the channels
/// that served them alone, and leaves the channels of every other peer.
pub proof fn law_group_releases_leave_the_rest(
    registry: RegistryView,
    peers: Set<Seq<u8>>,
    peer: Seq<u8>,
    channel: SocketAddr,
)
    ensures
        ({
            let after = registry.without_peers(peers);
            &&& after.linked(peer, channel) <==> registry.linked(peer, channel) && !peers.contains(
                peer,
            )
            &&& registry.linked(peer, channel) && !peers.contains(peer) ==> after.active.contains(
                channel,
            ) == registry.active.contains(channel) && after.info.dom().contains(channel)
                == registry.info.dom().contains(channel)
            &&& registry.linked(peer, channel) && (forall|p: Seq<u8>| #[trigger]
                registry.linked(p, channel) ==> peers.contains(p)) ==> !after.active.contains(
                channel,
            ) && !after.info.dom().contains(channel)
            &&& (forall|p: Seq<u8>| !registry.linked(p, channel)) ==> after.active.contains(channel)
                == registry.active.contains(channel) && after.info.dom().contains(channel)
                == registry.info.dom().contains(channel)
            &&& !peers.contains(peer) ==> after.agents.dom().contains(peer)
                == registry.agents.dom().contains(peer)
            &&& peers.contains(peer) && registry.linked(peer, channel)
                ==> !after.agents.dom().contains(peer)
        }),
{
    if registry.linked(peer, channel) {
        assert(registry.connected(peer));
        assert(registry.occupied(channel));
    }
    if forall|p: Seq<u8>| !registry.linked(p, channel) {
        assert(!registry.occupied(channel));
    }
}

/// One arrival adds one and one departure takes one off, for its peer alone; the
/// last departure leaves no count, and a departure undoes an arrival.
pub proof fn law_counts_go_up_and_down(
    counts: Map<Seq<u8>, usize>,
    peer: Seq<u8>,
    other: Seq<u8>,
)
    requires
        counts.dom().contains(peer) ==> 0 < counts[peer] < usize::MAX,
        other != peer,
    ensures
        arrived(counts, peer).dom().contains(peer),
        counts.dom().contains(peer) ==> arrived(counts, peer)[peer] == counts[peer] + 1,
        !counts.dom().contains(peer) ==> arrived(counts, peer)[peer] == 1,
        arrived(counts, peer).dom().contains(other) == counts.dom().contains(other),
        arrived(counts, peer)[other] == counts[other],
        counts.dom().contains(peer) && counts[peer] == 1 ==> !departed(
            counts,
            set![peer],
        ).dom().contains(peer),
        counts.dom().contains(peer) && counts[peer] > 1 ==> departed(
            counts,
            set![peer],
        ).dom().contains(peer) && departed(counts, set![peer])[peer] == counts[peer] - 1,
        departed(counts, set![peer]).dom().contains(other) == counts.dom().contains(other),
        counts.dom().contains(other) ==> departed(counts, set![peer])[other] == counts[other],
        departed(arrived(counts, peer), set![peer]) == counts,
        doubly_reached(arrived(counts, peer), peer) <==> counts.dom().contains(peer),
{
    assert(departed(arrived(counts, peer), set![peer]) =~= counts);
}

/// A channel that was dialed is up and known anew at the address that was asked
/// for, connected and seen now, with the one protocol of channels.
pub proof fn law_dialed_channels_start_anew(
    registry: RegistryView,
    channel: SocketAddr,
    address: MultiAddr,
    now: u64,
    other: SocketAddr,
)
    requires
        other != channel,
    ensures
        ({
            let after = registry.dialed(channel, address, now);
            let known = after.info[channel];
            &&& after.active.contains(channel)
            &&& after.active.contains(other) == registry.active.contains(other)
            &&& after.info.dom().contains(channel)
            &&& known.channel_id == channel
            &&& known.addresses == seq![address]
            &&& known.status == ConnectionStatus::Connected
            &&& known.connected_at == now && known.last_seen == now
            &&& known.protocols == seq![CHANNEL_PROTOCOL@]
            &&& known.heartbeat_count == 0
            &&& after.info.dom().contains(other) == registry.info.dom().contains(other)
            &&& after.info[other] == registry.info[other]
            &&& after.links == registry.links
            &&& after.agents == registry.agents
        }),
{
}

/// Before something is sent on it, a channel is known, and is up unless another
/// transport has it up; what was known of it stays. A failed send leaves a channel
/// known, with its peers, but not up.
pub proof fn law_sends_know_their_channel(
    registry: RegistryView,
    channel: SocketAddr,
    active_elsewhere: bool,
    now: u64,
    other: SocketAddr,
)
    requires
        other != channel,
    ensures
        ({
            let ready = registry.readied(channel, active_elsewhere, now);
            &&& ready.info.dom().contains(channel)
            &&& registry.info.dom().contains(channel) ==> ready.info == registry.info
            &&& !registry.info.dom().contains(channel) ==> {
                let known = ready.info[channel];
                &&& known.channel_id == channel
                &&& known.addresses.len() == 1
                &&& known.addresses[0].socket_addr == channel
                &&& known.addresses[0].transport is Quic
                &&& known.addresses[0].owner is None
                &&& known.status == ConnectionStatus::Connected
                &&& known.connected_at == now && known.last_seen == now
                &&& known.protocols.len() == 0
            }
            &&& ready.info.dom().contains(other) == registry.info.dom().contains(other)
            &&& ready.info[other] == registry.info[other]
            &&& !active_elsewhere ==> ready.active.contains(channel)
            &&& active_elsewhere ==> ready.active == registry.active
            &&& ready.active.contains(other) == registry.active.contains(other)
            &&& ready.links == registry.links && ready.agents == registry.agents
        }),
        ({
            let failed = registry.silenced(channel);
            &&& !failed.active.contains(channel)
            &&& failed.active.contains(other) == registry.active.contains(other)
            &&& failed.info == registry.info
            &&& failed.links == registry.links
            &&& failed.agents == registry.agents
        }),
{
}

/// What is told of a peer is what is known of a channel over which it is reached,
/// and nothing is told only of a peer that is not reached or is reached over a
/// channel of which nothing is known.
pub proof fn law_peers_are_told_by_their_channels(
    registry: RegistryView,
    peer: Seq<u8>,
    channel: SocketAddr,
    known: InfoView,
)
    ensures
        registry.linked(peer, channel) && registry.info.dom().contains(channel) ==> registry.tells(
            peer,
            registry.info[channel],
        ),
        registry.tells(peer, known) ==> exists|c: SocketAddr| #[trigger]
            registry.links.contains((peer, c)) && registry.info.dom().contains(c)
                && registry.info[c] == known,
        registry.linked(peer, channel) && registry.is_silent(peer) ==> exists|c: SocketAddr|
            #[trigger] registry.links.contains((peer, c)) && !registry.info.dom().contains(c),
        (forall|c: SocketAddr| !registry.linked(peer, c)) ==> registry.is_silent(peer)
            && !registry.tells(peer, known),
{
    if registry.linked(peer, channel) {
        assert(registry.connected(peer));
    }
    if registry.tells(peer, known) {
        let c = choose|c: SocketAddr| #[trigger]
            registry.linked(peer, c) && registry.info.dom().contains(c) && known
                == registry.info[c];
        assert(registry.links.contains((peer, c)));
    }
    if registry.linked(peer, channel) && registry.is_silent(peer) {
        let c = choose|c: SocketAddr| #[trigger]
            registry.linked(peer, c) && !registry.info.dom().contains(c);
        assert(registry.links.contains((peer, c)));
    }
    if forall|c: SocketAddr| !registry.linked(peer, c) {
        assert(!registry.connected(peer));
    }
}

} // verus!
