//! What holds of channels and peers as a whole, whatever happens to them.

use crate::address::SocketAddr;
use crate::peer_id::PeerId;
use crate::transport::registry::{
    arrived, departed, dependents, doubly_reached, left_behind, lost_with, newly_reached,
    ConnectionStatus, RegistryView,
};
use vstd::prelude::*;

verus! {

/// Whether the counts are right for two transports: one for each transport on
/// which a peer is reached.
pub open spec fn counted(
    left: RegistryView,
    right: RegistryView,
    counts: Map<Seq<u8>, usize>,
) -> bool {
    forall|peer: Seq<u8>|
        #![trigger counts.dom().contains(peer)]
        #![trigger counts[peer]]
        {
            &&& counts.dom().contains(peer) <==> left.connected(peer) || right.connected(peer)
            &&& left.connected(peer) && right.connected(peer) ==> counts[peer] == 2
            &&& left.connected(peer) != right.connected(peer) ==> counts[peer] == 1
        }
}

/// Whether what is known of channels and peers fits together: every channel
/// that serves a peer is known, and the software is known of exactly the peers
/// that are reached.
pub open spec fn coherent(registry: RegistryView) -> bool {
    &&& forall|peer: Seq<u8>, channel: SocketAddr| #[trigger]
        registry.linked(peer, channel) ==> registry.info.dom().contains(channel)
    &&& forall|peer: Seq<u8>| #[trigger]
        registry.agents.dom().contains(peer) <==> registry.connected(peer)
}

proof fn lemma_registered_connections(
    registry: RegistryView,
    peer: Seq<u8>,
    channel: SocketAddr,
    remote: SocketAddr,
    agent: Seq<char>,
    now: u64,
)
    ensures
        forall|other: Seq<u8>| #[trigger]
            registry.registered(peer, channel, remote, agent, now).connected(other) == (
            registry.connected(other) || other == peer),
{
    let after = registry.registered(peer, channel, remote, agent, now);
    assert forall|other: Seq<u8>| #[trigger] after.connected(other) == (registry.connected(other)
        || other == peer) by {
        if registry.connected(other) {
            let c = choose|c: SocketAddr| registry.linked(other, c);
            assert(after.linked(other, c));
        }
        if other == peer {
            assert(after.linked(other, channel));
        }
        if after.connected(other) && other != peer {
            let c = choose|c: SocketAddr| after.linked(other, c);
            assert(registry.linked(other, c));
        }
    }
}

proof fn lemma_removed_connections(registry: RegistryView, channel: SocketAddr)
    ensures
        forall|peer: Seq<u8>| #[trigger]
            registry.without_channel(channel).connected(peer) == (registry.connected(peer)
                && !registry.depends_on(peer, channel)),
{
    let after = registry.without_channel(channel);
    assert forall|peer: Seq<u8>| #[trigger] after.connected(peer) == (registry.connected(peer)
        && !registry.depends_on(peer, channel)) by {
        if registry.connected(peer) && !registry.depends_on(peer, channel) {
            let some = choose|c: SocketAddr| registry.linked(peer, c);
            assert(registry.linked(peer, some));
            let other = if some != channel {
                some
            } else {
                choose|c: SocketAddr| #[trigger] registry.linked(peer, c) && c != channel
            };
            assert(registry.linked(peer, other) && other != channel);
            assert(after.linked(peer, other));
        }
        if after.connected(peer) {
            let c = choose|c: SocketAddr| after.linked(peer, c);
            assert(registry.linked(peer, c) && c != channel);
        }
    }
}

proof fn lemma_dropped_connections(registry: RegistryView, peer: Seq<u8>)
    ensures
        forall|other: Seq<u8>| #[trigger]
            registry.without_peer(peer).connected(other) == (registry.connected(other) && other
                != peer),
{
    let after = registry.without_peer(peer);
    assert forall|other: Seq<u8>| #[trigger] after.connected(other) == (registry.connected(other)
        && other != peer) by {
        if registry.connected(other) && other != peer {
            let c = choose|c: SocketAddr| registry.linked(other, c);
            assert(registry.linked(other, c));
            assert(after.linked(other, c));
        }
        if after.connected(other) {
            let c = choose|c: SocketAddr| after.linked(other, c);
            assert(after.linked(other, c));
            if registry.connected(peer) {
                assert(registry.linked(other, c));
            }
        }
    }
}

/// The news that a peer is reached comes exactly where it was reached on
/// neither transport, and the counts stay right.
pub proof fn law_connections_are_told_once(
    registry: RegistryView,
    other: RegistryView,
    counts: Map<Seq<u8>, usize>,
    peer: Seq<u8>,
    channel: SocketAddr,
    remote: SocketAddr,
    agent: Seq<char>,
    now: u64,
)
    requires
        counted(registry, other, counts),
    ensures
        newly_reached(registry, counts, peer) == (!registry.connected(peer) && !other.connected(
            peer,
        )),
        counted(
            registry.registered(peer, channel, remote, agent, now),
            other,
            if registry.connected(peer) {
                counts
            } else {
                arrived(counts, peer)
            },
        ),
{
    lemma_registered_connections(registry, peer, channel, remote, agent, now);
    let _trigger = counts.dom().contains(peer);
    let _trigger_count = counts[peer];
    let after = if registry.connected(peer) {
        counts
    } else {
        arrived(counts, peer)
    };
    let now_registry = registry.registered(peer, channel, remote, agent, now);
    assert forall|p: Seq<u8>|
        #![trigger after.dom().contains(p)]
        #![trigger after[p]]
        {
            &&& after.dom().contains(p) <==> now_registry.connected(p) || other.connected(p)
            &&& now_registry.connected(p) && other.connected(p) ==> after[p] == 2
            &&& now_registry.connected(p) != other.connected(p) ==> after[p] == 1
        } by {
        assert(counts.dom().contains(p) <==> registry.connected(p) || other.connected(p));
        assert(now_registry.connected(p) == (registry.connected(p) || p == peer));
    }
}

/// The news that a peer is lost with a channel comes exactly where it was
/// reached and now is on neither transport, and the counts stay right.
pub proof fn law_losses_are_told_once(
    registry: RegistryView,
    other: RegistryView,
    counts: Map<Seq<u8>, usize>,
    channel: SocketAddr,
    peer: Seq<u8>,
)
    requires
        counted(registry, other, counts),
    ensures
        (registry.depends_on(peer, channel) && !doubly_reached(counts, peer)) == (
        registry.connected(peer) && !registry.without_channel(channel).connected(peer)
            && !other.connected(peer)),
        counted(
            registry.without_channel(channel),
            other,
            departed(counts, dependents(registry, channel)),
        ),
{
    lemma_removed_connections(registry, channel);
    let after = departed(counts, dependents(registry, channel));
    let rest = registry.without_channel(channel);
    assert(rest.connected(peer) == (registry.connected(peer) && !registry.depends_on(
        peer,
        channel,
    )));
    assert(counts.dom().contains(peer) <==> registry.connected(peer) || other.connected(peer));
    if registry.depends_on(peer, channel) {
        assert(registry.linked(peer, channel));
    }
    assert forall|p: Seq<u8>|
        #![trigger after.dom().contains(p)]
        #![trigger after[p]]
        {
            &&& after.dom().contains(p) <==> rest.connected(p) || other.connected(p)
            &&& rest.connected(p) && other.connected(p) ==> after[p] == 2
            &&& rest.connected(p) != other.connected(p) ==> after[p] == 1
        } by {
        assert(counts.dom().contains(p) <==> registry.connected(p) || other.connected(p));
        assert(rest.connected(p) == (registry.connected(p) && !registry.depends_on(p, channel)));
        if registry.depends_on(p, channel) {
            assert(registry.linked(p, channel));
        }
    }
}

/// The news that a peer was let go comes exactly where it was reached and is
/// not on the other transport, and the counts stay right.
pub proof fn law_releases_are_told_once(
    registry: RegistryView,
    other: RegistryView,
    counts: Map<Seq<u8>, usize>,
    peer: Seq<u8>,
)
    requires
        counted(registry, other, counts),
    ensures
        left_behind(registry, counts, peer) == (registry.connected(peer) && !other.connected(
            peer,
        )),
        counted(
            registry.without_peer(peer),
            other,
            if registry.connected(peer) {
                departed(counts, set![peer])
            } else {
                counts
            },
        ),
{
    lemma_dropped_connections(registry, peer);
    assert(counts.dom().contains(peer) <==> registry.connected(peer) || other.connected(peer));
    let after = if registry.connected(peer) {
        departed(counts, set![peer])
    } else {
        counts
    };
    let rest = registry.without_peer(peer);
    assert forall|p: Seq<u8>|
        #![trigger after.dom().contains(p)]
        #![trigger after[p]]
        {
            &&& after.dom().contains(p) <==> rest.connected(p) || other.connected(p)
            &&& rest.connected(p) && other.connected(p) ==> after[p] == 2
            &&& rest.connected(p) != other.connected(p) ==> after[p] == 1
        } by {
        assert(counts.dom().contains(p) <==> registry.connected(p) || other.connected(p));
        assert(rest.connected(p) == (registry.connected(p) && p != peer));
    }
}

/// Whoever hears that a peer is reached finds a known channel to it that is up.
pub proof fn law_registered_peers_are_queryable(
    registry: RegistryView,
    peer: Seq<u8>,
    channel: SocketAddr,
    remote: SocketAddr,
    agent: Seq<char>,
    now: u64,
)
    ensures
        ({
            let after = registry.registered(peer, channel, remote, agent, now);
            &&& after.linked(peer, channel)
            &&& after.connected(peer)
            &&& after.active.contains(channel)
            &&& after.info.dom().contains(channel)
            &&& after.info[channel].status == ConnectionStatus::Connected
            &&& after.info[channel].addresses.contains(
                crate::transport::registry::remote_end(remote),
            )
        }),
{
    let after = registry.registered(peer, channel, remote, agent, now);
    assert(after.linked(peer, channel));
    let end = crate::transport::registry::remote_end(remote);
    let addresses = after.info[channel].addresses;
    if registry.info.dom().contains(channel) {
        if !registry.info[channel].addresses.contains(end) {
            assert(addresses[registry.info[channel].addresses.len() as int] == end);
        }
    } else {
        assert(addresses[0] == end);
    }
}

/// What is known of channels and peers fits together after every operation.
pub proof fn law_operations_keep_registries_coherent(
    registry: RegistryView,
    peer: Seq<u8>,
    channel: SocketAddr,
    remote: SocketAddr,
    agent: Seq<char>,
    now: u64,
    refresh: bool,
)
    requires
        coherent(registry),
    ensures
        coherent(RegistryView::empty()),
        coherent(registry.upserted(channel, remote, now, refresh)),
        coherent(registry.registered(peer, channel, remote, agent, now)),
        coherent(registry.without_channel(channel)),
        coherent(registry.without_peer(peer)),
{
    let none = RegistryView::empty();
    assert forall|p: Seq<u8>| #[trigger] none.agents.dom().contains(p) <==> none.connected(p) by {
        if none.connected(p) {
            let c = choose|c: SocketAddr| none.linked(p, c);
            assert(none.links.contains((p, c)));
        }
    }
    let up = registry.upserted(channel, remote, now, refresh);
    assert forall|p: Seq<u8>, c: SocketAddr| #[trigger] up.linked(p, c) implies up.info.dom().contains(
        c,
    ) by {
        assert(registry.linked(p, c));
    }
    assert forall|p: Seq<u8>| #[trigger] up.agents.dom().contains(p) <==> up.connected(p) by {
        assert(registry.agents.dom().contains(p) <==> registry.connected(p));
        if registry.connected(p) {
            let c = choose|c: SocketAddr| registry.linked(p, c);
            assert(up.linked(p, c));
        }
        if up.connected(p) {
            let c = choose|c: SocketAddr| up.linked(p, c);
            assert(registry.linked(p, c));
        }
    }
    let reg = registry.registered(peer, channel, remote, agent, now);
    lemma_registered_connections(registry, peer, channel, remote, agent, now);
    assert forall|p: Seq<u8>, c: SocketAddr| #[trigger]
        reg.linked(p, c) implies reg.info.dom().contains(c) by {
        if c != channel {
            assert(registry.linked(p, c));
        }
    }
    assert forall|p: Seq<u8>| #[trigger] reg.agents.dom().contains(p) <==> reg.connected(p) by {
        assert(registry.agents.dom().contains(p) <==> registry.connected(p));
        assert(reg.connected(p) == (registry.connected(p) || p == peer));
    }
    let cut = registry.without_channel(channel);
    lemma_removed_connections(registry, channel);
    assert forall|p: Seq<u8>, c: SocketAddr| #[trigger]
        cut.linked(p, c) implies cut.info.dom().contains(c) by {
        assert(registry.linked(p, c) && c != channel);
    }
    assert forall|p: Seq<u8>| #[trigger] cut.agents.dom().contains(p) <==> cut.connected(p) by {
        assert(registry.agents.dom().contains(p) <==> registry.connected(p));
        assert(cut.connected(p) == (registry.connected(p) && !registry.depends_on(p, channel)));
    }
    let rest = registry.without_peer(peer);
    lemma_dropped_connections(registry, peer);
    assert forall|p: Seq<u8>, c: SocketAddr| #[trigger]
        rest.linked(p, c) implies rest.info.dom().contains(c) by {
        assert(registry.linked(p, c));
        if registry.connected(peer) {
            assert(p != peer);
            assert(!registry.serves_only(c, peer));
        }
    }
    assert forall|p: Seq<u8>| #[trigger] rest.agents.dom().contains(p) <==> rest.connected(p) by {
        assert(registry.agents.dom().contains(p) <==> registry.connected(p));
        assert(rest.connected(p) == (registry.connected(p) && p != peer));
    }
}

/// Letting go of a peer leaves every other peer with all of its channels.
pub proof fn law_releases_leave_others_alone(
    registry: RegistryView,
    peer: Seq<u8>,
    other: Seq<u8>,
    channel: SocketAddr,
)
    requires
        other != peer,
    ensures
        registry.without_peer(peer).linked(other, channel) == registry.linked(other, channel),
        registry.linked(other, channel) ==> registry.without_peer(peer).active.contains(channel)
            == registry.active.contains(channel),
        registry.linked(other, channel) ==> registry.without_peer(peer).info.dom().contains(
            channel,
        ) == registry.info.dom().contains(channel),
{
    if registry.linked(other, channel) {
        assert(!registry.serves_only(channel, peer));
    }
}

/// The loss of a channel undoes the registration of a new peer on it.
pub proof fn law_loss_undoes_registration(
    registry: RegistryView,
    peer: Seq<u8>,
    channel: SocketAddr,
    remote: SocketAddr,
    agent: Seq<char>,
    now: u64,
)
    requires
        !registry.connected(peer),
        !registry.agents.dom().contains(peer),
        !registry.occupied(channel),
        !registry.active.contains(channel),
        !registry.info.dom().contains(channel),
    ensures
        registry.registered(peer, channel, remote, agent, now).without_channel(channel) == registry,
{
    let up = registry.registered(peer, channel, remote, agent, now);
    let back = up.without_channel(channel);
    assert(back.active =~= registry.active);
    assert(back.info =~= registry.info);
    assert(back.links =~= registry.links) by {
        assert forall|link: (Seq<u8>, SocketAddr)| #[trigger] back.links.contains(link)
            == registry.links.contains(link) by {
            if registry.links.contains(link) {
                assert(registry.linked(link.0, link.1));
                assert(link.1 != channel);
            }
        }
    }
    assert(back.agents =~= registry.agents) by {
        assert forall|p: Seq<u8>| #[trigger] back.agents.dom().contains(p)
            == registry.agents.dom().contains(p) by {
            if p == peer {
                assert(up.linked(peer, channel));
                assert forall|c: SocketAddr| #[trigger] up.linked(peer, c) implies c == channel by {
                    if c != channel {
                        assert(registry.linked(peer, c));
                    }
                }
                assert(up.depends_on(peer, channel));
            } else {
                if up.linked(p, channel) {
                    assert(registry.linked(p, channel));
                }
                assert(!up.depends_on(p, channel));
            }
        }
    }
    assert(back =~= registry);
}

/// The peers that are named as lost with a channel are those that were reached
/// and now are on neither transport, each once.
pub proof fn law_lost_peers_are_named_once(
    registry: RegistryView,
    other: RegistryView,
    counts: Map<Seq<u8>, usize>,
    channel: SocketAddr,
    lost: Seq<PeerId>,
    peer: PeerId,
)
    requires
        counted(registry, other, counts),
        lost_with(registry, counts, channel, lost),
    ensures
        lost.contains(peer) <==> registry.connected(peer@) && !registry.without_channel(
            channel,
        ).connected(peer@) && !other.connected(peer@),
        lost.no_duplicates(),
{
    law_losses_are_told_once(registry, other, counts, channel, peer@);
}

} // verus!
