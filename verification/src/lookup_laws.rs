//! What holds of a lookup over many calls.

use crate::dht_lookup::{
    admits, follows, in_state, LookupCall, LookupNode, LookupPeerState, LookupView,
};
use crate::keys::{distance, is_closest, lemma_distance_injective};
use vstd::prelude::*;

verus! {

/// Whether calls lead through some states of a lookup, one after the other.
pub open spec fn is_history<N: LookupNode>(
    states: Seq<LookupView<N>>,
    calls: Seq<LookupCall<N>>,
) -> bool {
    &&& states.len() == calls.len() + 1
    &&& forall|i: int| 0 <= i < states.len() ==> (#[trigger] states[i]).well_formed()
    &&& forall|i: int|
        0 <= i < calls.len() ==> follows(states[i], #[trigger] calls[i], states[i + 1])
}

/// Whether a call makes a peer a known result.
pub open spec fn makes_known<N: LookupNode>(call: LookupCall<N>, peer: Seq<u8>) -> bool {
    call matches LookupCall::KnownResult(node) && node.peer_key()@ == peer
}

proof fn lemma_final_state_stays<N: LookupNode>(
    before: LookupView<N>,
    call: LookupCall<N>,
    after: LookupView<N>,
    peer: Seq<u8>,
    state: LookupPeerState,
)
    requires
        follows(before, call, after),
        in_state(before.states, peer, state),
        state != LookupPeerState::Waiting,
        !makes_known(call, peer),
    ensures
        in_state(after.states, peer, state),
{
    assert(!before.is_waiting(peer));
}

/// A peer whose query failed stays failed for good, unless it is made a known
/// result: it is not contactable, is in no list of results, is not queued again,
/// is not queried again, and no other outcome can be recorded for it.
pub proof fn law_failed_peers_stay_failed<N: LookupNode>(
    states: Seq<LookupView<N>>,
    calls: Seq<LookupCall<N>>,
    peer: Seq<u8>,
    at: int,
    later: int,
)
    requires
        is_history(states, calls),
        0 <= at <= later < states.len(),
        in_state(states[at].states, peer, LookupPeerState::Failed),
        forall|i: int| at <= i < later ==> !makes_known(#[trigger] calls[i], peer),
    ensures
        in_state(states[later].states, peer, LookupPeerState::Failed),
        states[later].states.dom().contains(peer),
        !states[later].is_waiting(peer),
        !states[later].may_mark(peer),
        forall|results: Seq<Seq<u8>>|
            is_closest(
                results,
                states[later].peers_in(LookupPeerState::Succeeded),
                states[later].target,
                states[later].config.count as nat,
            ) ==> !#[trigger] results.contains(peer),
        forall|node: N, after: LookupView<N>|
            node.peer_key()@ == peer && #[trigger] follows(
                states[later],
                LookupCall::Candidate(node),
                after,
            ) ==> after == states[later],
    decreases later - at,
{
    if later > at {
        law_failed_peers_stay_failed(states, calls, peer, at, later - 1);
        assert(follows(states[later - 1], calls[later - 1], states[later - 1 + 1]));
        lemma_final_state_stays(
            states[later - 1],
            calls[later - 1],
            states[later],
            peer,
            LookupPeerState::Failed,
        );
    }
    let succeeded = states[later].peers_in(LookupPeerState::Succeeded);
    assert(!succeeded.contains(peer));
    assert forall|results: Seq<Seq<u8>>|
        is_closest(
            results,
            succeeded,
            states[later].target,
            states[later].config.count as nat,
        ) implies !#[trigger] results.contains(peer) by {
        if results.contains(peer) {
            let i = results.index_of(peer);
            assert(succeeded.contains(results[i]));
        }
    }
}

/// The peers for which a query was put in flight, in order.
pub open spec fn marked_peers<N: LookupNode>(
    states: Seq<LookupView<N>>,
    calls: Seq<LookupCall<N>>,
) -> Seq<Seq<u8>>
    decreases calls.len(),
{
    if calls.len() == 0 {
        Seq::empty()
    } else {
        let earlier = marked_peers(states, calls.drop_last());
        match calls.last() {
            LookupCall::MarkWaiting(node) => if states[calls.len() - 1].may_mark(
                node.peer_key()@,
            ) {
                earlier.push(node.peer_key()@)
            } else {
                earlier
            },
            _ => earlier,
        }
    }
}

proof fn lemma_one_query<N: LookupNode>(
    before: LookupView<N>,
    call: LookupCall<N>,
    after: LookupView<N>,
)
    requires
        follows(before, call, after),
    ensures
        after.queried == match call {
            LookupCall::MarkWaiting(node) => if before.may_mark(node.peer_key()@) {
                before.queried.push(node.peer_key()@)
            } else {
                before.queried
            },
            _ => before.queried,
        },
{
}

proof fn lemma_shorter_history<N: LookupNode>(
    states: Seq<LookupView<N>>,
    calls: Seq<LookupCall<N>>,
)
    requires
        is_history(states, calls),
        calls.len() > 0,
    ensures
        is_history(states.drop_last(), calls.drop_last()),
        follows(states[calls.len() - 1], calls.last(), states[calls.len() as int]),
{
    let earlier = states.drop_last();
    let fewer = calls.drop_last();
    assert forall|i: int| 0 <= i < earlier.len() implies (#[trigger] earlier[i]).well_formed() by {
        assert(states[i].well_formed());
    }
    assert forall|i: int| 0 <= i < fewer.len() implies follows(
        earlier[i],
        #[trigger] fewer[i],
        earlier[i + 1],
    ) by {
        assert(follows(states[i], calls[i], states[i + 1]));
    }
    assert(follows(
        states[calls.len() - 1],
        calls[calls.len() - 1],
        states[calls.len() - 1 + 1],
    ));
}

proof fn lemma_marked_of_prefix<N: LookupNode>(
    states: Seq<LookupView<N>>,
    longer: Seq<LookupView<N>>,
    calls: Seq<LookupCall<N>>,
)
    requires
        states.len() >= calls.len(),
        longer.len() >= states.len(),
        forall|i: int| 0 <= i < states.len() ==> states[i] == #[trigger] longer[i],
    ensures
        marked_peers(states, calls) == marked_peers(longer, calls),
    decreases calls.len(),
{
    if calls.len() > 0 {
        lemma_marked_of_prefix(states, longer, calls.drop_last());
        assert(states[calls.len() - 1] == longer[calls.len() - 1]);
    }
}

/// The peers that were queried are those for which a query was put in flight, in
/// order.
pub proof fn law_queried_peers_are_those_marked<N: LookupNode>(
    states: Seq<LookupView<N>>,
    calls: Seq<LookupCall<N>>,
)
    requires
        is_history(states, calls),
    ensures
        states.last().queried == states[0].queried + marked_peers(states, calls),
    decreases calls.len(),
{
    if calls.len() == 0 {
        assert(states[0].queried + Seq::<Seq<u8>>::empty() =~= states[0].queried);
    } else {
        lemma_shorter_history(states, calls);
        let earlier = states.drop_last();
        law_queried_peers_are_those_marked(earlier, calls.drop_last());
        lemma_marked_of_prefix(earlier, states, calls.drop_last());
        lemma_one_query(states[calls.len() - 1], calls.last(), states[calls.len() as int]);
        let sofar = marked_peers(states, calls.drop_last());
        assert(earlier.last() == states[calls.len() - 1]);
        if let LookupCall::MarkWaiting(node) = calls.last() {
            assert((states[0].queried + sofar).push(node.peer_key()@) =~= states[0].queried
                + sofar.push(node.peer_key()@));
        }
    }
}

/// The list of queried peers only grows, at its end. It names no peer twice and
/// none without a state, and is no longer than the rounds that were begun allow.
pub proof fn law_queried_peers_only_grow<N: LookupNode>(
    states: Seq<LookupView<N>>,
    calls: Seq<LookupCall<N>>,
    at: int,
    later: int,
)
    requires
        is_history(states, calls),
        0 <= at <= later < states.len(),
    ensures
        states[at].queried.len() <= states[later].queried.len(),
        states[later].queried.take(states[at].queried.len() as int) == states[at].queried,
        states[later].queried.no_duplicates(),
        forall|i: int|
            0 <= i < states[later].queried.len() ==> states[later].states.dom().contains(
                #[trigger] states[later].queried[i],
            ),
        states[later].queried.len() <= states[later].config.alpha * states[later].iterations,
    decreases later - at,
{
    let last = states[later];
    assert(last.well_formed());
    assert forall|i: int| 0 <= i < last.queried.len() implies last.states.dom().contains(
        #[trigger] last.queried[i],
    ) by {
        assert(last.queried.to_set().contains(last.queried[i]));
    }
    assert(last.config.alpha * last.iterations >= 0) by (nonlinear_arith);
    if later > at {
        law_queried_peers_only_grow(states, calls, at, later - 1);
        assert(follows(states[later - 1], calls[later - 1], states[later - 1 + 1]));
        lemma_one_query(states[later - 1], calls[later - 1], states[later]);
        assert(last.queried.take(states[at].queried.len() as int) =~= states[at].queried) by {
            assert(states[later - 1].queried.take(states[at].queried.len() as int)
                == states[at].queried);
            assert forall|i: int| 0 <= i < states[at].queried.len() implies last.queried[i]
                == states[at].queried[i] by {
                assert(states[later - 1].queried.take(states[at].queried.len() as int)[i]
                    == states[later - 1].queried[i]);
            }
        }
    } else {
        assert(last.queried.take(last.queried.len() as int) =~= last.queried);
    }
}

/// Whether the queries in flight are those of the peers that wait.
pub open spec fn tracks_waiting<N: LookupNode>(lookup: LookupView<N>) -> bool {
    lookup.in_flight.dom() == lookup.peers_in(LookupPeerState::Waiting)
}

proof fn lemma_tracking_stays<N: LookupNode>(
    before: LookupView<N>,
    call: LookupCall<N>,
    after: LookupView<N>,
)
    requires
        before.well_formed(),
        after.well_formed(),
        follows(before, call, after),
        tracks_waiting(before),
        forall|peer: Seq<u8>| #[trigger] before.is_waiting(peer) ==> !makes_known(call, peer),
    ensures
        tracks_waiting(after),
{
    assert forall|peer: Seq<u8>| #[trigger]
        after.in_flight.dom().contains(peer) implies after.is_waiting(peer) by {
        assert(before.in_flight.dom().contains(peer) == before.peers_in(
            LookupPeerState::Waiting,
        ).contains(peer));
        assert(before.in_flight.dom().contains(peer) ==> before.is_waiting(peer));
    }
    assert forall|peer: Seq<u8>| #[trigger]
        after.is_waiting(peer) implies after.in_flight.dom().contains(peer) by {
        assert(in_state(after.states, peer, LookupPeerState::Waiting));
    }
    assert(after.in_flight.dom() =~= after.peers_in(LookupPeerState::Waiting));
}

/// The queries in flight, and so the peers that are listed as waiting, are those
/// of the peers in the waiting state, as long as no peer that waits is made a
/// known result.
pub proof fn law_waiting_peers_are_in_flight<N: LookupNode>(
    states: Seq<LookupView<N>>,
    calls: Seq<LookupCall<N>>,
)
    requires
        is_history(states, calls),
        tracks_waiting(states[0]),
        forall|i: int, peer: Seq<u8>|
            0 <= i < calls.len() && #[trigger] states[i].is_waiting(peer) ==> !makes_known(
                calls[i],
                peer,
            ),
    ensures
        states.last().in_flight.dom() == states.last().peers_in(LookupPeerState::Waiting),
    decreases calls.len(),
{
    if calls.len() > 0 {
        lemma_shorter_history(states, calls);
        let earlier = states.drop_last();
        let fewer = calls.drop_last();
        assert forall|i: int, peer: Seq<u8>|
            0 <= i < fewer.len() && #[trigger] earlier[i].is_waiting(peer) implies !makes_known(
            fewer[i],
            peer,
        ) by {
            assert(states[i].is_waiting(peer));
        }
        law_waiting_peers_are_in_flight(earlier, fewer);
        lemma_tracking_stays(states[calls.len() - 1], calls.last(), states[calls.len() as int]);
    }
}

/// The results are those of the peers in the succeeded state.
pub proof fn law_results_are_the_successes<N: LookupNode>(lookup: LookupView<N>)
    requires
        lookup.well_formed(),
    ensures
        lookup.successful.dom() == lookup.peers_in(LookupPeerState::Succeeded),
{
    assert(lookup.successful.dom() =~= lookup.peers_in(LookupPeerState::Succeeded));
}

/// The peers that some nodes stand for.
pub open spec fn peers_of<N: LookupNode>(nodes: Seq<N>) -> Set<Seq<u8>> {
    Set::new(|peer: Seq<u8>| stands_in(nodes, peer))
}

/// Whether a peer is that of one of some nodes.
pub open spec fn stands_in<N: LookupNode>(nodes: Seq<N>, peer: Seq<u8>) -> bool {
    exists|i: int| 0 <= i < nodes.len() && (#[trigger] nodes[i]).peer_key()@ == peer
}

/// The last of some nodes that stands for a peer.
pub open spec fn latest<N: LookupNode>(nodes: Seq<N>, peer: Seq<u8>) -> N
    recommends
        stands_in(nodes, peer),
    decreases nodes.len(),
{
    if nodes.len() <= 1 || nodes.last().peer_key()@ == peer {
        nodes.last()
    } else {
        latest(nodes.drop_last(), peer)
    }
}

/// The calls that offer some nodes to a lookup, one after the other.
pub open spec fn insertions<N>(nodes: Seq<N>) -> Seq<LookupCall<N>> {
    Seq::new(nodes.len(), |i: int| LookupCall::Candidate(nodes[i]))
}

/// Whether a set holds the members of another one that are closest to a target,
/// as many as fit.
pub open spec fn keeps_closest(
    kept: Set<Seq<u8>>,
    offered: Set<Seq<u8>>,
    target: Seq<u8>,
    room: nat,
) -> bool {
    &&& kept.subset_of(offered)
    &&& offered.finite()
    &&& kept.len() == if room < offered.len() { room } else { offered.len() }
    &&& forall|near: Seq<u8>, far: Seq<u8>|
        #[trigger] kept.contains(near) && #[trigger] offered.contains(far) && !kept.contains(far)
            ==> distance(near, target) < distance(far, target)
}

proof fn lemma_equal_sizes(inner: Set<Seq<u8>>, outer: Set<Seq<u8>>)
    requires
        outer.finite(),
        inner.subset_of(outer),
        inner.len() >= outer.len(),
    ensures
        inner == outer,
{
    vstd::set_lib::lemma_len_subset(inner, outer);
    vstd::set_lib::lemma_subset_equality(inner, outer);
}

/// A set keeps its closest members in one way only, however they were offered.
pub proof fn law_closest_are_unique(
    left: Set<Seq<u8>>,
    right: Set<Seq<u8>>,
    offered: Set<Seq<u8>>,
    target: Seq<u8>,
    room: nat,
)
    requires
        keeps_closest(left, offered, target, room),
        keeps_closest(right, offered, target, room),
    ensures
        left == right,
{
    vstd::set_lib::lemma_len_subset(left, offered);
    vstd::set_lib::lemma_len_subset(right, offered);
    if left.subset_of(right) {
        lemma_equal_sizes(left, right);
    } else if right.subset_of(left) {
        lemma_equal_sizes(right, left);
    } else {
        let a = choose|a: Seq<u8>| #[trigger] left.contains(a) && !right.contains(a);
        let b = choose|b: Seq<u8>| #[trigger] right.contains(b) && !left.contains(b);
        assert(left.contains(a) && !right.contains(a));
        assert(right.contains(b) && !left.contains(b));
        assert(offered.contains(a) && offered.contains(b));
        assert(distance(a, target) < distance(b, target));
        assert(distance(b, target) < distance(a, target));
    }
}

proof fn lemma_offered_grows<N: LookupNode>(nodes: Seq<N>)
    requires
        nodes.len() > 0,
    ensures
        peers_of(nodes) == peers_of(nodes.drop_last()).insert(nodes.last().peer_key()@),
{
    let earlier = nodes.drop_last();
    let key = nodes.last().peer_key()@;
    assert forall|peer: Seq<u8>| stands_in(nodes, peer) <==> (stands_in(earlier, peer) || peer
        == key) by {
        if stands_in(nodes, peer) {
            let i = choose|i: int| 0 <= i < nodes.len() && (#[trigger] nodes[i]).peer_key()@ == peer;
            if i < nodes.len() - 1 {
                assert(earlier[i].peer_key()@ == peer);
            }
        }
        if stands_in(earlier, peer) {
            let i = choose|i: int|
                0 <= i < earlier.len() && (#[trigger] earlier[i]).peer_key()@ == peer;
            assert(nodes[i].peer_key()@ == peer);
        }
        if peer == key {
            assert(nodes[nodes.len() - 1].peer_key()@ == peer);
        }
    }
    assert(peers_of(nodes) =~= peers_of(earlier).insert(key));
}

proof fn lemma_latest<N: LookupNode>(nodes: Seq<N>, peer: Seq<u8>)
    requires
        nodes.len() > 0,
        nodes.last().peer_key()@ != peer,
        stands_in(nodes.drop_last(), peer),
    ensures
        latest(nodes, peer) == latest(nodes.drop_last(), peer),
{
    let i = choose|i: int|
        0 <= i < nodes.drop_last().len() && (#[trigger] nodes.drop_last()[i]).peer_key()@ == peer;
    assert(nodes.len() > 1);
}

/// Whether a queue holds, of some nodes, those of the closest peers, each in the
/// form in which it was offered last.
pub open spec fn queues_closest<N: LookupNode>(lookup: LookupView<N>, nodes: Seq<N>) -> bool {
    &&& keeps_closest(
        lookup.candidates.dom(),
        peers_of(nodes),
        lookup.target,
        lookup.config.max_candidates as nat,
    )
    &&& forall|peer: Seq<u8>| #[trigger]
        lookup.candidates.dom().contains(peer) ==> lookup.candidates[peer] == latest(nodes, peer)
}

proof fn lemma_insertion_keeps_closest<N: LookupNode>(
    before: LookupView<N>,
    nodes: Seq<N>,
    after: LookupView<N>,
)
    requires
        nodes.len() > 0,
        before.well_formed(),
        after.well_formed(),
        before.states.dom() == Set::<Seq<u8>>::empty(),
        queues_closest(before, nodes.drop_last()),
        follows(before, LookupCall::Candidate(nodes.last()), after),
    ensures
        queues_closest(after, nodes),
{
    let node = nodes.last();
    let peer = node.peer_key()@;
    let earlier = nodes.drop_last();
    let offered = peers_of(earlier);
    let kept = before.candidates.dom();
    let target = before.target;
    let room = before.config.max_candidates as nat;
    lemma_offered_grows(nodes);
    vstd::set_lib::lemma_len_subset(kept, offered);
    assert forall|k: Seq<u8>| #[trigger] kept.contains(k) && k != peer implies latest(nodes, k)
        == latest(earlier, k) by {
        assert(offered.contains(k));
        lemma_latest(nodes, k);
    }
    assert(latest(nodes, peer) == node);
    assert forall|k: Seq<u8>| #[trigger] kept.contains(k) && distance(k, target) == distance(
        peer,
        target,
    ) implies k == peer by {
        assert(before.candidates[k].peer_key()@ == k);
        lemma_distance_injective(k, peer, target);
    }
    if kept.contains(peer) {
        assert(offered.contains(peer));
        assert(offered.insert(peer) =~= offered);
        assert(after.candidates.dom() =~= kept);
    } else if kept.len() < room {
        lemma_equal_sizes(kept, offered);
        assert(after.candidates.dom() =~= kept.insert(peer));
    } else if forall|k: Seq<u8>| #[trigger]
        kept.contains(k) ==> distance(k, target) <= distance(peer, target) {
        assert(after == before);
        if offered.contains(peer) {
            assert(offered.insert(peer) =~= offered);
        }
    } else {
        let far = choose|far: Seq<u8>| #[trigger] admits(before, node, after, Some(far));
        assert(before.farthest(far));
        let nearer = choose|k: Seq<u8>| #[trigger]
            kept.contains(k) && distance(k, target) > distance(peer, target);
        assert(kept.contains(nearer));
        if offered.contains(peer) {
            assert(distance(nearer, target) < distance(peer, target));
        }
        assert(after.candidates.dom() =~= kept.remove(far).insert(peer));
        let later = after.candidates.dom();
        assert forall|near: Seq<u8>, out: Seq<u8>|
            #[trigger] later.contains(near) && #[trigger] peers_of(nodes).contains(out)
                && !later.contains(out) implies distance(near, target) < distance(out, target) by {
            if near != peer {
                assert(kept.contains(near));
                if distance(near, target) == distance(far, target) {
                    assert(before.candidates[near].peer_key()@ == near);
                    assert(before.candidates[far].peer_key()@ == far);
                    lemma_distance_injective(near, far, target);
                }
            }
            if out != far {
                assert(offered.contains(out) && !kept.contains(out));
                assert(distance(far, target) < distance(out, target));
            }
        }
        assert(later.len() == kept.len());
    }
}

/// Offering nodes to a lookup without any contacted peer keeps the closest peers
/// among them, as many as the queue has room for, each in the form in which it was
/// offered last.
pub proof fn law_insertions_keep_the_closest<N: LookupNode>(
    states: Seq<LookupView<N>>,
    nodes: Seq<N>,
)
    requires
        is_history(states, insertions(nodes)),
        states[0].states.dom() == Set::<Seq<u8>>::empty(),
        states[0].candidates.dom() == Set::<Seq<u8>>::empty(),
    ensures
        queues_closest(states.last(), nodes),
        states.last().states.dom() == Set::<Seq<u8>>::empty(),
        states.last().target == states[0].target,
        states.last().config == states[0].config,
    decreases nodes.len(),
{
    let calls = insertions(nodes);
    if nodes.len() == 0 {
        assert(peers_of(nodes) =~= Set::<Seq<u8>>::empty());
    } else {
        lemma_shorter_history(states, calls);
        assert(calls.drop_last() =~= insertions(nodes.drop_last()));
        law_insertions_keep_the_closest(states.drop_last(), nodes.drop_last());
        assert(states.drop_last().last() == states[calls.len() - 1]);
        lemma_insertion_keeps_closest(states[calls.len() - 1], nodes, states[calls.len() as int]);
    }
}

/// Which peers are kept does not depend on the order of the offers: two lookups
/// with one target and one limit that are offered the same peers keep the same
/// ones.
pub proof fn law_insertion_order_does_not_matter<N: LookupNode>(
    left: Seq<LookupView<N>>,
    left_nodes: Seq<N>,
    right: Seq<LookupView<N>>,
    right_nodes: Seq<N>,
)
    requires
        is_history(left, insertions(left_nodes)),
        is_history(right, insertions(right_nodes)),
        left[0].states.dom() == Set::<Seq<u8>>::empty(),
        left[0].candidates.dom() == Set::<Seq<u8>>::empty(),
        right[0].states.dom() == Set::<Seq<u8>>::empty(),
        right[0].candidates.dom() == Set::<Seq<u8>>::empty(),
        left[0].target == right[0].target,
        left[0].config.max_candidates == right[0].config.max_candidates,
        peers_of(left_nodes) == peers_of(right_nodes),
    ensures
        left.last().candidates.dom() == right.last().candidates.dom(),
{
    law_insertions_keep_the_closest(left, left_nodes);
    law_insertions_keep_the_closest(right, right_nodes);
    law_closest_are_unique(
        left.last().candidates.dom(),
        right.last().candidates.dom(),
        peers_of(left_nodes),
        left[0].target,
        left[0].config.max_candidates as nat,
    );
}

} // verus!
