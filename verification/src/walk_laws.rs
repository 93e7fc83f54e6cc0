//! What holds of a lookup walk from its first step to its last.

use crate::dht_lookup::{admits, keyed, LookupNode, LookupPeerState, LookupQueryOutcome, LookupView};
use crate::keys::{ascending, distance, lemma_distance_injective};
use crate::lookup_run::{
    ask_about_next, choose_batch, close, leads_to, start, take_response, Ask, LookupReply, Next,
    RunView,
};
use vstd::prelude::*;

verus! {

/// Whether replies lead a walk from one position to the next, beginning between
/// two rounds.
pub open spec fn is_walk<N: LookupNode>(walk: Seq<Next<N>>, replies: Seq<LookupReply<N>>) -> bool {
    &&& walk.len() == replies.len() + 1
    &&& walk[0].stage is Idle
    &&& forall|i: int| 0 <= i < walk.len() ==> (#[trigger] walk[i]).stage.fits(walk[i].lookup)
    &&& forall|i: int|
        0 <= i < replies.len() ==> walk[i].stage.accepts(#[trigger] replies[i]) && leads_to(
            walk[i].stage,
            walk[i].lookup,
            replies[i],
            walk[i + 1],
        )
}

/// The peers that were queried in the latest round, in order.
pub open spec fn round_peers<N>(lookup: LookupView<N>) -> Seq<Seq<u8>> {
    lookup.queried.skip(lookup.queried.len() - lookup.round_queries)
}

/// Whether a batch holds the nodes of the peers queried in the latest round,
/// closest first.
pub open spec fn is_round_batch<N: LookupNode>(lookup: LookupView<N>, batch: Seq<N>) -> bool {
    &&& lookup.iterations >= 1
    &&& batch.len() == lookup.round_queries
    &&& lookup.round_queries <= lookup.queried.len()
    &&& ascending(round_peers(lookup), lookup.target)
    &&& lookup.in_flight.dom() == round_peers(lookup).to_set()
    &&& forall|i: int|
        0 <= i < batch.len() ==> cloned(
            lookup.in_flight[round_peers(lookup)[i]],
            #[trigger] batch[i],
        )
}

/// Whether every candidate is farther from the target than a peer.
pub open spec fn all_farther<N>(lookup: LookupView<N>, peer: Seq<u8>) -> bool {
    forall|k: Seq<u8>| #[trigger]
        lookup.candidates.dom().contains(k) ==> distance(peer, lookup.target) < distance(
            k,
            lookup.target,
        )
}

/// Whether the peers queried in the latest round are closer than every candidate.
pub open spec fn beyond_round<N>(lookup: LookupView<N>) -> bool {
    round_peers(lookup).len() > 0 ==> all_farther(lookup, round_peers(lookup).last())
}

/// Whether the batch chosen so far holds the peers of its round, closest first,
/// and the candidate that is looked at comes next.
pub open spec fn selects_in_order<N: LookupNode>(position: Next<N>) -> bool {
    let lookup = position.lookup;
    position.stage matches RunView::Selecting { candidate, batch } ==> {
        &&& is_round_batch(lookup, batch)
        &&& all_farther(lookup, candidate.peer_key()@)
        &&& round_peers(lookup).len() > 0 ==> distance(round_peers(lookup).last(), lookup.target)
            < distance(candidate.peer_key()@, lookup.target)
    }
}

/// Whether a batch that is asked for holds the peers of its round, closest first,
/// and they are the ones awaited.
pub open spec fn queries_in_order<N: LookupNode>(position: Next<N>) -> bool {
    let lookup = position.lookup;
    position.ask matches Ask::Query(batch) ==> {
        &&& position.stage == RunView::<N>::Querying { awaiting: round_peers(lookup).to_set() }
        &&& batch.len() > 0
        &&& is_round_batch(lookup, batch)
    }
}

/// Whether a position chooses and queries in order.
pub open spec fn in_order<N: LookupNode>(position: Next<N>) -> bool {
    selects_in_order(position) && queries_in_order(position)
}

/// How a lookup moves on in a walk: rounds are only added, the peers that were
/// queried stay listed, those that are added had no state, and what is queried in
/// a later round comes after all that was queried before.
pub open spec fn advances<N>(before: LookupView<N>, after: LookupView<N>) -> bool {
    &&& after.target == before.target
    &&& after.config == before.config
    &&& before.iterations <= after.iterations
    &&& before.queried.len() <= after.queried.len()
    &&& forall|i: int|
        0 <= i < before.queried.len() ==> #[trigger] after.queried[i] == before.queried[i]
    &&& before.states.dom().subset_of(after.states.dom())
    &&& forall|i: int|
        before.queried.len() <= i < after.queried.len() ==> !before.states.dom().contains(
            #[trigger] after.queried[i],
        )
    &&& if after.iterations == before.iterations {
        after.queried.len() - after.round_queries == before.queried.len() - before.round_queries
    } else {
        after.queried.len() - after.round_queries >= before.queried.len()
    }
}

proof fn lemma_advances_further<N>(a: LookupView<N>, b: LookupView<N>, c: LookupView<N>)
    requires
        advances(a, b),
        advances(b, c),
    ensures
        advances(a, c),
{
    assert forall|i: int| 0 <= i < a.queried.len() implies #[trigger] c.queried[i]
        == a.queried[i] by {
        assert(b.queried[i] == a.queried[i]);
    }
    assert forall|i: int| a.queried.len() <= i < c.queried.len() implies !a.states.dom().contains(
        #[trigger] c.queried[i],
    ) by {
        if i < b.queried.len() {
            assert(c.queried[i] == b.queried[i]);
        }
    }
}

proof fn lemma_nearest_exists(members: Set<Seq<u8>>, target: Seq<u8>) -> (nearest: Seq<u8>)
    requires
        members.finite(),
        members != Set::<Seq<u8>>::empty(),
    ensures
        members.contains(nearest),
        forall|k: Seq<u8>| #[trigger]
            members.contains(k) ==> distance(nearest, target) <= distance(k, target),
    decreases members.len(),
{
    assert(exists|k: Seq<u8>| members.contains(k)) by {
        if forall|k: Seq<u8>| !members.contains(k) {
            assert(members =~= Set::<Seq<u8>>::empty());
        }
    }
    let first = choose|k: Seq<u8>| members.contains(k);
    let rest = members.remove(first);
    if rest =~= Set::<Seq<u8>>::empty() {
        assert forall|k: Seq<u8>| #[trigger] members.contains(k) implies distance(first, target)
            <= distance(k, target) by {
            assert(k == first || rest.contains(k));
        }
        first
    } else {
        let other = lemma_nearest_exists(rest, target);
        let nearest = if distance(first, target) <= distance(other, target) {
            first
        } else {
            other
        };
        assert forall|k: Seq<u8>| #[trigger] members.contains(k) implies distance(nearest, target)
            <= distance(k, target) by {
            assert(k == first || rest.contains(k));
        }
        nearest
    }
}

/// Whether candidates can be compared, and no query is in flight outside a round.
spec fn is_orderly<N: LookupNode>(lookup: LookupView<N>) -> bool {
    &&& lookup.target.len() == 32
    &&& keyed(lookup.candidates)
    &&& lookup.candidates.dom().finite()
    &&& !lookup.round_active ==> lookup.in_flight.dom() == Set::<Seq<u8>>::empty()
}

proof fn lemma_ask_about_next<N: LookupNode>(lookup: LookupView<N>, batch: Seq<N>)
    requires
        is_orderly(lookup),
        is_round_batch(lookup, batch),
        beyond_round(lookup),
        lookup.pruned().candidates.dom() != Set::<Seq<u8>>::empty(),
    ensures
        in_order(ask_about_next(lookup, batch)),
        advances(lookup, ask_about_next(lookup, batch).lookup),
{
    let next = ask_about_next(lookup, batch);
    let left = lookup.pruned().candidates.dom();
    assert(left.subset_of(lookup.candidates.dom()));
    vstd::set_lib::lemma_len_subset(left, lookup.candidates.dom());
    let nearest = lemma_nearest_exists(left, lookup.target);
    assert(lookup.pruned().nearest(nearest));
    let peer = lookup.next_peer();
    assert(lookup.pruned().nearest(peer));
    assert(lookup.candidates.dom().contains(peer));
    assert(lookup.candidates[peer].peer_key()@ == peer);
    assert(round_peers(next.lookup) == round_peers(lookup));
    assert forall|k: Seq<u8>| #[trigger] next.lookup.candidates.dom().contains(k) implies distance(
        peer,
        lookup.target,
    ) < distance(k, lookup.target) by {
        assert(left.contains(k) && k != peer);
        assert(lookup.candidates[k].peer_key()@ == k);
        if distance(peer, lookup.target) == distance(k, lookup.target) {
            lemma_distance_injective(peer, k, lookup.target);
        }
    }
}

/// Whether a position is not about choosing a batch, or begins the batch of a later
/// round.
pub open spec fn leaves_round<N>(before: LookupView<N>, position: Next<N>) -> bool {
    &&& position.ask !is Query
    &&& position.stage matches RunView::Selecting { batch, .. } ==> batch.len() == 0
        && position.lookup.iterations > before.iterations
}

proof fn lemma_start<N: LookupNode>(lookup: LookupView<N>)
    requires
        is_orderly(lookup),
    ensures
        in_order(start(lookup)),
        advances(lookup, start(lookup).lookup),
        leaves_round(lookup, start(lookup)),
{
    let begun = lookup.begun();
    if !(lookup.round_active || lookup.termination is Some || lookup.iterations
        >= lookup.config.max_iterations || lookup.pruned().candidates.dom() == Set::<
        Seq<u8>,
    >::empty()) {
        assert(round_peers(begun) =~= Seq::<Seq<u8>>::empty());
        assert(round_peers(begun).to_set() =~= Set::<Seq<u8>>::empty());
        assert(begun.candidates.dom().subset_of(lookup.candidates.dom()));
        vstd::set_lib::lemma_len_subset(begun.candidates.dom(), lookup.candidates.dom());
        assert forall|k: Seq<u8>| #[trigger]
            begun.candidates.dom().contains(k) implies begun.candidates[k].peer_key()@ == k by {
            assert(lookup.candidates.dom().contains(k));
        }
        assert(begun.pruned().candidates.dom() =~= lookup.pruned().candidates.dom());
        lemma_ask_about_next(begun, Seq::<N>::empty());
        lemma_advances_further(lookup, begun, start(lookup).lookup);
    }
}

proof fn lemma_close<N: LookupNode>(lookup: LookupView<N>)
    requires
        is_orderly(lookup),
        lookup.in_flight.dom() == Set::<Seq<u8>>::empty(),
    ensures
        in_order(close(lookup)),
        advances(lookup, close(lookup).lookup),
        leaves_round(lookup, close(lookup)),
{
    let done = lookup.completed().0;
    assert(done.candidates.dom().subset_of(lookup.candidates.dom()));
    vstd::set_lib::lemma_len_subset(done.candidates.dom(), lookup.candidates.dom());
    assert forall|k: Seq<u8>| #[trigger]
        done.candidates.dom().contains(k) implies done.candidates[k].peer_key()@ == k by {
        assert(lookup.candidates.dom().contains(k));
    }
    lemma_start(done);
    lemma_advances_further(lookup, done, start(done).lookup);
}

proof fn lemma_choose_batch<N: LookupNode>(lookup: LookupView<N>, batch: Seq<N>)
    requires
        is_orderly(lookup),
        is_round_batch(lookup, batch),
        beyond_round(lookup),
    ensures
        in_order(choose_batch(lookup, batch)),
        advances(lookup, choose_batch(lookup, batch).lookup),
        batch.len() == 0 || choose_batch(lookup, batch).lookup.iterations == lookup.iterations,
{
    let drained = lookup.drained();
    assert(round_peers(drained) == round_peers(lookup));
    if lookup.has_next() {
        lemma_ask_about_next(lookup, batch);
    } else if batch.len() == 0 {
        assert(drained.candidates.dom().subset_of(lookup.candidates.dom()));
        vstd::set_lib::lemma_len_subset(drained.candidates.dom(), lookup.candidates.dom());
        assert forall|k: Seq<u8>| #[trigger]
            drained.candidates.dom().contains(k) implies drained.candidates[k].peer_key()@ == k by {
            assert(lookup.candidates.dom().contains(k));
        }
        assert(round_peers(lookup) =~= Seq::<Seq<u8>>::empty());
        assert(lookup.in_flight.dom() =~= Set::<Seq<u8>>::empty());
        lemma_close(drained);
        lemma_advances_further(lookup, drained, close(drained).lookup);
    }
}

proof fn lemma_take_response<N: LookupNode>(
    lookup: LookupView<N>,
    candidates: Seq<N>,
    outcomes: Seq<LookupQueryOutcome<N>>,
    awaiting: Set<Seq<u8>>,
)
    requires
        is_orderly(lookup),
        lookup.round_active,
        lookup.in_flight.dom() == awaiting,
    ensures
        in_order(take_response(lookup, candidates, outcomes, awaiting)),
        advances(lookup, take_response(lookup, candidates, outcomes, awaiting).lookup),
        leaves_round(lookup, take_response(lookup, candidates, outcomes, awaiting)),
    decreases outcomes.len(),
{
    if candidates.len() > 0 {
    } else if outcomes.len() == 0 {
        let given_up = lookup.abandoned(awaiting);
        assert(given_up.in_flight.dom() =~= Set::<Seq<u8>>::empty());
        lemma_close(given_up);
        lemma_advances_further(lookup, given_up, close(given_up).lookup);
    } else {
        let peer = outcomes[0].owner()@;
        let rest = outcomes.drop_first();
        if awaiting.contains(peer) {
            let fewer = awaiting.remove(peer);
            match outcomes[0] {
                LookupQueryOutcome::Succeeded { candidates, .. } => {
                    let after = lookup.succeeded(peer);
                    assert(after.in_flight.dom() =~= fewer);
                    lemma_take_response(after, candidates@, rest, fewer);
                    lemma_advances_further(
                        lookup,
                        after,
                        take_response(after, candidates@, rest, fewer).lookup,
                    );
                },
                LookupQueryOutcome::Failed { .. } => {
                    let after = lookup.settled(peer, LookupPeerState::Failed);
                    assert(after.in_flight.dom() =~= fewer);
                    lemma_take_response(after, Seq::empty(), rest, fewer);
                    lemma_advances_further(
                        lookup,
                        after,
                        take_response(after, Seq::empty(), rest, fewer).lookup,
                    );
                },
                LookupQueryOutcome::Unresponsive { .. } => {
                    let after = lookup.settled(peer, LookupPeerState::Unresponsive);
                    assert(after.in_flight.dom() =~= fewer);
                    lemma_take_response(after, Seq::empty(), rest, fewer);
                    lemma_advances_further(
                        lookup,
                        after,
                        take_response(after, Seq::empty(), rest, fewer).lookup,
                    );
                },
            }
        }
    }
}

proof fn lemma_marked_batch<N: LookupNode>(
    lookup: LookupView<N>,
    candidate: N,
    batch: Seq<N>,
    copy: N,
)
    requires
        lookup.well_formed(),
        is_round_batch(lookup, batch),
        all_farther(lookup, candidate.peer_key()@),
        round_peers(lookup).len() > 0 ==> distance(round_peers(lookup).last(), lookup.target)
            < distance(candidate.peer_key()@, lookup.target),
        !lookup.states.dom().contains(candidate.peer_key()@),
        cloned(candidate, copy),
    ensures
        is_round_batch(lookup.marked(candidate.peer_key()@, candidate), batch.push(copy)),
        beyond_round(lookup.marked(candidate.peer_key()@, candidate)),
        advances(lookup, lookup.marked(candidate.peer_key()@, candidate)),
{
    let peer = candidate.peer_key()@;
    let after = lookup.marked(peer, candidate);
    let earlier = round_peers(lookup);
    let peers = round_peers(after);
    let longer = batch.push(copy);
    assert(peers =~= earlier.push(peer));
    assert forall|k: Seq<u8>| #[trigger] peers.to_set().contains(k) <==> earlier.to_set().contains(k)
        || k == peer by {
        if earlier.contains(k) {
            let i = earlier.index_of(k);
            assert(peers[i] == k);
        }
        if peers.contains(k) {
            let i = peers.index_of(k);
            if i < earlier.len() {
                assert(earlier[i] == k);
            }
        }
        assert(peers[peers.len() - 1] == peer);
    }
    assert(after.in_flight.dom() =~= peers.to_set());
    assert forall|i: int| 0 <= i < longer.len() implies cloned(
        after.in_flight[peers[i]],
        #[trigger] longer[i],
    ) by {
        if i < batch.len() {
            assert(earlier.to_set().contains(earlier[i]));
            assert(lookup.in_flight.dom().contains(earlier[i]));
            assert(longer[i] == batch[i]);
        }
    }
    assert forall|i: int, j: int| 0 <= i < j < peers.len() implies distance(
        #[trigger] peers[i],
        lookup.target,
    ) < distance(#[trigger] peers[j], lookup.target) by {
        if j == earlier.len() && i < earlier.len() - 1 {
            assert(distance(earlier[i], lookup.target) < distance(earlier.last(), lookup.target));
        }
    }
}

proof fn lemma_step<N: LookupNode>(from: Next<N>, reply: LookupReply<N>, next: Next<N>)
    requires
        from.stage.fits(from.lookup),
        from.stage.accepts(reply),
        selects_in_order(from),
        leads_to(from.stage, from.lookup, reply, next),
    ensures
        in_order(next),
        advances(from.lookup, next.lookup),
        from.stage !is Selecting ==> leaves_round(from.lookup, next),
{
    let lookup = from.lookup;
    match from.stage {
        RunView::Idle => {
            lemma_start(lookup);
        },
        RunView::Selecting { candidate, batch } => {
            if reply->Eligible_0 {
                let peer = candidate.peer_key()@;
                let after = lookup.marked(peer, candidate);
                let copy = choose|copy: N| #[trigger]
                    cloned(candidate, copy) && next == choose_batch(after, batch.push(copy));
                lemma_marked_batch(lookup, candidate, batch, copy);
                lemma_choose_batch(after, batch.push(copy));
                lemma_advances_further(lookup, after, next.lookup);
            } else {
                assert(beyond_round(lookup));
                lemma_choose_batch(lookup, batch);
            }
        },
        RunView::Querying { awaiting } => {
            lemma_take_response(lookup, Seq::empty(), reply->Outcomes_0@, awaiting);
        },
        RunView::Admitting { candidate, candidates, outcomes, awaiting } => {
            if reply->Eligible_0 {
                if exists|after: LookupView<N>| #[trigger]
                    admits(lookup, candidate, after, None) && next == take_response(
                        after,
                        candidates,
                        outcomes,
                        awaiting,
                    ) {
                    let after = choose|after: LookupView<N>| #[trigger]
                        admits(lookup, candidate, after, None) && next == take_response(
                            after,
                            candidates,
                            outcomes,
                            awaiting,
                        );
                    lemma_take_response(after, candidates, outcomes, awaiting);
                    lemma_advances_further(lookup, after, next.lookup);
                }
            } else {
                lemma_take_response(lookup, candidates, outcomes, awaiting);
            }
        },
        RunView::Releasing { candidates, outcomes, awaiting } => {
            lemma_take_response(lookup, candidates, outcomes, awaiting);
        },
    }
}

proof fn lemma_position_in_order<N: LookupNode>(
    walk: Seq<Next<N>>,
    replies: Seq<LookupReply<N>>,
    at: int,
)
    requires
        is_walk(walk, replies),
        0 <= at < walk.len(),
    ensures
        selects_in_order(walk[at]),
        at > 0 ==> in_order(walk[at]) && advances(walk[at - 1].lookup, walk[at].lookup) && (
        walk[at - 1].stage !is Selecting ==> leaves_round(walk[at - 1].lookup, walk[at])),
    decreases at,
{
    if at > 0 {
        lemma_position_in_order(walk, replies, at - 1);
        assert(walk[at - 1].stage.accepts(replies[at - 1]));
        assert(walk[at - 1].stage.fits(walk[at - 1].lookup));
        lemma_step(walk[at - 1], replies[at - 1], walk[at - 1 + 1]);
    }
}

proof fn lemma_walk_advances<N: LookupNode>(
    walk: Seq<Next<N>>,
    replies: Seq<LookupReply<N>>,
    at: int,
    later: int,
)
    requires
        is_walk(walk, replies),
        0 <= at <= later < walk.len(),
    ensures
        advances(walk[at].lookup, walk[later].lookup),
        walk[at].stage !is Selecting && at < later ==> (walk[later].stage !is Selecting
            && walk[later].ask !is Query) || walk[later].lookup.iterations
            > walk[at].lookup.iterations,
    decreases later - at,
{
    if at < later {
        lemma_walk_advances(walk, replies, at, later - 1);
        lemma_position_in_order(walk, replies, later);
        lemma_advances_further(walk[at].lookup, walk[later - 1].lookup, walk[later].lookup);
    }
}

/// Whether a clone always stands for the same peer.
pub open spec fn clones_keep_identity<N: LookupNode>() -> bool {
    forall|node: N, copy: N| #[trigger] cloned(node, copy) ==> node.peer_key() == copy.peer_key()
}

/// Every query of a walk names the target and the limits it began with and a round
/// between the first and the last allowed one. Its batch holds between one and
/// alpha nodes in strictly increasing distance from the target, and none that had
/// a state when the walk began.
pub proof fn law_batches_are_bounded_and_ordered<N: LookupNode>(
    walk: Seq<Next<N>>,
    replies: Seq<LookupReply<N>>,
    at: int,
    batch: Seq<N>,
)
    requires
        is_walk(walk, replies),
        0 < at < walk.len(),
        walk[at].ask == Ask::Query(batch),
    ensures
        walk[at].lookup.target == walk[0].lookup.target,
        walk[at].lookup.config == walk[0].lookup.config,
        1 <= walk[at].lookup.iterations <= walk[0].lookup.config.max_iterations,
        1 <= batch.len() <= walk[0].lookup.config.alpha,
        round_peers(walk[at].lookup).len() == batch.len(),
        is_round_batch(walk[at].lookup, batch),
        clones_keep_identity::<N>() ==> forall|i: int|
            0 <= i < batch.len() ==> (#[trigger] batch[i]).peer_key()@ == round_peers(
                walk[at].lookup,
            )[i],
        ascending(round_peers(walk[at].lookup), walk[0].lookup.target),
        walk[at].stage == (RunView::<N>::Querying {
            awaiting: round_peers(walk[at].lookup).to_set(),
        }),
        forall|i: int|
            0 <= i < batch.len() ==> !walk[0].lookup.states.dom().contains(
                #[trigger] round_peers(walk[at].lookup)[i],
            ),
{
    lemma_position_in_order(walk, replies, at);
    lemma_walk_advances(walk, replies, 0, at);
    assert(walk[at].stage.fits(walk[at].lookup));
    let lookup = walk[at].lookup;
    let peers = round_peers(lookup);
    assert forall|i: int| 0 <= i < batch.len() implies !walk[0].lookup.states.dom().contains(
        #[trigger] peers[i],
    ) by {
        let place = lookup.queried.len() - lookup.round_queries + i;
        assert(peers[i] == lookup.queried[place]);
    }
    assert forall|i: int| 0 <= i < batch.len() implies lookup.in_flight[peers[i]].peer_key()@
        == #[trigger] peers[i] && cloned(lookup.in_flight[peers[i]], batch[i]) by {
        assert(peers.to_set().contains(peers[i]));
        assert(lookup.in_flight.dom().contains(peers[i]));
    }
}

/// Two queries of a walk belong to different rounds, the later one to a later
/// round, and no peer is in both batches.
pub proof fn law_no_peer_is_queried_twice<N: LookupNode>(
    walk: Seq<Next<N>>,
    replies: Seq<LookupReply<N>>,
    first: int,
    second: int,
)
    requires
        is_walk(walk, replies),
        0 < first < second < walk.len(),
        walk[first].ask is Query,
        walk[second].ask is Query,
    ensures
        walk[first].lookup.iterations < walk[second].lookup.iterations,
        forall|i: int, j: int|
            0 <= i < round_peers(walk[first].lookup).len() && 0 <= j < round_peers(
                walk[second].lookup,
            ).len() ==> #[trigger] round_peers(walk[first].lookup)[i] != #[trigger] round_peers(
                walk[second].lookup,
            )[j],
{
    lemma_position_in_order(walk, replies, first);
    lemma_position_in_order(walk, replies, second);
    lemma_walk_advances(walk, replies, first, second);
    assert(walk[second].stage.fits(walk[second].lookup));
    let a = walk[first].lookup;
    let b = walk[second].lookup;
    assert forall|i: int, j: int|
        0 <= i < round_peers(a).len() && 0 <= j < round_peers(b).len() implies #[trigger] round_peers(
        a,
    )[i] != #[trigger] round_peers(b)[j] by {
        let p = a.queried.len() - a.round_queries + i;
        let q = b.queried.len() - b.round_queries + j;
        assert(round_peers(a)[i] == a.queried[p]);
        assert(round_peers(b)[j] == b.queried[q]);
        assert(b.queried[p] == a.queried[p]);
        assert(p != q);
    }
}

/// Whether a node was found eligible for a batch before a position of a walk.
pub open spec fn was_accepted<N: LookupNode>(
    walk: Seq<Next<N>>,
    replies: Seq<LookupReply<N>>,
    at: int,
    node: N,
) -> bool {
    exists|i: int| 0 <= i < at && #[trigger] accepts_at(walk, replies, i, node)
}

/// Whether a node is found eligible for a batch at a position of a walk.
pub open spec fn accepts_at<N: LookupNode>(
    walk: Seq<Next<N>>,
    replies: Seq<LookupReply<N>>,
    at: int,
    node: N,
) -> bool {
    &&& walk[at].stage matches RunView::Selecting { candidate, .. }
    &&& candidate == node
    &&& replies[at] == LookupReply::<N>::Eligible(true)
}

/// Every node that is queried was found eligible.
pub proof fn law_queried_nodes_were_accepted<N: LookupNode>(
    walk: Seq<Next<N>>,
    replies: Seq<LookupReply<N>>,
    at: int,
)
    requires
        is_walk(walk, replies),
        0 < at < walk.len(),
        walk[at].stage is Selecting || walk[at].ask is Query,
    ensures
        forall|peer: Seq<u8>| #[trigger]
            walk[at].lookup.in_flight.dom().contains(peer) ==> was_accepted(
                walk,
                replies,
                at,
                walk[at].lookup.in_flight[peer],
            ),
    decreases at,
{
    let before = walk[at - 1];
    let after = walk[at];
    lemma_position_in_order(walk, replies, at - 1);
    lemma_position_in_order(walk, replies, at);
    assert(before.stage.accepts(replies[at - 1]));
    assert(leads_to(before.stage, before.lookup, replies[at - 1], walk[at - 1 + 1]));
    assert forall|peer: Seq<u8>| #[trigger]
        after.lookup.in_flight.dom().contains(peer) implies was_accepted(
        walk,
        replies,
        at,
        after.lookup.in_flight[peer],
    ) by {
        let node = after.lookup.in_flight[peer];
        if let RunView::Selecting { candidate, batch } = before.stage {
            let key = candidate.peer_key()@;
            if at - 1 > 0 {
                law_queried_nodes_were_accepted(walk, replies, at - 1);
            }
            if replies[at - 1]->Eligible_0 && peer == key {
                assert(node == candidate);
                assert(accepts_at(walk, replies, at - 1, node));
            } else {
                assert(before.lookup.in_flight.dom().contains(peer));
                assert(was_accepted(walk, replies, at - 1, before.lookup.in_flight[peer]));
                let i = choose|i: int|
                    0 <= i < at - 1 && #[trigger] accepts_at(
                        walk,
                        replies,
                        i,
                        before.lookup.in_flight[peer],
                    );
                assert(accepts_at(walk, replies, i, node));
            }
        } else {
            assert(round_peers(after.lookup).to_set().contains(peer));
        }
    }
}

/// A candidate that is found not eligible takes no place in the batch and gets no
/// state: what was queried, what is in flight and every state stay as they are, and
/// so does the batch while its round goes on.
pub proof fn law_rejected_candidates_cost_nothing<N: LookupNode>(
    candidate: N,
    batch: Seq<N>,
    lookup: LookupView<N>,
    next: Next<N>,
)
    requires
        (RunView::Selecting { candidate, batch }).fits(lookup),
        leads_to(
            RunView::Selecting { candidate, batch },
            lookup,
            LookupReply::Eligible(false),
            next,
        ),
    ensures
        next.lookup.states == lookup.states,
        !next.lookup.states.dom().contains(candidate.peer_key()@),
        next.lookup.queried == lookup.queried,
        next.lookup.in_flight == lookup.in_flight,
        next.lookup.iterations == lookup.iterations ==> next.lookup.round_queries
            == lookup.round_queries,
        next.lookup.iterations == lookup.iterations ==> match next.stage {
            RunView::Selecting { batch: later, .. } => later == batch,
            _ => next.ask matches Ask::Query(later) ==> later == batch,
        },
{
}

} // verus!
