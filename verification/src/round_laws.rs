//! Laws of the rounds of a lookup: when it goes on, when it stops and why, and
//! what each call leaves as it was.

use crate::dht_lookup::{
    follows, in_state, inserts, takes, CandidateInsertion, LookupCall, LookupConfig, LookupError,
    LookupNode, LookupPeerState, LookupProgress, LookupTermination, LookupView,
};
use crate::keys::{closest, distance, is_closest, lemma_closest_unique};
use vstd::prelude::*;

verus! {

/// Whether a peer is queued and was not contacted yet.
pub open spec fn open_candidate<N>(lookup: LookupView<N>, peer: Seq<u8>) -> bool {
    lookup.candidates.dom().contains(peer) && !lookup.states.dom().contains(peer)
}

/// Whether a list names the results of a lookup: the closest peers that answered,
/// as many as wanted.
pub open spec fn are_results<N>(lookup: LookupView<N>, results: Seq<Seq<u8>>) -> bool {
    is_closest(results, lookup.successful.dom(), lookup.target, lookup.config.count as nat)
}

proof fn lemma_results<N: LookupNode>(lookup: LookupView<N>, results: Seq<Seq<u8>>)
    requires
        lookup.well_formed(),
        are_results(lookup, results),
    ensures
        lookup.top() == results,
{
    assert forall|k: Seq<u8>| #[trigger] lookup.successful.dom().contains(k) implies k.len()
        == 32 by {
        assert(lookup.successful[k].peer_key()@ == k);
    }
    lemma_closest_unique(
        closest(lookup.successful.dom(), lookup.target, lookup.config.count as nat),
        results,
        lookup.successful.dom(),
        lookup.target,
        lookup.config.count as nat,
    );
}

/// As long as fewer peers answered than wanted and a candidate is left to ask, a
/// round without news does not stop the lookup.
pub proof fn law_lookups_go_on_while_results_are_few<N: LookupNode>(
    lookup: LookupView<N>,
    candidate: Seq<u8>,
)
    requires
        lookup.well_formed(),
        are_results(lookup, lookup.previous),
        lookup.previous.len() < lookup.config.count,
        open_candidate(lookup, candidate),
    ensures
        lookup.completed().1 == LookupProgress::Continue,
        lookup.completed().0.termination == lookup.termination,
        open_candidate(lookup.completed().0, candidate),
{
    lemma_results(lookup, lookup.previous);
    assert(lookup.candidates.dom().contains(candidate));
}

/// A lookup is exhausted only when no candidate is left to ask, be it found out
/// at the end of a round or at the start of one.
pub proof fn law_exhausted_lookups_asked_everyone<N: LookupNode>(
    lookup: LookupView<N>,
    candidate: Seq<u8>,
)
    requires
        open_candidate(lookup, candidate),
    ensures
        lookup.completed().1 != LookupProgress::Finished(LookupTermination::Exhausted),
        lookup.termination is None ==> lookup.completed().0.termination != Some(
            LookupTermination::Exhausted,
        ) && lookup.beginning().termination != Some(LookupTermination::Exhausted),
{
    assert(lookup.pruned().candidates.dom().contains(candidate));
}

/// A lookup converges exactly when a round left the results as they were, there
/// are as many as wanted or nobody is queued, and no queued candidate is closer
/// than the farthest result.
pub proof fn law_lookups_converge_on_the_closest<N: LookupNode>(
    lookup: LookupView<N>,
    results: Seq<Seq<u8>>,
)
    requires
        lookup.well_formed(),
        are_results(lookup, results),
    ensures
        lookup.completed().1 == LookupProgress::Finished(LookupTermination::Converged) <==> {
            &&& lookup.previous == results
            &&& results.len() == lookup.config.count || lookup.candidates.dom() == Set::<
                Seq<u8>,
            >::empty()
            &&& forall|k: Seq<u8>| #[trigger]
                lookup.candidates.dom().contains(k) ==> results.len() > 0 && distance(
                    results.last(),
                    lookup.target,
                ) <= distance(k, lookup.target)
        },
{
    lemma_results(lookup, results);
    assert(results.len() <= lookup.config.count);
    if lookup.candidates.dom() =~= Set::<Seq<u8>>::empty() {
    } else {
        let k = choose|k: Seq<u8>| lookup.candidates.dom().contains(k);
        assert(lookup.candidates.dom().contains(k));
    }
}

/// A round that brought news stops the lookup only at the limit of rounds, and
/// there always; below it the lookup goes on exactly while a candidate is left to
/// ask, and is exhausted else.
pub proof fn law_news_keep_a_lookup_going<N: LookupNode>(
    lookup: LookupView<N>,
    results: Seq<Seq<u8>>,
)
    requires
        lookup.well_formed(),
        are_results(lookup, results),
        lookup.previous != results,
    ensures
        lookup.iterations >= lookup.config.max_iterations ==> lookup.completed().1
            == LookupProgress::Finished(LookupTermination::IterationLimit),
        lookup.iterations < lookup.config.max_iterations && (exists|k: Seq<u8>|
            open_candidate(lookup, k)) ==> lookup.completed().1 == LookupProgress::Continue,
        lookup.iterations < lookup.config.max_iterations && !(exists|k: Seq<u8>|
            open_candidate(lookup, k)) ==> lookup.completed().1 == LookupProgress::Finished(
            LookupTermination::Exhausted,
        ),
{
    lemma_results(lookup, results);
    let left = lookup.pruned().candidates.dom();
    if exists|k: Seq<u8>| open_candidate(lookup, k) {
        let k = choose|k: Seq<u8>| open_candidate(lookup, k);
        assert(left.contains(k));
    } else {
        assert forall|k: Seq<u8>| !left.contains(k) by {
            if left.contains(k) {
                assert(open_candidate(lookup, k));
            }
        }
        assert(left =~= Set::<Seq<u8>>::empty());
    }
}

/// The limit of rounds stops no lookup below it, and a candidate that could
/// improve a full set of results keeps the lookup going below it.
pub proof fn law_promising_candidates_are_pursued<N: LookupNode>(
    lookup: LookupView<N>,
    results: Seq<Seq<u8>>,
    candidate: Seq<u8>,
)
    requires
        lookup.well_formed(),
        are_results(lookup, results),
        open_candidate(lookup, candidate),
        results.len() == 0 || distance(candidate, lookup.target) < distance(
            results.last(),
            lookup.target,
        ),
    ensures
        lookup.iterations < lookup.config.max_iterations ==> lookup.completed().1
            == LookupProgress::Continue,
        lookup.completed().1 != LookupProgress::Finished(LookupTermination::Converged),
        lookup.completed().1 == LookupProgress::Finished(LookupTermination::IterationLimit)
            ==> lookup.iterations >= lookup.config.max_iterations,
{
    lemma_results(lookup, results);
    assert(lookup.candidates.dom().contains(candidate));
    assert(lookup.pruned().candidates.dom().contains(candidate));
    assert(lookup.promising());
}

/// The end of a round remembers the results for the next one, records why the
/// lookup stopped where it did, keeps every candidate that is left to ask, and
/// changes nothing else.
pub proof fn law_completed_rounds_remember_the_results<N: LookupNode>(
    lookup: LookupView<N>,
    results: Seq<Seq<u8>>,
    candidate: Seq<u8>,
)
    requires
        lookup.well_formed(),
        are_results(lookup, results),
    ensures
        ({
            let (after, progress) = lookup.completed();
            &&& after.previous == results
            &&& !after.round_active
            &&& progress matches LookupProgress::Finished(reason) ==> after.termination == Some(
                reason,
            )
            &&& progress is Continue ==> after.termination == lookup.termination
            &&& open_candidate(lookup, candidate) ==> after.candidates.dom().contains(candidate)
                && after.candidates[candidate] == lookup.candidates[candidate]
            &&& after.candidates.dom().contains(candidate) ==> lookup.candidates.dom().contains(
                candidate,
            )
            &&& after == (LookupView {
                candidates: after.candidates,
                previous: after.previous,
                round_active: after.round_active,
                termination: after.termination,
                ..lookup
            })
        }),
{
    lemma_results(lookup, results);
}

/// A round begins exactly when none is active, the lookup has not stopped, the
/// limit of rounds is not reached and a candidate is left to ask. It counts as
/// one more round without queries, and the queue is left with those who can still
/// be asked.
pub proof fn law_rounds_begin_with_someone_to_ask<N: LookupNode>(
    lookup: LookupView<N>,
    peer: Seq<u8>,
)
    requires
        !lookup.round_active,
        lookup.termination is None,
        open_candidate(lookup, peer),
        lookup.iterations < lookup.config.max_iterations,
    ensures
        ({
            let after = lookup.beginning();
            &&& after.round_active
            &&& after.iterations == lookup.iterations + 1
            &&& after.round_queries == 0
            &&& after.candidates.dom().contains(peer)
            &&& after.candidates[peer] == lookup.candidates[peer]
            &&& forall|k: Seq<u8>| #[trigger]
                after.candidates.dom().contains(k) ==> open_candidate(lookup, k)
            &&& after == (LookupView {
                candidates: after.candidates,
                round_active: after.round_active,
                round_queries: after.round_queries,
                iterations: after.iterations,
                ..lookup
            })
        }),
{
    assert(lookup.pruned().candidates.dom().contains(peer));
}

/// Asked to begin a round that it cannot begin, a lookup stops: at the limit of
/// rounds for that, and else because nobody is left to ask. One that has stopped,
/// and one whose round is active, stays as it is.
pub proof fn law_lookups_stop_for_a_reason<N: LookupNode>(lookup: LookupView<N>)
    ensures
        lookup.round_active || lookup.termination is Some ==> lookup.beginning() == lookup,
        !lookup.round_active && lookup.termination is None && lookup.iterations
            >= lookup.config.max_iterations ==> lookup.beginning() == (LookupView {
            termination: Some(LookupTermination::IterationLimit),
            ..lookup
        }),
        !lookup.round_active && lookup.termination is None && lookup.iterations
            < lookup.config.max_iterations && (forall|k: Seq<u8>| #[trigger]
            lookup.candidates.dom().contains(k) ==> lookup.states.dom().contains(k))
            ==> lookup.beginning().termination == Some(LookupTermination::Exhausted)
            && !lookup.beginning().round_active && lookup.beginning().iterations
            == lookup.iterations,
{
    if forall|k: Seq<u8>| #[trigger]
        lookup.candidates.dom().contains(k) ==> lookup.states.dom().contains(k) {
        assert(lookup.pruned().candidates.dom() =~= Set::<Seq<u8>>::empty());
    }
}

/// The candidate taken next is the closest one that is left to ask, and it alone
/// of those leaves the queue. A round that has spent its queries takes nobody.
pub proof fn law_the_closest_candidate_is_taken<N: LookupNode>(
    before: LookupView<N>,
    after: LookupView<N>,
    peer: Seq<u8>,
)
    requires
        follows(before, LookupCall::TakeCandidate, after),
        before.round_active,
        open_candidate(before, peer),
    ensures
        before.round_queries >= before.config.alpha ==> after == before,
        before.round_queries < before.config.alpha ==> (after.candidates.dom().contains(peer) || (
        forall|k: Seq<u8>| #[trigger]
            open_candidate(before, k) ==> distance(peer, before.target) <= distance(
                k,
                before.target,
            ))),
        before.round_queries < before.config.alpha ==> exists|k: Seq<u8>| #[trigger]
            open_candidate(before, k) && !after.candidates.dom().contains(k),
        before.round_queries < before.config.alpha ==> after == (LookupView {
            candidates: after.candidates,
            ..before
        }),
        after.candidates.dom().contains(peer) ==> after.candidates[peer] == before.candidates[peer],
{
    if before.round_queries < before.config.alpha {
        let pruned = before.pruned();
        assert(pruned.candidates.dom().contains(peer));
        let taken = choose|k: Seq<u8>| #[trigger]
            pruned.nearest(k) && after == (LookupView {
                candidates: pruned.candidates.remove(k),
                ..pruned
            });
        assert(pruned.nearest(taken));
        assert(open_candidate(before, taken));
        assert(!after.candidates.dom().contains(taken));
        assert forall|k: Seq<u8>| #[trigger] open_candidate(before, k) && peer == taken implies distance(
            peer,
            before.target,
        ) <= distance(k, before.target) by {
            assert(pruned.candidates.dom().contains(k));
        }
    }
}

/// A query is put in flight for a peer that was never contacted, in an active
/// round that has queries left: it waits, is listed last among those queried, and
/// the round has one query less. Else nothing changes.
pub proof fn law_queries_are_marked_once<N: LookupNode>(
    before: LookupView<N>,
    node: N,
    after: LookupView<N>,
)
    requires
        follows(before, LookupCall::MarkWaiting(node), after),
    ensures
        ({
            let peer = node.peer_key()@;
            let free = before.round_active && before.round_queries < before.config.alpha
                && !before.states.dom().contains(peer);
            &&& !free ==> after == before
            &&& free ==> {
                &&& in_state(after.states, peer, LookupPeerState::Waiting)
                &&& after.states.remove(peer) == before.states
                &&& after.queried == before.queried.push(peer)
                &&& after.in_flight.dom().contains(peer) && after.in_flight[peer] == node
                &&& after.in_flight.remove(peer) == before.in_flight.remove(peer)
                &&& after.round_queries == before.round_queries + 1
                &&& after == (LookupView {
                    states: after.states,
                    queried: after.queried,
                    in_flight: after.in_flight,
                    round_queries: after.round_queries,
                    ..before
                })
            }
        }),
{
    let peer = node.peer_key()@;
    if before.may_mark(peer) {
        assert(after.states.remove(peer) =~= before.states);
        assert(after.in_flight.remove(peer) =~= before.in_flight.remove(peer));
    }
}

/// The outcome of a query in flight gives its peer that state and ends the query.
/// A peer that answered is a result from then on, as the node that was asked
/// unless it was a result before; one that did not is none. Other peers stay as
/// they are, and an outcome for a peer that does not wait changes nothing.
pub proof fn law_outcomes_settle_one_query<N: LookupNode>(
    before: LookupView<N>,
    call: LookupCall<N>,
    after: LookupView<N>,
    peer: Seq<u8>,
    state: LookupPeerState,
    other: Seq<u8>,
)
    requires
        follows(before, call, after),
        (call == LookupCall::<N>::Success(peer) && state == LookupPeerState::Succeeded) || (call
            == LookupCall::<N>::Failure(peer) && state == LookupPeerState::Failed) || (call
            == LookupCall::<N>::Unresponsive(peer) && state == LookupPeerState::Unresponsive),
        other != peer,
    ensures
        !in_state(before.states, peer, LookupPeerState::Waiting) ==> after == before,
        in_state(before.states, peer, LookupPeerState::Waiting) ==> {
            &&& in_state(after.states, peer, state)
            &&& !after.in_flight.dom().contains(peer)
            &&& after.successful.dom().contains(peer) <==> before.successful.dom().contains(peer)
                || state == LookupPeerState::Succeeded
            &&& state == LookupPeerState::Succeeded && !before.successful.dom().contains(peer)
                ==> after.successful[peer] == before.in_flight[peer]
            &&& before.successful.dom().contains(peer) ==> after.successful[peer]
                == before.successful[peer]
            &&& after.states.dom().contains(other) == before.states.dom().contains(other)
            &&& after.states[other] == before.states[other]
            &&& after.in_flight.dom().contains(other) == before.in_flight.dom().contains(other)
            &&& after.in_flight[other] == before.in_flight[other]
            &&& after.successful.dom().contains(other) == before.successful.dom().contains(other)
            &&& after.successful[other] == before.successful[other]
            &&& after == (LookupView {
                states: after.states,
                in_flight: after.in_flight,
                successful: after.successful,
                ..before
            })
        },
{
}

/// A result that is known without a query counts as answered and leaves the
/// queue, so that it is never asked. The first node for a peer stands.
pub proof fn law_known_results_are_never_asked<N: LookupNode>(
    before: LookupView<N>,
    node: N,
    other: Seq<u8>,
)
    requires
        other != node.peer_key()@,
    ensures
        ({
            let peer = node.peer_key()@;
            let after = before.with_known_result(node);
            &&& in_state(after.states, peer, LookupPeerState::Succeeded)
            &&& !after.candidates.dom().contains(peer)
            &&& after.successful.dom().contains(peer)
            &&& after.successful[peer] == if before.successful.dom().contains(peer) {
                before.successful[peer]
            } else {
                node
            }
            &&& after.candidates.dom().contains(other) == before.candidates.dom().contains(other)
            &&& after.candidates[other] == before.candidates[other]
            &&& after.states.dom().contains(other) == before.states.dom().contains(other)
            &&& after.states[other] == before.states[other]
            &&& after.successful.dom().contains(other) == before.successful.dom().contains(other)
            &&& after.successful[other] == before.successful[other]
            &&& after == (LookupView {
                candidates: after.candidates,
                states: after.states,
                successful: after.successful,
                ..before
            })
        }),
{
}

/// Offering a candidate changes the queue alone. A contacted peer is not queued
/// again; another one is, in the form offered, wherever there is room or it is
/// queued already; and where there is none it replaces a peer that is farther.
pub proof fn law_offers_change_the_queue_alone<N: LookupNode>(
    before: LookupView<N>,
    node: N,
    after: LookupView<N>,
    other: Seq<u8>,
)
    requires
        follows(before, LookupCall::Candidate(node), after),
        other != node.peer_key()@,
    ensures
        after == (LookupView { candidates: after.candidates, ..before }),
        ({
            let peer = node.peer_key()@;
            &&& before.states.dom().contains(peer) ==> after == before
            &&& !before.states.dom().contains(peer) && (before.candidates.dom().contains(peer)
                || before.candidates.dom().len() < before.config.max_candidates) ==> {
                &&& after.candidates.dom().contains(peer)
                &&& after.candidates[peer] == node
                &&& after.candidates.dom().contains(other) == before.candidates.dom().contains(
                    other,
                )
            }
            &&& after.candidates.dom().contains(other) ==> before.candidates.dom().contains(other)
                && after.candidates[other] == before.candidates[other]
            &&& before.candidates.dom().contains(other) && !after.candidates.dom().contains(other)
                ==> {
                &&& after.candidates.dom().contains(peer)
                &&& after.candidates[peer] == node
                &&& distance(peer, before.target) < distance(other, before.target)
                &&& forall|k: Seq<u8>| #[trigger]
                    before.candidates.dom().contains(k) ==> distance(k, before.target) <= distance(
                        other,
                        before.target,
                    )
            }
        }),
{
}

/// The result of an offer tells what became of it: that the peer was contacted
/// before, that it was queued and its node is now this one, that it is queued, at
/// whose cost, or that every queued peer of a full queue is as close.
pub proof fn law_offers_are_answered<N: LookupNode>(
    before: LookupView<N>,
    node: N,
    insertion: CandidateInsertion,
    after: LookupView<N>,
    other: Seq<u8>,
)
    requires
        before.well_formed(),
        inserts(before, node, insertion, after),
        before.candidates.dom().contains(other),
    ensures
        ({
            let peer = node.peer_key()@;
            &&& insertion is AlreadyContacted <==> before.states.dom().contains(peer)
            &&& insertion is Replaced <==> !before.states.dom().contains(peer)
                && before.candidates.dom().contains(peer)
            &&& insertion is TooFar ==> before.candidates.dom().len()
                >= before.config.max_candidates && distance(other, before.target) <= distance(
                peer,
                before.target,
            )
            &&& insertion is AlreadyContacted || insertion is TooFar ==> after == before
            &&& insertion is Replaced || insertion is Inserted ==> after.candidates.dom().contains(
                peer,
            ) && after.candidates[peer] == node
            &&& insertion matches CandidateInsertion::Inserted { evicted: None } ==> {
                &&& before.candidates.dom().len() < before.config.max_candidates
                &&& after.candidates.dom().contains(other)
            }
            &&& insertion matches CandidateInsertion::Inserted { evicted: Some(far) } ==> {
                &&& before.candidates.dom().len() >= before.config.max_candidates
                &&& before.candidates.dom().contains(far@)
                &&& !after.candidates.dom().contains(far@)
                &&& distance(other, before.target) <= distance(far@, before.target)
                &&& distance(peer, before.target) < distance(far@, before.target)
                &&& other != far@ ==> after.candidates.dom().contains(other)
            }
        }),
{
    let peer = node.peer_key()@;
    if let CandidateInsertion::Inserted { evicted: Some(far) } = insertion {
        let k = choose|k: Seq<u8>| #[trigger]
            before.candidates.dom().contains(k) && !(distance(k, before.target) <= distance(
                peer,
                before.target,
            ));
        assert(distance(k, before.target) <= distance(far@, before.target));
    }
}

/// Taking a candidate hands out the closest one that is left to ask, and nothing
/// only where the round has spent its queries or nobody is left; outside a round
/// it is misuse.
pub proof fn law_taken_candidates_are_the_closest<N: LookupNode>(
    before: LookupView<N>,
    taken: Result<Option<N>, LookupError>,
    after: LookupView<N>,
    candidate: Seq<u8>,
)
    requires
        takes(before, taken, after),
        open_candidate(before, candidate),
    ensures
        !before.round_active ==> (taken matches Err(error) && error is InvalidState) && after
            == before,
        before.round_active && before.round_queries >= before.config.alpha ==> taken == Ok::<
            Option<N>,
            LookupError,
        >(None),
        before.round_active && before.round_queries < before.config.alpha ==> (taken matches Ok(
            Some(node),
        ) && open_candidate(before, node.peer_key()@) && node
            == before.candidates[node.peer_key()@] && distance(
            node.peer_key()@,
            before.target,
        ) <= distance(candidate, before.target) && !after.candidates.dom().contains(
            node.peer_key()@,
        ) && (candidate != node.peer_key()@ ==> after.candidates.dom().contains(candidate))),
{
    assert(before.pruned().candidates.dom().contains(candidate));
}

/// Limits are accepted exactly where each of them is positive. The standard ones
/// query three peers at a time in at most twenty rounds and queue two hundred
/// candidates, and are accepted for every positive number of results.
pub proof fn law_limits_are_positive(config: LookupConfig, count: usize)
    ensures
        config.is_valid() <==> config.count >= 1 && config.alpha >= 1 && config.max_iterations >= 1
            && config.max_candidates >= 1,
        LookupConfig::standard(count).is_valid() <==> count > 0,
        LookupConfig::standard(count).count == count,
        LookupConfig::standard(count).alpha == 3,
        LookupConfig::standard(count).max_iterations == 20,
        LookupConfig::standard(count).max_candidates == 200,
{
}

} // verus!
