//! Laws of the single steps of a walk: whom it asks about, when it queries, and
//! what it makes of each outcome.

use crate::dht_lookup::{
    admits, LookupNode, LookupPeerState, LookupProgress, LookupQueryOutcome, LookupTermination,
    LookupView,
};
use crate::keys::{distance, LookupKey};
use crate::lookup_run::{
    choose_batch, close, leads_to, lemma_response_keeps_final_states, start, take_response, Ask,
    LookupReply, Next, RunView,
};
use crate::round_laws::open_candidate;
use vstd::prelude::*;

verus! {

proof fn lemma_nearest_member(members: Set<Seq<u8>>, target: Seq<u8>) -> (near: Seq<u8>)
    requires
        members.finite(),
        members.len() > 0,
    ensures
        members.contains(near),
        forall|k: Seq<u8>| #[trigger]
            members.contains(k) ==> distance(near, target) <= distance(k, target),
    decreases members.len(),
{
    let a = members.choose();
    assert(members.contains(a));
    let rest = members.remove(a);
    if rest.len() == 0 {
        assert(rest =~= Set::empty());
        assert forall|k: Seq<u8>| #[trigger] members.contains(k) implies k == a by {
            if k != a {
                assert(rest.contains(k));
            }
        }
        a
    } else {
        let b = lemma_nearest_member(rest, target);
        let near = if distance(a, target) <= distance(b, target) {
            a
        } else {
            b
        };
        assert forall|k: Seq<u8>| #[trigger] members.contains(k) implies distance(near, target)
            <= distance(k, target) by {
            if k != a {
                assert(rest.contains(k));
            }
        }
        near
    }
}

/// Whether a step asks about the closest candidate that is left to ask, as it is
/// queued, and takes it out of the queue.
pub open spec fn asks_about_the_closest<N: LookupNode>(
    lookup: LookupView<N>,
    batch: Seq<N>,
    next: Next<N>,
) -> bool {
    exists|peer: Seq<u8>|
        #![trigger open_candidate(lookup, peer)]
        {
            &&& open_candidate(lookup, peer)
            &&& forall|k: Seq<u8>| #[trigger]
                open_candidate(lookup, k) ==> distance(peer, lookup.target) <= distance(
                    k,
                    lookup.target,
                )
            &&& next.ask == Ask::Eligibility(lookup.candidates[peer])
            &&& next.stage == (RunView::Selecting { candidate: lookup.candidates[peer], batch })
            &&& !next.lookup.candidates.dom().contains(peer)
            &&& forall|k: Seq<u8>| #[trigger]
                open_candidate(lookup, k) && k != peer ==> next.lookup.candidates.dom().contains(k)
        }
}

proof fn lemma_next_is_closest<N: LookupNode>(lookup: LookupView<N>, candidate: Seq<u8>)
    requires
        lookup.candidates.dom().finite(),
        open_candidate(lookup, candidate),
    ensures
        lookup.pruned().nearest(lookup.next_peer()),
        open_candidate(lookup, lookup.next_peer()),
        forall|k: Seq<u8>| #[trigger]
            open_candidate(lookup, k) ==> distance(lookup.next_peer(), lookup.target) <= distance(
                k,
                lookup.target,
            ),
{
    let left = lookup.pruned().candidates.dom();
    assert(left.contains(candidate));
    assert(left.subset_of(lookup.candidates.dom()));
    vstd::set_lib::lemma_len_subset(left, lookup.candidates.dom());
    assert(left.len() > 0) by {
        if left.len() == 0 {
            assert(left =~= Set::empty());
        }
    }
    let near = lemma_nearest_member(left, lookup.target);
    assert(lookup.pruned().nearest(near));
    assert forall|k: Seq<u8>| #[trigger] open_candidate(lookup, k) implies distance(
        lookup.next_peer(),
        lookup.target,
    ) <= distance(k, lookup.target) by {
        assert(left.contains(k));
    }
}

/// A walk begins a round by asking about the closest candidate that is left to
/// ask, with an empty batch, wherever there is one and the limit allows a round.
pub proof fn law_rounds_open_with_the_closest<N: LookupNode>(
    lookup: LookupView<N>,
    candidate: Seq<u8>,
)
    requires
        lookup.well_formed(),
        !lookup.round_active,
        lookup.termination is None,
        lookup.iterations < lookup.config.max_iterations,
        open_candidate(lookup, candidate),
    ensures
        asks_about_the_closest(lookup, Seq::empty(), start(lookup)),
        start(lookup).lookup.round_active,
        start(lookup).lookup.iterations == lookup.iterations + 1,
        start(lookup).lookup.round_queries == 0,
{
    let begun = lookup.begun();
    assert(lookup.pruned().candidates.dom().contains(candidate));
    assert forall|k: Seq<u8>| open_candidate(begun, k) <==> open_candidate(lookup, k) by {}
    assert(begun.candidates.dom().subset_of(lookup.candidates.dom()));
    vstd::set_lib::lemma_len_subset(begun.candidates.dom(), lookup.candidates.dom());
    assert(open_candidate(begun, candidate));
    lemma_next_is_closest(begun, candidate);
    let peer = begun.next_peer();
    assert(open_candidate(lookup, peer));
    assert(begun.candidates[peer] == lookup.candidates[peer]);
}

/// A walk that cannot begin a round says why: it is in one, it has stopped before,
/// the rounds are spent, or nobody is left to ask.
pub proof fn law_walks_stop_for_a_reason<N: LookupNode>(lookup: LookupView<N>)
    ensures
        lookup.round_active ==> start(lookup).ask is Busy && start(lookup).lookup == lookup,
        !lookup.round_active && lookup.termination is Some ==> start(lookup).ask == Ask::<N>::Stop(
            lookup.termination->0,
        ) && start(lookup).lookup == lookup,
        !lookup.round_active && lookup.termination is None && lookup.iterations
            >= lookup.config.max_iterations ==> start(lookup).ask == Ask::<N>::Stop(
            LookupTermination::IterationLimit,
        ) && start(lookup).lookup.termination == Some(LookupTermination::IterationLimit),
        !lookup.round_active && lookup.termination is None && lookup.iterations
            < lookup.config.max_iterations && (forall|k: Seq<u8>| #[trigger]
            lookup.candidates.dom().contains(k) ==> lookup.states.dom().contains(k)) ==> start(
            lookup,
        ).ask == Ask::<N>::Stop(LookupTermination::Exhausted) && start(lookup).lookup.termination
            == Some(LookupTermination::Exhausted),
        !(start(lookup).ask is Eligibility) ==> start(lookup).stage is Idle,
{
    if forall|k: Seq<u8>| #[trigger]
        lookup.candidates.dom().contains(k) ==> lookup.states.dom().contains(k) {
        assert(lookup.pruned().candidates.dom() =~= Set::<Seq<u8>>::empty());
    }
}

/// A batch grows while the round has queries left and a candidate is left to ask,
/// and the closest such candidate comes next. Once there is none the batch is
/// queried as it was chosen; an empty one is never queried.
pub proof fn law_batches_fill_up<N: LookupNode>(
    lookup: LookupView<N>,
    batch: Seq<N>,
    candidate: Seq<u8>,
)
    requires
        lookup.well_formed(),
    ensures
        lookup.round_queries < lookup.config.alpha && open_candidate(lookup, candidate)
            ==> asks_about_the_closest(lookup, batch, choose_batch(lookup, batch)),
        batch.len() > 0 && (lookup.round_queries >= lookup.config.alpha || (forall|k: Seq<u8>|
            !open_candidate(lookup, k))) ==> {
            &&& choose_batch(lookup, batch).ask == Ask::Query(batch)
            &&& choose_batch(lookup, batch).stage == (RunView::<N>::Querying {
                awaiting: lookup.in_flight.dom(),
            })
            &&& choose_batch(lookup, batch).lookup.in_flight == lookup.in_flight
            &&& choose_batch(lookup, batch).lookup.states == lookup.states
        },
        choose_batch(lookup, batch).ask matches Ask::Query(asked) ==> asked.len() > 0,
{
    if open_candidate(lookup, candidate) {
        assert(lookup.pruned().candidates.dom().contains(candidate));
        lemma_next_is_closest(lookup, candidate);
        let peer = lookup.next_peer();
        assert(open_candidate(lookup, peer));
    }
    if forall|k: Seq<u8>| !open_candidate(lookup, k) {
        assert forall|k: Seq<u8>| !lookup.pruned().candidates.dom().contains(k) by {
            assert(!open_candidate(lookup, k));
        }
        assert(lookup.pruned().candidates.dom() =~= Set::<Seq<u8>>::empty());
    }
}

/// A candidate that is found eligible joins the batch at its end, waits for its
/// outcome, and is listed last among those queried.
pub proof fn law_eligible_candidates_are_queried<N: LookupNode>(
    candidate: N,
    batch: Seq<N>,
    lookup: LookupView<N>,
    next: Next<N>,
)
    requires
        leads_to(
            RunView::Selecting { candidate, batch },
            lookup,
            LookupReply::Eligible(true),
            next,
        ),
    ensures
        next.lookup.states.dom().contains(candidate.peer_key()@),
        next.lookup.states[candidate.peer_key()@] == LookupPeerState::Waiting,
        next.lookup.in_flight.dom().contains(candidate.peer_key()@),
        next.lookup.in_flight[candidate.peer_key()@] == candidate,
        next.lookup.queried == lookup.queried.push(candidate.peer_key()@),
        next.lookup.round_queries == lookup.round_queries + 1,
        match next.stage {
            RunView::Selecting { batch: grown, .. } => grown.len() == batch.len() + 1 && cloned(
                candidate,
                grown.last(),
            ) && grown.drop_last() == batch,
            _ => next.ask matches Ask::Query(grown) && grown.len() == batch.len() + 1 && cloned(
                candidate,
                grown.last(),
            ) && grown.drop_last() == batch,
        },
{
    let copy = choose|copy: N| #[trigger]
        cloned(candidate, copy) && next == choose_batch(
            lookup.marked(candidate.peer_key()@, candidate),
            batch.push(copy),
        );
    assert(batch.push(copy).drop_last() =~= batch);
}

/// A round that closes goes on with another one, or stops for the reason that its
/// end gives.
pub proof fn law_rounds_close_as_they_end<N: LookupNode>(lookup: LookupView<N>)
    ensures
        lookup.completed().1 matches LookupProgress::Finished(reason) ==> close(lookup).ask
            == Ask::<N>::Stop(reason) && close(lookup).lookup == lookup.completed().0 && close(
            lookup,
        ).stage is Idle,
        lookup.completed().1 is Continue ==> close(lookup) == start(lookup.completed().0),
        close(lookup).lookup.successful == lookup.successful,
        close(lookup).lookup.queried == lookup.queried,
{
}

/// The candidates of a response are asked about in their order, one at a time, and
/// nothing changes before the answer.
pub proof fn law_offered_candidates_are_looked_at<N: LookupNode>(
    lookup: LookupView<N>,
    candidates: Seq<N>,
    outcomes: Seq<LookupQueryOutcome<N>>,
    awaiting: Set<Seq<u8>>,
)
    requires
        candidates.len() > 0,
    ensures
        ({
            let next = take_response(lookup, candidates, outcomes, awaiting);
            &&& next.ask == Ask::Eligibility(candidates[0])
            &&& next.lookup == lookup
            &&& (next.stage matches RunView::Admitting {
                candidate,
                candidates: later,
                outcomes: rest,
                awaiting: still,
            } && candidate == candidates[0] && later == candidates.drop_first() && rest == outcomes
                && still == awaiting)
        }),
{
}

/// An outcome for a peer that is not awaited fails the walk at that peer, with the
/// lookup as it was.
pub proof fn law_unexpected_responders_are_refused<N: LookupNode>(
    lookup: LookupView<N>,
    outcomes: Seq<LookupQueryOutcome<N>>,
    awaiting: Set<Seq<u8>>,
    responder: LookupKey,
    candidates: Vec<N>,
)
    requires
        outcomes.len() > 0,
        outcomes[0] == (LookupQueryOutcome::Succeeded { responder, candidates }) || outcomes[0] == (
        LookupQueryOutcome::<N>::Failed { responder }) || outcomes[0] == (
        LookupQueryOutcome::<N>::Unresponsive { responder }),
        !awaiting.contains(responder@),
    ensures
        take_response(lookup, Seq::empty(), outcomes, awaiting).ask == Ask::<N>::Unexpected(
            responder,
        ),
        take_response(lookup, Seq::empty(), outcomes, awaiting).lookup == lookup,
        take_response(lookup, Seq::empty(), outcomes, awaiting).stage is Idle,
{
}

/// An outcome for a peer that is awaited gives the peer its state for good: an
/// answer makes it a success, an error a failure, and silence unresponsive.
pub proof fn law_outcomes_decide_their_peer<N: LookupNode>(
    lookup: LookupView<N>,
    outcomes: Seq<LookupQueryOutcome<N>>,
    awaiting: Set<Seq<u8>>,
    responder: LookupKey,
    candidates: Vec<N>,
)
    requires
        outcomes.len() > 0,
        awaiting.contains(responder@),
        forall|k: Seq<u8>| #[trigger]
            awaiting.contains(k) ==> lookup.states.dom().contains(k) && lookup.states[k]
                == LookupPeerState::Waiting,
    ensures
        ({
            let after = take_response(lookup, Seq::empty(), outcomes, awaiting).lookup.states;
            &&& outcomes[0] == (LookupQueryOutcome::Succeeded { responder, candidates })
                ==> after.dom().contains(responder@) && after[responder@]
                == LookupPeerState::Succeeded
            &&& outcomes[0] == (LookupQueryOutcome::<N>::Failed { responder })
                ==> after.dom().contains(responder@) && after[responder@] == LookupPeerState::Failed
            &&& outcomes[0] == (LookupQueryOutcome::<N>::Unresponsive { responder })
                ==> after.dom().contains(responder@) && after[responder@]
                == LookupPeerState::Unresponsive
        }),
{
    let peer = responder@;
    let rest = outcomes.drop_first();
    let still = awaiting.remove(peer);
    if outcomes[0] == (LookupQueryOutcome::Succeeded { responder, candidates }) {
        lemma_response_keeps_final_states(lookup.succeeded(peer), candidates@, rest, still);
        assert(lookup.succeeded(peer).states.dom().contains(peer));
    }
    if outcomes[0] == (LookupQueryOutcome::<N>::Failed { responder }) {
        let after = lookup.settled(peer, LookupPeerState::Failed);
        lemma_response_keeps_final_states(after, Seq::empty(), rest, still);
        assert(after.states.dom().contains(peer));
    }
    if outcomes[0] == (LookupQueryOutcome::<N>::Unresponsive { responder }) {
        let after = lookup.settled(peer, LookupPeerState::Unresponsive);
        lemma_response_keeps_final_states(after, Seq::empty(), rest, still);
        assert(after.states.dom().contains(peer));
    }
}

/// The candidates of an answer are looked at before the next outcome is, and an
/// answer without any leads to the next outcome.
pub proof fn law_answers_bring_their_candidates<N: LookupNode>(
    lookup: LookupView<N>,
    outcomes: Seq<LookupQueryOutcome<N>>,
    awaiting: Set<Seq<u8>>,
    responder: LookupKey,
    candidates: Vec<N>,
)
    requires
        outcomes.len() > 0,
        outcomes[0] == (LookupQueryOutcome::Succeeded { responder, candidates }),
        awaiting.contains(responder@),
        candidates@.len() > 0,
    ensures
        ({
            let next = take_response(lookup, Seq::empty(), outcomes, awaiting);
            &&& next.ask == Ask::Eligibility(candidates@[0])
            &&& next.lookup.successful.dom().contains(responder@)
            &&& !next.lookup.in_flight.dom().contains(responder@)
            &&& (next.stage matches RunView::Admitting {
                candidates: later,
                outcomes: rest,
                awaiting: still,
                ..
            } && later == candidates@.drop_first() && rest == outcomes.drop_first() && still
                == awaiting.remove(responder@))
        }),
{
    let peer = responder@;
    assert(take_response(lookup, Seq::empty(), outcomes, awaiting) == take_response(
        lookup.succeeded(peer),
        candidates@,
        outcomes.drop_first(),
        awaiting.remove(peer),
    ));
}

/// A candidate of a response that is found not eligible is dropped: the next one
/// is asked about, and the lookup is as it was.
pub proof fn law_ineligible_offers_are_dropped<N: LookupNode>(
    candidate: N,
    candidates: Seq<N>,
    outcomes: Seq<LookupQueryOutcome<N>>,
    awaiting: Set<Seq<u8>>,
    lookup: LookupView<N>,
    next: Next<N>,
)
    requires
        leads_to(
            RunView::Admitting { candidate, candidates, outcomes, awaiting },
            lookup,
            LookupReply::Eligible(false),
            next,
        ),
        candidates.len() > 0,
    ensures
        next.lookup == lookup,
        next.ask == Ask::Eligibility(candidates[0]),
{
}

/// A candidate of a response that is found eligible is queued unless its peer was
/// contacted. Where the queue is full and every member is closer it stays out;
/// where one is farther, the farthest leaves for it and is released before
/// anything else goes on.
pub proof fn law_eligible_offers_are_queued<N: LookupNode>(
    candidate: N,
    candidates: Seq<N>,
    outcomes: Seq<LookupQueryOutcome<N>>,
    awaiting: Set<Seq<u8>>,
    lookup: LookupView<N>,
    next: Next<N>,
)
    requires
        leads_to(
            RunView::Admitting { candidate, candidates, outcomes, awaiting },
            lookup,
            LookupReply::Eligible(true),
            next,
        ),
        candidates.len() > 0,
    ensures
        ({
            let peer = candidate.peer_key()@;
            let queue = lookup.candidates.dom();
            let room = queue.contains(peer) || queue.len() < lookup.config.max_candidates;
            let farther = exists|k: Seq<u8>| #[trigger]
                queue.contains(k) && distance(peer, lookup.target) < distance(k, lookup.target);
            &&& next.lookup.states == lookup.states
            &&& next.lookup.in_flight == lookup.in_flight
            &&& lookup.states.dom().contains(peer) ==> next.lookup == lookup
            &&& !lookup.states.dom().contains(peer) && !room && !farther ==> next.lookup == lookup
            &&& !lookup.states.dom().contains(peer) && (room || farther) ==> {
                &&& next.lookup.candidates.dom().contains(peer)
                &&& next.lookup.candidates[peer] == candidate
            }
            &&& !lookup.states.dom().contains(peer) && !room && farther ==> (next.ask
                matches Ask::Evicted(far) && queue.contains(far)
                && !next.lookup.candidates.dom().contains(far) && distance(peer, lookup.target)
                < distance(far, lookup.target) && next.stage == (RunView::Releasing {
                candidates,
                outcomes,
                awaiting,
            }))
            &&& !(next.ask is Evicted) ==> next.ask == Ask::Eligibility(candidates[0])
        }),
{
    let peer = candidate.peer_key()@;
    let queue = lookup.candidates.dom();
    if exists|after: LookupView<N>, far: Seq<u8>| #[trigger]
        admits(lookup, candidate, after, Some(far)) && next == (Next {
            stage: RunView::Releasing { candidates, outcomes, awaiting },
            lookup: after,
            ask: Ask::Evicted(far),
        }) {
        let (after, far) = choose|after: LookupView<N>, far: Seq<u8>| #[trigger]
            admits(lookup, candidate, after, Some(far)) && next == (Next {
                stage: RunView::Releasing { candidates, outcomes, awaiting },
                lookup: after,
                ask: Ask::Evicted(far),
            });
        let k = choose|k: Seq<u8>| #[trigger]
            queue.contains(k) && !(distance(k, lookup.target) <= distance(peer, lookup.target));
        assert(distance(k, lookup.target) <= distance(far, lookup.target));
        assert(queue.contains(k) && distance(peer, lookup.target) < distance(k, lookup.target));
    } else {
        let after = choose|after: LookupView<N>| #[trigger]
            admits(lookup, candidate, after, None) && next == take_response(
                after,
                candidates,
                outcomes,
                awaiting,
            );
        assert(admits(lookup, candidate, after, None));
    }
}

/// Once an evicted peer is released, the response goes on with its next candidate.
pub proof fn law_releases_resume_the_response<N: LookupNode>(
    candidates: Seq<N>,
    outcomes: Seq<LookupQueryOutcome<N>>,
    awaiting: Set<Seq<u8>>,
    lookup: LookupView<N>,
    next: Next<N>,
)
    requires
        leads_to(
            RunView::Releasing { candidates, outcomes, awaiting },
            lookup,
            LookupReply::Released,
            next,
        ),
        candidates.len() > 0,
    ensures
        next.lookup == lookup,
        next.ask == Ask::Eligibility(candidates[0]),
{
}

} // verus!
