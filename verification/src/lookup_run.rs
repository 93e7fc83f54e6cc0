//! The walk of an iterative lookup, as a machine that a transport drives.
//!
//! [`LookupRun::step`] owns the complete transport-independent walk: round
//! creation, closest-first α selection, peer state transitions, admission of
//! validated candidates, bounded-queue eviction, convergence, exhaustion and
//! the iteration limit. The transport performs each request and hands back a
//! reply; it owns only address eligibility, concurrent request execution and
//! response validation.

use crate::dht_lookup::{
    admits, CandidateInsertion, IterativeLookup, LookupError, LookupNode, LookupPeerState, LookupProgress,
    LookupQueryOutcome, LookupTermination, LookupView,
};
use crate::keys::{distance, key_views, lemma_distance_injective, LookupKey};
use crate::table::KeySet;
use crate::text::{encode_hex, hex};
use vstd::prelude::*;
use vstd::string::*;

verus! {

/// Failure produced while a lookup is driven through a transport.
#[derive(Debug)]
pub enum LookupRunError<E> {
    /// The lookup state machine rejected an operation.
    Lookup(LookupError),
    /// The transport adapter failed the complete lookup.
    Query(E),
    /// An adapter returned an outcome for a peer outside the active batch or
    /// returned more than one outcome for the same peer.
    UnexpectedResponder(LookupKey),
}

impl<E> LookupRunError<E> {
    /// The failure in words, where the transport's own failure reads as given.
    pub open spec fn text(self, cause: Seq<char>) -> Seq<char> {
        match self {
            LookupRunError::Lookup(error) => "lookup state error: "@ + error.text(),
            LookupRunError::Query(_) => "lookup query error: "@ + cause,
            LookupRunError::UnexpectedResponder(peer) => {
                "lookup adapter returned unexpected responder "@ + hex(peer@)
            },
        }
    }

    /// The failure in words, where the transport's own failure reads as given.
    pub fn message(&self, cause: &str) -> (message: String)
        ensures
            message@ == self.text(cause@),
    {
        match self {
            LookupRunError::Lookup(error) => {
                let mut message = "lookup state error: ".to_owned();
                message.append(error.message().as_str());
                message
            },
            LookupRunError::Query(_) => {
                let mut message = "lookup query error: ".to_owned();
                message.append(cause);
                message
            },
            LookupRunError::UnexpectedResponder(peer) => {
                let mut message = "lookup adapter returned unexpected responder ".to_owned();
                message.append(encode_hex(peer).as_str());
                message
            },
        }
    }
}

/// What the transport has to do next.
pub enum LookupRequest<N> {
    /// Say whether the address view of a candidate is usable.
    Eligibility {
        /// Candidate to look at.
        candidate: N,
    },
    /// Execute one concurrent lookup batch and validate its responses.
    Query {
        /// Key that is looked up.
        target: LookupKey,
        /// Number of peers wanted.
        count: usize,
        /// Number of the round.
        iteration: usize,
        /// Nodes to query.
        batch: Vec<N>,
    },
    /// Release what is kept for a farther candidate that left the queue.
    Evicted {
        /// Peer that left the queue.
        peer: LookupKey,
    },
    /// The lookup is over.
    Stop {
        /// Why it stopped.
        reason: LookupTermination,
    },
}

/// What the transport reports back.
pub enum LookupReply<N> {
    /// Nothing was asked; the walk may begin.
    Begin,
    /// Answer to [`LookupRequest::Eligibility`].
    Eligible(bool),
    /// Answer to [`LookupRequest::Query`]. A missing outcome counts as
    /// unresponsive.
    Outcomes(Vec<LookupQueryOutcome<N>>),
    /// Answer to [`LookupRequest::Evicted`].
    Released,
}

enum RunStage<N> {
    Idle,
    Selecting { candidate: N, batch: Vec<N> },
    Querying { awaiting: KeySet<LookupKey> },
    Admitting {
        candidate: N,
        candidates: Vec<N>,
        outcomes: Vec<LookupQueryOutcome<N>>,
        awaiting: KeySet<LookupKey>,
    },
    Releasing {
        candidates: Vec<N>,
        outcomes: Vec<LookupQueryOutcome<N>>,
        awaiting: KeySet<LookupKey>,
    },
}

/// Where a walk stands between two steps.
pub enum RunView<N> {
    /// Between walks.
    Idle,
    /// A candidate for the batch is being looked at.
    Selecting {
        /// Candidate that was asked about.
        candidate: N,
        /// Nodes chosen so far.
        batch: Seq<N>,
    },
    /// A batch is being queried.
    Querying {
        /// Peers without an outcome.
        awaiting: Set<Seq<u8>>,
    },
    /// A candidate of a response is being looked at.
    Admitting {
        /// Candidate that was asked about.
        candidate: N,
        /// Candidates of the same response that follow.
        candidates: Seq<N>,
        /// Outcomes that follow.
        outcomes: Seq<LookupQueryOutcome<N>>,
        /// Peers without an outcome.
        awaiting: Set<Seq<u8>>,
    },
    /// An evicted candidate is being released.
    Releasing {
        /// Candidates of the same response that follow.
        candidates: Seq<N>,
        /// Outcomes that follow.
        outcomes: Seq<LookupQueryOutcome<N>>,
        /// Peers without an outcome.
        awaiting: Set<Seq<u8>>,
    },
}

/// What a step asks for.
pub enum Ask<N> {
    /// Look at a candidate.
    Eligibility(N),
    /// Query a batch.
    Query(Seq<N>),
    /// Release a peer.
    Evicted(Seq<u8>),
    /// Stop.
    Stop(LookupTermination),
    /// The lookup is already in a round.
    Busy,
    /// The outcome of a peer that is not awaited.
    Unexpected(LookupKey),
}

/// Where a step leads.
pub struct Next<N> {
    /// Stage after the step.
    pub stage: RunView<N>,
    /// Lookup after the step.
    pub lookup: LookupView<N>,
    /// What the step asks for.
    pub ask: Ask<N>,
}

impl<N> LookupView<N> {
    /// The closest queued candidate that may still be queried.
    pub open spec fn next_peer(self) -> Seq<u8> {
        choose|peer: Seq<u8>| self.pruned().nearest(peer)
    }

    /// Whether the active round has room for a query and a candidate for it.
    pub open spec fn has_next(self) -> bool {
        self.round_queries < self.config.alpha && self.pruned().candidates.dom() != Set::<
            Seq<u8>,
        >::empty()
    }

    /// The lookup after its closest candidate was taken out of the queue.
    pub open spec fn without_next(self) -> Self {
        LookupView {
            candidates: self.pruned().candidates.remove(self.next_peer()),
            ..self.pruned()
        }
    }

    /// The lookup when no further candidate can be taken in the round.
    pub open spec fn drained(self) -> Self {
        if self.round_queries < self.config.alpha {
            self.pruned()
        } else {
            self
        }
    }

    /// The lookup after a round has begun.
    pub open spec fn begun(self) -> Self {
        LookupView {
            iterations: (self.iterations + 1) as nat,
            round_queries: 0,
            round_active: true,
            ..self.pruned()
        }
    }

    /// The lookup after a query to a node was put in flight.
    pub open spec fn marked(self, peer: Seq<u8>, node: N) -> Self {
        LookupView {
            states: self.states.insert(peer, LookupPeerState::Waiting),
            queried: self.queried.push(peer),
            in_flight: self.in_flight.insert(peer, node),
            round_queries: (self.round_queries + 1) as nat,
            ..self
        }
    }

    /// The lookup after every awaited peer was given up as unresponsive.
    pub open spec fn abandoned(self, awaiting: Set<Seq<u8>>) -> Self {
        LookupView {
            states: self.states.union_prefer_right(
                Map::new(
                    |k: Seq<u8>| awaiting.contains(k),
                    |k: Seq<u8>| LookupPeerState::Unresponsive,
                ),
            ),
            in_flight: self.in_flight.remove_keys(awaiting),
            ..self
        }
    }
}

/// Begin a round and ask about its first candidate, or stop.
pub open spec fn start<N>(lookup: LookupView<N>) -> Next<N> {
    if lookup.round_active {
        Next { stage: RunView::Idle, lookup, ask: Ask::Busy }
    } else if lookup.termination is Some {
        Next { stage: RunView::Idle, lookup, ask: Ask::Stop(lookup.termination->0) }
    } else if lookup.iterations >= lookup.config.max_iterations {
        Next {
            stage: RunView::Idle,
            lookup: lookup.finished(LookupTermination::IterationLimit),
            ask: Ask::Stop(LookupTermination::IterationLimit),
        }
    } else if lookup.pruned().candidates.dom() == Set::<Seq<u8>>::empty() {
        Next {
            stage: RunView::Idle,
            lookup: lookup.pruned().finished(LookupTermination::Exhausted),
            ask: Ask::Stop(LookupTermination::Exhausted),
        }
    } else {
        ask_about_next(lookup.begun(), Seq::empty())
    }
}

/// Ask about the closest candidate that is left.
pub open spec fn ask_about_next<N>(lookup: LookupView<N>, batch: Seq<N>) -> Next<N> {
    let candidate = lookup.candidates[lookup.next_peer()];
    Next {
        stage: RunView::Selecting { candidate, batch },
        lookup: lookup.without_next(),
        ask: Ask::Eligibility(candidate),
    }
}

/// Complete the round and stop, or begin another one.
pub open spec fn close<N>(lookup: LookupView<N>) -> Next<N> {
    match lookup.completed().1 {
        LookupProgress::Continue => start(lookup.completed().0),
        LookupProgress::Finished(reason) => Next {
            stage: RunView::Idle,
            lookup: lookup.completed().0,
            ask: Ask::Stop(reason),
        },
    }
}

/// Go on choosing the batch, or query it once no candidate is left.
pub open spec fn choose_batch<N: LookupNode>(lookup: LookupView<N>, batch: Seq<N>) -> Next<N> {
    if lookup.has_next() {
        ask_about_next(lookup, batch)
    } else if batch.len() == 0 {
        close(lookup.drained())
    } else {
        Next {
            stage: RunView::Querying { awaiting: lookup.in_flight.dom() },
            lookup: lookup.drained(),
            ask: Ask::Query(batch),
        }
    }
}

/// Take the candidates of a response, then the outcomes that follow it.
pub open spec fn take_response<N>(
    lookup: LookupView<N>,
    candidates: Seq<N>,
    outcomes: Seq<LookupQueryOutcome<N>>,
    awaiting: Set<Seq<u8>>,
) -> Next<N>
    decreases outcomes.len(),
{
    if candidates.len() > 0 {
        Next {
            stage: RunView::Admitting {
                candidate: candidates[0],
                candidates: candidates.drop_first(),
                outcomes,
                awaiting,
            },
            lookup,
            ask: Ask::Eligibility(candidates[0]),
        }
    } else if outcomes.len() == 0 {
        close(lookup.abandoned(awaiting))
    } else {
        let peer = outcomes[0].owner()@;
        let rest = outcomes.drop_first();
        if !awaiting.contains(peer) {
            Next { stage: RunView::Idle, lookup, ask: Ask::Unexpected(outcomes[0].owner()) }
        } else {
            match outcomes[0] {
                LookupQueryOutcome::Succeeded { candidates, .. } => take_response(
                    lookup.succeeded(peer),
                    candidates@,
                    rest,
                    awaiting.remove(peer),
                ),
                LookupQueryOutcome::Failed { .. } => take_response(
                    lookup.settled(peer, LookupPeerState::Failed),
                    Seq::empty(),
                    rest,
                    awaiting.remove(peer),
                ),
                LookupQueryOutcome::Unresponsive { .. } => take_response(
                    lookup.settled(peer, LookupPeerState::Unresponsive),
                    Seq::empty(),
                    rest,
                    awaiting.remove(peer),
                ),
            }
        }
    }
}

/// The walk of one iterative lookup.
pub struct LookupRun<N: LookupNode> {
    stage: RunStage<N>,
}

impl<N: LookupNode> View for LookupRun<N> {
    type V = RunView<N>;

    closed spec fn view(&self) -> RunView<N> {
        match self.stage {
            RunStage::Idle => RunView::Idle,
            RunStage::Selecting { candidate, batch } => RunView::Selecting {
                candidate,
                batch: batch@,
            },
            RunStage::Querying { awaiting } => RunView::Querying { awaiting: awaiting@ },
            RunStage::Admitting { candidate, candidates, outcomes, awaiting } => RunView::Admitting {
                candidate,
                candidates: candidates@,
                outcomes: outcomes@,
                awaiting: awaiting@,
            },
            RunStage::Releasing { candidates, outcomes, awaiting } => RunView::Releasing {
                candidates: candidates@,
                outcomes: outcomes@,
                awaiting: awaiting@,
            },
        }
    }
}

/// Whether a round is active and its queries in flight are those awaited.
pub open spec fn round_of<N: LookupNode>(lookup: LookupView<N>, awaiting: Set<Seq<u8>>) -> bool {
    &&& lookup.round_active
    &&& lookup.in_flight.dom() == awaiting
    &&& forall|k: Seq<u8>| #[trigger]
        awaiting.contains(k) ==> lookup.states[k] == LookupPeerState::Waiting
}

impl<N: LookupNode> RunView<N> {
    /// Whether a walk and its lookup belong together.
    pub open spec fn fits(self, lookup: LookupView<N>) -> bool {
        &&& lookup.well_formed()
        &&& match self {
            RunView::Idle => true,
            RunView::Selecting { candidate, batch } => {
                &&& round_of(lookup, lookup.in_flight.dom())
                &&& !lookup.states.dom().contains(candidate.peer_key()@)
                &&& lookup.round_queries < lookup.config.alpha
                &&& batch.len() == 0 <==> lookup.in_flight.dom() == Set::<Seq<u8>>::empty()
            },
            RunView::Querying { awaiting } => round_of(lookup, awaiting),
            RunView::Admitting { awaiting, .. } => round_of(lookup, awaiting),
            RunView::Releasing { awaiting, .. } => round_of(lookup, awaiting),
        }
    }

    /// Whether a reply answers what the walk asked for last.
    pub open spec fn accepts(self, reply: LookupReply<N>) -> bool {
        match self {
            RunView::Idle => reply is Begin,
            RunView::Selecting { .. } => reply is Eligible,
            RunView::Querying { .. } => reply is Outcomes,
            RunView::Admitting { .. } => reply is Eligible,
            RunView::Releasing { .. } => reply is Released,
        }
    }
}

/// Whether what a step returned is what it was to ask for.
pub open spec fn answers<N: LookupNode, E>(
    result: Result<LookupRequest<N>, LookupRunError<E>>,
    next: Next<N>,
) -> bool {
    match next.ask {
        Ask::Eligibility(candidate) => result matches Ok(LookupRequest::Eligibility { candidate: c })
            && cloned(candidate, c),
        Ask::Query(nodes) => result matches Ok(
            LookupRequest::Query { target, count, iteration, batch },
        ) && target@ == next.lookup.target && count == next.lookup.config.count && iteration
            == next.lookup.iterations && batch@ == nodes,
        Ask::Evicted(far) => result matches Ok(LookupRequest::Evicted { peer }) && peer@ == far,
        Ask::Stop(why) => result matches Ok(LookupRequest::Stop { reason }) && reason == why,
        Ask::Busy => result matches Err(LookupRunError::Lookup(LookupError::InvalidState(m))) && m@
            == "cannot begin a lookup round while another round is active"@,
        Ask::Unexpected(owner) => result matches Err(LookupRunError::UnexpectedResponder(peer))
            && peer == owner,
    }
}

/// Where a reply leads from a stage of the walk.
pub open spec fn leads_to<N: LookupNode>(
    from: RunView<N>,
    lookup: LookupView<N>,
    reply: LookupReply<N>,
    next: Next<N>,
) -> bool {
    match from {
        RunView::Idle => next == start(lookup),
        RunView::Selecting { candidate, batch } => if reply->Eligible_0 {
            exists|copy: N| #[trigger]
                cloned(candidate, copy) && next == choose_batch(
                    lookup.marked(candidate.peer_key()@, candidate),
                    batch.push(copy),
                )
        } else {
            next == choose_batch(lookup, batch)
        },
        RunView::Querying { awaiting } => next == take_response(
            lookup,
            Seq::empty(),
            reply->Outcomes_0@,
            awaiting,
        ),
        RunView::Admitting { candidate, candidates, outcomes, awaiting } => if reply->Eligible_0 {
            ||| exists|after: LookupView<N>| #[trigger]
                admits(lookup, candidate, after, None) && next == take_response(
                    after,
                    candidates,
                    outcomes,
                    awaiting,
                )
            ||| exists|after: LookupView<N>, far: Seq<u8>| #[trigger]
                admits(lookup, candidate, after, Some(far)) && next == (Next {
                    stage: RunView::Releasing { candidates, outcomes, awaiting },
                    lookup: after,
                    ask: Ask::Evicted(far),
                })
        } else {
            next == take_response(lookup, candidates, outcomes, awaiting)
        },
        RunView::Releasing { candidates, outcomes, awaiting } => next == take_response(
            lookup,
            candidates,
            outcomes,
            awaiting,
        ),
    }
}

proof fn lemma_next_peer<N: LookupNode>(lookup: LookupView<N>, peer: Seq<u8>)
    requires
        lookup.well_formed(),
        lookup.pruned().nearest(peer),
    ensures
        lookup.next_peer() == peer,
{
    let other = lookup.next_peer();
    assert(lookup.pruned().nearest(other));
    assert(lookup.candidates.dom().contains(peer));
    assert(lookup.candidates.dom().contains(other));
    assert(lookup.candidates[peer].peer_key()@ == peer);
    assert(lookup.candidates[other].peer_key()@ == other);
    lemma_distance_injective(peer, other, lookup.target);
}

impl<N: LookupNode> LookupRun<N> {
    /// A walk that has not begun.
    pub fn new() -> (run: Self)
        ensures
            run@ is Idle,
    {
        LookupRun { stage: RunStage::Idle }
    }

    fn ask_about_next<E>(
        &mut self,
        lookup: &mut IterativeLookup<N>,
        batch: Vec<N>,
    ) -> (result: Result<LookupRequest<N>, LookupRunError<E>>)
        requires
            old(lookup)@.well_formed(),
            old(lookup)@.has_next(),
            round_of(old(lookup)@, old(lookup)@.in_flight.dom()),
            batch@.len() == 0 <==> old(lookup)@.in_flight.dom() == Set::<Seq<u8>>::empty(),
        ensures
            final(self)@.fits(final(lookup)@),
            ({
                let next = ask_about_next(old(lookup)@, batch@);
                final(self)@ == next.stage && final(lookup)@ == next.lookup && answers(result, next)
            }),
    {
        let ghost before = lookup@;
        match lookup.take_next_candidate() {
            Ok(Some(candidate)) => {
                proof {
                    lemma_next_peer(before, candidate.peer_key()@);
                }
                let copy = candidate.clone();
                self.stage = RunStage::Selecting { candidate, batch };
                Ok(LookupRequest::Eligibility { candidate: copy })
            },
            Ok(None) => {
                self.stage = RunStage::Idle;
                Ok(LookupRequest::Stop { reason: LookupTermination::Exhausted })
            },
            Err(error) => {
                self.stage = RunStage::Idle;
                Err(LookupRunError::Lookup(error))
            },
        }
    }

    fn start<E>(&mut self, lookup: &mut IterativeLookup<N>) -> (result: Result<
        LookupRequest<N>,
        LookupRunError<E>,
    >)
        requires
            old(lookup)@.well_formed(),
        ensures
            final(self)@.fits(final(lookup)@),
            ({
                let next = start(old(lookup)@);
                final(self)@ == next.stage && final(lookup)@ == next.lookup && answers(result, next)
            }),
    {
        let ghost before = lookup@;
        self.stage = RunStage::Idle;
        match lookup.begin_round() {
            Err(error) => Err(LookupRunError::Lookup(error)),
            Ok(LookupProgress::Finished(reason)) => Ok(LookupRequest::Stop { reason }),
            Ok(LookupProgress::Continue) => {
                proof {
                    assert(lookup@.pruned().candidates =~= before.pruned().candidates);
                }
                let batch: Vec<N> = Vec::new();
                let result = self.ask_about_next(lookup, batch);
                result
            },
        }
    }

    fn close<E>(&mut self, lookup: &mut IterativeLookup<N>) -> (result: Result<
        LookupRequest<N>,
        LookupRunError<E>,
    >)
        requires
            old(lookup)@.well_formed(),
            old(lookup)@.round_active,
            old(lookup)@.in_flight.dom() == Set::<Seq<u8>>::empty(),
        ensures
            final(self)@.fits(final(lookup)@),
            ({
                let next = close(old(lookup)@);
                final(self)@ == next.stage && final(lookup)@ == next.lookup && answers(result, next)
            }),
    {
        self.stage = RunStage::Idle;
        match lookup.complete_round() {
            Err(error) => Err(LookupRunError::Lookup(error)),
            Ok(LookupProgress::Finished(reason)) => Ok(LookupRequest::Stop { reason }),
            Ok(LookupProgress::Continue) => self.start(lookup),
        }
    }

    fn choose_batch<E>(
        &mut self,
        lookup: &mut IterativeLookup<N>,
        batch: Vec<N>,
    ) -> (result: Result<LookupRequest<N>, LookupRunError<E>>)
        requires
            old(lookup)@.well_formed(),
            round_of(old(lookup)@, old(lookup)@.in_flight.dom()),
            batch@.len() == 0 <==> old(lookup)@.in_flight.dom() == Set::<Seq<u8>>::empty(),
        ensures
            final(self)@.fits(final(lookup)@),
            ({
                let next = choose_batch(old(lookup)@, batch@);
                final(self)@ == next.stage && final(lookup)@ == next.lookup && answers(result, next)
            }),
    {
        let ghost before = lookup@;
        self.stage = RunStage::Idle;
        match lookup.take_next_candidate() {
            Ok(Some(candidate)) => {
                proof {
                    lemma_next_peer(before, candidate.peer_key()@);
                }
                let copy = candidate.clone();
                self.stage = RunStage::Selecting { candidate, batch };
                Ok(LookupRequest::Eligibility { candidate: copy })
            },
            Ok(None) => {
                if batch.len() == 0 {
                    return self.close(lookup);
                }
                let mut awaiting: KeySet<LookupKey> = KeySet::new();
                let waiting = lookup.waiting_peers();
                let mut index: usize = 0;
                while index < waiting.len()
                    invariant
                        index <= waiting@.len(),
                        key_views(waiting@).to_set() == lookup@.in_flight.dom(),
                        forall|k: Seq<u8>| #[trigger]
                            awaiting@.contains(k) <==> key_views(
                                waiting@.take(index as int),
                            ).contains(k),
                    decreases waiting@.len() - index,
                {
                    let key = waiting[index];
                    let _ = awaiting.insert(key);
                    proof {
                        let taken = key_views(waiting@.take(index as int));
                        let taken1 = key_views(waiting@.take(index as int + 1));
                        assert(taken1 =~= taken.push(key@));
                        assert forall|k: Seq<u8>| #[trigger] taken1.contains(k) <==> taken.contains(
                            k,
                        ) || k == key@ by {
                            lemma_push_contains(taken, key@, k);
                        }
                    }
                    index += 1;
                }
                proof {
                    assert(waiting@.take(waiting@.len() as int) =~= waiting@);
                    assert forall|k: Seq<u8>| #[trigger] awaiting@.contains(k)
                        == lookup@.in_flight.dom().contains(k) by {
                        assert(key_views(waiting@).to_set().contains(k) == key_views(
                            waiting@,
                        ).contains(k));
                    }
                    assert(awaiting@ =~= lookup@.in_flight.dom());
                }
                let target = lookup.target();
                let count = lookup.config().count;
                let iteration = lookup.iterations();
                self.stage = RunStage::Querying { awaiting };
                Ok(LookupRequest::Query { target, count, iteration, batch })
            },
            Err(error) => Err(LookupRunError::Lookup(error)),
        }
    }

    fn abandon<E>(
        &mut self,
        lookup: &mut IterativeLookup<N>,
        awaiting: KeySet<LookupKey>,
    ) -> (result: Result<LookupRequest<N>, LookupRunError<E>>)
        requires
            old(lookup)@.well_formed(),
            round_of(old(lookup)@, awaiting@),
        ensures
            final(self)@.fits(final(lookup)@),
            ({
                let next = close(old(lookup)@.abandoned(awaiting@));
                final(self)@ == next.stage && final(lookup)@ == next.lookup && answers(result, next)
            }),
    {
        let ghost before = lookup@;
        let waiting = awaiting.members();
        let ghost all = waiting@.map(|_i: int, k: LookupKey| k@);
        let mut index: usize = 0;
        self.stage = RunStage::Idle;
        proof {
            assert(all.take(0).to_set() =~= Set::<Seq<u8>>::empty());
            assert(before.abandoned(Set::empty()).states =~= before.states);
            assert(before.abandoned(Set::empty()).in_flight =~= before.in_flight);
        }
        while index < waiting.len()
            invariant
                index <= waiting@.len(),
                all == waiting@.map(|_i: int, k: LookupKey| k@),
                all.no_duplicates(),
                all.to_set() == awaiting@,
                before.well_formed(),
                round_of(before, awaiting@),
                lookup@.well_formed(),
                lookup@ == before.abandoned(all.take(index as int).to_set()),
            decreases waiting@.len() - index,
        {
            let key = waiting[index];
            let ghost done = all.take(index as int).to_set();
            proof {
                assert(all[index as int] == key@);
                assert(all.contains(key@));
                assert(awaiting@.contains(key@));
                assert(!done.contains(key@)) by {
                    if done.contains(key@) {
                        let j = all.take(index as int).index_of(key@);
                        assert(all[j] == key@);
                    }
                }
                assert(before.in_flight.dom().contains(key@));
                assert(before.states.dom().contains(key@));
                assert(lookup@.is_waiting(key@));
            }
            match lookup.record_unresponsive(&key) {
                Ok(()) => {},
                Err(error) => {
                    return Err(LookupRunError::Lookup(error));
                },
            }
            proof {
                let done1 = all.take(index as int + 1).to_set();
                assert(all.take(index as int + 1) =~= all.take(index as int).push(key@));
                assert forall|k: Seq<u8>| #[trigger] done1.contains(k) <==> done.contains(k) || k
                    == key@ by {
                    lemma_push_contains(all.take(index as int), key@, k);
                }
                assert(lookup@.states =~= before.abandoned(done1).states);
                assert(lookup@.in_flight =~= before.abandoned(done1).in_flight);
            }
            index += 1;
        }
        proof {
            assert(all.take(all.len() as int) =~= all);
            assert(lookup@.in_flight.dom() =~= Set::<Seq<u8>>::empty());
        }
        self.close(lookup)
    }

    fn take_response<E>(
        &mut self,
        lookup: &mut IterativeLookup<N>,
        candidates: Vec<N>,
        outcomes: Vec<LookupQueryOutcome<N>>,
        awaiting: KeySet<LookupKey>,
    ) -> (result: Result<LookupRequest<N>, LookupRunError<E>>)
        requires
            old(lookup)@.well_formed(),
            round_of(old(lookup)@, awaiting@),
        ensures
            final(self)@.fits(final(lookup)@),
            ({
                let next = take_response(old(lookup)@, candidates@, outcomes@, awaiting@);
                final(self)@ == next.stage && final(lookup)@ == next.lookup && answers(result, next)
            }),
        decreases outcomes@.len(),
    {
        self.stage = RunStage::Idle;
        let mut candidates = candidates;
        let mut outcomes = outcomes;
        let mut awaiting = awaiting;
        if candidates.len() > 0 {
            let ghost offered = candidates@;
            let candidate = candidates.remove(0);
            let copy = candidate.clone();
            proof {
                assert(candidates@ =~= offered.drop_first());
            }
            self.stage = RunStage::Admitting { candidate, candidates, outcomes, awaiting };
            return Ok(LookupRequest::Eligibility { candidate: copy });
        }
        if outcomes.len() == 0 {
            return self.abandon(lookup, awaiting);
        }
        let ghost all = outcomes@;
        let outcome = outcomes.remove(0);
        let ghost before = lookup@;
        let ghost expected = awaiting@;
        proof {
            assert(outcomes@ =~= all.drop_first());
        }
        let peer = *outcome.responder();
        if !awaiting.remove(&peer) {
            return Err(LookupRunError::UnexpectedResponder(peer));
        }
        proof {
            assert(before.in_flight.dom().contains(peer@));
            assert(before.is_waiting(peer@));
        }
        let recorded = match outcome {
            LookupQueryOutcome::Succeeded { responder: _, candidates: offered } => {
                candidates = offered;
                lookup.record_success(&peer)
            },
            LookupQueryOutcome::Failed { responder: _ } => lookup.record_failure(&peer),
            LookupQueryOutcome::Unresponsive { responder: _ } => lookup.record_unresponsive(&peer),
        };
        match recorded {
            Ok(()) => {},
            Err(error) => {
                return Err(LookupRunError::Lookup(error));
            },
        }
        proof {
            assert(lookup@.in_flight.dom() =~= expected.remove(peer@));
            if !(all[0] is Succeeded) {
                assert(candidates@ =~= Seq::<N>::empty());
            }
        }
        self.take_response(lookup, candidates, outcomes, awaiting)
    }

    /// Take the transport's reply and say what it has to do next.
    ///
    /// A selected candidate that is not eligible is dropped without a state, so
    /// a later response may bring it back. The node that goes into a batch is a
    /// clone of the one that was taken from the queue.
    pub fn step<E>(
        &mut self,
        lookup: &mut IterativeLookup<N>,
        reply: LookupReply<N>,
    ) -> (result: Result<LookupRequest<N>, LookupRunError<E>>)
        requires
            old(self)@.fits(old(lookup)@),
            old(self)@.accepts(reply),
        ensures
            final(self)@.fits(final(lookup)@),
            exists|next: Next<N>| #[trigger]
                leads_to(old(self)@, old(lookup)@, reply, next) && final(self)@ == next.stage
                    && final(lookup)@ == next.lookup && answers(result, next),
    {
        let ghost from = self@;
        let ghost before = lookup@;
        let mut stage: RunStage<N> = RunStage::Idle;
        core::mem::swap(&mut stage, &mut self.stage);
        match (stage, reply) {
            (RunStage::Selecting { candidate, batch }, LookupReply::Eligible(eligible)) => {
                let mut batch = batch;
                let ghost node = candidate;
                let ghost chosen = batch@;
                if eligible {
                    let copy = candidate.clone();
                    let ghost clone = copy;
                    match lookup.mark_waiting(candidate) {
                        Ok(()) => {},
                        Err(error) => {
                            return Err(LookupRunError::Lookup(error));
                        },
                    }
                    batch.push(copy);
                    proof {
                        assert(lookup@.in_flight.dom().contains(node.peer_key()@));
                        assert(batch@ =~= chosen.push(clone));
                        assert(cloned(node, clone));
                        assert(lookup@ == before.marked(node.peer_key()@, node));
                        assert(from == RunView::Selecting { candidate: node, batch: chosen });
                        assert(leads_to(
                            from,
                            before,
                            reply,
                            choose_batch(
                                before.marked(node.peer_key()@, node),
                                chosen.push(clone),
                            ),
                        ));
                    }
                    self.choose_batch(lookup, batch)
                } else {
                    proof {
                        assert(leads_to(from, before, reply, choose_batch(before, chosen)));
                    }
                    self.choose_batch(lookup, batch)
                }
            },
            (RunStage::Querying { awaiting }, LookupReply::Outcomes(outcomes)) => {
                proof {
                    assert(leads_to(
                        from,
                        before,
                        reply,
                        take_response(before, Seq::empty(), outcomes@, awaiting@),
                    ));
                }
                let none: Vec<N> = Vec::new();
                self.take_response(lookup, none, outcomes, awaiting)
            },
            (
                RunStage::Admitting { candidate, candidates, outcomes, awaiting },
                LookupReply::Eligible(eligible),
            ) => {
                if eligible {
                    let ghost node = candidate;
                    assert(from == (RunView::Admitting {
                        candidate: node,
                        candidates: candidates@,
                        outcomes: outcomes@,
                        awaiting: awaiting@,
                    }));
                    assert(reply->Eligible_0);
                    let insertion = lookup.add_candidate(candidate);
                    if let CandidateInsertion::Inserted { evicted: Some(far) } = insertion {
                        self.stage = RunStage::Releasing { candidates, outcomes, awaiting };
                        proof {
                            assert(admits(before, node, lookup@, Some(far@)));
                            lemma_leads_to_release(from, before, reply, lookup@, far@);
                        }
                        return Ok(LookupRequest::Evicted { peer: far });
                    }
                    proof {
                        assert(admits(before, node, lookup@, None));
                        lemma_leads_on(from, before, reply, lookup@);
                    }
                    self.take_response(lookup, candidates, outcomes, awaiting)
                } else {
                    proof {
                        assert(leads_to(
                            from,
                            before,
                            reply,
                            take_response(before, candidates@, outcomes@, awaiting@),
                        ));
                    }
                    self.take_response(lookup, candidates, outcomes, awaiting)
                }
            },
            (RunStage::Releasing { candidates, outcomes, awaiting }, LookupReply::Released) => {
                proof {
                    assert(leads_to(
                        from,
                        before,
                        reply,
                        take_response(before, candidates@, outcomes@, awaiting@),
                    ));
                }
                self.take_response(lookup, candidates, outcomes, awaiting)
            },
            _ => {
                proof {
                    assert(leads_to(from, before, reply, start(before)));
                }
                self.start(lookup)
            },
        }
    }
}

proof fn lemma_leads_on<N: LookupNode>(
    from: RunView<N>,
    lookup: LookupView<N>,
    reply: LookupReply<N>,
    after: LookupView<N>,
)
    requires
        from is Admitting,
        reply == LookupReply::<N>::Eligible(true),
        admits(lookup, from->Admitting_candidate, after, None),
    ensures
        leads_to(
            from,
            lookup,
            reply,
            take_response(
                after,
                from->Admitting_candidates,
                from->Admitting_outcomes,
                from->Admitting_awaiting,
            ),
        ),
{
}

proof fn lemma_leads_to_release<N: LookupNode>(
    from: RunView<N>,
    lookup: LookupView<N>,
    reply: LookupReply<N>,
    after: LookupView<N>,
    far: Seq<u8>,
)
    requires
        from is Admitting,
        reply == LookupReply::<N>::Eligible(true),
        admits(lookup, from->Admitting_candidate, after, Some(far)),
    ensures
        leads_to(
            from,
            lookup,
            reply,
            Next {
                stage: RunView::Releasing {
                    candidates: from->Admitting_candidates,
                    outcomes: from->Admitting_outcomes,
                    awaiting: from->Admitting_awaiting,
                },
                lookup: after,
                ask: Ask::Evicted(far),
            },
        ),
{
}

proof fn lemma_push_contains(keys: Seq<Seq<u8>>, key: Seq<u8>, k: Seq<u8>)
    ensures
        keys.push(key).contains(k) <==> keys.contains(k) || k == key,
{
    let longer = keys.push(key);
    if keys.contains(k) {
        let j = keys.index_of(k);
        assert(longer[j] == k);
    }
    if k == key {
        assert(longer[keys.len() as int] == k);
    }
    if longer.contains(k) && k != key {
        let j = longer.index_of(k);
        assert(keys[j] == k);
    }
}

/// Whether each peer whose query is over in `before` has the same state in
/// `after`.
pub open spec fn keeps_final_states(
    before: Map<Seq<u8>, LookupPeerState>,
    after: Map<Seq<u8>, LookupPeerState>,
) -> bool {
    forall|k: Seq<u8>| #[trigger]
        before.dom().contains(k) && before[k] != LookupPeerState::Waiting ==> after.dom().contains(k)
            && after[k] == before[k]
}

proof fn lemma_close_keeps_states<N>(lookup: LookupView<N>)
    ensures
        close(lookup).lookup.states == lookup.states,
{
    assert(lookup.completed().0.states == lookup.states);
    assert(start(lookup.completed().0).lookup.states == lookup.completed().0.states);
}

pub(crate) proof fn lemma_response_keeps_final_states<N: LookupNode>(
    lookup: LookupView<N>,
    candidates: Seq<N>,
    outcomes: Seq<LookupQueryOutcome<N>>,
    awaiting: Set<Seq<u8>>,
)
    requires
        forall|k: Seq<u8>| #[trigger]
            awaiting.contains(k) ==> lookup.states.dom().contains(k) && lookup.states[k]
                == LookupPeerState::Waiting,
    ensures
        keeps_final_states(
            lookup.states,
            take_response(lookup, candidates, outcomes, awaiting).lookup.states,
        ),
    decreases outcomes.len(),
{
    lemma_close_keeps_states(lookup.abandoned(awaiting));
    let next = take_response(lookup, candidates, outcomes, awaiting);
    if candidates.len() == 0 && outcomes.len() == 0 {
        assert(next == close(lookup.abandoned(awaiting)));
        assert forall|k: Seq<u8>| #[trigger]
            lookup.states.dom().contains(k) && lookup.states[k]
                != LookupPeerState::Waiting implies next.lookup.states.dom().contains(k)
            && next.lookup.states[k] == lookup.states[k] by {
            assert(!awaiting.contains(k));
        }
    }
    if candidates.len() == 0 && outcomes.len() > 0 && awaiting.contains(outcomes[0].owner()@) {
        let peer = outcomes[0].owner()@;
        let rest = outcomes.drop_first();
        let (after, offered): (LookupView<N>, Seq<N>) = match outcomes[0] {
            LookupQueryOutcome::Succeeded { candidates, .. } => (
                lookup.succeeded(peer),
                candidates@,
            ),
            LookupQueryOutcome::Failed { .. } => (
                lookup.settled(peer, LookupPeerState::Failed),
                Seq::empty(),
            ),
            LookupQueryOutcome::Unresponsive { .. } => (
                lookup.settled(peer, LookupPeerState::Unresponsive),
                Seq::empty(),
            ),
        };
        assert(next == take_response(after, offered, rest, awaiting.remove(peer)));
        lemma_response_keeps_final_states(after, offered, rest, awaiting.remove(peer));
        assert forall|k: Seq<u8>| #[trigger]
            lookup.states.dom().contains(k) && lookup.states[k]
                != LookupPeerState::Waiting implies next.lookup.states.dom().contains(k)
            && next.lookup.states[k] == lookup.states[k] by {
            assert(k != peer);
            assert(after.states.dom().contains(k));
        }
    }
}

/// A peer whose query succeeded, failed or was abandoned keeps that state
/// through every later step of the walk.
pub proof fn law_final_states_stay<N: LookupNode>(
    from: RunView<N>,
    lookup: LookupView<N>,
    reply: LookupReply<N>,
    next: Next<N>,
)
    requires
        from.fits(lookup),
        from.accepts(reply),
        leads_to(from, lookup, reply, next),
    ensures
        keeps_final_states(lookup.states, next.lookup.states),
{
    match from {
        RunView::Idle => {},
        RunView::Selecting { .. } => {},
        RunView::Querying { awaiting } => {
            lemma_response_keeps_final_states(lookup, Seq::empty(), reply->Outcomes_0@, awaiting);
        },
        RunView::Admitting { candidate, candidates, outcomes, awaiting } => {
            if reply->Eligible_0 {
                if exists|after: LookupView<N>| #[trigger]
                    admits(lookup, candidate, after, None) && next == take_response(
                        after,
                        candidates,
                        outcomes,
                        awaiting,
                    ) {
                    let after = choose|after: LookupView<N>| #[trigger]
                        admits(lookup, candidate, after, None) && next == take_response(
                            after,
                            candidates,
                            outcomes,
                            awaiting,
                        );
                    lemma_response_keeps_final_states(after, candidates, outcomes, awaiting);
                }
            } else {
                lemma_response_keeps_final_states(lookup, candidates, outcomes, awaiting);
            }
        },
        RunView::Releasing { candidates, outcomes, awaiting } => {
            lemma_response_keeps_final_states(lookup, candidates, outcomes, awaiting);
        },
    }
}

/// A peer that already has a state in the lookup is not queued again, whatever
/// a responder says of it.
pub proof fn law_contacted_peers_stay_out<N: LookupNode>(
    lookup: LookupView<N>,
    node: N,
    after: LookupView<N>,
    evicted: Option<Seq<u8>>,
)
    requires
        lookup.states.dom().contains(node.peer_key()@),
        admits(lookup, node, after, evicted),
    ensures
        after == lookup,
        evicted is None,
{
}

/// Offering a candidate to a full queue never lets a farther peer in for a
/// closer one: what leaves the queue is farther from the target than what comes
/// in, and the queue keeps its size.
pub proof fn law_eviction_only_improves<N: LookupNode>(
    lookup: LookupView<N>,
    node: N,
    after: LookupView<N>,
    far: Seq<u8>,
)
    requires
        lookup.well_formed(),
        admits(lookup, node, after, Some(far)),
    ensures
        distance(node.peer_key()@, lookup.target) < distance(far, lookup.target),
        after.candidates.dom().contains(node.peer_key()@),
        !after.candidates.dom().contains(far),
        after.candidates.dom().len() == lookup.candidates.dom().len(),
{
    let peer = node.peer_key()@;
    let k = choose|k: Seq<u8>| #[trigger]
        lookup.candidates.dom().contains(k) && !(distance(k, lookup.target) <= distance(
            peer,
            lookup.target,
        ));
    assert(distance(k, lookup.target) <= distance(far, lookup.target));
}

/// A lookup that converged cannot improve: its results did not change in the
/// last round, there are as many as wanted or nobody is left to ask, and no
/// queued candidate is closer than any of them.
pub proof fn law_converged_lookups_cannot_improve<N: LookupNode>(lookup: LookupView<N>)
    requires
        lookup.completed().1 == LookupProgress::Finished(LookupTermination::Converged),
    ensures
        lookup.top() == lookup.previous,
        lookup.top().len() >= lookup.config.count || lookup.candidates.dom() == Set::<
            Seq<u8>,
        >::empty(),
        forall|k: Seq<u8>| #[trigger]
            lookup.candidates.dom().contains(k) ==> lookup.top().len() > 0 && distance(
                lookup.top().last(),
                lookup.target,
            ) <= distance(k, lookup.target),
{
}

/// A peer for which no outcome came is unresponsive, and no query is left in
/// flight when the round closes.
pub proof fn law_missing_outcomes_are_unresponsive<N: LookupNode>(
    lookup: LookupView<N>,
    awaiting: Set<Seq<u8>>,
    peer: Seq<u8>,
)
    requires
        round_of(lookup, awaiting),
        awaiting.contains(peer),
    ensures
        ({
            let after = take_response(lookup, Seq::empty(), Seq::empty(), awaiting).lookup;
            &&& after.states.dom().contains(peer)
            &&& after.states[peer] == LookupPeerState::Unresponsive
            &&& after.in_flight.dom() == Set::<Seq<u8>>::empty()
        }),
{
    let abandoned = lookup.abandoned(awaiting);
    assert(abandoned.in_flight.dom() =~= Set::<Seq<u8>>::empty());
    assert(abandoned.states.dom().contains(peer));
}

/// Each round that begins counts against the limit, so that a lookup ends.
pub proof fn law_rounds_are_limited<N: LookupNode>(lookup: LookupView<N>)
    requires
        lookup.well_formed(),
    ensures
        start(lookup).ask is Eligibility ==> start(lookup).lookup.iterations == lookup.iterations + 1
            && start(lookup).lookup.iterations <= lookup.config.max_iterations,
        !lookup.round_active && lookup.iterations == lookup.config.max_iterations ==> start(
            lookup,
        ).ask is Stop,
{
}

/// What is asked of the transport is what the step was to ask for: a candidate as
/// it is queued, a batch with the target, the wanted number and the number of the
/// round, the peer to release, or the reason to stop.
pub proof fn law_requests_say_what_is_asked<N: LookupNode, E>(
    result: Result<LookupRequest<N>, LookupRunError<E>>,
    next: Next<N>,
)
    requires
        answers(result, next),
    ensures
        next.ask matches Ask::Query(nodes) ==> (result matches Ok(
            LookupRequest::Query { target, count, iteration, batch },
        ) && target@ == next.lookup.target && count == next.lookup.config.count && iteration
            == next.lookup.iterations && batch@ == nodes),
        next.ask matches Ask::Eligibility(node) ==> (result matches Ok(
            LookupRequest::Eligibility { candidate },
        ) && cloned(node, candidate)),
        next.ask matches Ask::Evicted(far) ==> (result matches Ok(LookupRequest::Evicted { peer })
            && peer@ == far),
        next.ask matches Ask::Stop(why) ==> (result matches Ok(LookupRequest::Stop { reason })
            && reason == why),
        result matches Err(LookupRunError::UnexpectedResponder(peer)) ==> next.ask == Ask::<
            N,
        >::Unexpected(peer),
        result is Err ==> next.ask is Busy || next.ask is Unexpected,
        !(result matches Err(LookupRunError::Query(_))),
{
}

} // verus!
