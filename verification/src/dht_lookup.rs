//! Transport-independent Kademlia iterative lookup scheduling.
//!
//! [`IterativeLookup`] keeps the candidate queue, the per-peer states and the
//! convergence rule of one lookup. It performs no I/O: a transport asks it for
//! candidates and reports what became of each query.

use crate::keys::{
    ascending, closer, closest, closest_keys, distance, is_closest, key_views, same_key,
    sort_by_distance, LookupKey,
};
use crate::table::{Table, TableKey};
use crate::text::{encode_hex, hex};
use vstd::prelude::*;
use vstd::string::*;

verus! {

impl TableKey for LookupKey {
    fn same(&self, other: &Self) -> (same: bool) {
        same_key(self, other)
    }

    fn duplicate(&self) -> (copy: Self) {
        *self
    }
}

/// A lookup candidate with a stable 256-bit peer identity.
pub trait LookupNode: Clone + Sized {
    /// The peer identity of the candidate.
    spec fn peer_key(&self) -> LookupKey;

    /// Return the peer identity used for XOR ordering and deduplication.
    fn lookup_peer_id(&self) -> (peer: LookupKey)
        ensures
            peer == self.peer_key(),
    ;
}

/// Iterative lookup limits shared by all transports.
#[derive(Debug, Clone, Copy, PartialEq, Eq, Structural)]
pub struct LookupConfig {
    /// Number of closest successful responders returned.
    pub count: usize,
    /// Maximum queries issued concurrently in one round.
    pub alpha: usize,
    /// Maximum number of query rounds.
    pub max_iterations: usize,
    /// Maximum queued candidates retained from untrusted network input.
    pub max_candidates: usize,
}

impl LookupConfig {
    /// Whether every limit is positive.
    pub open spec fn is_valid(self) -> bool {
        self.count > 0 && self.alpha > 0 && self.max_iterations > 0 && self.max_candidates > 0
    }

    /// What is said of the first limit that is zero.
    pub open spec fn complaint(self) -> Seq<char> {
        if self.count == 0 {
            "lookup result count must be greater than zero"@
        } else if self.alpha == 0 {
            "lookup alpha must be greater than zero"@
        } else if self.max_iterations == 0 {
            "lookup iteration limit must be greater than zero"@
        } else {
            "lookup candidate limit must be greater than zero"@
        }
    }

    /// The standard Kademlia lookup limits for a requested result count.
    pub open spec fn standard(count: usize) -> LookupConfig {
        LookupConfig { count, alpha: 3, max_iterations: 20, max_candidates: 200 }
    }

    /// The standard Kademlia lookup limits for a requested result count.
    #[must_use]
    pub fn saorsa(count: usize) -> (config: Self)
        ensures
            config == LookupConfig::standard(count),
    {
        LookupConfig { count, alpha: 3, max_iterations: 20, max_candidates: 200 }
    }

    /// Accept the limits, or name the first one that is zero.
    pub fn validate(self) -> (checked: Result<Self, LookupError>)
        ensures
            match checked {
                Ok(config) => self.is_valid() && config == self,
                Err(error) => !self.is_valid() && (error matches LookupError::InvalidConfig(m)
                    && m@ == self.complaint()),
            },
    {
        if self.count == 0 {
            return Err(LookupError::InvalidConfig("lookup result count must be greater than zero"));
        }
        if self.alpha == 0 {
            return Err(LookupError::InvalidConfig("lookup alpha must be greater than zero"));
        }
        if self.max_iterations == 0 {
            return Err(
                LookupError::InvalidConfig("lookup iteration limit must be greater than zero"),
            );
        }
        if self.max_candidates == 0 {
            return Err(
                LookupError::InvalidConfig("lookup candidate limit must be greater than zero"),
            );
        }
        Ok(self)
    }
}

/// Final reason an iterative lookup stopped.
#[derive(Debug, Clone, Copy, PartialEq, Eq, Structural)]
pub enum LookupTermination {
    /// The complete closest-result set stopped changing and no queued peer
    /// could improve it.
    Converged,
    /// No contactable candidates remain.
    Exhausted,
    /// The configured round limit was reached.
    IterationLimit,
}

/// Result of completing or attempting to begin a lookup round.
#[derive(Debug, Clone, Copy, PartialEq, Eq, Structural)]
pub enum LookupProgress {
    /// The transport should begin or continue querying.
    Continue,
    /// The lookup has stopped for the supplied reason.
    Finished(LookupTermination),
}

/// Result of inserting a candidate into the bounded closest-first queue.
#[derive(Debug, Clone, Copy, PartialEq, Eq)]
pub enum CandidateInsertion {
    /// A new candidate was queued. When capacity was full, `evicted` identifies
    /// the farther peer that was removed.
    Inserted {
        /// Farther peer removed to make room for this candidate.
        evicted: Option<LookupKey>,
    },
    /// The existing queued representation for this peer was updated.
    Replaced,
    /// The peer already has a final state in this lookup.
    AlreadyContacted,
    /// The candidate was farther than every retained candidate at capacity.
    TooFar,
}

/// Per-lookup state of a peer that has been contacted.
#[derive(Debug, Clone, Copy, PartialEq, Eq, Structural)]
pub enum LookupPeerState {
    /// A query is currently in flight.
    Waiting,
    /// The peer returned a response.
    Succeeded,
    /// The query returned an explicit error.
    Failed,
    /// The transport abandoned the query after its round grace period.
    Unresponsive,
}

/// State-machine misuse or invalid lookup configuration.
#[derive(Debug, Clone, PartialEq, Eq)]
pub enum LookupError {
    /// A numeric lookup limit was zero.
    InvalidConfig(&'static str),
    /// Driver methods were called out of order.
    InvalidState(&'static str),
    /// A result was recorded for a peer that is not currently in flight.
    PeerNotWaiting(LookupKey),
}

impl LookupError {
    /// The error in words.
    pub open spec fn text(self) -> Seq<char> {
        match self {
            LookupError::InvalidConfig(message) => message@,
            LookupError::InvalidState(message) => message@,
            LookupError::PeerNotWaiting(peer) => "peer "@ + hex(peer@) + " is not waiting"@,
        }
    }

    /// The error in words.
    pub fn message(&self) -> (message: String)
        ensures
            message@ == self.text(),
    {
        match self {
            LookupError::InvalidConfig(message) => str::to_owned(message),
            LookupError::InvalidState(message) => str::to_owned(message),
            LookupError::PeerNotWaiting(peer) => {
                let mut message = "peer ".to_owned();
                message.append(encode_hex(peer).as_str());
                message.append(" is not waiting");
                message
            },
        }
    }
}

/// Result of one transport query in an iterative lookup batch.
#[derive(Debug, Clone, PartialEq, Eq)]
pub enum LookupQueryOutcome<N> {
    /// The responder returned a valid response and zero or more validated
    /// candidates.
    Succeeded {
        /// Peer that answered the query.
        responder: LookupKey,
        /// Candidates admitted by the transport's response validator.
        candidates: Vec<N>,
    },
    /// The query completed with a transport or protocol failure.
    Failed {
        /// Peer whose query failed.
        responder: LookupKey,
    },
    /// The transport abandoned the query after its batch grace period.
    Unresponsive {
        /// Peer whose query did not finish in time.
        responder: LookupKey,
    },
}

impl<N> LookupQueryOutcome<N> {
    /// The peer that an outcome belongs to.
    pub open spec fn owner(self) -> LookupKey {
        match self {
            LookupQueryOutcome::Succeeded { responder, .. } => responder,
            LookupQueryOutcome::Failed { responder } => responder,
            LookupQueryOutcome::Unresponsive { responder } => responder,
        }
    }

    /// Peer this outcome belongs to.
    #[must_use]
    pub fn responder(&self) -> (responder: &LookupKey)
        ensures
            *responder == self.owner(),
    {
        match self {
            LookupQueryOutcome::Succeeded { responder, .. } => responder,
            LookupQueryOutcome::Failed { responder } => responder,
            LookupQueryOutcome::Unresponsive { responder } => responder,
        }
    }
}

/// Whether an outcome is the misuse error with the given message.
pub open spec fn misused<T>(outcome: Result<T, LookupError>, message: Seq<char>) -> bool {
    outcome matches Err(LookupError::InvalidState(m)) && m@ == message
}

/// Whether an outcome says that the given peer has no query in flight.
pub open spec fn not_waiting<T>(outcome: Result<T, LookupError>, peer: LookupKey) -> bool {
    outcome matches Err(LookupError::PeerNotWaiting(p)) && p == peer
}

/// The state of a lookup: what each method reads and changes.
pub struct LookupView<N> {
    /// Key that the lookup converges on.
    pub target: Seq<u8>,
    /// Limits of the lookup.
    pub config: LookupConfig,
    /// Queued candidates by peer.
    pub candidates: Map<Seq<u8>, N>,
    /// Peers that were contacted or are known results.
    pub states: Map<Seq<u8>, LookupPeerState>,
    /// Peers in the order in which they were queried.
    pub queried: Seq<Seq<u8>>,
    /// Nodes with a query in flight.
    pub in_flight: Map<Seq<u8>, N>,
    /// Nodes that answered.
    pub successful: Map<Seq<u8>, N>,
    /// Closest results at the end of the previous round.
    pub previous: Seq<Seq<u8>>,
    /// Rounds begun so far.
    pub iterations: nat,
    /// Whether a round is active.
    pub round_active: bool,
    /// Queries issued in the active round.
    pub round_queries: nat,
    /// Why the lookup stopped, once it has.
    pub termination: Option<LookupTermination>,
}

impl<N> LookupView<N> {
    /// The same lookup, stopped for a reason.
    pub open spec fn finished(self, reason: LookupTermination) -> Self {
        LookupView { round_active: false, termination: Some(reason), ..self }
    }

    /// The same lookup without the queued candidates that have a state.
    pub open spec fn pruned(self) -> Self {
        LookupView { candidates: self.candidates.remove_keys(self.states.dom()), ..self }
    }

    /// The peers that [`IterativeLookup::results`] returns.
    pub open spec fn top(self) -> Seq<Seq<u8>> {
        closest(self.successful.dom(), self.target, self.config.count as nat)
    }

    /// Whether some queued candidate is closer than the farthest result, or
    /// there is a candidate and no result.
    pub open spec fn promising(self) -> bool {
        exists|k: Seq<u8>| #[trigger]
            self.candidates.dom().contains(k) && (self.top().len() == 0 || distance(k, self.target)
                < distance(self.top().last(), self.target))
    }

    /// Whether a peer is at least as far from the target as every candidate.
    pub open spec fn farthest(self, peer: Seq<u8>) -> bool {
        self.candidates.dom().contains(peer) && forall|k: Seq<u8>| #[trigger]
            self.candidates.dom().contains(k) ==> distance(k, self.target) <= distance(
                peer,
                self.target,
            )
    }

    /// Whether a peer is at least as close to the target as every candidate.
    pub open spec fn nearest(self, peer: Seq<u8>) -> bool {
        self.candidates.dom().contains(peer) && forall|k: Seq<u8>| #[trigger]
            self.candidates.dom().contains(k) ==> distance(peer, self.target) <= distance(
                k,
                self.target,
            )
    }

    /// Whether a peer has a query in flight whose outcome can be recorded.
    pub open spec fn is_waiting(self, peer: Seq<u8>) -> bool {
        in_state(self.states, peer, LookupPeerState::Waiting)
    }

    /// The peers in a state.
    pub open spec fn peers_in(self, state: LookupPeerState) -> Set<Seq<u8>> {
        Set::new(|peer: Seq<u8>| in_state(self.states, peer, state))
    }

    /// The lookup after a query in flight ended in a state without a result.
    pub open spec fn settled(self, peer: Seq<u8>, state: LookupPeerState) -> Self {
        LookupView {
            states: self.states.insert(peer, state),
            in_flight: self.in_flight.remove(peer),
            ..self
        }
    }

    /// The lookup after a query in flight was answered.
    pub open spec fn succeeded(self, peer: Seq<u8>) -> Self {
        LookupView {
            successful: if self.successful.dom().contains(peer) {
                self.successful
            } else {
                self.successful.insert(peer, self.in_flight[peer])
            },
            ..self.settled(peer, LookupPeerState::Succeeded)
        }
    }

    /// The lookup after its active round was completed, and what to do next.
    pub open spec fn completed(self) -> (Self, LookupProgress) {
        let idle = LookupView { round_active: false, ..self };
        let advanced = LookupView { previous: self.top(), ..idle };
        let empty = Set::<Seq<u8>>::empty();
        if self.top() == self.previous && self.top().len() < self.config.count
            && self.candidates.dom() != empty {
            (advanced, LookupProgress::Continue)
        } else if self.top() == self.previous && !self.promising() {
            (
                idle.finished(LookupTermination::Converged),
                LookupProgress::Finished(LookupTermination::Converged),
            )
        } else if self.iterations >= self.config.max_iterations {
            (
                advanced.finished(LookupTermination::IterationLimit),
                LookupProgress::Finished(LookupTermination::IterationLimit),
            )
        } else if self.pruned().candidates.dom() == empty {
            (
                advanced.pruned().finished(LookupTermination::Exhausted),
                LookupProgress::Finished(LookupTermination::Exhausted),
            )
        } else {
            (advanced.pruned(), LookupProgress::Continue)
        }
    }
}

/// Pull-based, transport-independent Kademlia lookup state machine.
pub struct IterativeLookup<N: LookupNode> {
    target: LookupKey,
    config: LookupConfig,
    candidates: Table<LookupKey, N>,
    peer_states: Table<LookupKey, LookupPeerState>,
    query_order: Vec<LookupKey>,
    in_flight: Table<LookupKey, N>,
    successful: Table<LookupKey, N>,
    previous_top_k: Vec<LookupKey>,
    iterations: usize,
    round_active: bool,
    round_queries: usize,
    termination: Option<LookupTermination>,
}

/// Whether a peer is in a state.
pub open spec fn in_state(
    states: Map<Seq<u8>, LookupPeerState>,
    peer: Seq<u8>,
    state: LookupPeerState,
) -> bool {
    states.dom().contains(peer) && states[peer] == state
}

/// Whether the states of peers agree with the queries in flight and the results:
/// a peer that waits has a query in flight, a query in flight is that of a peer
/// that waits or is known to succeed, and the results are those of the peers that
/// succeeded.
pub open spec fn in_step<N>(
    states: Map<Seq<u8>, LookupPeerState>,
    in_flight: Map<Seq<u8>, N>,
    successful: Map<Seq<u8>, N>,
) -> bool {
    &&& forall|k: Seq<u8>| #[trigger]
        in_state(states, k, LookupPeerState::Waiting) ==> in_flight.dom().contains(k)
    &&& forall|k: Seq<u8>| #[trigger]
        in_flight.dom().contains(k) ==> in_state(states, k, LookupPeerState::Waiting) || in_state(
            states,
            k,
            LookupPeerState::Succeeded,
        )
    &&& forall|k: Seq<u8>|
        #![trigger successful.dom().contains(k)]
        #![trigger in_state(states, k, LookupPeerState::Succeeded)]
        successful.dom().contains(k) <==> in_state(states, k, LookupPeerState::Succeeded)
}

/// Whether each node of a map is filed under its own identity.
pub open spec fn keyed<N: LookupNode>(nodes: Map<Seq<u8>, N>) -> bool {
    forall|k: Seq<u8>| #[trigger] nodes.dom().contains(k) ==> nodes[k].peer_key()@ == k
}

impl<N: LookupNode> View for IterativeLookup<N> {
    type V = LookupView<N>;

    closed spec fn view(&self) -> LookupView<N> {
        LookupView {
            target: self.target@,
            config: self.config,
            candidates: self.candidates@,
            states: self.peer_states@,
            queried: key_views(self.query_order@),
            in_flight: self.in_flight@,
            successful: self.successful@,
            previous: key_views(self.previous_top_k@),
            iterations: self.iterations as nat,
            round_active: self.round_active,
            round_queries: self.round_queries as nat,
            termination: self.termination,
        }
    }
}

impl<N: LookupNode> LookupView<N> {
    /// What every method keeps: positive limits, nodes filed under their own
    /// identities, a bounded queue, at most alpha queries in a round, at most
    /// the configured number of rounds, a state for each peer that was queried,
    /// no query in flight outside a round, and states that agree with the queries
    /// in flight and the results.
    pub open spec fn well_formed(self) -> bool {
        &&& self.target.len() == 32
        &&& self.config.is_valid()
        &&& keyed(self.candidates)
        &&& keyed(self.in_flight)
        &&& keyed(self.successful)
        &&& self.candidates.dom().finite()
        &&& self.candidates.dom().len() <= self.config.max_candidates
        &&& in_step(self.states, self.in_flight, self.successful)
        &&& self.in_flight.dom().subset_of(self.states.dom())
        &&& self.successful.dom().subset_of(self.states.dom())
        &&& self.queried.to_set().subset_of(self.states.dom())
        &&& self.queried.no_duplicates()
        &&& self.within_budget()
        &&& self.round_queries <= self.config.alpha
        &&& self.iterations <= self.config.max_iterations
        &&& self.termination is Some ==> !self.round_active
        &&& !self.round_active ==> self.in_flight.dom() == Set::<Seq<u8>>::empty()
    }
}

impl<N: LookupNode> LookupView<N> {
    /// Whether the queries so far fit in the rounds that were begun, of which the
    /// last one may have room for more.
    pub open spec fn within_budget(self) -> bool {
        if self.iterations == 0 {
            !self.round_active && self.queried.len() == 0
        } else {
            self.queried.len() + self.config.alpha <= self.config.alpha * self.iterations
                + self.round_queries
        }
    }

    /// The lookup with a result that is known without a query.
    pub open spec fn with_known_result(self, node: N) -> Self {
        LookupView {
            candidates: self.candidates.remove(node.peer_key()@),
            states: self.states.insert(node.peer_key()@, LookupPeerState::Succeeded),
            successful: if self.successful.dom().contains(node.peer_key()@) {
                self.successful
            } else {
                self.successful.insert(node.peer_key()@, node)
            },
            ..self
        }
    }

    /// Whether a query to a peer may be put in flight.
    pub open spec fn may_mark(self, peer: Seq<u8>) -> bool {
        self.round_active && self.round_queries < self.config.alpha && !self.states.dom().contains(
            peer,
        )
    }

    /// The lookup after it was asked to begin a round.
    pub open spec fn beginning(self) -> Self {
        if self.round_active || self.termination is Some {
            self
        } else if self.iterations >= self.config.max_iterations {
            self.finished(LookupTermination::IterationLimit)
        } else if self.pruned().candidates.dom() == Set::<Seq<u8>>::empty() {
            self.pruned().finished(LookupTermination::Exhausted)
        } else {
            LookupView {
                iterations: (self.iterations + 1) as nat,
                round_queries: 0,
                round_active: true,
                ..self.pruned()
            }
        }
    }
}

/// The effect of offering a candidate to the queue, with the peer that it
/// evicts.
pub open spec fn admits<N: LookupNode>(
    before: LookupView<N>,
    node: N,
    after: LookupView<N>,
    evicted: Option<Seq<u8>>,
) -> bool {
    let peer = node.peer_key()@;
    let full = before.candidates.dom().len() >= before.config.max_candidates;
    if before.states.dom().contains(peer) {
        after == before && evicted is None
    } else if before.candidates.dom().contains(peer) || !full {
        evicted is None && after == (LookupView {
            candidates: before.candidates.insert(peer, node),
            ..before
        })
    } else if forall|k: Seq<u8>| #[trigger]
        before.candidates.dom().contains(k) ==> distance(k, before.target) <= distance(
            peer,
            before.target,
        ) {
        after == before && evicted is None
    } else {
        evicted matches Some(far) && before.farthest(far) && after == (LookupView {
            candidates: before.candidates.remove(far).insert(peer, node),
            ..before
        })
    }
}

/// Whether offering a candidate to a lookup has this result and leads there: a
/// contacted peer is turned away, a queued one replaced, and another one queued,
/// at the cost of the farthest where there is no room, unless it is too far.
pub open spec fn inserts<N: LookupNode>(
    before: LookupView<N>,
    node: N,
    insertion: CandidateInsertion,
    after: LookupView<N>,
) -> bool {
    let peer = node.peer_key()@;
    let full = before.candidates.dom().len() >= before.config.max_candidates;
    if before.states.dom().contains(peer) {
        insertion is AlreadyContacted && after == before
    } else if before.candidates.dom().contains(peer) {
        insertion is Replaced && after == (LookupView {
            candidates: before.candidates.insert(peer, node),
            ..before
        })
    } else if !full {
        insertion == (CandidateInsertion::Inserted { evicted: None }) && after == (LookupView {
            candidates: before.candidates.insert(peer, node),
            ..before
        })
    } else if forall|k: Seq<u8>| #[trigger]
        before.candidates.dom().contains(k) ==> distance(k, before.target) <= distance(
            peer,
            before.target,
        ) {
        insertion is TooFar && after == before
    } else {
        insertion matches CandidateInsertion::Inserted { evicted: Some(far) } && before.farthest(
            far@,
        ) && after == (LookupView {
            candidates: before.candidates.remove(far@).insert(peer, node),
            ..before
        })
    }
}

/// Whether taking the next candidate of a lookup has this result and leads there:
/// the closest one that was not contacted, as long as the active round has queries
/// left.
pub open spec fn takes<N: LookupNode>(
    before: LookupView<N>,
    taken: Result<Option<N>, LookupError>,
    after: LookupView<N>,
) -> bool {
    if !before.round_active {
        misused(taken, "cannot select a candidate outside an active lookup round"@) && after
            == before
    } else if before.round_queries >= before.config.alpha {
        taken == Ok::<_, LookupError>(None::<N>) && after == before
    } else if before.pruned().candidates.dom() == Set::<Seq<u8>>::empty() {
        taken == Ok::<_, LookupError>(None::<N>) && after == before.pruned()
    } else {
        taken matches Ok(Some(node)) && before.pruned().nearest(node.peer_key()@) && node
            == before.candidates[node.peer_key()@] && after == (LookupView {
            candidates: before.pruned().candidates.remove(node.peer_key()@),
            ..before.pruned()
        })
    }
}

/// A call that changes a lookup.
pub enum LookupCall<N> {
    /// [`IterativeLookup::add_known_result`].
    KnownResult(N),
    /// [`IterativeLookup::add_candidate`].
    Candidate(N),
    /// [`IterativeLookup::begin_round`].
    BeginRound,
    /// [`IterativeLookup::take_next_candidate`].
    TakeCandidate,
    /// [`IterativeLookup::mark_waiting`].
    MarkWaiting(N),
    /// [`IterativeLookup::record_success`].
    Success(Seq<u8>),
    /// [`IterativeLookup::record_failure`].
    Failure(Seq<u8>),
    /// [`IterativeLookup::record_unresponsive`].
    Unresponsive(Seq<u8>),
    /// [`IterativeLookup::complete_round`].
    CompleteRound,
}

/// Whether a call leads from one state of a lookup to another.
pub open spec fn follows<N: LookupNode>(
    before: LookupView<N>,
    call: LookupCall<N>,
    after: LookupView<N>,
) -> bool {
    match call {
        LookupCall::KnownResult(node) => after == before.with_known_result(node),
        LookupCall::Candidate(node) => {
            ||| admits(before, node, after, None)
            ||| exists|far: Seq<u8>| #[trigger] admits(before, node, after, Some(far))
        },
        LookupCall::BeginRound => after == before.beginning(),
        LookupCall::TakeCandidate => if !before.round_active || before.round_queries
            >= before.config.alpha {
            after == before
        } else if before.pruned().candidates.dom() == Set::<Seq<u8>>::empty() {
            after == before.pruned()
        } else {
            exists|peer: Seq<u8>| #[trigger]
                before.pruned().nearest(peer) && after == (LookupView {
                    candidates: before.pruned().candidates.remove(peer),
                    ..before.pruned()
                })
        },
        LookupCall::MarkWaiting(node) => after == if before.may_mark(node.peer_key()@) {
            before.marked(node.peer_key()@, node)
        } else {
            before
        },
        LookupCall::Success(peer) => after == if before.is_waiting(peer) {
            before.succeeded(peer)
        } else {
            before
        },
        LookupCall::Failure(peer) => after == if before.is_waiting(peer) {
            before.settled(peer, LookupPeerState::Failed)
        } else {
            before
        },
        LookupCall::Unresponsive(peer) => after == if before.is_waiting(peer) {
            before.settled(peer, LookupPeerState::Unresponsive)
        } else {
            before
        },
        LookupCall::CompleteRound => after == if !before.round_active || before.in_flight.dom()
            != Set::<Seq<u8>>::empty() {
            before
        } else {
            before.completed().0
        },
    }
}

proof fn lemma_admission_follows<N: LookupNode>(
    before: LookupView<N>,
    node: N,
    after: LookupView<N>,
    evicted: Option<Seq<u8>>,
)
    requires
        admits(before, node, after, evicted),
    ensures
        follows(before, LookupCall::Candidate(node), after),
{
    if let Some(far) = evicted {
        assert(admits(before, node, after, Some(far)));
    }
}

proof fn lemma_taking_follows<N: LookupNode>(
    before: LookupView<N>,
    peer: Seq<u8>,
    after: LookupView<N>,
)
    requires
        before.round_active,
        before.round_queries < before.config.alpha,
        before.pruned().nearest(peer),
        after == (LookupView {
            candidates: before.pruned().candidates.remove(peer),
            ..before.pruned()
        }),
    ensures
        follows(before, LookupCall::TakeCandidate, after),
{
}

/// A change of one peer keeps the others in step.
proof fn lemma_states_in_step<N: LookupNode>(
    before: LookupView<N>,
    after: LookupView<N>,
    peer: Seq<u8>,
)
    requires
        in_step(before.states, before.in_flight, before.successful),
        after.states.dom().contains(peer),
        forall|k: Seq<u8>| k != peer ==> {
            &&& #[trigger] after.states.dom().contains(k) == before.states.dom().contains(k)
            &&& after.states[k] == before.states[k]
            &&& after.in_flight.dom().contains(k) == before.in_flight.dom().contains(k)
            &&& after.successful.dom().contains(k) == before.successful.dom().contains(k)
        },
        after.successful.dom().contains(peer) <==> after.states[peer] == LookupPeerState::Succeeded,
        after.states[peer] == LookupPeerState::Waiting ==> after.in_flight.dom().contains(peer),
        after.in_flight.dom().contains(peer) ==> after.states[peer] == LookupPeerState::Waiting
            || after.states[peer] == LookupPeerState::Succeeded,
    ensures
        in_step(after.states, after.in_flight, after.successful),
{
    assert forall|k: Seq<u8>| #[trigger]
        in_state(after.states, k, LookupPeerState::Waiting) implies after.in_flight.dom().contains(
        k,
    ) by {
        assert(after.states.dom().contains(k));
        if k != peer {
            assert(in_state(before.states, k, LookupPeerState::Waiting));
        }
    }
    assert forall|k: Seq<u8>| #[trigger]
        after.in_flight.dom().contains(k) implies in_state(
        after.states,
        k,
        LookupPeerState::Waiting,
    ) || in_state(after.states, k, LookupPeerState::Succeeded) by {
        let known = after.states.dom().contains(k);
        if k != peer {
            assert(before.in_flight.dom().contains(k));
        }
    }
    assert forall|k: Seq<u8>|
        #![trigger after.successful.dom().contains(k)]
        #![trigger in_state(after.states, k, LookupPeerState::Succeeded)]
        after.successful.dom().contains(k) <==> in_state(
            after.states,
            k,
            LookupPeerState::Succeeded,
        ) by {
        let known = after.states.dom().contains(k);
        if k != peer {
            assert(before.successful.dom().contains(k) <==> in_state(
                before.states,
                k,
                LookupPeerState::Succeeded,
            ));
        }
    }
}

proof fn lemma_next_budget(alpha: nat, iterations: nat)
    ensures
        alpha * (iterations + 1) == alpha * iterations + alpha,
{
    assert(alpha * (iterations + 1) == alpha * iterations + alpha) by (nonlinear_arith);
}

/// A member of a table that is extreme in distance from a target: the nearest
/// one, or the farthest one.
fn extreme_key<T>(table: &Table<LookupKey, T>, target: &LookupKey, far: bool) -> (found: Option<
    LookupKey,
>)
    ensures
        found is None <==> table@.dom() == Set::<Seq<u8>>::empty(),
        found matches Some(peer) ==> table@.dom().contains(peer@) && forall|k: Seq<u8>| #[trigger]
            table@.dom().contains(k) ==> if far {
                distance(k, target@) <= distance(peer@, target@)
            } else {
                distance(peer@, target@) <= distance(k, target@)
            },
{
    let count = table.len();
    if count == 0 {
        assert(table@.dom() =~= Set::<Seq<u8>>::empty());
        return None;
    }
    let mut best: LookupKey = *table.entry_at(0).0;
    let mut index: usize = 1;
    while index < count
        invariant
            1 <= index <= count,
            count == table.order().len(),
            table@.dom().contains(best@),
            forall|i: int|
                0 <= i < index ==> if far {
                    distance(#[trigger] table.order()[i], target@) <= distance(best@, target@)
                } else {
                    distance(best@, target@) <= distance(table.order()[i], target@)
                },
        decreases count - index,
    {
        let key = *table.entry_at(index).0;
        let better = if far {
            closer(&best, &key, target)
        } else {
            closer(&key, &best, target)
        };
        if better {
            best = key;
        }
        index += 1;
    }
    proof {
        assert forall|k: Seq<u8>| #[trigger] table@.dom().contains(k) implies if far {
            distance(k, target@) <= distance(best@, target@)
        } else {
            distance(best@, target@) <= distance(k, target@)
        } by {
            assert(table.order().contains(k));
            let i = table.order().index_of(k);
            assert(table.order()[i] == k);
        }
    }
    Some(best)
}

impl<N: LookupNode> IterativeLookup<N> {
    /// Construct an empty lookup for `target`.
    pub fn new(target: LookupKey, config: LookupConfig) -> (created: Result<Self, LookupError>)
        ensures
            created is Ok <==> config.is_valid(),
            created matches Err(error) ==> error matches LookupError::InvalidConfig(m) && m@
                == config.complaint(),
            created matches Ok(lookup) ==> lookup@.well_formed() && lookup@ == (LookupView::<N> {
                target: target@,
                config,
                candidates: Map::<Seq<u8>, N>::empty(),
                states: Map::empty(),
                queried: Seq::empty(),
                in_flight: Map::<Seq<u8>, N>::empty(),
                successful: Map::<Seq<u8>, N>::empty(),
                previous: Seq::empty(),
                iterations: 0,
                round_active: false,
                round_queries: 0,
                termination: None,
            }),
    {
        let config = match config.validate() {
            Ok(config) => config,
            Err(error) => {
                return Err(error);
            },
        };
        let lookup = IterativeLookup {
            target,
            config,
            candidates: Table::new(),
            peer_states: Table::new(),
            query_order: Vec::new(),
            in_flight: Table::new(),
            successful: Table::new(),
            previous_top_k: Vec::new(),
            iterations: 0,
            round_active: false,
            round_queries: 0,
            termination: None,
        };
        proof {
            assert(key_views(lookup.query_order@) =~= Seq::empty());
            assert(key_views(lookup.previous_top_k@) =~= Seq::empty());
        }
        Ok(lookup)
    }

    /// Target key for this lookup.
    #[must_use]
    pub fn target(&self) -> (target: LookupKey)
        ensures
            target@ == self@.target,
    {
        self.target
    }

    /// Active lookup configuration.
    #[must_use]
    pub fn config(&self) -> (config: LookupConfig)
        ensures
            config == self@.config,
    {
        self.config
    }

    /// Number of rounds begun so far.
    #[must_use]
    pub fn iterations(&self) -> (iterations: usize)
        ensures
            iterations == self@.iterations,
    {
        self.iterations
    }

    /// Current terminal state, if the lookup has stopped.
    #[must_use]
    pub fn termination(&self) -> (reason: Option<LookupTermination>)
        ensures
            reason == self@.termination,
    {
        self.termination
    }

    /// Whether a transport round is currently active.
    #[must_use]
    pub fn round_active(&self) -> (active: bool)
        ensures
            active == self@.round_active,
    {
        self.round_active
    }

    /// State currently assigned to a peer.
    #[must_use]
    pub fn peer_state(&self, peer: &LookupKey) -> (state: Option<LookupPeerState>)
        ensures
            state == if self@.states.dom().contains(peer@) {
                Some(self@.states[peer@])
            } else {
                None::<LookupPeerState>
            },
    {
        match self.peer_states.get(peer) {
            Some(state) => Some(*state),
            None => None,
        }
    }

    /// Whether the peer has never been contacted by this lookup.
    #[must_use]
    pub fn is_contactable(&self, peer: &LookupKey) -> (contactable: bool)
        ensures
            contactable == !self@.states.dom().contains(peer@),
    {
        !self.peer_states.contains(peer)
    }

    /// Peers selected for a transport query, in query order.
    #[must_use]
    pub fn queried_peers(&self) -> (peers: &[LookupKey])
        ensures
            key_views(peers@) == self@.queried,
    {
        self.query_order.as_slice()
    }

    /// Add a successful result that must never be queried, such as the local
    /// node competing in a native lookup's final XOR ordering.
    pub fn add_known_result(&mut self, node: N)
        requires
            old(self)@.well_formed(),
        ensures
            final(self)@.well_formed(),
            final(self)@ == old(self)@.with_known_result(node),
            follows(old(self)@, LookupCall::KnownResult(node), final(self)@),
    {
        let ghost before = self@;
        let peer = node.lookup_peer_id();
        let _ = self.candidates.remove(&peer);
        let _ = self.peer_states.insert(peer, LookupPeerState::Succeeded);
        if !self.successful.contains(&peer) {
            let _ = self.successful.insert(peer, node);
        }
        proof {
            lemma_states_in_step(before, self@, peer@);
        }
    }

    /// Add or update an unqueried candidate.
    ///
    /// A full queue gives up its farthest member for a strictly closer
    /// candidate and refuses any other.
    pub fn add_candidate(&mut self, node: N) -> (insertion: CandidateInsertion)
        requires
            old(self)@.well_formed(),
        ensures
            final(self)@.well_formed(),
            follows(old(self)@, LookupCall::Candidate(node), final(self)@),
            inserts(old(self)@, node, insertion, final(self)@),
    {
        let ghost before = self@;
        let peer = node.lookup_peer_id();
        if !self.is_contactable(&peer) {
            proof {
                lemma_admission_follows(before, node, self@, None);
            }
            return CandidateInsertion::AlreadyContacted;
        }
        if self.candidates.contains(&peer) {
            let _ = self.candidates.insert(peer, node);
            proof {
                assert(self@.candidates.dom() =~= old(self)@.candidates.dom());
                lemma_admission_follows(before, node, self@, None);
            }
            return CandidateInsertion::Replaced;
        }
        if self.candidates.len() >= self.config.max_candidates {
            let farthest = extreme_key(&self.candidates, &self.target, true);
            match farthest {
                None => CandidateInsertion::TooFar,
                Some(far) => {
                    if !closer(&peer, &far, &self.target) {
                        proof {
                            lemma_admission_follows(before, node, self@, None);
                        }
                        return CandidateInsertion::TooFar;
                    }
                    let _ = self.candidates.remove(&far);
                    let _ = self.candidates.insert(peer, node);
                    proof {
                        lemma_admission_follows(before, node, self@, Some(far@));
                    }
                    CandidateInsertion::Inserted { evicted: Some(far) }
                },
            }
        } else {
            let _ = self.candidates.insert(peer, node);
            proof {
                lemma_admission_follows(before, node, self@, None);
            }
            CandidateInsertion::Inserted { evicted: None }
        }
    }

    fn discard_contacted_candidates(&mut self)
        requires
            old(self)@.well_formed(),
        ensures
            final(self)@.well_formed(),
            final(self)@ == old(self)@.pruned(),
    {
        let keys = self.candidates.keys();
        let ghost before = self@;
        let mut index: usize = 0;
        while index < keys.len()
            invariant
                index <= keys@.len(),
                key_views(keys@).to_set() == before.candidates.dom(),
                before.well_formed(),
                self@ == (LookupView { candidates: self@.candidates, ..before }),
                forall|k: Seq<u8>| #[trigger]
                    self@.candidates.dom().contains(k) <==> before.candidates.dom().contains(k) && !(
                    before.states.dom().contains(k) && key_views(keys@.take(index as int)).contains(
                        k,
                    )),
                forall|k: Seq<u8>| #[trigger]
                    self@.candidates.dom().contains(k) ==> self@.candidates[k]
                        == before.candidates[k],
                self@.candidates.dom().subset_of(before.candidates.dom()),
            decreases keys@.len() - index,
        {
            let key = keys[index];
            if self.peer_states.contains(&key) {
                let _ = self.candidates.remove(&key);
            }
            proof {
                let taken = key_views(keys@.take(index as int));
                let taken1 = key_views(keys@.take(index as int + 1));
                assert(taken1 =~= taken.push(key@));
                assert forall|k: Seq<u8>| #[trigger] taken1.contains(k) <==> taken.contains(k) || k
                    == key@ by {
                    if taken.contains(k) {
                        let j = taken.index_of(k);
                        assert(taken1[j] == k);
                    }
                    if k == key@ {
                        assert(taken1[index as int] == k);
                    }
                    if taken1.contains(k) && k != key@ {
                        let j = taken1.index_of(k);
                        assert(taken[j] == k);
                    }
                }
            }
            index += 1;
        }
        proof {
            assert(keys@.take(keys@.len() as int) =~= keys@);
            assert forall|k: Seq<u8>| before.candidates.dom().contains(k) implies #[trigger] key_views(
                keys@,
            ).contains(k) by {
                assert(key_views(keys@).to_set().contains(k));
            }
            assert(self@.candidates =~= before.candidates.remove_keys(before.states.dom()));
            vstd::set_lib::lemma_len_subset(self@.candidates.dom(), before.candidates.dom());
        }
    }

    fn finish(&mut self, reason: LookupTermination) -> (progress: LookupProgress)
        requires
            old(self)@.well_formed(),
            old(self)@.in_flight.dom() == Set::<Seq<u8>>::empty(),
        ensures
            final(self)@.well_formed(),
            final(self)@ == old(self)@.finished(reason),
            progress == LookupProgress::Finished(reason),
    {
        self.round_active = false;
        self.termination = Some(reason);
        LookupProgress::Finished(reason)
    }

    /// Begin the next α-query round.
    pub fn begin_round(&mut self) -> (progress: Result<LookupProgress, LookupError>)
        requires
            old(self)@.well_formed(),
        ensures
            final(self)@.well_formed(),
            follows(old(self)@, LookupCall::BeginRound, final(self)@),
            ({
                let before = old(self)@;
                if before.round_active {
                    misused(
                        progress,
                        "cannot begin a lookup round while another round is active"@,
                    ) && final(self)@ == before
                } else if before.termination is Some {
                    progress == Ok::<_, LookupError>(
                        LookupProgress::Finished(before.termination->0),
                    ) && final(self)@ == before
                } else if before.iterations >= before.config.max_iterations {
                    progress == Ok::<_, LookupError>(
                        LookupProgress::Finished(LookupTermination::IterationLimit),
                    ) && final(self)@ == before.finished(LookupTermination::IterationLimit)
                } else if before.pruned().candidates.dom() == Set::<Seq<u8>>::empty() {
                    progress == Ok::<_, LookupError>(
                        LookupProgress::Finished(LookupTermination::Exhausted),
                    ) && final(self)@ == before.pruned().finished(LookupTermination::Exhausted)
                } else {
                    progress == Ok::<_, LookupError>(LookupProgress::Continue) && final(self)@ == (
                    LookupView {
                        iterations: (before.iterations + 1) as nat,
                        round_queries: 0,
                        round_active: true,
                        ..before.pruned()
                    })
                }
            }),
    {
        if self.round_active {
            return Err(
                LookupError::InvalidState(
                    "cannot begin a lookup round while another round is active",
                ),
            );
        }
        if let Some(reason) = self.termination {
            return Ok(LookupProgress::Finished(reason));
        }
        if self.iterations >= self.config.max_iterations {
            return Ok(self.finish(LookupTermination::IterationLimit));
        }
        self.discard_contacted_candidates();
        if self.no_candidates() {
            return Ok(self.finish(LookupTermination::Exhausted));
        }
        proof {
            lemma_next_budget(self.config.alpha as nat, self.iterations as nat);
        }
        self.iterations += 1;
        self.round_queries = 0;
        self.round_active = true;
        Ok(LookupProgress::Continue)
    }

    fn no_candidates(&self) -> (none: bool)
        ensures
            none == (self@.candidates.dom() == Set::<Seq<u8>>::empty()),
    {
        let count = self.candidates.len();
        if count == 0 {
            assert(self@.candidates.dom() =~= Set::<Seq<u8>>::empty());
        }
        count == 0
    }

    /// Remove and return the closest candidate for the active round.
    ///
    /// The driver must either call [`Self::mark_waiting`] for the returned
    /// node or discard it as temporarily ineligible before asking for another.
    pub fn take_next_candidate(&mut self) -> (taken: Result<Option<N>, LookupError>)
        requires
            old(self)@.well_formed(),
        ensures
            final(self)@.well_formed(),
            follows(old(self)@, LookupCall::TakeCandidate, final(self)@),
            takes(old(self)@, taken, final(self)@),
    {
        if !self.round_active {
            return Err(
                LookupError::InvalidState(
                    "cannot select a candidate outside an active lookup round",
                ),
            );
        }
        if self.round_queries >= self.config.alpha {
            return Ok(None);
        }
        let ghost before = self@;
        self.discard_contacted_candidates();
        match extreme_key(&self.candidates, &self.target, false) {
            Some(peer) => {
                let node = self.candidates.remove(&peer);
                proof {
                    lemma_taking_follows(before, peer@, self@);
                }
                Ok(node)
            },
            None => Ok(None),
        }
    }

    /// Mark a selected node as an in-flight query in the active round.
    pub fn mark_waiting(&mut self, node: N) -> (marked: Result<(), LookupError>)
        requires
            old(self)@.well_formed(),
        ensures
            final(self)@.well_formed(),
            follows(old(self)@, LookupCall::MarkWaiting(node), final(self)@),
            ({
                let before = old(self)@;
                let peer = node.peer_key()@;
                if !before.round_active {
                    misused(marked, "cannot start a query outside an active lookup round"@) && final(self)@ == before
                } else if before.round_queries >= before.config.alpha {
                    misused(marked, "lookup round already reached its alpha limit"@) && final(self)@
                        == before
                } else if before.states.dom().contains(peer) {
                    misused(marked, "cannot query a peer that already has lookup state"@) && final(self)@ == before
                } else {
                    marked is Ok && final(self)@ == (LookupView {
                        states: before.states.insert(peer, LookupPeerState::Waiting),
                        queried: before.queried.push(peer),
                        in_flight: before.in_flight.insert(peer, node),
                        round_queries: (before.round_queries + 1) as nat,
                        ..before
                    })
                }
            }),
    {
        if !self.round_active {
            return Err(
                LookupError::InvalidState("cannot start a query outside an active lookup round"),
            );
        }
        if self.round_queries >= self.config.alpha {
            return Err(LookupError::InvalidState("lookup round already reached its alpha limit"));
        }
        let peer = node.lookup_peer_id();
        if !self.is_contactable(&peer) {
            return Err(
                LookupError::InvalidState("cannot query a peer that already has lookup state"),
            );
        }
        let ghost before = self@;
        let _ = self.peer_states.insert(peer, LookupPeerState::Waiting);
        self.query_order.push(peer);
        let _ = self.in_flight.insert(peer, node);
        self.round_queries += 1;
        proof {
            assert(key_views(self.query_order@) =~= before.queried.push(peer@));
            assert(!before.successful.dom().contains(peer@));
            lemma_states_in_step(before, self@, peer@);
            assert forall|k: Seq<u8>| self@.queried.contains(k) implies #[trigger] self@.states.dom().contains(
                k,
            ) by {
                let i = self@.queried.index_of(k);
                if i < before.queried.len() {
                    assert(before.queried[i] == k);
                    assert(before.queried.to_set().contains(k));
                }
            }
            assert(!before.queried.contains(peer@)) by {
                if before.queried.contains(peer@) {
                    assert(before.queried.to_set().contains(peer@));
                }
            }
        }
        Ok(())
    }

    fn take_waiting(&mut self, peer: &LookupKey) -> (taken: Result<N, LookupError>)
        requires
            old(self)@.well_formed(),
        ensures
            ({
                let before = old(self)@;
                if before.is_waiting(peer@) {
                    taken == Ok::<_, LookupError>(before.in_flight[peer@]) && final(self)@ == (
                    LookupView { in_flight: before.in_flight.remove(peer@), ..before })
                } else {
                    not_waiting(taken, *peer) && final(self)@ == before
                }
            }),
    {
        match self.peer_states.get(peer) {
            Some(LookupPeerState::Waiting) => {},
            _ => {
                return Err(LookupError::PeerNotWaiting(*peer));
            },
        }
        let ghost before = self@;
        match self.in_flight.remove(peer) {
            Some(node) => Ok(node),
            None => {
                assert(before.is_waiting(peer@));
                Err(LookupError::PeerNotWaiting(*peer))
            },
        }
    }

    /// Record a successful response and retain the queried peer as a result.
    pub fn record_success(&mut self, peer: &LookupKey) -> (recorded: Result<(), LookupError>)
        requires
            old(self)@.well_formed(),
        ensures
            final(self)@.well_formed(),
            follows(old(self)@, LookupCall::Success(peer@), final(self)@),
            ({
                let before = old(self)@;
                if before.is_waiting(peer@) {
                    recorded is Ok && final(self)@ == before.succeeded(peer@)
                } else {
                    not_waiting(recorded, *peer) && final(self)@ == before
                }
            }),
    {
        let ghost before = self@;
        match self.take_waiting(peer) {
            Ok(node) => {
                let _ = self.peer_states.insert(*peer, LookupPeerState::Succeeded);
                if !self.successful.contains(peer) {
                    let _ = self.successful.insert(*peer, node);
                }
                proof {
                    lemma_states_in_step(before, self@, peer@);
                }
                Ok(())
            },
            Err(error) => Err(error),
        }
    }

    /// Record an explicit query or transport failure.
    pub fn record_failure(&mut self, peer: &LookupKey) -> (recorded: Result<(), LookupError>)
        requires
            old(self)@.well_formed(),
        ensures
            final(self)@.well_formed(),
            follows(old(self)@, LookupCall::Failure(peer@), final(self)@),
            ({
                let before = old(self)@;
                if before.is_waiting(peer@) {
                    recorded is Ok && final(self)@ == before.settled(
                        peer@,
                        LookupPeerState::Failed,
                    )
                } else {
                    not_waiting(recorded, *peer) && final(self)@ == before
                }
            }),
    {
        let ghost before = self@;
        match self.take_waiting(peer) {
            Ok(_) => {
                let _ = self.peer_states.insert(*peer, LookupPeerState::Failed);
                proof {
                    assert(!in_state(before.states, peer@, LookupPeerState::Succeeded));
                    lemma_states_in_step(before, self@, peer@);
                }
                Ok(())
            },
            Err(error) => Err(error),
        }
    }

    /// Record a query abandoned after the transport's round grace period.
    pub fn record_unresponsive(&mut self, peer: &LookupKey) -> (recorded: Result<(), LookupError>)
        requires
            old(self)@.well_formed(),
        ensures
            final(self)@.well_formed(),
            follows(old(self)@, LookupCall::Unresponsive(peer@), final(self)@),
            ({
                let before = old(self)@;
                if before.is_waiting(peer@) {
                    recorded is Ok && final(self)@ == before.settled(
                        peer@,
                        LookupPeerState::Unresponsive,
                    )
                } else {
                    not_waiting(recorded, *peer) && final(self)@ == before
                }
            }),
    {
        let ghost before = self@;
        match self.take_waiting(peer) {
            Ok(_) => {
                let _ = self.peer_states.insert(*peer, LookupPeerState::Unresponsive);
                proof {
                    assert(!in_state(before.states, peer@, LookupPeerState::Succeeded));
                    lemma_states_in_step(before, self@, peer@);
                }
                Ok(())
            },
            Err(error) => Err(error),
        }
    }

    /// Peers still waiting in the active round, in XOR order.
    #[must_use]
    pub fn waiting_peers(&self) -> (peers: Vec<LookupKey>)
        ensures
            ascending(key_views(peers@), self@.target),
            key_views(peers@).to_set() == self@.in_flight.dom(),
    {
        let keys = self.in_flight.keys();
        sort_by_distance(keys, &self.target)
    }

    /// Peers of the closest results, closest first.
    fn result_peer_ids(&self) -> (peers: Vec<LookupKey>)
        ensures
            key_views(peers@) == self@.top(),
            is_closest(
                self@.top(),
                self@.successful.dom(),
                self@.target,
                self@.config.count as nat,
            ),
    {
        let keys = self.successful.keys();
        closest_keys(keys, &self.target, self.config.count)
    }

    /// Successful responders sorted closest-first and truncated to K.
    #[must_use]
    pub fn results(&self) -> (nodes: Vec<N>)
        requires
            self@.well_formed(),
        ensures
            is_closest(
                self@.top(),
                self@.peers_in(LookupPeerState::Succeeded),
                self@.target,
                self@.config.count as nat,
            ),
            nodes@.len() == self@.top().len(),
            forall|i: int|
                0 <= i < nodes@.len() ==> cloned(
                    self@.successful[self@.top()[i]],
                    #[trigger] nodes@[i],
                ),
    {
        let peers = self.result_peer_ids();
        let mut nodes: Vec<N> = Vec::new();
        let mut index: usize = 0;
        while index < peers.len()
            invariant
                index <= peers@.len(),
                key_views(peers@) == self@.top(),
                is_closest(
                    self@.top(),
                    self@.successful.dom(),
                    self@.target,
                    self@.config.count as nat,
                ),
                nodes@.len() == index,
                forall|i: int|
                    0 <= i < nodes@.len() ==> cloned(
                        self@.successful[self@.top()[i]],
                        #[trigger] nodes@[i],
                    ),
            decreases peers@.len() - index,
        {
            proof {
                assert(key_views(peers@)[index as int] == peers@[index as int]@);
                assert(self@.successful.dom().contains(self@.top()[index as int]));
            }
            if let Some(node) = self.successful.get(&peers[index]) {
                nodes.push(node.clone());
            }
            index += 1;
        }
        assert(self@.successful.dom() =~= self@.peers_in(LookupPeerState::Succeeded));
        nodes
    }

    fn has_promising_candidate(&self) -> (promising: bool)
        ensures
            promising == self@.promising(),
    {
        let peers = self.result_peer_ids();
        let nearest = extreme_key(&self.candidates, &self.target, false);
        match nearest {
            None => {
                proof {
                    assert(self@.candidates.dom() =~= Set::<Seq<u8>>::empty());
                }
                false
            },
            Some(peer) => {
                if peers.len() == 0 {
                    proof {
                        assert(self@.candidates.dom().contains(peer@));
                        assert(self@.top().len() == 0);
                    }
                    return true;
                }
                let worst = peers[peers.len() - 1];
                proof {
                    assert(key_views(peers@).last() == worst@);
                }
                let promising = closer(&peer, &worst, &self.target);
                proof {
                    if promising {
                        assert(self@.candidates.dom().contains(peer@));
                    }
                }
                promising
            },
        }
    }

    /// Complete the current round and evaluate convergence: the lookup stops
    /// when a full set of closest results did not change and no queued
    /// candidate is closer than the farthest of them.
    pub fn complete_round(&mut self) -> (progress: Result<LookupProgress, LookupError>)
        requires
            old(self)@.well_formed(),
        ensures
            final(self)@.well_formed(),
            follows(old(self)@, LookupCall::CompleteRound, final(self)@),
            ({
                let before = old(self)@;
                if !before.round_active {
                    misused(progress, "cannot complete a lookup round when none is active"@)
                        && final(self)@ == before
                } else if before.in_flight.dom() != Set::<Seq<u8>>::empty() {
                    misused(progress, "cannot complete a lookup round with queries still waiting"@)
                        && final(self)@ == before
                } else {
                    progress == Ok::<_, LookupError>(before.completed().1) && final(self)@
                        == before.completed().0
                }
            }),
    {
        if !self.round_active {
            return Err(
                LookupError::InvalidState("cannot complete a lookup round when none is active"),
            );
        }
        let waiting = self.in_flight.len();
        if waiting != 0 {
            proof {
                if self@.in_flight.dom() =~= Set::<Seq<u8>>::empty() {
                    assert(false);
                }
            }
            return Err(
                LookupError::InvalidState(
                    "cannot complete a lookup round with queries still waiting",
                ),
            );
        }
        proof {
            assert(self@.in_flight.dom() =~= Set::<Seq<u8>>::empty());
        }
        self.round_active = false;
        let current_top_k = self.result_peer_ids();
        let unchanged = same_keys(&current_top_k, &self.previous_top_k);
        if unchanged {
            if current_top_k.len() < self.config.count && !self.no_candidates() {
                self.previous_top_k = current_top_k;
                return Ok(LookupProgress::Continue);
            }
            if !self.has_promising_candidate() {
                return Ok(self.finish(LookupTermination::Converged));
            }
        }
        self.previous_top_k = current_top_k;
        if self.iterations >= self.config.max_iterations {
            return Ok(self.finish(LookupTermination::IterationLimit));
        }
        self.discard_contacted_candidates();
        if self.no_candidates() {
            return Ok(self.finish(LookupTermination::Exhausted));
        }
        Ok(LookupProgress::Continue)
    }
}

/// Whether two lists hold the same keys in the same order.
fn same_keys(left: &Vec<LookupKey>, right: &Vec<LookupKey>) -> (same: bool)
    ensures
        same == (key_views(left@) == key_views(right@)),
{
    if left.len() != right.len() {
        assert(key_views(left@).len() != key_views(right@).len());
        return false;
    }
    let mut index: usize = 0;
    while index < left.len()
        invariant
            index <= left@.len(),
            left@.len() == right@.len(),
            forall|i: int| 0 <= i < index ==> #[trigger] left@[i]@ == right@[i]@,
        decreases left@.len() - index,
    {
        if !same_key(&left[index], &right[index]) {
            proof {
                assert(key_views(left@)[index as int] != key_views(right@)[index as int]);
            }
            return false;
        }
        index += 1;
    }
    assert(key_views(left@) =~= key_views(right@));
    true
}

} // verus!
