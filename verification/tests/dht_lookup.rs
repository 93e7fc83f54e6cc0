//! Iterative lookups.

use saorsa_core::dht_lookup::{
    CandidateInsertion, IterativeLookup, LookupConfig, LookupError, LookupNode, LookupPeerState,
    LookupProgress, LookupQueryOutcome, LookupTermination,
};
use saorsa_core::keys::LookupKey;
use saorsa_core::lookup_run::{LookupReply, LookupRequest, LookupRun, LookupRunError};

#[derive(Debug, Clone, PartialEq, Eq)]
struct Node(LookupKey);

impl LookupNode for Node {
    fn peer_key(&self) -> LookupKey {
        self.0
    }

    fn lookup_peer_id(&self) -> LookupKey {
        self.0
    }
}

fn node(last: u8) -> Node {
    let mut peer = [0; 32];
    peer[31] = last;
    Node(peer)
}

fn peer(last: u8) -> LookupKey {
    node(last).0
}

fn start_batch(lookup: &mut IterativeLookup<Node>) -> Vec<Node> {
    assert_eq!(lookup.begin_round().expect("begin round"), LookupProgress::Continue);
    let mut batch = Vec::new();
    while let Some(candidate) = lookup.take_next_candidate().expect("take candidate") {
        lookup.mark_waiting(candidate.clone()).expect("mark waiting");
        batch.push(candidate);
    }
    batch
}

#[test]
fn orders_batches_by_xor_distance_and_enforces_alpha() {
    let mut lookup = IterativeLookup::new([0; 32], LookupConfig::saorsa(20)).expect("valid lookup");
    for id in [9, 1, 7, 2, 3] {
        lookup.add_candidate(node(id));
    }

    let batch = start_batch(&mut lookup);
    assert_eq!(batch, vec![node(1), node(2), node(3)]);
}

#[test]
fn failed_and_unresponsive_peers_cannot_be_reintroduced() {
    let mut lookup = IterativeLookup::new([0; 32], LookupConfig::saorsa(3)).expect("valid lookup");
    lookup.add_candidate(node(1));
    lookup.add_candidate(node(2));
    let batch = start_batch(&mut lookup);
    lookup.record_failure(&batch[0].0).expect("record failure");
    lookup.record_unresponsive(&batch[1].0).expect("record timeout");

    assert_eq!(lookup.add_candidate(node(1)), CandidateInsertion::AlreadyContacted);
    assert_eq!(lookup.add_candidate(node(2)), CandidateInsertion::AlreadyContacted);
    assert!(!lookup.is_contactable(&peer(1)));
    assert!(!lookup.is_contactable(&peer(2)));
}

#[test]
fn bounded_queue_evicts_only_a_farther_candidate() {
    let config = LookupConfig { max_candidates: 2, ..LookupConfig::saorsa(2) };
    let mut lookup = IterativeLookup::new([0; 32], config).expect("valid lookup");
    lookup.add_candidate(node(10));
    lookup.add_candidate(node(20));
    assert_eq!(
        lookup.add_candidate(node(5)),
        CandidateInsertion::Inserted { evicted: Some(peer(20)) }
    );
    assert_eq!(lookup.add_candidate(node(30)), CandidateInsertion::TooFar);
}

#[test]
fn runs_a_multi_round_lookup_to_exhaustion() {
    let mut lookup = IterativeLookup::new([0; 32], LookupConfig::saorsa(3)).expect("valid lookup");
    for id in [30, 40, 50] {
        lookup.add_candidate(node(id));
    }

    let first = start_batch(&mut lookup);
    for candidate in first {
        lookup.record_success(&candidate.0).expect("record success");
    }
    lookup.add_candidate(node(10));
    lookup.add_candidate(node(20));
    assert_eq!(lookup.complete_round().expect("complete first"), LookupProgress::Continue);

    let second = start_batch(&mut lookup);
    assert_eq!(second, vec![node(10), node(20)]);
    for candidate in second {
        lookup.record_success(&candidate.0).expect("record success");
    }
    assert_eq!(
        lookup.complete_round().expect("complete second"),
        LookupProgress::Finished(LookupTermination::Exhausted)
    );
    assert_eq!(lookup.results(), vec![node(10), node(20), node(30)]);
}

#[test]
fn unchanged_top_k_converges_when_only_farther_candidates_remain() {
    let config = LookupConfig { alpha: 1, ..LookupConfig::saorsa(1) };
    let mut lookup = IterativeLookup::new([0; 32], config).expect("valid lookup");
    lookup.add_candidate(node(10));
    lookup.add_candidate(node(30));
    lookup.add_candidate(node(40));

    let first = start_batch(&mut lookup);
    lookup.record_success(&first[0].0).expect("record success");
    assert_eq!(lookup.complete_round().expect("complete first"), LookupProgress::Continue);

    let second = start_batch(&mut lookup);
    lookup.record_success(&second[0].0).expect("record success");
    assert_eq!(
        lookup.complete_round().expect("complete second"),
        LookupProgress::Finished(LookupTermination::Converged)
    );
    assert_eq!(lookup.results(), vec![node(10)]);
}

/// Drive a lookup to its end: every candidate is eligible, and `respond` says
/// what came of a batch.
fn run_lookup(
    lookup: &mut IterativeLookup<Node>,
    batches: &mut Vec<Vec<LookupKey>>,
    respond: fn(usize, Vec<Node>) -> Vec<LookupQueryOutcome<Node>>,
) -> Result<LookupTermination, LookupRunError<()>> {
    let mut run = LookupRun::new();
    let mut reply = LookupReply::Begin;
    loop {
        match run.step::<()>(lookup, reply)? {
            LookupRequest::Eligibility { .. } => reply = LookupReply::Eligible(true),
            LookupRequest::Query { iteration, batch, .. } => {
                batches.push(batch.iter().map(LookupNode::lookup_peer_id).collect());
                reply = LookupReply::Outcomes(respond(iteration, batch));
            }
            LookupRequest::Evicted { .. } => reply = LookupReply::Released,
            LookupRequest::Stop { reason } => return Ok(reason),
        }
    }
}

fn mock_query(iteration: usize, batch: Vec<Node>) -> Vec<LookupQueryOutcome<Node>> {
    if iteration == 1 {
        vec![
            LookupQueryOutcome::Succeeded { responder: peer(1), candidates: vec![node(0)] },
            LookupQueryOutcome::Failed { responder: peer(2) },
        ]
    } else {
        batch
            .into_iter()
            .map(|candidate| LookupQueryOutcome::Succeeded {
                responder: candidate.lookup_peer_id(),
                candidates: Vec::new(),
            })
            .collect()
    }
}

#[test]
fn shared_runner_owns_rounds_and_drives_query_batches() {
    let config = LookupConfig { alpha: 2, ..LookupConfig::saorsa(2) };
    let mut lookup = IterativeLookup::new([0; 32], config).expect("valid lookup");
    for id in [3, 1, 2] {
        lookup.add_candidate(node(id));
    }
    let mut batches = Vec::new();

    let reason = run_lookup(&mut lookup, &mut batches, mock_query).expect("run lookup");

    assert_eq!(reason, LookupTermination::Exhausted);
    assert_eq!(batches, vec![vec![peer(1), peer(2)], vec![peer(0), peer(3)]]);
    assert_eq!(lookup.results(), vec![node(0), node(1)]);
}

fn missing_outcome_query(_iteration: usize, batch: Vec<Node>) -> Vec<LookupQueryOutcome<Node>> {
    batch
        .first()
        .map(|candidate| LookupQueryOutcome::Succeeded {
            responder: candidate.lookup_peer_id(),
            candidates: Vec::new(),
        })
        .into_iter()
        .collect()
}

#[test]
fn shared_runner_marks_missing_batch_outcomes_unresponsive() {
    let config = LookupConfig { alpha: 2, ..LookupConfig::saorsa(2) };
    let mut lookup = IterativeLookup::new([0; 32], config).expect("valid lookup");
    lookup.add_candidate(node(1));
    lookup.add_candidate(node(2));

    run_lookup(&mut lookup, &mut Vec::new(), missing_outcome_query).expect("run lookup");

    assert_eq!(lookup.peer_state(&peer(1)), Some(LookupPeerState::Succeeded));
    assert_eq!(lookup.peer_state(&peer(2)), Some(LookupPeerState::Unresponsive));
}

#[test]
fn rejects_zero_limits() {
    let invalid = LookupConfig { alpha: 0, ..LookupConfig::saorsa(1) };
    assert!(matches!(
        IterativeLookup::<Node>::new([0; 32], invalid),
        Err(LookupError::InvalidConfig(_))
    ));
}

#[test]
fn misuse_is_an_error_that_names_what_was_wrong() {
    let mut lookup = IterativeLookup::<Node>::new([0; 32], LookupConfig::saorsa(2)).expect("valid");
    assert!(matches!(lookup.take_next_candidate(), Err(LookupError::InvalidState(_))));
    lookup.add_candidate(node(1));
    assert_eq!(lookup.begin_round(), Ok(LookupProgress::Continue));
    assert!(matches!(lookup.begin_round(), Err(LookupError::InvalidState(_))));
    let error = lookup.record_success(&peer(1)).expect_err("nothing is in flight");
    assert_eq!(error, LookupError::PeerNotWaiting(peer(1)));
    assert_eq!(error.message(), format!("peer {}01 is not waiting", "00".repeat(31)));
    let run_error: LookupRunError<()> = LookupRunError::Lookup(error);
    assert_eq!(
        run_error.message(""),
        format!("lookup state error: peer {}01 is not waiting", "00".repeat(31))
    );
    assert_eq!(LookupRunError::Query(()).message("timed out"), "lookup query error: timed out");
}

fn unexpected_query(_iteration: usize, _batch: Vec<Node>) -> Vec<LookupQueryOutcome<Node>> {
    vec![LookupQueryOutcome::Failed { responder: peer(9) }]
}

#[test]
fn an_outcome_of_a_peer_outside_the_batch_is_refused() {
    let mut lookup = IterativeLookup::new([0; 32], LookupConfig::saorsa(2)).expect("valid lookup");
    lookup.add_candidate(node(1));
    let error = run_lookup(&mut lookup, &mut Vec::new(), unexpected_query)
        .expect_err("nobody asked this peer");
    assert!(matches!(error, LookupRunError::UnexpectedResponder(who) if who == peer(9)));
    assert_eq!(
        error.message(""),
        format!("lookup adapter returned unexpected responder {}09", "00".repeat(31))
    );
}

#[test]
fn contacted_peers_and_final_states_stay() {
    let mut lookup = IterativeLookup::new([0; 32], LookupConfig::saorsa(3)).expect("valid lookup");
    lookup.add_candidate(node(1));
    let batch = start_batch(&mut lookup);
    lookup.record_success(&batch[0].0).expect("record success");
    assert!(lookup.record_failure(&batch[0].0).is_err());
    assert_eq!(lookup.peer_state(&peer(1)), Some(LookupPeerState::Succeeded));
    assert_eq!(lookup.add_candidate(node(1)), CandidateInsertion::AlreadyContacted);
}

#[test]
fn known_results_compete_without_being_queried() {
    let mut lookup = IterativeLookup::new([0; 32], LookupConfig::saorsa(2)).expect("valid lookup");
    lookup.add_candidate(node(1));
    lookup.add_known_result(node(1));
    lookup.add_candidate(node(2));
    let batch = start_batch(&mut lookup);
    assert_eq!(batch, vec![node(2)]);
    assert_eq!(lookup.queried_peers(), &[peer(2)]);
    assert_eq!(lookup.peer_state(&peer(1)), Some(LookupPeerState::Succeeded));
    assert_eq!(lookup.add_candidate(node(1)), CandidateInsertion::AlreadyContacted);
    lookup.record_success(&peer(2)).expect("record success");
    assert_eq!(lookup.results(), vec![node(1), node(2)]);
}

#[test]
fn the_first_limit_that_is_zero_is_named() {
    let complaint = |config: LookupConfig| {
        IterativeLookup::<Node>::new([0; 32], config).map(|_| ()).unwrap_err()
    };
    let mut config = LookupConfig::saorsa(0);
    config.alpha = 0;
    assert_eq!(
        complaint(config),
        LookupError::InvalidConfig("lookup result count must be greater than zero")
    );
    config.count = 1;
    assert_eq!(
        complaint(config),
        LookupError::InvalidConfig("lookup alpha must be greater than zero")
    );
    config.alpha = 1;
    config.max_candidates = 0;
    assert_eq!(
        complaint(config),
        LookupError::InvalidConfig("lookup candidate limit must be greater than zero")
    );
    config.max_iterations = 0;
    assert_eq!(
        complaint(config),
        LookupError::InvalidConfig("lookup iteration limit must be greater than zero")
    );
}

#[test]
fn a_lookup_ends_at_the_round_limit() {
    let mut config = LookupConfig::saorsa(3);
    config.alpha = 1;
    config.max_iterations = 1;
    let mut lookup = IterativeLookup::new([0; 32], config).expect("valid lookup");
    lookup.add_candidate(node(1));
    lookup.add_candidate(node(2));
    let batch = start_batch(&mut lookup);
    assert_eq!(batch, vec![node(1)]);
    lookup.record_success(&peer(1)).expect("record success");
    assert_eq!(
        lookup.complete_round().expect("complete round"),
        LookupProgress::Finished(LookupTermination::IterationLimit)
    );
    assert_eq!(lookup.iterations(), 1);
    assert_eq!(
        lookup.begin_round().expect("begin round"),
        LookupProgress::Finished(LookupTermination::IterationLimit)
    );
}

#[test]
fn a_failed_peer_stays_failed_whatever_follows() {
    let mut lookup = IterativeLookup::new([0; 32], LookupConfig::saorsa(3)).expect("valid lookup");
    lookup.add_candidate(node(1));
    lookup.add_candidate(node(2));
    start_batch(&mut lookup);
    lookup.record_failure(&peer(1)).expect("record failure");
    assert_eq!(lookup.record_success(&peer(1)), Err(LookupError::PeerNotWaiting(peer(1))));
    assert_eq!(lookup.record_unresponsive(&peer(1)), Err(LookupError::PeerNotWaiting(peer(1))));
    lookup.record_success(&peer(2)).expect("record success");
    lookup.add_candidate(node(3));
    lookup.complete_round().expect("complete round");
    assert_eq!(start_batch(&mut lookup), vec![node(3)]);
    assert!(lookup.mark_waiting(node(1)).is_err());
    assert_eq!(lookup.add_candidate(node(1)), CandidateInsertion::AlreadyContacted);
    assert_eq!(lookup.peer_state(&peer(1)), Some(LookupPeerState::Failed));
    assert!(!lookup.is_contactable(&peer(1)));
    assert_eq!(lookup.results(), vec![node(2)]);
}

#[test]
fn queried_peers_only_grow_at_their_end() {
    let config = LookupConfig { alpha: 2, ..LookupConfig::saorsa(3) };
    let mut lookup = IterativeLookup::new([0; 32], config).expect("valid lookup");
    for id in [4, 3, 2] {
        lookup.add_candidate(node(id));
    }
    assert!(lookup.queried_peers().is_empty());
    start_batch(&mut lookup);
    assert_eq!(lookup.queried_peers(), &[peer(2), peer(3)]);
    lookup.record_success(&peer(2)).expect("record success");
    lookup.record_failure(&peer(3)).expect("record failure");
    lookup.add_candidate(node(1));
    lookup.complete_round().expect("complete round");
    assert_eq!(lookup.queried_peers(), &[peer(2), peer(3)]);
    start_batch(&mut lookup);
    assert_eq!(lookup.queried_peers(), &[peer(2), peer(3), peer(1), peer(4)]);
    assert!(lookup.queried_peers().len() <= 2 * lookup.iterations());
    for key in lookup.queried_peers() {
        assert!(lookup.peer_state(key).is_some());
    }
}

#[test]
fn waiting_peers_are_those_in_the_waiting_state() {
    let mut lookup = IterativeLookup::new([0; 32], LookupConfig::saorsa(3)).expect("valid lookup");
    for id in [1, 2, 3, 4] {
        lookup.add_candidate(node(id));
    }
    start_batch(&mut lookup);
    lookup.record_success(&peer(2)).expect("record success");
    let mut waiting = lookup.waiting_peers();
    waiting.sort();
    assert_eq!(waiting, vec![peer(1), peer(3)]);
    for id in [1, 2, 3, 4] {
        let state = lookup.peer_state(&peer(id));
        assert_eq!(waiting.contains(&peer(id)), state == Some(LookupPeerState::Waiting));
    }
}

#[derive(Debug, Clone, PartialEq, Eq)]
struct Versioned(LookupKey, u8);

impl LookupNode for Versioned {
    fn peer_key(&self) -> LookupKey {
        self.0
    }

    fn lookup_peer_id(&self) -> LookupKey {
        self.0
    }
}

#[test]
fn kept_candidates_do_not_depend_on_the_order_of_the_offers() {
    let config = LookupConfig { alpha: 5, max_candidates: 3, ..LookupConfig::saorsa(3) };
    for order in [[9, 1, 7, 2, 3], [1, 2, 3, 7, 9], [9, 7, 3, 2, 1], [3, 9, 2, 7, 1]] {
        let mut lookup = IterativeLookup::new([0; 32], config).expect("valid lookup");
        for id in order {
            lookup.add_candidate(Versioned(peer(id), 0));
            lookup.add_candidate(Versioned(peer(id), 1));
        }
        lookup.begin_round().expect("begin round");
        let mut kept = Vec::new();
        while let Some(candidate) = lookup.take_next_candidate().expect("take candidate") {
            kept.push(candidate);
        }
        assert_eq!(
            kept,
            vec![Versioned(peer(1), 1), Versioned(peer(2), 1), Versioned(peer(3), 1)]
        );
    }
}

#[test]
fn a_walk_queries_ordered_batches_of_accepted_peers_once() {
    let config = LookupConfig { alpha: 2, ..LookupConfig::saorsa(3) };
    let mut lookup = IterativeLookup::new([0; 32], config).expect("valid lookup");
    lookup.add_known_result(node(2));
    for id in [8, 2, 6, 4, 5, 1] {
        lookup.add_candidate(node(id));
    }
    let mut run = LookupRun::new();
    let mut reply = LookupReply::Begin;
    let mut rounds: Vec<(usize, Vec<LookupKey>)> = Vec::new();
    loop {
        match run.step::<()>(&mut lookup, reply).expect("step") {
            LookupRequest::Eligibility { candidate } => {
                reply = LookupReply::Eligible(candidate != node(4));
            }
            LookupRequest::Query { target, count, iteration, batch } => {
                assert_eq!((target, count), ([0; 32], 3));
                assert!(!batch.is_empty() && batch.len() <= 2);
                rounds.push((iteration, batch.iter().map(LookupNode::lookup_peer_id).collect()));
                reply = LookupReply::Outcomes(
                    batch
                        .into_iter()
                        .map(|queried| LookupQueryOutcome::Failed { responder: queried.0 })
                        .collect(),
                );
            }
            LookupRequest::Evicted { .. } => reply = LookupReply::Released,
            LookupRequest::Stop { .. } => break,
        }
    }
    assert_eq!(
        rounds,
        vec![(1, vec![peer(1), peer(5)]), (2, vec![peer(6), peer(8)])]
    );
    assert_eq!(lookup.peer_state(&peer(4)), None);
    assert_eq!(lookup.results(), vec![node(2)]);
}
