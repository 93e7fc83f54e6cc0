//! Relay canaries and the acquisition driver.

use saorsa_core::address::{IpAddr, MultiAddr, SocketAddr};
use saorsa_core::peer_id::PeerId;
use saorsa_core::peer_record::{AddressType, DHTNode};
use saorsa_core::reachability::canary::{
    answer_relay_canary_request, conclude_canary_round, plan_canary_round, random_order,
    relay_canary_destination_rate_limit_config, relay_canary_global_rate_limit_config,
    relay_canary_probe_report, relay_canary_rate_limit_config, select_relay_canary_witnesses,
    select_witnesses_in_order, validate_relay_canary_address, validate_relay_canary_request,
    CanaryPlan, RelayCanaryPolicy, RelayCanaryProbeDisposition, RelayCanaryProbeReport,
    RelayCanaryProbeResult, RelayCanaryRequest, RelayCanaryRequestOutcome,
    RelayCanaryRequestRejection, RelayCanaryResponse, RelayCanarySummary, RelayCanaryVerdict,
    RELAY_CANARY_WITNESS_TARGET,
};
use saorsa_core::reachability::driver::{
    apply_canary_rejection_event, pending_publication_targets, relay_revalidation_initial_delay,
    AcquisitionDriver, CanaryRejectionEvent, DriverAction, DriverEvent, DriverStage,
    PublishedTypedSet, RELAY_REVALIDATION_INTERVAL_SECS, RELAY_REVALIDATION_JITTER_MAX_SECS,
};
use saorsa_core::table::KeySet;
use std::collections::HashSet;

const TARGET_SEED: u8 = 1;
const RELAYER_SEED: u8 = 2;
const CLOSE_GROUP_SEED: u8 = 3;
const FIRST_WITNESS_SEED: u8 = 4;
const SECOND_WITNESS_SEED: u8 = 5;
const THIRD_WITNESS_SEED: u8 = 6;
const DUPLICATE_IP_WITNESS_SEED: u8 = 7;
const RELAY_IP_WITNESS_SEED: u8 = 8;
const TEST_PORT: u16 = 9000;
const REJECTED_RELAYER_SEED: u8 = 7;
const SECOND_RELAYER_SEED: u8 = 8;

fn peer_id(seed: u8) -> PeerId {
    PeerId::from_bytes([seed; 32])
}

fn key_set(peers: &[PeerId]) -> KeySet<PeerId> {
    let mut set = KeySet::new();
    for peer in peers {
        set.insert(*peer);
    }
    set
}

fn members(set: &KeySet<PeerId>) -> HashSet<PeerId> {
    set.members().into_iter().collect()
}

fn v4(a: u8, b: u8, c: u8, d: u8) -> IpAddr {
    IpAddr::v4(a, b, c, d)
}

fn node(seed: u8, ip: IpAddr) -> DHTNode {
    DHTNode {
        peer_id: peer_id(seed),
        addresses: vec![MultiAddr::from_ip_port(ip, TEST_PORT + u16::from(seed))],
        address_types: vec![AddressType::Direct],
        distance: None,
        reliability: 1,
        address_authority: None,
    }
}

fn candidates() -> Vec<DHTNode> {
    let relay_ip = v4(203, 0, 113, 2);
    vec![
        node(TARGET_SEED, v4(203, 0, 113, 1)),
        node(RELAYER_SEED, relay_ip),
        node(CLOSE_GROUP_SEED, v4(203, 0, 113, 3)),
        node(FIRST_WITNESS_SEED, v4(203, 0, 113, 3)),
        node(SECOND_WITNESS_SEED, v4(203, 0, 113, 4)),
        node(THIRD_WITNESS_SEED, v4(203, 0, 113, 5)),
        node(DUPLICATE_IP_WITNESS_SEED, v4(203, 0, 113, 3)),
        node(RELAY_IP_WITNESS_SEED, relay_ip),
    ]
}

#[test]
fn witness_selection_uses_random_non_close_independent_sources() {
    let target = peer_id(TARGET_SEED);
    let relayer = peer_id(RELAYER_SEED);
    let relay_ip = v4(203, 0, 113, 2);
    let close_group_ids = key_set(&[peer_id(CLOSE_GROUP_SEED)]);

    let witnesses = select_relay_canary_witnesses(
        &candidates(),
        &close_group_ids,
        &target,
        &relayer,
        relay_ip,
        RELAY_CANARY_WITNESS_TARGET,
    );

    let selected: HashSet<PeerId> = witnesses.iter().map(|w| w.peer_id).collect();
    assert_eq!(selected.len(), RELAY_CANARY_WITNESS_TARGET);
    assert!(!selected.contains(&target));
    assert!(!selected.contains(&relayer));
    assert!(!selected.contains(&peer_id(CLOSE_GROUP_SEED)));
    assert!(!selected.contains(&peer_id(RELAY_IP_WITNESS_SEED)));
    assert!(selected.contains(&peer_id(SECOND_WITNESS_SEED)));
    assert!(selected.contains(&peer_id(THIRD_WITNESS_SEED)));

    let duplicate_pair_selected = selected.contains(&peer_id(FIRST_WITNESS_SEED))
        && selected.contains(&peer_id(DUPLICATE_IP_WITNESS_SEED));
    assert!(!duplicate_pair_selected);
}

#[test]
fn witnesses_are_taken_in_the_order_that_is_given() {
    let order: Vec<usize> = vec![7, 6, 5, 4, 3, 2, 1, 0];
    let witnesses = select_witnesses_in_order(
        &candidates(),
        &order,
        &key_set(&[peer_id(CLOSE_GROUP_SEED)]),
        &peer_id(TARGET_SEED),
        &peer_id(RELAYER_SEED),
        v4(203, 0, 113, 2),
        2,
    );
    let selected: Vec<PeerId> = witnesses.iter().map(|w| w.peer_id).collect();
    assert_eq!(selected, vec![peer_id(DUPLICATE_IP_WITNESS_SEED), peer_id(THIRD_WITNESS_SEED)]);
    assert_eq!(witnesses[1].typed_addresses[0].1, AddressType::Direct);
}

#[test]
fn a_random_order_visits_every_position_and_varies() {
    let mut order = random_order(64);
    let shuffled = order.clone();
    order.sort_unstable();
    assert_eq!(order, (0..64).collect::<Vec<usize>>());
    // Sixty-four positions stay in place with a chance of one in 64!.
    assert_ne!(shuffled, order);
}

#[test]
fn witness_rate_limited_is_ineligible_not_relay_failure() {
    assert_eq!(
        RelayCanaryProbeResult::WitnessRateLimited.disposition(),
        RelayCanaryProbeDisposition::Ineligible
    );
}

#[test]
fn explicit_probe_failures_count_as_relay_failures() {
    assert_eq!(
        RelayCanaryProbeResult::DialFailed.disposition(),
        RelayCanaryProbeDisposition::Failure
    );
    assert_eq!(
        RelayCanaryProbeResult::IdentityExchangeFailed.disposition(),
        RelayCanaryProbeDisposition::Failure
    );
    assert_eq!(
        RelayCanaryProbeResult::IdentityMismatch.disposition(),
        RelayCanaryProbeDisposition::Failure
    );
}

#[test]
fn ineligible_witnesses_produce_inconclusive_verdict() {
    let mut summary = RelayCanarySummary::new(RELAY_CANARY_WITNESS_TARGET);

    summary.record(RelayCanaryProbeDisposition::Success);
    summary.record(RelayCanaryProbeDisposition::Ineligible);
    summary.record(RelayCanaryProbeDisposition::Ineligible);
    assert_eq!(
        summary.verdict(RelayCanaryPolicy::Admission),
        RelayCanaryVerdict::Inconclusive { successes: 1, failures: 0, unavailable: 2 }
    );
}

#[test]
fn one_failure_rejects_admission_but_not_healthy_maintenance_majority() {
    let mut summary = RelayCanarySummary::new(RELAY_CANARY_WITNESS_TARGET);

    summary.record(RelayCanaryProbeDisposition::Failure);
    summary.record(RelayCanaryProbeDisposition::Success);
    summary.record(RelayCanaryProbeDisposition::Success);
    assert_eq!(
        summary.verdict(RelayCanaryPolicy::Admission),
        RelayCanaryVerdict::Rejected { successes: 2, attempts: 3 }
    );
    assert_eq!(
        summary.verdict(RelayCanaryPolicy::Maintenance),
        RelayCanaryVerdict::Verified { successes: 2, attempts: 3 }
    );
}

#[test]
fn two_failures_reject_maintenance_round() {
    let mut summary = RelayCanarySummary::new(RELAY_CANARY_WITNESS_TARGET);

    summary.record(RelayCanaryProbeDisposition::Failure);
    summary.record(RelayCanaryProbeDisposition::Success);
    summary.record(RelayCanaryProbeDisposition::Failure);
    assert_eq!(
        summary.verdict(RelayCanaryPolicy::Maintenance),
        RelayCanaryVerdict::Rejected { successes: 1, attempts: 3 }
    );
}

#[test]
fn split_maintenance_evidence_is_inconclusive() {
    let mut summary = RelayCanarySummary::new(RELAY_CANARY_WITNESS_TARGET);

    summary.record(RelayCanaryProbeDisposition::Success);
    summary.record(RelayCanaryProbeDisposition::Failure);
    summary.record(RelayCanaryProbeDisposition::Ineligible);
    assert_eq!(
        summary.verdict(RelayCanaryPolicy::Maintenance),
        RelayCanaryVerdict::Inconclusive { successes: 1, failures: 1, unavailable: 1 }
    );
}

#[test]
fn two_successes_and_one_ineligible_verify_only_maintenance() {
    let mut summary = RelayCanarySummary::new(RELAY_CANARY_WITNESS_TARGET);

    summary.record(RelayCanaryProbeDisposition::Success);
    summary.record(RelayCanaryProbeDisposition::Success);
    summary.record(RelayCanaryProbeDisposition::Ineligible);
    assert_eq!(
        summary.verdict(RelayCanaryPolicy::Admission),
        RelayCanaryVerdict::Inconclusive { successes: 2, failures: 0, unavailable: 1 }
    );
    assert_eq!(
        summary.verdict(RelayCanaryPolicy::Maintenance),
        RelayCanaryVerdict::Verified { successes: 2, attempts: 2 }
    );
}

#[test]
fn missing_canary_response_counts_as_legacy_success() {
    assert_eq!(
        relay_canary_probe_report(
            peer_id(FIRST_WITNESS_SEED),
            Ok(RelayCanaryRequestOutcome::NoProtocolResponse)
        )
        .disposition,
        RelayCanaryProbeDisposition::AssumedSuccess
    );
}

#[test]
fn witness_network_timeout_is_ineligible() {
    assert_eq!(
        relay_canary_probe_report(peer_id(FIRST_WITNESS_SEED), Err("timeout".to_string()))
            .disposition,
        RelayCanaryProbeDisposition::Ineligible
    );
}

#[test]
fn assumed_legacy_successes_satisfy_admission_threshold() {
    let mut summary = RelayCanarySummary::new(RELAY_CANARY_WITNESS_TARGET);

    summary.record(RelayCanaryProbeDisposition::Success);
    summary.record(RelayCanaryProbeDisposition::AssumedSuccess);
    summary.record(RelayCanaryProbeDisposition::AssumedSuccess);

    assert_eq!(summary.assumed_successes, 2);
    assert_eq!(
        summary.verdict(RelayCanaryPolicy::Admission),
        RelayCanaryVerdict::Verified { successes: 3, attempts: 3 }
    );
}

#[test]
fn witness_contact_failure_is_ineligible() {
    assert_eq!(
        relay_canary_probe_report(
            peer_id(FIRST_WITNESS_SEED),
            Err("peer not found: witness".to_string())
        )
        .disposition,
        RelayCanaryProbeDisposition::Ineligible
    );
}

fn request(target: PeerId, relayer: PeerId, relay_addr: SocketAddr) -> RelayCanaryRequest {
    RelayCanaryRequest::new(target, relayer, relay_addr, vec![1, 2, 3])
}

#[test]
fn canary_request_rejects_source_mismatch() {
    let relay_addr = SocketAddr::new(v4(203, 0, 113, 7), TEST_PORT);
    let request = request(peer_id(TARGET_SEED), peer_id(RELAYER_SEED), relay_addr);

    let err = validate_relay_canary_request(&peer_id(FIRST_WITNESS_SEED), &request, Ok(()))
        .expect_err("source mismatch must be rejected");

    assert!(matches!(err, RelayCanaryRequestRejection::SourceMismatch { .. }));
}

#[test]
fn canary_request_accepts_valid_signed_allocation() {
    let target = peer_id(TARGET_SEED);
    let relay_addr = SocketAddr::new(v4(203, 0, 113, 7), TEST_PORT);
    let request = request(target, peer_id(RELAYER_SEED), relay_addr);

    assert!(validate_relay_canary_request(&target, &request, Ok(())).is_ok());
}

#[test]
fn canary_request_rejects_receipt_for_another_address() {
    let target = peer_id(TARGET_SEED);
    let requested_addr = SocketAddr::new(v4(203, 0, 113, 8), TEST_PORT);
    let request = request(target, peer_id(RELAYER_SEED), requested_addr);

    let error = validate_relay_canary_request(
        &target,
        &request,
        Err("receipt is for another address".to_string()),
    )
    .expect_err("receipt must bind the exact requested allocation");

    assert!(matches!(error, RelayCanaryRequestRejection::InvalidAllocationReceipt(_)));
}

#[test]
fn canary_request_rejects_local_scope_relay_address() {
    let relay_addr = SocketAddr::new(v4(192, 168, 1, 10), TEST_PORT);
    let request = request(peer_id(TARGET_SEED), peer_id(RELAYER_SEED), relay_addr);

    let err = validate_relay_canary_request(&peer_id(TARGET_SEED), &request, Ok(()))
        .expect_err("private relay address must be rejected");

    assert!(matches!(err, RelayCanaryRequestRejection::LocalScopeIp(_)));
}

#[test]
fn canary_request_rejects_unspecified_port() {
    let relay_addr = SocketAddr::new(v4(203, 0, 113, 8), 0);
    let request = request(peer_id(TARGET_SEED), peer_id(RELAYER_SEED), relay_addr);

    let err = validate_relay_canary_request(&peer_id(TARGET_SEED), &request, Ok(()))
        .expect_err("port zero must be rejected");

    assert_eq!(err, RelayCanaryRequestRejection::UnspecifiedPort);
}

#[test]
fn canary_request_rejects_self_as_relayer() {
    let relay_addr = SocketAddr::new(v4(203, 0, 113, 9), TEST_PORT);
    let target = peer_id(TARGET_SEED);
    let request = request(target, target, relay_addr);

    let err = validate_relay_canary_request(&target, &request, Ok(()))
        .expect_err("target must not be its own relayer");

    assert!(matches!(err, RelayCanaryRequestRejection::SelfRelayer { .. }));
}

#[test]
fn addresses_that_no_witness_would_dial_are_refused() {
    let rejection =
        |ip: IpAddr| validate_relay_canary_address(SocketAddr::new(ip, TEST_PORT)).unwrap_err();
    assert_eq!(rejection(v4(0, 0, 0, 0)), RelayCanaryRequestRejection::UnspecifiedIp);
    assert_eq!(
        rejection(v4(224, 0, 0, 1)),
        RelayCanaryRequestRejection::MulticastIp(v4(224, 0, 0, 1))
    );
    assert_eq!(
        rejection(v4(255, 255, 255, 255)),
        RelayCanaryRequestRejection::BroadcastIp(v4(255, 255, 255, 255))
    );
    assert_eq!(
        RelayCanaryRequestRejection::UnspecifiedPort.summary(""),
        "relay address has port 0"
    );
    assert!(validate_relay_canary_address(SocketAddr::new(v4(203, 0, 113, 9), 1)).is_ok());
}

#[test]
fn a_witness_reports_what_its_dial_came_to() {
    let target = peer_id(TARGET_SEED);
    let request = request(target, peer_id(RELAYER_SEED), SocketAddr::new(v4(203, 0, 113, 9), 1));
    let report = |dial| answer_relay_canary_request(dial, &request).result;
    assert_eq!(report(Some(Ok(target))), RelayCanaryProbeResult::Success);
    assert_eq!(
        report(Some(Ok(peer_id(THIRD_WITNESS_SEED)))),
        RelayCanaryProbeResult::IdentityMismatch
    );
    assert_eq!(
        report(Some(Err("refused".to_string()))),
        RelayCanaryProbeResult::DialFailed
    );
    assert_eq!(report(None), RelayCanaryProbeResult::DialFailed);
    let answered = relay_canary_probe_report(
        peer_id(FIRST_WITNESS_SEED),
        Ok(RelayCanaryRequestOutcome::Response(RelayCanaryResponse {
            result: RelayCanaryProbeResult::IdentityMismatch,
        })),
    );
    assert_eq!(answered.disposition, RelayCanaryProbeDisposition::Failure);
    assert_eq!(answered.detail, "identity mismatch");
}

fn reports(dispositions: &[RelayCanaryProbeDisposition]) -> Vec<RelayCanaryProbeReport> {
    dispositions
        .iter()
        .map(|disposition| RelayCanaryProbeReport {
            witness: peer_id(FIRST_WITNESS_SEED),
            disposition: *disposition,
            detail: String::new(),
        })
        .collect()
}

#[test]
fn a_round_is_decided_by_its_reports() {
    let all = [RelayCanaryProbeDisposition::Success; 3];
    assert_eq!(
        conclude_canary_round(3, &reports(&all), RelayCanaryPolicy::Admission),
        RelayCanaryVerdict::Verified { successes: 3, attempts: 3 }
    );
    let none = [RelayCanaryProbeDisposition::Ineligible; 3];
    assert!(matches!(
        conclude_canary_round(3, &reports(&none), RelayCanaryPolicy::Maintenance),
        RelayCanaryVerdict::Inconclusive { .. }
    ));
}

#[test]
fn a_round_without_witnesses_has_no_evidence() {
    let target = peer_id(TARGET_SEED);
    let good = request(target, peer_id(RELAYER_SEED), SocketAddr::new(v4(203, 0, 113, 9), 1));
    let plan = plan_canary_round(&good, Ok(()), Vec::new(), RelayCanaryPolicy::Admission);
    assert!(matches!(
        plan,
        CanaryPlan::Decided(RelayCanaryVerdict::Inconclusive {
            successes: 0,
            failures: 0,
            unavailable: 3
        })
    ));
    let bad = request(target, target, SocketAddr::new(v4(203, 0, 113, 9), 1));
    let plan = plan_canary_round(&bad, Ok(()), Vec::new(), RelayCanaryPolicy::Admission);
    assert!(matches!(
        plan,
        CanaryPlan::Decided(RelayCanaryVerdict::Rejected { successes: 0, attempts: 0 })
    ));
}

#[test]
fn rate_limits_are_those_of_the_protocol() {
    let source = relay_canary_rate_limit_config();
    let global = relay_canary_global_rate_limit_config();
    let destination = relay_canary_destination_rate_limit_config();
    assert_eq!(source.max_requests, 1);
    assert!(global.max_requests >= source.max_requests);
    assert!(destination.max_requests >= 1);
}

#[test]
fn publication_targets_only_retry_pending_and_new_peers() {
    let departed = peer_id(1);
    let retained = peer_id(2);
    let joined = peer_id(3);
    let previous = PublishedTypedSet {
        typed_addresses: Vec::new(),
        target_peers: key_set(&[departed, retained]),
        pending_peers: key_set(&[departed]),
    };
    let current = key_set(&[retained, joined]);

    assert_eq!(
        members(&pending_publication_targets(Some(&previous), &Vec::new(), &current, false)),
        HashSet::from([joined])
    );
}

#[test]
fn invalidated_publication_retries_rejoined_peer_id() {
    let peer = peer_id(1);
    let current = key_set(&[peer]);

    assert_eq!(
        members(&pending_publication_targets(None, &Vec::new(), &current, false)),
        members(&current)
    );
}

#[test]
fn changed_or_forced_publication_targets_every_current_peer() {
    let first = peer_id(1);
    let second = peer_id(2);
    let previous = PublishedTypedSet {
        typed_addresses: Vec::new(),
        target_peers: key_set(&[first, second]),
        pending_peers: KeySet::new(),
    };
    let current = key_set(&[first, second]);
    let changed =
        vec![(MultiAddr::from_ip_port(v4(203, 0, 113, 7), 9000), AddressType::Direct)];

    assert_eq!(
        members(&pending_publication_targets(Some(&previous), &changed, &current, false)),
        members(&current)
    );
    assert_eq!(
        members(&pending_publication_targets(Some(&previous), &Vec::new(), &current, true)),
        members(&current)
    );
}

#[test]
fn acquisition_failure_clears_canary_rejected_relayers() {
    let mut rejected_relayers =
        key_set(&[peer_id(REJECTED_RELAYER_SEED), peer_id(SECOND_RELAYER_SEED)]);

    apply_canary_rejection_event(
        &mut rejected_relayers,
        CanaryRejectionEvent::AcquisitionFailed,
    );

    assert!(rejected_relayers.is_empty());
}

#[test]
fn verified_relay_clears_canary_rejected_relayers() {
    let mut rejected_relayers =
        key_set(&[peer_id(REJECTED_RELAYER_SEED), peer_id(SECOND_RELAYER_SEED)]);

    apply_canary_rejection_event(&mut rejected_relayers, CanaryRejectionEvent::Verified);

    assert!(rejected_relayers.is_empty());
}

#[test]
fn insufficient_witnesses_clear_canary_rejected_relayers() {
    let mut rejected_relayers =
        key_set(&[peer_id(REJECTED_RELAYER_SEED), peer_id(SECOND_RELAYER_SEED)]);

    apply_canary_rejection_event(
        &mut rejected_relayers,
        CanaryRejectionEvent::InsufficientWitnesses,
    );

    assert!(rejected_relayers.is_empty());
}

#[test]
fn canary_rejection_adds_relayer_to_exclusion_set() {
    let relayer = peer_id(REJECTED_RELAYER_SEED);
    let mut rejected_relayers = KeySet::new();

    apply_canary_rejection_event(
        &mut rejected_relayers,
        CanaryRejectionEvent::Rejected(relayer),
    );

    assert!(rejected_relayers.contains(&relayer));
}

#[test]
fn relay_revalidation_delay_is_bounded_and_peer_stable() {
    let peer = peer_id(REJECTED_RELAYER_SEED);
    let delay = relay_revalidation_initial_delay(&peer);

    assert_eq!(delay, relay_revalidation_initial_delay(&peer));
    assert!(delay >= RELAY_REVALIDATION_INTERVAL_SECS);
    assert!(delay <= RELAY_REVALIDATION_INTERVAL_SECS + RELAY_REVALIDATION_JITTER_MAX_SECS);
    // The first eight bytes of the identity, modulo one more than the bound.
    assert_eq!(delay, 7200 + 0x0707_0707_0707_0707 % 7201);
}

#[test]
fn a_relay_is_proven_before_it_is_held_and_withdrawn_before_the_next() {
    let relayer = peer_id(RELAYER_SEED);
    let relay = SocketAddr::new(v4(203, 0, 113, 9), 4433);
    let mut driver = AcquisitionDriver::new(peer_id(TARGET_SEED));
    assert!(driver.step(DriverEvent::Started).contains(&DriverAction::Acquire));
    let actions = driver.step(DriverEvent::Acquired { relayer, relay });
    assert_eq!(
        actions.last(),
        Some(&DriverAction::Verify { relayer, relay, policy: RelayCanaryPolicy::Admission })
    );
    let verified = RelayCanaryVerdict::Verified { successes: 3, attempts: 3 };
    assert!(driver.step(DriverEvent::Verdict(verified)).contains(&DriverAction::Commit));
    let actions = driver.step(DriverEvent::Committed);
    assert_eq!(driver.stage(), DriverStage::Holding { relayer, relay });
    assert!(actions.contains(&DriverAction::SetRelayAddress(relay)));
    let actions = driver.step(DriverEvent::RelayLost);
    let position = |wanted: DriverAction| actions.iter().position(|a| *a == wanted);
    assert!(position(DriverAction::Acquire).is_some());
    assert_eq!(driver.stage(), DriverStage::Acquiring);
}

#[test]
fn a_rejected_relay_is_aborted_and_its_relayer_skipped() {
    let relayer = peer_id(RELAYER_SEED);
    let relay = SocketAddr::new(v4(203, 0, 113, 9), 4433);
    let mut driver = AcquisitionDriver::new(peer_id(TARGET_SEED));
    driver.step(DriverEvent::Started);
    driver.step(DriverEvent::Acquired { relayer, relay });
    let rejected = RelayCanaryVerdict::Rejected { successes: 2, attempts: 3 };
    let actions = driver.step(DriverEvent::Verdict(rejected));
    assert!(actions.contains(&DriverAction::Abort));
    assert!(driver.rejected_relayers().contains(&relayer));
}

#[test]
fn backoff_doubles_up_to_its_bound() {
    let mut driver = AcquisitionDriver::new(peer_id(TARGET_SEED));
    driver.step(DriverEvent::Started);
    let mut windows = Vec::new();
    for _ in 0..6 {
        for action in driver.step(DriverEvent::AcquisitionFailed) {
            if let DriverAction::WaitBackoff { secs } = action {
                windows.push(secs);
            }
        }
        driver.step(DriverEvent::BackoffExpired);
    }
    assert_eq!(windows, vec![30, 60, 120, 240, 300, 300]);
}

#[test]
fn acknowledged_publications_are_not_repeated() {
    let own = peer_id(TARGET_SEED);
    let mut driver = AcquisitionDriver::new(own);
    let typed = || vec![(MultiAddr::from_ip_port(v4(203, 0, 113, 7), 9000), AddressType::Direct)];
    let closest = vec![peer_id(3), own, peer_id(4)];
    let publication = driver.begin_publication(typed(), &closest, false).expect("first");
    assert_eq!(publication.recipients, vec![0, 2]);
    driver.finish_publication(publication, &vec![peer_id(3)]);
    let retry = driver.begin_publication(typed(), &closest, false).expect("one is missing");
    assert_eq!(retry.recipients, vec![2]);
    driver.finish_publication(retry, &vec![peer_id(4)]);
    assert!(driver.begin_publication(typed(), &closest, false).is_none());
}
