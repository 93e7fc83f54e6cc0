//! Third-party relay canary probes.
//!
//! A relay acquisition is not publishable just because the local node
//! established a session to a candidate relayer. Before a relay-allocated
//! address is published, randomized non-close peers are asked to cold-dial it
//! and to confirm that the authenticated identity on the far end is this node.

use crate::address::{canonicalize_ip, is_lan_ip, IpAddr, MultiAddr, SocketAddr};
use crate::peer_id::PeerId;
use crate::peer_record::{AddressType, DHTNode, NodeView, Typed};
use crate::table::KeySet;
use crate::text::hex;
use rand::seq::SliceRandom;
use vstd::prelude::*;
use vstd::string::*;

verus! {

/// Request/response protocol name of canary requests.
pub const RELAY_CANARY_PROTOCOL: &'static str = "relay-canary-v2";

/// Wire topic emitted by the request/response wrapper for canary requests.
pub const RELAY_CANARY_WIRE_TOPIC: &'static str = "/rr/relay-canary-v2";

/// Number of independent non-close witnesses to ask for a relay proof.
pub const RELAY_CANARY_WITNESS_TARGET: usize = 3;

/// Positive witness results needed before a relay is publishable: unanimity
/// across the selected independent witnesses.
pub const RELAY_CANARY_ADMISSION_SUCCESSES: usize = 3;

/// One explicit canary-capable dial failure is enough to reject a provisional
/// relay.
pub const RELAY_CANARY_ADMISSION_FAILURES: usize = 1;

/// Established relays use majority evidence so one witness-specific network
/// failure cannot withdraw a relay that two other witnesses just reached.
pub const RELAY_CANARY_MAINTENANCE_SUCCESSES: usize = 2;

/// Failures that withdraw an established relay.
pub const RELAY_CANARY_MAINTENANCE_FAILURES: usize = 2;

/// Witness-side handler budget for answering one request, in seconds.
pub const RELAY_CANARY_HANDLER_TIMEOUT_SECS: u64 = 11;

/// End-to-end budget for asking one witness, in seconds.
pub const RELAY_CANARY_REQUEST_TIMEOUT_SECS: u64 = 12;

/// Cold-dial connection budget spent by a witness, in seconds.
pub const RELAY_CANARY_CONNECT_TIMEOUT_SECS: u64 = 8;

/// Limits of a rate limiter.
#[derive(Debug, Clone, Copy, PartialEq, Eq, Structural)]
pub struct EngineConfig {
    /// Sliding window, in seconds.
    pub window_secs: u64,
    /// Requests admitted in a window.
    pub max_requests: u32,
    /// Requests admitted at once.
    pub burst_size: u32,
}

/// Per-source throttle applied to inbound relay canary requests: one dial per
/// window, so no peer can use this node as a reflection dialer.
pub fn relay_canary_rate_limit_config() -> (config: EngineConfig)
    ensures
        config == (EngineConfig { window_secs: 10, max_requests: 1, burst_size: 1 }),
{
    EngineConfig { window_secs: 10, max_requests: 1, burst_size: 1 }
}

/// Node-wide cap on accepted canary work, independent of requester identity.
pub fn relay_canary_global_rate_limit_config() -> (config: EngineConfig)
    ensures
        config == (EngineConfig { window_secs: 10, max_requests: 16, burst_size: 16 }),
{
    EngineConfig { window_secs: 10, max_requests: 16, burst_size: 16 }
}

/// Cap on repeated canary work aimed at the same relay allocation.
pub fn relay_canary_destination_rate_limit_config() -> (config: EngineConfig)
    ensures
        config == (EngineConfig { window_secs: 10, max_requests: 2, burst_size: 2 }),
{
    EngineConfig { window_secs: 10, max_requests: 2, burst_size: 2 }
}

/// Request sent to a witness asking it to verify a proposed relay address.
#[derive(Debug, Clone, PartialEq, Eq)]
pub struct RelayCanaryRequest {
    /// Node that wants to be probed.
    pub target_peer_id: PeerId,
    /// Node that relays for it.
    pub relayer_peer_id: PeerId,
    /// Address that the relay allocated.
    pub relay_addr: SocketAddr,
    /// The relayer's receipt for the allocation, as it came.
    pub allocation_receipt: Vec<u8>,
}

impl RelayCanaryRequest {
    /// A request for a relay allocation.
    pub fn new(
        target_peer_id: PeerId,
        relayer_peer_id: PeerId,
        relay_addr: SocketAddr,
        allocation_receipt: Vec<u8>,
    ) -> (request: Self)
        ensures
            request == (RelayCanaryRequest {
                target_peer_id,
                relayer_peer_id,
                relay_addr,
                allocation_receipt,
            }),
    {
        RelayCanaryRequest { target_peer_id, relayer_peer_id, relay_addr, allocation_receipt }
    }
}

/// Result of one witness's relay probe.
#[derive(Debug, Clone, Copy, PartialEq, Eq, Structural)]
pub enum RelayCanaryProbeResult {
    /// The target answered at the relay address.
    Success,
    /// No connection came about.
    DialFailed,
    /// The far end did not identify itself.
    IdentityExchangeFailed,
    /// Another peer answered.
    IdentityMismatch,
    /// The witness had no budget left for the source.
    WitnessRateLimited,
}

/// What a probe counts as.
#[derive(Debug, Clone, Copy, PartialEq, Eq, Structural)]
pub enum RelayCanaryProbeDisposition {
    /// A confirmed success.
    Success,
    /// A success that is assumed of a witness without the protocol.
    AssumedSuccess,
    /// A failure of the relay.
    Failure,
    /// No evidence about the relay.
    Ineligible,
}

impl RelayCanaryProbeResult {
    /// What a result counts as.
    pub open spec fn counts_as(self) -> RelayCanaryProbeDisposition {
        match self {
            RelayCanaryProbeResult::Success => RelayCanaryProbeDisposition::Success,
            RelayCanaryProbeResult::WitnessRateLimited => RelayCanaryProbeDisposition::Ineligible,
            _ => RelayCanaryProbeDisposition::Failure,
        }
    }

    /// The text of a result.
    pub open spec fn text(self) -> Seq<char> {
        match self {
            RelayCanaryProbeResult::Success => "success"@,
            RelayCanaryProbeResult::DialFailed => "dial failed"@,
            RelayCanaryProbeResult::IdentityExchangeFailed => "identity exchange failed"@,
            RelayCanaryProbeResult::IdentityMismatch => "identity mismatch"@,
            RelayCanaryProbeResult::WitnessRateLimited => "witness rate-limited source"@,
        }
    }

    /// What the result counts as.
    pub fn disposition(&self) -> (disposition: RelayCanaryProbeDisposition)
        ensures
            disposition == self.counts_as(),
    {
        match self {
            RelayCanaryProbeResult::Success => RelayCanaryProbeDisposition::Success,
            RelayCanaryProbeResult::WitnessRateLimited => RelayCanaryProbeDisposition::Ineligible,
            RelayCanaryProbeResult::DialFailed => RelayCanaryProbeDisposition::Failure,
            RelayCanaryProbeResult::IdentityExchangeFailed => RelayCanaryProbeDisposition::Failure,
            RelayCanaryProbeResult::IdentityMismatch => RelayCanaryProbeDisposition::Failure,
        }
    }

    /// The result in words.
    pub fn summary(&self) -> (text: String)
        ensures
            text@ == self.text(),
    {
        match self {
            RelayCanaryProbeResult::Success => "success".to_owned(),
            RelayCanaryProbeResult::DialFailed => "dial failed".to_owned(),
            RelayCanaryProbeResult::IdentityExchangeFailed => "identity exchange failed".to_owned(),
            RelayCanaryProbeResult::IdentityMismatch => "identity mismatch".to_owned(),
            RelayCanaryProbeResult::WitnessRateLimited => "witness rate-limited source".to_owned(),
        }
    }
}

/// Witness response after attempting the cold relay dial.
#[derive(Debug, Clone, PartialEq, Eq)]
pub struct RelayCanaryResponse {
    /// What the dial came to.
    pub result: RelayCanaryProbeResult,
}

/// Request-level outcome after the requester has contacted a selected witness.
#[derive(Debug)]
pub enum RelayCanaryRequestOutcome {
    /// The witness supports the canary protocol and returned a typed result.
    Response(RelayCanaryResponse),
    /// The request was sent, but no canary-protocol response arrived.
    NoProtocolResponse,
}

/// Reject reason for a malformed or unauthorized canary request.
#[derive(Debug, PartialEq, Eq)]
pub enum RelayCanaryRequestRejection {
    /// The request was not sent by its target.
    SourceMismatch {
        /// Authenticated sender.
        source_peer_id: PeerId,
        /// Claimed target.
        target_peer_id: PeerId,
    },
    /// The target claims to relay for itself.
    SelfRelayer {
        /// The target.
        peer_id: PeerId,
    },
    /// Port zero.
    UnspecifiedPort,
    /// The address of all zeros.
    UnspecifiedIp,
    /// An address of local scope.
    LocalScopeIp(IpAddr),
    /// A multicast address.
    MulticastIp(IpAddr),
    /// The IPv4 broadcast address.
    BroadcastIp(IpAddr),
    /// The receipt does not bind this allocation.
    InvalidAllocationReceipt(String),
}

impl RelayCanaryRequestRejection {
    /// The text of a rejection, given the text of the IP address that it names.
    pub open spec fn text(self, ip: Seq<char>) -> Seq<char> {
        match self {
            RelayCanaryRequestRejection::SourceMismatch { source_peer_id, target_peer_id } =>
                "source "@ + hex(source_peer_id@) + " does not match target "@ + hex(
                    target_peer_id@,
                ),
            RelayCanaryRequestRejection::SelfRelayer { peer_id } => "target "@ + hex(peer_id@)
                + " also claimed to be relayer"@,
            RelayCanaryRequestRejection::UnspecifiedPort => "relay address has port 0"@,
            RelayCanaryRequestRejection::UnspecifiedIp => "relay address has unspecified IP"@,
            RelayCanaryRequestRejection::LocalScopeIp(_) => "relay address uses local-scope IP "@
                + ip,
            RelayCanaryRequestRejection::MulticastIp(_) => "relay address uses multicast IP "@ + ip,
            RelayCanaryRequestRejection::BroadcastIp(_) => "relay address uses broadcast IP "@ + ip,
            RelayCanaryRequestRejection::InvalidAllocationReceipt(reason) =>
                "invalid relay allocation receipt: "@ + reason@,
        }
    }

    /// The rejection in words, given the text of the IP address that it names.
    pub fn summary(&self, ip: &str) -> (text: String)
        ensures
            text@ == self.text(ip@),
    {
        match self {
            RelayCanaryRequestRejection::SourceMismatch { source_peer_id, target_peer_id } => {
                let mut text = "source ".to_owned();
                text.append(source_peer_id.to_hex().as_str());
                text.append(" does not match target ");
                text.append(target_peer_id.to_hex().as_str());
                text
            },
            RelayCanaryRequestRejection::SelfRelayer { peer_id } => {
                let mut text = "target ".to_owned();
                text.append(peer_id.to_hex().as_str());
                text.append(" also claimed to be relayer");
                text
            },
            RelayCanaryRequestRejection::UnspecifiedPort => "relay address has port 0".to_owned(),
            RelayCanaryRequestRejection::UnspecifiedIp =>
                "relay address has unspecified IP".to_owned(),
            RelayCanaryRequestRejection::LocalScopeIp(_) => {
                let mut text = "relay address uses local-scope IP ".to_owned();
                text.append(ip);
                text
            },
            RelayCanaryRequestRejection::MulticastIp(_) => {
                let mut text = "relay address uses multicast IP ".to_owned();
                text.append(ip);
                text
            },
            RelayCanaryRequestRejection::BroadcastIp(_) => {
                let mut text = "relay address uses broadcast IP ".to_owned();
                text.append(ip);
                text
            },
            RelayCanaryRequestRejection::InvalidAllocationReceipt(reason) => {
                let mut text = "invalid relay allocation receipt: ".to_owned();
                text.append(reason.as_str());
                text
            },
        }
    }
}

/// Why a relay address is refused.
pub open spec fn address_rejection(address: SocketAddr) -> Option<RelayCanaryRequestRejection> {
    let ip = address.ip;
    if address.port == 0 {
        Some(RelayCanaryRequestRejection::UnspecifiedPort)
    } else if ip.unspecified() {
        Some(RelayCanaryRequestRejection::UnspecifiedIp)
    } else if ip.lan() {
        Some(RelayCanaryRequestRejection::LocalScopeIp(ip))
    } else if ip.multicast() {
        Some(RelayCanaryRequestRejection::MulticastIp(ip))
    } else if ip == IpAddr::V4(u32::MAX) {
        Some(RelayCanaryRequestRejection::BroadcastIp(ip))
    } else {
        None
    }
}

/// Why a request of a source is refused, given what the check of its receipt
/// says.
pub open spec fn request_rejection(
    source: PeerId,
    request: RelayCanaryRequest,
    receipt: Result<(), String>,
) -> Option<RelayCanaryRequestRejection> {
    if request.target_peer_id != source {
        Some(
            RelayCanaryRequestRejection::SourceMismatch {
                source_peer_id: source,
                target_peer_id: request.target_peer_id,
            },
        )
    } else if request.relayer_peer_id == request.target_peer_id {
        Some(RelayCanaryRequestRejection::SelfRelayer { peer_id: request.target_peer_id })
    } else if address_rejection(request.relay_addr) is Some {
        address_rejection(request.relay_addr)
    } else {
        match receipt {
            Ok(()) => None,
            Err(reason) => Some(RelayCanaryRequestRejection::InvalidAllocationReceipt(reason)),
        }
    }
}

/// Validate that a witness can safely act on a canary request.
///
/// `receipt` is what the check of the allocation receipt said of the target,
/// the relayer, the address and the time.
pub fn validate_relay_canary_request(
    source_peer_id: &PeerId,
    request: &RelayCanaryRequest,
    receipt: Result<(), String>,
) -> (checked: Result<(), RelayCanaryRequestRejection>)
    ensures
        match request_rejection(*source_peer_id, *request, receipt) {
            None => checked is Ok,
            Some(rejection) => checked == Err::<(), _>(rejection),
        },
{
    if !request.target_peer_id.is(source_peer_id) {
        return Err(
            RelayCanaryRequestRejection::SourceMismatch {
                source_peer_id: *source_peer_id,
                target_peer_id: request.target_peer_id,
            },
        );
    }
    if request.relayer_peer_id.is(&request.target_peer_id) {
        return Err(RelayCanaryRequestRejection::SelfRelayer { peer_id: request.target_peer_id });
    }
    match validate_relay_canary_address(request.relay_addr) {
        Ok(()) => {},
        Err(rejection) => {
            return Err(rejection);
        },
    }
    match receipt {
        Ok(()) => Ok(()),
        Err(reason) => Err(RelayCanaryRequestRejection::InvalidAllocationReceipt(reason)),
    }
}

/// Validate that a relay address is a public endpoint.
pub fn validate_relay_canary_address(relay_addr: SocketAddr) -> (checked: Result<
    (),
    RelayCanaryRequestRejection,
>)
    ensures
        match address_rejection(relay_addr) {
            None => checked is Ok,
            Some(rejection) => checked == Err::<(), _>(rejection),
        },
{
    if relay_addr.port == 0 {
        return Err(RelayCanaryRequestRejection::UnspecifiedPort);
    }
    let ip = relay_addr.ip;
    if ip.is_unspecified() {
        return Err(RelayCanaryRequestRejection::UnspecifiedIp);
    }
    if is_lan_ip(ip) {
        return Err(RelayCanaryRequestRejection::LocalScopeIp(ip));
    }
    if ip.is_multicast() {
        return Err(RelayCanaryRequestRejection::MulticastIp(ip));
    }
    if ip == IpAddr::V4(u32::MAX) {
        return Err(RelayCanaryRequestRejection::BroadcastIp(ip));
    }
    Ok(())
}

/// Aggregate decision for a relay.
#[derive(Debug, Clone, Copy, PartialEq, Eq, Structural)]
pub enum RelayCanaryVerdict {
    /// Enough witnesses reached it.
    Verified {
        /// Witnesses that reached it.
        successes: usize,
        /// Witnesses that tried.
        attempts: usize,
    },
    /// Too many witnesses failed to reach it.
    Rejected {
        /// Witnesses that reached it.
        successes: usize,
        /// Witnesses that tried.
        attempts: usize,
    },
    /// Not enough evidence.
    Inconclusive {
        /// Witnesses that reached it.
        successes: usize,
        /// Witnesses that failed to reach it.
        failures: usize,
        /// Witnesses that could not evaluate it, or were missing.
        unavailable: usize,
    },
}

/// Evidence policy for a relay canary round.
#[derive(Debug, Clone, Copy, PartialEq, Eq, Structural)]
pub enum RelayCanaryPolicy {
    /// A provisional relay needs a positive result from every selected witness.
    Admission,
    /// An established relay is retained or rejected by a completed majority.
    Maintenance,
}

impl RelayCanaryPolicy {
    /// Successes that verify a relay.
    pub open spec fn needed(self) -> usize {
        match self {
            RelayCanaryPolicy::Admission => RELAY_CANARY_ADMISSION_SUCCESSES,
            RelayCanaryPolicy::Maintenance => RELAY_CANARY_MAINTENANCE_SUCCESSES,
        }
    }

    /// Failures that reject a relay.
    pub open spec fn tolerated(self) -> usize {
        match self {
            RelayCanaryPolicy::Admission => RELAY_CANARY_ADMISSION_FAILURES,
            RelayCanaryPolicy::Maintenance => RELAY_CANARY_MAINTENANCE_FAILURES,
        }
    }

    /// Successes that verify a relay.
    pub fn required_successes(self) -> (count: usize)
        ensures
            count == self.needed(),
    {
        match self {
            RelayCanaryPolicy::Admission => RELAY_CANARY_ADMISSION_SUCCESSES,
            RelayCanaryPolicy::Maintenance => RELAY_CANARY_MAINTENANCE_SUCCESSES,
        }
    }

    /// Failures that reject a relay.
    pub fn required_failures(self) -> (count: usize)
        ensures
            count == self.tolerated(),
    {
        match self {
            RelayCanaryPolicy::Admission => RELAY_CANARY_ADMISSION_FAILURES,
            RelayCanaryPolicy::Maintenance => RELAY_CANARY_MAINTENANCE_FAILURES,
        }
    }
}

/// Evidence of one canary round.
#[derive(Debug, Clone, Copy, PartialEq, Eq, Structural)]
pub struct RelayCanarySummary {
    /// Witnesses selected.
    pub total: usize,
    /// Reports so far.
    pub responses: usize,
    /// Reports that say something of the relay.
    pub eligible_attempts: usize,
    /// Positive reports.
    pub successes: usize,
    /// Positive reports that are assumed.
    pub assumed_successes: usize,
    /// Reports that say nothing of the relay.
    pub ineligible: usize,
}

/// The number of dispositions of a kind.
pub open spec fn count_of(
    reports: Seq<RelayCanaryProbeDisposition>,
    kind: RelayCanaryProbeDisposition,
) -> nat
    decreases reports.len(),
{
    if reports.len() == 0 {
        0
    } else {
        count_of(reports.drop_last(), kind) + if reports.last() == kind {
            1nat
        } else {
            0nat
        }
    }
}

/// The evidence of a list of reports.
pub open spec fn evidence(total: usize, reports: Seq<RelayCanaryProbeDisposition>) -> (
    nat,
    nat,
    nat,
    nat,
    nat,
) {
    let confirmed = count_of(reports, RelayCanaryProbeDisposition::Success);
    let assumed = count_of(reports, RelayCanaryProbeDisposition::AssumedSuccess);
    let failed = count_of(reports, RelayCanaryProbeDisposition::Failure);
    let ineligible = count_of(reports, RelayCanaryProbeDisposition::Ineligible);
    (reports.len(), confirmed + assumed + failed, confirmed + assumed, assumed, ineligible)
}

/// The verdict of a policy on counted evidence.
pub open spec fn judged(
    policy: RelayCanaryPolicy,
    total: int,
    attempts: int,
    successes: int,
    ineligible: int,
) -> RelayCanaryVerdict {
    let missing = if total >= RELAY_CANARY_WITNESS_TARGET {
        0
    } else {
        RELAY_CANARY_WITNESS_TARGET - total
    };
    if successes >= policy.needed() {
        RelayCanaryVerdict::Verified { successes: successes as usize, attempts: attempts as usize }
    } else if attempts - successes >= policy.tolerated() {
        RelayCanaryVerdict::Rejected { successes: successes as usize, attempts: attempts as usize }
    } else {
        RelayCanaryVerdict::Inconclusive {
            successes: successes as usize,
            failures: (attempts - successes) as usize,
            unavailable: (ineligible + missing) as usize,
        }
    }
}

impl RelayCanarySummary {
    /// Whether the counts can stand together and leave room for the verdict.
    pub open spec fn well_formed(self) -> bool {
        &&& self.eligible_attempts + self.ineligible == self.responses
        &&& self.successes <= self.eligible_attempts
        &&& self.assumed_successes <= self.successes
        &&& self.responses <= usize::MAX - RELAY_CANARY_WITNESS_TARGET
    }

    /// Whether the counts are those of a list of reports.
    pub open spec fn holds(self, reports: Seq<RelayCanaryProbeDisposition>) -> bool {
        evidence(self.total, reports) == (
            self.responses as nat,
            self.eligible_attempts as nat,
            self.successes as nat,
            self.assumed_successes as nat,
            self.ineligible as nat,
        )
    }

    /// No evidence from so many witnesses.
    pub fn new(total: usize) -> (summary: Self)
        ensures
            summary.total == total,
            summary.well_formed(),
            summary.holds(Seq::empty()),
    {
        RelayCanarySummary {
            total,
            responses: 0,
            eligible_attempts: 0,
            successes: 0,
            assumed_successes: 0,
            ineligible: 0,
        }
    }

    /// Count one report.
    pub fn record(&mut self, disposition: RelayCanaryProbeDisposition)
        requires
            old(self).well_formed(),
            old(self).responses < usize::MAX - RELAY_CANARY_WITNESS_TARGET,
        ensures
            final(self).well_formed(),
            final(self).total == old(self).total,
            final(self).responses == old(self).responses + 1,
            final(self).eligible_attempts == old(self).eligible_attempts + if disposition
                is Ineligible {
                0int
            } else {
                1int
            },
            final(self).successes == old(self).successes + if disposition is Success || disposition
                is AssumedSuccess {
                1int
            } else {
                0int
            },
            final(self).assumed_successes == old(self).assumed_successes + if disposition
                is AssumedSuccess {
                1int
            } else {
                0int
            },
            final(self).ineligible == old(self).ineligible + if disposition is Ineligible {
                1int
            } else {
                0int
            },
            forall|reports: Seq<RelayCanaryProbeDisposition>|
                old(self).holds(reports) ==> #[trigger] final(self).holds(reports.push(disposition)),
    {
        self.responses += 1;
        match disposition {
            RelayCanaryProbeDisposition::Success => {
                self.eligible_attempts += 1;
                self.successes += 1;
            },
            RelayCanaryProbeDisposition::AssumedSuccess => {
                self.eligible_attempts += 1;
                self.successes += 1;
                self.assumed_successes += 1;
            },
            RelayCanaryProbeDisposition::Failure => {
                self.eligible_attempts += 1;
            },
            RelayCanaryProbeDisposition::Ineligible => {
                self.ineligible += 1;
            },
        }
        proof {
            assert forall|reports: Seq<RelayCanaryProbeDisposition>|
                old(self).holds(reports) implies #[trigger] self.holds(
                reports.push(disposition),
            ) by {
                assert(reports.push(disposition).drop_last() =~= reports);
            }
        }
    }

    /// The verdict of a policy on the evidence.
    pub fn verdict(&self, policy: RelayCanaryPolicy) -> (verdict: RelayCanaryVerdict)
        requires
            self.well_formed(),
        ensures
            verdict == judged(
                policy,
                self.total as int,
                self.eligible_attempts as int,
                self.successes as int,
                self.ineligible as int,
            ),
    {
        let failures: usize = self.eligible_attempts.saturating_sub(self.successes);
        if self.successes >= policy.required_successes() {
            RelayCanaryVerdict::Verified {
                successes: self.successes,
                attempts: self.eligible_attempts,
            }
        } else if failures >= policy.required_failures() {
            RelayCanaryVerdict::Rejected {
                successes: self.successes,
                attempts: self.eligible_attempts,
            }
        } else {
            RelayCanaryVerdict::Inconclusive {
                successes: self.successes,
                failures,
                unavailable: self.ineligible + RELAY_CANARY_WITNESS_TARGET.saturating_sub(
                    self.total,
                ),
            }
        }
    }
}

/// A selected witness.
#[derive(Debug)]
pub struct RelayCanaryWitness {
    /// Identity of the witness.
    pub peer_id: PeerId,
    /// Addresses of the witness.
    pub typed_addresses: Vec<(MultiAddr, AddressType)>,
}

/// What one witness reported.
#[derive(Debug)]
pub struct RelayCanaryProbeReport {
    /// Identity of the witness.
    pub witness: PeerId,
    /// What the report counts as.
    pub disposition: RelayCanaryProbeDisposition,
    /// The report in words.
    pub detail: String,
}

/// The IP address of the first address that a native node dials.
pub open spec fn dialable_ip(typed: Seq<Typed>) -> Option<IpAddr>
    decreases typed.len(),
{
    if typed.len() == 0 {
        None
    } else {
        match dialable_ip(typed.drop_last()) {
            Some(ip) => Some(ip),
            None => match typed.last().0.dialable() {
                Some(socket) => Some(socket.ip),
                None => None,
            },
        }
    }
}

/// Whom a canary round is about.
pub struct CanaryContext {
    /// Node that wants to be probed.
    pub target: Seq<u8>,
    /// Node that relays for it.
    pub relayer: Seq<u8>,
    /// Peers that are too close to be witnesses.
    pub close_group: Set<Seq<u8>>,
    /// IP address of the relay, as it is written canonically.
    pub relay_ip: IpAddr,
}

/// The IP address under which a node can be a witness: it is neither the
/// target, nor the relayer, nor close, can be dialled, and is not at the
/// relay's own address.
pub open spec fn witness_ip(node: NodeView, context: CanaryContext) -> Option<IpAddr> {
    if node.peer == context.target || node.peer == context.relayer || context.close_group.contains(
        node.peer,
    ) {
        None
    } else {
        match dialable_ip(node.typed()) {
            Some(ip) => if ip.canonical() == context.relay_ip {
                None
            } else {
                Some(ip.canonical())
            },
            None => None,
        }
    }
}

/// The positions of the witnesses among candidates that are looked at in order:
/// each at an IP address of its own, until there are enough.
pub open spec fn selected(
    candidates: Seq<NodeView>,
    order: Seq<usize>,
    context: CanaryContext,
    count: nat,
) -> Seq<usize>
    decreases order.len(),
{
    if order.len() == 0 {
        Seq::empty()
    } else {
        let before = selected(candidates, order.drop_last(), context, count);
        let next = order.last();
        let ip = witness_ip(candidates[next as int], context);
        if (before.len() == count && count > 0) || ip is None || exists|i: int|
            0 <= i < before.len() && witness_ip(
                candidates[(#[trigger] before[i]) as int],
                context,
            ) == ip {
            before
        } else {
            before.push(next)
        }
    }
}

/// Whether a list of positions names each position below a count once.
pub open spec fn is_order(order: Seq<usize>, count: nat) -> bool {
    &&& order.len() == count
    &&& order.no_duplicates()
    &&& forall|i: int| 0 <= i < order.len() ==> (#[trigger] order[i]) < count
}

/// `SliceRandom::shuffle` of `rand`, on the positions below a count with the
/// thread's generator: a list of the same positions, each once. Which order
/// comes is left to chance.
#[verifier::external_body]
fn shuffle_positions(positions: Vec<usize>) -> (order: Vec<usize>)
    ensures
        order@.to_multiset() == positions@.to_multiset(),
        order@.len() == positions@.len(),
{
    let mut order = positions;
    order.shuffle(&mut rand::thread_rng());
    order
}

/// The positions below a count, in an order that is left to chance.
pub fn random_order(count: usize) -> (order: Vec<usize>)
    ensures
        is_order(order@, count as nat),
{
    let mut positions: Vec<usize> = Vec::new();
    let mut index: usize = 0;
    while index < count
        invariant
            index <= count,
            positions@.len() == index,
            forall|i: int| 0 <= i < index ==> positions@[i] == i,
        decreases count - index,
    {
        positions.push(index);
        index += 1;
    }
    let ghost all = positions@;
    let order = shuffle_positions(positions);
    proof {
        broadcast use vstd::seq_lib::group_to_multiset_ensures;

        assert(all.no_duplicates());
        all.lemma_multiset_has_no_duplicates();
        order@.lemma_multiset_has_no_duplicates_conv();
        assert forall|i: int| 0 <= i < order@.len() implies (#[trigger] order@[i]) < count by {
            assert(order@.contains(order@[i]));
            assert(order@.to_multiset().count(order@[i]) > 0);
            assert(all.contains(order@[i]));
        }
    }
    order
}

fn first_dialable_ip(typed: &Vec<Typed>) -> (ip: Option<IpAddr>)
    ensures
        ip == dialable_ip(typed@),
{
    let mut index: usize = 0;
    while index < typed.len()
        invariant
            index <= typed@.len(),
            dialable_ip(typed@.take(index as int)) is None,
        decreases typed@.len() - index,
    {
        proof {
            assert(typed@.take(index as int + 1).drop_last() =~= typed@.take(index as int));
        }
        if let Some(socket) = typed[index].0.dialable_socket_addr() {
            proof {
                lemma_dialable_ip_persists(typed@, index as int + 1);
            }
            return Some(socket.ip);
        }
        index += 1;
    }
    assert(typed@.take(typed@.len() as int) =~= typed@);
    None
}

proof fn lemma_dialable_ip_persists(typed: Seq<Typed>, count: int)
    requires
        0 <= count <= typed.len(),
        dialable_ip(typed.take(count)) is Some,
    ensures
        dialable_ip(typed) == dialable_ip(typed.take(count)),
    decreases typed.len() - count,
{
    if count < typed.len() {
        assert(typed.take(count + 1).drop_last() =~= typed.take(count));
        lemma_dialable_ip_persists(typed, count + 1);
    } else {
        assert(typed.take(count) =~= typed);
    }
}

/// What each candidate says.
pub open spec fn candidate_views(nodes: Seq<DHTNode>) -> Seq<NodeView> {
    nodes.map(|_i: int, n: DHTNode| n@)
}

/// Whether witnesses are the candidates at the given positions.
pub open spec fn are_witnesses(
    witnesses: Seq<RelayCanaryWitness>,
    candidates: Seq<NodeView>,
    positions: Seq<usize>,
) -> bool {
    &&& witnesses.len() == positions.len()
    &&& forall|i: int|
        0 <= i < witnesses.len() ==> (#[trigger] witnesses[i]).peer_id@
            == candidates[positions[i] as int].peer && witnesses[i].typed_addresses@
            == candidates[positions[i] as int].typed()
}

/// Select witnesses among candidates in the given order.
pub fn select_witnesses_in_order(
    candidates: &Vec<DHTNode>,
    order: &Vec<usize>,
    close_group_ids: &KeySet<PeerId>,
    target_peer_id: &PeerId,
    relayer: &PeerId,
    relay_ip: IpAddr,
    count: usize,
) -> (witnesses: Vec<RelayCanaryWitness>)
    requires
        forall|i: int| 0 <= i < order@.len() ==> (#[trigger] order@[i]) < candidates@.len(),
    ensures
        are_witnesses(
            witnesses@,
            candidate_views(candidates@),
            selected(
                candidate_views(candidates@),
                order@,
                CanaryContext {
                    target: target_peer_id@,
                    relayer: relayer@,
                    close_group: close_group_ids@,
                    relay_ip: relay_ip.canonical(),
                },
                count as nat,
            ),
        ),
{
    let relay_ip = canonicalize_ip(relay_ip);
    let ghost context = CanaryContext {
        target: target_peer_id@,
        relayer: relayer@,
        close_group: close_group_ids@,
        relay_ip,
    };
    let ghost views = candidate_views(candidates@);
    let mut witnesses: Vec<RelayCanaryWitness> = Vec::new();
    let mut seen_ips: KeySet<IpAddr> = KeySet::new();
    let mut index: usize = 0;
    while index < order.len()
        invariant
            index <= order@.len(),
            forall|i: int| 0 <= i < order@.len() ==> (#[trigger] order@[i]) < candidates@.len(),
            views == candidate_views(candidates@),
            context == (CanaryContext {
                target: target_peer_id@,
                relayer: relayer@,
                close_group: close_group_ids@,
                relay_ip,
            }),
            are_witnesses(
                witnesses@,
                views,
                selected(views, order@.take(index as int), context, count as nat),
            ),
            forall|ip: IpAddr| #[trigger]
                seen_ips@.contains(ip) <==> exists|i: int|
                    0 <= i < witnesses@.len() && witness_ip(
                        views[(#[trigger] selected(
                            views,
                            order@.take(index as int),
                            context,
                            count as nat,
                        )[i]) as int],
                        context,
                    ) == Some(ip),
        decreases order@.len() - index,
    {
        let ghost before = selected(views, order@.take(index as int), context, count as nat);
        let position = order[index];
        let node = &candidates[position];
        proof {
            assert(order@.take(index as int + 1).drop_last() =~= order@.take(index as int));
            assert(order@.take(index as int + 1).last() == position);
            assert(views[position as int] == node@);
        }
        let full = witnesses.len() == count && count > 0;
        let excluded = node.peer_id.is(target_peer_id) || node.peer_id.is(relayer)
            || close_group_ids.contains(&node.peer_id);
        if !full && !excluded {
            let typed_addresses = node.typed_addresses();
            if let Some(ip) = first_dialable_ip(&typed_addresses) {
                let ip = canonicalize_ip(ip);
                if ip != relay_ip {
                    let ghost seen = seen_ips@;
                    let added = seen_ips.insert(ip);
                    if added {
                        witnesses.push(
                            RelayCanaryWitness { peer_id: node.peer_id, typed_addresses },
                        );
                        proof {
                            let after = selected(
                                views,
                                order@.take(index as int + 1),
                                context,
                                count as nat,
                            );
                            assert(after == before.push(position));
                            assert forall|other: IpAddr| #[trigger] seen_ips@.contains(other)
                                <==> exists|i: int|
                                0 <= i < witnesses@.len() && witness_ip(
                                    views[(#[trigger] after[i]) as int],
                                    context,
                                ) == Some(other) by {
                                if other == ip {
                                    assert(after[before.len() as int] == position);
                                }
                                if seen.contains(other) {
                                    let i = choose|i: int|
                                        0 <= i < before.len() && witness_ip(
                                            views[(#[trigger] before[i]) as int],
                                            context,
                                        ) == Some(other);
                                    assert(after[i] == before[i]);
                                }
                                if exists|i: int|
                                    0 <= i < witnesses@.len() && witness_ip(
                                        views[(#[trigger] after[i]) as int],
                                        context,
                                    ) == Some(other) {
                                    let i = choose|i: int|
                                        0 <= i < witnesses@.len() && witness_ip(
                                            views[(#[trigger] after[i]) as int],
                                            context,
                                        ) == Some(other);
                                    if i < before.len() {
                                        assert(before[i] == after[i]);
                                    }
                                }
                            }
                        }
                    } else {
                        proof {
                            assert(seen_ips@ =~= seen);
                        }
                    }
                }
            }
        }
        index += 1;
    }
    assert(order@.take(order@.len() as int) =~= order@);
    witnesses
}

/// Select witnesses among candidates in an order that is left to chance.
pub fn select_relay_canary_witnesses(
    candidates: &Vec<DHTNode>,
    close_group_ids: &KeySet<PeerId>,
    target_peer_id: &PeerId,
    relayer: &PeerId,
    relay_ip: IpAddr,
    count: usize,
) -> (witnesses: Vec<RelayCanaryWitness>)
    ensures
        exists|order: Seq<usize>| #[trigger]
            is_order(order, candidates@.len()) && are_witnesses(
                witnesses@,
                candidate_views(candidates@),
                selected(
                    candidate_views(candidates@),
                    order,
                    CanaryContext {
                        target: target_peer_id@,
                        relayer: relayer@,
                        close_group: close_group_ids@,
                        relay_ip: relay_ip.canonical(),
                    },
                    count as nat,
                ),
            ),
{
    let order = random_order(candidates.len());
    select_witnesses_in_order(
        candidates,
        &order,
        close_group_ids,
        target_peer_id,
        relayer,
        relay_ip,
        count,
    )
}

/// What a witness reports of a dial to a relay address.
pub open spec fn probe_result(
    dial: Option<Result<PeerId, String>>,
    target: PeerId,
) -> RelayCanaryProbeResult {
    match dial {
        Some(Ok(peer)) => if peer == target {
            RelayCanaryProbeResult::Success
        } else {
            RelayCanaryProbeResult::IdentityMismatch
        },
        _ => RelayCanaryProbeResult::DialFailed,
    }
}

/// Answer a canary request from what the dial came to: the authenticated peer,
/// an error, or nothing within the connection budget.
pub fn answer_relay_canary_request(
    dial: Option<Result<PeerId, String>>,
    request: &RelayCanaryRequest,
) -> (response: RelayCanaryResponse)
    ensures
        response.result == probe_result(dial, request.target_peer_id),
{
    let result = match dial {
        Some(Ok(peer)) => {
            if peer.is(&request.target_peer_id) {
                RelayCanaryProbeResult::Success
            } else {
                RelayCanaryProbeResult::IdentityMismatch
            }
        },
        Some(Err(_)) => RelayCanaryProbeResult::DialFailed,
        None => RelayCanaryProbeResult::DialFailed,
    };
    RelayCanaryResponse { result }
}

/// What the outcome of a request to a witness counts as.
pub open spec fn outcome_counts_as(
    outcome: Result<RelayCanaryRequestOutcome, String>,
) -> RelayCanaryProbeDisposition {
    match outcome {
        Ok(RelayCanaryRequestOutcome::Response(response)) => response.result.counts_as(),
        Ok(RelayCanaryRequestOutcome::NoProtocolResponse) =>
            RelayCanaryProbeDisposition::AssumedSuccess,
        Err(_) => RelayCanaryProbeDisposition::Ineligible,
    }
}

/// What the outcome of a request to a witness counts as, and its words.
///
/// A witness that was reached and did not answer in the protocol is taken for a
/// legacy node; one that could not be reached says nothing of the relay.
pub fn relay_canary_probe_report(
    witness: PeerId,
    outcome: Result<RelayCanaryRequestOutcome, String>,
) -> (report: RelayCanaryProbeReport)
    ensures
        report.witness == witness,
        report.disposition == outcome_counts_as(outcome),
        match outcome {
            Ok(RelayCanaryRequestOutcome::Response(response)) => report.detail@
                == response.result.text(),
            Ok(RelayCanaryRequestOutcome::NoProtocolResponse) => report.detail@
                == "no canary-protocol response; treating selected witness as legacy"@,
            Err(error) => report.detail@ == error@,
        },
{
    match outcome {
        Ok(RelayCanaryRequestOutcome::Response(response)) => RelayCanaryProbeReport {
            witness,
            disposition: response.result.disposition(),
            detail: response.result.summary(),
        },
        Ok(RelayCanaryRequestOutcome::NoProtocolResponse) => RelayCanaryProbeReport {
            witness,
            disposition: RelayCanaryProbeDisposition::AssumedSuccess,
            detail: "no canary-protocol response; treating selected witness as legacy".to_owned(),
        },
        Err(error) => RelayCanaryProbeReport {
            witness,
            disposition: RelayCanaryProbeDisposition::Ineligible,
            detail: error,
        },
    }
}

/// What each report counts as.
pub open spec fn dispositions(reports: Seq<RelayCanaryProbeReport>) -> Seq<
    RelayCanaryProbeDisposition,
> {
    reports.map(|_i: int, r: RelayCanaryProbeReport| r.disposition)
}

/// The verdict of a policy on the reports of a round.
pub open spec fn round_verdict(
    policy: RelayCanaryPolicy,
    witnesses: usize,
    reports: Seq<RelayCanaryProbeDisposition>,
) -> RelayCanaryVerdict {
    let (_, attempts, successes, _, ineligible) = evidence(witnesses, reports);
    judged(policy, witnesses as int, attempts as int, successes as int, ineligible as int)
}

/// How a canary round begins.
pub enum CanaryPlan {
    /// Ask these witnesses.
    Probe(Vec<RelayCanaryWitness>),
    /// The round is over before it began.
    Decided(RelayCanaryVerdict),
}

/// The verdict of a round that is over before it began: on a relay address that
/// no witness would probe, and for want of witnesses.
pub open spec fn decided_beforehand(
    refused: bool,
    witnesses: nat,
    policy: RelayCanaryPolicy,
) -> Option<RelayCanaryVerdict> {
    if refused {
        Some(RelayCanaryVerdict::Rejected { successes: 0, attempts: 0 })
    } else if witnesses < policy.needed() {
        Some(
            RelayCanaryVerdict::Inconclusive {
                successes: 0,
                failures: 0,
                unavailable: (RELAY_CANARY_WITNESS_TARGET - witnesses) as usize,
            },
        )
    } else {
        None
    }
}

/// Plan a canary round for a relay of this node.
///
/// A relay address that no witness would probe is rejected outright, and too few
/// witnesses leave the round without evidence. Else the witnesses are asked.
pub fn plan_canary_round(
    request: &RelayCanaryRequest,
    receipt: Result<(), String>,
    witnesses: Vec<RelayCanaryWitness>,
    policy: RelayCanaryPolicy,
) -> (plan: CanaryPlan)
    ensures
        match decided_beforehand(
            request_rejection(request.target_peer_id, *request, receipt) is Some,
            witnesses@.len(),
            policy,
        ) {
            Some(verdict) => plan == CanaryPlan::Decided(verdict),
            None => plan == CanaryPlan::Probe(witnesses),
        },
{
    if validate_relay_canary_request(&request.target_peer_id, request, receipt).is_err() {
        return CanaryPlan::Decided(RelayCanaryVerdict::Rejected { successes: 0, attempts: 0 });
    }
    if witnesses.len() < policy.required_successes() {
        return CanaryPlan::Decided(
            RelayCanaryVerdict::Inconclusive {
                successes: 0,
                failures: 0,
                unavailable: RELAY_CANARY_WITNESS_TARGET.saturating_sub(witnesses.len()),
            },
        );
    }
    CanaryPlan::Probe(witnesses)
}

/// Decide a canary round from the reports of its witnesses, in whatever order
/// they came.
pub fn conclude_canary_round(
    witnesses: usize,
    reports: &Vec<RelayCanaryProbeReport>,
    policy: RelayCanaryPolicy,
) -> (verdict: RelayCanaryVerdict)
    requires
        reports@.len() <= usize::MAX - RELAY_CANARY_WITNESS_TARGET,
    ensures
        verdict == round_verdict(policy, witnesses, dispositions(reports@)),
{
    let ghost all = dispositions(reports@);
    let mut summary = RelayCanarySummary::new(witnesses);
    let mut index: usize = 0;
    proof {
        assert(all.take(0) =~= Seq::empty());
    }
    while index < reports.len()
        invariant
            index <= reports@.len(),
            reports@.len() <= usize::MAX - RELAY_CANARY_WITNESS_TARGET,
            all == dispositions(reports@),
            summary.well_formed(),
            summary.total == witnesses,
            summary.responses == index,
            summary.holds(all.take(index as int)),
        decreases reports@.len() - index,
    {
        summary.record(reports[index].disposition);
        proof {
            assert(all.take(index as int + 1) =~= all.take(index as int).push(
                reports@[index as int].disposition,
            ));
        }
        index += 1;
    }
    assert(all.take(all.len() as int) =~= all);
    summary.verdict(policy)
}

proof fn lemma_count_len(reports: Seq<RelayCanaryProbeDisposition>)
    ensures
        count_of(reports, RelayCanaryProbeDisposition::Success) + count_of(
            reports,
            RelayCanaryProbeDisposition::AssumedSuccess,
        ) + count_of(reports, RelayCanaryProbeDisposition::Failure) + count_of(
            reports,
            RelayCanaryProbeDisposition::Ineligible,
        ) == reports.len(),
    decreases reports.len(),
{
    if reports.len() > 0 {
        lemma_count_len(reports.drop_last());
    }
}

/// A full round of three reports verifies a provisional relay exactly when all
/// three are positive, confirmed or assumed.
pub proof fn law_admission_is_unanimous(reports: Seq<RelayCanaryProbeDisposition>)
    requires
        reports.len() == RELAY_CANARY_WITNESS_TARGET,
    ensures
        round_verdict(RelayCanaryPolicy::Admission, RELAY_CANARY_WITNESS_TARGET, reports)
            is Verified <==> count_of(reports, RelayCanaryProbeDisposition::Failure) + count_of(
            reports,
            RelayCanaryProbeDisposition::Ineligible,
        ) == 0,
        round_verdict(RelayCanaryPolicy::Admission, RELAY_CANARY_WITNESS_TARGET, reports)
            is Rejected <==> count_of(reports, RelayCanaryProbeDisposition::Failure) > 0,
{
    lemma_count_len(reports);
}

/// No single report withdraws an established relay, and one that two witnesses
/// reached is kept whatever the third one says.
pub proof fn law_one_failure_keeps_an_established_relay(
    reports: Seq<RelayCanaryProbeDisposition>,
)
    requires
        reports.len() <= RELAY_CANARY_WITNESS_TARGET,
    ensures
        count_of(reports, RelayCanaryProbeDisposition::Failure) <= 1 ==> !(round_verdict(
            RelayCanaryPolicy::Maintenance,
            RELAY_CANARY_WITNESS_TARGET,
            reports,
        ) is Rejected),
        count_of(reports, RelayCanaryProbeDisposition::Success) + count_of(
            reports,
            RelayCanaryProbeDisposition::AssumedSuccess,
        ) >= 2 ==> round_verdict(
            RelayCanaryPolicy::Maintenance,
            RELAY_CANARY_WITNESS_TARGET,
            reports,
        ) is Verified,
{
    lemma_count_len(reports);
}

/// Witnesses that could not evaluate a relay never decide against it.
pub proof fn law_ineligible_reports_never_reject(
    policy: RelayCanaryPolicy,
    witnesses: usize,
    reports: Seq<RelayCanaryProbeDisposition>,
)
    requires
        count_of(reports, RelayCanaryProbeDisposition::Failure) == 0,
    ensures
        !(round_verdict(policy, witnesses, reports) is Rejected),
{
}

/// Selected witnesses are no more than wanted, are at IP addresses of their own,
/// and none is the target, the relayer, close, or at the relay's address.
pub proof fn law_witnesses_are_independent(
    candidates: Seq<NodeView>,
    order: Seq<usize>,
    context: CanaryContext,
    count: nat,
)
    ensures
        ({
            let chosen = selected(candidates, order, context, count);
            &&& count > 0 ==> chosen.len() <= count
            &&& forall|i: int|
                0 <= i < chosen.len() ==> order.contains(#[trigger] chosen[i]) && witness_ip(
                    candidates[chosen[i] as int],
                    context,
                ) is Some
            &&& forall|i: int, j: int|
                0 <= i < j < chosen.len() ==> witness_ip(
                    candidates[(#[trigger] chosen[i]) as int],
                    context,
                ) != witness_ip(candidates[(#[trigger] chosen[j]) as int], context)
        }),
    decreases order.len(),
{
    if order.len() > 0 {
        let rest = order.drop_last();
        law_witnesses_are_independent(candidates, rest, context, count);
        let chosen = selected(candidates, order, context, count);
        let before = selected(candidates, rest, context, count);
        assert forall|i: int| 0 <= i < chosen.len() implies order.contains(#[trigger] chosen[i])
            && witness_ip(candidates[chosen[i] as int], context) is Some by {
            if i < before.len() {
                assert(chosen[i] == before[i]);
                let k = rest.index_of(before[i]);
                assert(order[k] == chosen[i]);
            } else {
                assert(order[order.len() - 1] == chosen[i]);
            }
        }
        assert forall|i: int, j: int| 0 <= i < j < chosen.len() implies witness_ip(
            candidates[(#[trigger] chosen[i]) as int],
            context,
        ) != witness_ip(candidates[(#[trigger] chosen[j]) as int], context) by {
            assert(chosen[i] == before[i]);
            if j < before.len() {
                assert(chosen[j] == before[j]);
            }
        }
    }
}

/// The reports of a kind are counted each once.
pub proof fn law_counts_are_numbers_of_reports(
    reports: Seq<RelayCanaryProbeDisposition>,
    kind: RelayCanaryProbeDisposition,
)
    ensures
        count_of(reports, kind) == reports.filter(|r: RelayCanaryProbeDisposition| r == kind).len(),
    decreases reports.len(),
{
    reveal(Seq::filter);
    if reports.len() > 0 {
        law_counts_are_numbers_of_reports(reports.drop_last(), kind);
    }
}

proof fn lemma_uniform_count(
    reports: Seq<RelayCanaryProbeDisposition>,
    kind: RelayCanaryProbeDisposition,
)
    requires
        forall|i: int| 0 <= i < reports.len() ==> #[trigger] reports[i] == kind,
    ensures
        count_of(reports, kind) == reports.len(),
    decreases reports.len(),
{
    if reports.len() > 0 {
        let rest = reports.drop_last();
        assert forall|i: int| 0 <= i < rest.len() implies #[trigger] rest[i] == kind by {
            assert(rest[i] == reports[i]);
        }
        lemma_uniform_count(rest, kind);
    }
}

/// An established relay is rejected by a majority: where enough reports are
/// failures and too few are positive, however few those are.
pub proof fn law_failed_maintenance_rejects(
    witnesses: usize,
    reports: Seq<RelayCanaryProbeDisposition>,
)
    requires
        count_of(reports, RelayCanaryProbeDisposition::Failure)
            >= RELAY_CANARY_MAINTENANCE_FAILURES,
        count_of(reports, RelayCanaryProbeDisposition::Success) + count_of(
            reports,
            RelayCanaryProbeDisposition::AssumedSuccess,
        ) < RELAY_CANARY_MAINTENANCE_SUCCESSES,
    ensures
        round_verdict(RelayCanaryPolicy::Maintenance, witnesses, reports) is Rejected,
{
}

/// A round in which every witness failed rejects the relay, provisional or
/// established.
pub proof fn law_unreachable_relays_are_rejected(
    policy: RelayCanaryPolicy,
    witnesses: usize,
    reports: Seq<RelayCanaryProbeDisposition>,
)
    requires
        reports.len() >= 2,
        forall|i: int|
            0 <= i < reports.len() ==> #[trigger] reports[i]
                == RelayCanaryProbeDisposition::Failure,
    ensures
        round_verdict(policy, witnesses, reports) is Rejected,
{
    lemma_uniform_count(reports, RelayCanaryProbeDisposition::Failure);
    lemma_count_len(reports);
}

/// A round in which every witness is positive verifies the relay, provisional or
/// established.
pub proof fn law_reachable_relays_are_verified(
    policy: RelayCanaryPolicy,
    witnesses: usize,
    reports: Seq<RelayCanaryProbeDisposition>,
)
    requires
        reports.len() >= 3,
        forall|i: int|
            0 <= i < reports.len() ==> #[trigger] reports[i] == RelayCanaryProbeDisposition::Success
                || reports[i] == RelayCanaryProbeDisposition::AssumedSuccess,
    ensures
        round_verdict(policy, witnesses, reports) is Verified,
    decreases reports.len(),
{
    lemma_only_positive(reports);
    lemma_count_len(reports);
}

proof fn lemma_only_positive(reports: Seq<RelayCanaryProbeDisposition>)
    requires
        forall|i: int|
            0 <= i < reports.len() ==> #[trigger] reports[i] == RelayCanaryProbeDisposition::Success
                || reports[i] == RelayCanaryProbeDisposition::AssumedSuccess,
    ensures
        count_of(reports, RelayCanaryProbeDisposition::Failure) == 0,
        count_of(reports, RelayCanaryProbeDisposition::Ineligible) == 0,
    decreases reports.len(),
{
    if reports.len() > 0 {
        let rest = reports.drop_last();
        assert forall|i: int| 0 <= i < rest.len() implies #[trigger] rest[i]
            == RelayCanaryProbeDisposition::Success || rest[i]
            == RelayCanaryProbeDisposition::AssumedSuccess by {
            assert(rest[i] == reports[i]);
        }
        lemma_only_positive(rest);
    }
}

/// A provisional relay needs three positive reports, and without them one failure
/// rejects it; an established one needs two of either, and the positive ones go
/// first. Where neither number is reached, nothing is decided.
pub proof fn law_verdicts_go_by_the_numbers(
    witnesses: usize,
    reports: Seq<RelayCanaryProbeDisposition>,
)
    ensures
        ({
            let positive = count_of(reports, RelayCanaryProbeDisposition::Success) + count_of(
                reports,
                RelayCanaryProbeDisposition::AssumedSuccess,
            );
            let failed = count_of(reports, RelayCanaryProbeDisposition::Failure);
            let admission = round_verdict(RelayCanaryPolicy::Admission, witnesses, reports);
            let maintenance = round_verdict(RelayCanaryPolicy::Maintenance, witnesses, reports);
            &&& admission is Verified <==> positive >= 3
            &&& admission is Rejected <==> positive < 3 && failed >= 1
            &&& admission is Inconclusive <==> positive < 3 && failed == 0
            &&& maintenance is Verified <==> positive >= 2
            &&& maintenance is Rejected <==> positive < 2 && failed >= 2
            &&& maintenance is Inconclusive <==> positive < 2 && failed < 2
        }),
{
}

/// A verdict tells the evidence that it rests on: the positive reports, the
/// reports that say something of the relay, and of a round without a decision the
/// failures and all who could not say, those never selected included.
pub proof fn law_verdicts_tell_their_evidence(
    policy: RelayCanaryPolicy,
    witnesses: usize,
    reports: Seq<RelayCanaryProbeDisposition>,
)
    requires
        reports.len() == witnesses,
        witnesses <= usize::MAX - RELAY_CANARY_WITNESS_TARGET,
    ensures
        ({
            let positive = count_of(reports, RelayCanaryProbeDisposition::Success) + count_of(
                reports,
                RelayCanaryProbeDisposition::AssumedSuccess,
            );
            let failed = count_of(reports, RelayCanaryProbeDisposition::Failure);
            match round_verdict(policy, witnesses, reports) {
                RelayCanaryVerdict::Verified { successes, attempts } => successes == positive
                    && attempts == positive + failed,
                RelayCanaryVerdict::Rejected { successes, attempts } => successes == positive
                    && attempts == positive + failed,
                RelayCanaryVerdict::Inconclusive { successes, failures, unavailable } => {
                    &&& successes == positive
                    &&& failures == failed
                    &&& witnesses <= 3 ==> successes + failures + unavailable == 3
                    &&& witnesses > 3 ==> successes + failures + unavailable == witnesses
                },
            }
        }),
{
    lemma_count_len(reports);
}

/// One more report that says nothing of the relay decides nothing, and one more
/// positive report turns no verified relay down and rejects none.
pub proof fn law_more_evidence_moves_one_way(
    policy: RelayCanaryPolicy,
    witnesses: usize,
    reports: Seq<RelayCanaryProbeDisposition>,
)
    ensures
        ({
            let before = round_verdict(policy, witnesses, reports);
            let silent = round_verdict(
                policy,
                witnesses,
                reports.push(RelayCanaryProbeDisposition::Ineligible),
            );
            let reached = round_verdict(
                policy,
                witnesses,
                reports.push(RelayCanaryProbeDisposition::Success),
            );
            let assumed = round_verdict(
                policy,
                witnesses,
                reports.push(RelayCanaryProbeDisposition::AssumedSuccess),
            );
            let failed = round_verdict(
                policy,
                witnesses,
                reports.push(RelayCanaryProbeDisposition::Failure),
            );
            &&& (silent is Verified <==> before is Verified) && (silent is Rejected <==> before
                is Rejected)
            &&& before is Verified ==> reached is Verified && failed is Verified
            &&& reached is Rejected ==> before is Rejected
            &&& before is Rejected ==> failed is Rejected
            &&& assumed == reached
        }),
{
    let kinds = seq![
        RelayCanaryProbeDisposition::Success,
        RelayCanaryProbeDisposition::AssumedSuccess,
        RelayCanaryProbeDisposition::Failure,
        RelayCanaryProbeDisposition::Ineligible,
    ];
    assert forall|i: int| 0 <= i < 4 implies reports.push(#[trigger] kinds[i]).drop_last()
        == reports by {
        assert(reports.push(kinds[i]).drop_last() =~= reports);
    }
    assert(kinds[0] is Success && kinds[1] is AssumedSuccess && kinds[2] is Failure
        && kinds[3] is Ineligible);
}

/// A dial is a success only where the target itself answered: another identity
/// is a mismatch, and no answer a failed dial. Of what a witness reports, the
/// success alone speaks for the relay, and a witness without budget says nothing.
pub proof fn law_only_the_target_proves_the_relay(
    peer: PeerId,
    target: PeerId,
    error: String,
    result: RelayCanaryProbeResult,
)
    ensures
        probe_result(Some(Ok(peer)), target).counts_as() is Success <==> peer == target,
        probe_result(Some(Ok(peer)), target) is IdentityMismatch <==> peer != target,
        probe_result(Some(Err(error)), target) is DialFailed,
        probe_result(None, target) is DialFailed,
        probe_result(None, target).counts_as() is Failure,
        result.counts_as() is Success <==> result is Success,
        result.counts_as() is Ineligible <==> result is WitnessRateLimited,
        !(result.counts_as() is AssumedSuccess),
{
}

/// A request is refused unless it comes from its target, for a relayer other than
/// that, with an address that a witness can dial and a receipt that holds. What
/// fails first in this order is what is told.
pub proof fn law_requests_come_from_their_target(
    source: PeerId,
    request: RelayCanaryRequest,
    receipt: Result<(), String>,
)
    ensures
        request_rejection(source, request, receipt) is None <==> request.target_peer_id == source
            && request.relayer_peer_id != source && address_rejection(request.relay_addr) is None
            && receipt is Ok,
        request.target_peer_id != source ==> request_rejection(source, request, receipt) == Some(
            RelayCanaryRequestRejection::SourceMismatch {
                source_peer_id: source,
                target_peer_id: request.target_peer_id,
            },
        ),
        request.target_peer_id == source && request.relayer_peer_id == source ==> request_rejection(
            source,
            request,
            receipt,
        ) == Some(RelayCanaryRequestRejection::SelfRelayer { peer_id: source }),
        request.target_peer_id == source && request.relayer_peer_id != source && address_rejection(
            request.relay_addr,
        ) is Some ==> request_rejection(source, request, receipt) == address_rejection(
            request.relay_addr,
        ),
        request.target_peer_id == source && request.relayer_peer_id != source && address_rejection(
            request.relay_addr,
        ) is None ==> (receipt matches Err(reason) ==> request_rejection(source, request, receipt)
            == Some(RelayCanaryRequestRejection::InvalidAllocationReceipt(reason))),
{
}

/// Of the IPv4 addresses a witness dials all but the one of all zeros, those of
/// the loopback, private and link-local ranges, multicast and the broadcast
/// address, and tells which of these it met; port zero comes first.
pub proof fn law_witnesses_dial_public_addresses(bits: u32, port: u16, flowinfo: u32, scope_id: u32)
    ensures
        ({
            let ip = IpAddr::V4(bits);
            let first = bits / 0x100_0000;
            let second = (bits / 0x1_0000) % 256;
            let local = first == 127 || first == 10 || (first == 172 && 16 <= second < 32) || (first
                == 192 && second == 168) || (first == 169 && second == 254);
            let rejection = address_rejection(SocketAddr { ip, port, flowinfo, scope_id });
            &&& port == 0 ==> rejection == Some(RelayCanaryRequestRejection::UnspecifiedPort)
            &&& port != 0 ==> {
                &&& bits == 0 <==> rejection == Some(RelayCanaryRequestRejection::UnspecifiedIp)
                &&& local <==> rejection == Some(RelayCanaryRequestRejection::LocalScopeIp(ip))
                &&& 224 <= first < 240 <==> rejection == Some(
                    RelayCanaryRequestRejection::MulticastIp(ip),
                )
                &&& bits == 0xffff_ffff <==> rejection == Some(
                    RelayCanaryRequestRejection::BroadcastIp(ip),
                )
                &&& rejection is None <==> bits != 0 && !local && !(224 <= first < 240) && bits
                    != 0xffff_ffff
            }
        }),
{
}

/// An IPv4 address of local scope is refused however it is written, and so are
/// the loopback, unique local, link-local and multicast addresses of IPv6.
pub proof fn law_local_scope_is_seen_through(bits: u32, wide: u128, port: u16)
    requires
        port != 0,
    ensures
        ({
            let plain = SocketAddr { ip: IpAddr::V4(bits), port, flowinfo: 0, scope_id: 0 };
            let mapped = IpAddr::V6((0xffff_0000_0000 + bits) as u128);
            address_rejection(plain) == Some(RelayCanaryRequestRejection::LocalScopeIp(plain.ip))
                <==> address_rejection(SocketAddr { ip: mapped, ..plain }) == Some(
                RelayCanaryRequestRejection::LocalScopeIp(mapped),
            )
        }),
        ({
            let ip = IpAddr::V6(wide);
            let top = wide / 0x1_0000_0000_0000_0000_0000_0000_0000;
            let rejection = address_rejection(SocketAddr { ip, port, flowinfo: 0, scope_id: 0 });
            &&& wide == 0 <==> rejection == Some(RelayCanaryRequestRejection::UnspecifiedIp)
            &&& (wide == 1 || 0xfc00 <= top < 0xfe00 || 0xfe80 <= top < 0xfec0) ==> rejection
                == Some(RelayCanaryRequestRejection::LocalScopeIp(ip))
            &&& top >= 0xff00 <==> rejection == Some(RelayCanaryRequestRejection::MulticastIp(ip))
            &&& top != 0 && top < 0xfc00 ==> rejection is None
        }),
{
}

/// The address under which a candidate can be a witness is that of its first
/// address that a native node can dial: the addresses before it cannot be
/// dialled, and a candidate without one has none.
pub proof fn law_the_first_dialable_address_counts(typed: Seq<Typed>)
    ensures
        dialable_ip(typed) is None <==> forall|i: int|
            0 <= i < typed.len() ==> !((#[trigger] typed[i]).0.transport is Quic),
        dialable_ip(typed) matches Some(ip) ==> exists|i: int|
            0 <= i < typed.len() && (#[trigger] typed[i]).0.transport is Quic
                && typed[i].0.socket_addr.ip == ip && forall|j: int|
                0 <= j < i ==> !((#[trigger] typed[j]).0.transport is Quic),
    decreases typed.len(),
{
    if typed.len() > 0 {
        let rest = typed.drop_last();
        law_the_first_dialable_address_counts(rest);
        assert forall|i: int| 0 <= i < rest.len() implies #[trigger] rest[i] == typed[i] by {}
        if dialable_ip(rest) is Some {
            let i = choose|i: int|
                0 <= i < rest.len() && (#[trigger] rest[i]).0.transport is Quic
                    && rest[i].0.socket_addr.ip == dialable_ip(rest)->0 && forall|j: int|
                    0 <= j < i ==> !((#[trigger] rest[j]).0.transport is Quic);
            assert(typed[i] == rest[i]);
            assert forall|j: int| 0 <= j < i implies !((#[trigger] typed[j]).0.transport is Quic) by {
                assert(rest[j] == typed[j]);
            }
        } else {
            assert forall|j: int| 0 <= j < rest.len() implies !((
            #[trigger] typed[j]).0.transport is Quic) by {
                assert(rest[j] == typed[j]);
            }
            assert(typed[typed.len() - 1] == typed.last());
        }
    }
}

/// Each witness is another node than the target and the relayer, is not close to
/// the target, can be dialled, and not at the relay's own IP address.
pub proof fn law_witnesses_have_no_part_in_the_relay(
    candidates: Seq<NodeView>,
    order: Seq<usize>,
    context: CanaryContext,
    count: nat,
    index: int,
)
    requires
        0 <= index < selected(candidates, order, context, count).len(),
    ensures
        ({
            let witness = candidates[selected(candidates, order, context, count)[index] as int];
            &&& witness.peer != context.target
            &&& witness.peer != context.relayer
            &&& !context.close_group.contains(witness.peer)
            &&& dialable_ip(witness.typed()) is Some
            &&& dialable_ip(witness.typed())->0.canonical() != context.relay_ip
        }),
{
    law_witnesses_are_independent(candidates, order, context, count);
}

/// A round is short of witnesses only for want of candidates: where fewer were
/// selected than wanted, each candidate that was passed over is the target, the
/// relayer, close, without an address to dial, at the relay's address, or at the
/// address of a witness that was selected.
pub proof fn law_eligible_candidates_are_asked(
    candidates: Seq<NodeView>,
    order: Seq<usize>,
    context: CanaryContext,
    count: nat,
    index: int,
)
    requires
        0 <= index < order.len(),
        count == 0 || selected(candidates, order, context, count).len() < count,
        !selected(candidates, order, context, count).contains(order[index]),
    ensures
        ({
            let node = candidates[order[index] as int];
            let chosen = selected(candidates, order, context, count);
            ||| node.peer == context.target
            ||| node.peer == context.relayer
            ||| context.close_group.contains(node.peer)
            ||| dialable_ip(node.typed()) is None
            ||| dialable_ip(node.typed())->0.canonical() == context.relay_ip
            ||| exists|i: int|
                0 <= i < chosen.len() && dialable_ip(
                    candidates[(#[trigger] chosen[i]) as int].typed(),
                ) is Some && dialable_ip(candidates[chosen[i] as int].typed())->0.canonical()
                    == dialable_ip(node.typed())->0.canonical()
        }),
    decreases order.len(),
{
    let rest = order.drop_last();
    let before = selected(candidates, rest, context, count);
    let chosen = selected(candidates, order, context, count);
    let node = candidates[order[index] as int];
    law_witnesses_are_independent(candidates, rest, context, count);
    assert forall|i: int| 0 <= i < before.len() implies #[trigger] before[i] == chosen[i] by {}
    assert forall|p: usize| before.contains(p) implies chosen.contains(p) by {
        let i = before.index_of(p);
        assert(chosen[i] == p);
    }
    if index < rest.len() {
        assert(rest[index] == order[index]);
        law_eligible_candidates_are_asked(candidates, rest, context, count, index);
        if exists|i: int|
            0 <= i < before.len() && dialable_ip(
                candidates[(#[trigger] before[i]) as int].typed(),
            ) is Some && dialable_ip(candidates[before[i] as int].typed())->0.canonical()
                == dialable_ip(node.typed())->0.canonical() {
            let i = choose|i: int|
                0 <= i < before.len() && dialable_ip(
                    candidates[(#[trigger] before[i]) as int].typed(),
                ) is Some && dialable_ip(candidates[before[i] as int].typed())->0.canonical()
                    == dialable_ip(node.typed())->0.canonical();
            assert(chosen[i] == before[i]);
        }
    } else {
        if chosen != before {
            assert(chosen[chosen.len() - 1] == order[index]);
        }
        if witness_ip(node, context) is Some {
            let i = choose|i: int|
                0 <= i < before.len() && witness_ip(
                    candidates[(#[trigger] before[i]) as int],
                    context,
                ) == witness_ip(node, context);
            assert(chosen[i] == before[i]);
            assert(witness_ip(candidates[chosen[i] as int], context) == witness_ip(node, context));
        }
    }
}

/// Candidates are taken in the order given: witnesses stand in that order, and
/// what was selected of the first candidates stays selected whoever follows.
pub proof fn law_witnesses_follow_the_order(
    candidates: Seq<NodeView>,
    order: Seq<usize>,
    context: CanaryContext,
    count: nat,
    taken: int,
)
    requires
        0 <= taken <= order.len(),
    ensures
        selected(candidates, order.take(taken), context, count).is_prefix_of(
            selected(candidates, order, context, count),
        ),
    decreases order.len() - taken,
{
    if taken < order.len() {
        assert(order.take(taken + 1).drop_last() =~= order.take(taken));
        law_witnesses_follow_the_order(candidates, order, context, count, taken + 1);
    } else {
        assert(order.take(taken) =~= order);
    }
}

/// A round asks its witnesses unless its request is refused, which rejects the
/// relay, or there are fewer witnesses than its policy needs positive reports,
/// which leaves it undecided and tells how many are missing.
pub proof fn law_rounds_ask_where_they_can_verify(witnesses: nat)
    ensures
        decided_beforehand(true, witnesses, RelayCanaryPolicy::Admission) == Some(
            RelayCanaryVerdict::Rejected { successes: 0, attempts: 0 },
        ),
        decided_beforehand(true, witnesses, RelayCanaryPolicy::Maintenance) == Some(
            RelayCanaryVerdict::Rejected { successes: 0, attempts: 0 },
        ),
        witnesses >= 3 <==> decided_beforehand(false, witnesses, RelayCanaryPolicy::Admission)
            is None,
        witnesses >= 2 <==> decided_beforehand(false, witnesses, RelayCanaryPolicy::Maintenance)
            is None,
        decided_beforehand(false, witnesses, RelayCanaryPolicy::Admission) matches Some(verdict) ==> (
        verdict matches RelayCanaryVerdict::Inconclusive { successes, failures, unavailable }
            && successes == 0 && failures == 0 && unavailable + witnesses == 3),
        decided_beforehand(false, witnesses, RelayCanaryPolicy::Maintenance) matches Some(verdict)
            ==> (verdict matches RelayCanaryVerdict::Inconclusive {
            successes,
            failures,
            unavailable,
        } && successes == 0 && failures == 0 && unavailable + witnesses == 3),
{
}

/// Only an answer of a witness counts against a relay, and only a witness that
/// was reached counts for it: one that could not be reached says nothing, and
/// one that was and does not know the protocol is taken at a success that is
/// only assumed.
pub proof fn law_unreached_witnesses_say_nothing(outcome: Result<RelayCanaryRequestOutcome, String>)
    ensures
        outcome_counts_as(outcome) is Failure ==> (outcome matches Ok(
            RelayCanaryRequestOutcome::Response(response),
        ) && !(response.result is Success) && !(response.result is WitnessRateLimited)),
        outcome_counts_as(outcome) is Success <==> (outcome matches Ok(
            RelayCanaryRequestOutcome::Response(response),
        ) && response.result is Success),
        outcome_counts_as(outcome) is AssumedSuccess <==> (outcome matches Ok(answer) && answer
            is NoProtocolResponse),
        outcome is Err ==> outcome_counts_as(outcome) is Ineligible,
        (outcome matches Ok(RelayCanaryRequestOutcome::Response(response)) && (response.result
            is DialFailed || response.result is IdentityExchangeFailed || response.result
            is IdentityMismatch)) ==> outcome_counts_as(outcome) is Failure,
{
}

/// The witnesses of a round are the candidates that were selected, in that order,
/// with all of their addresses.
pub proof fn law_witnesses_are_the_selected_candidates(
    witnesses: Seq<RelayCanaryWitness>,
    candidates: Seq<NodeView>,
    positions: Seq<usize>,
    index: int,
)
    requires
        are_witnesses(witnesses, candidates, positions),
        0 <= index < positions.len(),
    ensures
        witnesses.len() == positions.len(),
        witnesses[index].peer_id@ == candidates[positions[index] as int].peer,
        witnesses[index].typed_addresses@ == candidates[positions[index] as int].typed(),
{
}

/// A rejection tells whom or what it is about: both peers where the sender is not
/// the target, the target where it relays for itself, the IP address that is not
/// dialled, or why the receipt does not hold.
pub proof fn law_rejections_tell_whom_they_are_about(
    source: PeerId,
    target: PeerId,
    ip: IpAddr,
    written: Seq<char>,
    reason: String,
)
    ensures
        (RelayCanaryRequestRejection::SourceMismatch {
            source_peer_id: source,
            target_peer_id: target,
        }).text(written) == "source "@ + hex(source@) + " does not match target "@ + hex(target@),
        (RelayCanaryRequestRejection::SelfRelayer { peer_id: target }).text(written) == "target "@
            + hex(target@) + " also claimed to be relayer"@,
        RelayCanaryRequestRejection::LocalScopeIp(ip).text(written)
            == "relay address uses local-scope IP "@ + written,
        RelayCanaryRequestRejection::MulticastIp(ip).text(written)
            == "relay address uses multicast IP "@ + written,
        RelayCanaryRequestRejection::BroadcastIp(ip).text(written)
            == "relay address uses broadcast IP "@ + written,
        RelayCanaryRequestRejection::UnspecifiedPort.text(written) == "relay address has port 0"@,
        RelayCanaryRequestRejection::UnspecifiedIp.text(written)
            == "relay address has unspecified IP"@,
        RelayCanaryRequestRejection::InvalidAllocationReceipt(reason).text(written)
            == "invalid relay allocation receipt: "@ + reason@,
{
}

/// No two results of a probe read the same.
pub proof fn law_probe_results_read_apart(
    left: RelayCanaryProbeResult,
    right: RelayCanaryProbeResult,
)
    ensures
        left.text() == right.text() ==> left == right,
        RelayCanaryProbeResult::DialFailed.text() == "dial failed"@,
        RelayCanaryProbeResult::IdentityExchangeFailed.text() == "identity exchange failed"@,
        RelayCanaryProbeResult::WitnessRateLimited.text() == "witness rate-limited source"@,
{
    reveal_strlit("success");
    reveal_strlit("dial failed");
    reveal_strlit("identity exchange failed");
    reveal_strlit("identity mismatch");
    reveal_strlit("witness rate-limited source");
    assert("success"@.len() == 7);
    assert("dial failed"@.len() == 11);
    assert("identity exchange failed"@.len() == 24);
    assert("identity mismatch"@.len() == 17);
    assert("witness rate-limited source"@.len() == 27);
}

/// No two witnesses are at one IP address, however the address is written.
pub proof fn law_witnesses_are_at_addresses_of_their_own(
    candidates: Seq<NodeView>,
    order: Seq<usize>,
    context: CanaryContext,
    count: nat,
    left: int,
    right: int,
)
    requires
        0 <= left < right < selected(candidates, order, context, count).len(),
    ensures
        ({
            let chosen = selected(candidates, order, context, count);
            let one = dialable_ip(candidates[chosen[left] as int].typed());
            let other = dialable_ip(candidates[chosen[right] as int].typed());
            one is Some && other is Some && one->0.canonical() != other->0.canonical()
        }),
{
    law_witnesses_are_independent(candidates, order, context, count);
    let chosen = selected(candidates, order, context, count);
    assert(witness_ip(candidates[chosen[left] as int], context) != witness_ip(
        candidates[chosen[right] as int],
        context,
    ));
}

} // verus!
