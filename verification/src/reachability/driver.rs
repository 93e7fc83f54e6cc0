//! Relay acquisition driver.
//!
//! Owns every state transition for this node's relay: the initial acquisition
//! at startup, the backoff retry when no candidate accepts, the
//! republish-then-reacquire sequence when an existing relay is lost, and the
//! checks that retain a verified relay until there is positive evidence that it
//! is no longer usable. [`AcquisitionDriver::step`] takes what happened and says
//! what to do, in order; whoever runs it performs the actions.

use crate::address::SocketAddr;
use crate::keys::key_value;
use crate::peer_id::{lemma_peer_is_its_bytes, PeerId};
use crate::peer_record::Typed;
use crate::reachability::canary::{RelayCanaryPolicy, RelayCanaryVerdict};
use crate::table::KeySet;
use vstd::prelude::*;

verus! {

/// How often to poll the transport for tunnel health while holding a relay, in
/// seconds.
pub const HEALTH_POLL_INTERVAL_SECS: u64 = 5;

/// How often an established relay must again pass a third-party canary quorum,
/// in seconds.
pub const RELAY_REVALIDATION_INTERVAL_SECS: u64 = 7200;

/// Maximum deterministic per-peer offset added before the first maintenance
/// canary, in seconds.
pub const RELAY_REVALIDATION_JITTER_MAX_SECS: u64 = 7200;

/// Retry interval for publications that were not acknowledged by every current
/// close peer, in seconds.
pub const PUBLISH_RETRY_INTERVAL_SECS: u64 = 15;

/// Initial delay before the first retry after a failed acquisition walk, in
/// seconds.
pub const BACKOFF_INITIAL_SECS: u64 = 30;

/// Upper bound on the backoff delay, in seconds.
pub const BACKOFF_MAX_SECS: u64 = 300;

/// Multiplicative factor applied after each failed retry.
pub const BACKOFF_FACTOR: u64 = 2;

/// The address set that was published last, and to whom.
pub struct PublishedTypedSet {
    /// Addresses with their tags.
    pub typed_addresses: Vec<Typed>,
    /// Peers that the set was meant for.
    pub target_peers: KeySet<PeerId>,
    /// Peers that have not acknowledged it.
    pub pending_peers: KeySet<PeerId>,
}

/// What was published last, and to whom.
#[verifier::ext_equal]
pub struct PublishedView {
    /// Addresses with their tags.
    pub typed: Seq<Typed>,
    /// Peers that the set was meant for.
    pub targets: Set<Seq<u8>>,
    /// Peers that have not acknowledged it.
    pub pending: Set<Seq<u8>>,
}

impl View for PublishedTypedSet {
    type V = PublishedView;

    open spec fn view(&self) -> PublishedView {
        PublishedView {
            typed: self.typed_addresses@,
            targets: self.target_peers@,
            pending: self.pending_peers@,
        }
    }
}

/// The peers that a publication goes to: every target where the addresses
/// changed or the publication is forced, and else the targets that have not
/// acknowledged it and those that are new.
pub open spec fn publication_targets(
    previous: Option<PublishedView>,
    typed: Seq<Typed>,
    targets: Set<Seq<u8>>,
    force: bool,
) -> Set<Seq<u8>> {
    match previous {
        Some(published) => if !force && published.typed == typed {
            published.pending.intersect(targets).union(targets.difference(published.targets))
        } else {
            targets
        },
        None => targets,
    }
}

fn same_typed(left: &Vec<Typed>, right: &Vec<Typed>) -> (same: bool)
    ensures
        same == (left@ == right@),
{
    if left.len() != right.len() {
        return false;
    }
    let mut index: usize = 0;
    while index < left.len()
        invariant
            index <= left@.len(),
            left@.len() == right@.len(),
            forall|i: int| 0 <= i < index ==> left@[i] == right@[i],
        decreases left@.len() - index,
    {
        if !left[index].0.is(&right[index].0) || left[index].1 != right[index].1 {
            return false;
        }
        index += 1;
    }
    assert(left@ =~= right@);
    true
}

/// The peers that a publication goes to.
pub fn pending_publication_targets(
    previous: Option<&PublishedTypedSet>,
    typed_addresses: &Vec<Typed>,
    target_peers: &KeySet<PeerId>,
    force: bool,
) -> (pending: KeySet<PeerId>)
    ensures
        pending@ == publication_targets(
            match previous {
                Some(published) => Some(published@),
                None => None,
            },
            typed_addresses@,
            target_peers@,
            force,
        ),
{
    let ghost wanted = publication_targets(
        match previous {
            Some(published) => Some(published@),
            None => None,
        },
        typed_addresses@,
        target_peers@,
        force,
    );
    let count = target_peers.len();
    let mut pending: KeySet<PeerId> = KeySet::new();
    let unchanged = match previous {
        Some(published) => !force && same_typed(&published.typed_addresses, typed_addresses),
        None => false,
    };
    let mut index: usize = 0;
    while index < count
        invariant
            index <= count,
            count == target_peers.order().len(),
            target_peers@ == target_peers.order().to_set(),
            wanted == publication_targets(
                match previous {
                    Some(published) => Some(published@),
                    None => None,
                },
                typed_addresses@,
                target_peers@,
                force,
            ),
            unchanged == (previous is Some && !force && previous->0@.typed == typed_addresses@),
            forall|k: Seq<u8>| #[trigger]
                pending@.contains(k) <==> wanted.contains(k) && target_peers.order().take(
                    index as int,
                ).contains(k),
        decreases count - index,
    {
        let peer = *target_peers.member_at(index);
        let wants = match previous {
            Some(published) => !unchanged || published.pending_peers.contains(&peer)
                || !published.target_peers.contains(&peer),
            None => true,
        };
        if wants {
            let _ = pending.insert(peer);
        }
        proof {
            let taken = target_peers.order().take(index as int);
            let taken1 = target_peers.order().take(index as int + 1);
            assert(taken1 =~= taken.push(peer@));
            assert(wants == wanted.contains(peer@));
            assert forall|k: Seq<u8>| #[trigger] pending@.contains(k) <==> wanted.contains(k)
                && taken1.contains(k) by {
                if taken.contains(k) {
                    let j = taken.index_of(k);
                    assert(taken1[j] == k);
                }
                if k == peer@ {
                    assert(taken1[index as int] == k);
                }
                if taken1.contains(k) && k != peer@ {
                    let j = taken1.index_of(k);
                    assert(taken[j] == k);
                }
            }
        }
        index += 1;
    }
    proof {
        assert(target_peers.order().take(count as int) =~= target_peers.order());
        assert forall|k: Seq<u8>| #[trigger] wanted.contains(k) implies
            target_peers.order().contains(k) by {
            assert(target_peers@.contains(k));
        }
        assert(pending@ =~= wanted);
    }
    pending
}

/// What became of an acquisition, as far as exclusions go.
#[derive(Debug, Clone, Copy, PartialEq, Eq)]
pub enum CanaryRejectionEvent {
    /// A relay was verified.
    Verified,
    /// A relay of this peer failed its proof.
    Rejected(PeerId),
    /// There were too few witnesses for a proof.
    InsufficientWitnesses,
    /// No candidate could be acquired.
    AcquisitionFailed,
}

/// The exclusions after an event: a rejected relayer joins them, and every
/// other outcome clears them.
pub open spec fn exclusions_after(
    rejected: Set<Seq<u8>>,
    event: CanaryRejectionEvent,
) -> Set<Seq<u8>> {
    match event {
        CanaryRejectionEvent::Rejected(relayer) => rejected.insert(relayer@),
        _ => Set::empty(),
    }
}

/// Update the per-acquisition canary exclusion set in response to an outcome.
///
/// Exclusions accumulate only across a contiguous run of rejections, so the
/// next acquisition walk skips a relay that just failed its proof and advances
/// to the next candidate. Every other outcome resets the set: a failed
/// acquisition too, since if the only candidate is the excluded relayer,
/// keeping the set would leave the node relay-less for good.
pub fn apply_canary_rejection_event(
    rejected_relayers: &mut KeySet<PeerId>,
    event: CanaryRejectionEvent,
)
    ensures
        final(rejected_relayers)@ == exclusions_after(old(rejected_relayers)@, event),
{
    match event {
        CanaryRejectionEvent::Rejected(relayer) => {
            let _ = rejected_relayers.insert(relayer);
        },
        CanaryRejectionEvent::Verified => {
            rejected_relayers.clear();
        },
        CanaryRejectionEvent::InsufficientWitnesses => {
            rejected_relayers.clear();
        },
        CanaryRejectionEvent::AcquisitionFailed => {
            rejected_relayers.clear();
        },
    }
}

/// Delay before the first maintenance canary of a peer: a full interval and an
/// offset that the identity of the peer determines.
pub open spec fn initial_delay(peer: Seq<u8>) -> nat {
    RELAY_REVALIDATION_INTERVAL_SECS as nat + key_value(peer.take(8)) % (
    RELAY_REVALIDATION_JITTER_MAX_SECS as nat + 1)
}

/// Delay before the first maintenance canary of a peer, in seconds.
pub fn relay_revalidation_initial_delay(peer_id: &PeerId) -> (delay: u64)
    ensures
        delay == initial_delay(peer_id@),
        RELAY_REVALIDATION_INTERVAL_SECS <= delay <= RELAY_REVALIDATION_INTERVAL_SECS
            + RELAY_REVALIDATION_JITTER_MAX_SECS,
{
    let bytes = peer_id.as_bytes();
    let high: u64 = ((bytes[0] as u64 * 256 + bytes[1] as u64) * 256 + bytes[2] as u64) * 256
        + bytes[3] as u64;
    let value: u64 = (((high * 256 + bytes[4] as u64) * 256 + bytes[5] as u64) * 256
        + bytes[6] as u64) * 256 + bytes[7] as u64;
    proof {
        let p = peer_id@;
        reveal_with_fuel(key_value, 2);
        assert(p.take(8).drop_last() =~= p.take(7));
        assert(p.take(7).drop_last() =~= p.take(6));
        assert(p.take(6).drop_last() =~= p.take(5));
        assert(p.take(5).drop_last() =~= p.take(4));
        assert(p.take(4).drop_last() =~= p.take(3));
        assert(p.take(3).drop_last() =~= p.take(2));
        assert(p.take(2).drop_last() =~= p.take(1));
        assert(p.take(1).drop_last() =~= p.take(0));
        assert(key_value(p.take(0)) == 0);
        assert(key_value(p.take(1)) == bytes@[0]);
        assert(key_value(p.take(2)) == bytes@[0] * 256 + bytes@[1]);
        assert(key_value(p.take(3)) == (bytes@[0] * 256 + bytes@[1]) * 256 + bytes@[2]);
        assert(key_value(p.take(4)) == high);
        assert(key_value(p.take(5)) == high * 256 + bytes@[4]);
        assert(key_value(p.take(6)) == (high * 256 + bytes@[4]) * 256 + bytes@[5]);
        assert(key_value(p.take(7)) == ((high * 256 + bytes@[4]) * 256 + bytes@[5]) * 256
            + bytes@[6]);
        assert(key_value(p.take(8)) == value);
    }
    RELAY_REVALIDATION_INTERVAL_SECS + value % (RELAY_REVALIDATION_JITTER_MAX_SECS + 1)
}

/// The backoff window after another failed retry.
pub open spec fn next_backoff(current: u64) -> u64 {
    if current * BACKOFF_FACTOR > BACKOFF_MAX_SECS {
        BACKOFF_MAX_SECS
    } else {
        (current * BACKOFF_FACTOR) as u64
    }
}

/// Where the driver stands.
#[derive(Debug, Clone, Copy, PartialEq, Eq)]
pub enum DriverStage {
    /// Nothing happened yet.
    Starting,
    /// An acquisition walk is under way.
    Acquiring,
    /// A relay was acquired and is being proven.
    Admitting {
        /// Node that relays.
        relayer: PeerId,
        /// Address that it allocated.
        relay: SocketAddr,
    },
    /// A proven relay is being committed.
    Committing {
        /// Node that relays.
        relayer: PeerId,
        /// Address that it allocated.
        relay: SocketAddr,
    },
    /// A relay is held and published.
    Holding {
        /// Node that relays.
        relayer: PeerId,
        /// Address that it allocated.
        relay: SocketAddr,
    },
    /// A held relay is being proven again.
    Revalidating {
        /// Node that relays.
        relayer: PeerId,
        /// Address that it allocated.
        relay: SocketAddr,
    },
    /// Waiting before the next acquisition.
    Backoff,
    /// Shut down.
    Stopped,
}

/// What happened.
#[derive(Debug, Clone, Copy, PartialEq, Eq)]
pub enum DriverEvent {
    /// The driver was started.
    Started,
    /// The node is shutting down, or a channel that feeds the driver closed.
    Shutdown,
    /// A candidate accepted.
    Acquired {
        /// Node that relays.
        relayer: PeerId,
        /// Address that it allocated.
        relay: SocketAddr,
    },
    /// No candidate accepted.
    AcquisitionFailed,
    /// A canary round ended.
    Verdict(RelayCanaryVerdict),
    /// A proven relay was committed.
    Committed,
    /// A proven relay could not be committed.
    CommitFailed,
    /// The transport lost the relay tunnel.
    RelayLost,
    /// An address of this node was promoted or updated.
    AddressChanged,
    /// The closest peers of this node changed.
    ClosestChanged,
    /// Events of the DHT were missed.
    EventsLagged,
    /// Another event of the DHT.
    OtherEvent,
    /// The health of the tunnel was polled.
    HealthPolled {
        /// Whether the tunnel is healthy.
        healthy: bool,
    },
    /// The relay is due for another proof.
    RevalidationDue,
    /// The backoff window is over.
    BackoffExpired,
    /// Unacknowledged publications are due for another try.
    PublishRetry,
}

/// What to do, in order.
#[derive(Debug, Clone, Copy, PartialEq, Eq)]
pub enum DriverAction {
    /// Forget the relay address in the transport.
    ClearRelayAddress,
    /// Tell the transport the relay address.
    SetRelayAddress(SocketAddr),
    /// Publish the current address set.
    Publish {
        /// Relay address to publish first.
        relay: Option<SocketAddr>,
        /// Whether to publish even what has not changed.
        force: bool,
    },
    /// Walk the candidates that are not excluded.
    Acquire,
    /// Run a canary round.
    Verify {
        /// Node that relays.
        relayer: PeerId,
        /// Address that it allocated.
        relay: SocketAddr,
        /// Evidence that is asked for.
        policy: RelayCanaryPolicy,
    },
    /// Commit the proven relay.
    Commit,
    /// Tear down the relay that was not published.
    Abort,
    /// Tear down the published relay and publish a set without it, at once.
    Withdraw,
    /// Wait for an event, or for so many seconds.
    WaitBackoff {
        /// Length of the window.
        secs: u64,
    },
    /// Wait for an event, and prove the relay again after so many seconds.
    Hold {
        /// Time until the next proof.
        secs: u64,
    },
}

/// The state of the driver.
#[verifier::ext_equal]
pub struct DriverView {
    /// Identity of this node.
    pub own: Seq<u8>,
    /// Where the driver stands.
    pub stage: DriverStage,
    /// Current backoff window, in seconds.
    pub backoff: u64,
    /// What was published last.
    pub published: Option<PublishedView>,
    /// Relayers that failed their proof.
    pub rejected: Set<Seq<u8>>,
}

impl DriverView {
    /// A driver that has not started.
    pub open spec fn initial(own: Seq<u8>) -> DriverView {
        DriverView {
            own,
            stage: DriverStage::Starting,
            backoff: BACKOFF_INITIAL_SECS,
            published: None,
            rejected: Set::empty(),
        }
    }

    /// Wait before another acquisition, without a relay.
    pub open spec fn backing_off(
        self,
        before: Seq<DriverAction>,
        event: CanaryRejectionEvent,
    ) -> (DriverView, Seq<DriverAction>) {
        (
            DriverView {
                stage: DriverStage::Backoff,
                rejected: exclusions_after(self.rejected, event),
                ..self
            },
            before + seq![
                DriverAction::ClearRelayAddress,
                DriverAction::Publish { relay: None, force: false },
                DriverAction::WaitBackoff { secs: self.backoff },
            ],
        )
    }

    /// Withdraw the held relay before another acquisition.
    pub open spec fn losing(self) -> (DriverView, Seq<DriverAction>) {
        (
            DriverView { stage: DriverStage::Acquiring, ..self },
            seq![
                DriverAction::ClearRelayAddress,
                DriverAction::Withdraw,
                DriverAction::Acquire,
            ],
        )
    }

    /// Stay, and publish the current set.
    pub open spec fn refreshing(self, relay: Option<SocketAddr>) -> (
        DriverView,
        Seq<DriverAction>,
    ) {
        (self, seq![DriverAction::Publish { relay, force: false }])
    }

    /// Forget what was published, so that every target gets it again.
    pub open spec fn unpublished(self) -> DriverView {
        DriverView { published: None, ..self }
    }

    /// Acquire again after a longer window.
    pub open spec fn retrying(self) -> (DriverView, Seq<DriverAction>) {
        (
            DriverView {
                stage: DriverStage::Acquiring,
                backoff: next_backoff(self.backoff),
                ..self
            },
            seq![DriverAction::Acquire],
        )
    }

    /// The state after an event, and what to do. An event that a stage does not
    /// wait for changes nothing.
    pub open spec fn after(self, event: DriverEvent) -> (DriverView, Seq<DriverAction>) {
        let ignored: (DriverView, Seq<DriverAction>) = (self, Seq::empty());
        match (self.stage, event) {
            (_, DriverEvent::Shutdown) => (
                DriverView { stage: DriverStage::Stopped, ..self },
                Seq::empty(),
            ),
            (DriverStage::Starting, DriverEvent::Started) => (
                DriverView { stage: DriverStage::Acquiring, ..self },
                seq![
                    DriverAction::ClearRelayAddress,
                    DriverAction::Publish { relay: None, force: true },
                    DriverAction::Acquire,
                ],
            ),
            (DriverStage::Acquiring, DriverEvent::Acquired { relayer, relay }) => (
                DriverView { stage: DriverStage::Admitting { relayer, relay }, ..self },
                seq![
                    DriverAction::Verify { relayer, relay, policy: RelayCanaryPolicy::Admission },
                ],
            ),
            (DriverStage::Acquiring, DriverEvent::AcquisitionFailed) => self.backing_off(
                Seq::empty(),
                CanaryRejectionEvent::AcquisitionFailed,
            ),
            (DriverStage::Admitting { relayer, relay }, DriverEvent::Verdict(verdict)) =>
                match verdict {
                RelayCanaryVerdict::Verified { .. } => (
                    DriverView { stage: DriverStage::Committing { relayer, relay }, ..self },
                    seq![DriverAction::Commit],
                ),
                RelayCanaryVerdict::Rejected { .. } => self.backing_off(
                    seq![DriverAction::Abort],
                    CanaryRejectionEvent::Rejected(relayer),
                ),
                RelayCanaryVerdict::Inconclusive { .. } => self.backing_off(
                    seq![DriverAction::Abort],
                    CanaryRejectionEvent::InsufficientWitnesses,
                ),
            },
            (DriverStage::Committing { relayer, relay }, DriverEvent::Committed) => (
                DriverView {
                    stage: DriverStage::Holding { relayer, relay },
                    backoff: BACKOFF_INITIAL_SECS,
                    rejected: exclusions_after(self.rejected, CanaryRejectionEvent::Verified),
                    ..self
                },
                seq![
                    DriverAction::SetRelayAddress(relay),
                    DriverAction::Publish { relay: Some(relay), force: true },
                    DriverAction::Hold { secs: initial_delay(self.own) as u64 },
                ],
            ),
            (DriverStage::Committing { .. }, DriverEvent::CommitFailed) => self.backing_off(
                seq![DriverAction::Abort],
                CanaryRejectionEvent::AcquisitionFailed,
            ),
            (DriverStage::Holding { .. }, DriverEvent::RelayLost) => self.losing(),
            (DriverStage::Holding { relay, .. }, DriverEvent::HealthPolled { healthy }) =>
                if healthy {
                self.refreshing(Some(relay))
            } else {
                self.losing()
            },
            (DriverStage::Holding { relay, .. }, DriverEvent::AddressChanged) => self.refreshing(
                Some(relay),
            ),
            (DriverStage::Holding { relay, .. }, DriverEvent::ClosestChanged) => self.refreshing(
                Some(relay),
            ),
            (DriverStage::Holding { relay, .. }, DriverEvent::EventsLagged) =>
                self.unpublished().refreshing(Some(relay)),
            (DriverStage::Holding { relayer, relay }, DriverEvent::RevalidationDue) => (
                DriverView { stage: DriverStage::Revalidating { relayer, relay }, ..self },
                seq![
                    DriverAction::Verify {
                        relayer,
                        relay,
                        policy: RelayCanaryPolicy::Maintenance,
                    },
                ],
            ),
            (DriverStage::Revalidating { relayer, relay }, DriverEvent::Verdict(verdict)) =>
                match verdict {
                RelayCanaryVerdict::Rejected { .. } => DriverView {
                    rejected: exclusions_after(
                        self.rejected,
                        CanaryRejectionEvent::Rejected(relayer),
                    ),
                    ..self
                }.losing(),
                _ => (
                    DriverView { stage: DriverStage::Holding { relayer, relay }, ..self },
                    seq![DriverAction::Hold { secs: RELAY_REVALIDATION_INTERVAL_SECS }],
                ),
            },
            (DriverStage::Backoff, DriverEvent::BackoffExpired) => self.retrying(),
            (DriverStage::Backoff, DriverEvent::ClosestChanged) => self.unpublished().retrying(),
            (DriverStage::Backoff, DriverEvent::PublishRetry) => self.refreshing(None),
            (DriverStage::Backoff, DriverEvent::AddressChanged) => self.refreshing(None),
            (DriverStage::Backoff, DriverEvent::EventsLagged) => self.unpublished().refreshing(
                None,
            ),
            _ => ignored,
        }
    }
}

/// The driver's owned state.
pub struct AcquisitionDriver {
    own: PeerId,
    stage: DriverStage,
    current_backoff: u64,
    last_published_typed_set: Option<PublishedTypedSet>,
    canary_rejected_relayers: KeySet<PeerId>,
}

impl View for AcquisitionDriver {
    type V = DriverView;

    closed spec fn view(&self) -> DriverView {
        DriverView {
            own: self.own@,
            stage: self.stage,
            backoff: self.current_backoff,
            published: match self.last_published_typed_set {
                Some(published) => Some(published@),
                None => None,
            },
            rejected: self.canary_rejected_relayers@,
        }
    }
}

/// A publication under way.
pub struct Publication {
    /// Addresses with their tags.
    pub typed_addresses: Vec<Typed>,
    /// Peers that the set is meant for.
    pub target_peers: KeySet<PeerId>,
    /// Peers that it goes to.
    pub pending_peers: KeySet<PeerId>,
    /// Positions of those peers among the closest ones.
    pub recipients: Vec<usize>,
}

/// A publication under way.
#[verifier::ext_equal]
pub struct PublicationView {
    /// Addresses with their tags.
    pub typed: Seq<Typed>,
    /// Peers that the set is meant for.
    pub targets: Set<Seq<u8>>,
    /// Peers that it goes to.
    pub pending: Set<Seq<u8>>,
    /// Positions of those peers among the closest ones.
    pub recipients: Seq<usize>,
}

impl View for Publication {
    type V = PublicationView;

    open spec fn view(&self) -> PublicationView {
        PublicationView {
            typed: self.typed_addresses@,
            targets: self.target_peers@,
            pending: self.pending_peers@,
            recipients: self.recipients@,
        }
    }
}

/// The closest peers but this node itself.
pub open spec fn other_peers(closest: Seq<PeerId>, own: Seq<u8>) -> Set<Seq<u8>> {
    closest.map(|_i: int, p: PeerId| p@).to_set().remove(own)
}

/// The positions of the peers of a set, in order.
pub open spec fn positions_in(closest: Seq<PeerId>, peers: Set<Seq<u8>>) -> Seq<usize>
    decreases closest.len(),
{
    if closest.len() == 0 {
        Seq::empty()
    } else if peers.contains(closest.last()@) {
        positions_in(closest.drop_last(), peers).push((closest.len() - 1) as usize)
    } else {
        positions_in(closest.drop_last(), peers)
    }
}

impl DriverView {
    /// The state once it is decided whom a publication goes to, and the
    /// publication. An empty set is published only where it is forced, and a set
    /// that no target lacks counts as published.
    pub open spec fn publishing(self, typed: Seq<Typed>, closest: Seq<PeerId>, force: bool) -> (
        DriverView,
        Option<PublicationView>,
    ) {
        let targets = other_peers(closest, self.own);
        let pending = publication_targets(self.published, typed, targets, force);
        if typed.len() == 0 && !force {
            (self, None)
        } else if pending == Set::<Seq<u8>>::empty() {
            (
                DriverView { published: Some(PublishedView { typed, targets, pending }), ..self },
                None,
            )
        } else {
            (
                self,
                Some(
                    PublicationView {
                        typed,
                        targets,
                        pending,
                        recipients: positions_in(closest, pending),
                    },
                ),
            )
        }
    }

    /// The state once a publication has been acknowledged by some peers.
    pub open spec fn acknowledged(
        self,
        publication: PublicationView,
        confirmed: Seq<PeerId>,
    ) -> DriverView {
        DriverView {
            published: Some(
                PublishedView {
                    typed: publication.typed,
                    targets: publication.targets,
                    pending: publication.pending.difference(
                        confirmed.map(|_i: int, p: PeerId| p@).to_set(),
                    ),
                },
            ),
            ..self
        }
    }
}

impl AcquisitionDriver {
    /// A driver that has not started.
    pub fn new(own: PeerId) -> (driver: Self)
        ensures
            driver@ == DriverView::initial(own@),
    {
        AcquisitionDriver {
            own,
            stage: DriverStage::Starting,
            current_backoff: BACKOFF_INITIAL_SECS,
            last_published_typed_set: None,
            canary_rejected_relayers: KeySet::new(),
        }
    }

    /// Where the driver stands.
    pub fn stage(&self) -> (stage: DriverStage)
        ensures
            stage == self@.stage,
    {
        self.stage
    }

    /// Relayers that an acquisition walk skips.
    pub fn rejected_relayers(&self) -> (rejected: &KeySet<PeerId>)
        ensures
            rejected@ == self@.rejected,
    {
        &self.canary_rejected_relayers
    }

    fn back_off(&mut self, before: Vec<DriverAction>, event: CanaryRejectionEvent) -> (actions: Vec<
        DriverAction,
    >)
        ensures
            (final(self)@, actions@) == old(self)@.backing_off(before@, event),
    {
        let mut actions = before;
        apply_canary_rejection_event(&mut self.canary_rejected_relayers, event);
        self.stage = DriverStage::Backoff;
        actions.push(DriverAction::ClearRelayAddress);
        actions.push(DriverAction::Publish { relay: None, force: false });
        actions.push(DriverAction::WaitBackoff { secs: self.current_backoff });
        assert(actions@ =~= old(self)@.backing_off(before@, event).1);
        actions
    }

    fn lose(&mut self) -> (actions: Vec<DriverAction>)
        ensures
            (final(self)@, actions@) == old(self)@.losing(),
    {
        self.stage = DriverStage::Acquiring;
        let actions = vec![
            DriverAction::ClearRelayAddress,
            DriverAction::Withdraw,
            DriverAction::Acquire,
        ];
        assert(actions@ =~= old(self)@.losing().1);
        actions
    }

    fn refresh(&self, relay: Option<SocketAddr>) -> (actions: Vec<DriverAction>)
        ensures
            (self@, actions@) == self@.refreshing(relay),
    {
        let actions = vec![DriverAction::Publish { relay, force: false }];
        assert(actions@ =~= self@.refreshing(relay).1);
        actions
    }

    fn retry(&mut self) -> (actions: Vec<DriverAction>)
        ensures
            (final(self)@, actions@) == old(self)@.retrying(),
    {
        self.stage = DriverStage::Acquiring;
        self.advance_backoff();
        let actions = vec![DriverAction::Acquire];
        assert(actions@ =~= old(self)@.retrying().1);
        actions
    }

    /// Move the backoff window one step closer to [`BACKOFF_MAX_SECS`].
    fn advance_backoff(&mut self)
        ensures
            final(self)@ == (DriverView { backoff: next_backoff(old(self)@.backoff), ..old(self)@ }),
    {
        if self.current_backoff > BACKOFF_MAX_SECS / BACKOFF_FACTOR {
            self.current_backoff = BACKOFF_MAX_SECS;
        } else {
            self.current_backoff = self.current_backoff * BACKOFF_FACTOR;
        }
    }

    /// Take what happened and say what to do.
    pub fn step(&mut self, event: DriverEvent) -> (actions: Vec<DriverAction>)
        ensures
            (final(self)@, actions@) == old(self)@.after(event),
    {
        let ghost before = self@;
        let none: Vec<DriverAction> = Vec::new();
        proof {
            assert(none@ =~= Seq::empty());
        }
        match (self.stage, event) {
            (_, DriverEvent::Shutdown) => {
                self.stage = DriverStage::Stopped;
                none
            },
            (DriverStage::Starting, DriverEvent::Started) => {
                self.stage = DriverStage::Acquiring;
                let actions = vec![
                    DriverAction::ClearRelayAddress,
                    DriverAction::Publish { relay: None, force: true },
                    DriverAction::Acquire,
                ];
                assert(actions@ =~= before.after(event).1);
                actions
            },
            (DriverStage::Acquiring, DriverEvent::Acquired { relayer, relay }) => {
                self.stage = DriverStage::Admitting { relayer, relay };
                let actions = vec![
                    DriverAction::Verify { relayer, relay, policy: RelayCanaryPolicy::Admission },
                ];
                assert(actions@ =~= before.after(event).1);
                actions
            },
            (DriverStage::Acquiring, DriverEvent::AcquisitionFailed) => {
                self.back_off(none, CanaryRejectionEvent::AcquisitionFailed)
            },
            (DriverStage::Admitting { relayer, relay }, DriverEvent::Verdict(verdict)) => {
                match verdict {
                    RelayCanaryVerdict::Verified { .. } => {
                        self.stage = DriverStage::Committing { relayer, relay };
                        let actions = vec![DriverAction::Commit];
                        assert(actions@ =~= before.after(event).1);
                        actions
                    },
                    RelayCanaryVerdict::Rejected { .. } => {
                        let abort = vec![DriverAction::Abort];
                        assert(abort@ =~= seq![DriverAction::Abort]);
                        self.back_off(abort, CanaryRejectionEvent::Rejected(relayer))
                    },
                    RelayCanaryVerdict::Inconclusive { .. } => {
                        let abort = vec![DriverAction::Abort];
                        assert(abort@ =~= seq![DriverAction::Abort]);
                        self.back_off(abort, CanaryRejectionEvent::InsufficientWitnesses)
                    },
                }
            },
            (DriverStage::Committing { relayer, relay }, DriverEvent::Committed) => {
                apply_canary_rejection_event(
                    &mut self.canary_rejected_relayers,
                    CanaryRejectionEvent::Verified,
                );
                self.current_backoff = BACKOFF_INITIAL_SECS;
                self.stage = DriverStage::Holding { relayer, relay };
                let actions = vec![
                    DriverAction::SetRelayAddress(relay),
                    DriverAction::Publish { relay: Some(relay), force: true },
                    DriverAction::Hold { secs: relay_revalidation_initial_delay(&self.own) },
                ];
                assert(actions@ =~= before.after(event).1);
                actions
            },
            (DriverStage::Committing { .. }, DriverEvent::CommitFailed) => {
                let abort = vec![DriverAction::Abort];
                assert(abort@ =~= seq![DriverAction::Abort]);
                self.back_off(abort, CanaryRejectionEvent::AcquisitionFailed)
            },
            (DriverStage::Holding { .. }, DriverEvent::RelayLost) => self.lose(),
            (DriverStage::Holding { relay, .. }, DriverEvent::HealthPolled { healthy }) => {
                if healthy {
                    self.refresh(Some(relay))
                } else {
                    self.lose()
                }
            },
            (DriverStage::Holding { relay, .. }, DriverEvent::AddressChanged) => self.refresh(
                Some(relay),
            ),
            (DriverStage::Holding { relay, .. }, DriverEvent::ClosestChanged) => self.refresh(
                Some(relay),
            ),
            (DriverStage::Holding { relay, .. }, DriverEvent::EventsLagged) => {
                self.last_published_typed_set = None;
                self.refresh(Some(relay))
            },
            (DriverStage::Holding { relayer, relay }, DriverEvent::RevalidationDue) => {
                self.stage = DriverStage::Revalidating { relayer, relay };
                let actions = vec![
                    DriverAction::Verify {
                        relayer,
                        relay,
                        policy: RelayCanaryPolicy::Maintenance,
                    },
                ];
                assert(actions@ =~= before.after(event).1);
                actions
            },
            (DriverStage::Revalidating { relayer, relay }, DriverEvent::Verdict(verdict)) => {
                match verdict {
                    RelayCanaryVerdict::Rejected { .. } => {
                        apply_canary_rejection_event(
                            &mut self.canary_rejected_relayers,
                            CanaryRejectionEvent::Rejected(relayer),
                        );
                        self.lose()
                    },
                    _ => {
                        self.stage = DriverStage::Holding { relayer, relay };
                        let actions = vec![
                            DriverAction::Hold { secs: RELAY_REVALIDATION_INTERVAL_SECS },
                        ];
                        assert(actions@ =~= before.after(event).1);
                        actions
                    },
                }
            },
            (DriverStage::Backoff, DriverEvent::BackoffExpired) => self.retry(),
            (DriverStage::Backoff, DriverEvent::ClosestChanged) => {
                self.last_published_typed_set = None;
                self.retry()
            },
            (DriverStage::Backoff, DriverEvent::PublishRetry) => self.refresh(None),
            (DriverStage::Backoff, DriverEvent::AddressChanged) => self.refresh(None),
            (DriverStage::Backoff, DriverEvent::EventsLagged) => {
                self.last_published_typed_set = None;
                self.refresh(None)
            },
            _ => none,
        }
    }

    /// Decide whom a publication of addresses goes to.
    ///
    /// An empty set is published only where it is forced. Where no target is
    /// left, the set counts as published; else the publication is handed out,
    /// and [`AcquisitionDriver::finish_publication`] takes what came of it.
    pub fn begin_publication(
        &mut self,
        typed_addresses: Vec<Typed>,
        closest: &Vec<PeerId>,
        force: bool,
    ) -> (publication: Option<Publication>)
        ensures
            (
                final(self)@,
                match publication {
                    Some(begun) => Some(begun@),
                    None => None,
                },
            ) == old(self)@.publishing(typed_addresses@, closest@, force),
    {
        if typed_addresses.len() == 0 && !force {
            return None;
        }
        let ghost own = self@.own;
        let ghost ids = closest@.map(|_i: int, p: PeerId| p@);
        let mut target_peers: KeySet<PeerId> = KeySet::new();
        let mut index: usize = 0;
        while index < closest.len()
            invariant
                index <= closest@.len(),
                own == self.own@,
                ids == closest@.map(|_i: int, p: PeerId| p@),
                forall|k: Seq<u8>| #[trigger]
                    target_peers@.contains(k) <==> k != own && ids.take(index as int).contains(k),
            decreases closest@.len() - index,
        {
            let peer = closest[index];
            if !peer.is(&self.own) {
                let _ = target_peers.insert(peer);
            }
            proof {
                let taken = ids.take(index as int);
                let taken1 = ids.take(index as int + 1);
                assert(taken1 =~= taken.push(peer@));
                assert forall|k: Seq<u8>| #[trigger] target_peers@.contains(k) <==> k != own
                    && taken1.contains(k) by {
                    if taken.contains(k) {
                        let j = taken.index_of(k);
                        assert(taken1[j] == k);
                    }
                    if k == peer@ {
                        assert(taken1[index as int] == k);
                    }
                    if taken1.contains(k) && k != peer@ {
                        let j = taken1.index_of(k);
                        assert(taken[j] == k);
                    }
                }
            }
            index += 1;
        }
        proof {
            assert(ids.take(ids.len() as int) =~= ids);
            assert(target_peers@ =~= other_peers(closest@, own));
        }
        let previous = self.last_published_typed_set.as_ref();
        let pending_peers = pending_publication_targets(
            previous,
            &typed_addresses,
            &target_peers,
            force,
        );
        if pending_peers.is_empty() {
            self.last_published_typed_set = Some(
                PublishedTypedSet { typed_addresses, target_peers, pending_peers },
            );
            return None;
        }
        let mut recipients: Vec<usize> = Vec::new();
        let mut at: usize = 0;
        while at < closest.len()
            invariant
                at <= closest@.len(),
                recipients@ == positions_in(closest@.take(at as int), pending_peers@),
            decreases closest@.len() - at,
        {
            proof {
                assert(closest@.take(at as int + 1).drop_last() =~= closest@.take(at as int));
            }
            if pending_peers.contains(&closest[at]) {
                recipients.push(at);
            }
            at += 1;
        }
        assert(closest@.take(closest@.len() as int) =~= closest@);
        Some(Publication { typed_addresses, target_peers, pending_peers, recipients })
    }

    /// Remember a publication and who acknowledged it.
    pub fn finish_publication(&mut self, publication: Publication, confirmed: &Vec<PeerId>)
        ensures
            final(self)@ == old(self)@.acknowledged(publication@, confirmed@),
    {
        let ghost ids = confirmed@.map(|_i: int, p: PeerId| p@);
        let ghost asked = publication.pending_peers@;
        let mut pending_peers = publication.pending_peers;
        let mut index: usize = 0;
        while index < confirmed.len()
            invariant
                index <= confirmed@.len(),
                ids == confirmed@.map(|_i: int, p: PeerId| p@),
                forall|k: Seq<u8>| #[trigger]
                    pending_peers@.contains(k) <==> asked.contains(k) && !ids.take(
                        index as int,
                    ).contains(k),
            decreases confirmed@.len() - index,
        {
            let peer = confirmed[index];
            let _ = pending_peers.remove(&peer);
            proof {
                let taken = ids.take(index as int);
                let taken1 = ids.take(index as int + 1);
                assert(taken1 =~= taken.push(peer@));
                assert forall|k: Seq<u8>| #[trigger] pending_peers@.contains(k)
                    <==> asked.contains(k) && !taken1.contains(k) by {
                    if taken.contains(k) {
                        let j = taken.index_of(k);
                        assert(taken1[j] == k);
                    }
                    if k == peer@ {
                        assert(taken1[index as int] == k);
                    }
                    if taken1.contains(k) && k != peer@ {
                        let j = taken1.index_of(k);
                        assert(taken[j] == k);
                    }
                }
            }
            index += 1;
        }
        proof {
            assert(ids.take(ids.len() as int) =~= ids);
            assert(pending_peers@ =~= asked.difference(ids.to_set()));
        }
        self.last_published_typed_set = Some(
            PublishedTypedSet {
                typed_addresses: publication.typed_addresses,
                target_peers: publication.target_peers,
                pending_peers,
            },
        );
    }
}

/// The relay that a stage holds.
pub open spec fn held_relay(stage: DriverStage) -> Option<SocketAddr> {
    match stage {
        DriverStage::Holding { relay, .. } => Some(relay),
        DriverStage::Revalidating { relay, .. } => Some(relay),
        _ => None,
    }
}

/// A relay address is published only when it was committed after its canaries
/// verified it, and only as long as it is held.
pub proof fn law_only_held_relays_are_published(
    driver: DriverView,
    event: DriverEvent,
    index: int,
    relay: SocketAddr,
    force: bool,
)
    requires
        0 <= index < driver.after(event).1.len(),
        driver.after(event).1[index] == (DriverAction::Publish { relay: Some(relay), force }),
    ensures
        held_relay(driver.after(event).0.stage) == Some(relay),
        held_relay(driver.stage) == Some(relay) || (driver.stage matches DriverStage::Committing {
            relay: committed,
            ..
        } && committed == relay && event == DriverEvent::Committed),
{
}

/// A relay comes to be held only from a commit that follows a verified
/// admission.
pub proof fn law_relays_are_proven_before_they_are_held(driver: DriverView, event: DriverEvent)
    ensures
        held_relay(driver.after(event).0.stage) is Some && held_relay(driver.stage) is None ==> (
        driver.stage is Committing && event == DriverEvent::Committed),
        driver.after(event).0.stage is Committing && !(driver.stage is Committing) ==> (
        driver.stage is Admitting && (event matches DriverEvent::Verdict(verdict) && verdict
            is Verified)),
{
}

/// A held relay is withdrawn before the next acquisition begins.
pub proof fn law_withdrawal_comes_before_reacquisition(driver: DriverView, event: DriverEvent)
    requires
        held_relay(driver.stage) is Some,
        driver.after(event).0.stage is Acquiring,
    ensures
        driver.after(event).1 == seq![
            DriverAction::ClearRelayAddress,
            DriverAction::Withdraw,
            DriverAction::Acquire,
        ],
{
}

/// An inconclusive round retains an established relay, and a change of the
/// closest peers does too.
pub proof fn law_missing_evidence_keeps_the_relay(
    driver: DriverView,
    successes: usize,
    failures: usize,
    unavailable: usize,
)
    requires
        held_relay(driver.stage) is Some,
    ensures
        held_relay(
            driver.after(
                DriverEvent::Verdict(
                    RelayCanaryVerdict::Inconclusive { successes, failures, unavailable },
                ),
            ).0.stage,
        ) == held_relay(driver.stage),
        held_relay(driver.after(DriverEvent::ClosestChanged).0.stage) == held_relay(driver.stage),
{
}

/// The backoff window stays between its bounds, grows by the factor until it
/// reaches the upper one, and is reset when a relay is committed.
pub proof fn law_backoff_is_bounded(driver: DriverView, event: DriverEvent)
    requires
        BACKOFF_INITIAL_SECS <= driver.backoff <= BACKOFF_MAX_SECS,
    ensures
        BACKOFF_INITIAL_SECS <= driver.after(event).0.backoff <= BACKOFF_MAX_SECS,
        event == DriverEvent::Committed && driver.stage is Committing ==> driver.after(
            event,
        ).0.backoff == BACKOFF_INITIAL_SECS,
{
}

/// Once every target has acknowledged a set, publishing the same set to the same
/// targets goes to nobody.
pub proof fn law_acknowledged_sets_are_not_repeated(published: PublishedView, targets: Set<Seq<u8>>)
    requires
        published.pending == Set::<Seq<u8>>::empty(),
        targets.subset_of(published.targets),
    ensures
        publication_targets(Some(published), published.typed, targets, false) == Set::<
            Seq<u8>,
        >::empty(),
{
    assert(publication_targets(Some(published), published.typed, targets, false) =~= Set::<
        Seq<u8>,
    >::empty());
}

/// A relay whose tunnel is polled as unhealthy, or that the transport reports as
/// lost, is given up at once: it is cleared and withdrawn before the next
/// acquisition begins, and nothing else of the driver changes.
pub proof fn law_unhealthy_relays_are_given_up(driver: DriverView)
    requires
        driver.stage is Holding,
    ensures
        ({
            let (after, actions) = driver.after(DriverEvent::HealthPolled { healthy: false });
            &&& after.stage is Acquiring
            &&& held_relay(after.stage) is None
            &&& actions == seq![
                DriverAction::ClearRelayAddress,
                DriverAction::Withdraw,
                DriverAction::Acquire,
            ]
            &&& after == (DriverView { stage: after.stage, ..driver })
        }),
        driver.after(DriverEvent::RelayLost) == driver.after(
            DriverEvent::HealthPolled { healthy: false },
        ),
{
}

/// While the tunnel is healthy a relay is held on, and its address goes to those
/// targets that lack it; so it does when an address or the closest peers change.
pub proof fn law_healthy_relays_are_held_on(
    driver: DriverView,
    relayer: PeerId,
    relay: SocketAddr,
)
    requires
        driver.stage == (DriverStage::Holding { relayer, relay }),
    ensures
        ({
            let (after, actions) = driver.after(DriverEvent::HealthPolled { healthy: true });
            &&& after == driver
            &&& actions == seq![DriverAction::Publish { relay: Some(relay), force: false }]
        }),
        driver.after(DriverEvent::AddressChanged) == driver.after(
            DriverEvent::HealthPolled { healthy: true },
        ),
        driver.after(DriverEvent::ClosestChanged) == driver.after(
            DriverEvent::HealthPolled { healthy: true },
        ),
        driver.after(DriverEvent::EventsLagged).1 == seq![
            DriverAction::Publish { relay: Some(relay), force: false },
        ],
        driver.after(DriverEvent::EventsLagged).0 == (DriverView { published: None, ..driver }),
{
}

/// A held relay that is due is proven again under the maintenance policy, and is
/// held on while that goes on. A rejection gives it up as a dead tunnel does and
/// excludes its relayer; every other verdict holds it for another full interval.
pub proof fn law_revalidation_decides_the_relay(
    driver: DriverView,
    relayer: PeerId,
    relay: SocketAddr,
    verdict: RelayCanaryVerdict,
)
    requires
        driver.stage == (DriverStage::Holding { relayer, relay }),
    ensures
        ({
            let (proving, asked) = driver.after(DriverEvent::RevalidationDue);
            let (after, actions) = proving.after(DriverEvent::Verdict(verdict));
            &&& asked == seq![
                DriverAction::Verify { relayer, relay, policy: RelayCanaryPolicy::Maintenance },
            ]
            &&& held_relay(proving.stage) == Some(relay)
            &&& proving == (DriverView { stage: proving.stage, ..driver })
            &&& verdict is Rejected ==> {
                &&& after.stage is Acquiring
                &&& actions == seq![
                    DriverAction::ClearRelayAddress,
                    DriverAction::Withdraw,
                    DriverAction::Acquire,
                ]
                &&& after.rejected == driver.rejected.insert(relayer@)
                &&& after.backoff == driver.backoff
                &&& after.published == driver.published
            }
            &&& !(verdict is Rejected) ==> {
                &&& after == driver
                &&& actions == seq![DriverAction::Hold { secs: RELAY_REVALIDATION_INTERVAL_SECS }]
            }
        }),
{
}

/// A candidate that accepts is proven under the admission policy before anything
/// is published. Verified, it is committed, and once it is, it is held, told to
/// the transport and published to every target; the exclusions and the backoff
/// window start anew.
pub proof fn law_verified_relays_are_committed(
    driver: DriverView,
    relayer: PeerId,
    relay: SocketAddr,
    verdict: RelayCanaryVerdict,
)
    requires
        driver.stage is Acquiring,
        verdict is Verified,
    ensures
        ({
            let (admitting, asked) = driver.after(DriverEvent::Acquired { relayer, relay });
            let (committing, ordered) = admitting.after(DriverEvent::Verdict(verdict));
            let (holding, done) = committing.after(DriverEvent::Committed);
            &&& asked == seq![
                DriverAction::Verify { relayer, relay, policy: RelayCanaryPolicy::Admission },
            ]
            &&& ordered == seq![DriverAction::Commit]
            &&& held_relay(admitting.stage) is None
            &&& held_relay(committing.stage) is None
            &&& holding.stage == (DriverStage::Holding { relayer, relay })
            &&& holding.rejected == Set::<Seq<u8>>::empty()
            &&& holding.backoff == 30
            &&& holding.published == driver.published
            &&& done.len() == 3
            &&& done[0] == DriverAction::SetRelayAddress(relay)
            &&& done[1] == (DriverAction::Publish { relay: Some(relay), force: true })
            &&& (done[2] matches DriverAction::Hold { secs } && 2 * 60 * 60 <= secs <= 4 * 60 * 60)
        }),
{
    assert(0 <= key_value(driver.own.take(8)) % (RELAY_REVALIDATION_JITTER_MAX_SECS as nat + 1)
        <= RELAY_REVALIDATION_JITTER_MAX_SECS) by (nonlinear_arith);
}

/// Whatever keeps an acquired candidate from being held, it is torn down, the
/// relay address is forgotten, a set without it is published, and the driver
/// waits. A rejection adds the relayer to those that the next walk skips; too few
/// witnesses, a failed commit and a failed walk let every relayer in again.
pub proof fn law_failed_candidates_are_torn_down(
    driver: DriverView,
    relayer: PeerId,
    relay: SocketAddr,
    verdict: RelayCanaryVerdict,
)
    requires
        driver.stage is Acquiring,
        !(verdict is Verified),
    ensures
        ({
            let admitting = driver.after(DriverEvent::Acquired { relayer, relay }).0;
            let (after, actions) = admitting.after(DriverEvent::Verdict(verdict));
            &&& after.stage is Backoff
            &&& after.rejected == (if verdict is Rejected {
                driver.rejected.insert(relayer@)
            } else {
                Set::<Seq<u8>>::empty()
            })
            &&& after.backoff == driver.backoff
            &&& after.published == driver.published
            &&& actions == seq![
                DriverAction::Abort,
                DriverAction::ClearRelayAddress,
                DriverAction::Publish { relay: None, force: false },
                DriverAction::WaitBackoff { secs: driver.backoff },
            ]
        }),
        ({
            let committing = DriverView { stage: DriverStage::Committing { relayer, relay }, ..driver };
            let (after, actions) = committing.after(DriverEvent::CommitFailed);
            &&& after.stage is Backoff
            &&& after.rejected == Set::<Seq<u8>>::empty()
            &&& after.backoff == driver.backoff
            &&& after.published == driver.published
            &&& actions == seq![
                DriverAction::Abort,
                DriverAction::ClearRelayAddress,
                DriverAction::Publish { relay: None, force: false },
                DriverAction::WaitBackoff { secs: driver.backoff },
            ]
        }),
        ({
            let (after, actions) = driver.after(DriverEvent::AcquisitionFailed);
            &&& after.stage is Backoff
            &&& after.rejected == Set::<Seq<u8>>::empty()
            &&& after.backoff == driver.backoff
            &&& after.published == driver.published
            &&& actions == seq![
                DriverAction::ClearRelayAddress,
                DriverAction::Publish { relay: None, force: false },
                DriverAction::WaitBackoff { secs: driver.backoff },
            ]
        }),
{
    let admitting = driver.after(DriverEvent::Acquired { relayer, relay }).0;
    assert(admitting.after(DriverEvent::Verdict(verdict)).1 =~= seq![
        DriverAction::Abort,
        DriverAction::ClearRelayAddress,
        DriverAction::Publish { relay: None, force: false },
        DriverAction::WaitBackoff { secs: driver.backoff },
    ]);
    let committing = DriverView { stage: DriverStage::Committing { relayer, relay }, ..driver };
    assert(committing.after(DriverEvent::CommitFailed).1 =~= seq![
        DriverAction::Abort,
        DriverAction::ClearRelayAddress,
        DriverAction::Publish { relay: None, force: false },
        DriverAction::WaitBackoff { secs: driver.backoff },
    ]);
    assert(driver.after(DriverEvent::AcquisitionFailed).1 =~= seq![
        DriverAction::ClearRelayAddress,
        DriverAction::Publish { relay: None, force: false },
        DriverAction::WaitBackoff { secs: driver.backoff },
    ]);
}

/// The end of the backoff window and a change of the closest peers both start
/// another walk, and the window after it is twice as long, up to the bound. The
/// exclusions stand; after a change every target gets the next publication.
pub proof fn law_waiting_ends_in_another_walk(driver: DriverView)
    requires
        driver.stage is Backoff,
    ensures
        ({
            let (after, actions) = driver.after(DriverEvent::BackoffExpired);
            &&& after.stage is Acquiring
            &&& actions == seq![DriverAction::Acquire]
            &&& driver.backoff <= 150 ==> after.backoff == 2 * driver.backoff
            &&& driver.backoff > 150 ==> after.backoff == 300
            &&& after.rejected == driver.rejected
            &&& after.published == driver.published
            &&& driver.after(DriverEvent::ClosestChanged) == (
                DriverView { published: None, ..after },
                actions,
            )
        }),
{
}

/// While the driver waits, it keeps on waiting through changes of addresses and
/// retries of publications, and publishes a set without a relay.
pub proof fn law_waiting_publishes_no_relay(driver: DriverView)
    requires
        driver.stage is Backoff,
    ensures
        driver.after(DriverEvent::PublishRetry) == (
            driver,
            seq![DriverAction::Publish { relay: None, force: false }],
        ),
        driver.after(DriverEvent::AddressChanged) == driver.after(DriverEvent::PublishRetry),
        driver.after(DriverEvent::EventsLagged) == (
            DriverView { published: None, ..driver },
            driver.after(DriverEvent::PublishRetry).1,
        ),
{
}

/// A driver that starts forgets what an earlier run told the transport and
/// publishes a set without a relay to every target before its first walk.
pub proof fn law_starting_publishes_before_the_walk(driver: DriverView)
    requires
        driver.stage is Starting,
    ensures
        driver.after(DriverEvent::Started) == (
            DriverView { stage: DriverStage::Acquiring, ..driver },
            seq![
                DriverAction::ClearRelayAddress,
                DriverAction::Publish { relay: None, force: true },
                DriverAction::Acquire,
            ],
        ),
{
}

/// A shutdown stops the driver from every stage with nothing more to do, and a
/// stopped driver stays stopped.
pub proof fn law_shutdown_is_final(driver: DriverView, event: DriverEvent)
    ensures
        driver.after(DriverEvent::Shutdown) == (
            DriverView { stage: DriverStage::Stopped, ..driver },
            Seq::<DriverAction>::empty(),
        ),
        driver.stage is Stopped ==> driver.after(event) == (driver, Seq::<DriverAction>::empty()),
{
}

/// A driver leaves the stage of an outside action only by what the action came
/// to, or to shut down, and what the other stages wait for does not disturb it.
pub proof fn law_actions_run_to_their_end(driver: DriverView, event: DriverEvent)
    requires
        !(event is Shutdown),
    ensures
        driver.stage is Acquiring && !(event is Acquired) && !(event is AcquisitionFailed)
            ==> driver.after(event) == (driver, Seq::<DriverAction>::empty()),
        (driver.stage is Admitting || driver.stage is Revalidating) && !(event is Verdict)
            ==> driver.after(event) == (driver, Seq::<DriverAction>::empty()),
        driver.stage is Committing && !(event is Committed) && !(event is CommitFailed)
            ==> driver.after(event) == (driver, Seq::<DriverAction>::empty()),
        driver.stage is Starting && !(event is Started) ==> driver.after(event) == (
            driver,
            Seq::<DriverAction>::empty(),
        ),
        driver.stage is Holding && (event is Started || event is Acquired || event
            is AcquisitionFailed || event is Verdict || event is Committed || event is CommitFailed
            || event is OtherEvent || event is BackoffExpired || event is PublishRetry)
            ==> driver.after(event) == (driver, Seq::<DriverAction>::empty()),
        driver.stage is Backoff && (event is Started || event is Acquired || event
            is AcquisitionFailed || event is Verdict || event is Committed || event is CommitFailed
            || event is RelayLost || event is OtherEvent || event is HealthPolled || event
            is RevalidationDue) ==> driver.after(event) == (driver, Seq::<DriverAction>::empty()),
{
}

/// The identity of the node never changes, and a walk is ordered exactly when the
/// driver begins to acquire.
pub proof fn law_walks_are_ordered_once(driver: DriverView, event: DriverEvent)
    ensures
        driver.after(event).0.own == driver.own,
        driver.after(event).1.contains(DriverAction::Acquire) <==> (driver.after(event).0.stage
            is Acquiring && !(driver.stage is Acquiring)),
{
    let actions = driver.after(event).1;
    if actions.contains(DriverAction::Acquire) {
        let i = actions.index_of(DriverAction::Acquire);
        assert(actions[i] == DriverAction::Acquire);
    } else if driver.after(event).0.stage is Acquiring && !(driver.stage is Acquiring) {
        assert(actions[actions.len() - 1] == DriverAction::Acquire);
    }
}

/// A relayer that failed its proof is skipped until an outcome of another kind,
/// and no other relayer is.
pub proof fn law_exclusions_last_through_rejections(
    rejected: Set<Seq<u8>>,
    first: PeerId,
    second: PeerId,
    peer: Seq<u8>,
)
    ensures
        ({
            let once = exclusions_after(rejected, CanaryRejectionEvent::Rejected(first));
            let twice = exclusions_after(once, CanaryRejectionEvent::Rejected(second));
            &&& twice.contains(peer) <==> rejected.contains(peer) || peer == first@ || peer
                == second@
            &&& !exclusions_after(twice, CanaryRejectionEvent::Verified).contains(peer)
            &&& !exclusions_after(twice, CanaryRejectionEvent::InsufficientWitnesses).contains(peer)
            &&& !exclusions_after(twice, CanaryRejectionEvent::AcquisitionFailed).contains(peer)
        }),
{
}

/// The first maintenance canary of a peer comes no sooner than the interval and
/// no later than the largest offset after it. Peers whose identities begin alike
/// share the offset, and it spreads evenly: consecutive beginnings are one second
/// apart, until the offset starts anew.
pub proof fn law_first_proofs_are_spread_out(peer: Seq<u8>, next: Seq<u8>)
    requires
        peer.len() >= 8,
        next.len() >= 8,
    ensures
        2 * 60 * 60 <= initial_delay(peer) <= 4 * 60 * 60,
        (forall|i: int| 0 <= i < 8 ==> peer[i] == next[i]) ==> initial_delay(next) == initial_delay(
            peer,
        ),
        key_value(next.take(8)) == key_value(peer.take(8)) + 1 ==> initial_delay(next)
            == initial_delay(peer) + 1 || (initial_delay(peer) == 4 * 60 * 60 && initial_delay(next)
            == 2 * 60 * 60),
        key_value(peer.take(8)) == 0 ==> initial_delay(peer) == 2 * 60 * 60,
{
    let jitter = key_value(peer.take(8));
    let other = key_value(next.take(8));
    assert(0 <= jitter % 7201 <= 7200);
    if forall|i: int| 0 <= i < 8 ==> peer[i] == next[i] {
        assert(next.take(8) =~= peer.take(8));
    }
    if other == jitter + 1 {
        assert((jitter + 1) % 7201 == (if jitter % 7201 == 7200 {
            0
        } else {
            jitter % 7201 + 1
        })) by (nonlinear_arith);
    }
}

/// A publication goes to targets only. A changed set, a forced publication and
/// the first one go to all of them; else a target gets it exactly when it is new
/// or has not acknowledged the set.
pub proof fn law_publications_reach_whom_they_lack(
    published: PublishedView,
    typed: Seq<Typed>,
    targets: Set<Seq<u8>>,
    force: bool,
    peer: Seq<u8>,
)
    ensures
        publication_targets(Some(published), typed, targets, force).contains(peer)
            ==> targets.contains(peer),
        publication_targets(None, typed, targets, force) == targets,
        publication_targets(Some(published), typed, targets, true) == targets,
        published.typed != typed ==> publication_targets(Some(published), typed, targets, force)
            == targets,
        published.typed == typed && targets.contains(peer) ==> (publication_targets(
            Some(published),
            typed,
            targets,
            false,
        ).contains(peer) <==> !published.targets.contains(peer) || published.pending.contains(
            peer,
        )),
{
}

/// The positions of the peers of a set are exactly those at which one stands, and
/// they come in ascending order.
pub proof fn law_positions_are_those_of_the_peers(closest: Seq<PeerId>, peers: Set<Seq<u8>>)
    requires
        closest.len() <= usize::MAX,
    ensures
        forall|i: int|
            0 <= i < closest.len() ==> (positions_in(closest, peers).contains(i as usize)
                <==> peers.contains((#[trigger] closest[i])@)),
        forall|n: int|
            0 <= n < positions_in(closest, peers).len() ==> (#[trigger] positions_in(
                closest,
                peers,
            )[n]) < closest.len(),
        forall|m: int, n: int|
            0 <= m < n < positions_in(closest, peers).len() ==> (#[trigger] positions_in(
                closest,
                peers,
            )[m]) < (#[trigger] positions_in(closest, peers)[n]),
    decreases closest.len(),
{
    if closest.len() > 0 {
        let rest = closest.drop_last();
        let before = positions_in(rest, peers);
        let all = positions_in(closest, peers);
        law_positions_are_those_of_the_peers(rest, peers);
        assert forall|i: int| 0 <= i < closest.len() implies (all.contains(i as usize)
            <==> peers.contains((#[trigger] closest[i])@)) by {
            if i < rest.len() {
                assert(rest[i] == closest[i]);
                if before.contains(i as usize) {
                    let n = before.index_of(i as usize);
                    assert(all[n] == i as usize);
                }
                if all.contains(i as usize) {
                    let n = all.index_of(i as usize);
                    assert(n < before.len());
                    assert(before[n] == i as usize);
                }
            } else {
                if peers.contains(closest[i]@) {
                    assert(all[all.len() - 1] == i as usize);
                } else if all.contains(i as usize) {
                    let n = all.index_of(i as usize);
                    assert(before[n] == i as usize);
                }
            }
        }
    }
}

/// A publication that begins carries the addresses as given and is meant for the
/// closest peers but the node itself. It goes out to every position at which one
/// of its peers stands, and what was published last is remembered until it ends.
pub proof fn law_publications_are_meant_for_the_closest(
    driver: DriverView,
    typed: Seq<Typed>,
    closest: Seq<PeerId>,
    force: bool,
    index: int,
)
    requires
        0 <= index < closest.len() <= usize::MAX,
        typed.len() > 0 || force,
    ensures
        driver.published is None && closest[index]@ != driver.own ==> driver.publishing(
            typed,
            closest,
            force,
        ).1 is Some,
        force && closest[index]@ != driver.own ==> driver.publishing(typed, closest, force).1
            is Some,
        driver.publishing(typed, closest, force).1 matches Some(begun) ==> {
            &&& driver.publishing(typed, closest, force).0 == driver
            &&& begun.typed == typed
            &&& (begun.targets.contains(closest[index]@) <==> closest[index]@ != driver.own)
            &&& (begun.recipients.contains(index as usize) <==> begun.pending.contains(
                closest[index]@,
            ))
            &&& (begun.pending.contains(closest[index]@) ==> closest[index]@ != driver.own)
            &&& driver.published is None || force ==> begun.pending == begun.targets
        },
{
    let ids = closest.map(|_i: int, p: PeerId| p@);
    assert(ids[index] == closest[index]@);
    let targets = other_peers(closest, driver.own);
    let pending = publication_targets(driver.published, typed, targets, force);
    law_positions_are_those_of_the_peers(closest, pending);
    assert(closest[index]@ != driver.own ==> targets.contains(closest[index]@));
    if driver.published is None || force {
        assert(pending == targets);
    }
}

/// Nothing is published of an empty set unless it is forced.
pub proof fn law_empty_sets_are_kept_back(driver: DriverView, closest: Seq<PeerId>)
    ensures
        driver.publishing(Seq::empty(), closest, false) == (driver, None::<PublicationView>),
{
}

/// A peer that acknowledged a publication does not get the same set again, one
/// that did not gets it with the next try, and once all have, nothing goes out.
pub proof fn law_unacknowledged_sets_are_retried(
    driver: DriverView,
    typed: Seq<Typed>,
    closest: Seq<PeerId>,
    force: bool,
    confirmed: Seq<PeerId>,
    peer: PeerId,
)
    requires
        typed.len() > 0,
        driver.publishing(typed, closest, force).1 is Some,
    ensures
        ({
            let begun = driver.publishing(typed, closest, force).1->0;
            let after = driver.acknowledged(begun, confirmed);
            let (settled, again) = after.publishing(typed, closest, false);
            &&& after == (DriverView { published: after.published, ..driver })
            &&& settled == (DriverView { published: settled.published, ..driver })
            &&& (again matches Some(retry) && retry.pending.contains(peer@))
                <==> begun.pending.contains(peer@) && !confirmed.contains(peer)
            &&& (settled.published matches Some(set) && set.typed == typed && set.targets
                == begun.targets)
        }),
{
    let begun = driver.publishing(typed, closest, force).1->0;
    let after = driver.acknowledged(begun, confirmed);
    let ids = confirmed.map(|_i: int, p: PeerId| p@);
    let targets = other_peers(closest, driver.own);
    let pending = publication_targets(after.published, typed, targets, false);
    if confirmed.contains(peer) {
        let i = confirmed.index_of(peer);
        assert(ids[i] == peer@);
    }
    if ids.contains(peer@) {
        let i = ids.index_of(peer@);
        assert(confirmed[i]@ == peer@);
        lemma_peer_is_its_bytes(confirmed[i], peer);
        assert(confirmed.contains(peer));
    }
    assert(pending.contains(peer@) <==> begun.pending.contains(peer@) && !ids.contains(peer@));
}

/// A new driver holds no relay, excludes nobody, has published nothing and waits
/// thirty seconds after its first failure.
pub proof fn law_drivers_start_without_a_relay(own: Seq<u8>)
    ensures
        ({
            let driver = DriverView::initial(own);
            let walking = driver.after(DriverEvent::Started).0;
            let failed = walking.after(DriverEvent::AcquisitionFailed);
            &&& driver.own == own
            &&& held_relay(driver.stage) is None
            &&& driver.published is None
            &&& driver.rejected == Set::<Seq<u8>>::empty()
            &&& failed.1.last() == (DriverAction::WaitBackoff { secs: 30 })
        }),
{
}

} // verus!
