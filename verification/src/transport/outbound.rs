//! How a message goes out: over which transport and which channel, and what a
//! failure means for the next try.

use crate::address::{MultiAddr, SocketAddr};
use crate::peer_id::PeerId;
use crate::transport::inbound::TrafficCounters;
use crate::transport::registry::{among, ChannelRegistry, RegistryView};
use crate::transport::wire::MultiplexCapability;
use vstd::prelude::*;

verus! {

/// Backoff after an advertised shared endpoint could not be authenticated, in
/// seconds.
pub const MULTIPLEX_UPGRADE_RETRY_DELAY_SECS: u64 = 300;

/// How far a send got before it failed.
#[derive(Debug, Clone, Copy, PartialEq, Eq, Structural)]
pub enum SendFailureStage {
    /// No stream could be opened.
    OpenStream,
    /// Opening a stream made no progress in time.
    OpenStreamProgressTimeout,
    /// Writing made no progress in time.
    WriteProgressTimeout,
    /// Writing failed.
    Write,
    /// The stream could not be finished.
    Finish,
    /// The delivery was not acknowledged.
    DeliveryAck,
}

/// What the transport says of a send that failed.
#[derive(Debug, Clone, Copy, PartialEq, Eq, Structural)]
pub enum EndpointFault {
    /// There is no connection to the peer.
    PeerNotFound,
    /// The send got as far as a stage.
    SendFailed(SendFailureStage),
    /// Another fault.
    Other,
}

/// What a send that failed means for the channel.
#[derive(Debug, Clone, Copy, PartialEq, Eq, Structural)]
pub enum SendFailureKind {
    /// The channel was gone before anything was sent.
    StaleChannel,
    /// Opening a stream made no progress in time.
    OpenStreamProgressTimeout,
    /// Writing made no progress in time.
    WriteProgressTimeout,
    /// Writing failed.
    StreamWrite,
    /// The stream could not be finished.
    StreamFinish,
    /// Another failure.
    Other,
}

/// What a stage means for the channel.
pub open spec fn stage_kind(stage: SendFailureStage) -> SendFailureKind {
    match stage {
        SendFailureStage::OpenStream => SendFailureKind::StaleChannel,
        SendFailureStage::OpenStreamProgressTimeout => SendFailureKind::OpenStreamProgressTimeout,
        SendFailureStage::WriteProgressTimeout => SendFailureKind::WriteProgressTimeout,
        SendFailureStage::Write => SendFailureKind::StreamWrite,
        SendFailureStage::Finish => SendFailureKind::StreamFinish,
        SendFailureStage::DeliveryAck => SendFailureKind::StreamFinish,
    }
}

/// Classify the stage at which a send failed.
pub fn classify_transport_send_stage(stage: SendFailureStage) -> (kind: SendFailureKind)
    ensures
        kind == stage_kind(stage),
{
    match stage {
        SendFailureStage::OpenStream => SendFailureKind::StaleChannel,
        SendFailureStage::OpenStreamProgressTimeout => SendFailureKind::OpenStreamProgressTimeout,
        SendFailureStage::WriteProgressTimeout => SendFailureKind::WriteProgressTimeout,
        SendFailureStage::Write => SendFailureKind::StreamWrite,
        SendFailureStage::Finish => SendFailureKind::StreamFinish,
        SendFailureStage::DeliveryAck => SendFailureKind::StreamFinish,
    }
}

/// What a fault means for the channel.
pub open spec fn fault_kind(fault: EndpointFault) -> SendFailureKind {
    match fault {
        EndpointFault::PeerNotFound => SendFailureKind::StaleChannel,
        EndpointFault::SendFailed(stage) => stage_kind(stage),
        EndpointFault::Other => SendFailureKind::Other,
    }
}

/// What a chain of causes means for the channel: the first fault of the
/// transport among them decides.
pub open spec fn chain_kind(causes: Seq<Option<EndpointFault>>) -> SendFailureKind
    decreases causes.len(),
{
    if causes.len() == 0 {
        SendFailureKind::Other
    } else {
        match causes.first() {
            Some(fault) => fault_kind(fault),
            None => chain_kind(causes.drop_first()),
        }
    }
}

/// Classify a failure by its chain of causes, in which those that are no fault
/// of the transport are left blank.
pub fn classify_send_error(causes: &Vec<Option<EndpointFault>>) -> (kind: SendFailureKind)
    ensures
        kind == chain_kind(causes@),
{
    let mut index: usize = 0;
    proof {
        assert(causes@.skip(0) =~= causes@);
    }
    while index < causes.len()
        invariant
            index <= causes@.len(),
            chain_kind(causes@) == chain_kind(causes@.skip(index as int)),
        decreases causes@.len() - index,
    {
        proof {
            assert(causes@.skip(index as int).first() == causes@[index as int]);
            assert(causes@.skip(index as int).drop_first() =~= causes@.skip(index as int + 1));
        }
        if let Some(fault) = causes[index] {
            return match fault {
                EndpointFault::PeerNotFound => SendFailureKind::StaleChannel,
                EndpointFault::SendFailed(stage) => classify_transport_send_stage(stage),
                EndpointFault::Other => SendFailureKind::Other,
            };
        }
        index += 1;
    }
    SendFailureKind::Other
}

/// Why a message did not go out.
#[derive(Debug, Clone, Copy, PartialEq, Eq, Structural)]
pub enum SendFault {
    /// The peer is reached over no channel.
    PeerNotFound,
    /// The last channel that was tried failed.
    Channel(SendFailureKind),
}

impl SendFault {
    /// Whether the channel was gone before anything was sent.
    pub open spec fn stale(self) -> bool {
        self == SendFault::Channel(SendFailureKind::StaleChannel)
    }

    /// Check if the channel was gone before anything was sent.
    pub fn is_stale_channel_send_failure(&self) -> (stale: bool)
        ensures
            stale == self.stale(),
    {
        match self {
            SendFault::Channel(SendFailureKind::StaleChannel) => true,
            _ => false,
        }
    }
}

/// What to do next for a message to a peer.
#[derive(Debug, Clone, Copy, PartialEq, Eq, Structural)]
pub enum SendStep {
    /// Send on a channel.
    Try(SocketAddr),
    /// Forget the first channel, and send on the second.
    Retry(SocketAddr, SocketAddr),
    /// The message went out.
    Delivered,
    /// Forget the channel where one is given: the message does not go out.
    Failed(Option<SocketAddr>, SendFault),
}

/// A message on its way to a peer over one transport.
///
/// The channels are tried in turn. One that turns out to be gone is forgotten
/// and the next one tried. Any other failure ends the attempt, since part of
/// the message may have arrived.
pub struct ChannelSend {
    channels: Vec<SocketAddr>,
    tried: usize,
}

/// The channels of a message, and how many of them were tried.
#[verifier::ext_equal]
pub struct SendView {
    /// Channels to the peer.
    pub channels: Seq<SocketAddr>,
    /// How many of them were tried, counting the one in use.
    pub tried: nat,
}

impl View for ChannelSend {
    type V = SendView;

    closed spec fn view(&self) -> SendView {
        SendView { channels: self.channels@, tried: self.tried as nat }
    }
}

impl SendView {
    /// Whether a channel is in use.
    pub open spec fn sending(self) -> bool {
        1 <= self.tried <= self.channels.len()
    }

    /// The channel in use.
    pub open spec fn current(self) -> SocketAddr {
        self.channels[self.tried - 1]
    }

    /// A message that starts over some channels, and what to do first.
    pub open spec fn begun(channels: Seq<SocketAddr>) -> (SendView, SendStep) {
        if channels.len() == 0 {
            (
                SendView { channels, tried: 0 },
                SendStep::Failed(None, SendFault::PeerNotFound),
            )
        } else {
            (SendView { channels, tried: 1 }, SendStep::Try(channels[0]))
        }
    }

    /// The message once it is known what came of the channel in use.
    pub open spec fn moved(self, outcome: Result<(), SendFailureKind>) -> SendView {
        if self.after(outcome) is Retry {
            SendView { tried: self.tried + 1, ..self }
        } else {
            self
        }
    }

    /// What to do once it is known what came of the channel in use.
    pub open spec fn after(self, outcome: Result<(), SendFailureKind>) -> SendStep {
        match outcome {
            Ok(()) => SendStep::Delivered,
            Err(kind) => if kind is StaleChannel && self.tried < self.channels.len() {
                SendStep::Retry(self.current(), self.channels[self.tried as int])
            } else {
                SendStep::Failed(Some(self.current()), SendFault::Channel(kind))
            },
        }
    }
}

impl ChannelSend {
    /// Start to send over the channels to a peer.
    pub fn new(channels: Vec<SocketAddr>) -> (started: (Self, SendStep))
        ensures
            (started.0@, started.1) == SendView::begun(channels@),
    {
        if channels.len() == 0 {
            (
                ChannelSend { channels, tried: 0 },
                SendStep::Failed(None, SendFault::PeerNotFound),
            )
        } else {
            let first = channels[0];
            (ChannelSend { channels, tried: 1 }, SendStep::Try(first))
        }
    }

    /// Take note of what came of the channel in use.
    pub fn step(&mut self, outcome: Result<(), SendFailureKind>) -> (next: SendStep)
        requires
            old(self)@.sending(),
        ensures
            next == old(self)@.after(outcome),
            final(self)@ == old(self)@.moved(outcome),
    {
        let current = self.channels[self.tried - 1];
        match outcome {
            Ok(()) => SendStep::Delivered,
            Err(kind) => {
                if kind == SendFailureKind::StaleChannel && self.tried < self.channels.len() {
                    let next = self.channels[self.tried];
                    self.tried = self.tried + 1;
                    SendStep::Retry(current, next)
                } else {
                    SendStep::Failed(Some(current), SendFault::Channel(kind))
                }
            },
        }
    }
}

/// A failure other than a channel that was gone ends the attempt, so no part of
/// a message is sent twice.
pub proof fn law_partial_sends_are_not_repeated(send: SendView, kind: SendFailureKind)
    requires
        send.sending(),
        !(kind is StaleChannel),
    ensures
        send.after(Err(kind)) == SendStep::Failed(Some(send.current()), SendFault::Channel(kind)),
{
}

/// Every channel that failed is forgotten, and a channel that is tried next is
/// another one.
pub proof fn law_failed_channels_are_forgotten(send: SendView, kind: SendFailureKind)
    requires
        send.sending(),
        send.channels.no_duplicates(),
    ensures
        match send.after(Err(kind)) {
            SendStep::Retry(forgotten, next) => forgotten == send.current() && next != forgotten,
            SendStep::Failed(forgotten, _) => forgotten == Some(send.current()),
            _ => false,
        },
{
}

/// Whether an attempt to reach a peer over the shared transport is due: the
/// peer is not reached there, its daemon has a shared endpoint, and no attempt
/// failed of late.
pub open spec fn upgrade_due(
    shared_connected: bool,
    failure_age_secs: Option<u64>,
    has_capability: bool,
) -> bool {
    !shared_connected && has_capability && (failure_age_secs matches Some(age) ==> age
        >= MULTIPLEX_UPGRADE_RETRY_DELAY_SECS)
}

/// Check if an attempt to reach a peer over the shared transport is due.
pub fn wants_upgrade(
    shared_connected: bool,
    failure_age_secs: Option<u64>,
    has_capability: bool,
) -> (due: bool)
    ensures
        due == upgrade_due(shared_connected, failure_age_secs, has_capability),
{
    let rested = match failure_age_secs {
        Some(age) => age >= MULTIPLEX_UPGRADE_RETRY_DELAY_SECS,
        None => true,
    };
    !shared_connected && has_capability && rested
}

/// What to do next to reach a peer over the shared transport.
#[derive(Debug, Clone, Copy, PartialEq, Eq)]
pub enum UpgradeStep {
    /// Dial an address, where the daemon with this identity is to answer.
    Dial(MultiAddr, PeerId),
    /// Wait for the peer to prove its identity on a channel.
    AwaitIdentity(SocketAddr),
    /// Close the channel, and go on with the step after.
    CloseThenDial(SocketAddr, MultiAddr, PeerId),
    /// The peer is reached.
    Upgraded,
    /// Close the channel where one is given: the peer is not reached, and the
    /// failure is noted.
    GivenUp(Option<SocketAddr>),
}

/// What came of a step to reach a peer over the shared transport.
#[derive(Debug, Clone, Copy, PartialEq, Eq, Structural)]
pub enum UpgradeEvent {
    /// The daemon answered, on a channel.
    Dialed(SocketAddr),
    /// The dial failed, or another daemon answered.
    DialFailed,
    /// The peer proved its identity on the channel.
    Identified,
    /// The peer did not prove its identity on the channel.
    NotIdentified,
}

/// An attempt to reach a peer over the shared transport.
pub struct UpgradeRun {
    daemon: PeerId,
    addresses: Vec<MultiAddr>,
    dialed: usize,
    channel: Option<SocketAddr>,
}

/// An attempt to reach a peer over the shared transport.
#[verifier::ext_equal]
pub struct UpgradeView {
    /// Identity of the daemon.
    pub daemon: PeerId,
    /// Addresses of the shared endpoint.
    pub addresses: Seq<MultiAddr>,
    /// How many of them were dialed, counting the one in use.
    pub dialed: nat,
    /// The channel on which the peer is to prove its identity.
    pub channel: Option<SocketAddr>,
}

impl View for UpgradeRun {
    type V = UpgradeView;

    closed spec fn view(&self) -> UpgradeView {
        UpgradeView {
            daemon: self.daemon,
            addresses: self.addresses@,
            dialed: self.dialed as nat,
            channel: self.channel,
        }
    }
}

impl UpgradeView {
    /// Whether an event is the answer to the step that was last asked for.
    pub open spec fn expects(self, event: UpgradeEvent) -> bool {
        self.dialed <= self.addresses.len() && match event {
            UpgradeEvent::Dialed(_) | UpgradeEvent::DialFailed => self.channel is None,
            UpgradeEvent::Identified | UpgradeEvent::NotIdentified => self.channel is Some,
        }
    }

    /// Go on with the next address, once the channel where one is given is
    /// closed.
    pub open spec fn going_on(self) -> (UpgradeView, UpgradeStep) {
        if self.dialed < self.addresses.len() {
            let next = self.addresses[self.dialed as int];
            (
                UpgradeView { dialed: self.dialed + 1, channel: None, ..self },
                match self.channel {
                    Some(channel) => UpgradeStep::CloseThenDial(channel, next, self.daemon),
                    None => UpgradeStep::Dial(next, self.daemon),
                },
            )
        } else {
            (UpgradeView { channel: None, ..self }, UpgradeStep::GivenUp(self.channel))
        }
    }

    /// What to do after an event.
    pub open spec fn after(self, event: UpgradeEvent) -> (UpgradeView, UpgradeStep) {
        match event {
            UpgradeEvent::Dialed(channel) => (
                UpgradeView { channel: Some(channel), ..self },
                UpgradeStep::AwaitIdentity(channel),
            ),
            UpgradeEvent::Identified => (
                UpgradeView { channel: None, ..self },
                UpgradeStep::Upgraded,
            ),
            UpgradeEvent::DialFailed | UpgradeEvent::NotIdentified => self.going_on(),
        }
    }
}

impl UpgradeRun {
    /// Start to reach a peer over the shared endpoint of its daemon.
    pub fn new(capability: MultiplexCapability) -> (started: (Self, UpgradeStep))
        ensures
            (started.0@, started.1) == (UpgradeView {
                daemon: capability.daemon_peer_id,
                addresses: capability.addresses@,
                dialed: 0,
                channel: None,
            }).going_on(),
    {
        let mut run = UpgradeRun {
            daemon: capability.daemon_peer_id,
            addresses: capability.addresses,
            dialed: 0,
            channel: None,
        };
        let step = run.go_on();
        (run, step)
    }

    fn go_on(&mut self) -> (step: UpgradeStep)
        requires
            old(self)@.dialed <= old(self)@.addresses.len(),
        ensures
            (final(self)@, step) == old(self)@.going_on(),
    {
        let closing = self.channel;
        self.channel = None;
        if self.dialed < self.addresses.len() {
            let next = self.addresses[self.dialed];
            self.dialed = self.dialed + 1;
            match closing {
                Some(channel) => UpgradeStep::CloseThenDial(channel, next, self.daemon),
                None => UpgradeStep::Dial(next, self.daemon),
            }
        } else {
            UpgradeStep::GivenUp(closing)
        }
    }

    /// Take note of what came of the step that was last asked for.
    pub fn step(&mut self, event: UpgradeEvent) -> (step: UpgradeStep)
        requires
            old(self)@.expects(event),
        ensures
            (final(self)@, step) == old(self)@.after(event),
    {
        match event {
            UpgradeEvent::Dialed(channel) => {
                self.channel = Some(channel);
                UpgradeStep::AwaitIdentity(channel)
            },
            UpgradeEvent::Identified => {
                self.channel = None;
                UpgradeStep::Upgraded
            },
            UpgradeEvent::DialFailed | UpgradeEvent::NotIdentified => self.go_on(),
        }
    }
}

/// A channel on which the peer did not prove its identity is closed before
/// anything else is tried.
pub proof fn law_unproven_channels_are_closed(run: UpgradeView, channel: SocketAddr)
    requires
        run.expects(UpgradeEvent::NotIdentified),
        run.channel == Some(channel),
    ensures
        match run.after(UpgradeEvent::NotIdentified).1 {
            UpgradeStep::CloseThenDial(closed, _, daemon) => closed == channel && daemon
                == run.daemon,
            UpgradeStep::GivenUp(closed) => closed == Some(channel),
            _ => false,
        },
{
}

/// What is known once it is known what came of a message on a channel.
pub open spec fn send_finished(
    registry: RegistryView,
    traffic: TrafficCounters,
    channel: SocketAddr,
    wire_len: u64,
    payload_len: u64,
    sent: bool,
) -> (RegistryView, TrafficCounters) {
    if sent {
        (registry, traffic.after_sent(wire_len, payload_len))
    } else {
        (registry.silenced(channel), traffic)
    }
}

/// Take note of what came of a message on a channel: what went over the wire is
/// counted, and a channel that failed is not up.
pub fn finish_send(
    registry: &mut ChannelRegistry,
    traffic: &mut TrafficCounters,
    channel_id: &SocketAddr,
    wire_len: u64,
    payload_len: u64,
    sent: bool,
)
    ensures
        (final(registry)@, *final(traffic)) == send_finished(
            old(registry)@,
            *old(traffic),
            *channel_id,
            wire_len,
            payload_len,
            sent,
        ),
{
    if sent {
        traffic.count_sent(wire_len, payload_len);
    } else {
        registry.note_send_failure(channel_id);
    }
}

/// What to do next for a message to a peer that may be reached over both
/// transports.
#[derive(Debug, Clone, Copy, PartialEq, Eq, Structural)]
pub enum MessagePhase {
    /// Try to reach the peer over the shared transport.
    Upgrade,
    /// Send over the shared transport.
    SendShared,
    /// Send over the own transport.
    SendOwn,
    /// The message went out.
    Delivered,
    /// The message does not go out.
    Failed(SendFault),
}

/// How a message to a peer starts.
pub open spec fn first_phase(
    has_shared: bool,
    shared_connected: bool,
    failure_age_secs: Option<u64>,
    has_capability: bool,
) -> MessagePhase {
    if has_shared && upgrade_due(shared_connected, failure_age_secs, has_capability) {
        MessagePhase::Upgrade
    } else if has_shared && shared_connected {
        MessagePhase::SendShared
    } else {
        MessagePhase::SendOwn
    }
}

/// How a message goes on once it was tried to reach the peer over the shared
/// transport.
pub open spec fn second_phase(shared_connected: bool) -> MessagePhase {
    if shared_connected {
        MessagePhase::SendShared
    } else {
        MessagePhase::SendOwn
    }
}

/// How a message goes on once it was sent over the shared transport.
pub open spec fn last_phase(sent: Result<(), SendFault>) -> MessagePhase {
    match sent {
        Ok(()) => MessagePhase::Delivered,
        Err(fault) => if fault.stale() {
            MessagePhase::SendOwn
        } else {
            MessagePhase::Failed(fault)
        },
    }
}

/// Start a message to a peer.
pub fn begin_message(
    has_shared: bool,
    shared_connected: bool,
    failure_age_secs: Option<u64>,
    has_capability: bool,
) -> (phase: MessagePhase)
    ensures
        phase == first_phase(has_shared, shared_connected, failure_age_secs, has_capability),
{
    if has_shared && wants_upgrade(shared_connected, failure_age_secs, has_capability) {
        MessagePhase::Upgrade
    } else {
        after_upgrade(has_shared && shared_connected)
    }
}

/// Go on with a message once it was tried to reach the peer over the shared
/// transport.
pub fn after_upgrade(shared_connected: bool) -> (phase: MessagePhase)
    ensures
        phase == second_phase(shared_connected),
{
    if shared_connected {
        MessagePhase::SendShared
    } else {
        MessagePhase::SendOwn
    }
}

/// Go on with a message once it was sent over the shared transport.
///
/// It is sent over the own transport only where the shared channel was gone
/// before anything was sent.
pub fn after_shared_send(sent: Result<(), SendFault>) -> (phase: MessagePhase)
    ensures
        phase == last_phase(sent),
{
    match sent {
        Ok(()) => MessagePhase::Delivered,
        Err(fault) => {
            if fault.is_stale_channel_send_failure() {
                MessagePhase::SendOwn
            } else {
                MessagePhase::Failed(fault)
            }
        },
    }
}

/// The channels over which one recipient of a publication is reached.
pub struct PublishGroup {
    /// The recipient, where it has proven its identity.
    pub destination: Option<PeerId>,
    /// Its channels.
    pub channels: Vec<SocketAddr>,
}

/// Whether a group is that of a peer.
pub open spec fn is_peer_group(registry: RegistryView, group: PublishGroup) -> bool {
    group.destination matches Some(peer) && group.channels@.len() > 0
        && group.channels@.no_duplicates() && forall|channel: SocketAddr| #[trigger]
        group.channels@.contains(channel) <==> registry.linked(peer@, channel)
}

/// Whether a group is that of a channel that serves no peer.
pub open spec fn is_channel_group(registry: RegistryView, group: PublishGroup) -> bool {
    group.destination is None && group.channels@.len() == 1 && registry.info.dom().contains(
        group.channels@[0],
    ) && !registry.occupied(group.channels@[0])
}

/// Whether some group is that of a peer.
pub open spec fn reaches_peer(groups: Seq<PublishGroup>, peer: Seq<u8>) -> bool {
    exists|i: int| 0 <= i < groups.len() && ((#[trigger] groups[i]).destination matches Some(to)
        && to@ == peer)
}

/// Whether some group is that of a channel that serves no peer.
pub open spec fn reaches_channel(groups: Seq<PublishGroup>, channel: SocketAddr) -> bool {
    exists|i: int| 0 <= i < groups.len() && (#[trigger] groups[i]).destination is None
        && groups[i].channels@.len() == 1 && groups[i].channels@[0] == channel
}

/// Group the channels of a publication by recipient: each peer once, with all
/// of its channels, and each channel that serves no peer.
pub fn publication_groups(registry: &ChannelRegistry) -> (groups: Vec<PublishGroup>)
    ensures
        forall|i: int|
            0 <= i < groups@.len() ==> is_peer_group(registry@, #[trigger] groups@[i])
                || is_channel_group(registry@, groups@[i]),
        forall|peer: Seq<u8>| #[trigger]
            reaches_peer(groups@, peer) <==> registry@.connected(peer),
        forall|channel: SocketAddr| #[trigger]
            reaches_channel(groups@, channel) <==> (registry@.info.dom().contains(channel)
                && !registry@.occupied(channel)),
        forall|i: int, j: int|
            0 <= i < j < groups@.len() ==> #[trigger] groups@[i].destination
                != #[trigger] groups@[j].destination || (groups@[i].destination is None
                && groups@[i].channels@[0] != groups@[j].channels@[0]),
{
    let mut groups: Vec<PublishGroup> = Vec::new();
    let peers = registry.connected_peers();
    let mut index: usize = 0;
    while index < peers.len()
        invariant
            index <= peers@.len(),
            groups@.len() == index,
            peers@.no_duplicates(),
            forall|bytes: Seq<u8>| #[trigger]
                among(peers@, bytes) <==> registry@.connected(bytes),
            forall|i: int|
                0 <= i < index ==> is_peer_group(registry@, #[trigger] groups@[i])
                    && groups@[i].destination == Some(peers@[i]),
        decreases peers@.len() - index,
    {
        let peer = peers[index];
        let channels = registry.channels_of(&peer);
        proof {
            assert(peers@[index as int]@ == peer@);
            assert(among(peers@, peer@));
            let channel = choose|channel: SocketAddr| registry@.linked(peer@, channel);
            assert(registry@.linked(peer@, channel));
            assert(channels@.contains(channel));
        }
        groups.push(PublishGroup { destination: Some(peer), channels });
        index += 1;
    }
    let ghost peer_groups = groups@;
    proof {
        assert forall|peer: Seq<u8>| #[trigger]
            reaches_peer(peer_groups, peer) <==> registry@.connected(peer) by {
            assert(among(peers@, peer) <==> registry@.connected(peer));
            if among(peers@, peer) {
                let i = choose|i: int| 0 <= i < peers@.len() && (#[trigger] peers@[i])@ == peer;
                assert(peer_groups[i].destination == Some(peers@[i]));
            }
            if reaches_peer(peer_groups, peer) {
                let i = choose|i: int|
                    0 <= i < peer_groups.len() && ((#[trigger] peer_groups[i]).destination matches
                        Some(to) && to@ == peer);
                assert(peers@[i]@ == peer);
            }
        }
    }
    let channels = registry.known_channels();
    let mut at: usize = 0;
    while at < channels.len()
        invariant
            at <= channels@.len(),
            channels@.no_duplicates(),
            channels@.to_set() == registry@.info.dom(),
            peers@.no_duplicates(),
            peer_groups.len() == peers@.len(),
            peer_groups.len() <= groups@.len(),
            forall|i: int|
                0 <= i < peer_groups.len() ==> #[trigger] groups@[i] == peer_groups[i],
            forall|i: int|
                0 <= i < peer_groups.len() ==> is_peer_group(registry@, #[trigger] peer_groups[i])
                    && peer_groups[i].destination == Some(peers@[i]),
            forall|i: int|
                peer_groups.len() <= i < groups@.len() ==> is_channel_group(
                    registry@,
                    #[trigger] groups@[i],
                ) && channels@.take(at as int).contains(groups@[i].channels@[0]),
            forall|channel: SocketAddr| #[trigger]
                channels@.take(at as int).contains(channel) && !registry@.occupied(channel)
                    ==> reaches_channel(groups@, channel),
            forall|i: int, j: int|
                peer_groups.len() <= i < j < groups@.len()
                    ==> #[trigger] groups@[i].channels@[0] != #[trigger] groups@[j].channels@[0],
        decreases channels@.len() - at,
    {
        let channel = channels[at];
        let ghost held = groups@;
        let ghost done = channels@.take(at as int);
        let ghost next = channels@.take(at as int + 1);
        proof {
            assert(next =~= done.push(channel));
            assert(channels@.contains(channel));
            assert(channels@.to_set().contains(channel));
            assert(!done.contains(channel)) by {
                if done.contains(channel) {
                    let i = done.index_of(channel);
                    assert(channels@[i] == channels@[at as int]);
                }
            }
        }
        if !registry.is_occupied(&channel) {
            let mut only: Vec<SocketAddr> = Vec::new();
            only.push(channel);
            groups.push(PublishGroup { destination: None, channels: only });
            proof {
                let last = held.len() as int;
                assert(groups@[last].channels@ =~= seq![channel]);
                assert(reaches_channel(groups@, channel));
                assert forall|i: int, j: int|
                    peer_groups.len() <= i < j < groups@.len() implies
                    #[trigger] groups@[i].channels@[0] != #[trigger] groups@[j].channels@[0] by {
                    assert(groups@[i] == held[i]);
                    if j < last {
                        assert(groups@[j] == held[j]);
                    } else {
                        assert(done.contains(held[i].channels@[0]));
                    }
                }
            }
        }
        proof {
            assert forall|i: int| 0 <= i < held.len() implies groups@[i] == #[trigger] held[i] by {}
            assert forall|i: int| peer_groups.len() <= i < groups@.len() implies is_channel_group(
                registry@,
                #[trigger] groups@[i],
            ) && next.contains(groups@[i].channels@[0]) by {
                if i < held.len() {
                    assert(groups@[i] == held[i]);
                    let c = held[i].channels@[0];
                    assert(done.contains(c));
                    assert(next[done.index_of(c)] == c);
                } else {
                    assert(next[at as int] == channel);
                }
            }
            assert forall|c: SocketAddr| #[trigger]
                next.contains(c) && !registry@.occupied(c) implies reaches_channel(groups@, c) by {
                if c != channel {
                    let i = next.index_of(c);
                    assert(done[i] == c);
                    assert(done.contains(c));
                    assert(reaches_channel(held, c));
                    let k = choose|k: int| 0 <= k < held.len() && (#[trigger] held[k]).destination
                        is None && held[k].channels@.len() == 1 && held[k].channels@[0] == c;
                    assert(groups@[k] == held[k]);
                }
            }
        }
        at += 1;
    }
    proof {
        assert(channels@.take(channels@.len() as int) =~= channels@);
        assert forall|i: int| 0 <= i < groups@.len() implies is_peer_group(
            registry@,
            #[trigger] groups@[i],
        ) || is_channel_group(registry@, groups@[i]) by {
            if i < peer_groups.len() {
                assert(groups@[i] == peer_groups[i]);
            }
        }
        assert forall|peer: Seq<u8>| #[trigger]
            reaches_peer(groups@, peer) <==> registry@.connected(peer) by {
            assert(reaches_peer(peer_groups, peer) <==> registry@.connected(peer));
            if reaches_peer(peer_groups, peer) {
                let i = choose|i: int|
                    0 <= i < peer_groups.len() && ((#[trigger] peer_groups[i]).destination matches
                        Some(to) && to@ == peer);
                assert(groups@[i] == peer_groups[i]);
            }
            if reaches_peer(groups@, peer) {
                let i = choose|i: int|
                    0 <= i < groups@.len() && ((#[trigger] groups@[i]).destination matches Some(to)
                        && to@ == peer);
                if i >= peer_groups.len() {
                    assert(is_channel_group(registry@, groups@[i]));
                }
                assert(peer_groups[i].destination == groups@[i].destination);
            }
        }
        assert forall|channel: SocketAddr| #[trigger]
            reaches_channel(groups@, channel) <==> (registry@.info.dom().contains(channel)
                && !registry@.occupied(channel)) by {
            assert(channels@.to_set().contains(channel) == channels@.contains(channel));
            if registry@.info.dom().contains(channel) && !registry@.occupied(channel) {
                assert(channels@.take(channels@.len() as int).contains(channel));
            }
            if reaches_channel(groups@, channel) {
                let k = choose|k: int| 0 <= k < groups@.len() && (#[trigger] groups@[k]).destination
                    is None && groups@[k].channels@.len() == 1 && groups@[k].channels@[0]
                    == channel;
                if k < peer_groups.len() {
                    assert(groups@[k] == peer_groups[k]);
                    assert(is_peer_group(registry@, peer_groups[k]));
                }
                assert(is_channel_group(registry@, groups@[k]));
            }
        }
        assert forall|i: int, j: int|
            0 <= i < j < groups@.len() implies #[trigger] groups@[i].destination
                != #[trigger] groups@[j].destination || (groups@[i].destination is None
                && groups@[i].channels@[0] != groups@[j].channels@[0]) by {
            if i < peer_groups.len() {
                assert(groups@[i] == peer_groups[i]);
                assert(groups@[i].destination == Some(peers@[i]));
                if j < peer_groups.len() {
                    assert(groups@[j] == peer_groups[j]);
                    assert(groups@[j].destination == Some(peers@[j]));
                    assert(peers@[i] != peers@[j]);
                } else {
                    assert(is_channel_group(registry@, groups@[j]));
                }
            } else {
                assert(is_channel_group(registry@, groups@[i]));
                assert(groups@[i].channels@[0] != groups@[j].channels@[0]);
            }
        }
    }
    groups
}

/// What to do next for a publication: forget the first channel where one is
/// given, and send on the second to the recipient where one is given.
#[derive(Debug, Clone, Copy, PartialEq, Eq)]
pub struct PublishStep {
    /// Channel to forget.
    pub forget: Option<SocketAddr>,
    /// Channel to send on, with the recipient where it is known.
    pub send: Option<(SocketAddr, Option<PeerId>)>,
}

/// A publication on its way to its recipients.
///
/// The channels of a recipient are tried until one takes the message; those that
/// fail are forgotten.
pub struct PublishRun {
    groups: Vec<PublishGroup>,
    group: usize,
    channel: usize,
    sent: usize,
}

/// A publication on its way to its recipients.
#[verifier::ext_equal]
pub struct PublishView {
    /// The recipients.
    pub groups: Seq<PublishGroup>,
    /// The recipient in turn.
    pub group: nat,
    /// The channel in turn.
    pub channel: nat,
    /// How many recipients got the message.
    pub sent: nat,
}

impl View for PublishRun {
    type V = PublishView;

    closed spec fn view(&self) -> PublishView {
        PublishView {
            groups: self.groups@,
            group: self.group as nat,
            channel: self.channel as nat,
            sent: self.sent as nat,
        }
    }
}

impl PublishView {
    /// Whether every recipient has a channel.
    pub open spec fn well_formed(self) -> bool {
        self.sent <= self.group && forall|i: int|
            0 <= i < self.groups.len() ==> (#[trigger] self.groups[i]).channels@.len() > 0
    }

    /// Whether a channel is in use.
    pub open spec fn sending(self) -> bool {
        self.group < self.groups.len() && self.channel < self.groups[self.group as int].channels@.len()
    }

    /// The channel in turn, with its recipient.
    pub open spec fn turn(self) -> Option<(SocketAddr, Option<PeerId>)> {
        if self.sending() {
            Some(
                (
                    self.groups[self.group as int].channels@[self.channel as int],
                    self.groups[self.group as int].destination,
                ),
            )
        } else {
            None
        }
    }

    /// What to do once it is known what came of the channel in use.
    pub open spec fn next_step(self, sent: bool) -> PublishStep {
        PublishStep {
            forget: if sent {
                None
            } else {
                Some(self.groups[self.group as int].channels@[self.channel as int])
            },
            send: self.after(sent).turn(),
        }
    }

    /// The publication once it is known what came of the channel in use.
    pub open spec fn after(self, sent: bool) -> PublishView {
        let last = self.channel + 1 >= self.groups[self.group as int].channels@.len();
        PublishView {
            sent: if sent {
                self.sent + 1
            } else {
                self.sent
            },
            group: if sent || last {
                self.group + 1
            } else {
                self.group
            },
            channel: if sent || last {
                0
            } else {
                self.channel + 1
            },
            ..self
        }
    }
}

impl PublishRun {
    /// Start a publication to its recipients.
    pub fn new(groups: Vec<PublishGroup>) -> (started: (Self, PublishStep))
        requires
            forall|i: int| 0 <= i < groups@.len() ==> (#[trigger] groups@[i]).channels@.len() > 0,
        ensures
            started.0@ == (PublishView { groups: groups@, group: 0, channel: 0, sent: 0 }),
            started.0@.well_formed(),
            started.1 == (PublishStep { forget: None, send: started.0@.turn() }),
    {
        let run = PublishRun { groups, group: 0, channel: 0, sent: 0 };
        let send = run.turn();
        (run, PublishStep { forget: None, send })
    }

    fn turn(&self) -> (send: Option<(SocketAddr, Option<PeerId>)>)
        requires
            self@.well_formed(),
        ensures
            send == self@.turn(),
    {
        if self.group < self.groups.len() {
            let group = &self.groups[self.group];
            if self.channel < group.channels.len() {
                return Some((group.channels[self.channel], group.destination));
            }
        }
        None
    }

    /// Take note of whether the channel in use took the message.
    pub fn step(&mut self, sent: bool) -> (next: PublishStep)
        requires
            old(self)@.well_formed(),
            old(self)@.sending(),
        ensures
            final(self)@ == old(self)@.after(sent),
            final(self)@.well_formed(),
            next == old(self)@.next_step(sent),
    {
        let total: usize = self.groups.len();
        assert(self.group < total && self.sent <= self.group);
        let count = self.groups[self.group].channels.len();
        let current = self.groups[self.group].channels[self.channel];
        let forget = if sent {
            None
        } else {
            Some(current)
        };
        if sent {
            self.sent = self.sent + 1;
        }
        if sent || self.channel + 1 >= count {
            self.group = self.group + 1;
            self.channel = 0;
        } else {
            self.channel = self.channel + 1;
        }
        let send = self.turn();
        PublishStep { forget, send }
    }

    /// Get how many recipients got the message, out of how many.
    pub fn progress(&self) -> (progress: (usize, usize))
        ensures
            progress.0 == self@.sent,
            progress.1 == self@.groups.len(),
    {
        (self.sent, self.groups.len())
    }
}

/// A recipient gets a publication once: after a channel took the message, the
/// recipient in turn is another one.
pub proof fn law_publications_reach_each_recipient_once(run: PublishView)
    requires
        run.well_formed(),
        run.sending(),
    ensures
        run.after(true).group == run.group + 1,
        run.after(true).sent == run.sent + 1,
        run.after(false).sent == run.sent,
        run.after(false).group == run.group ==> run.after(false).channel == run.channel + 1,
{
}

/// A channel counts as gone only where nothing was sent: no connection was there,
/// or no stream could be opened. Each other stage is told apart, but for a stream
/// that was not finished and one that was not acknowledged.
pub proof fn law_only_unsent_messages_are_stale(fault: EndpointFault, stage: SendFailureStage)
    ensures
        fault_kind(fault) is StaleChannel <==> fault is PeerNotFound || fault
            == EndpointFault::SendFailed(SendFailureStage::OpenStream),
        fault_kind(fault) is Other <==> fault is Other,
        fault_kind(EndpointFault::SendFailed(stage)) == stage_kind(stage),
        stage_kind(stage) is StaleChannel <==> stage is OpenStream,
        stage_kind(stage) is OpenStreamProgressTimeout <==> stage is OpenStreamProgressTimeout,
        stage_kind(stage) is WriteProgressTimeout <==> stage is WriteProgressTimeout,
        stage_kind(stage) is StreamWrite <==> stage is Write,
        stage_kind(stage) is StreamFinish <==> stage is Finish || stage is DeliveryAck,
{
}

/// The first fault of the transport in a chain of causes decides, whatever follows
/// it; a chain without any is another failure.
pub proof fn law_the_first_fault_decides(causes: Seq<Option<EndpointFault>>, index: int)
    requires
        0 <= index <= causes.len(),
        forall|i: int| 0 <= i < index ==> (#[trigger] causes[i]) is None,
    ensures
        index == causes.len() ==> chain_kind(causes) is Other,
        index < causes.len() ==> (causes[index] matches Some(fault) ==> chain_kind(causes)
            == fault_kind(fault)),
    decreases causes.len(),
{
    if causes.len() > 0 && index > 0 {
        let rest = causes.drop_first();
        assert(causes[0] is None);
        assert forall|i: int| 0 <= i < index - 1 implies (#[trigger] rest[i]) is None by {
            assert(causes[i + 1] is None);
        }
        law_the_first_fault_decides(rest, index - 1);
    }
}

/// A message goes out on the first channel to its peer, and fails at once where
/// there is none.
pub proof fn law_sends_begin_with_the_first_channel(channels: Seq<SocketAddr>)
    ensures
        channels.len() == 0 ==> SendView::begun(channels).1 == SendStep::Failed(
            None,
            SendFault::PeerNotFound,
        ),
        channels.len() > 0 ==> {
            let (send, step) = SendView::begun(channels);
            &&& send.channels == channels
            &&& send.sending()
            &&& send.current() == channels[0]
            &&& step == SendStep::Try(channels[0])
        },
{
}

/// The channels are tried in order: one that was gone is forgotten and the next
/// one used, until a message is delivered or the last channel has failed.
pub proof fn law_gone_channels_lead_to_the_next(send: SendView)
    requires
        send.sending(),
    ensures
        send.after(Ok(())) is Delivered,
        send.moved(Ok(())) == send,
        send.tried < send.channels.len() ==> {
            let next = send.moved(Err(SendFailureKind::StaleChannel));
            &&& send.after(Err(SendFailureKind::StaleChannel)) == SendStep::Retry(
                send.channels[send.tried - 1],
                send.channels[send.tried as int],
            )
            &&& next.sending()
            &&& next.current() == send.channels[send.tried as int]
            &&& next.channels == send.channels
        },
        send.tried == send.channels.len() ==> send.after(Err(SendFailureKind::StaleChannel))
            == SendStep::Failed(
            Some(send.channels.last()),
            SendFault::Channel(SendFailureKind::StaleChannel),
        ),
{
}

/// An upgrade is tried for a peer that is not reached over the shared transport
/// and whose daemon has a shared endpoint, and not within five minutes of a
/// failure.
pub proof fn law_upgrades_wait_after_a_failure(age: u64, longer: u64, connected: bool, capable: bool)
    ensures
        upgrade_due(connected, None, capable) <==> !connected && capable,
        upgrade_due(connected, Some(age), capable) <==> !connected && capable && age >= 5 * 60,
        upgrade_due(connected, Some(age), capable) && age <= longer ==> upgrade_due(
            connected,
            Some(longer),
            capable,
        ),
{
}

/// An upgrade dials the addresses of the daemon in order, each once, and expects
/// that daemon at each of them. It gives up after the last one.
pub proof fn law_upgrades_dial_in_order(run: UpgradeView)
    requires
        run.dialed <= run.addresses.len(),
        run.channel is None,
    ensures
        run.dialed < run.addresses.len() ==> {
            let (after, step) = run.going_on();
            &&& step == UpgradeStep::Dial(run.addresses[run.dialed as int], run.daemon)
            &&& after.dialed == run.dialed + 1
            &&& after.daemon == run.daemon
            &&& after.addresses == run.addresses
            &&& after.channel is None
        },
        run.dialed == run.addresses.len() ==> run.going_on() == (run, UpgradeStep::GivenUp(None)),
        run.after(UpgradeEvent::DialFailed) == run.going_on(),
{
}

/// Once the daemon answered, the peer is awaited on that channel. It is reached
/// only when it proved its identity there; when it did not, the channel is closed
/// and the next address dialled, or the upgrade given up.
pub proof fn law_upgrades_need_the_peer_itself(run: UpgradeView, channel: SocketAddr)
    requires
        run.dialed <= run.addresses.len(),
        run.channel is None,
    ensures
        ({
            let (waiting, step) = run.after(UpgradeEvent::Dialed(channel));
            &&& step == UpgradeStep::AwaitIdentity(channel)
            &&& waiting == (UpgradeView { channel: Some(channel), ..run })
            &&& waiting.after(UpgradeEvent::Identified) == (run, UpgradeStep::Upgraded)
            &&& run.dialed < run.addresses.len() ==> waiting.after(
                UpgradeEvent::NotIdentified,
            ).1 == UpgradeStep::CloseThenDial(
                channel,
                run.addresses[run.dialed as int],
                run.daemon,
            ) && waiting.after(UpgradeEvent::NotIdentified).0 == run.going_on().0
            &&& run.dialed == run.addresses.len() ==> waiting.after(UpgradeEvent::NotIdentified)
                == (run, UpgradeStep::GivenUp(Some(channel)))
        }),
        !(run.after(UpgradeEvent::DialFailed).1 is Upgraded),
{
}

/// A message that went out is counted and changes no channel; one that did not is
/// not counted, and its channel alone is not up any more.
pub proof fn law_failed_sends_count_nothing(
    registry: RegistryView,
    traffic: TrafficCounters,
    channel: SocketAddr,
    wire_len: u64,
    payload_len: u64,
    other: SocketAddr,
)
    requires
        other != channel,
    ensures
        ({
            let (kept, counted) = send_finished(
                registry,
                traffic,
                channel,
                wire_len,
                payload_len,
                true,
            );
            &&& kept == registry
            &&& counted == traffic.after_sent(wire_len, payload_len)
        }),
        ({
            let (kept, counted) = send_finished(
                registry,
                traffic,
                channel,
                wire_len,
                payload_len,
                false,
            );
            &&& counted == traffic
            &&& !kept.active.contains(channel)
            &&& kept.active.contains(other) == registry.active.contains(other)
            &&& kept.info == registry.info
            &&& kept.links == registry.links
        }),
{
}

/// A message goes over the shared transport exactly where the peer is reached
/// there, after an upgrade was tried where one is due; without a shared transport
/// it goes over the own one.
pub proof fn law_shared_transport_comes_first(
    connected: bool,
    age: Option<u64>,
    capable: bool,
    now_connected: bool,
)
    ensures
        first_phase(false, connected, age, capable) is SendOwn,
        connected ==> first_phase(true, connected, age, capable) is SendShared,
        !connected && capable && age is None ==> first_phase(true, connected, age, capable)
            is Upgrade,
        !connected && !capable ==> first_phase(true, connected, age, capable) is SendOwn,
        !connected && (age matches Some(secs) && secs < 5 * 60) ==> first_phase(
            true,
            connected,
            age,
            capable,
        ) is SendOwn,
        second_phase(now_connected) is SendShared <==> now_connected,
        second_phase(now_connected) is SendOwn <==> !now_connected,
{
}

/// After the shared transport a message is sent again over the own one only where
/// the shared channel was gone before anything was sent; every other fault is the
/// end of it, and is told.
pub proof fn law_messages_fall_back_only_unsent(fault: SendFault)
    ensures
        last_phase(Ok(())) is Delivered,
        last_phase(Err(fault)) is SendOwn <==> fault == SendFault::Channel(
            SendFailureKind::StaleChannel,
        ),
        !(last_phase(Err(fault)) is SendOwn) ==> last_phase(Err(fault)) == MessagePhase::Failed(
            fault,
        ),
{
}

/// A publication offers each recipient its channels in order. A channel that took
/// the message ends the turn of its recipient, one that failed is forgotten and
/// the next one tried, and after the last one the next recipient has its turn.
pub proof fn law_publications_try_every_channel(run: PublishView)
    requires
        run.well_formed(),
        run.sending(),
    ensures
        ({
            let group = run.groups[run.group as int];
            &&& run.turn() == Some((group.channels@[run.channel as int], group.destination))
            &&& run.next_step(true).forget is None
            &&& run.next_step(false).forget == Some(group.channels@[run.channel as int])
            &&& run.channel + 1 < group.channels@.len() ==> run.next_step(false).send == Some(
                (group.channels@[run.channel as int + 1], group.destination),
            )
            &&& run.group + 1 < run.groups.len() ==> run.next_step(true).send == Some(
                (
                    run.groups[run.group as int + 1].channels@[0],
                    run.groups[run.group as int + 1].destination,
                ),
            )
            &&& run.channel + 1 == group.channels@.len() ==> run.next_step(false).send
                == run.next_step(true).send
            &&& run.group + 1 == run.groups.len() ==> run.next_step(true).send is None
        }),
{
}

} // verus!
