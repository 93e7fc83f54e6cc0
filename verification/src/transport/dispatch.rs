//! The loops that serve a transport: inbound messages, spread over several
//! consumers, and the events of connections.

use crate::address::{MultiAddr, SocketAddr};
use crate::identity::{is_signing_fault, NodeIdentity};
use crate::peer_id::PeerId;
use crate::transport::inbound::{
    after_delivery, peer_bytes, Delivery, HostedIdentities, HostingView, PendingRequests,
    TrafficCounters,
};
use crate::transport::maps::Capabilities;
use crate::transport::registry::{
    arrived, departed, dependents, lost_with, newly_reached, ChannelRegistry, Connectivity,
    PeerEvent, RegistryView,
};
use crate::transport::wire::{
    announced, announcement_data, capability_view, create_identity_announce_bytes, kept_addresses,
    names_endpoint, parse_multiplex_capability, MultiplexCapability, StatementView, WireFault,
    IDENTITY_ANNOUNCE_PROTOCOL,
};
use vstd::prelude::*;
use vstd::string::*;

verus! {

/// Number of parallel dispatch shards for inbound messages.
pub const MESSAGE_DISPATCH_SHARDS: usize = 8;

/// Minimum capacity for the channel of one dispatch shard.
pub const MIN_SHARD_CHANNEL_CAPACITY: usize = 16;

/// Every how many dropped messages a warning is due.
pub const SHARD_DROP_LOG_INTERVAL: u64 = 64;

/// The capacity of each shard where all of them together are to hold a given
/// number of messages.
pub open spec fn shard_capacity(total: nat) -> nat {
    if total / (MESSAGE_DISPATCH_SHARDS as nat) >= MIN_SHARD_CHANNEL_CAPACITY {
        total / (MESSAGE_DISPATCH_SHARDS as nat)
    } else {
        MIN_SHARD_CHANNEL_CAPACITY as nat
    }
}

/// The capacity of each shard where all of them together are to hold a given
/// number of messages.
pub fn shard_channel_capacity(total: usize) -> (capacity: usize)
    ensures
        capacity == shard_capacity(total as nat),
{
    let share: usize = total / MESSAGE_DISPATCH_SHARDS;
    if share >= MIN_SHARD_CHANNEL_CAPACITY {
        share
    } else {
        MIN_SHARD_CHANNEL_CAPACITY
    }
}

/// The shard for messages from an IP address with the given hash.
pub fn shard_index_for_hash(hash: u64) -> (shard: usize)
    ensures
        shard == hash % (MESSAGE_DISPATCH_SHARDS as u64),
        shard < MESSAGE_DISPATCH_SHARDS,
{
    (hash % (MESSAGE_DISPATCH_SHARDS as u64)) as usize
}

/// The count once one more message was dropped, and the warning that is due.
pub open spec fn drop_noted(drops: u64) -> (u64, Option<u64>) {
    (
        drops.wrapping_add(1),
        if drops % SHARD_DROP_LOG_INTERVAL == 0 {
            Some(drops.wrapping_add(1))
        } else {
            None
        },
    )
}

/// Count of the messages that no shard could take.
#[derive(Debug, Clone, Copy, PartialEq, Eq, Structural)]
pub struct DropCounter {
    /// Messages dropped so far.
    pub drops: u64,
}

impl DropCounter {
    /// Nothing was dropped.
    pub fn new() -> (counter: Self)
        ensures
            counter.drops == 0,
    {
        DropCounter { drops: 0 }
    }

    /// Count a message that was dropped. The first of every so many is worth a
    /// warning, which names the count.
    pub fn note_drop(&mut self) -> (warning: Option<u64>)
        ensures
            (final(self).drops, warning) == drop_noted(old(self).drops),
    {
        let due = self.drops % SHARD_DROP_LOG_INTERVAL == 0;
        self.drops = self.drops.wrapping_add(1);
        if due {
            Some(self.drops)
        } else {
            None
        }
    }
}

/// A message that came in and was understood.
pub struct ParsedMessage {
    /// Protocol of the data.
    pub topic: String,
    /// The data.
    pub data: Vec<u8>,
    /// The sender, where the message is signed.
    pub authenticated_node_id: Option<PeerId>,
    /// The receiver, where the message names one.
    pub destination: Option<PeerId>,
    /// Software of the sender.
    pub user_agent: String,
    /// Size of the payload.
    pub payload_len: u64,
}

/// What is left to do for a message that came in.
pub struct Received {
    /// Whether the transport is first to learn which peer the connection is
    /// with.
    pub bind_connection: bool,
    /// News of the sender.
    pub event: Option<PeerEvent>,
    /// What becomes of the message.
    pub delivery: Delivery,
}

/// Whether the shared endpoints that are known after a message are right: the
/// one that a signed announcement names is the one of its sender, and nothing
/// else changes.
pub open spec fn learned(
    before: Map<Seq<u8>, (Seq<u8>, Seq<MultiAddr>)>,
    after: Map<Seq<u8>, (Seq<u8>, Seq<MultiAddr>)>,
    message: ParsedMessage,
    magic: Seq<u8>,
    from: SocketAddr,
) -> bool {
    match message.authenticated_node_id {
        Some(sender) => if message.topic@ == IDENTITY_ANNOUNCE_PROTOCOL@ {
            ||| {
                &&& after.dom().contains(sender@)
                &&& after == before.insert(sender@, after[sender@])
                &&& after[sender@].1.len() > 0
                &&& names_endpoint(
                    message.data@,
                    magic,
                    from.ip,
                    after[sender@].0,
                    after[sender@].1,
                )
            }
            ||| {
                &&& after == before
                &&& forall|daemon: Seq<u8>, listed: Seq<MultiAddr>| #[trigger]
                    announced(message.data@, magic, daemon, listed) ==> kept_addresses(
                        listed,
                        from.ip,
                    ).len() == 0
            }
        } else {
            after == before
        },
        None => after == before,
    }
}

/// The sender of a message, where it has proven its identity and is not served
/// by this transport itself.
pub open spec fn remote_sender(hosting: HostingView, message: ParsedMessage) -> Option<PeerId> {
    match message.authenticated_node_id {
        Some(sender) => if hosting.hosted.dom().contains(sender@) {
            None
        } else {
            Some(sender)
        },
        None => None,
    }
}

/// What is known once a message came in from a remote end, given its sender; with
/// it, whether the transport is first to learn whom the connection is with, and
/// the news of the sender.
pub open spec fn sender_noted(
    registry: RegistryView,
    counts: Map<Seq<u8>, usize>,
    sender: Option<PeerId>,
    from: SocketAddr,
    user_agent: String,
    now: u64,
) -> (RegistryView, Map<Seq<u8>, usize>, bool, Option<PeerEvent>) {
    match sender {
        Some(peer) => (
            registry.registered(peer@, from.channel(), from, user_agent@, now),
            if registry.connected(peer@) {
                counts
            } else {
                arrived(counts, peer@)
            },
            !registry.linked(peer@, from.channel()),
            if newly_reached(registry, counts, peer@) {
                Some(PeerEvent::Connected(peer, user_agent))
            } else {
                None
            },
        ),
        None => (registry, counts, false, None),
    }
}

/// Take in a message from a remote end.
///
/// A signed announcement may name a shared endpoint. A signed message shows
/// which peer the channel serves; a message of an identity that is served here,
/// which was echoed, shows nothing.
pub fn receive_message(
    registry: &mut ChannelRegistry,
    connectivity: &mut Connectivity,
    hosting: &HostedIdentities,
    pending: &mut PendingRequests,
    capabilities: &mut Capabilities,
    traffic: &mut TrafficCounters,
    from_addr: SocketAddr,
    wire_len: u64,
    message: &ParsedMessage,
    magic: &[u8],
    now: u64,
) -> (received: Received)
    requires
        remote_sender(hosting@, *message) matches Some(sender) ==> (old(
            connectivity,
        )@.dom().contains(sender@) ==> old(connectivity)@[sender@] < usize::MAX),
    ensures
        learned(old(capabilities)@, final(capabilities)@, *message, magic@, from_addr),
        *final(traffic) == old(traffic).after_received(wire_len, message.payload_len),
        (final(registry)@, final(connectivity)@, received.bind_connection, received.event)
            == sender_noted(
            old(registry)@,
            old(connectivity)@,
            remote_sender(hosting@, *message),
            from_addr,
            message.user_agent,
            now,
        ),
        hosting@.delivers(
            old(pending)@,
            message.topic@,
            message.data@,
            message.authenticated_node_id,
            peer_bytes(message.destination),
            received.delivery,
        ),
        final(pending)@ == after_delivery(old(pending)@, received.delivery),
{
    let channel_id = from_addr.to_channel();
    if let Some(sender) = &message.authenticated_node_id {
        if message.topic == IDENTITY_ANNOUNCE_PROTOCOL.to_owned() {
            let capability = parse_multiplex_capability(&message.data, magic, from_addr);
            if let Some(shared) = capability {
                capabilities.insert(sender, shared);
            }
        }
    }
    traffic.count_received(wire_len, message.payload_len);
    let mut bind_connection = false;
    let mut event: Option<PeerEvent> = None;
    if let Some(sender) = &message.authenticated_node_id {
        if !hosting.is_hosted(sender) {
            bind_connection = !registry.is_linked(sender, &channel_id);
            event =
            registry.register_authenticated_peer_channel(
                connectivity,
                channel_id,
                from_addr,
                *sender,
                message.user_agent.clone(),
                now,
            );
        }
    }
    let delivery = hosting.route_message(
        pending,
        &message.topic,
        &message.data,
        &message.authenticated_node_id,
        &message.destination,
    );
    Received { bind_connection, event, delivery }
}

/// What happened to a connection.
#[derive(Debug, Clone, Copy, PartialEq, Eq)]
pub enum ConnectionEvent {
    /// A connection came up.
    Established(SocketAddr),
    /// A connection was lost.
    Lost(SocketAddr),
    /// A connection could not be made.
    Failed(SocketAddr),
    /// A peer is seen at another address.
    PeerAddressUpdated,
}

/// What is left to do after an event of a connection.
pub enum ConnectionAction {
    /// Announce the identities that are served to the remote end.
    Announce(SocketAddr),
    /// Tell that peers are reached no more.
    Lost(Vec<PeerId>),
    /// Nothing.
    Nothing,
}

/// What is known after an event of a connection.
pub open spec fn connection_followed(
    registry: RegistryView,
    counts: Map<Seq<u8>, usize>,
    event: ConnectionEvent,
    now: u64,
) -> (RegistryView, Map<Seq<u8>, usize>) {
    match event {
        ConnectionEvent::Established(remote) => (
            registry.upserted(remote.channel(), remote, now, true),
            counts,
        ),
        ConnectionEvent::Lost(remote) | ConnectionEvent::Failed(remote) => (
            registry.without_channel(remote.channel()),
            departed(counts, dependents(registry, remote.channel())),
        ),
        ConnectionEvent::PeerAddressUpdated => (registry, counts),
    }
}

/// Follow an event of a connection.
///
/// A peer does not count as reached when a connection comes up, but once it has
/// proven its identity on it.
pub fn follow_connection(
    registry: &mut ChannelRegistry,
    connectivity: &mut Connectivity,
    event: ConnectionEvent,
    now: u64,
) -> (action: ConnectionAction)
    ensures
        (final(registry)@, final(connectivity)@) == connection_followed(
            old(registry)@,
            old(connectivity)@,
            event,
            now,
        ),
        match event {
            ConnectionEvent::Established(remote) => action == ConnectionAction::Announce(remote),
            ConnectionEvent::Lost(remote) | ConnectionEvent::Failed(remote) => action
                matches ConnectionAction::Lost(lost) && lost_with(
                old(registry)@,
                old(connectivity)@,
                remote.channel(),
                lost@,
            ),
            ConnectionEvent::PeerAddressUpdated => action is Nothing,
        },
{
    match event {
        ConnectionEvent::Established(remote) => {
            registry.upsert_connected_channel(remote.to_channel(), remote, now, true);
            ConnectionAction::Announce(remote)
        },
        ConnectionEvent::Lost(remote) | ConnectionEvent::Failed(remote) => {
            let (_known, lost) = registry.remove_channel(connectivity, &remote.to_channel());
            ConnectionAction::Lost(lost)
        },
        ConnectionEvent::PeerAddressUpdated => ConnectionAction::Nothing,
    }
}

/// What came of sending an announcement.
#[derive(Debug, Clone, Copy, PartialEq, Eq, Structural)]
pub enum AnnounceOutcome {
    /// It was sent.
    Sent,
    /// The connection was closed in the meantime.
    PeerNotFound,
    /// It could not be sent for another reason.
    Failed,
}

/// The traffic once an announcement was tried, and whether the next one is.
pub open spec fn announcement_noted(
    traffic: TrafficCounters,
    wire_len: u64,
    outcome: AnnounceOutcome,
) -> (TrafficCounters, bool) {
    match outcome {
        AnnounceOutcome::Sent => (traffic.after_announced(wire_len), true),
        AnnounceOutcome::PeerNotFound => (traffic, false),
        AnnounceOutcome::Failed => (traffic, true),
    }
}

/// Take note of an announcement that was tried, and say whether to go on with
/// the next one: not where the connection is closed.
pub fn note_announcement(
    traffic: &mut TrafficCounters,
    wire_len: u64,
    outcome: AnnounceOutcome,
) -> (go_on: bool)
    ensures
        (*final(traffic), go_on) == announcement_noted(*old(traffic), wire_len, outcome),
{
    match outcome {
        AnnounceOutcome::Sent => {
            traffic.count_announced(wire_len);
            true
        },
        AnnounceOutcome::PeerNotFound => false,
        AnnounceOutcome::Failed => true,
    }
}

/// An identity with the software that it names.
pub struct AnnouncedIdentity {
    /// The identity.
    pub identity: NodeIdentity,
    /// Software that the identity names.
    pub user_agent: String,
}

/// What an identity announces.
pub open spec fn announcement(
    who: AnnouncedIdentity,
    capability: Option<&MultiplexCapability>,
    magic: Seq<u8>,
    seconds: u64,
) -> StatementView {
    StatementView {
        protocol: IDENTITY_ANNOUNCE_PROTOCOL@,
        data: announcement_data(capability_view(capability), magic),
        from: who.identity.owner()@,
        to: None,
        timestamp: seconds,
        user_agent: who.user_agent@,
    }
}

/// Whether this can come of making the announcement of an identity: a clock that
/// cannot be read is the fault, and else what comes is signed, or signing failed.
pub open spec fn announces(
    who: AnnouncedIdentity,
    capability: Option<&MultiplexCapability>,
    magic: Seq<u8>,
    timestamp: Result<u64, String>,
    created: Result<Vec<u8>, WireFault>,
) -> bool {
    match timestamp {
        Err(cause) => created == Err::<Vec<u8>, WireFault>(WireFault::Clock(cause)),
        Ok(seconds) => match created {
            Ok(bytes) => announcement(who, capability, magic, seconds).vouched(
                Seq::empty(),
                who.identity.public(),
                bytes@,
            ),
            Err(fault) => fault matches WireFault::Signing(cause) && is_signing_fault(cause@),
        },
    }
}

/// The announcements that could be made.
pub open spec fn made(created: Seq<Result<Vec<u8>, WireFault>>) -> Seq<Vec<u8>>
    decreases created.len(),
{
    if created.len() == 0 {
        Seq::empty()
    } else {
        match created.last() {
            Ok(bytes) => made(created.drop_last()).push(bytes),
            Err(_) => made(created.drop_last()),
        }
    }
}

/// Gather the announcements that could be made, in order.
pub fn gather_announcements(created: Vec<Result<Vec<u8>, WireFault>>) -> (messages: Vec<Vec<u8>>)
    ensures
        messages@ == made(created@),
{
    let mut created = created;
    let mut reversed: Vec<Vec<u8>> = Vec::new();
    let ghost whole = created@;
    while created.len() > 0
        invariant
            made(whole) == made(created@) + reversed@.reverse(),
        decreases created@.len(),
    {
        let ghost before = created@;
        let ghost held = reversed@;
        if let Some(Ok(bytes)) = created.pop() {
            reversed.push(bytes);
            assert(created@ =~= before.drop_last());
            assert(made(created@).push(bytes) + held.reverse() =~= made(created@)
                + reversed@.reverse());
        } else {
            assert(created@ =~= before.drop_last());
        }
    }
    let mut messages: Vec<Vec<u8>> = Vec::new();
    let ghost backwards = reversed@;
    while reversed.len() > 0
        invariant
            messages@ + reversed@.reverse() =~= backwards.reverse(),
        decreases reversed@.len(),
    {
        let ghost before = reversed@;
        if let Some(bytes) = reversed.pop() {
            messages.push(bytes);
            assert(before.reverse() =~= seq![bytes] + reversed@.reverse());
        }
    }
    assert(made(created@) =~= Seq::empty());
    assert(messages@ =~= backwards.reverse());
    messages
}

/// Make the announcements for a connection that came up: one of each identity
/// that is served, as far as they can be made, and where none can, one of the
/// node itself.
///
/// Whether an announcement can be made rests on the random source too.
pub fn identity_announcements(
    hosted: &Vec<AnnouncedIdentity>,
    node: &AnnouncedIdentity,
    capability: Option<&MultiplexCapability>,
    magic: &[u8],
    timestamp: &Result<u64, String>,
) -> (messages: Vec<Vec<u8>>)
    ensures
        exists|created: Seq<Result<Vec<u8>, WireFault>>|
            #![trigger made(created)]
            {
                &&& created.len() == hosted@.len()
                &&& forall|i: int|
                    0 <= i < created.len() ==> announces(
                        hosted@[i],
                        capability,
                        magic@,
                        *timestamp,
                        #[trigger] created[i],
                    )
                &&& if made(created).len() > 0 {
                    messages@ == made(created)
                } else {
                    exists|own: Result<Vec<u8>, WireFault>| #[trigger]
                        announces(*node, capability, magic@, *timestamp, own) && messages@ == made(
                            seq![own],
                        )
                }
            },
{
    let mut created: Vec<Result<Vec<u8>, WireFault>> = Vec::new();
    let mut index: usize = 0;
    while index < hosted.len()
        invariant
            index <= hosted@.len(),
            created@.len() == index,
            forall|i: int|
                0 <= i < index ==> announces(
                    hosted@[i],
                    capability,
                    magic@,
                    *timestamp,
                    #[trigger] created@[i],
                ),
        decreases hosted@.len() - index,
    {
        created.push(announce(&hosted[index], capability, magic, timestamp));
        index += 1;
    }
    let ghost all = created@;
    let messages = gather_announcements(created);
    if messages.len() > 0 {
        assert(messages@ == made(all));
        return messages;
    }
    let own = announce(node, capability, magic, timestamp);
    let ghost fallback = own;
    let alone = vec![own];
    assert(alone@ =~= seq![fallback]);
    assert(made(all).len() == 0);
    gather_announcements(alone)
}

fn announce(
    who: &AnnouncedIdentity,
    capability: Option<&MultiplexCapability>,
    magic: &[u8],
    timestamp: &Result<u64, String>,
) -> (created: Result<Vec<u8>, WireFault>)
    ensures
        announces(*who, capability, magic@, *timestamp, created),
{
    let clock: Result<u64, String> = match timestamp {
        Ok(seconds) => Ok(*seconds),
        Err(cause) => Err(cause.clone()),
    };
    create_identity_announce_bytes(
        &who.identity,
        who.user_agent.as_str(),
        capability,
        magic,
        clock,
    )
}

} // verus!
