//! Laws of what becomes of messages, connections and requests.

use crate::address::{IpAddr, MultiAddr, SocketAddr};
use crate::codec::{capability_decoding, envelope_decoding};
use crate::peer_id::{lemma_peer_is_its_bytes, PeerId};
use crate::transport::dispatch::{
    announcement, announcement_noted, announces, connection_followed, drop_noted, learned, made,
    remote_sender, sender_noted, shard_capacity, AnnounceOutcome, AnnouncedIdentity,
    ConnectionEvent, ParsedMessage,
};
use crate::transport::inbound::{
    after_delivery, begins_with, overhead, requests_of, Delivery, HostingFault, HostingView,
    TrafficCounters,
};
use crate::transport::registry::{PeerEvent, RegistryView};
use crate::transport::requests::{capped_timeout, closing, opening_fault, Answer};
use crate::transport::wire::{
    announced, announcement_data, capability_view, names_endpoint, read_addresses,
    valid_protocol_name, MultiplexCapability, RequestFault, WireFault, IDENTITY_ANNOUNCE_PROTOCOL,
    REQUEST_PREFIX,
};
use vstd::prelude::*;
use vstd::string::*;

verus! {

/// A message that names an identity is for that identity where it is served, and
/// for nobody else; one that names none is for the only identity that is served.
pub proof fn law_messages_are_for_one_identity(
    hosting: HostingView,
    destination: Seq<u8>,
    first: Seq<u8>,
    second: Seq<u8>,
)
    ensures
        hosting.is_target(Some(destination), first) <==> first == destination
            && hosting.hosted.dom().contains(destination),
        hosting.hosted.dom() == set![first] ==> hosting.is_target(None, first),
        first != second && hosting.hosted.dom().contains(first) && hosting.hosted.dom().contains(
            second,
        ) ==> !hosting.is_target(None, first),
        hosting.is_target(None, first) ==> hosting.hosted.dom().contains(first),
{
    if hosting.hosted.dom() == set![first] {
        assert(set![first].len() == 1);
    }
    if first != second && hosting.hosted.dom().contains(first) && hosting.hosted.dom().contains(
        second,
    ) && hosting.is_target(None, first) {
        let rest = hosting.hosted.dom().remove(first);
        assert(rest.len() == 0);
        assert(rest.contains(second));
        assert(rest =~= Set::empty());
    }
}

proof fn lemma_one_target(
    hosting: HostingView,
    destination: Option<Seq<u8>>,
    left: PeerId,
    right: PeerId,
)
    requires
        hosting.is_target(destination, left@),
        hosting.is_target(destination, right@),
    ensures
        left == right,
{
    match destination {
        Some(bytes) => {},
        None => {
            if left@ != right@ {
                law_messages_are_for_one_identity(hosting, left@, left@, right@);
            }
        },
    }
    lemma_peer_is_its_bytes(left, right);
}

/// An announcement is told apart by its protocol, whatever else it says.
pub proof fn law_announcements_are_no_messages(
    hosting: HostingView,
    pending: Map<(Seq<u8>, Seq<char>), PeerId>,
    data: Seq<u8>,
    authenticated: Option<PeerId>,
    destination: Option<Seq<u8>>,
    delivery: Delivery,
)
    requires
        hosting.delivers(
            pending,
            IDENTITY_ANNOUNCE_PROTOCOL@,
            data,
            authenticated,
            destination,
            delivery,
        ),
    ensures
        delivery is Announcement,
        after_delivery(pending, delivery) == pending,
{
}

/// A message that answers no request goes to the identity that it is for, and is
/// dropped where there is none; the requests that wait are left alone.
pub proof fn law_messages_reach_their_identity(
    hosting: HostingView,
    pending: Map<(Seq<u8>, Seq<char>), PeerId>,
    topic: Seq<char>,
    data: Seq<u8>,
    authenticated: Option<PeerId>,
    destination: PeerId,
    delivery: Delivery,
)
    requires
        topic != IDENTITY_ANNOUNCE_PROTOCOL@,
        !begins_with(topic, REQUEST_PREFIX@) || (envelope_decoding(data) matches Some(envelope)
            ==> !envelope.1),
        hosting.delivers(pending, topic, data, authenticated, Some(destination@), delivery),
    ensures
        hosting.hosted.dom().contains(destination@) ==> delivery == Delivery::Event(destination),
        !hosting.hosted.dom().contains(destination@) ==> delivery is Dropped,
        after_delivery(pending, delivery) == pending,
{
    let named = hosting.is_target(Some(destination@), destination@);
    if let Delivery::Event(identity) = delivery {
        lemma_peer_is_its_bytes(identity, destination);
    }
}

/// The answer that a request waits for is handed over with its payload to the
/// identity that asked, and that request alone waits no more.
pub proof fn law_awaited_answers_are_handed_over(
    hosting: HostingView,
    pending: Map<(Seq<u8>, Seq<char>), PeerId>,
    topic: Seq<char>,
    data: Seq<u8>,
    sender: PeerId,
    destination: Option<Seq<u8>>,
    delivery: Delivery,
    identity: PeerId,
    message_id: Seq<char>,
    payload: Seq<u8>,
    other: (Seq<u8>, Seq<char>),
)
    requires
        topic != IDENTITY_ANNOUNCE_PROTOCOL@,
        begins_with(topic, REQUEST_PREFIX@),
        envelope_decoding(data) == Some((message_id, true, payload)),
        hosting.is_target(destination, identity@),
        pending.dom().contains((identity@, message_id)),
        pending[(identity@, message_id)] == sender,
        hosting.delivers(pending, topic, data, Some(sender), destination, delivery),
        other != (identity@, message_id),
    ensures
        delivery matches Delivery::Response(to, id, bytes) && to == identity && id@ == message_id
            && bytes@ == payload,
        !after_delivery(pending, delivery).dom().contains((identity@, message_id)),
        after_delivery(pending, delivery).dom().contains(other) == pending.dom().contains(other),
        after_delivery(pending, delivery)[other] == pending[other],
{
    match delivery {
        Delivery::Unmatched => {
            let to = choose|to: PeerId| #[trigger]
                hosting.is_target(destination, to@) && !pending.dom().contains((to@, message_id));
            lemma_one_target(hosting, destination, identity, to);
        },
        Delivery::OriginMismatch(expected) => {
            let to = choose|to: PeerId| #[trigger]
                hosting.is_target(destination, to@) && pending.dom().contains((to@, message_id))
                    && pending[(to@, message_id)] == expected && Some(sender) != Some(expected);
            lemma_one_target(hosting, destination, identity, to);
        },
        Delivery::Response(to, _, _) => {
            lemma_one_target(hosting, destination, identity, to);
        },
        _ => {},
    }
}

/// An answer that nobody can be given is told apart: no identity is served that it
/// could be for, no request of that identity waits for it, or it comes from
/// another peer than the one that was asked, or from one that did not sign it.
pub proof fn law_stray_answers_are_told_apart(
    hosting: HostingView,
    pending: Map<(Seq<u8>, Seq<char>), PeerId>,
    topic: Seq<char>,
    data: Seq<u8>,
    authenticated: Option<PeerId>,
    destination: Option<Seq<u8>>,
    delivery: Delivery,
    identity: PeerId,
    message_id: Seq<char>,
    payload: Seq<u8>,
)
    requires
        topic != IDENTITY_ANNOUNCE_PROTOCOL@,
        begins_with(topic, REQUEST_PREFIX@),
        envelope_decoding(data) == Some((message_id, true, payload)),
        hosting.delivers(pending, topic, data, authenticated, destination, delivery),
    ensures
        (forall|to: PeerId| !#[trigger] hosting.is_target(destination, to@)) ==> delivery
            is Unaddressed,
        hosting.is_target(destination, identity@) && !pending.dom().contains(
            (identity@, message_id),
        ) ==> delivery is Unmatched,
        hosting.is_target(destination, identity@) && pending.dom().contains(
            (identity@, message_id),
        ) && authenticated != Some(pending[(identity@, message_id)]) ==> delivery
            == Delivery::OriginMismatch(pending[(identity@, message_id)]),
{
    if hosting.is_target(destination, identity@) {
        match delivery {
            Delivery::Unmatched => {
                let to = choose|to: PeerId| #[trigger]
                    hosting.is_target(destination, to@) && !pending.dom().contains(
                        (to@, message_id),
                    );
                lemma_one_target(hosting, destination, identity, to);
            },
            Delivery::OriginMismatch(expected) => {
                let to = choose|to: PeerId| #[trigger]
                    hosting.is_target(destination, to@) && pending.dom().contains((to@, message_id))
                        && pending[(to@, message_id)] == expected && authenticated != Some(expected);
                lemma_one_target(hosting, destination, identity, to);
            },
            Delivery::Response(to, _, _) => {
                lemma_one_target(hosting, destination, identity, to);
            },
            _ => {},
        }
    }
}

/// A transport of one identity serves it from the start and takes no other; a
/// shared one starts without any.
pub proof fn law_transports_serve_their_own(
    identity: Seq<u8>,
    user_agent: Seq<char>,
    other: PeerId,
    agent: Seq<char>,
)
    ensures
        ({
            let own = HostingView::initial(false, identity, user_agent);
            &&& own.hosted.dom() == set![identity]
            &&& own.hosted[identity] == user_agent
            &&& own.claimed
            &&& own.registering(other, agent) == (own, Err::<bool, _>(HostingFault::NotMultiplexed))
            &&& own.releasing(identity, true) == own
        }),
        ({
            let shared = HostingView::initial(true, identity, user_agent);
            &&& shared.hosted.dom() == Set::<Seq<u8>>::empty()
            &&& !shared.claimed
            &&& shared.multiplexed
        }),
{
    assert(HostingView::initial(false, identity, user_agent).hosted.dom() =~= set![identity]);
    assert(HostingView::initial(true, identity, user_agent).hosted.dom() =~= Set::<
        Seq<u8>,
    >::empty());
}

/// A shared transport registers an identity once. The first one looks after its
/// reachability, and another one does only after that one was let go. A release
/// undoes a registration.
pub proof fn law_one_identity_looks_after_reachability(
    hosting: HostingView,
    identity: PeerId,
    user_agent: Seq<char>,
    other: PeerId,
    agent: Seq<char>,
)
    requires
        hosting.multiplexed,
        !hosting.hosted.dom().contains(identity@),
        !hosting.hosted.dom().contains(other@),
        other != identity,
    ensures
        ({
            let (with_one, first) = hosting.registering(identity, user_agent);
            let (with_two, second) = with_one.registering(other, agent);
            &&& first == Ok::<bool, HostingFault>(!hosting.claimed)
            &&& second == Ok::<bool, HostingFault>(false)
            &&& with_one.hosted == hosting.hosted.insert(identity@, user_agent)
            &&& with_one.registering(identity, agent).1 == Err::<bool, _>(
                HostingFault::AlreadyRegistered(identity),
            )
            &&& with_one.registering(identity, agent).0.hosted == with_one.hosted
            &&& with_one.releasing(identity@, !hosting.claimed) == hosting
            &&& with_one.releasing(identity@, false).claimed
            &&& with_two.releasing(identity@, true).hosted.dom().contains(other@)
            &&& !with_two.releasing(identity@, true).claimed
        }),
{
    lemma_peer_is_its_bytes(identity, other);
    let with_one = hosting.registering(identity, user_agent).0;
    assert(with_one.releasing(identity@, !hosting.claimed).hosted =~= hosting.hosted);
}

/// What goes out and what comes in are counted apart: bytes on the wire, messages,
/// and the bytes that are no payload.
pub proof fn law_traffic_is_counted_by_direction(
    traffic: TrafficCounters,
    wire_len: u64,
    payload_len: u64,
)
    requires
        payload_len <= wire_len,
        traffic.wire_tx_bytes + wire_len <= u64::MAX,
        traffic.wire_rx_bytes + wire_len <= u64::MAX,
        traffic.overhead_tx_bytes + wire_len <= u64::MAX,
        traffic.overhead_rx_bytes + wire_len <= u64::MAX,
        traffic.identity_announce_tx_bytes + wire_len <= u64::MAX,
        traffic.wire_tx_count < u64::MAX,
        traffic.wire_rx_count < u64::MAX,
        traffic.identity_announce_tx_count < u64::MAX,
    ensures
        ({
            let sent = traffic.after_sent(wire_len, payload_len);
            &&& sent.wire_tx_bytes == traffic.wire_tx_bytes + wire_len
            &&& sent.wire_tx_count == traffic.wire_tx_count + 1
            &&& sent.overhead_tx_bytes + payload_len == traffic.overhead_tx_bytes + wire_len
            &&& sent == (TrafficCounters {
                wire_tx_bytes: sent.wire_tx_bytes,
                wire_tx_count: sent.wire_tx_count,
                overhead_tx_bytes: sent.overhead_tx_bytes,
                ..traffic
            })
        }),
        ({
            let received = traffic.after_received(wire_len, payload_len);
            &&& received.wire_rx_bytes == traffic.wire_rx_bytes + wire_len
            &&& received.wire_rx_count == traffic.wire_rx_count + 1
            &&& received.overhead_rx_bytes + payload_len == traffic.overhead_rx_bytes + wire_len
            &&& received == (TrafficCounters {
                wire_rx_bytes: received.wire_rx_bytes,
                wire_rx_count: received.wire_rx_count,
                overhead_rx_bytes: received.overhead_rx_bytes,
                ..traffic
            })
        }),
        ({
            let announced = traffic.after_announced(wire_len);
            &&& announced.wire_tx_bytes == traffic.wire_tx_bytes + wire_len
            &&& announced.wire_tx_count == traffic.wire_tx_count + 1
            &&& announced.identity_announce_tx_bytes == traffic.identity_announce_tx_bytes
                + wire_len
            &&& announced.identity_announce_tx_count == traffic.identity_announce_tx_count + 1
            &&& announced == (TrafficCounters {
                wire_tx_bytes: announced.wire_tx_bytes,
                wire_tx_count: announced.wire_tx_count,
                identity_announce_tx_bytes: announced.identity_announce_tx_bytes,
                identity_announce_tx_count: announced.identity_announce_tx_count,
                ..traffic
            })
        }),
{
}

/// What exceeds the payload is overhead, and a payload that does not fit on the
/// wire has none.
pub proof fn law_overhead_is_what_exceeds_the_payload(wire_len: u64, payload_len: u64)
    ensures
        wire_len >= payload_len ==> overhead(wire_len, payload_len) + payload_len == wire_len,
        wire_len < payload_len ==> overhead(wire_len, payload_len) == 0,
{
}

/// An announcement that was sent is counted and the next one follows. One that was
/// not is not counted, and only a closed connection ends the announcements.
pub proof fn law_announcements_end_with_the_connection(
    traffic: TrafficCounters,
    wire_len: u64,
    outcome: AnnounceOutcome,
)
    ensures
        outcome is Sent ==> announcement_noted(traffic, wire_len, outcome) == (
            traffic.after_announced(wire_len),
            true,
        ),
        !(outcome is Sent) ==> announcement_noted(traffic, wire_len, outcome).0 == traffic,
        announcement_noted(traffic, wire_len, outcome).1 <==> !(outcome is PeerNotFound),
{
}

/// The shards hold together at least what they are to hold, but for a remainder,
/// and each of them at least the minimum.
pub proof fn law_shards_share_the_capacity(total: nat)
    ensures
        shard_capacity(total) >= 16,
        total < 8 * 16 ==> shard_capacity(total) == 16,
        total >= 8 * 16 ==> 8 * shard_capacity(total) <= total < 8 * shard_capacity(total) + 8,
{
}

/// Every drop is counted. The first one and then every sixty-fourth after it are
/// worth a warning, which names the count with that drop.
pub proof fn law_drops_are_warned_of_now_and_then(drops: u64)
    requires
        drops < u64::MAX,
    ensures
        drop_noted(drops).0 == drops + 1,
        drop_noted(drops).1 is Some <==> exists|n: int| drops == #[trigger] (64 * n),
        drop_noted(drops).1 matches Some(count) ==> count == drops + 1,
{
    if drops % 64 == 0 {
        assert(drops == 64 * (drops as int / 64));
    }
    if exists|n: int| drops == #[trigger] (64 * n) {
        let n = choose|n: int| drops == #[trigger] (64 * n);
        assert((64 * n) % 64 == 0) by (nonlinear_arith);
    }
}

/// A message that proves its sender links that peer to the channel of the remote
/// end and makes it reached. The news come where the peer was reached nowhere, and
/// the transport is told whom the connection is with where that was not known.
pub proof fn law_signed_messages_prove_the_sender(
    registry: RegistryView,
    counts: Map<Seq<u8>, usize>,
    sender: PeerId,
    from: SocketAddr,
    user_agent: String,
    now: u64,
    other: Seq<u8>,
)
    requires
        other != sender@,
    ensures
        ({
            let (after, known, bind, event) = sender_noted(
                registry,
                counts,
                Some(sender),
                from,
                user_agent,
                now,
            );
            &&& after.linked(sender@, from.channel())
            &&& after.active.contains(from.channel())
            &&& after.info.dom().contains(from.channel())
            &&& after.linked(other, from.channel()) == registry.linked(other, from.channel())
            &&& known.dom().contains(other) == counts.dom().contains(other)
            &&& bind <==> !registry.linked(sender@, from.channel())
            &&& registry.linked(sender@, from.channel()) ==> event is None && known == counts
            &&& (forall|c: SocketAddr| !registry.linked(sender@, c)) && !counts.dom().contains(
                sender@,
            ) ==> event == Some(PeerEvent::Connected(sender, user_agent)) && known
                == counts.insert(sender@, 1)
            &&& counts.dom().contains(sender@) ==> event is None
        }),
        sender_noted(registry, counts, None, from, user_agent, now) == (
            registry,
            counts,
            false,
            None::<PeerEvent>,
        ),
{
    if registry.linked(sender@, from.channel()) {
        assert(registry.connected(sender@));
    }
    if forall|c: SocketAddr| !registry.linked(sender@, c) {
        assert(!registry.connected(sender@));
    }
}

/// A message shows whom its channel serves only where it is signed and its sender
/// is not served by this transport itself.
pub proof fn law_echoes_show_nothing(hosting: HostingView, message: ParsedMessage)
    ensures
        message.authenticated_node_id is None ==> remote_sender(hosting, message) is None,
        message.authenticated_node_id matches Some(sender) ==> (remote_sender(hosting, message)
            == Some(sender) <==> !hosting.hosted.dom().contains(sender@)),
        message.authenticated_node_id matches Some(sender) ==> (hosting.hosted.dom().contains(
            sender@,
        ) ==> remote_sender(hosting, message) is None),
{
}

/// Only a signed announcement teaches a shared endpoint, and only that of its own
/// sender.
pub proof fn law_endpoints_are_learned_from_their_owner(
    before: Map<Seq<u8>, (Seq<u8>, Seq<MultiAddr>)>,
    after: Map<Seq<u8>, (Seq<u8>, Seq<MultiAddr>)>,
    message: ParsedMessage,
    magic: Seq<u8>,
    from: SocketAddr,
    other: Seq<u8>,
)
    requires
        learned(before, after, message, magic, from),
    ensures
        message.authenticated_node_id is None ==> after == before,
        message.topic@ != IDENTITY_ANNOUNCE_PROTOCOL@ ==> after == before,
        (message.authenticated_node_id matches Some(sender) ==> other != sender@)
            ==> after.dom().contains(other) == before.dom().contains(other) && after[other]
            == before[other],
{
}

/// A connection that comes up makes its channel known and active, connected from
/// now, and reaches nobody yet; one that is lost or failed takes its channel with
/// it; another address of a peer changes nothing.
pub proof fn law_connections_bring_channels(
    registry: RegistryView,
    counts: Map<Seq<u8>, usize>,
    remote: SocketAddr,
    now: u64,
    peer: Seq<u8>,
)
    ensures
        ({
            let (up, kept) = connection_followed(
                registry,
                counts,
                ConnectionEvent::Established(remote),
                now,
            );
            &&& up.active.contains(remote.channel())
            &&& up.info.dom().contains(remote.channel())
            &&& up.info[remote.channel()].connected_at == now
            &&& up.links == registry.links
            &&& kept == counts
        }),
        ({
            let (down, left) = connection_followed(
                registry,
                counts,
                ConnectionEvent::Lost(remote),
                now,
            );
            &&& !down.active.contains(remote.channel())
            &&& !down.info.dom().contains(remote.channel())
            &&& !down.linked(peer, remote.channel())
            &&& registry.depends_on(peer, remote.channel()) && counts.dom().contains(peer)
                && counts[peer] == 1 ==> !left.dom().contains(peer)
            &&& !registry.linked(peer, remote.channel()) && counts.dom().contains(peer)
                ==> left.dom().contains(peer) && left[peer] == counts[peer]
        }),
        connection_followed(registry, counts, ConnectionEvent::Failed(remote), now)
            == connection_followed(registry, counts, ConnectionEvent::Lost(remote), now),
        connection_followed(registry, counts, ConnectionEvent::PeerAddressUpdated, now) == (
            registry,
            counts,
        ),
{
}

/// Of the announcements exactly those that could be made go out, in order.
pub proof fn law_announcements_go_out_as_made(created: Seq<Result<Vec<u8>, WireFault>>)
    ensures
        made(created).len() <= created.len(),
        (forall|i: int| 0 <= i < created.len() ==> (#[trigger] created[i]) is Err) ==> made(
            created,
        ).len() == 0,
        (forall|i: int| 0 <= i < created.len() ==> (#[trigger] created[i]) is Ok) ==> made(
            created,
        ).len() == created.len() && forall|i: int|
            0 <= i < created.len() ==> Ok::<Vec<u8>, WireFault>(#[trigger] made(created)[i])
                == created[i],
        forall|i: int|
            0 <= i < created.len() ==> (#[trigger] created[i] matches Ok(bytes) ==> made(
                created,
            ).contains(bytes)),
        forall|n: int|
            0 <= n < made(created).len() ==> created.contains(
                Ok::<Vec<u8>, WireFault>(#[trigger] made(created)[n]),
            ),
    decreases created.len(),
{
    if created.len() > 0 {
        let rest = created.drop_last();
        law_announcements_go_out_as_made(rest);
        let all = made(created);
        let before = made(rest);
        assert forall|i: int| 0 <= i < rest.len() implies #[trigger] rest[i] == created[i] by {}
        if forall|i: int| 0 <= i < created.len() ==> (#[trigger] created[i]) is Err {
            assert forall|i: int| 0 <= i < rest.len() implies (#[trigger] rest[i]) is Err by {
                assert(created[i] is Err);
            }
            assert(created[created.len() - 1] is Err);
        }
        if forall|i: int| 0 <= i < created.len() ==> (#[trigger] created[i]) is Ok {
            assert forall|i: int| 0 <= i < rest.len() implies (#[trigger] rest[i]) is Ok by {
                assert(created[i] is Ok);
            }
            assert(created[created.len() - 1] is Ok);
            assert forall|i: int| 0 <= i < created.len() implies Ok::<Vec<u8>, WireFault>(
                #[trigger] all[i],
            ) == created[i] by {
                if i < rest.len() {
                    assert(all[i] == before[i]);
                    assert(Ok::<Vec<u8>, WireFault>(before[i]) == rest[i]);
                }
            }
        }
        assert forall|i: int| 0 <= i < created.len() implies (#[trigger] created[i] matches Ok(
            bytes,
        ) ==> all.contains(bytes)) by {
            if let Ok(bytes) = created[i] {
                if i < rest.len() {
                    assert(rest[i] == created[i]);
                    assert(before.contains(bytes));
                    let n = before.index_of(bytes);
                    assert(all[n] == bytes);
                } else {
                    assert(all[all.len() - 1] == bytes);
                }
            }
        }
        assert forall|n: int| 0 <= n < all.len() implies created.contains(
            Ok::<Vec<u8>, WireFault>(#[trigger] all[n]),
        ) by {
            if n < before.len() {
                assert(before[n] == all[n]);
                let i = rest.index_of(Ok::<Vec<u8>, WireFault>(before[n]));
                assert(created[i] == Ok::<Vec<u8>, WireFault>(all[n]));
            } else {
                assert(created[created.len() - 1] == Ok::<Vec<u8>, WireFault>(all[n]));
            }
        }
    }
}

/// A request is opened exactly where its protocol has a valid name and fewer
/// requests wait than are allowed; a name that is not valid is told first.
pub proof fn law_requests_are_bounded(protocol: Seq<char>, waiting: nat, max: usize)
    ensures
        opening_fault(protocol, waiting, max) is None <==> valid_protocol_name(protocol) && waiting
            < max,
        !valid_protocol_name(protocol) ==> opening_fault(protocol, waiting, max) == Some(
            RequestFault::InvalidProtocol,
        ),
        valid_protocol_name(protocol) && waiting >= max ==> opening_fault(protocol, waiting, max)
            == Some(RequestFault::TooManyRequests),
        opening_fault(protocol, waiting, 0) is Some,
{
}

/// The name of a protocol is valid where it is neither empty nor holds a slash,
/// a backslash or a null.
pub proof fn law_protocol_names_are_plain(protocol: Seq<char>)
    ensures
        valid_protocol_name(protocol) <==> protocol.len() > 0 && !protocol.contains('/')
            && !protocol.contains('\\') && !protocol.contains('\0'),
{
}

/// The requests of one identity are those under its own name; a new one is one
/// more, and those of another identity stay.
pub proof fn law_requests_are_counted_per_identity(
    pending: Map<(Seq<u8>, Seq<char>), PeerId>,
    identity: Seq<u8>,
    other: Seq<u8>,
    message_id: Seq<char>,
    peer: PeerId,
)
    requires
        requests_of(pending, identity).finite(),
        !pending.dom().contains((identity, message_id)),
        other != identity,
    ensures
        ({
            let after = pending.insert((identity, message_id), peer);
            &&& requests_of(after, identity).len() == requests_of(pending, identity).len() + 1
            &&& requests_of(after, other) == requests_of(pending, other)
            &&& requests_of(pending, identity).contains((other, message_id)) == false
        }),
{
    let after = pending.insert((identity, message_id), peer);
    assert(requests_of(after, identity) =~= requests_of(pending, identity).insert(
        (identity, message_id),
    ));
    assert(requests_of(after, other) =~= requests_of(pending, other));
}

/// A request that was answered hands over the answer with its peer and its time;
/// one that was not tells whether the peer hung up or the time was up.
pub proof fn law_requests_end_with_their_answer(
    peer: PeerId,
    data: Vec<u8>,
    latency: u64,
    millis: u64,
)
    ensures
        closing(peer, Answer::Response(data, latency)) matches Ok(response) && response.peer_id
            == peer && response.data == data && response.latency_millis == latency,
        closing(peer, Answer::Dropped) matches Err(RequestFault::ConnectionClosed(gone)) && gone
            == peer,
        closing(peer, Answer::TimedOut(millis)) matches Err(RequestFault::Timeout(after)) && after
            == millis,
{
}

/// A request waits as long as it asked for, but no longer than is allowed.
pub proof fn law_timeouts_are_capped(asked: u64, max: u64)
    ensures
        capped_timeout(asked, max) <= asked,
        capped_timeout(asked, max) <= max,
        capped_timeout(asked, max) == asked || capped_timeout(asked, max) == max,
{
}

/// A text begins with a prefix exactly where it is the prefix with something
/// behind it.
pub proof fn law_prefixes_stand_first(prefix: Seq<char>, rest: Seq<char>, text: Seq<char>)
    ensures
        begins_with(prefix + rest, prefix),
        begins_with(text, prefix) ==> text == prefix + text.skip(prefix.len() as int),
        text.len() < prefix.len() ==> !begins_with(text, prefix),
{
    assert((prefix + rest).take(prefix.len() as int) =~= prefix);
    if begins_with(text, prefix) {
        assert(text =~= prefix + text.skip(prefix.len() as int));
    }
}

/// An announcement is of its identity alone, to nobody in particular, on the
/// protocol of announcements, with the shared endpoint as its data. Without a
/// clock none is made.
pub proof fn law_announcements_are_of_one_identity(
    who: AnnouncedIdentity,
    capability: Option<&MultiplexCapability>,
    magic: Seq<u8>,
    seconds: u64,
    cause: String,
    created: Result<Vec<u8>, WireFault>,
)
    ensures
        ({
            let statement = announcement(who, capability, magic, seconds);
            &&& statement.from == who.identity.owner()@
            &&& statement.to is None
            &&& statement.protocol == IDENTITY_ANNOUNCE_PROTOCOL@
            &&& statement.user_agent == who.user_agent@
            &&& statement.timestamp == seconds
            &&& statement.data == announcement_data(capability_view(capability), magic)
        }),
        announces(who, capability, magic, Err(cause), created) <==> created == Err::<
            Vec<u8>,
            WireFault,
        >(WireFault::Clock(cause)),
        announces(who, capability, magic, Ok(seconds), created) ==> match created {
            Ok(bytes) => announcement(who, capability, magic, seconds).vouched(
                Seq::empty(),
                who.identity.public(),
                bytes@,
            ),
            Err(fault) => fault is Signing,
        },
{
}

/// The data of an announcement names a shared endpoint only where it begins with
/// the mark and the rest can be read; the daemon and the addresses are then those
/// that it carries.
pub proof fn law_endpoints_are_read_behind_the_mark(
    data: Seq<u8>,
    magic: Seq<u8>,
    daemon: Seq<u8>,
    listed: Seq<MultiAddr>,
    remote: IpAddr,
    addresses: Seq<MultiAddr>,
)
    ensures
        announced(data, magic, daemon, listed) ==> {
            &&& data.len() >= magic.len()
            &&& data.take(magic.len() as int) == magic
            &&& capability_decoding(data.skip(magic.len() as int)) matches Some(read) && read.0
                == daemon && read_addresses(read.1) == listed
        },
        data.len() < magic.len() ==> !announced(data, magic, daemon, listed),
        names_endpoint(data, magic, remote, daemon, addresses) ==> addresses.len() <= 4,
        names_endpoint(data, magic, remote, daemon, addresses) && announced(
            data,
            magic,
            daemon,
            listed,
        ) ==> addresses == crate::transport::wire::kept_addresses(listed, remote),
{
}

/// A shared endpoint that is learned is the one that the announcement names, as it
/// is reached from here, with at least one address; an announcement whose addresses
/// are reached nowhere teaches nothing.
pub proof fn law_learned_endpoints_are_named(
    before: Map<Seq<u8>, (Seq<u8>, Seq<MultiAddr>)>,
    after: Map<Seq<u8>, (Seq<u8>, Seq<MultiAddr>)>,
    message: ParsedMessage,
    magic: Seq<u8>,
    from: SocketAddr,
    sender: PeerId,
    daemon: Seq<u8>,
    listed: Seq<MultiAddr>,
)
    requires
        learned(before, after, message, magic, from),
        message.authenticated_node_id == Some(sender),
        message.topic@ == IDENTITY_ANNOUNCE_PROTOCOL@,
    ensures
        after != before ==> after.dom().contains(sender@) && after[sender@].1.len() > 0
            && names_endpoint(
            message.data@,
            magic,
            from.ip,
            after[sender@].0,
            after[sender@].1,
        ),
        announced(message.data@, magic, daemon, listed)
            && crate::transport::wire::kept_addresses(listed, from.ip).len() > 0
            ==> after.dom().contains(sender@) && after[sender@].0 == daemon && after[sender@].1
            == crate::transport::wire::kept_addresses(listed, from.ip),
{
}

} // verus!
