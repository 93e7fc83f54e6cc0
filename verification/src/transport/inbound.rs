//! What becomes of a message that came in: who sent it, whom it is for, and
//! which waiting request it answers.

use crate::concurrent::PeerTexts;
use crate::keys::same_key;
use crate::peer_id::PeerId;
use crate::transport::maps::{
    get_request, insert_request, new_requests, remove_request, request_entries, request_keys,
    request_views, RequestKey,
};
use crate::transport::registry::lemma_push_contains;
use crate::transport::wire::{
    parse_request_envelope, RequestFault, IDENTITY_ANNOUNCE_PROTOCOL, REQUEST_PREFIX,
};
use dashmap::DashMap;
use vstd::prelude::*;
use vstd::string::*;

verus! {

/// Counts of what went over the wire since the process started.
#[derive(Debug, Clone, Copy, PartialEq, Eq, Structural)]
pub struct TrafficCounters {
    /// Bytes sent.
    pub wire_tx_bytes: u64,
    /// Messages sent.
    pub wire_tx_count: u64,
    /// Bytes sent beyond the payloads.
    pub overhead_tx_bytes: u64,
    /// Bytes received and understood.
    pub wire_rx_bytes: u64,
    /// Messages received and understood.
    pub wire_rx_count: u64,
    /// Bytes received beyond the payloads.
    pub overhead_rx_bytes: u64,
    /// Bytes of identity announcements sent.
    pub identity_announce_tx_bytes: u64,
    /// Identity announcements sent.
    pub identity_announce_tx_count: u64,
}

/// What a message costs beyond its payload.
pub open spec fn overhead(wire_len: u64, payload_len: u64) -> u64 {
    if wire_len >= payload_len {
        (wire_len - payload_len) as u64
    } else {
        0
    }
}

fn overhead_of(wire_len: u64, payload_len: u64) -> (bytes: u64)
    ensures
        bytes == overhead(wire_len, payload_len),
{
    if wire_len >= payload_len {
        wire_len - payload_len
    } else {
        0
    }
}

impl TrafficCounters {
    /// Nothing went over the wire.
    pub fn new() -> (counters: Self)
        ensures
            counters == (TrafficCounters {
                wire_tx_bytes: 0,
                wire_tx_count: 0,
                overhead_tx_bytes: 0,
                wire_rx_bytes: 0,
                wire_rx_count: 0,
                overhead_rx_bytes: 0,
                identity_announce_tx_bytes: 0,
                identity_announce_tx_count: 0,
            }),
    {
        TrafficCounters {
            wire_tx_bytes: 0,
            wire_tx_count: 0,
            overhead_tx_bytes: 0,
            wire_rx_bytes: 0,
            wire_rx_count: 0,
            overhead_rx_bytes: 0,
            identity_announce_tx_bytes: 0,
            identity_announce_tx_count: 0,
        }
    }

    /// The counts after a message was sent. They start over once they are full.
    pub open spec fn after_sent(self, wire_len: u64, payload_len: u64) -> TrafficCounters {
        TrafficCounters {
            wire_tx_bytes: self.wire_tx_bytes.wrapping_add(wire_len),
            wire_tx_count: self.wire_tx_count.wrapping_add(1),
            overhead_tx_bytes: self.overhead_tx_bytes.wrapping_add(overhead(wire_len, payload_len)),
            ..self
        }
    }

    /// The counts after a message was received and understood.
    pub open spec fn after_received(self, wire_len: u64, payload_len: u64) -> TrafficCounters {
        TrafficCounters {
            wire_rx_bytes: self.wire_rx_bytes.wrapping_add(wire_len),
            wire_rx_count: self.wire_rx_count.wrapping_add(1),
            overhead_rx_bytes: self.overhead_rx_bytes.wrapping_add(overhead(wire_len, payload_len)),
            ..self
        }
    }

    /// The counts after an identity was announced, which counts as a message
    /// too.
    pub open spec fn after_announced(self, wire_len: u64) -> TrafficCounters {
        TrafficCounters {
            wire_tx_bytes: self.wire_tx_bytes.wrapping_add(wire_len),
            wire_tx_count: self.wire_tx_count.wrapping_add(1),
            identity_announce_tx_bytes: self.identity_announce_tx_bytes.wrapping_add(wire_len),
            identity_announce_tx_count: self.identity_announce_tx_count.wrapping_add(1),
            ..self
        }
    }

    /// Count a message that was sent.
    pub fn count_sent(&mut self, wire_len: u64, payload_len: u64)
        ensures
            *final(self) == old(self).after_sent(wire_len, payload_len),
    {
        self.wire_tx_bytes = self.wire_tx_bytes.wrapping_add(wire_len);
        self.wire_tx_count = self.wire_tx_count.wrapping_add(1);
        self.overhead_tx_bytes =
        self.overhead_tx_bytes.wrapping_add(overhead_of(wire_len, payload_len));
    }

    /// Count a message that was received and understood.
    pub fn count_received(&mut self, wire_len: u64, payload_len: u64)
        ensures
            *final(self) == old(self).after_received(wire_len, payload_len),
    {
        self.wire_rx_bytes = self.wire_rx_bytes.wrapping_add(wire_len);
        self.wire_rx_count = self.wire_rx_count.wrapping_add(1);
        self.overhead_rx_bytes =
        self.overhead_rx_bytes.wrapping_add(overhead_of(wire_len, payload_len));
    }

    /// Count an identity announcement that was sent.
    pub fn count_announced(&mut self, wire_len: u64)
        ensures
            *final(self) == old(self).after_announced(wire_len),
    {
        self.identity_announce_tx_bytes = self.identity_announce_tx_bytes.wrapping_add(wire_len);
        self.identity_announce_tx_count = self.identity_announce_tx_count.wrapping_add(1);
        self.wire_tx_bytes = self.wire_tx_bytes.wrapping_add(wire_len);
        self.wire_tx_count = self.wire_tx_count.wrapping_add(1);
    }
}

/// Requests that wait for an answer, and from whom. An identity that is served
/// by two transports may be answered over either.
pub struct PendingRequests {
    pending: DashMap<RequestKey, PeerId>,
}

impl View for PendingRequests {
    type V = Map<(Seq<u8>, Seq<char>), PeerId>;

    closed spec fn view(&self) -> Map<(Seq<u8>, Seq<char>), PeerId> {
        request_entries(self.pending)
    }
}

/// The requests of one identity.
pub open spec fn requests_of(
    pending: Map<(Seq<u8>, Seq<char>), PeerId>,
    identity: Seq<u8>,
) -> Set<(Seq<u8>, Seq<char>)> {
    pending.dom().filter(|key: (Seq<u8>, Seq<char>)| key.0 == identity)
}

impl PendingRequests {
    /// Nothing was asked.
    pub fn new() -> (pending: Self)
        ensures
            pending@ == Map::<(Seq<u8>, Seq<char>), PeerId>::empty(),
    {
        PendingRequests { pending: new_requests() }
    }

    /// Get how many requests of an identity wait.
    pub fn count(&self, identity: &PeerId) -> (count: usize)
        ensures
            requests_of(self@, identity@).finite(),
            count == requests_of(self@, identity@).len(),
    {
        let keys = request_keys(&self.pending);
        let total: usize = keys.len();
        let ghost order = request_views(keys@);
        let ghost own = |key: (Seq<u8>, Seq<char>)| key.0 == identity@;
        let mut count: usize = 0;
        let mut index: usize = 0;
        proof {
            assert(forall|i: int| 0 <= i < keys@.len() ==> order[i] == ((#[trigger] keys@[i]).0@, keys@[i].1@));
            assert(order.take(0).to_set().filter(own) =~= Set::empty());
        }
        while index < total
            invariant
                index <= total,
                total == keys@.len(),
                total == order.len(),
                order.no_duplicates(),
                own == (|key: (Seq<u8>, Seq<char>)| key.0 == identity@),
                forall|i: int| 0 <= i < keys@.len() ==> order[i] == ((#[trigger] keys@[i]).0@, keys@[i].1@),
                count <= index,
                order.take(index as int).to_set().filter(own).finite(),
                count == order.take(index as int).to_set().filter(own).len(),
            decreases total - index,
        {
            proof {
                let done = order.take(index as int).to_set().filter(own);
                let next = order.take(index as int + 1).to_set().filter(own);
                let key = order[index as int];
                assert(key == (keys@[index as int].0@, keys@[index as int].1@));
                assert(order.take(index as int + 1) =~= order.take(index as int).push(key));
                assert(!order.take(index as int).contains(key)) by {
                    if order.take(index as int).contains(key) {
                        let i = order.take(index as int).index_of(key);
                        assert(order[i] == order[index as int]);
                    }
                }
                assert forall|k: (Seq<u8>, Seq<char>)| #[trigger] next.contains(k) == (
                done.contains(k) || (k == key && own(key))) by {
                    lemma_push_contains(order.take(index as int), key, k);
                }
                if own(key) {
                    assert(next =~= done.insert(key));
                } else {
                    assert(next =~= done);
                }
            }
            if same_key(&keys[index].0, identity.as_bytes()) {
                count += 1;
            }
            index += 1;
        }
        proof {
            assert(order.take(total as int) =~= order);
            assert(order.to_set().filter(own) =~= requests_of(self@, identity@));
        }
        count
    }

    /// The peer that a request was put to, where it waits.
    pub fn expected_peer(&self, identity: &PeerId, message_id: &String) -> (peer: Option<PeerId>)
        ensures
            peer == if self@.dom().contains((identity@, message_id@)) {
                Some(self@[(identity@, message_id@)])
            } else {
                None
            },
    {
        get_request(&self.pending, &(*identity.as_bytes(), message_id.clone()))
    }

    /// Start waiting for the answer to a request, unless as many requests as
    /// are allowed wait already.
    pub fn begin_request(
        &mut self,
        identity: &PeerId,
        message_id: String,
        expected_peer: PeerId,
        max_active_requests: usize,
    ) -> (begun: Result<(), RequestFault>)
        ensures
            begun matches Err(fault) ==> fault is TooManyRequests,
            begun is Err <==> requests_of(old(self)@, identity@).len() >= max_active_requests,
            final(self)@ == if begun is Ok {
                old(self)@.insert((identity@, message_id@), expected_peer)
            } else {
                old(self)@
            },
    {
        if self.count(identity) >= max_active_requests {
            return Err(RequestFault::TooManyRequests);
        }
        insert_request(&mut self.pending, (*identity.as_bytes(), message_id), expected_peer);
        Ok(())
    }

    /// Stop waiting for the answer to a request.
    pub fn finish_request(&mut self, identity: &PeerId, message_id: &String)
        ensures
            final(self)@ == old(self)@.remove((identity@, message_id@)),
    {
        remove_request(&mut self.pending, &(*identity.as_bytes(), message_id.clone()));
    }
}

/// The identities that a transport serves.
#[verifier::ext_equal]
pub struct HostingView {
    /// Whether the transport is shared by several identities.
    pub multiplexed: bool,
    /// The software that each identity names.
    pub hosted: Map<Seq<u8>, Seq<char>>,
    /// Whether one of them looks after the reachability of the transport.
    pub claimed: bool,
}

/// Why an identity could not be added to a transport.
#[derive(Debug, Clone, Copy, PartialEq, Eq)]
pub enum HostingFault {
    /// The transport serves one identity only.
    NotMultiplexed,
    /// The transport serves the identity already.
    AlreadyRegistered(PeerId),
}

impl HostingFault {
    /// The fault in words.
    pub open spec fn text(self) -> Seq<char> {
        match self {
            HostingFault::NotMultiplexed => "logical identities require a multiplexed transport"@,
            HostingFault::AlreadyRegistered(peer) => "logical identity "@ + crate::text::hex(peer@)
                + " is already registered"@,
        }
    }

    /// The fault in words.
    pub fn message(&self) -> (message: String)
        ensures
            message@ == self.text(),
    {
        match self {
            HostingFault::NotMultiplexed => {
                "logical identities require a multiplexed transport".to_owned()
            },
            HostingFault::AlreadyRegistered(peer) => {
                let mut message = "logical identity ".to_owned();
                message.append(peer.to_hex().as_str());
                message.append(" is already registered");
                message
            },
        }
    }
}

/// What becomes of a message.
#[derive(Debug, Clone, PartialEq, Eq)]
pub enum Delivery {
    /// It announced an identity: nobody else is to see it.
    Announcement,
    /// It answers a request, but it is not clear whose.
    Unaddressed,
    /// It answers no request that waits.
    Unmatched,
    /// It answers a request, but not from the peer that was asked.
    OriginMismatch(PeerId),
    /// It answers a request of an identity: the payload goes to whoever waits.
    Response(PeerId, String, Vec<u8>),
    /// It goes to the followers of an identity.
    Event(PeerId),
    /// It is for no identity that is served here, or it is not clear for which.
    Dropped,
}

/// The identities that a transport serves.
pub struct HostedIdentities {
    multiplexed: bool,
    hosted: PeerTexts,
    claimed: bool,
}

impl View for HostedIdentities {
    type V = HostingView;

    closed spec fn view(&self) -> HostingView {
        HostingView {
            multiplexed: self.multiplexed,
            hosted: self.hosted@,
            claimed: self.claimed,
        }
    }
}

/// Whether a text begins with another.
pub open spec fn begins_with(text: Seq<char>, prefix: Seq<char>) -> bool {
    text.len() >= prefix.len() && text.take(prefix.len() as int) == prefix
}

fn starts_with(text: &str, prefix: &str) -> (found: bool)
    ensures
        found == begins_with(text@, prefix@),
{
    let count: usize = prefix.unicode_len();
    if text.unicode_len() < count {
        return false;
    }
    let mut index: usize = 0;
    while index < count
        invariant
            index <= count,
            count == prefix@.len(),
            count <= text@.len(),
            forall|i: int| 0 <= i < index ==> text@[i] == prefix@[i],
        decreases count - index,
    {
        if text.get_char(index) != prefix.get_char(index) {
            assert(text@.take(count as int)[index as int] != prefix@[index as int]);
            return false;
        }
        index += 1;
    }
    assert(text@.take(count as int) =~= prefix@);
    true
}

impl HostingView {
    /// Whether a peer is the one identity that messages without a receiver are
    /// for, or the receiver that a message names.
    pub open spec fn is_target(self, destination: Option<Seq<u8>>, identity: Seq<u8>) -> bool {
        self.hosted.dom().contains(identity) && match destination {
            Some(peer) => identity == peer,
            None => self.hosted.dom().finite() && self.hosted.dom().len() == 1,
        }
    }

    /// Whether a message answers a request, and with what.
    pub open spec fn answer(self, topic: Seq<char>, data: Seq<u8>) -> Option<(Seq<char>, Seq<u8>)> {
        if begins_with(topic, REQUEST_PREFIX@) {
            match crate::codec::envelope_decoding(data) {
                Some((message_id, is_response, payload)) => if is_response {
                    Some((message_id, payload))
                } else {
                    None
                },
                None => None,
            }
        } else {
            None
        }
    }

    /// Whether this is what becomes of a message, where these requests wait.
    pub open spec fn delivers(
        self,
        pending: Map<(Seq<u8>, Seq<char>), PeerId>,
        topic: Seq<char>,
        data: Seq<u8>,
        authenticated: Option<PeerId>,
        destination: Option<Seq<u8>>,
        delivery: Delivery,
    ) -> bool {
        if topic == IDENTITY_ANNOUNCE_PROTOCOL@ {
            delivery is Announcement
        } else {
            match self.answer(topic, data) {
                Some((message_id, payload)) => self.answers(
                    pending,
                    message_id,
                    payload,
                    authenticated,
                    destination,
                    delivery,
                ),
                None => match delivery {
                    Delivery::Event(identity) => self.is_target(destination, identity@),
                    Delivery::Dropped => forall|identity: PeerId|
                        !#[trigger] self.is_target(destination, identity@),
                    _ => false,
                },
            }
        }
    }

    /// Whether this is what becomes of an answer, where these requests wait.
    pub open spec fn answers(
        self,
        pending: Map<(Seq<u8>, Seq<char>), PeerId>,
        message_id: Seq<char>,
        payload: Seq<u8>,
        authenticated: Option<PeerId>,
        destination: Option<Seq<u8>>,
        delivery: Delivery,
    ) -> bool {
        match delivery {
            Delivery::Unaddressed => forall|identity: PeerId|
                !#[trigger] self.is_target(destination, identity@),
            Delivery::Unmatched => exists|identity: PeerId| #[trigger]
                self.is_target(destination, identity@) && !pending.dom().contains(
                    (identity@, message_id),
                ),
            Delivery::OriginMismatch(expected) => exists|identity: PeerId| #[trigger]
                self.is_target(destination, identity@) && pending.dom().contains(
                    (identity@, message_id),
                ) && pending[(identity@, message_id)] == expected && authenticated != Some(expected),
            Delivery::Response(identity, id, bytes) => self.is_target(destination, identity@) && id@
                == message_id && bytes@ == payload && pending.dom().contains(
                (identity@, message_id),
            ) && authenticated == Some(pending[(identity@, message_id)]),
            _ => false,
        }
    }
}

/// The requests that wait once a message was delivered: one that was answered
/// waits no more.
pub open spec fn after_delivery(
    pending: Map<(Seq<u8>, Seq<char>), PeerId>,
    delivery: Delivery,
) -> Map<(Seq<u8>, Seq<char>), PeerId> {
    match delivery {
        Delivery::Response(identity, id, _) => pending.remove((identity@, id@)),
        _ => pending,
    }
}

/// The bytes of a peer, where there is one.
pub open spec fn peer_bytes(peer: Option<PeerId>) -> Option<Seq<u8>> {
    match peer {
        Some(p) => Some(p@),
        None => None,
    }
}

impl HostingView {
    /// What a transport serves at first.
    pub open spec fn initial(
        multiplexed: bool,
        identity: Seq<u8>,
        user_agent: Seq<char>,
    ) -> HostingView {
        HostingView {
            multiplexed,
            hosted: if multiplexed {
                Map::empty()
            } else {
                Map::empty().insert(identity, user_agent)
            },
            claimed: !multiplexed,
        }
    }

    /// What is served once it was tried to register an identity, and whether the
    /// identity looks after the reachability of the transport.
    pub open spec fn registering(self, identity: PeerId, user_agent: Seq<char>) -> (
        HostingView,
        Result<bool, HostingFault>,
    ) {
        if !self.multiplexed {
            (self, Err(HostingFault::NotMultiplexed))
        } else if self.hosted.dom().contains(identity@) {
            (
                HostingView { claimed: true, ..self },
                Err(HostingFault::AlreadyRegistered(identity)),
            )
        } else {
            (
                HostingView {
                    hosted: self.hosted.insert(identity@, user_agent),
                    claimed: true,
                    ..self
                },
                Ok(!self.claimed),
            )
        }
    }

    /// What is served once an identity was let go.
    pub open spec fn releasing(
        self,
        identity: Seq<u8>,
        runs_reachability_driver: bool,
    ) -> HostingView {
        if self.multiplexed {
            HostingView {
                hosted: self.hosted.remove(identity),
                claimed: self.claimed && !runs_reachability_driver,
                ..self
            }
        } else {
            self
        }
    }
}

impl HostedIdentities {
    /// A transport of one identity serves that identity, which looks after its
    /// reachability. A shared transport starts without any.
    pub fn new(multiplexed: bool, identity: PeerId, user_agent: String) -> (hosting: Self)
        ensures
            hosting@ == HostingView::initial(multiplexed, identity@, user_agent@),
    {
        let ghost agent = user_agent@;
        let mut hosted = PeerTexts::new();
        if !multiplexed {
            hosted.insert(&identity, user_agent);
        }
        let hosting = HostedIdentities { multiplexed, hosted, claimed: !multiplexed };
        proof {
            let expected: Map<Seq<u8>, Seq<char>> = if multiplexed {
                Map::empty()
            } else {
                Map::empty().insert(identity@, agent)
            };
            assert(hosting@.hosted =~= expected);
        }
        hosting
    }

    /// Whether an identity is served.
    pub fn is_hosted(&self, identity: &PeerId) -> (hosted: bool)
        ensures
            hosted == self@.hosted.dom().contains(identity@),
    {
        self.hosted.contains(identity)
    }

    /// Register an identity on a shared transport. Says whether the identity
    /// looks after the reachability of the transport.
    pub fn logical_handle(&mut self, identity: PeerId, user_agent: String) -> (registered: Result<
        bool,
        HostingFault,
    >)
        ensures
            (final(self)@, registered) == old(self)@.registering(identity, user_agent@),
    {
        let ghost before = self@;
        if !self.multiplexed {
            return Err(HostingFault::NotMultiplexed);
        }
        let runs_reachability_driver = !self.claimed;
        self.claimed = true;
        if self.hosted.contains(&identity) {
            return Err(HostingFault::AlreadyRegistered(identity));
        }
        let ghost agent = user_agent@;
        self.hosted.insert(&identity, user_agent);
        assert(self@.hosted =~= before.hosted.insert(identity@, agent));
        Ok(runs_reachability_driver)
    }

    /// Let go of an identity, which gives up the reachability of a shared
    /// transport where it looked after it.
    pub fn release(&mut self, identity: &PeerId, runs_reachability_driver: bool)
        ensures
            final(self)@ == old(self)@.releasing(identity@, runs_reachability_driver),
    {
        let ghost before = self@;
        if self.multiplexed {
            self.hosted.remove(identity);
            if runs_reachability_driver {
                self.claimed = false;
            }
            assert(self@.hosted =~= before.hosted.remove(identity@));
        }
    }

    /// The identity that a message is for: the one it names, where it is
    /// served, or the only one that is served.
    pub fn target(&self, destination: &Option<PeerId>) -> (identity: Option<PeerId>)
        ensures
            match identity {
                Some(peer) => self@.is_target(peer_bytes(*destination), peer@),
                None => forall|peer: PeerId|
                    !#[trigger] self@.is_target(peer_bytes(*destination), peer@),
            },
    {
        match destination {
            Some(peer) => if self.hosted.contains(peer) {
                Some(*peer)
            } else {
                None
            },
            None => self.hosted.only_peer(),
        }
    }

    /// Decide what becomes of a message, and note the answer to a request as
    /// given.
    ///
    /// An answer counts only from the peer that was asked, whatever channel it
    /// came over; one from elsewhere leaves the request waiting.
    pub fn route_message(
        &self,
        pending: &mut PendingRequests,
        topic: &String,
        data: &[u8],
        authenticated: &Option<PeerId>,
        destination: &Option<PeerId>,
    ) -> (delivery: Delivery)
        ensures
            self@.delivers(
                old(pending)@,
                topic@,
                data@,
                *authenticated,
                peer_bytes(*destination),
                delivery,
            ),
            final(pending)@ == after_delivery(old(pending)@, delivery),
    {
        if *topic == IDENTITY_ANNOUNCE_PROTOCOL.to_owned() {
            return Delivery::Announcement;
        }
        if starts_with(topic.as_str(), REQUEST_PREFIX) {
            if let Some((message_id, is_response, payload)) = parse_request_envelope(data) {
                if is_response {
                    return self.route_response(
                        pending,
                        message_id,
                        payload,
                        authenticated,
                        destination,
                    );
                }
            }
        }
        match self.target(destination) {
            Some(identity) => Delivery::Event(identity),
            None => Delivery::Dropped,
        }
    }

    /// Decide what becomes of an answer, and note the request as answered.
    pub fn route_response(
        &self,
        pending: &mut PendingRequests,
        message_id: String,
        payload: Vec<u8>,
        authenticated: &Option<PeerId>,
        destination: &Option<PeerId>,
    ) -> (delivery: Delivery)
        ensures
            self@.answers(
                old(pending)@,
                message_id@,
                payload@,
                *authenticated,
                peer_bytes(*destination),
                delivery,
            ),
            final(pending)@ == after_delivery(old(pending)@, delivery),
    {
        let identity = match self.target(destination) {
            Some(identity) => identity,
            None => {
                return Delivery::Unaddressed;
            },
        };
        let expected = match pending.expected_peer(&identity, &message_id) {
            Some(peer) => peer,
            None => {
                return Delivery::Unmatched;
            },
        };
        let from_expected = match authenticated {
            Some(peer) => peer.is(&expected),
            None => false,
        };
        if !from_expected {
            return Delivery::OriginMismatch(expected);
        }
        pending.finish_request(&identity, &message_id);
        Delivery::Response(identity, message_id, payload)
    }
}

} // verus!
