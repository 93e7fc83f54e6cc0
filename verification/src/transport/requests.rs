//! Requests that wait for an answer.

use crate::codec::{envelope_decoding, envelope_encoding};
use crate::peer_id::PeerId;
use crate::transport::inbound::{
    after_delivery, requests_of, Delivery, HostingView, PendingRequests,
};
use crate::transport::wire::{
    frame_envelope, valid_protocol_name, validate_protocol_name, RequestFault, REQUEST_PREFIX,
};
use vstd::prelude::*;

verus! {

/// Timeout of a request, which is capped.
pub open spec fn capped_timeout(asked_millis: u64, max_millis: u64) -> u64 {
    if asked_millis <= max_millis {
        asked_millis
    } else {
        max_millis
    }
}

/// Why a request is not opened, where so many wait already.
pub open spec fn opening_fault(
    protocol: Seq<char>,
    waiting: nat,
    max_active_requests: usize,
) -> Option<RequestFault> {
    if !valid_protocol_name(protocol) {
        Some(RequestFault::InvalidProtocol)
    } else if waiting >= max_active_requests {
        Some(RequestFault::TooManyRequests)
    } else {
        None
    }
}

/// Timeout of a request, which is capped.
pub fn request_timeout(asked_millis: u64, max_millis: u64) -> (millis: u64)
    ensures
        millis == capped_timeout(asked_millis, max_millis),
{
    if asked_millis <= max_millis {
        asked_millis
    } else {
        max_millis
    }
}

/// Open a request of an identity to a peer: what to send, on which protocol.
///
/// The name of the protocol is checked first, then the number of requests that
/// wait.
pub fn open_request(
    pending: &mut PendingRequests,
    identity: &PeerId,
    peer_id: PeerId,
    protocol: &str,
    message_id: String,
    data: Vec<u8>,
    max_active_requests: usize,
) -> (opened: Result<(String, Vec<u8>), RequestFault>)
    ensures
        match opened {
            Ok((wire_protocol, bytes)) => {
                &&& opening_fault(
                    protocol@,
                    requests_of(old(pending)@, identity@).len(),
                    max_active_requests,
                ) is None
                &&& wire_protocol@ == REQUEST_PREFIX@ + protocol@
                &&& bytes@ == envelope_encoding((message_id@, false, data@))
                &&& envelope_decoding(bytes@) == Some((message_id@, false, data@))
                &&& final(pending)@ == old(pending)@.insert((identity@, message_id@), peer_id)
            },
            Err(fault) => {
                &&& final(pending)@ == old(pending)@
                &&& opening_fault(
                    protocol@,
                    requests_of(old(pending)@, identity@).len(),
                    max_active_requests,
                ) == Some(fault)
            },
        },
{
    if !validate_protocol_name(protocol) {
        return Err(RequestFault::InvalidProtocol);
    }
    match pending.begin_request(identity, message_id.clone(), peer_id, max_active_requests) {
        Ok(()) => {},
        Err(_) => {
            return Err(RequestFault::TooManyRequests);
        },
    }
    frame_envelope(protocol, message_id.as_str(), false, data)
}

/// Length of the text of a message id.
pub const MESSAGE_ID_CHARS: usize = 36;

/// `Uuid::new_v4` of `uuid`, as its hyphenated text. Which id comes is left to
/// chance.
#[verifier::external_body]
fn random_message_id() -> (id: String)
    ensures
        id@.len() == MESSAGE_ID_CHARS,
{
    uuid::Uuid::new_v4().to_string()
}

/// Open a request under a message id of its own, which is handed out with what
/// to send.
pub fn open_new_request(
    pending: &mut PendingRequests,
    identity: &PeerId,
    peer_id: PeerId,
    protocol: &str,
    data: Vec<u8>,
    max_active_requests: usize,
) -> (opened: Result<(String, String, Vec<u8>), RequestFault>)
    ensures
        match opened {
            Ok((message_id, wire_protocol, bytes)) => {
                &&& message_id@.len() == MESSAGE_ID_CHARS
                &&& opening_fault(
                    protocol@,
                    requests_of(old(pending)@, identity@).len(),
                    max_active_requests,
                ) is None
                &&& wire_protocol@ == REQUEST_PREFIX@ + protocol@
                &&& bytes@ == envelope_encoding((message_id@, false, data@))
                &&& envelope_decoding(bytes@) == Some((message_id@, false, data@))
                &&& final(pending)@ == old(pending)@.insert((identity@, message_id@), peer_id)
            },
            Err(fault) => {
                &&& final(pending)@ == old(pending)@
                &&& opening_fault(
                    protocol@,
                    requests_of(old(pending)@, identity@).len(),
                    max_active_requests,
                ) == Some(fault)
            },
        },
{
    let message_id = random_message_id();
    match open_request(
        pending,
        identity,
        peer_id,
        protocol,
        message_id.clone(),
        data,
        max_active_requests,
    ) {
        Ok((wire_protocol, bytes)) => Ok((message_id, wire_protocol, bytes)),
        Err(fault) => Err(fault),
    }
}

/// What came of waiting for an answer.
pub enum Answer {
    /// The peer answered, after so many milliseconds.
    Response(Vec<u8>, u64),
    /// Nobody can answer any more.
    Dropped,
    /// The time was up, which is given in milliseconds.
    TimedOut(u64),
}

/// The answer of a peer.
pub struct PeerResponse {
    /// The peer that answered.
    pub peer_id: PeerId,
    /// The answer.
    pub data: Vec<u8>,
    /// How long it took, in milliseconds.
    pub latency_millis: u64,
}

/// What a request comes to.
pub open spec fn closing(peer_id: PeerId, answer: Answer) -> Result<PeerResponse, RequestFault> {
    match answer {
        Answer::Response(data, latency_millis) => Ok::<PeerResponse, RequestFault>(
            (PeerResponse { peer_id, data, latency_millis }),
        ),
        Answer::Dropped => Err(RequestFault::ConnectionClosed(peer_id)),
        Answer::TimedOut(millis) => Err(RequestFault::Timeout(millis)),
    }
}

/// Close a request: whatever came of it, it waits no more.
pub fn close_request(
    pending: &mut PendingRequests,
    identity: &PeerId,
    peer_id: PeerId,
    message_id: &String,
    answer: Answer,
) -> (closed: Result<PeerResponse, RequestFault>)
    ensures
        final(pending)@ == old(pending)@.remove((identity@, message_id@)),
        closed == closing(peer_id, answer),
{
    pending.finish_request(identity, message_id);
    match answer {
        Answer::Response(data, latency_millis) => {
            Ok(PeerResponse { peer_id, data, latency_millis })
        },
        Answer::Dropped => Err(RequestFault::ConnectionClosed(peer_id)),
        Answer::TimedOut(millis) => Err(RequestFault::Timeout(millis)),
    }
}

/// A request that was opened and closed leaves nothing behind.
pub proof fn law_closed_requests_leave_no_trace(
    pending: Map<(Seq<u8>, Seq<char>), PeerId>,
    identity: Seq<u8>,
    message_id: Seq<char>,
    peer: PeerId,
)
    requires
        !pending.dom().contains((identity, message_id)),
    ensures
        pending.insert((identity, message_id), peer).remove((identity, message_id)) == pending,
{
    assert(pending.insert((identity, message_id), peer).remove((identity, message_id)) =~= pending);
}

/// An answer is handed over only where the peer that was asked has signed it;
/// any other message leaves the request waiting.
pub proof fn law_answers_come_from_the_peer_that_was_asked(
    hosting: HostingView,
    pending: Map<(Seq<u8>, Seq<char>), PeerId>,
    topic: Seq<char>,
    data: Seq<u8>,
    authenticated: Option<PeerId>,
    destination: Option<Seq<u8>>,
    delivery: Delivery,
    identity: PeerId,
    message_id: Seq<char>,
)
    requires
        hosting.delivers(pending, topic, data, authenticated, destination, delivery),
        pending.dom().contains((identity@, message_id)),
        authenticated != Some(pending[(identity@, message_id)]),
    ensures
        after_delivery(pending, delivery).dom().contains((identity@, message_id)),
        !(delivery matches Delivery::Response(to, id, _) && to@ == identity@ && id@ == message_id),
{
}

} // verus!
