//! Postcard encodings of the plain values that records are made of.

use vstd::prelude::*;

verus! {

/// One transport address record as plain values: transport, reachability and
/// payload.
pub type PlainRecord = (u16, u16, Vec<u8>);

/// A signed record as plain values: owner, sequence, records, public key and
/// signature.
pub type PlainSigned = ([u8; 32], u64, Vec<PlainRecord>, Vec<u8>, Vec<u8>);

/// A socket address as plain values: the bytes of an IPv4 address and the port, or
/// else those of an IPv6 address. The `serde` crate writes it as it writes a
/// `std::net::SocketAddr`: as the first or the second of two variants, of an array
/// of bytes and a number.
pub type PlainSocket = Result<([u8; 4], u16), ([u8; 16], u16)>;

/// The view of a plain socket address.
pub type SocketParts = Result<(Seq<u8>, u16), (Seq<u8>, u16)>;

/// The view of a plain socket address.
pub open spec fn socket_parts(plain: PlainSocket) -> SocketParts {
    match plain {
        Ok((octets, port)) => Ok((octets@, port)),
        Err((octets, port)) => Err((octets@, port)),
    }
}

/// What an address may say beside its socket, as plain values: the certificate
/// hash where the transport is WebRTC Direct, and the owner where one is named.
pub type PlainExtras = (Option<[u8; 32]>, Option<[u8; 32]>);

/// The view of plain records.
pub open spec fn plain_views(records: Seq<PlainRecord>) -> Seq<(u16, u16, Seq<u8>)> {
    records.map(|_i: int, r: PlainRecord| (r.0, r.1, r.2@))
}

/// The bytes of a signed record as plain values.
pub type SignedParts = (Seq<u8>, u64, Seq<(u16, u16, Seq<u8>)>, Seq<u8>, Seq<u8>);

/// The view of a plain signed record.
pub open spec fn signed_parts(plain: PlainSigned) -> SignedParts {
    (plain.0@, plain.1, plain_views(plain.2@), plain.3@, plain.4@)
}

/// What `postcard::to_stdvec` makes of the tuple of a domain, an owner, a
/// sequence and records.
pub uninterp spec fn statement_encoding(
    domain: Seq<char>,
    owner: Seq<u8>,
    sequence: u64,
    records: Seq<(u16, u16, Seq<u8>)>,
) -> Seq<u8>;

/// What `postcard::to_stdvec` makes of a signed record.
pub uninterp spec fn signed_encoding(parts: SignedParts) -> Seq<u8>;

/// What `postcard::from_bytes` reads as a signed record.
pub uninterp spec fn signed_decoding(bytes: Seq<u8>) -> Option<SignedParts>;

/// What `postcard::to_stdvec` makes of a socket address.
pub uninterp spec fn socket_encoding(parts: SocketParts) -> Seq<u8>;

/// What `postcard::take_from_bytes` reads as a socket address, and the bytes that
/// it leaves.
pub uninterp spec fn socket_decoding(bytes: Seq<u8>) -> Option<(SocketParts, Seq<u8>)>;

/// What `postcard::to_stdvec` makes of what an address says beside its socket.
pub uninterp spec fn extras_encoding(extras: PlainExtras) -> Seq<u8>;

/// What `postcard::from_bytes` reads as what an address says beside its socket.
pub uninterp spec fn extras_decoding(bytes: Seq<u8>) -> Option<PlainExtras>;

/// `postcard::to_stdvec` on the tuple that an owner signs. The bytes depend on
/// the tuple alone. They are written to a vector that grows, so nothing fails.
#[verifier::external_body]
pub(crate) fn encode_statement(
    domain: &str,
    owner: &[u8; 32],
    sequence: u64,
    records: &Vec<PlainRecord>,
) -> (encoded: Result<Vec<u8>, String>)
    ensures
        match encoded {
            Ok(bytes) => bytes@ == statement_encoding(
                domain@,
                owner@,
                sequence,
                plain_views(records@),
            ),
            Err(_) => false,
        },
{
    postcard::to_stdvec(&(domain, owner, sequence, records)).map_err(|e| e.to_string())
}

/// How many bytes records take at most: each has two numbers of at most three
/// bytes, and a payload behind a length of at most ten.
pub open spec fn records_size_limit(records: Seq<(u16, u16, Seq<u8>)>) -> nat
    decreases records.len(),
{
    if records.len() == 0 {
        0
    } else {
        records_size_limit(records.drop_last()) + 16 + records.last().2.len()
    }
}

/// How many bytes a signed record takes at most: the owner has thirty-two, and
/// the sequence and the three lengths have at most ten each.
pub open spec fn signed_size_limit(parts: SignedParts) -> nat {
    72 + records_size_limit(parts.2) + parts.3.len() + parts.4.len()
}

/// `postcard::to_stdvec` on a signed record. The bytes depend on the record
/// alone, and `postcard::from_bytes` reads them back as the record. They are
/// written to a vector that grows, so nothing fails. A number of sixteen bits
/// takes at most three bytes, one of sixty-four bits or a length at most ten.
#[verifier::external_body]
pub(crate) fn encode_signed(plain: &PlainSigned) -> (encoded: Result<Vec<u8>, String>)
    ensures
        match encoded {
            Ok(bytes) => {
                &&& bytes@ == signed_encoding(signed_parts(*plain))
                &&& signed_decoding(bytes@) == Some(signed_parts(*plain))
                &&& bytes@.len() <= signed_size_limit(signed_parts(*plain))
            },
            Err(_) => false,
        },
{
    postcard::to_stdvec(plain).map_err(|e| e.to_string())
}

/// `postcard::from_bytes` for a signed record. The record, or the failure,
/// depends on the bytes alone.
#[verifier::external_body]
pub(crate) fn decode_signed(bytes: &[u8]) -> (decoded: Result<PlainSigned, String>)
    ensures
        match decoded {
            Ok(plain) => signed_decoding(bytes@) == Some(signed_parts(plain)),
            Err(_) => signed_decoding(bytes@) is None,
        },
{
    postcard::from_bytes(bytes).map_err(|e| e.to_string())
}

/// `postcard::to_stdvec` on a socket address. The bytes depend on the address
/// alone, and `postcard::take_from_bytes` reads them back as the address, whatever
/// follows them. They are written to a vector that grows, so nothing fails.
#[verifier::external_body]
pub(crate) fn encode_socket(plain: &PlainSocket) -> (encoded: Result<Vec<u8>, String>)
    ensures
        match encoded {
            Ok(bytes) => bytes@ == socket_encoding(socket_parts(*plain)) && forall|rest: Seq<u8>|
                #[trigger] socket_decoding(bytes@ + rest) == Some((socket_parts(*plain), rest)),
            Err(_) => false,
        },
{
    postcard::to_stdvec(plain).map_err(|e| e.to_string())
}

/// `postcard::take_from_bytes` for a socket address. The address and the bytes
/// that are left, or the failure, depend on the bytes alone.
#[verifier::external_body]
pub(crate) fn decode_socket(bytes: &[u8]) -> (decoded: Result<(PlainSocket, Vec<u8>), String>)
    ensures
        match decoded {
            Ok(read) => socket_decoding(bytes@) == Some((socket_parts(read.0), read.1@)),
            Err(_) => socket_decoding(bytes@) is None,
        },
{
    let (plain, rest) = postcard::take_from_bytes(bytes).map_err(|e| e.to_string())?;
    Ok((plain, rest.to_vec()))
}

/// `postcard::to_stdvec` on what an address says beside its socket. The bytes
/// depend on that alone, there is at least one, and `postcard::from_bytes` reads
/// them back. They are written to a vector that grows, so nothing fails.
#[verifier::external_body]
pub(crate) fn encode_extras(extras: &PlainExtras) -> (encoded: Result<Vec<u8>, String>)
    ensures
        match encoded {
            Ok(bytes) => bytes@ == extras_encoding(*extras) && bytes@.len() > 0
                && extras_decoding(bytes@) == Some(*extras),
            Err(_) => false,
        },
{
    postcard::to_stdvec(extras).map_err(|e| e.to_string())
}

/// `postcard::from_bytes` for what an address says beside its socket. What is
/// read, or the failure, depends on the bytes alone.
#[verifier::external_body]
pub(crate) fn decode_extras(bytes: &[u8]) -> (decoded: Result<PlainExtras, String>)
    ensures
        match decoded {
            Ok(extras) => extras_decoding(bytes@) == Some(extras),
            Err(_) => extras_decoding(bytes@) is None,
        },
{
    postcard::from_bytes(bytes).map_err(|e| e.to_string())
}

/// `postcard::Error::SerdeDeCustom` in words: what `postcard::from_bytes` says of
/// a value that was read and is refused, whatever the reason.
#[verifier::external_body]
pub(crate) fn refusal_text() -> (text: String)
    ensures
        text@ == "Serde Deserialization Error"@,
{
    postcard::Error::SerdeDeCustom.to_string()
}

/// A message between two nodes as plain values: protocol, data, sender,
/// timestamp, user agent, public key and signature.
pub type PlainMessage = (String, Vec<u8>, [u8; 32], u64, String, Vec<u8>, Vec<u8>);

/// The view of a plain message.
pub type MessageParts = (Seq<char>, Seq<u8>, Seq<u8>, u64, Seq<char>, Seq<u8>, Seq<u8>);

/// The view of a plain message.
pub open spec fn message_parts(plain: PlainMessage) -> MessageParts {
    (plain.0@, plain.1@, plain.2@, plain.3, plain.4@, plain.5@, plain.6@)
}

/// A message between two identities as plain values: protocol, data, sender,
/// receiver, timestamp, user agent, public key and signature.
pub type PlainAddressed = (String, Vec<u8>, [u8; 32], [u8; 32], u64, String, Vec<u8>, Vec<u8>);

/// The view of a plain addressed message.
pub type AddressedParts = (
    Seq<char>,
    Seq<u8>,
    Seq<u8>,
    Seq<u8>,
    u64,
    Seq<char>,
    Seq<u8>,
    Seq<u8>,
);

/// The view of a plain addressed message.
pub open spec fn addressed_parts(plain: PlainAddressed) -> AddressedParts {
    (plain.0@, plain.1@, plain.2@, plain.3@, plain.4, plain.5@, plain.6@, plain.7@)
}

/// A request or a response as plain values: message id, whether it is a
/// response, and payload.
pub type PlainEnvelope = (String, bool, Vec<u8>);

/// The view of a plain envelope.
pub open spec fn envelope_parts(plain: PlainEnvelope) -> (Seq<char>, bool, Seq<u8>) {
    (plain.0@, plain.1, plain.2@)
}

/// The shared endpoint of a daemon as plain values: its identity and its
/// addresses.
pub type PlainCapability = ([u8; 32], Vec<PlainSocket>);

/// The view of plain socket addresses.
pub open spec fn socket_views(sockets: Seq<PlainSocket>) -> Seq<SocketParts> {
    sockets.map(|_i: int, socket: PlainSocket| socket_parts(socket))
}

/// The view of a plain capability.
pub open spec fn capability_parts(plain: PlainCapability) -> (Seq<u8>, Seq<SocketParts>) {
    (plain.0@, socket_views(plain.1@))
}

/// What `postcard::to_stdvec` makes of the tuple of a protocol, data, a sender,
/// a timestamp and a user agent.
pub uninterp spec fn signable_encoding(
    protocol: Seq<char>,
    data: Seq<u8>,
    from: Seq<u8>,
    timestamp: u64,
    user_agent: Seq<char>,
) -> Seq<u8>;

/// What `postcard::to_stdvec` makes of the tuple of a protocol, data, a sender,
/// a receiver, a timestamp and a user agent.
pub uninterp spec fn addressed_signable_encoding(
    protocol: Seq<char>,
    data: Seq<u8>,
    from: Seq<u8>,
    to: Seq<u8>,
    timestamp: u64,
    user_agent: Seq<char>,
) -> Seq<u8>;

/// What `postcard::to_stdvec` makes of a message between two nodes.
pub uninterp spec fn message_encoding(parts: MessageParts) -> Seq<u8>;

/// What `postcard::to_stdvec` makes of a message between two identities.
pub uninterp spec fn addressed_encoding(parts: AddressedParts) -> Seq<u8>;

/// What `postcard::to_allocvec` makes of a request or a response.
pub uninterp spec fn envelope_encoding(parts: (Seq<char>, bool, Seq<u8>)) -> Seq<u8>;

/// What `postcard::from_bytes` reads as a request or a response.
pub uninterp spec fn envelope_decoding(bytes: Seq<u8>) -> Option<(Seq<char>, bool, Seq<u8>)>;

/// What `postcard::to_stdvec` makes of a daemon's shared endpoint.
pub uninterp spec fn capability_encoding(parts: (Seq<u8>, Seq<SocketParts>)) -> Seq<u8>;

/// What `postcard::from_bytes` reads as a daemon's shared endpoint.
pub uninterp spec fn capability_decoding(bytes: Seq<u8>) -> Option<(Seq<u8>, Seq<SocketParts>)>;

/// `postcard::to_stdvec` on the tuple that a sender signs. The bytes depend on
/// the tuple alone. They are written to a vector that grows, so nothing fails.
#[verifier::external_body]
pub(crate) fn encode_signable(
    protocol: &str,
    data: &[u8],
    from: &[u8; 32],
    timestamp: u64,
    user_agent: &str,
) -> (encoded: Result<Vec<u8>, String>)
    ensures
        match encoded {
            Ok(bytes) => bytes@ == signable_encoding(
                protocol@,
                data@,
                from@,
                timestamp,
                user_agent@,
            ),
            Err(_) => false,
        },
{
    postcard::to_stdvec(&(protocol, data, from, timestamp, user_agent)).map_err(|e| e.to_string())
}

/// `postcard::to_stdvec` on the tuple that the sender of an addressed message
/// signs. The bytes depend on the tuple alone. They are written to a vector that
/// grows, so nothing fails.
#[verifier::external_body]
pub(crate) fn encode_addressed_signable(
    protocol: &str,
    data: &[u8],
    from: &[u8; 32],
    to: &[u8; 32],
    timestamp: u64,
    user_agent: &str,
) -> (encoded: Result<Vec<u8>, String>)
    ensures
        match encoded {
            Ok(bytes) => bytes@ == addressed_signable_encoding(
                protocol@,
                data@,
                from@,
                to@,
                timestamp,
                user_agent@,
            ),
            Err(_) => false,
        },
{
    postcard::to_stdvec(&(protocol, data, from, to, timestamp, user_agent)).map_err(
        |e| e.to_string(),
    )
}

/// `postcard::to_stdvec` on a message between two nodes. The bytes depend on the
/// message alone. They are written to a vector that grows, so nothing fails.
#[verifier::external_body]
pub(crate) fn encode_message(plain: &PlainMessage) -> (encoded: Result<Vec<u8>, String>)
    ensures
        match encoded {
            Ok(bytes) => bytes@ == message_encoding(message_parts(*plain)),
            Err(_) => false,
        },
{
    postcard::to_stdvec(plain).map_err(|e| e.to_string())
}

/// `postcard::to_stdvec` on a message between two identities. The bytes depend on the
/// message alone. They are written to a vector that grows, so nothing fails.
#[verifier::external_body]
pub(crate) fn encode_addressed(plain: &PlainAddressed) -> (encoded: Result<Vec<u8>, String>)
    ensures
        match encoded {
            Ok(bytes) => bytes@ == addressed_encoding(addressed_parts(*plain)),
            Err(_) => false,
        },
{
    postcard::to_stdvec(plain).map_err(|e| e.to_string())
}

/// `postcard::to_allocvec` on a request or a response. The bytes depend on the
/// envelope alone, and `postcard::from_bytes` reads them back as the envelope.
/// They are written to a vector that grows, so nothing fails.
#[verifier::external_body]
pub(crate) fn encode_envelope(plain: &PlainEnvelope) -> (encoded: Result<Vec<u8>, String>)
    ensures
        match encoded {
            Ok(bytes) => bytes@ == envelope_encoding(envelope_parts(*plain))
                && envelope_decoding(bytes@) == Some(envelope_parts(*plain)),
            Err(_) => false,
        },
{
    postcard::to_allocvec(plain).map_err(|e| e.to_string())
}

/// `postcard::from_bytes` for a request or a response. The envelope, or the
/// failure, depends on the bytes alone.
#[verifier::external_body]
pub(crate) fn decode_envelope(bytes: &[u8]) -> (decoded: Result<PlainEnvelope, String>)
    ensures
        match decoded {
            Ok(plain) => envelope_decoding(bytes@) == Some(envelope_parts(plain)),
            Err(_) => envelope_decoding(bytes@) is None,
        },
{
    postcard::from_bytes(bytes).map_err(|e| e.to_string())
}

/// `postcard::to_stdvec` on a daemon's shared endpoint. The bytes depend on the
/// endpoint alone, and `postcard::from_bytes` reads them back as the endpoint.
/// They are written to a vector that grows, so nothing fails.
#[verifier::external_body]
pub(crate) fn encode_capability(plain: &PlainCapability) -> (encoded: Result<Vec<u8>, String>)
    ensures
        match encoded {
            Ok(bytes) => bytes@ == capability_encoding(capability_parts(*plain))
                && capability_decoding(bytes@) == Some(capability_parts(*plain)),
            Err(_) => false,
        },
{
    postcard::to_stdvec(plain).map_err(|e| e.to_string())
}

/// `postcard::from_bytes` for a daemon's shared endpoint. The endpoint, or the
/// failure, depends on the bytes alone.
#[verifier::external_body]
pub(crate) fn decode_capability(bytes: &[u8]) -> (decoded: Result<PlainCapability, String>)
    ensures
        match decoded {
            Ok(plain) => capability_decoding(bytes@) == Some(capability_parts(plain)),
            Err(_) => capability_decoding(bytes@) is None,
        },
{
    postcard::from_bytes(bytes).map_err(|e| e.to_string())
}

} // verus!
