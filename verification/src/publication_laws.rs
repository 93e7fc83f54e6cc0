//! Laws of signed publications: what is refused and why, what a proof covers, and
//! what a view of known transports shows.

use crate::address::MultiAddr;
use crate::codec::{signed_decoding, statement_encoding};
use crate::identity::{key_fingerprint, signature_check};
use crate::keys::key_value;
use crate::projection::{projected, projected_type};
use crate::record_bundle::{be_bytes, framed, next_frame, unbundled, BundleFault};
use crate::signed_address::{
    decoded_record, decoded_record_address, from_parts, proof_fault, record_fault, records_fault,
    AddressFault, SignedView,
};
use crate::transport_address::{
    matching_address, transport_of, KnownReachability, KnownTransport, RecordView,
};
use vstd::prelude::*;

verus! {

/// A record of a publication is admissible exactly where its payload is neither
/// empty nor above the bound and either names an endpoint of its transport that
/// the owner may publish, or is of a transport that is not known. An address that
/// is bound to a peer must be bound to the owner, and a WebRTC one must be bound.
pub proof fn law_records_name_their_owner(record: RecordView, owner: Seq<u8>, address: MultiAddr)
    ensures
        ({
            let sized = 0 < record.address.len() <= 2048;
            let opaque = record.transport != 1 && record.transport != 2;
            let bound = match address.owner {
                Some(peer) => peer@ == owner,
                None => address.transport is Quic,
            };
            let endpoint = !address.socket_addr.ip.unspecified() && address.socket_addr.port != 0;
            &&& !sized ==> record_fault(record, owner, Some(Some(address))) == Some(
                AddressFault::Bounds,
            ) && record_fault(record, owner, Some(None)) == Some(AddressFault::Bounds)
                && record_fault(record, owner, None) == Some(AddressFault::Bounds)
            &&& sized ==> {
                &&& record_fault(record, owner, None) == Some(AddressFault::Unreadable)
                &&& opaque ==> record_fault(record, owner, Some(None)) is None
                &&& !opaque ==> record_fault(record, owner, Some(None)) == Some(
                    AddressFault::WrongTransport,
                )
                &&& record_fault(record, owner, Some(Some(address))) is None <==> endpoint && bound
                &&& !endpoint ==> record_fault(record, owner, Some(Some(address))) == Some(
                    AddressFault::NotDialable,
                )
                &&& endpoint && !bound ==> record_fault(record, owner, Some(Some(address))) == Some(
                    AddressFault::WrongOwner,
                )
            }
        }),
{
}

/// The first record with a fault decides, and records without any have none.
pub proof fn law_the_first_bad_record_is_told(
    records: Seq<RecordView>,
    owner: Seq<u8>,
    index: int,
)
    requires
        0 <= index <= records.len(),
        forall|i: int|
            0 <= i < index ==> record_fault(
                #[trigger] records[i],
                owner,
                decoded_record_address(records[i]),
            ) is None,
        index < records.len() ==> record_fault(
            records[index],
            owner,
            decoded_record_address(records[index]),
        ) is Some,
    ensures
        index == records.len() ==> records_fault(records, owner) is None,
        index < records.len() ==> records_fault(records, owner) == record_fault(
            records[index],
            owner,
            decoded_record_address(records[index]),
        ),
    decreases records.len(),
{
    if records.len() > 0 {
        let rest = records.drop_last();
        let at = if index < rest.len() {
            index
        } else {
            rest.len() as int
        };
        assert forall|i: int| 0 <= i < at implies record_fault(
            #[trigger] rest[i],
            owner,
            decoded_record_address(rest[i]),
        ) is None by {
            assert(rest[i] == records[i]);
        }
        if at < rest.len() {
            assert(rest[at] == records[at]);
        }
        law_the_first_bad_record_is_told(rest, owner, at);
        assert(records[records.len() - 1] == records.last());
    }
}

/// A publication needs a sequence, a record, and no more records than fit; that is
/// looked at before the records are, and the records before the proof.
pub proof fn law_publications_are_bounded(publication: SignedView)
    ensures
        ({
            let sized = publication.sequence > 0 && 0 < publication.records.len() <= 16;
            &&& !sized ==> publication.fault() == Some(AddressFault::Cardinality)
            &&& sized && records_fault(publication.records, publication.owner) is Some
                ==> publication.fault() == records_fault(publication.records, publication.owner)
            &&& publication.proven() ==> sized && records_fault(
                publication.records,
                publication.owner,
            ) is None
        }),
{
}

/// A publication is proven only by a key that stands for its owner and a good
/// signature under that key of what it states.
pub proof fn law_proofs_bind_the_owner(publication: SignedView)
    ensures
        publication.proven() ==> key_fingerprint(publication.public_key) == Some(publication.owner),
        publication.proven() ==> signature_check(
            publication.public_key,
            publication.statement(),
            publication.signature,
        ) == Some(true),
        publication.content_fault() is None && key_fingerprint(publication.public_key) == Some(
            publication.owner,
        ) && signature_check(
            publication.public_key,
            publication.statement(),
            publication.signature,
        ) == Some(true) ==> publication.proven(),
{
}

/// A key that cannot be read is told first, one of another peer next, then a
/// signature that cannot be checked and one that is not good.
pub proof fn law_proof_faults_come_in_order(
    owner: Seq<u8>,
    signer: Seq<u8>,
    verdict: Option<bool>,
)
    ensures
        proof_fault(owner, None, verdict) == Some(AddressFault::Key),
        signer != owner ==> proof_fault(owner, Some(signer), verdict) == Some(AddressFault::Signer),
        proof_fault(owner, Some(owner), None) == Some(AddressFault::Unchecked),
        proof_fault(owner, Some(owner), Some(false)) == Some(AddressFault::Forged),
        proof_fault(owner, Some(owner), Some(true)) is None,
{
}

/// What an owner signs rests on the owner, the sequence and the records alone: the
/// key and the signature are no part of it, and of two publications with the same
/// statement parts one signature proves both or neither.
pub proof fn law_statements_leave_the_proof_out(
    publication: SignedView,
    public_key: Seq<u8>,
    signature: Seq<u8>,
)
    ensures
        (SignedView { public_key, signature, ..publication }).statement()
            == publication.statement(),
        (SignedView { public_key, signature, ..publication }).content_fault()
            == publication.content_fault(),
{
}

/// What is read from bytes is within the decoding bounds, and bytes above the
/// limit of one record are not read.
pub proof fn law_decoded_publications_are_bounded(bytes: Seq<u8>)
    ensures
        bytes.len() > 40 * 1024 ==> decoded_record(bytes) is None,
        decoded_record(bytes) matches Some(record) ==> {
            &&& record.records.len() <= 16
            &&& record.public_key.len() <= 1952
            &&& record.signature.len() <= 3309
            &&& forall|i: int|
                0 <= i < record.records.len() ==> (#[trigger] record.records[i]).address.len()
                    <= 2048
        },
{
}

/// The identifiers on the wire are one for relay, two for direct, three for
/// unverified and four for local reachability, in the order of the address types,
/// and one for QUIC and two for WebRTC; no other identifier is known.
pub proof fn law_wire_identifiers_follow_the_types(class: KnownReachability, id: u16)
    ensures
        class.wire_id() == class.legacy().rank() + 1,
        KnownReachability::with_wire_id(id) is Some <==> 1 <= id <= 4,
        KnownReachability::with_wire_id(id) matches Some(found) ==> found.legacy().rank() + 1 == id,
        KnownTransport::with_wire_id(id) is Some <==> 1 <= id <= 2,
        KnownTransport::with_wire_id(1) == Some(KnownTransport::Quic),
        KnownTransport::with_wire_id(2) == Some(KnownTransport::WebRtcDirect),
{
}

/// A decoded address counts under a declared transport only where it is of that
/// transport, and is then taken as it is.
pub proof fn law_addresses_match_their_transport(transport: u16, address: MultiAddr)
    ensures
        address.transport is Quic ==> (transport == 1 <==> matching_address(transport, address)
            == Some(address)),
        address.transport is WebRtcDirect ==> (transport == 2 <==> matching_address(
            transport,
            address,
        ) == Some(address)),
        matching_address(transport, address) is None || matching_address(transport, address)
            == Some(address),
        transport_of(address).wire_id() == (if address.transport is Quic {
            1u16
        } else {
            2u16
        }),
{
}

/// In the view of known transports a local address is local whatever was
/// published, a WebRTC one is never more than unverified, and a QUIC one has the
/// published class, or is unverified where the class is not known.
pub proof fn law_projected_types_claim_no_more(address: MultiAddr, reachability: u16)
    ensures
        address.socket_addr.ip.lan() ==> projected_type(address, reachability) is Lan,
        !address.socket_addr.ip.lan() && address.transport is WebRtcDirect ==> projected_type(
            address,
            reachability,
        ) is Unverified,
        !address.socket_addr.ip.lan() && address.transport is Quic ==> {
            &&& reachability == 1 ==> projected_type(address, reachability) is Relay
            &&& reachability == 2 ==> projected_type(address, reachability) is Direct
            &&& reachability == 3 ==> projected_type(address, reachability) is Unverified
            &&& reachability == 4 ==> projected_type(address, reachability) is Lan
            &&& !(1 <= reachability <= 4) ==> projected_type(address, reachability) is Unverified
        },
{
}

/// The view of known transports lists the address of each record whose payload is
/// known, in order, and nothing for the others.
pub proof fn law_views_list_what_is_known(records: Seq<RecordView>, record: RecordView)
    ensures
        projected(Seq::empty()).len() == 0,
        !record.readable() || record.known_address() is None ==> projected(records.push(record))
            == projected(records),
        record.readable() ==> (record.known_address() matches Some(address) ==> {
            let shown = projected(records.push(record));
            &&& shown.len() == projected(records).len() + 1
            &&& shown.drop_last() == projected(records)
            &&& shown.last().0 == address
            &&& shown.last().1 == projected_type(address, record.reachability)
        }),
{
    assert(records.push(record).drop_last() =~= records);
    if record.readable() {
        if let Some(address) = record.known_address() {
            let shown = projected(records.push(record));
            assert(shown.drop_last() =~= projected(records));
        }
    }
}

/// The bundle of two lists of frames is that of the first with that of the second
/// behind it, and that of one frame is its length and the frame.
pub proof fn law_frames_stand_side_by_side(first: Seq<Seq<u8>>, second: Seq<Seq<u8>>, frame: Seq<u8>)
    ensures
        framed(first + second) == framed(first) + framed(second),
        framed(seq![frame]) == be_bytes(frame.len()) + frame,
        framed(Seq::empty()).len() == 0,
    decreases second.len(),
{
    assert(seq![frame].drop_last() =~= Seq::<Seq<u8>>::empty());
    assert(framed(Seq::<Seq<u8>>::empty()) =~= Seq::<u8>::empty());
    assert(seq![frame].last() == frame);
    assert(framed(seq![frame]) =~= be_bytes(frame.len()) + frame);
    if second.len() == 0 {
        assert(first + second =~= first);
        assert(framed(first) + framed(second) =~= framed(first));
    } else {
        law_frames_stand_side_by_side(first, second.drop_last(), frame);
        assert((first + second).drop_last() =~= first + second.drop_last());
        assert(framed(first + second) =~= framed(first) + framed(second));
    }
}

/// A length is written as four bytes that spell it, high byte first.
pub proof fn law_lengths_are_four_bytes(value: nat)
    requires
        value <= 0xffff_ffff,
    ensures
        be_bytes(value).len() == 4,
        key_value(be_bytes(value)) == value,
        ((be_bytes(value)[0] * 256 + be_bytes(value)[1]) * 256 + be_bytes(value)[2]) * 256
            + be_bytes(value)[3] == value,
{
    crate::record_bundle::lemma_be_bytes(value);
}

/// A bundle is refused as malformed where more is left than the records allow or
/// too little for a length, and as truncated where a frame is longer than what is
/// left; an empty one holds no record.
pub proof fn law_broken_bundles_are_refused(bytes: Seq<u8>, room: nat)
    ensures
        unbundled(Seq::empty(), room) == Ok::<Seq<SignedView>, BundleFault>(Seq::empty()),
        bytes.len() > 0 ==> unbundled(bytes, 0) == Err::<Seq<SignedView>, BundleFault>(
            BundleFault::Malformed,
        ),
        0 < bytes.len() < 4 ==> unbundled(bytes, room) == Err::<Seq<SignedView>, BundleFault>(
            BundleFault::Malformed,
        ),
        room > 0 && bytes.len() >= 4 && key_value(bytes.take(4)) > bytes.len() - 4 ==> unbundled(
            bytes,
            room,
        ) == Err::<Seq<SignedView>, BundleFault>(BundleFault::Truncated),
        next_frame(bytes, room) is Ok <==> room > 0 && bytes.len() >= 4 && key_value(bytes.take(4))
            <= bytes.len() - 4,
        unbundled(bytes, room) matches Ok(records) ==> records.len() <= room,
    decreases room,
{
    if bytes.len() > 0 && room > 0 {
        if let Ok((frame, rest)) = next_frame(bytes, room) {
            law_broken_bundles_are_refused(rest, (room - 1) as nat);
        }
    }
}

/// A frame is the bytes behind its length, as many as that says, and the next one
/// follows at once; nothing of the bundle is lost.
pub proof fn law_frames_are_cut_at_their_length(bytes: Seq<u8>, room: nat, frame: Seq<u8>, rest: Seq<u8>)
    requires
        next_frame(bytes, room) == Ok::<(Seq<u8>, Seq<u8>), BundleFault>((frame, rest)),
    ensures
        room > 0,
        frame.len() == key_value(bytes.take(4)),
        bytes == bytes.take(4) + frame + rest,
{
    assert(bytes =~= bytes.take(4) + frame + rest);
}

/// What an owner signs names the domain of address records, the owner, the
/// sequence, and each record with its transport, its reachability and its payload,
/// in order.
pub proof fn law_statements_cover_the_publication(publication: SignedView)
    ensures
        publication.statement() == statement_encoding(
            "saorsa/address-record/2"@,
            publication.owner,
            publication.sequence,
            Seq::new(
                publication.records.len(),
                |i: int|
                    (
                        publication.records[i].transport,
                        publication.records[i].reachability,
                        publication.records[i].address,
                    ),
            ),
        ),
{
    let parts = Seq::new(
        publication.records.len(),
        |i: int|
            (
                publication.records[i].transport,
                publication.records[i].reachability,
                publication.records[i].address,
            ),
    );
    assert(crate::signed_address::record_parts(publication.records) =~= parts);
}

/// The plain values of a publication are its parts in order, and the publication
/// is made of them again.
pub proof fn law_plain_values_make_the_publication(publication: SignedView, index: int)
    requires
        0 <= index < publication.records.len(),
    ensures
        ({
            let parts = publication.parts();
            &&& parts.0 == publication.owner
            &&& parts.1 == publication.sequence
            &&& parts.2.len() == publication.records.len()
            &&& parts.2[index] == (
                publication.records[index].transport,
                publication.records[index].reachability,
                publication.records[index].address,
            )
            &&& parts.3 == publication.public_key
            &&& parts.4 == publication.signature
            &&& from_parts(parts) == publication
        }),
{
    assert(from_parts(publication.parts()).records =~= publication.records);
}

/// Bytes within the limit are read as a record wherever its lists are within their
/// bounds.
pub proof fn law_bounded_bytes_are_read(bytes: Seq<u8>, publication: SignedView)
    requires
        signed_decoding(bytes) == Some(publication.parts()),
    ensures
        bytes.len() <= 40 * 1024 && publication.records.len() <= 16 && publication.public_key.len()
            <= 1952 && publication.signature.len() <= 3309 && (forall|i: int|
            0 <= i < publication.records.len() ==> (
            #[trigger] publication.records[i]).address.len() <= 2048) ==> decoded_record(bytes)
            == Some(publication),
{
    assert(from_parts(publication.parts()).records =~= publication.records);
}

} // verus!
