//! Portable owner-signed address publications. Forward the original signed
//! record; filtering and reachability normalization belong to derived views.

use crate::address::MultiAddr;
use crate::codec::{
    decode_signed, encode_signed, encode_statement, plain_views, records_size_limit, refusal_text,
    signed_decoding, signed_encoding, signed_parts, statement_encoding, PlainRecord, PlainSigned, SignedParts,
};
use crate::identity::{
    can_sign, check_signature, key_fingerprint, peer_id_from_public_key, signature_check,
    NodeIdentity,
    PUBLIC_KEY_BYTES, SIGNATURE_BYTES,
};
use crate::peer_id::{PeerId};
use crate::transport_address::{
    copy_bytes, KnownTransport, RecordView, TransportAddressRecord, MAX_TRANSPORT_ADDRESS_PAYLOAD,
    MAX_TRANSPORT_ADDRESS_RECORDS,
};
use vstd::prelude::*;

verus! {

/// Capability token for the extensible address protocol with mandatory owner
/// proofs.
pub const ADDRESS_V2_CAPABILITY: &'static str = "addr-v2";

/// Upper bound for one encoded signed address record.
pub const MAX_SIGNED_ADDRESS_BYTES: usize = 40 * 1024;

/// First part of the tuple that an owner signs.
pub const DOMAIN: &'static str = "saorsa/address-record/2";

/// Original immutable publication, including the owner's identity proof.
#[derive(Debug, PartialEq, Eq)]
pub struct SignedAddressRecord {
    owner: PeerId,
    sequence: u64,
    records: Vec<TransportAddressRecord>,
    public_key: Vec<u8>,
    signature: Vec<u8>,
}

/// What a publication is made of.
#[verifier::ext_equal]
pub struct SignedView {
    /// Claimed owner.
    pub owner: Seq<u8>,
    /// Sequence of the publication.
    pub sequence: u64,
    /// Complete transport-address set.
    pub records: Seq<RecordView>,
    /// Encoded public key.
    pub public_key: Seq<u8>,
    /// Signature over owner, sequence and records.
    pub signature: Seq<u8>,
}

/// The contents of each record.
pub open spec fn record_views(records: Seq<TransportAddressRecord>) -> Seq<RecordView> {
    records.map(|_i: int, r: TransportAddressRecord| r@)
}

impl View for SignedAddressRecord {
    type V = SignedView;

    closed spec fn view(&self) -> SignedView {
        SignedView {
            owner: self.owner@,
            sequence: self.sequence,
            records: record_views(self.records@),
            public_key: self.public_key@,
            signature: self.signature@,
        }
    }
}

/// Why a publication is refused.
pub enum AddressFault {
    /// Sequence zero, no record, or too many records.
    Cardinality,
    /// A payload is empty or too long.
    Bounds,
    /// A payload of a known transport cannot be read.
    Unreadable,
    /// A known address is no endpoint.
    NotDialable,
    /// A known address is bound to another peer, or to none where it must be.
    WrongOwner,
    /// A known address is of another transport than its record says.
    WrongTransport,
    /// The public key cannot be read.
    Key,
    /// The public key stands for another peer than the owner.
    Signer,
    /// The signature cannot be checked.
    Unchecked,
    /// The signature is not good.
    Forged,
}

impl AddressFault {
    /// The text that reports a fault, where it is this library's own.
    pub open spec fn text(self) -> Option<Seq<char>> {
        match self {
            AddressFault::Cardinality => Some("invalid address record sequence or cardinality"@),
            AddressFault::Bounds => Some("address record payload exceeds bounds"@),
            AddressFault::Unreadable => None,
            AddressFault::NotDialable => Some("address is not a dialable destination"@),
            AddressFault::WrongOwner => Some("address owner mismatch"@),
            AddressFault::WrongTransport => Some("address does not match transport identifier"@),
            AddressFault::Key => None,
            AddressFault::Signer => Some("address signing key does not match owner"@),
            AddressFault::Unchecked => None,
            AddressFault::Forged => Some("invalid address record signature"@),
        }
    }
}

/// Whether an outcome reports a fault, or success where there is none.
pub open spec fn reports<T>(outcome: Result<T, String>, fault: Option<AddressFault>) -> bool {
    match fault {
        None => outcome is Ok,
        Some(f) => outcome matches Err(error) && (f.text() matches Some(text) ==> error@ == text),
    }
}

/// The fault of one record of an owner, given what its payload decodes to: none
/// where it cannot be read, and no address where it is opaque or of another
/// transport.
pub open spec fn record_fault(
    record: RecordView,
    owner: Seq<u8>,
    decoded: Option<Option<MultiAddr>>,
) -> Option<AddressFault> {
    if !record.within_bounds() {
        Some(AddressFault::Bounds)
    } else {
        match decoded {
            None => Some(AddressFault::Unreadable),
            Some(Some(address)) => if !address.storable() {
                Some(AddressFault::NotDialable)
            } else if (address.owner is Some && address.owner->0@ != owner) || (
            address.transport is WebRtcDirect && address.owner is None) {
                Some(AddressFault::WrongOwner)
            } else {
                None
            },
            Some(None) => if KnownTransport::with_wire_id(record.transport) is Some {
                Some(AddressFault::WrongTransport)
            } else {
                None
            },
        }
    }
}

/// What the payload of a record decodes to.
pub open spec fn decoded_record_address(record: RecordView) -> Option<Option<MultiAddr>> {
    if record.readable() {
        Some(record.known_address())
    } else {
        None
    }
}

/// The first fault among the records of an owner.
pub open spec fn records_fault(records: Seq<RecordView>, owner: Seq<u8>) -> Option<AddressFault>
    decreases records.len(),
{
    if records.len() == 0 {
        None
    } else {
        match records_fault(records.drop_last(), owner) {
            Some(fault) => Some(fault),
            None => record_fault(records.last(), owner, decoded_record_address(records.last())),
        }
    }
}

/// The records as plain values.
pub open spec fn record_parts(records: Seq<RecordView>) -> Seq<(u16, u16, Seq<u8>)> {
    records.map(|_i: int, r: RecordView| (r.transport, r.reachability, r.address))
}

/// The record with the given plain values.
pub open spec fn from_parts(parts: SignedParts) -> SignedView {
    SignedView {
        owner: parts.0,
        sequence: parts.1,
        records: parts.2.map(
            |_i: int, r: (u16, u16, Seq<u8>)|
                RecordView { transport: r.0, reachability: r.1, address: r.2 },
        ),
        public_key: parts.3,
        signature: parts.4,
    }
}

/// The fault of a proof, given what the key stands for and what the signature
/// check says.
pub open spec fn proof_fault(
    owner: Seq<u8>,
    signer: Option<Seq<u8>>,
    verdict: Option<bool>,
) -> Option<AddressFault> {
    match signer {
        None => Some(AddressFault::Key),
        Some(peer) => if peer != owner {
            Some(AddressFault::Signer)
        } else {
            match verdict {
                None => Some(AddressFault::Unchecked),
                Some(good) => if good {
                    None
                } else {
                    Some(AddressFault::Forged)
                },
            }
        },
    }
}

impl SignedView {
    /// The plain values of a publication.
    pub open spec fn parts(self) -> SignedParts {
        (self.owner, self.sequence, record_parts(self.records), self.public_key, self.signature)
    }

    /// The bytes that the owner signs.
    pub open spec fn statement(self) -> Seq<u8> {
        statement_encoding(DOMAIN@, self.owner, self.sequence, record_parts(self.records))
    }

    /// Why the contents of a publication are refused, before any signature.
    pub open spec fn content_fault(self) -> Option<AddressFault> {
        if self.sequence == 0 || self.records.len() == 0 || self.records.len()
            > MAX_TRANSPORT_ADDRESS_RECORDS {
            Some(AddressFault::Cardinality)
        } else {
            records_fault(self.records, self.owner)
        }
    }

    /// What the signature check says of a publication.
    pub open spec fn verdict(self) -> Option<bool> {
        signature_check(self.public_key, self.statement(), self.signature)
    }

    /// Why a publication is refused.
    pub open spec fn fault(self) -> Option<AddressFault> {
        match self.content_fault() {
            Some(fault) => Some(fault),
            None => proof_fault(self.owner, key_fingerprint(self.public_key), self.verdict()),
        }
    }

    /// Whether a publication has admissible contents, a public key that stands
    /// for its owner, and a good signature of owner, sequence and records.
    pub open spec fn proven(self) -> bool {
        self.fault() is None
    }

    /// Whether the collections of a publication are within the decoding bounds.
    pub open spec fn within_limits(self) -> bool {
        &&& self.records.len() <= MAX_TRANSPORT_ADDRESS_RECORDS
        &&& forall|i: int|
            0 <= i < self.records.len() ==> (#[trigger] self.records[i]).address.len()
                <= MAX_TRANSPORT_ADDRESS_PAYLOAD
        &&& self.public_key.len() <= PUBLIC_KEY_BYTES
        &&& self.signature.len() <= SIGNATURE_BYTES
    }

    /// Whether a record of the publication is of the QUIC transport.
    pub open spec fn has_quic(self) -> bool {
        exists|i: int|
            0 <= i < self.records.len() && (#[trigger] self.records[i]).transport
                == KnownTransport::Quic.wire_id()
    }
}

/// What bytes decode to: nothing where they are too many, cannot be read, or
/// hold a collection that exceeds its bound.
pub open spec fn decoded_record(bytes: Seq<u8>) -> Option<SignedView> {
    match signed_decoding(bytes) {
        Some(parts) => if bytes.len() <= MAX_SIGNED_ADDRESS_BYTES && from_parts(
            parts,
        ).within_limits() {
            Some(from_parts(parts))
        } else {
            None
        },
        None => None,
    }
}

/// Whether a text is what is said of bytes that are no record: that they are too
/// many, that what was read is refused, or else what the decoder says.
pub open spec fn says_undecodable(bytes: Seq<u8>, text: Seq<char>) -> bool {
    if bytes.len() > MAX_SIGNED_ADDRESS_BYTES {
        text == "signed address record exceeds envelope limit"@
    } else {
        signed_decoding(bytes) is Some ==> text == "Serde Deserialization Error"@
    }
}

proof fn lemma_parts_round_trip(view: SignedView)
    ensures
        from_parts(view.parts()) == view,
{
    assert(from_parts(view.parts()).records =~= view.records);
}

proof fn lemma_records_size(records: Seq<RecordView>)
    requires
        forall|i: int|
            0 <= i < records.len() ==> (#[trigger] records[i]).address.len()
                <= MAX_TRANSPORT_ADDRESS_PAYLOAD,
    ensures
        records_size_limit(record_parts(records)) <= 2064 * records.len(),
    decreases records.len(),
{
    if records.len() > 0 {
        let parts = record_parts(records);
        assert(parts.drop_last() =~= record_parts(records.drop_last()));
        lemma_records_size(records.drop_last());
        assert(records.last() == records[records.len() - 1]);
    }
}

/// A copy of a list of records.
pub fn copy_records(records: &Vec<TransportAddressRecord>) -> (copy: Vec<TransportAddressRecord>)
    ensures
        record_views(copy@) == record_views(records@),
{
    let mut copy: Vec<TransportAddressRecord> = Vec::new();
    let mut index: usize = 0;
    while index < records.len()
        invariant
            index <= records@.len(),
            copy@.len() == index,
            forall|i: int| 0 <= i < index ==> #[trigger] copy@[i]@ == records@[i]@,
        decreases records@.len() - index,
    {
        copy.push(records[index].clone());
        index += 1;
    }
    assert(record_views(copy@) =~= record_views(records@));
    copy
}

fn plain_records(records: &Vec<TransportAddressRecord>) -> (plain: Vec<PlainRecord>)
    ensures
        plain_views(plain@) == record_parts(record_views(records@)),
{
    let mut plain: Vec<PlainRecord> = Vec::new();
    let mut index: usize = 0;
    while index < records.len()
        invariant
            index <= records@.len(),
            plain@.len() == index,
            forall|i: int|
                0 <= i < index ==> (#[trigger] plain@[i]).0 == records@[i].transport && plain@[i].1
                    == records@[i].reachability && plain@[i].2@ == records@[i].address@,
        decreases records@.len() - index,
    {
        let record = &records[index];
        plain.push((record.transport, record.reachability, copy_bytes(&record.address)));
        index += 1;
    }
    assert(plain_views(plain@) =~= record_parts(record_views(records@)));
    plain
}

impl Clone for SignedAddressRecord {
    fn clone(&self) -> (copy: Self)
        ensures
            copy@ == self@,
    {
        SignedAddressRecord {
            owner: self.owner,
            sequence: self.sequence,
            records: copy_records(&self.records),
            public_key: copy_bytes(&self.public_key),
            signature: copy_bytes(&self.signature),
        }
    }
}

/// Hold one record of an owner to the rules, given what its payload decodes to.
pub fn check_record(
    record: &TransportAddressRecord,
    owner: &PeerId,
    decoded: Result<Option<MultiAddr>, String>,
) -> (checked: Result<(), String>)
    ensures
        reports(
            checked,
            record_fault(
                record@,
                owner@,
                match decoded {
                    Ok(address) => Some(address),
                    Err(_) => None,
                },
            ),
        ),
        decoded matches Err(text) ==> record@.within_bounds() ==> checked == Err::<(), String>(text),
{
    if !record.is_within_wire_bounds() {
        return Err("address record payload exceeds bounds".to_owned());
    }
    match decoded {
        Err(error) => Err(error),
        Ok(Some(address)) => {
            if !address.is_storable() {
                return Err("address is not a dialable destination".to_owned());
            }
            let foreign = match address.peer_id() {
                Some(peer) => !peer.is(owner),
                None => address.is_webrtc_direct(),
            };
            if foreign {
                return Err("address owner mismatch".to_owned());
            }
            Ok(())
        },
        Ok(None) => {
            if KnownTransport::from_id(record.transport).is_some() {
                return Err("address does not match transport identifier".to_owned());
            }
            Ok(())
        },
    }
}

impl SignedAddressRecord {
    /// A publication as it came from elsewhere; verification is still required.
    pub fn from_wire(
        owner: PeerId,
        sequence: u64,
        records: Vec<TransportAddressRecord>,
        public_key: Vec<u8>,
        signature: Vec<u8>,
    ) -> (record: Self)
        ensures
            record@ == (SignedView {
                owner: owner@,
                sequence,
                records: record_views(records@),
                public_key: public_key@,
                signature: signature@,
            }),
    {
        SignedAddressRecord { owner, sequence, records, public_key, signature }
    }

    /// The transport-address set.
    pub fn records(&self) -> (records: &Vec<TransportAddressRecord>)
        ensures
            record_views(records@) == self@.records,
    {
        &self.records
    }

    /// The encoded public key.
    pub fn public_key(&self) -> (bytes: &Vec<u8>)
        ensures
            bytes@ == self@.public_key,
    {
        &self.public_key
    }

    /// The signature over owner, sequence and records.
    pub fn signature(&self) -> (bytes: &Vec<u8>)
        ensures
            bytes@ == self@.signature,
    {
        &self.signature
    }

    /// Put the outcome of signing to a publication; a failure is handed on.
    fn attach_signature(self, signature: Result<Vec<u8>, String>) -> (signed: Result<Self, String>)
        ensures
            match signature {
                Ok(s) => signed matches Ok(record) && record@ == (SignedView {
                    signature: s@,
                    ..self@
                }),
                Err(text) => signed == Err::<Self, String>(text),
            },
    {
        let mut record = self;
        match signature {
            Ok(signature) => {
                record.signature = signature;
                Ok(record)
            },
            Err(error) => Err(error),
        }
    }

    /// Sign one nonempty publication with the existing node identity.
    ///
    /// Inadmissible contents are refused with their fault. Past that, the signer
    /// alone decides: its failure is handed on, and whatever signature comes, the
    /// publication is proven.
    pub fn sign(
        identity: &NodeIdentity,
        sequence: u64,
        records: Vec<TransportAddressRecord>,
    ) -> (signed: Result<Self, String>)
        ensures
            ({
                let unsigned = SignedView {
                    owner: identity.owner()@,
                    sequence,
                    records: record_views(records@),
                    public_key: identity.public(),
                    signature: Seq::empty(),
                };
                &&& unsigned.content_fault() is Some ==> reports(signed, unsigned.content_fault())
                &&& unsigned.content_fault() is None ==> exists|outcome: Result<Vec<u8>, String>|
                    #[trigger]
                    can_sign(identity.public(), unsigned.statement(), outcome) && match outcome {
                        Ok(s) => signed matches Ok(record) && record@ == (SignedView {
                            signature: s@,
                            ..unsigned
                        }),
                        Err(text) => signed == Err::<Self, String>(text),
                    }
                &&& signed matches Ok(record) ==> record@.proven() && record@.within_limits()
            }),
    {
        let ghost unsigned = SignedView {
            owner: identity.owner()@,
            sequence,
            records: record_views(records@),
            public_key: identity.public(),
            signature: Seq::empty(),
        };
        let signature: Vec<u8> = Vec::new();
        let record = SignedAddressRecord {
            owner: identity.peer_id(),
            sequence,
            records,
            public_key: identity.public_key(),
            signature,
        };
        proof {
            assert(record@.signature =~= Seq::<u8>::empty());
            assert(record@ == unsigned);
        }
        match record.validate() {
            Ok(()) => {},
            Err(error) => {
                return Err(error);
            },
        }
        let message = match record.signable_bytes() {
            Ok(message) => message,
            Err(error) => {
                return Err(error);
            },
        };
        let outcome = identity.sign(&message);
        proof {
            lemma_admissible_payloads(record@.records, record@.owner);
            assert(can_sign(identity.public(), unsigned.statement(), outcome));
        }
        record.attach_signature(outcome)
    }

    fn signable_bytes(&self) -> (message: Result<Vec<u8>, String>)
        ensures
            message matches Ok(bytes) && bytes@ == self@.statement(),
    {
        let plain = plain_records(&self.records);
        encode_statement(DOMAIN, self.owner.as_bytes(), self.sequence, &plain)
    }

    /// Hold the contents to the rules, before any signature.
    pub fn validate(&self) -> (checked: Result<(), String>)
        ensures
            reports(checked, self@.content_fault()),
    {
        if self.sequence == 0 || self.records.len() == 0 || self.records.len()
            > MAX_TRANSPORT_ADDRESS_RECORDS {
            return Err("invalid address record sequence or cardinality".to_owned());
        }
        let ghost views = record_views(self.records@);
        let mut index: usize = 0;
        while index < self.records.len()
            invariant
                index <= self.records@.len(),
                self.sequence != 0,
                0 < self.records@.len() <= MAX_TRANSPORT_ADDRESS_RECORDS,
                views == record_views(self.records@),
                records_fault(views.take(index as int), self.owner@) is None,
            decreases self.records@.len() - index,
        {
            let record = &self.records[index];
            proof {
                assert(views.take(index as int + 1).drop_last() =~= views.take(index as int));
                assert(views.take(index as int + 1).last() == record@);
            }
            match check_record(record, &self.owner, record.decode_known()) {
                Ok(()) => {},
                Err(error) => {
                    proof {
                        lemma_fault_persists(views, self.owner@, index as int + 1);
                    }
                    return Err(error);
                },
            }
            index += 1;
        }
        assert(views.take(views.len() as int) =~= views);
        Ok(())
    }

    /// Decide a proof from what its public key stands for and what the
    /// signature check says.
    pub fn judge_proof(
        owner: &PeerId,
        signer: Result<PeerId, String>,
        verdict: Result<bool, String>,
    ) -> (judged: Result<(), String>)
        ensures
            reports(
                judged,
                proof_fault(
                    owner@,
                    match signer {
                        Ok(peer) => Some(peer@),
                        Err(_) => None,
                    },
                    match verdict {
                        Ok(good) => Some(good),
                        Err(_) => None,
                    },
                ),
            ),
            signer matches Err(text) ==> judged == Err::<(), String>(text),
    {
        let signer = match signer {
            Ok(peer) => peer,
            Err(error) => {
                return Err(error);
            },
        };
        if !signer.is(owner) {
            return Err("address signing key does not match owner".to_owned());
        }
        match verdict {
            Err(error) => Err(error),
            Ok(good) => {
                if !good {
                    return Err("invalid address record signature".to_owned());
                }
                Ok(())
            },
        }
    }

    /// Verify the signature and public-key-derived owner before using any
    /// fields.
    pub fn verify(&self) -> (verified: Result<VerifiedAddressRecord, String>)
        ensures
            reports(verified, self@.fault()),
            verified matches Ok(record) ==> record@ == self@,
            verified is Ok ==> self@.within_limits(),
    {
        match self.validate() {
            Ok(()) => {},
            Err(error) => {
                return Err(error);
            },
        }
        let signer = peer_id_from_public_key(&self.public_key);
        let verdict = match self.signable_bytes() {
            Ok(message) => check_signature(&self.public_key, &message, &self.signature),
            Err(error) => Err(error),
        };
        match SignedAddressRecord::judge_proof(&self.owner, signer, verdict) {
            Ok(()) => {
                proof {
                    lemma_admissible_payloads(self@.records, self@.owner);
                }
                Ok(VerifiedAddressRecord { record: self.clone() })
            },
            Err(error) => Err(error),
        }
    }

    /// Encode the unchanged publication for forwarding.
    ///
    /// A publication within the decoding bounds, such as one that was signed here
    /// or verified, fits the envelope and is read back from the encoding as it
    /// was.
    pub fn encode(&self) -> (encoded: Result<Vec<u8>, String>)
        ensures
            encoded matches Ok(bytes) && bytes@ == signed_encoding(self@.parts())
                && signed_decoding(bytes@) == Some(self@.parts()) && (!self@.within_limits()
                ==> decoded_record(bytes@) is None) && (self@.within_limits() ==> bytes@.len() <= MAX_SIGNED_ADDRESS_BYTES && decoded_record(
                bytes@,
            ) == Some(self@)),
    {
        let plain: PlainSigned = (
            *self.owner.as_bytes(),
            self.sequence,
            plain_records(&self.records),
            copy_bytes(&self.public_key),
            copy_bytes(&self.signature),
        );
        proof {
            assert(signed_parts(plain) == self@.parts());
            lemma_parts_round_trip(self@);
            if self@.within_limits() {
                lemma_records_size(self@.records);
            }
        }
        encode_signed(&plain)
    }

    fn from_plain(plain: PlainSigned) -> (record: Self)
        ensures
            record@ == from_parts(signed_parts(plain)),
    {
        let mut records: Vec<TransportAddressRecord> = Vec::new();
        let mut index: usize = 0;
        while index < plain.2.len()
            invariant
                index <= plain.2@.len(),
                records@.len() == index,
                forall|i: int|
                    0 <= i < index ==> (#[trigger] records@[i])@ == (RecordView {
                        transport: plain.2@[i].0,
                        reachability: plain.2@[i].1,
                        address: plain.2@[i].2@,
                    }),
            decreases plain.2@.len() - index,
        {
            let part = &plain.2[index];
            records.push(
                TransportAddressRecord {
                    transport: part.0,
                    reachability: part.1,
                    address: copy_bytes(&part.2),
                },
            );
            index += 1;
        }
        proof {
            assert(record_views(records@) =~= from_parts(signed_parts(plain)).records);
        }
        SignedAddressRecord {
            owner: PeerId::from_bytes(plain.0),
            sequence: plain.1,
            records,
            public_key: plain.3,
            signature: plain.4,
        }
    }

    /// Whether the collections are within the decoding bounds.
    pub fn is_within_limits(&self) -> (result: bool)
        ensures
            result == self@.within_limits(),
    {
        if self.records.len() > MAX_TRANSPORT_ADDRESS_RECORDS || self.public_key.len()
            > PUBLIC_KEY_BYTES || self.signature.len() > SIGNATURE_BYTES {
            return false;
        }
        let mut index: usize = 0;
        while index < self.records.len()
            invariant
                index <= self.records@.len(),
                forall|i: int|
                    0 <= i < index ==> (#[trigger] self@.records[i]).address.len()
                        <= MAX_TRANSPORT_ADDRESS_PAYLOAD,
            decreases self.records@.len() - index,
        {
            proof {
                assert(self@.records[index as int] == self.records@[index as int]@);
            }
            if self.records[index].address.len() > MAX_TRANSPORT_ADDRESS_PAYLOAD {
                return false;
            }
            index += 1;
        }
        true
    }

    /// Decode with envelope and collection bounds; verification is still
    /// required.
    ///
    /// The text of a failure to read the bytes, or to keep what was read, is the
    /// decoder's own.
    pub fn decode(bytes: &[u8]) -> (decoded: Result<Self, String>)
        ensures
            decoded is Ok <==> decoded_record(bytes@) is Some,
            match decoded {
                Ok(record) => decoded_record(bytes@) == Some(record@),
                Err(error) => says_undecodable(bytes@, error@),
            },
    {
        if bytes.len() > MAX_SIGNED_ADDRESS_BYTES {
            return Err("signed address record exceeds envelope limit".to_owned());
        }
        match decode_signed(bytes) {
            Ok(plain) => {
                let record = SignedAddressRecord::from_plain(plain);
                if !record.is_within_limits() {
                    return Err(refusal_text());
                }
                Ok(record)
            },
            Err(error) => Err(error),
        }
    }
}

proof fn lemma_fault_persists(records: Seq<RecordView>, owner: Seq<u8>, count: int)
    requires
        0 <= count <= records.len(),
        records_fault(records.take(count), owner) is Some,
    ensures
        records_fault(records, owner) == records_fault(records.take(count), owner),
    decreases records.len() - count,
{
    if count < records.len() {
        assert(records.take(count + 1).drop_last() =~= records.take(count));
        lemma_fault_persists(records, owner, count + 1);
    } else {
        assert(records.take(count) =~= records);
    }
}

proof fn lemma_admissible_payloads(records: Seq<RecordView>, owner: Seq<u8>)
    requires
        records_fault(records, owner) is None,
    ensures
        forall|i: int| 0 <= i < records.len() ==> (#[trigger] records[i]).within_bounds(),
    decreases records.len(),
{
    if records.len() > 0 {
        lemma_admissible_payloads(records.drop_last(), owner);
        assert forall|i: int| 0 <= i < records.len() implies (
        #[trigger] records[i]).within_bounds() by {
            if i < records.len() - 1 {
                assert(records.drop_last()[i] == records[i]);
            }
        }
    }
}

/// A publication whose owner, bounds and signature were verified.
/// Publications do not expire; receivers retain the newest known sequence.
/// It comes from [`SignedAddressRecord::verify`] alone.
#[derive(Debug, PartialEq, Eq)]
pub struct VerifiedAddressRecord {
    record: SignedAddressRecord,
}

impl View for VerifiedAddressRecord {
    type V = SignedView;

    closed spec fn view(&self) -> SignedView {
        self.record@
    }
}

impl Clone for VerifiedAddressRecord {
    fn clone(&self) -> (copy: Self)
        ensures
            copy@ == self@,
    {
        proof {
            use_type_invariant(self);
        }
        VerifiedAddressRecord { record: self.record.clone() }
    }
}

impl VerifiedAddressRecord {
    #[verifier::type_invariant]
    spec fn is_proven(self) -> bool {
        self.record@.proven() && self.record@.within_limits()
    }

    /// Owner of this publication.
    pub fn owner(&self) -> (owner: PeerId)
        ensures
            owner@ == self@.owner,
            key_fingerprint(self@.public_key) == Some(owner@),
    {
        proof {
            use_type_invariant(self);
        }
        self.record.owner
    }

    /// Owner-established sequence.
    pub fn sequence(&self) -> (sequence: u64)
        ensures
            sequence == self@.sequence,
            sequence != 0,
    {
        proof {
            use_type_invariant(self);
        }
        self.record.sequence
    }

    /// Original records, including unknown transport payloads.
    pub fn records(&self) -> (records: &Vec<TransportAddressRecord>)
        ensures
            record_views(records@) == self@.records,
            0 < records@.len() <= MAX_TRANSPORT_ADDRESS_RECORDS,
    {
        proof {
            use_type_invariant(self);
        }
        &self.record.records
    }

    /// Original signed payload, never a filtered projection.
    pub fn signed(&self) -> (record: &SignedAddressRecord)
        ensures
            record@ == self@,
            record@.proven(),
            record@.within_limits(),
    {
        proof {
            use_type_invariant(self);
        }
        &self.record
    }
}

} // verus!
