//! Where an address view has its authority from.

use crate::signed_address::{SignedView, VerifiedAddressRecord};
use crate::transport_address::KnownTransport;
use vstd::prelude::*;

verus! {

/// Local-only provenance. This is deliberately absent from wire peer records.
#[derive(Debug)]
pub enum AddressAuthority {
    /// QUIC projection received directly on the owner's authenticated
    /// connection.
    AuthenticatedOwner(u64),
    /// A portable owner signature, independently checked by this process.
    Signed(VerifiedAddressRecord),
    /// A local view combining independently versioned QUIC and signed
    /// information. The signature covers only `publication`, never the combined
    /// address list.
    Combined {
        /// Sequence of the owner-proven QUIC projection, or zero for an
        /// unsequenced routing contact retained alongside a supplemental record.
        quic_sequence: u64,
        /// Latest unchanged owner-signed publication.
        publication: VerifiedAddressRecord,
    },
}

/// What an authority rests on.
#[verifier::ext_equal]
pub enum AuthorityView {
    /// The owner's connection.
    AuthenticatedOwner(u64),
    /// A signed publication.
    Signed(SignedView),
    /// A signed publication with a QUIC projection of its own sequence.
    Combined {
        /// Sequence of the QUIC projection.
        quic_sequence: u64,
        /// Signed publication.
        publication: SignedView,
    },
}

impl View for AddressAuthority {
    type V = AuthorityView;

    open spec fn view(&self) -> AuthorityView {
        match *self {
            AddressAuthority::AuthenticatedOwner(sequence) => AuthorityView::AuthenticatedOwner(
                sequence,
            ),
            AddressAuthority::Signed(record) => AuthorityView::Signed(record@),
            AddressAuthority::Combined { quic_sequence, publication } => AuthorityView::Combined {
                quic_sequence,
                publication: publication@,
            },
        }
    }
}

/// Sequence of the QUIC information in a publication, zero where it has none.
pub open spec fn published_quic_sequence(publication: SignedView) -> u64 {
    if publication.has_quic() {
        publication.sequence
    } else {
        0
    }
}

impl AuthorityView {
    /// Sequence established by the owner.
    pub open spec fn owner_sequence(self) -> u64 {
        match self {
            AuthorityView::AuthenticatedOwner(sequence) => sequence,
            AuthorityView::Signed(record) => record.sequence,
            AuthorityView::Combined { quic_sequence, publication } => if quic_sequence
                >= publication.sequence {
                quic_sequence
            } else {
                publication.sequence
            },
        }
    }

    /// Sequence of the QUIC information.
    pub open spec fn quic(self) -> u64 {
        match self {
            AuthorityView::AuthenticatedOwner(sequence) => sequence,
            AuthorityView::Signed(record) => published_quic_sequence(record),
            AuthorityView::Combined { quic_sequence, .. } => quic_sequence,
        }
    }

    /// The signed publication.
    pub open spec fn signed(self) -> Option<SignedView> {
        match self {
            AuthorityView::AuthenticatedOwner(_) => None,
            AuthorityView::Signed(record) => Some(record),
            AuthorityView::Combined { publication, .. } => Some(publication),
        }
    }

    /// The authority of a publication beside QUIC information of a sequence.
    pub open spec fn beside(quic_sequence: u64, publication: SignedView) -> AuthorityView {
        if published_quic_sequence(publication) == quic_sequence {
            AuthorityView::Signed(publication)
        } else {
            AuthorityView::Combined { quic_sequence, publication }
        }
    }

    /// The sequence that orders views of the same protocol version: that of the
    /// signed publication where there is one.
    pub open spec fn version_sequence(self) -> u64 {
        match self.signed() {
            Some(record) => record.sequence,
            None => self.owner_sequence(),
        }
    }
}

impl Clone for AddressAuthority {
    fn clone(&self) -> (copy: Self)
        ensures
            copy@ == self@,
    {
        match self {
            AddressAuthority::AuthenticatedOwner(sequence) => AddressAuthority::AuthenticatedOwner(
                *sequence,
            ),
            AddressAuthority::Signed(record) => AddressAuthority::Signed(record.clone()),
            AddressAuthority::Combined { quic_sequence, publication } => AddressAuthority::Combined {
                quic_sequence: *quic_sequence,
                publication: publication.clone(),
            },
        }
    }
}

fn publication_quic_sequence(publication: &VerifiedAddressRecord) -> (sequence: u64)
    ensures
        sequence == published_quic_sequence(publication@),
{
    let records = publication.records();
    let mut index: usize = 0;
    while index < records.len()
        invariant
            index <= records@.len(),
            crate::signed_address::record_views(records@) == publication@.records,
            forall|i: int|
                0 <= i < index ==> (#[trigger] publication@.records[i]).transport
                    != KnownTransport::Quic.wire_id(),
        decreases records@.len() - index,
    {
        assert(publication@.records[index as int] == records@[index as int]@);
        if records[index].transport == KnownTransport::Quic.id() {
            return publication.sequence();
        }
        index += 1;
    }
    0
}

impl AddressAuthority {
    /// Sequence established by the owner rather than asserted by an
    /// intermediary.
    pub fn sequence(&self) -> (sequence: u64)
        ensures
            sequence == self@.owner_sequence(),
    {
        match self {
            AddressAuthority::AuthenticatedOwner(sequence) => *sequence,
            AddressAuthority::Signed(record) => record.sequence(),
            AddressAuthority::Combined { quic_sequence, publication } => {
                let signed = publication.sequence();
                if *quic_sequence >= signed {
                    *quic_sequence
                } else {
                    signed
                }
            },
        }
    }

    /// Sequence of the QUIC information represented by this local view.
    pub fn quic_sequence(&self) -> (sequence: u64)
        ensures
            sequence == self@.quic(),
    {
        match self {
            AddressAuthority::AuthenticatedOwner(sequence) => *sequence,
            AddressAuthority::Signed(record) => publication_quic_sequence(record),
            AddressAuthority::Combined { quic_sequence, .. } => *quic_sequence,
        }
    }

    /// Original signed publication, independent of newer QUIC-only updates.
    pub fn publication(&self) -> (publication: Option<&VerifiedAddressRecord>)
        ensures
            match publication {
                Some(record) => self@.signed() == Some(record@),
                None => self@.signed() is None,
            },
    {
        match self {
            AddressAuthority::AuthenticatedOwner(_) => None,
            AddressAuthority::Signed(record) => Some(record),
            AddressAuthority::Combined { publication, .. } => Some(publication),
        }
    }

    /// The authority of a publication beside QUIC information of a sequence:
    /// the publication's own where that is the sequence of its QUIC records.
    pub fn with_publication(quic_sequence: u64, publication: VerifiedAddressRecord) -> (authority:
        Self)
        ensures
            authority@ == AuthorityView::beside(quic_sequence, publication@),
    {
        if publication_quic_sequence(&publication) == quic_sequence {
            AddressAuthority::Signed(publication)
        } else {
            AddressAuthority::Combined { quic_sequence, publication }
        }
    }
}

/// Combining a publication with QUIC information keeps both: the publication is
/// handed on unchanged, the QUIC sequence is the one given, and the sequence of
/// the owner is the higher of the two.
pub proof fn law_with_publication_keeps_both(quic_sequence: u64, publication: SignedView)
    ensures
        ({
            let authority = AuthorityView::beside(quic_sequence, publication);
            &&& authority.signed() == Some(publication)
            &&& authority.quic() == quic_sequence
            &&& authority.version_sequence() == publication.sequence
            &&& authority.owner_sequence() >= quic_sequence
            &&& authority.owner_sequence() >= publication.sequence
            &&& authority.owner_sequence() == quic_sequence || authority.owner_sequence()
                == publication.sequence
        }),
{
}

/// The owner's connection alone gives one sequence to everything and no
/// publication. A publication gives its sequence to QUIC exactly where it has a
/// QUIC record.
pub proof fn law_publications_speak_for_their_transports(sequence: u64, publication: SignedView)
    ensures
        ({
            let connected = AuthorityView::AuthenticatedOwner(sequence);
            let signed = AuthorityView::Signed(publication);
            &&& connected.signed() is None
            &&& connected.owner_sequence() == sequence
            &&& connected.quic() == sequence
            &&& connected.version_sequence() == sequence
            &&& signed.owner_sequence() == publication.sequence
            &&& (exists|i: int|
                0 <= i < publication.records.len() && (#[trigger] publication.records[i]).transport
                    == 1) ==> signed.quic() == publication.sequence
            &&& !(exists|i: int|
                0 <= i < publication.records.len() && (#[trigger] publication.records[i]).transport
                    == 1) ==> signed.quic() == 0
        }),
{
}

} // verus!
