//! The view of known transports that is derived from a signed publication.

use crate::address::MultiAddr;
use crate::authority::{AddressAuthority, AuthorityView};
use crate::peer_record::{
    encode_publish_seq_distance, entry_addresses, entry_types, sequence_metadata, AddressType,
    DHTNode, NodeView, Typed,
};
use crate::signed_address::{record_views, SignedView, VerifiedAddressRecord};
use crate::transport_address::{KnownReachability, RecordView, TransportAddressRecord};
use vstd::prelude::*;

verus! {

/// The type of a decoded address under a reachability identifier. A WebRTC
/// address is never more than unverified: evidence for QUIC says nothing about
/// another transport.
pub open spec fn projected_type(address: MultiAddr, reachability: u16) -> AddressType {
    let advertised = if address.transport is WebRtcDirect {
        AddressType::Unverified
    } else {
        match KnownReachability::with_wire_id(reachability) {
            Some(class) => class.legacy(),
            None => AddressType::Unverified,
        }
    };
    AddressType::tag(address, advertised)
}

/// The known addresses of records with their types, in order.
pub open spec fn projected(records: Seq<RecordView>) -> Seq<Typed>
    decreases records.len(),
{
    if records.len() == 0 {
        Seq::empty()
    } else {
        let before = projected(records.drop_last());
        let record = records.last();
        if record.readable() && record.known_address() is Some {
            let address = record.known_address()->0;
            before.push((address, projected_type(address, record.reachability)))
        } else {
            before
        }
    }
}

/// The view of known transports of a publication.
pub open spec fn projected_node(publication: SignedView, reliability: u64) -> NodeView {
    NodeView {
        peer: publication.owner,
        addresses: entry_addresses(projected(publication.records)),
        types: entry_types(projected(publication.records)),
        distance: sequence_metadata(publication.sequence),
        reliability,
        authority: Some(AuthorityView::Signed(publication)),
    }
}

/// The type of a decoded address under a reachability identifier.
pub fn projected_type_of(address: &MultiAddr, reachability: u16) -> (kind: AddressType)
    ensures
        kind == projected_type(*address, reachability),
{
    let advertised = if address.is_webrtc_direct() {
        AddressType::Unverified
    } else {
        match KnownReachability::from_id(reachability) {
            Some(class) => class.into_legacy(),
            None => AddressType::Unverified,
        }
    };
    AddressType::for_advertised_address(address, advertised)
}

impl VerifiedAddressRecord {
    /// Derive a portable view of known transports without modifying the
    /// signature.
    pub fn peer_record(&self, reliability: u64) -> (node: DHTNode)
        ensures
            node@ == projected_node(self@, reliability),
    {
        let records = self.records();
        let ghost views = record_views(records@);
        let mut addresses: Vec<MultiAddr> = Vec::new();
        let mut address_types: Vec<AddressType> = Vec::new();
        let mut index: usize = 0;
        proof {
            assert(addresses@ =~= entry_addresses(projected(views.take(0))));
            assert(address_types@ =~= entry_types(projected(views.take(0))));
        }
        while index < records.len()
            invariant
                index <= records@.len(),
                views == record_views(records@),
                addresses@ == entry_addresses(projected(views.take(index as int))),
                address_types@ == entry_types(projected(views.take(index as int))),
            decreases records@.len() - index,
        {
            let record: &TransportAddressRecord = &records[index];
            let ghost before = projected(views.take(index as int));
            proof {
                assert(views.take(index as int + 1).drop_last() =~= views.take(index as int));
                assert(views.take(index as int + 1).last() == record@);
            }
            if let Ok(Some(address)) = record.decode_known() {
                let kind = projected_type_of(&address, record.reachability);
                addresses.push(address);
                address_types.push(kind);
                proof {
                    let after = before.push((address, kind));
                    assert(entry_addresses(after) =~= entry_addresses(before).push(address));
                    assert(entry_types(after) =~= entry_types(before).push(kind));
                }
            }
            index += 1;
        }
        assert(views.take(views.len() as int) =~= views);
        DHTNode {
            peer_id: self.owner(),
            addresses,
            address_types,
            distance: encode_publish_seq_distance(self.sequence()),
            reliability,
            address_authority: Some(AddressAuthority::Signed(self.clone())),
        }
    }
}

/// The view of a publication is that of its owner, with the authority of the
/// signature and its sequence, one tag for each address, and the reliability that
/// is given.
pub proof fn law_views_carry_the_publication(
    publication: SignedView,
    reliability: u64,
    index: int,
)
    requires
        0 <= index < projected(publication.records).len(),
    ensures
        ({
            let node = projected_node(publication, reliability);
            &&& node.peer == publication.owner
            &&& node.reliability == reliability
            &&& node.generation() == 2
            &&& node.publish_seq() == publication.sequence
            &&& node.version() == publication.sequence
            &&& node.authority matches Some(authority) && authority.signed() == Some(publication)
            &&& node.addresses.len() == projected(publication.records).len()
            &&& node.types.len() == node.addresses.len()
            &&& (node.addresses[index], node.types[index]) == projected(publication.records)[index]
            &&& publication.sequence == 0 <==> node.distance is None
        }),
{
}

} // verus!
