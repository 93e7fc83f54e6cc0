//! Portable DHT peer records, address priorities, and witnessed lookup results.

use crate::address::{is_lan_ip, MultiAddr};
use crate::authority::{AddressAuthority, AuthorityView};
use crate::dht_lookup::LookupNode;
use crate::keys::LookupKey;
use crate::peer_id::{Key, PeerId};
use crate::record_bundle::{be_bytes, push_be};
use crate::transport_address::copy_bytes;
use vstd::prelude::*;

verus! {

/// Address classification for priority ordering and staleness eviction.
///
/// Priority: Relay > Direct > Unverified > Lan.
#[derive(Debug, Clone, Copy, PartialEq, Eq, Structural)]
pub enum AddressType {
    /// Address through a relay server (always reachable).
    Relay,
    /// Direct public IP address verified reachable without NAT traversal.
    Direct,
    /// Self-published observed external address whose reachability has not
    /// been confirmed by the local classifier.
    Unverified,
    /// LAN or other local-scope address.
    Lan,
}

impl AddressType {
    /// Priority index for ordering addresses by type. Lower is preferred.
    pub open spec fn rank(self) -> u8 {
        match self {
            AddressType::Relay => 0,
            AddressType::Direct => 1,
            AddressType::Unverified => 2,
            AddressType::Lan => 3,
        }
    }

    /// The type that an advertised type counts as for an address.
    pub open spec fn tag(address: MultiAddr, advertised: AddressType) -> AddressType {
        if address.socket_addr.ip.lan() {
            AddressType::Lan
        } else {
            advertised
        }
    }

    /// Priority index for ordering addresses by type. Lower is preferred.
    ///
    /// Relay (0) → Direct (1) → Unverified (2) → Lan (3).
    pub fn priority(self) -> (priority: u8)
        ensures
            priority == self.rank(),
    {
        match self {
            AddressType::Relay => 0,
            AddressType::Direct => 1,
            AddressType::Unverified => 2,
            AddressType::Lan => 3,
        }
    }

    /// Canonicalize an advertised type against the address itself.
    ///
    /// A local-scope IP address is never accepted as Relay, Direct, or
    /// Unverified, even if that is what a peer advertised. It may still be
    /// stored as [`AddressType::Lan`] so same-LAN peers can use it.
    pub fn for_advertised_address(address: &MultiAddr, advertised: Self) -> (tag: Self)
        ensures
            tag == AddressType::tag(*address, advertised),
    {
        if is_lan_ip(address.ip()) {
            AddressType::Lan
        } else {
            advertised
        }
    }
}

/// DHT node representation for network operations.
///
/// The `addresses` field stores one or more typed [`MultiAddr`] values.
/// Peers may be multi-homed or reachable via NAT traversal at several
/// endpoints.
#[derive(Debug)]
pub struct DHTNode {
    /// Identity of the peer.
    pub peer_id: PeerId,
    /// Addresses of the peer.
    pub addresses: Vec<MultiAddr>,
    /// Type tag for each address, parallel to `addresses` by index. An address
    /// without a tag counts as [`AddressType::Unverified`]: its publisher never
    /// asserted reachability.
    pub address_types: Vec<AddressType>,
    /// Optional per-record metadata, which may carry a marker-encoded
    /// publication sequence for older nodes.
    pub distance: Option<Vec<u8>>,
    /// Reliability score, as a number that orders as the score does.
    pub reliability: u64,
    /// Where the addresses have their authority from. Never taken from the
    /// wire.
    pub address_authority: Option<AddressAuthority>,
}

/// What a peer record says.
#[verifier::ext_equal]
pub struct NodeView {
    /// Identity of the peer.
    pub peer: Seq<u8>,
    /// Addresses of the peer.
    pub addresses: Seq<MultiAddr>,
    /// Type tags of the addresses.
    pub types: Seq<AddressType>,
    /// Metadata.
    pub distance: Option<Seq<u8>>,
    /// Reliability score.
    pub reliability: u64,
    /// Authority of the addresses.
    pub authority: Option<AuthorityView>,
}

impl View for DHTNode {
    type V = NodeView;

    open spec fn view(&self) -> NodeView {
        NodeView {
            peer: self.peer_id@,
            addresses: self.addresses@,
            types: self.address_types@,
            distance: match self.distance {
                Some(bytes) => Some(bytes@),
                None => None,
            },
            reliability: self.reliability,
            authority: match self.address_authority {
                Some(authority) => Some(authority@),
                None => None,
            },
        }
    }
}

/// Addresses with their tags.
pub type Typed = (MultiAddr, AddressType);

/// Whether no address with a worse tag stands before one with a better tag.
pub open spec fn by_priority(typed: Seq<Typed>) -> bool {
    forall|i: int, j: int|
        0 <= i < j < typed.len() ==> (#[trigger] typed[i]).1.rank() <= (#[trigger] typed[j]).1.rank()
}

/// The entries with one rank, in order.
pub open spec fn of_rank(typed: Seq<Typed>, rank: u8) -> Seq<Typed> {
    typed.filter(|entry: Typed| entry.1.rank() == rank)
}

/// The entries in order of their ranks, and in their own order within a rank.
pub open spec fn sorted(typed: Seq<Typed>) -> Seq<Typed> {
    of_rank(typed, 0) + of_rank(typed, 1) + of_rank(typed, 2) + of_rank(typed, 3)
}

/// The addresses of typed entries.
pub open spec fn entry_addresses(typed: Seq<Typed>) -> Seq<MultiAddr> {
    typed.map(|_i: int, entry: Typed| entry.0)
}

/// The tags of typed entries.
pub open spec fn entry_types(typed: Seq<Typed>) -> Seq<AddressType> {
    typed.map(|_i: int, entry: Typed| entry.1)
}

/// The position of an address among typed entries.
pub open spec fn position(typed: Seq<Typed>, address: MultiAddr) -> Option<int>
    decreases typed.len(),
{
    if typed.len() == 0 {
        None
    } else {
        match position(typed.drop_last(), address) {
            Some(i) => Some(i),
            None => if typed.last().0 == address {
                Some(typed.len() - 1)
            } else {
                None
            },
        }
    }
}

/// The entries after one more was offered: an address that is there keeps its
/// place and takes the better tag, and another one joins at the end.
pub open spec fn offered(typed: Seq<Typed>, entry: Typed) -> Seq<Typed> {
    match position(typed, entry.0) {
        Some(i) => if entry.1.rank() < typed[i].1.rank() {
            typed.update(i, entry)
        } else {
            typed
        },
        None => typed.push(entry),
    }
}

/// The entries after a list of others was offered, in order.
pub open spec fn all_offered(typed: Seq<Typed>, entries: Seq<Typed>) -> Seq<Typed>
    decreases entries.len(),
{
    if entries.len() == 0 {
        typed
    } else {
        offered(all_offered(typed, entries.drop_last()), entries.last())
    }
}

/// The marker before a publication sequence in the metadata of a record.
pub open spec fn sequence_marker() -> Seq<u8> {
    seq![0x50u8, 0x55, 0x42, 0x53, 0x45, 0x51, 0x30, 0x31]
}

/// A number below 2^64 as eight bytes, high byte first.
pub open spec fn be_bytes64(value: nat) -> Seq<u8> {
    be_bytes(value / 0x1_0000_0000) + be_bytes(value % 0x1_0000_0000)
}

/// The metadata that carries a publication sequence; none for zero.
pub open spec fn sequence_metadata(sequence: u64) -> Option<Seq<u8>> {
    if sequence == 0 {
        None
    } else {
        Some(sequence_marker() + be_bytes64(sequence as nat))
    }
}

impl NodeView {
    /// The addresses with their tags: the advertised tag where there is one,
    /// and the tag of local scope for an address of local scope.
    pub open spec fn typed(self) -> Seq<Typed> {
        Seq::new(
            self.addresses.len(),
            |i: int|
                (
                    self.addresses[i],
                    AddressType::tag(
                        self.addresses[i],
                        if i < self.types.len() {
                            self.types[i]
                        } else {
                            AddressType::Unverified
                        },
                    ),
                ),
        )
    }

    /// The sequence that the owner established; zero for a hint.
    pub open spec fn publish_seq(self) -> u64 {
        match self.authority {
            Some(authority) => authority.owner_sequence(),
            None => 0,
        }
    }

    /// The protocol version that the addresses have their authority from: two
    /// for an owner signature, one for the owner's connection, zero for a hint.
    pub open spec fn generation(self) -> nat {
        match self.authority {
            Some(authority) => if authority.signed() is Some {
                2
            } else if authority.owner_sequence() != 0 {
                1
            } else {
                0
            },
            None => 0,
        }
    }

    /// The sequence within the protocol version.
    pub open spec fn version(self) -> u64 {
        match self.authority {
            Some(authority) => authority.version_sequence(),
            None => 0,
        }
    }

    /// Whether the addresses have more authority than those of another record.
    /// The protocol version comes before the sequence.
    pub open spec fn outranks(self, other: NodeView) -> bool {
        self.generation() > other.generation() || (self.generation() == other.generation()
            && self.version() > other.version())
    }

    /// The record after another one was merged into it: the addresses with more
    /// authority stay alone, those of two hints are united, and a record with
    /// the same proven authority changes nothing.
    pub open spec fn merged(self, other: NodeView) -> NodeView {
        let reliability = if other.reliability > self.reliability {
            other.reliability
        } else {
            self.reliability
        };
        if other.outranks(self) {
            NodeView {
                peer: self.peer,
                distance: sequence_metadata(other.publish_seq()),
                reliability,
                ..other
            }
        } else if self.generation() > 0 {
            NodeView { distance: sequence_metadata(self.publish_seq()), reliability, ..self }
        } else {
            let united = sorted(all_offered(self.typed(), other.typed()));
            NodeView {
                addresses: entry_addresses(united),
                types: entry_types(united),
                reliability,
                ..self
            }
        }
    }
}

/// A copy of a list of addresses.
pub(crate) fn copy_addresses(addresses: &Vec<MultiAddr>) -> (copy: Vec<MultiAddr>)
    ensures
        copy@ == addresses@,
{
    let mut copy: Vec<MultiAddr> = Vec::new();
    let mut index: usize = 0;
    while index < addresses.len()
        invariant
            index <= addresses@.len(),
            copy@ == addresses@.take(index as int),
        decreases addresses@.len() - index,
    {
        copy.push(addresses[index]);
        proof {
            assert(addresses@.take(index as int + 1) =~= addresses@.take(index as int).push(
                addresses@[index as int],
            ));
        }
        index += 1;
    }
    assert(addresses@.take(addresses@.len() as int) =~= addresses@);
    copy
}

fn copy_types(types: &Vec<AddressType>) -> (copy: Vec<AddressType>)
    ensures
        copy@ == types@,
{
    let mut copy: Vec<AddressType> = Vec::new();
    let mut index: usize = 0;
    while index < types.len()
        invariant
            index <= types@.len(),
            copy@ == types@.take(index as int),
        decreases types@.len() - index,
    {
        copy.push(types[index]);
        proof {
            assert(types@.take(index as int + 1) =~= types@.take(index as int).push(
                types@[index as int],
            ));
        }
        index += 1;
    }
    assert(types@.take(types@.len() as int) =~= types@);
    copy
}

impl Clone for DHTNode {
    fn clone(&self) -> (copy: Self)
        ensures
            copy@ == self@,
    {
        DHTNode {
            peer_id: self.peer_id,
            addresses: copy_addresses(&self.addresses),
            address_types: copy_types(&self.address_types),
            distance: match &self.distance {
                Some(bytes) => Some(copy_bytes(bytes)),
                None => None,
            },
            reliability: self.reliability,
            address_authority: match &self.address_authority {
                Some(authority) => Some(authority.clone()),
                None => None,
            },
        }
    }
}

impl LookupNode for DHTNode {
    open spec fn peer_key(&self) -> LookupKey {
        self.peer_id.key()
    }

    fn lookup_peer_id(&self) -> (peer: LookupKey) {
        *self.peer_id.as_bytes()
    }
}

/// Witnessed close-group selection result for a target key.
///
/// `initial_closest` is the client's initial pure-XOR K lookup. Each
/// `responder_views` entry is that responder's closest-K node view after making
/// the response self-inclusive.
#[derive(Debug)]
pub struct WitnessedCloseGroup {
    /// Target key the group was built for.
    pub target: Key,
    /// Requested close-group size.
    pub k: usize,
    /// Initial K closest responders from the client lookup, ordered by XOR.
    pub initial_closest: Vec<DHTNode>,
    /// Self-inclusive closest-K node view for each responder that replied.
    pub responder_views: Vec<ResponderView>,
}

/// One responder's self-inclusive closest-K view.
#[derive(Debug)]
pub struct ResponderView {
    /// The peer that supplied this view.
    pub responder: PeerId,
    /// Nodes in the responder's self-inclusive closest-K view.
    pub closest: Vec<DHTNode>,
}

/// The position of an address among typed entries.
fn find_address(typed: &Vec<Typed>, address: &MultiAddr) -> (found: Option<usize>)
    ensures
        match found {
            Some(i) => position(typed@, *address) == Some(i as int) && i < typed@.len(),
            None => position(typed@, *address) is None,
        },
{
    let mut index: usize = 0;
    while index < typed.len()
        invariant
            index <= typed@.len(),
            position(typed@.take(index as int), *address) is None,
        decreases typed@.len() - index,
    {
        proof {
            assert(typed@.take(index as int + 1).drop_last() =~= typed@.take(index as int));
        }
        if typed[index].0.is(address) {
            proof {
                lemma_position_persists(typed@, *address, index as int + 1);
            }
            return Some(index);
        }
        index += 1;
    }
    assert(typed@.take(typed@.len() as int) =~= typed@);
    None
}

proof fn lemma_position_persists(typed: Seq<Typed>, address: MultiAddr, count: int)
    requires
        0 <= count <= typed.len(),
        position(typed.take(count), address) is Some,
    ensures
        position(typed, address) == position(typed.take(count), address),
    decreases typed.len() - count,
{
    if count < typed.len() {
        assert(typed.take(count + 1).drop_last() =~= typed.take(count));
        lemma_position_persists(typed, address, count + 1);
    } else {
        assert(typed.take(count) =~= typed);
    }
}

/// Where an address is found, it is that address.
pub proof fn lemma_position(typed: Seq<Typed>, address: MultiAddr)
    ensures
        match position(typed, address) {
            Some(i) => 0 <= i < typed.len() && typed[i].0 == address && forall|j: int|
                0 <= j < i ==> (#[trigger] typed[j]).0 != address,
            None => forall|j: int| 0 <= j < typed.len() ==> (#[trigger] typed[j]).0 != address,
        },
    decreases typed.len(),
{
    if typed.len() > 0 {
        lemma_position(typed.drop_last(), address);
        assert forall|j: int| 0 <= j < typed.len() - 1 implies (#[trigger] typed[j])
            == typed.drop_last()[j] by {}
    }
}

/// Append the entries of one rank.
fn append_rank(sorted_entries: &mut Vec<Typed>, typed: &Vec<Typed>, rank: u8)
    ensures
        final(sorted_entries)@ == old(sorted_entries)@ + of_rank(typed@, rank),
{
    let ghost before = sorted_entries@;
    let mut index: usize = 0;
    proof {
        reveal(Seq::filter);
        assert(of_rank(typed@.take(0), rank) =~= Seq::<Typed>::empty());
        assert(before + Seq::<Typed>::empty() =~= before);
    }
    while index < typed.len()
        invariant
            index <= typed@.len(),
            sorted_entries@ == before + of_rank(typed@.take(index as int), rank),
        decreases typed@.len() - index,
    {
        let entry = typed[index];
        proof {
            reveal(Seq::filter);
            assert(typed@.take(index as int + 1).drop_last() =~= typed@.take(index as int));
            assert(typed@.take(index as int + 1).last() == entry);
            assert(before + of_rank(typed@.take(index as int), rank).push(entry) =~= (before
                + of_rank(typed@.take(index as int), rank)).push(entry));
        }
        if entry.1.priority() == rank {
            sorted_entries.push(entry);
        }
        index += 1;
    }
    assert(typed@.take(typed@.len() as int) =~= typed@);
}

/// Put typed entries in order of their ranks, keeping their own order within a
/// rank.
fn sort_typed(typed: &Vec<Typed>) -> (result: Vec<Typed>)
    ensures
        result@ == sorted(typed@),
{
    let mut result: Vec<Typed> = Vec::new();
    append_rank(&mut result, typed, 0);
    append_rank(&mut result, typed, 1);
    append_rank(&mut result, typed, 2);
    append_rank(&mut result, typed, 3);
    assert(result@ =~= sorted(typed@));
    result
}

impl DHTNode {
    /// Pair each address with its type tag.
    ///
    /// Local-scope IP addresses are always returned as [`AddressType::Lan`],
    /// even if the sender advertised a stronger tag. Other untagged entries
    /// default to [`AddressType::Unverified`].
    ///
    /// The returned vec preserves the storage order from `addresses`; callers
    /// that need Relay-first ordering should use
    /// [`Self::addresses_by_priority`].
    pub fn typed_addresses(&self) -> (typed: Vec<(MultiAddr, AddressType)>)
        ensures
            typed@ == self@.typed(),
    {
        let mut typed: Vec<(MultiAddr, AddressType)> = Vec::new();
        let mut index: usize = 0;
        while index < self.addresses.len()
            invariant
                index <= self.addresses@.len(),
                typed@ == self@.typed().take(index as int),
            decreases self.addresses@.len() - index,
        {
            let advertised = if index < self.address_types.len() {
                self.address_types[index]
            } else {
                AddressType::Unverified
            };
            let address = self.addresses[index];
            typed.push((address, AddressType::for_advertised_address(&address, advertised)));
            proof {
                assert(self@.typed().take(index as int + 1) =~= self@.typed().take(
                    index as int,
                ).push(self@.typed()[index as int]));
            }
            index += 1;
        }
        assert(self@.typed().take(self@.typed().len() as int) =~= self@.typed());
        typed
    }

    /// Addresses sorted by [`AddressType`] priority: Relay first, then
    /// Direct, Unverified, and Lan. Within each tier the original insertion
    /// order is preserved.
    ///
    /// Use this instead of raw `addresses` whenever the caller needs to
    /// dial or pass addresses to a consumer that will try them in order.
    pub fn addresses_by_priority(&self) -> (addresses: Vec<MultiAddr>)
        ensures
            addresses@ == entry_addresses(sorted(self@.typed())),
    {
        let typed = sort_typed(&self.typed_addresses());
        let (addresses, _) = unzip(&typed);
        addresses
    }

    /// Merge another `DHTNode` for the same peer into this one.
    ///
    /// Where one of the two has more authority from the owner, its addresses
    /// stay alone. Where neither has any, each incoming `(addr, ty)` pair is
    /// added if the address is not already present; if it is present, the type
    /// is upgraded when the incoming tag has strictly higher priority. The
    /// final list is sorted by [`AddressType::priority`], with no truncation.
    pub fn merge_from(&mut self, other: DHTNode)
        ensures
            final(self)@ == old(self)@.merged(other@),
    {
        let ghost before = self@;
        if other.reliability > self.reliability {
            self.reliability = other.reliability;
        }
        if other.has_more_authority(self) {
            self.distance = encode_publish_seq_distance(dht_node_publish_seq(&other));
            self.addresses = other.addresses;
            self.address_types = other.address_types;
            self.address_authority = other.address_authority;
            return;
        }
        if self.authority_generation() > 0 {
            self.distance = encode_publish_seq_distance(dht_node_publish_seq(self));
            return;
        }
        let mut typed = self.typed_addresses();
        let incoming = other.typed_addresses();
        let mut index: usize = 0;
        while index < incoming.len()
            invariant
                index <= incoming@.len(),
                typed@ == all_offered(before.typed(), incoming@.take(index as int)),
            decreases incoming@.len() - index,
        {
            let entry = incoming[index];
            let ghost held = typed@;
            proof {
                assert(incoming@.take(index as int + 1).drop_last() =~= incoming@.take(
                    index as int,
                ));
                lemma_position(held, entry.0);
            }
            match find_address(&typed, &entry.0) {
                Some(place) => {
                    if entry.1.priority() < typed[place].1.priority() {
                        typed[place] = entry;
                    }
                },
                None => {
                    typed.push(entry);
                },
            }
            index += 1;
        }
        assert(incoming@.take(incoming@.len() as int) =~= incoming@);
        let united = sort_typed(&typed);
        let (addresses, types) = unzip(&united);
        self.addresses = addresses;
        self.address_types = types;
    }

    /// The protocol version that the addresses have their authority from: two
    /// for an owner signature, one for the owner's connection, zero for a hint.
    pub fn authority_generation(&self) -> (generation: u8)
        ensures
            generation == self@.generation(),
    {
        match &self.address_authority {
            Some(authority) => {
                if authority.publication().is_some() {
                    2
                } else if authority.sequence() != 0 {
                    1
                } else {
                    0
                }
            },
            None => 0,
        }
    }

    fn authority_version(&self) -> (version: u64)
        ensures
            version == self@.version(),
    {
        match &self.address_authority {
            Some(authority) => match authority.publication() {
                Some(publication) => publication.sequence(),
                None => authority.sequence(),
            },
            None => 0,
        }
    }

    /// Whether the addresses have more authority than those of another record.
    pub fn has_more_authority(&self, other: &DHTNode) -> (result: bool)
        ensures
            result == self@.outranks(other@),
    {
        let mine = self.authority_generation();
        let theirs = other.authority_generation();
        mine > theirs || (mine == theirs && self.authority_version() > other.authority_version())
    }
}

fn unzip(typed: &Vec<Typed>) -> (parts: (Vec<MultiAddr>, Vec<AddressType>))
    ensures
        parts.0@ == entry_addresses(typed@),
        parts.1@ == entry_types(typed@),
{
    let mut addresses: Vec<MultiAddr> = Vec::new();
    let mut types: Vec<AddressType> = Vec::new();
    let mut index: usize = 0;
    while index < typed.len()
        invariant
            index <= typed@.len(),
            addresses@ == entry_addresses(typed@).take(index as int),
            types@ == entry_types(typed@).take(index as int),
        decreases typed@.len() - index,
    {
        addresses.push(typed[index].0);
        types.push(typed[index].1);
        proof {
            let a = entry_addresses(typed@);
            let t = entry_types(typed@);
            assert(a.take(index as int + 1) =~= a.take(index as int).push(a[index as int]));
            assert(t.take(index as int + 1) =~= t.take(index as int).push(t[index as int]));
        }
        index += 1;
    }
    proof {
        let a = entry_addresses(typed@);
        let t = entry_types(typed@);
        assert(a.take(a.len() as int) =~= a);
        assert(t.take(t.len() as int) =~= t);
    }
    (addresses, types)
}

/// The metadata that carries a publication sequence to older nodes.
pub fn encode_publish_seq_distance(seq: u64) -> (distance: Option<Vec<u8>>)
    ensures
        match distance {
            Some(bytes) => sequence_metadata(seq) == Some(bytes@),
            None => sequence_metadata(seq) is None,
        },
{
    if seq == 0 {
        return None;
    }
    let mut encoded: Vec<u8> = vec![0x50, 0x55, 0x42, 0x53, 0x45, 0x51, 0x30, 0x31];
    push_be(&mut encoded, (seq / 0x1_0000_0000) as u32);
    push_be(&mut encoded, (seq % 0x1_0000_0000) as u32);
    proof {
        assert(encoded@ =~= sequence_marker() + be_bytes64(seq as nat));
    }
    Some(encoded)
}

/// The sequence that the owner of a record established, zero for a hint. What
/// the metadata of the record says has no authority.
pub fn dht_node_publish_seq(node: &DHTNode) -> (seq: u64)
    ensures
        seq == node@.publish_seq(),
{
    match &node.address_authority {
        Some(authority) => authority.sequence(),
        None => 0,
    }
}

} // verus!
