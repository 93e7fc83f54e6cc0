//! Maps and sets of the `dashmap` crate, with plain keys and values.
//!
//! They are reached through exclusive references, so that what they hold is
//! known between two calls.

use crate::address::{IpAddr, SocketAddr};
use crate::keys::LookupKey;
use crate::peer_id::PeerId;
use dashmap::{DashMap, DashSet};
use vstd::prelude::*;

verus! {

/// The concurrent map of the `dashmap` crate.
#[verifier::external_type_specification]
#[verifier::external_body]
#[verifier::reject_recursive_types(K)]
#[verifier::reject_recursive_types(V)]
#[verifier::reject_recursive_types(S)]
pub struct ExDashMap<K, V, S>(DashMap<K, V, S>);

/// The concurrent set of the `dashmap` crate.
#[verifier::external_type_specification]
#[verifier::external_body]
#[verifier::reject_recursive_types(K)]
#[verifier::reject_recursive_types(S)]
pub struct ExDashSet<K, S>(DashSet<K, S>);

/// What a map from identities to counts holds.
pub uninterp spec fn count_entries(map: DashMap<LookupKey, usize>) -> Map<Seq<u8>, usize>;

/// `DashMap::new` makes a map that holds nothing.
#[verifier::external_body]
fn new_counts() -> (created: DashMap<LookupKey, usize>)
    ensures
        (count_entries(created) == Map::<Seq<u8>, usize>::empty()),
{
    DashMap::new()
}

/// `DashMap::get` finds the value of a key where the map holds one.
#[verifier::external_body]
fn get_count(map: &DashMap<LookupKey, usize>, key: &LookupKey) -> (found: Option<usize>)
    ensures
        found == if count_entries(*map).dom().contains(key@) {
            Some(count_entries(*map)[key@])
        } else {
            None
        },
{
    map.get(key).map(|entry| *entry)
}

/// `DashMap::insert` makes the map hold the value under the key.
#[verifier::external_body]
fn insert_count(map: &mut DashMap<LookupKey, usize>, key: LookupKey, value: usize)
    ensures
        count_entries(*final(map)) == count_entries(*old(map)).insert(key@, value),
{
    map.insert(key, value);
}

/// `DashMap::remove` makes the map hold nothing under the key.
#[verifier::external_body]
fn remove_count(map: &mut DashMap<LookupKey, usize>, key: &LookupKey)
    ensures
        count_entries(*final(map)) == count_entries(*old(map)).remove(key@),
{
    map.remove(key);
}

/// A count for each of some peers.
pub struct PeerCounts {
    map: DashMap<LookupKey, usize>,
}

impl View for PeerCounts {
    type V = Map<Seq<u8>, usize>;

    closed spec fn view(&self) -> Map<Seq<u8>, usize> {
        count_entries(self.map)
    }
}

impl PeerCounts {
    /// No peer has a count.
    pub fn new() -> (counts: Self)
        ensures
            counts@ == Map::<Seq<u8>, usize>::empty(),
    {
        PeerCounts { map: new_counts() }
    }

    /// The count of a peer.
    pub fn get(&self, peer: &PeerId) -> (count: Option<usize>)
        ensures
            count == if self@.dom().contains(peer@) {
                Some(self@[peer@])
            } else {
                None
            },
    {
        get_count(&self.map, peer.as_bytes())
    }

    /// Set the count of a peer.
    pub fn insert(&mut self, peer: &PeerId, count: usize)
        ensures
            final(self)@ == old(self)@.insert(peer@, count),
    {
        insert_count(&mut self.map, *peer.as_bytes(), count);
    }

    /// Forget the count of a peer.
    pub fn remove(&mut self, peer: &PeerId)
        ensures
            final(self)@ == old(self)@.remove(peer@),
    {
        remove_count(&mut self.map, peer.as_bytes());
    }
}

/// What a map from identities to texts holds.
pub uninterp spec fn text_entries(map: DashMap<LookupKey, String>) -> Map<Seq<u8>, Seq<char>>;

/// `DashMap::new` makes a map that holds nothing.
#[verifier::external_body]
fn new_texts() -> (created: DashMap<LookupKey, String>)
    ensures
        (text_entries(created) == Map::<Seq<u8>, Seq<char>>::empty()),
{
    DashMap::new()
}

/// `DashMap::get` finds the value of a key where the map holds one.
#[verifier::external_body]
fn get_text(map: &DashMap<LookupKey, String>, key: &LookupKey) -> (found: Option<String>)
    ensures
        match found {
            Some(text) => text_entries(*map).dom().contains(key@) && text@ == text_entries(
                *map,
            )[key@],
            None => !text_entries(*map).dom().contains(key@),
        },
{
    map.get(key).map(|entry| entry.value().clone())
}

/// `DashMap::contains_key` says whether the map holds a value under a key.
#[verifier::external_body]
fn contains_text(map: &DashMap<LookupKey, String>, key: &LookupKey) -> (found: bool)
    ensures
        found == text_entries(*map).dom().contains(key@),
{
    map.contains_key(key)
}

/// `DashMap::insert` makes the map hold the value under the key.
#[verifier::external_body]
fn insert_text(map: &mut DashMap<LookupKey, String>, key: LookupKey, value: String)
    ensures
        text_entries(*final(map)) == text_entries(*old(map)).insert(key@, value@),
{
    map.insert(key, value);
}

/// `DashMap::remove` makes the map hold nothing under the key.
#[verifier::external_body]
fn remove_text(map: &mut DashMap<LookupKey, String>, key: &LookupKey)
    ensures
        text_entries(*final(map)) == text_entries(*old(map)).remove(key@),
{
    map.remove(key);
}

/// The bytes of some keys.
pub open spec fn key_bytes(keys: Seq<LookupKey>) -> Seq<Seq<u8>> {
    keys.map(|_i: int, key: LookupKey| key@)
}

/// `DashMap::iter` walks over each key once, in an order that is left open.
#[verifier::external_body]
fn text_keys(map: &DashMap<LookupKey, String>) -> (keys: Vec<LookupKey>)
    ensures
        key_bytes(keys@).no_duplicates(),
        key_bytes(keys@).to_set() == text_entries(*map).dom(),
{
    map.iter().map(|entry| *entry.key()).collect()
}

/// A text for each of some peers.
pub struct PeerTexts {
    map: DashMap<LookupKey, String>,
}

impl View for PeerTexts {
    type V = Map<Seq<u8>, Seq<char>>;

    closed spec fn view(&self) -> Map<Seq<u8>, Seq<char>> {
        text_entries(self.map)
    }
}

impl PeerTexts {
    /// No peer has a text.
    pub fn new() -> (texts: Self)
        ensures
            texts@ == Map::<Seq<u8>, Seq<char>>::empty(),
    {
        PeerTexts { map: new_texts() }
    }

    /// The text of a peer.
    pub fn get(&self, peer: &PeerId) -> (found: Option<String>)
        ensures
            match found {
                Some(text) => self@.dom().contains(peer@) && text@ == self@[peer@],
                None => !self@.dom().contains(peer@),
            },
    {
        get_text(&self.map, peer.as_bytes())
    }

    /// Whether a peer has a text.
    pub fn contains(&self, peer: &PeerId) -> (found: bool)
        ensures
            found == self@.dom().contains(peer@),
    {
        contains_text(&self.map, peer.as_bytes())
    }

    /// Set the text of a peer.
    pub fn insert(&mut self, peer: &PeerId, text: String)
        ensures
            final(self)@ == old(self)@.insert(peer@, text@),
    {
        insert_text(&mut self.map, *peer.as_bytes(), text);
    }

    /// Forget the text of a peer.
    pub fn remove(&mut self, peer: &PeerId)
        ensures
            final(self)@ == old(self)@.remove(peer@),
    {
        remove_text(&mut self.map, peer.as_bytes());
    }

    /// The only peer that has a text.
    pub fn only_peer(&self) -> (only: Option<PeerId>)
        ensures
            match only {
                Some(peer) => self@.dom() == set![peer@],
                None => !(self@.dom().finite() && self@.dom().len() == 1),
            },
    {
        let keys = text_keys(&self.map);
        proof {
            key_bytes(keys@).unique_seq_to_set();
        }
        if keys.len() == 1 {
            let only = PeerId::from_bytes(keys[0]);
            proof {
                assert(key_bytes(keys@) =~= seq![only@]);
                assert(self@.dom() =~= set![only@]) by {
                    assert forall|bytes: Seq<u8>| seq![only@].contains(bytes) implies bytes
                        == only@ by {}
                    assert(seq![only@][0] == only@);
                }
            }
            Some(only)
        } else {
            None
        }
    }
}

/// An IP address as a plain value: the bits of an IPv4 address, or else those of
/// an IPv6 address.
pub type IpKey = Result<u32, u128>;

/// A socket address as a plain value: IP address, port, flow information and
/// scope.
pub type EndpointKey = (Result<u32, u128>, u16, u32, u32);

/// The plain value of an IP address.
pub open spec fn ip_key(ip: IpAddr) -> IpKey {
    match ip {
        IpAddr::V4(bits) => Ok(bits),
        IpAddr::V6(bits) => Err(bits),
    }
}

/// The plain value of a socket address.
pub open spec fn endpoint_key(address: SocketAddr) -> EndpointKey {
    (ip_key(address.ip), address.port, address.flowinfo, address.scope_id)
}

fn plain_ip(ip: &IpAddr) -> (key: IpKey)
    ensures
        key == ip_key(*ip),
{
    match ip {
        IpAddr::V4(bits) => Ok(*bits),
        IpAddr::V6(bits) => Err(*bits),
    }
}

pub(crate) fn plain_endpoint(address: &SocketAddr) -> (key: EndpointKey)
    ensures
        key == endpoint_key(*address),
{
    (plain_ip(&address.ip), address.port, address.flowinfo, address.scope_id)
}

pub(crate) fn endpoint_of(key: &EndpointKey) -> (address: SocketAddr)
    ensures
        endpoint_key(address) == *key,
{
    let ip = match key.0 {
        Ok(bits) => IpAddr::V4(bits),
        Err(bits) => IpAddr::V6(bits),
    };
    SocketAddr { ip, port: key.1, flowinfo: key.2, scope_id: key.3 }
}

/// What a set of plain socket addresses holds.
pub uninterp spec fn endpoint_members(set: DashSet<EndpointKey>) -> Set<EndpointKey>;

/// `DashSet::new` makes a set that holds nothing.
#[verifier::external_body]
fn new_endpoints() -> (created: DashSet<EndpointKey>)
    ensures
        endpoint_members(created) == Set::<EndpointKey>::empty(),
{
    DashSet::new()
}

/// `DashSet::contains` says whether the set holds a key.
#[verifier::external_body]
fn contains_endpoint(set: &DashSet<EndpointKey>, key: &EndpointKey) -> (found: bool)
    ensures
        found == endpoint_members(*set).contains(*key),
{
    set.contains(key)
}

/// `DashSet::insert` makes the set hold the key.
#[verifier::external_body]
fn insert_endpoint(set: &mut DashSet<EndpointKey>, key: EndpointKey)
    ensures
        endpoint_members(*final(set)) == endpoint_members(*old(set)).insert(key),
{
    set.insert(key);
}

/// `DashSet::remove` makes the set not hold the key, and hands it out where the
/// set held it.
#[verifier::external_body]
fn remove_endpoint(set: &mut DashSet<EndpointKey>, key: &EndpointKey) -> (removed: bool)
    ensures
        endpoint_members(*final(set)) == endpoint_members(*old(set)).remove(*key),
        removed == endpoint_members(*old(set)).contains(*key),
{
    set.remove(key).is_some()
}

/// `DashSet::iter` walks over each key once, in an order that is left open.
#[verifier::external_body]
fn endpoint_keys(set: &DashSet<EndpointKey>) -> (keys: Vec<EndpointKey>)
    ensures
        keys@.no_duplicates(),
        keys@.to_set() == endpoint_members(*set),
{
    set.iter().map(|entry| *entry.key()).collect()
}

/// A set of socket addresses.
pub struct EndpointSet {
    set: DashSet<EndpointKey>,
}

impl View for EndpointSet {
    type V = Set<SocketAddr>;

    closed spec fn view(&self) -> Set<SocketAddr> {
        Set::new(|address: SocketAddr| endpoint_members(self.set).contains(endpoint_key(address)))
    }
}

impl EndpointSet {
    /// The set that holds nothing.
    pub fn new() -> (set: Self)
        ensures
            set@ == Set::<SocketAddr>::empty(),
    {
        let set = EndpointSet { set: new_endpoints() };
        assert(set@ =~= Set::<SocketAddr>::empty());
        set
    }

    /// Whether the set holds an address.
    pub fn contains(&self, address: &SocketAddr) -> (found: bool)
        ensures
            found == self@.contains(*address),
    {
        contains_endpoint(&self.set, &plain_endpoint(address))
    }

    /// Put an address in the set.
    pub fn insert(&mut self, address: SocketAddr)
        ensures
            final(self)@ == old(self)@.insert(address),
    {
        insert_endpoint(&mut self.set, plain_endpoint(&address));
        assert(self@ =~= old(self)@.insert(address));
    }

    /// Take an address out of the set, and say whether the set held it.
    pub fn remove(&mut self, address: &SocketAddr) -> (removed: bool)
        ensures
            final(self)@ == old(self)@.remove(*address),
            removed == old(self)@.contains(*address),
    {
        let removed = remove_endpoint(&mut self.set, &plain_endpoint(address));
        assert(self@ =~= old(self)@.remove(*address));
        removed
    }

    /// The addresses in the set.
    pub fn members(&self) -> (members: Vec<SocketAddr>)
        ensures
            members@.no_duplicates(),
            members@.to_set() == self@,
    {
        let keys = endpoint_keys(&self.set);
        let mut members: Vec<SocketAddr> = Vec::new();
        let mut index: usize = 0;
        while index < keys.len()
            invariant
                index <= keys@.len(),
                members@.len() == index,
                forall|i: int| 0 <= i < index ==> endpoint_key(#[trigger] members@[i]) == keys@[i],
            decreases keys@.len() - index,
        {
            members.push(endpoint_of(&keys[index]));
            index += 1;
        }
        proof {
            assert forall|address: SocketAddr| #[trigger]
                members@.to_set().contains(address) <==> self@.contains(address) by {
                if members@.contains(address) {
                    let at = members@.index_of(address);
                    assert(keys@[at] == endpoint_key(address));
                    assert(keys@.to_set().contains(endpoint_key(address)));
                }
                if self@.contains(address) {
                    assert(keys@.to_set().contains(endpoint_key(address)));
                    let at = keys@.index_of(endpoint_key(address));
                    assert(endpoint_key(members@[at]) == endpoint_key(address));
                    assert(members@[at] == address);
                }
            }
            assert(members@.to_set() =~= self@);
        }
        members
    }
}

/// What a set of plain IP addresses holds.
pub uninterp spec fn ip_members(set: DashSet<IpKey>) -> Set<IpKey>;

/// `DashSet::new` makes a set that holds nothing.
#[verifier::external_body]
fn new_ips() -> (created: DashSet<IpKey>)
    ensures
        ip_members(created) == Set::<IpKey>::empty(),
{
    DashSet::new()
}

/// `DashSet::contains` says whether the set holds a key.
#[verifier::external_body]
fn contains_ip(set: &DashSet<IpKey>, key: &IpKey) -> (found: bool)
    ensures
        found == ip_members(*set).contains(*key),
{
    set.contains(key)
}

/// `DashSet::insert` makes the set hold the key.
#[verifier::external_body]
fn insert_ip(set: &mut DashSet<IpKey>, key: IpKey)
    ensures
        ip_members(*final(set)) == ip_members(*old(set)).insert(key),
{
    set.insert(key);
}

/// A set of IP addresses.
pub struct IpSet {
    set: DashSet<IpKey>,
}

impl View for IpSet {
    type V = Set<IpAddr>;

    closed spec fn view(&self) -> Set<IpAddr> {
        Set::new(|ip: IpAddr| ip_members(self.set).contains(ip_key(ip)))
    }
}

impl IpSet {
    /// The set that holds nothing.
    pub fn new() -> (set: Self)
        ensures
            set@ == Set::<IpAddr>::empty(),
    {
        let set = IpSet { set: new_ips() };
        assert(set@ =~= Set::<IpAddr>::empty());
        set
    }

    /// Whether the set holds an address.
    pub fn contains(&self, ip: &IpAddr) -> (found: bool)
        ensures
            found == self@.contains(*ip),
    {
        contains_ip(&self.set, &plain_ip(ip))
    }

    /// Put an address in the set.
    pub fn insert(&mut self, ip: IpAddr)
        ensures
            final(self)@ == old(self)@.insert(ip),
    {
        insert_ip(&mut self.set, plain_ip(&ip));
        assert(self@ =~= old(self)@.insert(ip));
    }
}

} // verus!
