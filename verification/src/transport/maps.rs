//! The maps of a transport, which are those of the `dashmap` crate.
//!
//! They are reached through exclusive references, so that what they hold is
//! known between two calls.

use crate::address::{IpAddr, MultiAddr, SocketAddr};
use crate::concurrent::{endpoint_key, endpoint_of, plain_endpoint, EndpointKey};
use crate::keys::LookupKey;
use crate::peer_id::PeerId;
use crate::table::KeySet;
use crate::transport::registry::{InfoView, Link, PeerInfo};
use crate::transport::wire::MultiplexCapability;
use dashmap::{DashMap, DashSet};
use vstd::prelude::*;

verus! {

/// A peer and a channel as a plain value.
pub type LinkKey = (LookupKey, EndpointKey);

/// What each of some plain links says.
pub open spec fn plain_links(keys: Seq<LinkKey>) -> Seq<(Seq<u8>, EndpointKey)> {
    keys.map(|_i: int, key: LinkKey| (key.0@, key.1))
}

/// What a set of plain links holds.
pub uninterp spec fn link_members(set: DashSet<LinkKey>) -> Set<(Seq<u8>, EndpointKey)>;

/// `DashSet::new` makes a set that holds nothing.
#[verifier::external_body]
fn new_links() -> (created: DashSet<LinkKey>)
    ensures
        (link_members(created) == Set::<(Seq<u8>, EndpointKey)>::empty()),
{
    DashSet::new()
}

/// `DashSet::contains` says whether the set holds a key.
#[verifier::external_body]
fn contains_link(set: &DashSet<LinkKey>, key: &LinkKey) -> (found: bool)
    ensures
        found == link_members(*set).contains((key.0@, key.1)),
{
    set.contains(key)
}

/// `DashSet::insert` makes the set hold the key.
#[verifier::external_body]
fn insert_link(set: &mut DashSet<LinkKey>, key: LinkKey)
    ensures
        link_members(*final(set)) == link_members(*old(set)).insert((key.0@, key.1)),
{
    set.insert(key);
}

/// `DashSet::remove` makes the set not hold the key.
#[verifier::external_body]
fn remove_link(set: &mut DashSet<LinkKey>, key: &LinkKey)
    ensures
        link_members(*final(set)) == link_members(*old(set)).remove((key.0@, key.1)),
{
    set.remove(key);
}

/// `DashSet::iter` walks over each key once, in an order that is left open.
#[verifier::external_body]
fn link_keys(set: &DashSet<LinkKey>) -> (keys: Vec<LinkKey>)
    ensures
        plain_links(keys@).no_duplicates(),
        plain_links(keys@).to_set() == link_members(*set),
{
    set.iter().map(|entry| *entry.key()).collect()
}

/// What each of some links says.
pub open spec fn link_views(links: Seq<Link>) -> Seq<(Seq<u8>, SocketAddr)> {
    links.map(|_i: int, link: Link| link@)
}

/// A set of links between peers and channels.
pub struct LinkSet {
    set: DashSet<LinkKey>,
}

impl View for LinkSet {
    type V = Set<(Seq<u8>, SocketAddr)>;

    closed spec fn view(&self) -> Set<(Seq<u8>, SocketAddr)> {
        Set::new(
            |link: (Seq<u8>, SocketAddr)|
                link_members(self.set).contains((link.0, endpoint_key(link.1))),
        )
    }
}

fn plain_link(link: &Link) -> (key: LinkKey)
    ensures
        key.0@ == link@.0,
        key.1 == endpoint_key(link@.1),
{
    (*link.peer.as_bytes(), plain_endpoint(&link.channel))
}

impl LinkSet {
    /// The set that holds nothing.
    pub fn new() -> (set: Self)
        ensures
            set@ == Set::<(Seq<u8>, SocketAddr)>::empty(),
    {
        let set = LinkSet { set: new_links() };
        assert(set@ =~= Set::<(Seq<u8>, SocketAddr)>::empty());
        set
    }

    /// Whether the set holds a link.
    pub fn contains(&self, link: &Link) -> (found: bool)
        ensures
            found == self@.contains(link@),
    {
        contains_link(&self.set, &plain_link(link))
    }

    /// Put a link in the set.
    pub fn insert(&mut self, link: Link)
        ensures
            final(self)@ == old(self)@.insert(link@),
    {
        insert_link(&mut self.set, plain_link(&link));
        assert(self@ =~= old(self)@.insert(link@));
    }

    /// Take a link out of the set.
    pub fn remove(&mut self, link: &Link)
        ensures
            final(self)@ == old(self)@.remove(link@),
    {
        remove_link(&mut self.set, &plain_link(link));
        assert(self@ =~= old(self)@.remove(link@));
    }

    /// The links in the set.
    pub fn members(&self) -> (members: Vec<Link>)
        ensures
            link_views(members@).no_duplicates(),
            link_views(members@).to_set() == self@,
    {
        let keys = link_keys(&self.set);
        let ghost plain = plain_links(keys@);
        let mut members: Vec<Link> = Vec::new();
        let mut index: usize = 0;
        while index < keys.len()
            invariant
                index <= keys@.len(),
                members@.len() == index,
                plain == plain_links(keys@),
                forall|i: int|
                    0 <= i < index ==> ((#[trigger] members@[i])@.0, endpoint_key(members@[i]@.1))
                        == plain[i],
            decreases keys@.len() - index,
        {
            let key = keys[index];
            members.push(
                Link { peer: PeerId::from_bytes(key.0), channel: endpoint_of(&key.1) },
            );
            index += 1;
        }
        proof {
            let views = link_views(members@);
            assert forall|i: int, j: int| 0 <= i < views.len() && 0 <= j < views.len() && i
                != j implies views[i] != views[j] by {
                assert(views[i] == members@[i]@);
                assert(views[j] == members@[j]@);
                assert(plain[i] != plain[j]);
            }
            assert forall|link: (Seq<u8>, SocketAddr)| #[trigger]
                views.to_set().contains(link) <==> self@.contains(link) by {
                let key = (link.0, endpoint_key(link.1));
                if views.contains(link) {
                    let at = views.index_of(link);
                    assert(members@[at]@ == link);
                    assert(plain[at] == key);
                    assert(plain.to_set().contains(key));
                }
                if self@.contains(link) {
                    assert(plain.to_set().contains(key));
                    let at = plain.index_of(key);
                    assert((members@[at]@.0, endpoint_key(members@[at]@.1)) == key);
                    assert(views[at] == link);
                }
            }
            assert(views.to_set() =~= self@);
        }
        members
    }
}

/// What a map from plain socket addresses to channel descriptions holds.
pub uninterp spec fn info_entries(map: DashMap<EndpointKey, PeerInfo>) -> Map<
    EndpointKey,
    InfoView,
>;

/// `DashMap::new` makes a map that holds nothing.
#[verifier::external_body]
fn new_infos() -> (created: DashMap<EndpointKey, PeerInfo>)
    ensures
        (info_entries(created) == Map::<EndpointKey, InfoView>::empty()),
{
    DashMap::new()
}

/// `DashMap::contains_key` says whether the map holds a value under a key.
#[verifier::external_body]
fn contains_info(map: &DashMap<EndpointKey, PeerInfo>, key: &EndpointKey) -> (found: bool)
    ensures
        found == info_entries(*map).dom().contains(*key),
{
    map.contains_key(key)
}

/// `DashMap::view` shows the value of a key where the map holds one. It is copied
/// by [`PeerInfo::duplicate`].
#[verifier::external_body]
fn get_info(map: &DashMap<EndpointKey, PeerInfo>, key: &EndpointKey) -> (found: Option<PeerInfo>)
    ensures
        match found {
            Some(info) => info_entries(*map).dom().contains(*key) && info@ == info_entries(
                *map,
            )[*key],
            None => !info_entries(*map).dom().contains(*key),
        },
{
    map.view(key, |_, info| info.duplicate())
}

/// `DashMap::insert` makes the map hold the value under the key.
#[verifier::external_body]
fn insert_info(map: &mut DashMap<EndpointKey, PeerInfo>, key: EndpointKey, value: PeerInfo)
    ensures
        info_entries(*final(map)) == info_entries(*old(map)).insert(key, value@),
{
    map.insert(key, value);
}

/// `DashMap::remove` makes the map hold nothing under the key, and hands out the
/// value that it held.
#[verifier::external_body]
fn remove_info(map: &mut DashMap<EndpointKey, PeerInfo>, key: &EndpointKey) -> (removed: Option<
    PeerInfo,
>)
    ensures
        info_entries(*final(map)) == info_entries(*old(map)).remove(*key),
        match removed {
            Some(info) => info_entries(*old(map)).dom().contains(*key) && info@ == info_entries(
                *old(map),
            )[*key],
            None => !info_entries(*old(map)).dom().contains(*key),
        },
{
    map.remove(key).map(|(_, info)| info)
}

/// `DashMap::iter` walks over each key once, in an order that is left open.
#[verifier::external_body]
fn info_keys(map: &DashMap<EndpointKey, PeerInfo>) -> (keys: Vec<EndpointKey>)
    ensures
        keys@.no_duplicates(),
        keys@.to_set() == info_entries(*map).dom(),
{
    map.iter().map(|entry| *entry.key()).collect()
}

/// What is known of each of some channels.
pub struct ChannelInfos {
    map: DashMap<EndpointKey, PeerInfo>,
}

impl View for ChannelInfos {
    type V = Map<SocketAddr, InfoView>;

    closed spec fn view(&self) -> Map<SocketAddr, InfoView> {
        Map::new(
            |channel: SocketAddr| info_entries(self.map).dom().contains(endpoint_key(channel)),
            |channel: SocketAddr| info_entries(self.map)[endpoint_key(channel)],
        )
    }
}

impl ChannelInfos {
    /// No channel is known.
    pub fn new() -> (infos: Self)
        ensures
            infos@ == Map::<SocketAddr, InfoView>::empty(),
    {
        let infos = ChannelInfos { map: new_infos() };
        assert(infos@ =~= Map::<SocketAddr, InfoView>::empty());
        infos
    }

    /// Whether a channel is known.
    pub fn contains(&self, channel: &SocketAddr) -> (found: bool)
        ensures
            found == self@.dom().contains(*channel),
    {
        contains_info(&self.map, &plain_endpoint(channel))
    }

    /// What is known of a channel.
    pub fn get(&self, channel: &SocketAddr) -> (found: Option<PeerInfo>)
        ensures
            match found {
                Some(info) => self@.dom().contains(*channel) && info@ == self@[*channel],
                None => !self@.dom().contains(*channel),
            },
    {
        get_info(&self.map, &plain_endpoint(channel))
    }

    /// Set what is known of a channel.
    pub fn insert(&mut self, channel: SocketAddr, info: PeerInfo)
        ensures
            final(self)@ == old(self)@.insert(channel, info@),
    {
        insert_info(&mut self.map, plain_endpoint(&channel), info);
        assert(self@ =~= old(self)@.insert(channel, info@));
    }

    /// Forget a channel, and hand out what was known of it.
    pub fn remove(&mut self, channel: &SocketAddr) -> (removed: Option<PeerInfo>)
        ensures
            final(self)@ == old(self)@.remove(*channel),
            match removed {
                Some(info) => old(self)@.dom().contains(*channel) && info@ == old(self)@[*channel],
                None => !old(self)@.dom().contains(*channel),
            },
    {
        let removed = remove_info(&mut self.map, &plain_endpoint(channel));
        assert(self@ =~= old(self)@.remove(*channel));
        removed
    }

    /// The channels that are known.
    pub fn channels(&self) -> (channels: Vec<SocketAddr>)
        ensures
            channels@.no_duplicates(),
            channels@.to_set() == self@.dom(),
    {
        let keys = info_keys(&self.map);
        let mut channels: Vec<SocketAddr> = Vec::new();
        let mut index: usize = 0;
        while index < keys.len()
            invariant
                index <= keys@.len(),
                channels@.len() == index,
                forall|i: int| 0 <= i < index ==> endpoint_key(#[trigger] channels@[i]) == keys@[i],
            decreases keys@.len() - index,
        {
            channels.push(endpoint_of(&keys[index]));
            index += 1;
        }
        proof {
            assert forall|channel: SocketAddr| #[trigger]
                channels@.to_set().contains(channel) <==> self@.dom().contains(channel) by {
                if channels@.contains(channel) {
                    let at = channels@.index_of(channel);
                    assert(keys@[at] == endpoint_key(channel));
                    assert(keys@.to_set().contains(endpoint_key(channel)));
                }
                if self@.dom().contains(channel) {
                    assert(keys@.to_set().contains(endpoint_key(channel)));
                    let at = keys@.index_of(endpoint_key(channel));
                    assert(endpoint_key(channels@[at]) == endpoint_key(channel));
                    assert(channels@[at] == channel);
                }
            }
            assert(channels@.to_set() =~= self@.dom());
        }
        channels
    }
}

/// What a map from identities to shared endpoints holds: the identity of the
/// daemon and where it is reached.
pub uninterp spec fn capability_entries(map: DashMap<LookupKey, MultiplexCapability>) -> Map<
    Seq<u8>,
    (Seq<u8>, Seq<MultiAddr>),
>;

/// `DashMap::new` makes a map that holds nothing.
#[verifier::external_body]
fn new_capabilities() -> (created: DashMap<LookupKey, MultiplexCapability>)
    ensures
        (capability_entries(created) == Map::<Seq<u8>, (Seq<u8>, Seq<MultiAddr>)>::empty()),
{
    DashMap::new()
}

/// `DashMap::view` shows the value of a key where the map holds one. It is copied
/// by [`MultiplexCapability::duplicate`].
#[verifier::external_body]
fn get_capability(map: &DashMap<LookupKey, MultiplexCapability>, key: &LookupKey) -> (found: Option<
    MultiplexCapability,
>)
    ensures
        match found {
            Some(shared) => capability_entries(*map).dom().contains(key@) && shared@
                == capability_entries(*map)[key@],
            None => !capability_entries(*map).dom().contains(key@),
        },
{
    map.view(key, |_, shared| shared.duplicate())
}

/// `DashMap::insert` makes the map hold the value under the key.
#[verifier::external_body]
fn insert_capability(
    map: &mut DashMap<LookupKey, MultiplexCapability>,
    key: LookupKey,
    value: MultiplexCapability,
)
    ensures
        capability_entries(*final(map)) == capability_entries(*old(map)).insert(key@, value@),
{
    map.insert(key, value);
}

/// The shared endpoint that each of some peers announced.
pub struct Capabilities {
    map: DashMap<LookupKey, MultiplexCapability>,
}

impl View for Capabilities {
    type V = Map<Seq<u8>, (Seq<u8>, Seq<MultiAddr>)>;

    closed spec fn view(&self) -> Map<Seq<u8>, (Seq<u8>, Seq<MultiAddr>)> {
        capability_entries(self.map)
    }
}

impl Capabilities {
    /// No peer announced an endpoint.
    pub fn new() -> (capabilities: Self)
        ensures
            capabilities@ == Map::<Seq<u8>, (Seq<u8>, Seq<MultiAddr>)>::empty(),
    {
        Capabilities { map: new_capabilities() }
    }

    /// The shared endpoint that a peer announced.
    pub fn get(&self, peer: &PeerId) -> (found: Option<MultiplexCapability>)
        ensures
            match found {
                Some(shared) => self@.dom().contains(peer@) && shared@ == self@[peer@],
                None => !self@.dom().contains(peer@),
            },
    {
        get_capability(&self.map, peer.as_bytes())
    }

    /// Set the shared endpoint that a peer announced.
    pub fn insert(&mut self, peer: &PeerId, shared: MultiplexCapability)
        ensures
            final(self)@ == old(self)@.insert(peer@, shared@),
    {
        insert_capability(&mut self.map, *peer.as_bytes(), shared);
    }
}

/// The identity that asked and the id of its message.
pub type RequestKey = (LookupKey, String);

/// What each of some request keys says.
pub open spec fn request_views(keys: Seq<RequestKey>) -> Seq<(Seq<u8>, Seq<char>)> {
    keys.map(|_i: int, key: RequestKey| (key.0@, key.1@))
}

/// What a map from requests to peers holds.
pub uninterp spec fn request_entries(map: DashMap<RequestKey, PeerId>) -> Map<
    (Seq<u8>, Seq<char>),
    PeerId,
>;

/// `DashMap::new` makes a map that holds nothing.
#[verifier::external_body]
pub(crate) fn new_requests() -> (created: DashMap<RequestKey, PeerId>)
    ensures
        (request_entries(created) == Map::<(Seq<u8>, Seq<char>), PeerId>::empty()),
{
    DashMap::new()
}

/// `DashMap::get` finds the value of a key where the map holds one.
#[verifier::external_body]
pub(crate) fn get_request(map: &DashMap<RequestKey, PeerId>, key: &RequestKey) -> (found: Option<
    PeerId,
>)
    ensures
        found == if request_entries(*map).dom().contains((key.0@, key.1@)) {
            Some(request_entries(*map)[(key.0@, key.1@)])
        } else {
            None
        },
{
    map.get(key).map(|entry| *entry)
}

/// `DashMap::insert` makes the map hold the value under the key.
#[verifier::external_body]
pub(crate) fn insert_request(map: &mut DashMap<RequestKey, PeerId>, key: RequestKey, value: PeerId)
    ensures
        request_entries(*final(map)) == request_entries(*old(map)).insert((key.0@, key.1@), value),
{
    map.insert(key, value);
}

/// `DashMap::remove` makes the map hold nothing under the key.
#[verifier::external_body]
pub(crate) fn remove_request(map: &mut DashMap<RequestKey, PeerId>, key: &RequestKey)
    ensures
        request_entries(*final(map)) == request_entries(*old(map)).remove((key.0@, key.1@)),
{
    map.remove(key);
}

/// `DashMap::iter` walks over each key once, in an order that is left open.
#[verifier::external_body]
pub(crate) fn request_keys(map: &DashMap<RequestKey, PeerId>) -> (keys: Vec<RequestKey>)
    ensures
        request_views(keys@).no_duplicates(),
        request_views(keys@).to_set() == request_entries(*map).dom(),
{
    map.iter().map(|entry| entry.key().clone()).collect()
}

/// What a map from plain socket addresses to observers holds.
pub uninterp spec fn observer_entries(map: DashMap<EndpointKey, KeySet<IpAddr>>) -> Map<
    EndpointKey,
    Set<IpAddr>,
>;

/// `DashMap::new` makes a map that holds nothing.
#[verifier::external_body]
fn new_observers() -> (created: DashMap<EndpointKey, KeySet<IpAddr>>)
    ensures
        (observer_entries(created) == Map::<EndpointKey, Set<IpAddr>>::empty()),
{
    DashMap::new()
}

/// `DashMap::view` shows the value of a key where the map holds one. It is counted
/// by [`KeySet::len`].
#[verifier::external_body]
fn count_observers(map: &DashMap<EndpointKey, KeySet<IpAddr>>, key: &EndpointKey) -> (count: Option<
    usize,
>)
    ensures
        match count {
            Some(number) => observer_entries(*map).dom().contains(*key) && number
                == observer_entries(*map)[*key].len(),
            None => !observer_entries(*map).dom().contains(*key),
        },
{
    map.view(key, |_, observers| observers.len())
}

/// `DashMap::insert` makes the map hold the value under the key.
#[verifier::external_body]
fn insert_observers(
    map: &mut DashMap<EndpointKey, KeySet<IpAddr>>,
    key: EndpointKey,
    value: KeySet<IpAddr>,
)
    ensures
        observer_entries(*final(map)) == observer_entries(*old(map)).insert(key, value@),
{
    map.insert(key, value);
}

/// `DashMap::remove` makes the map hold nothing under the key, and hands out the
/// value that it held.
#[verifier::external_body]
fn remove_observers(map: &mut DashMap<EndpointKey, KeySet<IpAddr>>, key: &EndpointKey) -> (removed:
    Option<KeySet<IpAddr>>)
    ensures
        observer_entries(*final(map)) == observer_entries(*old(map)).remove(*key),
        match removed {
            Some(held) => observer_entries(*old(map)).dom().contains(*key) && held@
                == observer_entries(*old(map))[*key],
            None => !observer_entries(*old(map)).dom().contains(*key),
        },
{
    map.remove(key).map(|(_, held)| held)
}

/// The observers of each of some external addresses, by their IP addresses.
pub struct ProvenExternals {
    map: DashMap<EndpointKey, KeySet<IpAddr>>,
}

impl View for ProvenExternals {
    type V = Map<SocketAddr, Set<IpAddr>>;

    closed spec fn view(&self) -> Map<SocketAddr, Set<IpAddr>> {
        Map::new(
            |external: SocketAddr|
                observer_entries(self.map).dom().contains(endpoint_key(external)),
            |external: SocketAddr| observer_entries(self.map)[endpoint_key(external)],
        )
    }
}

/// The observers of external addresses once one more was seen.
pub open spec fn observed(
    externals: Map<SocketAddr, Set<IpAddr>>,
    external: SocketAddr,
    observer: IpAddr,
) -> Map<SocketAddr, Set<IpAddr>> {
    externals.insert(
        external,
        if externals.dom().contains(external) {
            externals[external].insert(observer)
        } else {
            set![observer]
        },
    )
}

impl ProvenExternals {
    /// No external address was observed.
    pub fn new() -> (externals: Self)
        ensures
            externals@ == Map::<SocketAddr, Set<IpAddr>>::empty(),
    {
        let externals = ProvenExternals { map: new_observers() };
        assert(externals@ =~= Map::<SocketAddr, Set<IpAddr>>::empty());
        externals
    }

    /// How many observers an external address has.
    pub fn observers(&self, external: &SocketAddr) -> (count: Option<usize>)
        ensures
            match count {
                Some(number) => self@.dom().contains(*external) && number == self@[*external].len(),
                None => !self@.dom().contains(*external),
            },
    {
        count_observers(&self.map, &plain_endpoint(external))
    }

    /// Note that an external address was observed from an IP address.
    pub fn observe(&mut self, external: SocketAddr, observer: IpAddr)
        ensures
            final(self)@ == observed(old(self)@, external, observer),
    {
        let ghost before = self@;
        let key = plain_endpoint(&external);
        let mut observers = match remove_observers(&mut self.map, &key) {
            Some(held) => held,
            None => KeySet::new(),
        };
        let _ = observers.insert(observer);
        insert_observers(&mut self.map, key, observers);
        assert(self@ =~= observed(before, external, observer));
    }
}

} // verus!
