use saorsa_core::address::{IpAddr, MultiAddr, SocketAddr};
use saorsa_core::concurrent::{EndpointSet, IpSet, PeerCounts, PeerTexts};
use saorsa_core::peer_id::PeerId;
use saorsa_core::transport::maps::{Capabilities, ChannelInfos, LinkSet, ProvenExternals};
use saorsa_core::transport::registry::{ChannelRegistry, Link};
use saorsa_core::transport::wire::MultiplexCapability;

fn peer(byte: u8) -> PeerId {
    PeerId::from_bytes([byte; 32])
}

#[test]
fn counts_are_kept_per_peer() {
    let mut counts = PeerCounts::new();
    assert_eq!(counts.get(&peer(1)), None);
    counts.insert(&peer(1), 3);
    counts.insert(&peer(2), 5);
    counts.insert(&peer(1), 4);
    assert_eq!(counts.get(&peer(1)), Some(4));
    assert_eq!(counts.get(&peer(2)), Some(5));
    counts.remove(&peer(1));
    assert_eq!(counts.get(&peer(1)), None);
    assert_eq!(counts.get(&peer(2)), Some(5));
}

#[test]
fn texts_are_kept_per_peer() {
    let mut texts = PeerTexts::new();
    assert_eq!(texts.only_peer(), None);
    texts.insert(&peer(1), "node/1.0".to_string());
    assert_eq!(texts.get(&peer(1)), Some("node/1.0".to_string()));
    assert!(texts.contains(&peer(1)));
    assert_eq!(texts.only_peer(), Some(peer(1)));
    texts.insert(&peer(2), "node/2.0".to_string());
    assert_eq!(texts.only_peer(), None);
    texts.remove(&peer(1));
    assert!(!texts.contains(&peer(1)));
    assert_eq!(texts.get(&peer(1)), None);
    assert_eq!(texts.only_peer(), Some(peer(2)));
}

#[test]
fn endpoints_are_told_apart_by_every_field() {
    let v4 = SocketAddr::new(IpAddr::v4(203, 0, 113, 9), 9000);
    let other_port = SocketAddr::new(IpAddr::v4(203, 0, 113, 9), 9001);
    let v6 = SocketAddr::new(IpAddr::V6(1), 9000);
    let mut scoped = v6;
    scoped.scope_id = 2;
    let mut set = EndpointSet::new();
    assert!(!set.contains(&v4));
    set.insert(v4);
    set.insert(v4);
    set.insert(v6);
    set.insert(scoped);
    assert!(set.contains(&v4));
    assert!(!set.contains(&other_port));
    let members = set.members();
    assert_eq!(members.len(), 3);
    assert!(members.contains(&v4));
    assert!(members.contains(&v6));
    assert!(members.contains(&scoped));
    assert!(!set.remove(&other_port));
    assert!(set.remove(&v6));
    assert!(!set.remove(&v6));
    assert_eq!(set.members().len(), 2);
}

#[test]
fn ip_versions_are_told_apart() {
    let mut set = IpSet::new();
    set.insert(IpAddr::V4(1));
    assert!(set.contains(&IpAddr::V4(1)));
    assert!(!set.contains(&IpAddr::V6(1)));
    assert!(!set.contains(&IpAddr::V4(2)));
}

fn socket(last: u8) -> SocketAddr {
    SocketAddr::new(IpAddr::v4(203, 0, 113, last), 9000)
}

#[test]
fn links_are_pairs_of_a_peer_and_a_channel() {
    let link = |who: u8, at: u8| Link { peer: peer(who), channel: socket(at) };
    let mut links = LinkSet::new();
    assert!(!links.contains(&link(1, 1)));
    assert!(links.members().is_empty());
    links.insert(link(1, 1));
    links.insert(link(1, 1));
    links.insert(link(1, 2));
    links.insert(link(2, 1));
    assert!(links.contains(&link(1, 2)));
    assert!(!links.contains(&link(2, 2)));
    assert_eq!(links.members().len(), 3);
    links.remove(&link(1, 1));
    assert!(!links.contains(&link(1, 1)));
    let members = links.members();
    assert_eq!(members.len(), 2);
    assert!(members.contains(&link(1, 2)));
    assert!(members.contains(&link(2, 1)));
}

#[test]
fn channels_keep_what_is_known_of_them() {
    let mut registry = ChannelRegistry::new();
    registry.record_dialed_channel(socket(1), MultiAddr::quic(socket(1)), 5);
    let known = registry.channel_info(&socket(1)).expect("known");
    let mut infos = ChannelInfos::new();
    assert!(!infos.contains(&socket(1)));
    assert!(infos.get(&socket(1)).is_none());
    infos.insert(socket(1), known.duplicate());
    infos.insert(socket(2), known);
    assert!(infos.contains(&socket(1)));
    let read = infos.get(&socket(1)).expect("known");
    assert_eq!(read.addresses, vec![MultiAddr::quic(socket(1))]);
    assert_eq!(read.protocols, vec!["p2p-foundation/1.0".to_string()]);
    assert_eq!((read.connected_at, read.last_seen, read.heartbeat_count), (5, 5, 0));
    assert_eq!(infos.channels().len(), 2);
    let removed = infos.remove(&socket(1)).expect("known");
    assert_eq!(removed.channel_id, socket(1));
    assert!(infos.remove(&socket(1)).is_none());
    assert_eq!(infos.channels(), vec![socket(2)]);
}

#[test]
fn the_latest_shared_endpoint_of_a_peer_counts() {
    let shared = |daemon: u8, at: u8| MultiplexCapability {
        daemon_peer_id: peer(daemon),
        addresses: vec![MultiAddr::quic(socket(at))],
    };
    let mut capabilities = Capabilities::new();
    assert!(capabilities.get(&peer(1)).is_none());
    capabilities.insert(&peer(1), shared(8, 1));
    capabilities.insert(&peer(1), shared(9, 2));
    capabilities.insert(&peer(2), shared(7, 3));
    let found = capabilities.get(&peer(1)).expect("announced");
    assert_eq!(found.daemon_peer_id, peer(9));
    assert_eq!(found.addresses, vec![MultiAddr::quic(socket(2))]);
    assert_eq!(capabilities.get(&peer(2)).expect("announced").daemon_peer_id, peer(7));
}

#[test]
fn observers_are_counted_per_external_address() {
    let mut externals = ProvenExternals::new();
    assert_eq!(externals.observers(&socket(1)), None);
    externals.observe(socket(1), IpAddr::v4(198, 51, 100, 1));
    externals.observe(socket(1), IpAddr::v4(198, 51, 100, 2));
    externals.observe(socket(1), IpAddr::v4(198, 51, 100, 1));
    externals.observe(socket(2), IpAddr::v4(198, 51, 100, 1));
    assert_eq!(externals.observers(&socket(1)), Some(2));
    assert_eq!(externals.observers(&socket(2)), Some(1));
}
