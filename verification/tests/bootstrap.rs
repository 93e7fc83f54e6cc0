//! Close group caches and routing snapshots.

use saorsa_core::address::{IpAddr, MultiAddr};
use saorsa_core::bootstrap::cache::{CloseGroupCache, MAX_FUTURE_TIMESTAMP_SKEW_SECS};
use saorsa_core::bootstrap::routing_snapshot::{
    check_snapshot_file, check_snapshot_read, RoutingSnapshot, SnapshotPeer, SnapshotRejection,
    MAX_ADDRESSES_PER_PEER, MAX_AGE_SECS, MAX_SNAPSHOT_BYTES, MAX_SNAPSHOT_PEERS, SCHEMA_VERSION,
};
use saorsa_core::peer_id::PeerId;

#[test]
fn cache_staleness_respects_age_limit_and_rejects_future_timestamp() {
    let now = 10_000;
    let max_age = 3_600;
    let mut cache = CloseGroupCache { peers: vec![], saved_at_epoch_secs: now };

    assert!(!cache.is_stale(now, Some(max_age)));
    cache.saved_at_epoch_secs = now - 3_600;
    assert!(!cache.is_stale(now, Some(max_age)));
    cache.saved_at_epoch_secs = now - 3_601;
    assert!(cache.is_stale(now, Some(max_age)));
    assert!(!cache.is_stale(now, None));

    cache.saved_at_epoch_secs = now + 60;
    assert!(!cache.is_stale(now, Some(max_age)));
    cache.saved_at_epoch_secs = now + MAX_FUTURE_TIMESTAMP_SKEW_SECS;
    assert!(!cache.is_stale(now, Some(max_age)));
    cache.saved_at_epoch_secs = now + MAX_FUTURE_TIMESTAMP_SKEW_SECS + 1;
    assert!(cache.is_stale(now, Some(max_age)));
    assert!(cache.is_stale(now, None));
}

fn peer(seed: u8, addresses: usize) -> SnapshotPeer {
    SnapshotPeer {
        peer_id: PeerId::from_bytes([seed; 32]),
        addresses: (0..addresses)
            .map(|_| MultiAddr::from_ip_port(IpAddr::v4(10, 0, 1, 1), 9000))
            .collect(),
    }
}

fn snapshot(owner: PeerId, saved_at: u64, count: usize) -> RoutingSnapshot {
    RoutingSnapshot::new(owner, saved_at, (0..count).map(|i| peer(i as u8, 1)).collect())
}

#[test]
fn another_nodes_snapshot_is_refused() {
    let owner = PeerId::from_bytes([1; 32]);
    let someone_else = PeerId::from_bytes([2; 32]);
    assert_eq!(
        snapshot(owner, 1_000, 4).peers_for(&someone_else, 1_000),
        Err(SnapshotRejection::ForeignOwner)
    );
}

#[test]
fn an_unknown_schema_version_is_refused_rather_than_guessed_at() {
    let owner = PeerId::from_bytes([1; 32]);
    let mut snap = snapshot(owner, 1_000, 4);
    snap.schema_version = SCHEMA_VERSION + 1;
    assert!(matches!(
        snap.peers_for(&owner, 1_000),
        Err(SnapshotRejection::UnknownSchemaVersion { .. })
    ));
    assert_eq!(
        snap.peers_for(&owner, 1_000).unwrap_err().message(),
        "unknown schema version 2 (this build writes 1)"
    );
}

#[test]
fn staleness_is_bounded_on_both_sides_of_now() {
    let owner = PeerId::from_bytes([1; 32]);
    let saved_at = 1_000_000;
    let snap = snapshot(owner, saved_at, 4);

    // Fresh, and still usable well past the close-group cache's one hour.
    assert!(snap.peers_for(&owner, saved_at).is_ok());
    assert!(snap.peers_for(&owner, saved_at + 6 * 60 * 60).is_ok());
    // Older than the maximum age.
    assert_eq!(
        snap.peers_for(&owner, saved_at + MAX_AGE_SECS + 1),
        Err(SnapshotRejection::Stale)
    );
    // Dated further in the future than tolerated skew.
    assert_eq!(
        snap.peers_for(&owner, saved_at - MAX_FUTURE_TIMESTAMP_SKEW_SECS - 1),
        Err(SnapshotRejection::Stale)
    );
}

#[test]
fn snapshots_are_capped_in_peers_and_addresses() {
    let owner = PeerId::from_bytes([1; 32]);
    let oversized = RoutingSnapshot {
        schema_version: SCHEMA_VERSION,
        owner,
        saved_at_epoch_secs: 1_000,
        peers: (0..MAX_SNAPSHOT_PEERS + 50).map(|i| peer(i as u8, 20)).collect(),
    };
    let capped = oversized.capped();
    assert_eq!(capped.peers.len(), MAX_SNAPSHOT_PEERS);
    assert!(capped.peers.iter().all(|p| p.addresses.len() == MAX_ADDRESSES_PER_PEER));
    assert_eq!(capped.peers[7].peer_id, PeerId::from_bytes([7; 32]));
}

#[test]
fn unusable_snapshot_files_are_refused_with_a_reason() {
    assert!(check_snapshot_file(true, MAX_SNAPSHOT_BYTES).is_ok());
    assert!(matches!(
        check_snapshot_file(false, 10),
        Err(SnapshotRejection::Unreadable(_))
    ));
    assert!(matches!(
        check_snapshot_file(true, MAX_SNAPSHOT_BYTES + 1),
        Err(SnapshotRejection::Unreadable(_))
    ));
    assert!(check_snapshot_read(&vec![0; 10]).is_ok());
    assert!(check_snapshot_read(&vec![0; MAX_SNAPSHOT_BYTES as usize + 1]).is_err());
}
