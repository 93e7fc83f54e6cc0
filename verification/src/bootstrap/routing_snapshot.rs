//! The whole routing table, persisted across a restart.
//!
//! Restored peers are **dial candidates only**. They are dialled and
//! identity-verified through the ordinary path before they can enter the
//! routing table, and the snapshot carries no trust scores, because a file on
//! disk must not grant routing-table membership or above-neutral trust.

use crate::address::MultiAddr;
use crate::bootstrap::cache::{implausibly_future, is_implausibly_future};
use crate::peer_id::PeerId;
use crate::text::{decimal, encode_decimal};
use vstd::prelude::*;
use vstd::string::*;

verus! {

/// Filename for the routing snapshot.
pub const ROUTING_SNAPSHOT_FILENAME: &'static str = "routing_snapshot.json";

/// Schema version. An unrecognised version is discarded, never coerced.
pub const SCHEMA_VERSION: u32 = 1;

/// Maximum age of a snapshot that is still worth dialling, in seconds.
pub const MAX_AGE_SECS: u64 = 604800;

/// Largest snapshot file that will be read.
pub const MAX_SNAPSHOT_BYTES: u64 = 524288;

/// Cap on the peers of a snapshot, applied when writing and after parsing.
pub const MAX_SNAPSHOT_PEERS: usize = 1024;

/// Cap on the addresses of a peer, applied when writing and after parsing.
pub const MAX_ADDRESSES_PER_PEER: usize = 8;

/// A peer recorded in a snapshot: identity and addresses, nothing else.
#[derive(Debug, PartialEq, Eq)]
pub struct SnapshotPeer {
    /// Peer identity, re-verified on dial before it can enter the routing table.
    pub peer_id: PeerId,
    /// Addresses last known to reach this peer.
    pub addresses: Vec<MultiAddr>,
}

/// Why a snapshot on disk was not used.
///
/// A node that silently cold-starts looks identical to one that never had a
/// snapshot, so every rejection is reportable.
#[derive(Debug, PartialEq, Eq)]
pub enum SnapshotRejection {
    /// The schema version is not one this build understands.
    UnknownSchemaVersion {
        /// Version found in the file.
        found: u32,
        /// Version this build writes.
        expected: u32,
    },
    /// The snapshot was written by a different node. Bucket indices are
    /// relative to the owner, so another node's snapshot is meaningless here.
    ForeignOwner,
    /// Older than the maximum age, or dated implausibly far in the future.
    Stale,
    /// The file exists but could not be used.
    Unreadable(String),
}

impl SnapshotRejection {
    /// The text of a rejection.
    pub open spec fn text(self) -> Seq<char> {
        match self {
            SnapshotRejection::UnknownSchemaVersion { found, expected } =>
                "unknown schema version "@ + decimal(found as nat) + " (this build writes "@
                + decimal(expected as nat) + ")"@,
            SnapshotRejection::ForeignOwner => "written by a different node"@,
            SnapshotRejection::Stale => "stale or implausibly future-dated"@,
            SnapshotRejection::Unreadable(reason) => "unusable snapshot file: "@ + reason@,
        }
    }

    /// The rejection in words.
    pub fn message(&self) -> (text: String)
        ensures
            text@ == self.text(),
    {
        match self {
            SnapshotRejection::UnknownSchemaVersion { found, expected } => {
                let mut text = "unknown schema version ".to_owned();
                text.append(encode_decimal(*found as u64).as_str());
                text.append(" (this build writes ");
                text.append(encode_decimal(*expected as u64).as_str());
                text.append(")");
                text
            },
            SnapshotRejection::ForeignOwner => "written by a different node".to_owned(),
            SnapshotRejection::Stale => "stale or implausibly future-dated".to_owned(),
            SnapshotRejection::Unreadable(reason) => {
                let mut text = "unusable snapshot file: ".to_owned();
                text.append(reason.as_str());
                text
            },
        }
    }
}

/// A persisted routing table.
#[derive(Debug)]
pub struct RoutingSnapshot {
    /// Schema version of this file.
    pub schema_version: u32,
    /// Node that wrote it. Bucket indices are relative to this id.
    pub owner: PeerId,
    /// When it was written (seconds since UNIX epoch).
    pub saved_at_epoch_secs: u64,
    /// Every routing-table peer at the time of writing, across all buckets.
    pub peers: Vec<SnapshotPeer>,
}

/// A list cut to a length.
pub open spec fn cut<T>(list: Seq<T>, count: nat) -> Seq<T> {
    if list.len() <= count {
        list
    } else {
        list.take(count as int)
    }
}

/// Identity and addresses of a recorded peer.
pub open spec fn peer_entry(peer: SnapshotPeer) -> (Seq<u8>, Seq<MultiAddr>) {
    (peer.peer_id@, peer.addresses@)
}

/// Identities and addresses of recorded peers.
pub open spec fn peer_entries(peers: Seq<SnapshotPeer>) -> Seq<(Seq<u8>, Seq<MultiAddr>)> {
    peers.map(|_i: int, p: SnapshotPeer| peer_entry(p))
}

/// The entries within the caps.
pub open spec fn capped_entries(entries: Seq<(Seq<u8>, Seq<MultiAddr>)>) -> Seq<
    (Seq<u8>, Seq<MultiAddr>),
> {
    cut(entries, MAX_SNAPSHOT_PEERS as nat).map(
        |_i: int, e: (Seq<u8>, Seq<MultiAddr>)| (e.0, cut(e.1, MAX_ADDRESSES_PER_PEER as nat)),
    )
}

/// Cut recorded peers to the caps.
fn cap_peers(peers: Vec<SnapshotPeer>) -> (capped: Vec<SnapshotPeer>)
    ensures
        peer_entries(capped@) == capped_entries(peer_entries(peers@)),
{
    let ghost entries = peer_entries(peers@);
    let mut rest = peers;
    rest.truncate(MAX_SNAPSHOT_PEERS);
    let ghost kept = rest@;
    let ghost wanted = capped_entries(entries);
    proof {
        assert(peer_entries(kept) =~= cut(entries, MAX_SNAPSHOT_PEERS as nat));
    }
    let mut capped: Vec<SnapshotPeer> = Vec::new();
    while rest.len() > 0
        invariant
            rest@.len() + capped@.len() == kept.len(),
            rest@ == kept.skip(capped@.len() as int),
            wanted == capped_entries(entries),
            peer_entries(kept) == cut(entries, MAX_SNAPSHOT_PEERS as nat),
            forall|i: int| 0 <= i < capped@.len() ==> peer_entry(#[trigger] capped@[i]) == wanted[i],
        decreases rest@.len(),
    {
        let ghost at = capped@.len() as int;
        let first = rest.remove(0);
        let peer_id = first.peer_id;
        let mut addresses = first.addresses;
        addresses.truncate(MAX_ADDRESSES_PER_PEER);
        proof {
            assert(first == kept[at]);
            assert(peer_entries(kept)[at] == peer_entry(first));
            assert(addresses@ =~= cut(first.addresses@, MAX_ADDRESSES_PER_PEER as nat));
        }
        capped.push(SnapshotPeer { peer_id, addresses });
        proof {
            assert(rest@ =~= kept.skip(capped@.len() as int));
        }
    }
    assert(peer_entries(capped@) =~= wanted);
    capped
}

impl RoutingSnapshot {
    /// Build a snapshot of the current routing table, capped.
    pub fn new(owner: PeerId, saved_at_epoch_secs: u64, peers: Vec<SnapshotPeer>) -> (snapshot: Self)
        ensures
            snapshot.schema_version == SCHEMA_VERSION,
            snapshot.owner == owner,
            snapshot.saved_at_epoch_secs == saved_at_epoch_secs,
            peer_entries(snapshot.peers@) == capped_entries(peer_entries(peers@)),
    {
        RoutingSnapshot {
            schema_version: SCHEMA_VERSION,
            owner,
            saved_at_epoch_secs,
            peers: cap_peers(peers),
        }
    }

    /// Apply the write-side caps to a snapshot that this process did not write.
    pub fn capped(self) -> (snapshot: Self)
        ensures
            snapshot.schema_version == self.schema_version,
            snapshot.owner == self.owner,
            snapshot.saved_at_epoch_secs == self.saved_at_epoch_secs,
            peer_entries(snapshot.peers@) == capped_entries(peer_entries(self.peers@)),
    {
        RoutingSnapshot {
            schema_version: self.schema_version,
            owner: self.owner,
            saved_at_epoch_secs: self.saved_at_epoch_secs,
            peers: cap_peers(self.peers),
        }
    }

    /// Whether a snapshot is too old, or dated implausibly far in the future.
    pub open spec fn stale(self, now: u64) -> bool {
        implausibly_future(self.saved_at_epoch_secs, now) || now > self.saved_at_epoch_secs
            + MAX_AGE_SECS
    }

    /// Why a snapshot is not used by a node at a time.
    pub open spec fn rejection(self, owner: PeerId, now: u64) -> Option<SnapshotRejection> {
        if self.schema_version != SCHEMA_VERSION {
            Some(
                SnapshotRejection::UnknownSchemaVersion {
                    found: self.schema_version,
                    expected: SCHEMA_VERSION,
                },
            )
        } else if self.owner != owner {
            Some(SnapshotRejection::ForeignOwner)
        } else if self.stale(now) {
            Some(SnapshotRejection::Stale)
        } else {
            None
        }
    }

    /// The peers this node may dial, or why the snapshot was not used.
    ///
    /// # Errors
    ///
    /// Returns the first binding that failed, so the caller can log why.
    pub fn peers_for(&self, expected_owner: &PeerId, now_epoch_secs: u64) -> (peers: Result<
        &Vec<SnapshotPeer>,
        SnapshotRejection,
    >)
        ensures
            match self.rejection(*expected_owner, now_epoch_secs) {
                None => peers == Ok::<_, SnapshotRejection>(&self.peers),
                Some(rejection) => peers == Err::<&Vec<SnapshotPeer>, _>(rejection),
            },
    {
        if self.schema_version != SCHEMA_VERSION {
            return Err(
                SnapshotRejection::UnknownSchemaVersion {
                    found: self.schema_version,
                    expected: SCHEMA_VERSION,
                },
            );
        }
        if !self.owner.is(expected_owner) {
            return Err(SnapshotRejection::ForeignOwner);
        }
        if self.is_stale(now_epoch_secs) {
            return Err(SnapshotRejection::Stale);
        }
        Ok(&self.peers)
    }

    /// Older than the maximum age, or dated implausibly far in the future.
    pub fn is_stale(&self, now_epoch_secs: u64) -> (result: bool)
        ensures
            result == self.stale(now_epoch_secs),
    {
        is_implausibly_future(self.saved_at_epoch_secs, now_epoch_secs)
            || now_epoch_secs.saturating_sub(self.saved_at_epoch_secs) > MAX_AGE_SECS
    }
}

/// Why an opened file is not read as a snapshot.
pub open spec fn file_fault(is_file: bool, length: nat) -> Option<Seq<char>> {
    if !is_file {
        Some("not a regular file"@)
    } else if length > MAX_SNAPSHOT_BYTES {
        Some(
            decimal(length) + " bytes exceeds the "@ + decimal(MAX_SNAPSHOT_BYTES as nat)
                + " byte limit"@,
        )
    } else {
        None
    }
}

/// Why bytes that were read are not parsed as a snapshot, by their number.
pub open spec fn read_fault(length: nat) -> Option<Seq<char>> {
    if length > MAX_SNAPSHOT_BYTES {
        Some(
            "exceeds the "@ + decimal(MAX_SNAPSHOT_BYTES as nat) + " byte limit while reading"@,
        )
    } else {
        None
    }
}

/// Decide from the opened file whether it may be read as a snapshot.
pub fn check_snapshot_file(is_file: bool, length: u64) -> (checked: Result<(), SnapshotRejection>)
    ensures
        match file_fault(is_file, length as nat) {
            Some(text) => checked matches Err(SnapshotRejection::Unreadable(reason)) && reason@ == text,
            None => checked is Ok,
        },
{
    if !is_file {
        return Err(SnapshotRejection::Unreadable("not a regular file".to_owned()));
    }
    if length > MAX_SNAPSHOT_BYTES {
        let mut reason = encode_decimal(length);
        reason.append(" bytes exceeds the ");
        reason.append(encode_decimal(MAX_SNAPSHOT_BYTES).as_str());
        reason.append(" byte limit");
        return Err(SnapshotRejection::Unreadable(reason));
    }
    Ok(())
}

/// Decide from the bytes that were read, at most one above the limit, whether
/// they may be parsed: the file may have grown after it was opened.
pub fn check_snapshot_read(bytes: &[u8]) -> (checked: Result<(), SnapshotRejection>)
    ensures
        match read_fault(bytes@.len()) {
            Some(text) => checked matches Err(SnapshotRejection::Unreadable(reason)) && reason@ == text,
            None => checked is Ok,
        },
{
    if bytes.len() as u64 > MAX_SNAPSHOT_BYTES {
        let mut reason = "exceeds the ".to_owned();
        reason.append(encode_decimal(MAX_SNAPSHOT_BYTES).as_str());
        reason.append(" byte limit while reading");
        return Err(SnapshotRejection::Unreadable(reason));
    }
    Ok(())
}

/// The caps bound what a snapshot can make a node dial, and applying them again
/// changes nothing.
pub proof fn law_caps_bound_the_dial_set(entries: Seq<(Seq<u8>, Seq<MultiAddr>)>)
    ensures
        capped_entries(entries).len() <= MAX_SNAPSHOT_PEERS,
        forall|i: int|
            0 <= i < capped_entries(entries).len() ==> (#[trigger] capped_entries(entries)[i]).1.len()
                <= MAX_ADDRESSES_PER_PEER,
        capped_entries(capped_entries(entries)) == capped_entries(entries),
{
    assert(capped_entries(capped_entries(entries)) =~= capped_entries(entries));
}

/// What a node wrote, it may dial within the maximum age: the snapshot is bound
/// to its owner, and no other node may use it.
pub proof fn law_snapshots_are_bound_to_their_owner(
    snapshot: RoutingSnapshot,
    owner: PeerId,
    other: PeerId,
    now: u64,
)
    requires
        snapshot.schema_version == SCHEMA_VERSION,
        snapshot.owner == owner,
        snapshot.saved_at_epoch_secs <= now <= snapshot.saved_at_epoch_secs + MAX_AGE_SECS,
        other != owner,
    ensures
        snapshot.rejection(owner, now) is None,
        snapshot.rejection(other, now) == Some(SnapshotRejection::ForeignOwner),
{
}

/// Peers are recorded in their order, each under its identity. A peer keeps all
/// of its addresses, in their order, as far as the cap on addresses goes, and
/// what comes after the caps alone is left out.
pub proof fn law_recorded_peers_keep_their_addresses(entries: Seq<(Seq<u8>, Seq<MultiAddr>)>)
    ensures
        entries.len() <= MAX_SNAPSHOT_PEERS ==> capped_entries(entries).len() == entries.len(),
        entries.len() > MAX_SNAPSHOT_PEERS ==> capped_entries(entries).len() == MAX_SNAPSHOT_PEERS,
        forall|i: int|
            0 <= i < capped_entries(entries).len() ==> (#[trigger] capped_entries(entries)[i]).0
                == entries[i].0,
        forall|i: int|
            0 <= i < capped_entries(entries).len() && entries[i].1.len() <= MAX_ADDRESSES_PER_PEER
                ==> (#[trigger] capped_entries(entries)[i]).1 == entries[i].1,
        forall|i: int|
            0 <= i < capped_entries(entries).len() && entries[i].1.len() > MAX_ADDRESSES_PER_PEER
                ==> (#[trigger] capped_entries(entries)[i]).1.len() == MAX_ADDRESSES_PER_PEER,
        forall|i: int, j: int|
            0 <= i < capped_entries(entries).len() && 0 <= j < entries[i].1.len() && j
                < MAX_ADDRESSES_PER_PEER ==> #[trigger] capped_entries(entries)[i].1[j]
                == entries[i].1[j],
{
}

/// Entries that are within both caps are recorded as they are.
pub proof fn law_small_tables_are_recorded_whole(entries: Seq<(Seq<u8>, Seq<MultiAddr>)>)
    requires
        entries.len() <= MAX_SNAPSHOT_PEERS,
        forall|i: int|
            0 <= i < entries.len() ==> (#[trigger] entries[i]).1.len() <= MAX_ADDRESSES_PER_PEER,
    ensures
        capped_entries(entries) == entries,
{
    assert(capped_entries(entries) =~= entries);
}

/// What is recorded of the first peers does not depend on the peers after them.
pub proof fn law_later_peers_change_no_earlier_entry(
    entries: Seq<(Seq<u8>, Seq<MultiAddr>)>,
    more: Seq<(Seq<u8>, Seq<MultiAddr>)>,
    index: int,
)
    requires
        0 <= index < entries.len(),
        index < MAX_SNAPSHOT_PEERS,
    ensures
        index < capped_entries(entries).len(),
        index < capped_entries(entries + more).len(),
        capped_entries(entries + more)[index] == capped_entries(entries)[index],
{
    assert((entries + more)[index] == entries[index]);
}

/// A snapshot of a foreign schema is refused for that alone, whoever wrote it and
/// whenever; one of another node is refused for that, whatever its age.
pub proof fn law_the_first_failed_binding_is_reported(
    snapshot: RoutingSnapshot,
    owner: PeerId,
    now: u64,
)
    ensures
        snapshot.schema_version != SCHEMA_VERSION ==> snapshot.rejection(owner, now) == Some(
            SnapshotRejection::UnknownSchemaVersion {
                found: snapshot.schema_version,
                expected: SCHEMA_VERSION,
            },
        ),
        snapshot.schema_version == SCHEMA_VERSION && snapshot.owner != owner
            ==> snapshot.rejection(owner, now) == Some(SnapshotRejection::ForeignOwner),
        snapshot.rejection(owner, now) is None ==> snapshot.schema_version == SCHEMA_VERSION
            && snapshot.owner == owner,
{
}

/// A node dials its own snapshot from when it was written until the maximum age
/// is over, and with a clock that runs behind by the tolerated skew; before and
/// after that the snapshot is refused as stale.
pub proof fn law_age_bounds_what_is_dialled(snapshot: RoutingSnapshot, owner: PeerId, now: u64)
    requires
        snapshot.schema_version == SCHEMA_VERSION,
        snapshot.owner == owner,
    ensures
        now - snapshot.saved_at_epoch_secs > 7 * 24 * 60 * 60 ==> snapshot.rejection(owner, now)
            == Some(SnapshotRejection::Stale),
        snapshot.saved_at_epoch_secs - now > 5 * 60 ==> snapshot.rejection(owner, now) == Some(
            SnapshotRejection::Stale,
        ),
        -5 * 60 <= now - snapshot.saved_at_epoch_secs <= 7 * 24 * 60 * 60 ==> snapshot.rejection(
            owner,
            now,
        ) is None,
{
}

/// A snapshot is read from a regular file of at most half a mebibyte, and parsed
/// where no more than that was read; everything else is refused.
pub proof fn law_large_files_are_not_read(is_file: bool, length: nat)
    ensures
        file_fault(is_file, length) is None <==> is_file && length <= 512 * 1024,
        read_fault(length) is None <==> length <= 512 * 1024,
        file_fault(false, length) == Some("not a regular file"@),
{
}

/// A rejection tells its reason in full: both versions where the schema is not
/// known, whose snapshot it is, its age, or what kept the file from being used.
pub proof fn law_rejections_tell_their_reason(found: u32, expected: u32, reason: String)
    ensures
        (SnapshotRejection::UnknownSchemaVersion { found, expected }).text()
            == "unknown schema version "@ + decimal(found as nat) + " (this build writes "@
            + decimal(expected as nat) + ")"@,
        SnapshotRejection::Unreadable(reason).text() == "unusable snapshot file: "@ + reason@,
        SnapshotRejection::ForeignOwner.text() == "written by a different node"@,
        SnapshotRejection::Stale.text() == "stale or implausibly future-dated"@,
{
}

} // verus!
