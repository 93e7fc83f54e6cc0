//! Close group cache for persisting trusted peers across restarts.

use crate::address::MultiAddr;
use crate::peer_id::PeerId;
use vstd::prelude::*;

verus! {

/// Filename used for the close group cache inside the configured directory.
pub const CACHE_FILENAME: &'static str = "close_group_cache.json";

/// Maximum tolerated wall-clock skew for a timestamp in the future, in seconds.
/// Larger offsets are treated as invalid so a corrupt clock cannot make a cache
/// appear fresh indefinitely.
pub const MAX_FUTURE_TIMESTAMP_SKEW_SECS: u64 = 300;

/// Whether a time of saving is more than the tolerated skew after now.
pub open spec fn implausibly_future(saved_at: u64, now: u64) -> bool {
    saved_at > now + MAX_FUTURE_TIMESTAMP_SKEW_SECS
}

/// Trust in a peer.
#[derive(Debug, Clone, Copy, PartialEq, Eq, Structural)]
pub struct TrustRecord {
    /// Trust score, as a number that orders as the score does.
    pub score: u64,
    /// When the score was last updated (seconds since UNIX epoch).
    pub last_updated_epoch_secs: u64,
}

/// A peer in the persisted close group cache.
#[derive(Debug)]
pub struct CachedCloseGroupPeer {
    /// Peer identity.
    pub peer_id: PeerId,
    /// Known addresses for this peer.
    pub addresses: Vec<MultiAddr>,
    /// Trust score at time of save.
    pub trust: TrustRecord,
}

/// Persisted close group snapshot with trust scores.
///
/// Stale snapshots are skipped as bootstrap material according to the node's
/// configured maximum cache age.
#[derive(Debug)]
pub struct CloseGroupCache {
    /// Close group peers with their trust scores.
    pub peers: Vec<CachedCloseGroupPeer>,
    /// When this snapshot was saved (seconds since UNIX epoch).
    pub saved_at_epoch_secs: u64,
}

/// Whether a time of saving is more than the tolerated skew after now.
pub fn is_implausibly_future(saved_at: u64, now: u64) -> (result: bool)
    ensures
        result == implausibly_future(saved_at, now),
{
    saved_at.saturating_sub(now) > MAX_FUTURE_TIMESTAMP_SKEW_SECS
}

impl CloseGroupCache {
    /// Whether a snapshot is not to be used.
    pub open spec fn stale(self, now: u64, max_age_secs: Option<u64>) -> bool {
        implausibly_future(self.saved_at_epoch_secs, now) || (max_age_secs matches Some(age) && now
            > self.saved_at_epoch_secs + age)
    }

    /// Return whether this snapshot is older than `max_age_secs` relative to
    /// `now_epoch_secs`.
    ///
    /// `None` disables the maximum-age check, but timestamps materially in the
    /// future are always rejected. Small offsets are tolerated for clock skew.
    #[must_use]
    pub fn is_stale(&self, now_epoch_secs: u64, max_age_secs: Option<u64>) -> (result: bool)
        ensures
            result == self.stale(now_epoch_secs, max_age_secs),
    {
        if is_implausibly_future(self.saved_at_epoch_secs, now_epoch_secs) {
            return true;
        }
        match max_age_secs {
            Some(age) => now_epoch_secs.saturating_sub(self.saved_at_epoch_secs) > age,
            None => false,
        }
    }
}

/// A snapshot that is too old stays too old as time goes on.
pub proof fn law_staleness_is_permanent(
    cache: CloseGroupCache,
    now: u64,
    later: u64,
    max_age_secs: Option<u64>,
)
    requires
        cache.stale(now, max_age_secs),
        !implausibly_future(cache.saved_at_epoch_secs, now),
        now <= later,
    ensures
        cache.stale(later, max_age_secs),
{
}

/// With a maximum age a cache is used until it is older than that, and without
/// one at any age. A cache from the future is used where the clocks are no
/// further apart than the tolerated skew, whatever the maximum age.
pub proof fn law_fresh_caches_are_used(cache: CloseGroupCache, now: u64, age: u64)
    ensures
        0 <= now - cache.saved_at_epoch_secs <= age ==> !cache.stale(now, Some(age)),
        now - cache.saved_at_epoch_secs > age ==> cache.stale(now, Some(age)),
        cache.saved_at_epoch_secs <= now ==> !cache.stale(now, None),
        0 < cache.saved_at_epoch_secs - now <= 5 * 60 ==> !cache.stale(now, Some(age))
            && !cache.stale(now, None),
        cache.saved_at_epoch_secs - now > 5 * 60 ==> cache.stale(now, Some(age)) && cache.stale(
            now,
            None,
        ),
{
}

/// A cache that is used under a maximum age is used under every longer one.
pub proof fn law_longer_ages_keep_more(
    cache: CloseGroupCache,
    now: u64,
    age: u64,
    longer: u64,
)
    requires
        age <= longer,
        !cache.stale(now, Some(age)),
    ensures
        !cache.stale(now, Some(longer)),
        !cache.stale(now, None),
{
}

} // verus!
