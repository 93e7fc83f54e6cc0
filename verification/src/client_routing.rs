//! Client-side peer report selection and witness normalization.
//! Transport I/O, node admission, and routing maintenance remain outside this
//! module.

use crate::address::MultiAddr;
use crate::keys::{
    closer, closest, closest_keys, distance, full_keys, is_closest, key_views,
    lemma_distance_injective, LookupKey,
};
use crate::peer_id::{lemma_peer_is_its_bytes, Key, PeerId};
use crate::peer_record::{DHTNode, NodeView, ResponderView, Typed, WitnessedCloseGroup};
use crate::table::Table;
use core::cmp::Ordering;
use vstd::prelude::*;

verus! {

/// Number of closest responders whose agreement counts.
///
/// Among the closest-XOR responders that reported a given subject, a consensus
/// of [`QUORUM_THRESHOLD`] out of the top `QUORUM_TOP_N` agreeing responders
/// wins outright. A single close-XOR adversary cannot poison the lookup so long
/// as two of its XOR neighbours are honest and agree.
pub const QUORUM_TOP_N: usize = 3;

/// Number of responders that have to agree.
pub const QUORUM_THRESHOLD: usize = 2;

/// All reports collected for a single subject peer during an iterative
/// FIND_NODE lookup, keyed by responder peer_id.
pub type SubjectReports = Table<PeerId, DHTNode>;

/// What each record of a map says.
pub open spec fn node_views(nodes: Map<Seq<u8>, DHTNode>) -> Map<Seq<u8>, NodeView> {
    nodes.map_values(|n: DHTNode| n@)
}

/// What each record of a list says.
pub open spec fn list_views(nodes: Seq<DHTNode>) -> Seq<NodeView> {
    nodes.map(|_i: int, n: DHTNode| n@)
}

/// The best rank among typed addresses; 255 where there is none.
pub open spec fn best_rank(typed: Seq<Typed>) -> u8
    decreases typed.len(),
{
    if typed.len() == 0 {
        u8::MAX
    } else if typed.last().1.rank() < best_rank(typed.drop_last()) {
        typed.last().1.rank()
    } else {
        best_rank(typed.drop_last())
    }
}

/// The ranks under which an address is listed, in order.
pub open spec fn ranks_of(typed: Seq<Typed>, address: MultiAddr) -> Seq<u8>
    decreases typed.len(),
{
    if typed.len() == 0 {
        Seq::empty()
    } else if typed.last().0 == address {
        ranks_of(typed.drop_last(), address).push(typed.last().1.rank())
    } else {
        ranks_of(typed.drop_last(), address)
    }
}

/// Whether two reports list the same addresses under the same ranks, whatever
/// the order of the addresses.
pub open spec fn agree(left: NodeView, right: NodeView) -> bool {
    forall|address: MultiAddr| #[trigger]
        ranks_of(left.typed(), address) == ranks_of(right.typed(), address)
}

/// Whether some report has authority from the owner.
pub open spec fn any_proven(reports: Map<Seq<u8>, NodeView>) -> bool {
    exists|k: Seq<u8>| #[trigger] reports.dom().contains(k) && reports[k].generation() > 0
}

/// Whether a responder other than the one at `i` agrees with it.
pub open spec fn has_ally(peers: Seq<Seq<u8>>, reports: Map<Seq<u8>, NodeView>, i: int) -> bool {
    exists|j: int|
        0 <= j < peers.len() && j != i && agree(reports[peers[i]], reports[#[trigger] peers[j]])
}

/// The first responder from `i` on with which another one agrees.
pub open spec fn first_allied(
    peers: Seq<Seq<u8>>,
    reports: Map<Seq<u8>, NodeView>,
    i: int,
) -> Option<Seq<u8>>
    decreases peers.len() - i,
{
    if i < 0 || i >= peers.len() {
        None
    } else if has_ally(peers, reports, i) {
        Some(peers[i])
    } else {
        first_allied(peers, reports, i + 1)
    }
}

/// Whether the report of a responder wins for a subject.
///
/// A report with the most authority from the owner wins, the closest one of
/// several; among hints, the subject's own report; among those of others, the
/// closest one of a quorum of the closest responders; and else the closest one.
pub open spec fn wins(subject: Seq<u8>, reports: Map<Seq<u8>, NodeView>, peer: Seq<u8>) -> bool {
    let top = closest(reports.dom(), subject, QUORUM_TOP_N as nat);
    &&& reports.dom().contains(peer)
    &&& if any_proven(reports) {
        &&& reports[peer].generation() > 0
        &&& forall|k: Seq<u8>| #[trigger]
            reports.dom().contains(k) ==> !reports[k].outranks(reports[peer]) && (
            !reports[peer].outranks(reports[k]) ==> distance(peer, subject) <= distance(k, subject))
    } else if reports.dom().contains(subject) {
        peer == subject
    } else {
        match first_allied(top, reports, 0) {
            Some(ally) => peer == ally,
            None => peer == top[0],
        }
    }
}

/// The responder whose report wins for a subject.
pub open spec fn winner(subject: Seq<u8>, reports: Map<Seq<u8>, NodeView>) -> Seq<u8> {
    choose|peer: Seq<u8>| wins(subject, reports, peer)
}

/// One responder at most wins for a subject.
pub proof fn law_winner_is_unique(
    subject: Seq<u8>,
    reports: Map<Seq<u8>, NodeView>,
    left: Seq<u8>,
    right: Seq<u8>,
)
    requires
        subject.len() == 32,
        full_keys(reports.dom()),
        wins(subject, reports, left),
        wins(subject, reports, right),
    ensures
        left == right,
{
    if any_proven(reports) {
        assert(reports.dom().contains(left));
        assert(reports.dom().contains(right));
        lemma_distance_injective(left, right, subject);
    }
}

/// An unproven report never wins over a proven one, and of two proven ones the
/// one with less authority never wins: no intermediary displaces what the
/// owner published.
pub proof fn law_owner_publication_wins(
    subject: Seq<u8>,
    reports: Map<Seq<u8>, NodeView>,
    peer: Seq<u8>,
    other: Seq<u8>,
)
    requires
        wins(subject, reports, peer),
        reports.dom().contains(other),
        reports[other].generation() > 0,
    ensures
        reports[peer].generation() > 0,
        !reports[other].outranks(reports[peer]),
{
}

/// Best (lowest-numeric) [`crate::peer_record::AddressType::priority`] across a
/// node's address tags. `u8::MAX` when the address list is empty.
pub fn best_tier_priority(node: &DHTNode) -> (best: u8)
    ensures
        best == best_rank(node@.typed()),
{
    let typed = node.typed_addresses();
    let mut best: u8 = u8::MAX;
    let mut index: usize = 0;
    while index < typed.len()
        invariant
            index <= typed@.len(),
            best == best_rank(typed@.take(index as int)),
        decreases typed@.len() - index,
    {
        proof {
            assert(typed@.take(index as int + 1).drop_last() =~= typed@.take(index as int));
        }
        let rank = typed[index].1.priority();
        if rank < best {
            best = rank;
        }
        index += 1;
    }
    assert(typed@.take(typed@.len() as int) =~= typed@);
    best
}

fn listed_ranks(typed: &Vec<Typed>, address: &MultiAddr) -> (ranks: Vec<u8>)
    ensures
        ranks@ == ranks_of(typed@, *address),
{
    let mut ranks: Vec<u8> = Vec::new();
    let mut index: usize = 0;
    while index < typed.len()
        invariant
            index <= typed@.len(),
            ranks@ == ranks_of(typed@.take(index as int), *address),
        decreases typed@.len() - index,
    {
        proof {
            assert(typed@.take(index as int + 1).drop_last() =~= typed@.take(index as int));
        }
        if typed[index].0.is(address) {
            ranks.push(typed[index].1.priority());
        }
        index += 1;
    }
    assert(typed@.take(typed@.len() as int) =~= typed@);
    ranks
}

fn same_bytes(left: &Vec<u8>, right: &Vec<u8>) -> (same: bool)
    ensures
        same == (left@ == right@),
{
    if left.len() != right.len() {
        return false;
    }
    let mut index: usize = 0;
    while index < left.len()
        invariant
            index <= left@.len(),
            left@.len() == right@.len(),
            forall|i: int| 0 <= i < index ==> left@[i] == right@[i],
        decreases left@.len() - index,
    {
        if left[index] != right[index] {
            return false;
        }
        index += 1;
    }
    assert(left@ =~= right@);
    true
}

proof fn lemma_unlisted(typed: Seq<Typed>, address: MultiAddr)
    requires
        forall|i: int| 0 <= i < typed.len() ==> (#[trigger] typed[i]).0 != address,
    ensures
        ranks_of(typed, address) == Seq::<u8>::empty(),
    decreases typed.len(),
{
    if typed.len() > 0 {
        assert forall|i: int| 0 <= i < typed.drop_last().len() implies (
        #[trigger] typed.drop_last()[i]).0 != address by {
            assert(typed.drop_last()[i] == typed[i]);
        }
        assert(typed[typed.len() - 1].0 != address);
        lemma_unlisted(typed.drop_last(), address);
    }
}

/// Whether every address of `typed` has the same ranks in `left` and `right`.
fn same_ranks(typed: &Vec<Typed>, left: &Vec<Typed>, right: &Vec<Typed>) -> (same: bool)
    ensures
        same == (forall|i: int|
            0 <= i < typed@.len() ==> ranks_of(left@, (#[trigger] typed@[i]).0) == ranks_of(
                right@,
                typed@[i].0,
            )),
{
    let mut index: usize = 0;
    while index < typed.len()
        invariant
            index <= typed@.len(),
            forall|i: int|
                0 <= i < index ==> ranks_of(left@, (#[trigger] typed@[i]).0) == ranks_of(
                    right@,
                    typed@[i].0,
                ),
        decreases typed@.len() - index,
    {
        let address = typed[index].0;
        if !same_bytes(&listed_ranks(left, &address), &listed_ranks(right, &address)) {
            assert(typed@[index as int].0 == address);
            return false;
        }
        index += 1;
    }
    true
}

/// Whether two reports list the same addresses under the same ranks,
/// independent of the order of the addresses.
pub fn reports_agree(left: &DHTNode, right: &DHTNode) -> (result: bool)
    ensures
        result == agree(left@, right@),
{
    let left_typed = left.typed_addresses();
    let right_typed = right.typed_addresses();
    let result = same_ranks(&left_typed, &left_typed, &right_typed) && same_ranks(
        &right_typed,
        &left_typed,
        &right_typed,
    );
    proof {
        if result {
            assert forall|address: MultiAddr| #[trigger] ranks_of(left@.typed(), address)
                == ranks_of(right@.typed(), address) by {
                if exists|i: int|
                    0 <= i < left_typed@.len() && (#[trigger] left_typed@[i]).0 == address {
                } else if exists|i: int|
                    0 <= i < right_typed@.len() && (#[trigger] right_typed@[i]).0 == address {
                } else {
                    lemma_unlisted(left_typed@, address);
                    lemma_unlisted(right_typed@, address);
                }
            }
        }
    }
    result
}

/// The keys of peers.
pub fn peer_keys(peers: &Vec<PeerId>) -> (keys: Vec<LookupKey>)
    ensures
        key_views(keys@) == peers@.map(|_i: int, p: PeerId| p@),
{
    let mut keys: Vec<LookupKey> = Vec::new();
    let mut index: usize = 0;
    while index < peers.len()
        invariant
            index <= peers@.len(),
            keys@.len() == index,
            forall|i: int| 0 <= i < index ==> (#[trigger] keys@[i])@ == peers@[i]@,
        decreases peers@.len() - index,
    {
        keys.push(*peers[index].as_bytes());
        index += 1;
    }
    assert(key_views(keys@) =~= peers@.map(|_i: int, p: PeerId| p@));
    keys
}

/// The members of a table that are closest to a target.
fn closest_in<T>(table: &Table<PeerId, T>, target: &LookupKey, count: usize) -> (nearest: Vec<
    LookupKey,
>)
    ensures
        is_closest(key_views(nearest@), table@.dom(), target@, count as nat),
        key_views(nearest@) == closest(table@.dom(), target@, count as nat),
        full_keys(table@.dom()),
        table@.dom().finite(),
{
    let peers = table.keys();
    let keys = peer_keys(&peers);
    let _ = table.len();
    proof {
        assert forall|k: Seq<u8>| #[trigger] table@.dom().contains(k) implies k.len() == 32 by {
            assert(key_views(keys@).to_set().contains(k));
            let i = key_views(keys@).index_of(k);
            assert(key_views(keys@)[i] == keys@[i]@);
        }
    }
    closest_keys(keys, target, count)
}

/// The closest responder among those whose reports have the most authority.
fn most_authority(subject: &PeerId, reports: &SubjectReports) -> (found: Option<PeerId>)
    ensures
        match found {
            Some(peer) => any_proven(node_views(reports@)) && wins(
                subject@,
                node_views(reports@),
                peer@,
            ),
            None => !any_proven(node_views(reports@)),
        },
{
    let ghost views = node_views(reports@);
    let count = reports.len();
    let mut best: Option<PeerId> = None;
    let mut index: usize = 0;
    while index < count
        invariant
            index <= count,
            count == reports.order().len(),
            views == node_views(reports@),
            best matches Some(peer) ==> views.dom().contains(peer@) && views[peer@].generation() > 0,
            forall|i: int|
                0 <= i < index ==> match best {
                    None => views[#[trigger] reports.order()[i]].generation() == 0,
                    Some(peer) => {
                        let k = reports.order()[i];
                        !views[k].outranks(views[peer@]) && (!views[peer@].outranks(views[k])
                            ==> distance(peer@, subject@) <= distance(k, subject@))
                    },
                },
        decreases count - index,
    {
        let (responder, node) = reports.entry_at(index);
        assert(views[responder@] == node@);
        if node.authority_generation() > 0 {
            let better = match &best {
                None => true,
                Some(peer) => match reports.get(peer) {
                    None => true,
                    Some(held) => node.has_more_authority(held) || (!held.has_more_authority(node)
                        && closer(responder.as_bytes(), peer.as_bytes(), subject.as_bytes())),
                },
            };
            if better {
                best = Some(*responder);
            }
        }
        index += 1;
    }
    proof {
        assert forall|k: Seq<u8>| #[trigger] views.dom().contains(k) implies
            reports.order().contains(k) by {
            assert(reports.order().to_set().contains(k));
        }
        match best {
            Some(peer) => {
                assert(any_proven(views));
                assert forall|k: Seq<u8>| #[trigger] views.dom().contains(k) implies
                    !views[k].outranks(views[peer@]) && (!views[peer@].outranks(views[k])
                    ==> distance(peer@, subject@) <= distance(k, subject@)) by {
                    assert(reports.order().contains(k));
                    let i = reports.order().index_of(k);
                    assert(reports.order()[i] == k);
                }
            },
            None => {
                assert forall|k: Seq<u8>| #[trigger] views.dom().contains(k) implies
                    views[k].generation() == 0 by {
                    assert(reports.order().contains(k));
                    let i = reports.order().index_of(k);
                    assert(reports.order()[i] == k);
                }
            },
        }
    }
    best
}

/// The first of the closest responders with which another one agrees.
fn quorum_member(top: &Vec<LookupKey>, reports: &SubjectReports) -> (found: Option<PeerId>)
    requires
        forall|i: int| 0 <= i < top@.len() ==> reports@.dom().contains(#[trigger] key_views(top@)[i]),
    ensures
        match found {
            Some(peer) => first_allied(key_views(top@), node_views(reports@), 0) == Some(peer@),
            None => first_allied(key_views(top@), node_views(reports@), 0) is None,
        },
{
    let ghost views = node_views(reports@);
    let ghost peers = key_views(top@);
    let mut index: usize = 0;
    while index < top.len()
        invariant
            index <= top@.len(),
            peers == key_views(top@),
            views == node_views(reports@),
            forall|i: int| 0 <= i < top@.len() ==> reports@.dom().contains(#[trigger] peers[i]),
            first_allied(peers, views, 0) == first_allied(peers, views, index as int),
        decreases top@.len() - index,
    {
        let peer = PeerId::from_bytes(top[index]);
        assert(peers[index as int] == peer@);
        let mut other: usize = 0;
        let mut allied: bool = false;
        while other < top.len()
            invariant
                index < top@.len(),
                other <= top@.len(),
                peers == key_views(top@),
                views == node_views(reports@),
                peers[index as int] == peer@,
                forall|i: int|
                    0 <= i < top@.len() ==> reports@.dom().contains(#[trigger] peers[i]),
                allied == (exists|j: int|
                    0 <= j < other && j != index && agree(
                        views[peers[index as int]],
                        views[#[trigger] peers[j]],
                    )),
            decreases top@.len() - other,
        {
            assert(peers[other as int] == top@[other as int]@);
            if other != index {
                let ally = PeerId::from_bytes(top[other]);
                if let (Some(mine), Some(theirs)) = (reports.get(&peer), reports.get(&ally)) {
                    if reports_agree(mine, theirs) {
                        allied = true;
                    }
                }
            }
            other += 1;
        }
        if allied {
            assert(has_ally(peers, views, index as int));
            return Some(peer);
        }
        assert(!has_ally(peers, views, index as int));
        index += 1;
    }
    None
}

/// Compute the current winning report for a subject peer given all reports
/// received so far from different responders.
///
/// Rules (applied in order):
///
///   1. **Most authority from the owner**: a verified owner signature comes
///      before an authenticated owner connection, and the higher sequence
///      before the lower. An intermediary's unsigned sequence has no authority.
///   2. **Self-report**: among hints, prefer the subject itself.
///   3. **Quorum**: among the top [`QUORUM_TOP_N`] closest-XOR responders, if
///      [`QUORUM_THRESHOLD`]+ agree on the address set, their consensus wins,
///      represented by the closest of them.
///   4. **Fallback**: the closest-XOR responder wins.
///
/// Returns `None` only when `reports` is empty.
pub fn compute_winner(subject_id: &PeerId, reports: &SubjectReports) -> (found: Option<
    (PeerId, DHTNode),
>)
    ensures
        match found {
            Some((responder, node)) => {
                &&& wins(subject_id@, node_views(reports@), responder@)
                &&& winner(subject_id@, node_views(reports@)) == responder@
                &&& node@ == node_views(reports@)[responder@]
            },
            None => reports@.dom() == Set::<Seq<u8>>::empty(),
        },
{
    let ghost views = node_views(reports@);
    if reports.len() == 0 {
        assert(reports@.dom() =~= Set::<Seq<u8>>::empty());
        return None;
    }
    let top = closest_in(reports, subject_id.as_bytes(), QUORUM_TOP_N);
    let ghost peers = key_views(top@);
    proof {
        assert(views.dom() =~= reports@.dom());
        assert(top@.len() > 0);
        assert(peers[0] == top@[0]@);
        lemma_peer_is_its_bytes(*subject_id, *subject_id);
    }
    let responder = match most_authority(subject_id, reports) {
        Some(peer) => peer,
        None => {
            if reports.contains(subject_id) {
                *subject_id
            } else {
                match quorum_member(&top, reports) {
                    Some(peer) => {
                        proof {
                            lemma_first_allied_member(peers, views, 0);
                        }
                        peer
                    },
                    None => PeerId::from_bytes(top[0]),
                }
            }
        },
    };
    proof {
        assert(wins(subject_id@, views, responder@));
        law_winner_is_unique(subject_id@, views, winner(subject_id@, views), responder@);
    }
    match reports.get(&responder) {
        Some(node) => Some((responder, node.clone())),
        None => None,
    }
}

proof fn lemma_first_allied_member(
    peers: Seq<Seq<u8>>,
    reports: Map<Seq<u8>, NodeView>,
    i: int,
)
    requires
        0 <= i,
    ensures
        first_allied(peers, reports, i) matches Some(peer) ==> peers.contains(peer),
    decreases peers.len() - i,
{
    if i < peers.len() {
        lemma_first_allied_member(peers, reports, i + 1);
    }
}

/// Whether a lookup record is preferred to another one of the same peer: by
/// authority, and on a tie by its best tag.
pub open spec fn preferred(candidate: NodeView, existing: NodeView) -> bool {
    candidate.outranks(existing) || (!existing.outranks(candidate) && best_rank(candidate.typed())
        < best_rank(existing.typed()))
}

/// Whether a lookup record is preferred to another one of the same peer.
pub fn prefer_lookup_record(candidate: &DHTNode, existing: &DHTNode) -> (result: bool)
    ensures
        result == preferred(candidate@, existing@),
{
    candidate.has_more_authority(existing) || (!existing.has_more_authority(candidate)
        && best_tier_priority(candidate) < best_tier_priority(existing))
}

/// The records of a map that are closest to a target, closest first.
pub open spec fn ranked(nodes: Map<Seq<u8>, NodeView>, target: Seq<u8>, count: nat) -> Seq<
    NodeView,
> {
    closest(nodes.dom(), target, count).map(|_i: int, k: Seq<u8>| nodes[k])
}

/// What each map of reports says.
pub open spec fn report_views(reports: Map<Seq<u8>, SubjectReports>) -> Map<
    Seq<u8>,
    Map<Seq<u8>, NodeView>,
> {
    reports.map_values(|r: SubjectReports| node_views(r@))
}

/// A record, or the winning report about its peer where there is one.
pub open spec fn refreshed(
    node: NodeView,
    reports: Map<Seq<u8>, Map<Seq<u8>, NodeView>>,
) -> NodeView {
    if reports.dom().contains(node.peer) && reports[node.peer].dom() != Set::<Seq<u8>>::empty() {
        reports[node.peer][winner(node.peer, reports[node.peer])]
    } else {
        node
    }
}

/// The refreshed records by peer, the preferred one of several.
pub open spec fn collected(
    nodes: Seq<NodeView>,
    reports: Map<Seq<u8>, Map<Seq<u8>, NodeView>>,
) -> Map<Seq<u8>, NodeView>
    decreases nodes.len(),
{
    if nodes.len() == 0 {
        Map::empty()
    } else {
        let before = collected(nodes.drop_last(), reports);
        let node = refreshed(nodes.last(), reports);
        if before.dom().contains(node.peer) && !preferred(node, before[node.peer]) {
            before
        } else {
            before.insert(node.peer, node)
        }
    }
}

/// The records of a table that are closest to a target, closest first.
fn rank_nodes(nodes: &Table<PeerId, DHTNode>, target: &Key, count: usize) -> (result: Vec<DHTNode>)
    ensures
        list_views(result@) == ranked(node_views(nodes@), target@, count as nat),
{
    let ghost views = node_views(nodes@);
    let nearest = closest_in(nodes, target, count);
    let ghost peers = key_views(nearest@);
    let mut result: Vec<DHTNode> = Vec::new();
    let mut index: usize = 0;
    proof {
        assert(views.dom() =~= nodes@.dom());
    }
    while index < nearest.len()
        invariant
            index <= nearest@.len(),
            views == node_views(nodes@),
            peers == key_views(nearest@),
            forall|i: int| 0 <= i < peers.len() ==> nodes@.dom().contains(#[trigger] peers[i]),
            result@.len() == index,
            forall|i: int| 0 <= i < index ==> (#[trigger] result@[i])@ == views[peers[i]],
        decreases nearest@.len() - index,
    {
        let peer = PeerId::from_bytes(nearest[index]);
        assert(peers[index as int] == peer@);
        if let Some(node) = nodes.get(&peer) {
            result.push(node.clone());
        }
        index += 1;
    }
    assert(list_views(result@) =~= ranked(views, target@, count as nat));
    result
}

/// Refresh final lookup results with the per-subject winners observed during
/// the lookup.
///
/// `best_nodes` is built from the candidate that was queried at the time it
/// entered an alpha batch. Later responses in the same lookup may carry a
/// record of the same peer with more authority. Before returning results to
/// callers, replace every returned peer with the current [`compute_winner`]
/// output so a stale candidate copy cannot leak out.
pub fn apply_lookup_report_winners(
    best_nodes: Vec<DHTNode>,
    subject_reports: &Table<PeerId, SubjectReports>,
    key: &Key,
    count: usize,
) -> (result: Vec<DHTNode>)
    ensures
        list_views(result@) == ranked(
            collected(list_views(best_nodes@), report_views(subject_reports@)),
            key@,
            count as nat,
        ),
{
    let ghost nodes = list_views(best_nodes@);
    let ghost reports = report_views(subject_reports@);
    let mut by_peer: Table<PeerId, DHTNode> = Table::new();
    let mut index: usize = 0;
    proof {
        assert(node_views(by_peer@) =~= Map::empty());
    }
    while index < best_nodes.len()
        invariant
            index <= best_nodes@.len(),
            nodes == list_views(best_nodes@),
            reports == report_views(subject_reports@),
            node_views(by_peer@) == collected(nodes.take(index as int), reports),
        decreases best_nodes@.len() - index,
    {
        let best = &best_nodes[index];
        proof {
            assert(nodes.take(index as int + 1).drop_last() =~= nodes.take(index as int));
            assert(nodes.take(index as int + 1).last() == best@);
        }
        let won = match subject_reports.get(&best.peer_id) {
            Some(known) => compute_winner(&best.peer_id, known),
            None => None,
        };
        let node = match won {
            Some((_, node)) => node,
            None => best.clone(),
        };
        proof {
            assert(reports.dom() =~= subject_reports@.dom());
            if subject_reports@.dom().contains(best.peer_id@) {
                let known = subject_reports@[best.peer_id@];
                assert(reports[best.peer_id@] == node_views(known@));
                assert(node_views(known@).dom() =~= known@.dom());
            }
            assert(node@ == refreshed(best@, reports));
        }
        let keep = match by_peer.get(&node.peer_id) {
            Some(held) => !prefer_lookup_record(&node, held),
            None => false,
        };
        let ghost before = by_peer@;
        let ghost added = node;
        if !keep {
            let _ = by_peer.insert(node.peer_id, node);
            proof {
                assert(node_views(by_peer@) =~= node_views(before).insert(added.peer_id@, added@));
            }
        }
        index += 1;
    }
    assert(nodes.take(nodes.len() as int) =~= nodes);
    rank_nodes(&by_peer, key, count)
}

/// The records after one more was merged in.
pub open spec fn with_merged(
    nodes: Map<Seq<u8>, NodeView>,
    node: NodeView,
) -> Map<Seq<u8>, NodeView> {
    if nodes.dom().contains(node.peer) {
        nodes.insert(node.peer, nodes[node.peer].merged(node))
    } else {
        nodes.insert(node.peer, node)
    }
}

/// The records after a list of others was merged in, in order.
pub open spec fn with_all_merged(
    nodes: Map<Seq<u8>, NodeView>,
    others: Seq<NodeView>,
) -> Map<Seq<u8>, NodeView>
    decreases others.len(),
{
    if others.len() == 0 {
        nodes
    } else {
        with_merged(with_all_merged(nodes, others.drop_last()), others.last())
    }
}

/// Merge one record into a table.
pub fn merge_witnessed_node(nodes: &mut Table<PeerId, DHTNode>, node: DHTNode)
    ensures
        node_views(final(nodes)@) == with_merged(node_views(old(nodes)@), node@),
{
    let ghost before = nodes@;
    let ghost added = node@;
    let peer = node.peer_id;
    match nodes.remove(&peer) {
        Some(held) => {
            let mut held = held;
            held.merge_from(node);
            let ghost merged = held@;
            let _ = nodes.insert(peer, held);
            proof {
                assert(node_views(nodes@) =~= node_views(before).insert(peer@, merged));
            }
        },
        None => {
            let _ = nodes.insert(peer, node);
            proof {
                assert(node_views(nodes@) =~= node_views(before).insert(peer@, added));
            }
        },
    }
}

fn merge_all(nodes: &mut Table<PeerId, DHTNode>, others: &Vec<DHTNode>)
    ensures
        node_views(final(nodes)@) == with_all_merged(
            node_views(old(nodes)@),
            list_views(others@),
        ),
{
    let ghost before = node_views(nodes@);
    let ghost all = list_views(others@);
    let mut index: usize = 0;
    while index < others.len()
        invariant
            index <= others@.len(),
            all == list_views(others@),
            node_views(nodes@) == with_all_merged(before, all.take(index as int)),
        decreases others@.len() - index,
    {
        proof {
            assert(all.take(index as int + 1).drop_last() =~= all.take(index as int));
        }
        merge_witnessed_node(nodes, others[index].clone());
        index += 1;
    }
    assert(all.take(all.len() as int) =~= all);
}

/// The order of two peers by XOR distance to a key, and by identity on a tie.
pub fn compare_peer_distance(a: &PeerId, b: &PeerId, key: &Key) -> (order: Ordering)
    ensures
        match order {
            Ordering::Less => distance(a@, key@) < distance(b@, key@),
            Ordering::Equal => a@ == b@,
            Ordering::Greater => distance(a@, key@) > distance(b@, key@),
        },
{
    if closer(a.as_bytes(), b.as_bytes(), key) {
        Ordering::Less
    } else if closer(b.as_bytes(), a.as_bytes(), key) {
        Ordering::Greater
    } else {
        proof {
            lemma_peer_is_its_bytes(*a, *b);
            lemma_peer_is_its_bytes(*b, *a);
            lemma_distance_injective(a@, b@, key@);
        }
        Ordering::Equal
    }
}

/// Merge peer records and retain the closest peers in XOR order.
pub fn sort_dedup_witnessed_nodes(nodes: Vec<DHTNode>, key: &Key, count: usize) -> (result: Vec<
    DHTNode,
>)
    ensures
        list_views(result@) == ranked(
            with_all_merged(Map::empty(), list_views(nodes@)),
            key@,
            count as nat,
        ),
{
    let mut by_peer: Table<PeerId, DHTNode> = Table::new();
    proof {
        assert(node_views(by_peer@) =~= Map::empty());
    }
    merge_all(&mut by_peer, &nodes);
    rank_nodes(&by_peer, key, count)
}

/// The view of a responder with the responder's own record merged in.
pub open spec fn self_inclusive(
    responder: Seq<u8>,
    view: Seq<NodeView>,
    known: Map<Seq<u8>, NodeView>,
) -> Map<Seq<u8>, NodeView> {
    let nodes = with_all_merged(Map::empty(), view);
    if known.dom().contains(responder) {
        with_merged(nodes, known[responder])
    } else {
        nodes
    }
}

/// Normalize a witness view, preserving undialable peers as votes.
pub fn self_inclusive_responder_view(
    responder: PeerId,
    closest: Vec<DHTNode>,
    known_nodes: &Table<PeerId, DHTNode>,
    key: &Key,
    count: usize,
) -> (result: Vec<DHTNode>)
    ensures
        list_views(result@) == ranked(
            self_inclusive(responder@, list_views(closest@), node_views(known_nodes@)),
            key@,
            count as nat,
        ),
{
    let mut nodes: Table<PeerId, DHTNode> = Table::new();
    proof {
        assert(node_views(nodes@) =~= Map::empty());
    }
    merge_all(&mut nodes, &closest);
    if let Some(node) = known_nodes.get(&responder) {
        merge_witnessed_node(&mut nodes, node.clone());
    }
    rank_nodes(&nodes, key, count)
}

/// A responder and what its view says.
pub struct WitnessView {
    /// The responder.
    pub responder: Seq<u8>,
    /// Its view.
    pub closest: Seq<NodeView>,
}

/// What the views of responders say.
pub open spec fn witness_views(views: Seq<ResponderView>) -> Seq<WitnessView> {
    views.map(
        |_i: int, v: ResponderView|
            WitnessView { responder: v.responder@, closest: list_views(v.closest@) },
    )
}

/// Where a responder belongs in a list: behind every one that is not farther.
pub open spec fn place_of(views: Seq<WitnessView>, responder: Seq<u8>, key: Seq<u8>) -> int
    decreases views.len(),
{
    if views.len() == 0 || distance(views.last().responder, key) <= distance(responder, key) {
        views.len() as int
    } else {
        place_of(views.drop_last(), responder, key)
    }
}

/// The views in order of their responders' distance, and in their own order
/// where a responder occurs twice.
pub open spec fn arranged(views: Seq<WitnessView>, key: Seq<u8>) -> Seq<WitnessView>
    decreases views.len(),
{
    if views.len() == 0 {
        views
    } else {
        let before = arranged(views.drop_last(), key);
        before.insert(place_of(before, views.last().responder, key), views.last())
    }
}

/// A responder with the records of its view.
pub open spec fn raw_views(views: Seq<(PeerId, Vec<DHTNode>)>) -> Seq<WitnessView> {
    views.map(
        |_i: int, v: (PeerId, Vec<DHTNode>)|
            WitnessView { responder: v.0@, closest: list_views(v.1@) },
    )
}

/// Every record of the initial result and of the views, by peer.
pub open spec fn all_known(
    initial: Seq<NodeView>,
    views: Seq<WitnessView>,
) -> Map<Seq<u8>, NodeView>
    decreases views.len(),
{
    if views.len() == 0 {
        with_all_merged(Map::empty(), initial)
    } else {
        with_all_merged(all_known(initial, views.drop_last()), views.last().closest)
    }
}

/// The views after each was made self-inclusive and cut to size.
pub open spec fn normalized(
    views: Seq<WitnessView>,
    known: Map<Seq<u8>, NodeView>,
    key: Seq<u8>,
    count: nat,
) -> Seq<WitnessView> {
    views.map(
        |_i: int, v: WitnessView|
            WitnessView {
                responder: v.responder,
                closest: ranked(self_inclusive(v.responder, v.closest, known), key, count),
            },
    )
}

/// The close-group transcript of an initial result and the views of responders:
/// the closest records of the result, and the views, each self-inclusive and cut
/// to size, in order of their responders' distance.
pub open spec fn transcript(
    initial: Seq<NodeView>,
    views: Seq<WitnessView>,
    key: Seq<u8>,
    count: nat,
    view_count: nat,
) -> (Seq<NodeView>, Seq<WitnessView>) {
    let first = ranked(with_all_merged(Map::empty(), initial), key, count);
    (first, arranged(normalized(views, all_known(first, views), key, view_count), key))
}

fn find_place(views: &Vec<ResponderView>, responder: &PeerId, key: &Key) -> (place: usize)
    ensures
        place == place_of(witness_views(views@), responder@, key@),
        place <= views@.len(),
{
    let ghost all = witness_views(views@);
    let mut place: usize = views.len();
    assert(all.take(all.len() as int) =~= all);
    while place > 0
        invariant
            place <= views@.len(),
            all == witness_views(views@),
            place_of(all, responder@, key@) == place_of(
                all.take(place as int),
                responder@,
                key@,
            ),
        ensures
            place <= views@.len(),
            place_of(all, responder@, key@) == place,
        decreases place,
    {
        let last = &views[place - 1].responder;
        assert(all.take(place as int).last().responder == last@);
        assert(all.take(place as int).drop_last() =~= all.take(place - 1));
        if !closer(responder.as_bytes(), last.as_bytes(), key) {
            break;
        }
        place -= 1;
    }
    place
}

/// Build the shared, self-inclusive close-group transcript.
pub fn build_witnessed_close_group(
    key: &Key,
    count: usize,
    view_count: usize,
    initial_closest: Vec<DHTNode>,
    responder_node_views: Vec<(PeerId, Vec<DHTNode>)>,
) -> (group: WitnessedCloseGroup)
    ensures
        group.target == *key,
        group.k == count,
        (list_views(group.initial_closest@), witness_views(group.responder_views@)) == transcript(
            list_views(initial_closest@),
            raw_views(responder_node_views@),
            key@,
            count as nat,
            view_count as nat,
        ),
{
    let ghost raw = raw_views(responder_node_views@);
    let initial_closest = sort_dedup_witnessed_nodes(initial_closest, key, count);
    let ghost initial = list_views(initial_closest@);
    let mut known_nodes: Table<PeerId, DHTNode> = Table::new();
    proof {
        assert(node_views(known_nodes@) =~= Map::empty());
        assert(raw.take(0) =~= Seq::empty());
    }
    merge_all(&mut known_nodes, &initial_closest);
    let mut index: usize = 0;
    while index < responder_node_views.len()
        invariant
            index <= responder_node_views@.len(),
            raw == raw_views(responder_node_views@),
            node_views(known_nodes@) == all_known(initial, raw.take(index as int)),
        decreases responder_node_views@.len() - index,
    {
        proof {
            assert(raw.take(index as int + 1).drop_last() =~= raw.take(index as int));
        }
        merge_all(&mut known_nodes, &responder_node_views[index].1);
        index += 1;
    }
    assert(raw.take(raw.len() as int) =~= raw);
    let ghost known = node_views(known_nodes@);
    let ghost done = normalized(raw, known, key@, view_count as nat);
    let mut responder_views: Vec<ResponderView> = Vec::new();
    let mut next: usize = 0;
    proof {
        assert(witness_views(responder_views@) =~= arranged(done.take(0), key@));
    }
    while next < responder_node_views.len()
        invariant
            next <= responder_node_views@.len(),
            raw == raw_views(responder_node_views@),
            known == node_views(known_nodes@),
            done == normalized(raw, known, key@, view_count as nat),
            witness_views(responder_views@) == arranged(done.take(next as int), key@),
        decreases responder_node_views@.len() - next,
    {
        let responder = responder_node_views[next].0;
        let offered = copy_nodes(&responder_node_views[next].1);
        let closest = self_inclusive_responder_view(
            responder,
            offered,
            &known_nodes,
            key,
            view_count,
        );
        let place = find_place(&responder_views, &responder, key);
        let ghost before = witness_views(responder_views@);
        let view = ResponderView { responder, closest };
        responder_views.insert(place, view);
        proof {
            assert(done.take(next as int + 1).drop_last() =~= done.take(next as int));
            assert(done.take(next as int + 1).last() == done[next as int]);
            assert(raw[next as int].closest == list_views(offered@));
            assert(witness_views(responder_views@) =~= before.insert(
                place as int,
                done[next as int],
            ));
        }
        next += 1;
    }
    assert(done.take(done.len() as int) =~= done);
    WitnessedCloseGroup { target: *key, k: count, initial_closest, responder_views }
}

fn copy_nodes(nodes: &Vec<DHTNode>) -> (copy: Vec<DHTNode>)
    ensures
        list_views(copy@) == list_views(nodes@),
{
    let mut copy: Vec<DHTNode> = Vec::new();
    let mut index: usize = 0;
    while index < nodes.len()
        invariant
            index <= nodes@.len(),
            copy@.len() == index,
            forall|i: int| 0 <= i < index ==> (#[trigger] copy@[i])@ == nodes@[i]@,
        decreases nodes@.len() - index,
    {
        copy.push(nodes[index].clone());
        index += 1;
    }
    assert(list_views(copy@) =~= list_views(nodes@));
    copy
}

/// Whether an incoming lookup view may replace an already owner-proven view.
/// Unsigned hints cannot displace a publication or raise its accepted sequence.
pub fn may_replace_owner_view(current: &DHTNode, incoming: &DHTNode) -> (result: bool)
    ensures
        result == !current@.outranks(incoming@),
        current@.generation() == 0 ==> result,
        current@.generation() > 0 && incoming@.generation() == 0 ==> !result,
{
    !current.has_more_authority(incoming)
}

} // verus!
