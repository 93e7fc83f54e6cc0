//! Laws of which report wins and of what a lookup hands out.

use crate::client_routing::{
    agree, any_proven, first_allied, has_ally, ranked, wins, QUORUM_TOP_N,
};
use crate::keys::{
    closest, distance, full_keys, is_closest, lemma_ascending_distinct, lemma_distance_injective,
};
use crate::peer_record::NodeView;
use crate::routing_laws::{filed, lemma_ascending_len, lemma_closest_exists};
use vstd::prelude::*;

verus! {

/// The members that are strictly closer to a target than a key is.
pub open spec fn nearer(members: Set<Seq<u8>>, target: Seq<u8>, key: Seq<u8>) -> Set<Seq<u8>> {
    members.filter(|k: Seq<u8>| distance(k, target) < distance(key, target))
}

/// Whether a key is one of so many members that are closest to a target: fewer
/// members than that are closer.
pub open spec fn among_nearest(
    members: Set<Seq<u8>>,
    target: Seq<u8>,
    key: Seq<u8>,
    count: nat,
) -> bool {
    members.contains(key) && nearer(members, target, key).len() < count
}

proof fn lemma_listed_are_nearest(
    members: Set<Seq<u8>>,
    target: Seq<u8>,
    count: nat,
    top: Seq<Seq<u8>>,
    i: int,
)
    requires
        members.finite(),
        is_closest(top, members, target, count),
        0 <= i < top.len(),
    ensures
        among_nearest(members, target, top[i], count),
{
    let before = top.take(i);
    let set = nearer(members, target, top[i]);
    assert forall|k: Seq<u8>| set.contains(k) implies #[trigger] before.to_set().contains(k) by {
        assert(members.contains(k));
        if !top.contains(k) {
            assert(distance(top[i], target) < distance(k, target));
        }
        let j = top.index_of(k);
        assert(top[j] == k);
        if j > i {
            assert(distance(top[i], target) < distance(top[j], target));
        }
        assert(before[j] == k);
    }
    before.lemma_cardinality_of_set();
    assert(set.subset_of(before.to_set()));
    vstd::set_lib::lemma_len_subset(set, before.to_set());
    assert(members.contains(top[i]));
}

proof fn lemma_nearest_are_listed(
    members: Set<Seq<u8>>,
    target: Seq<u8>,
    count: nat,
    top: Seq<Seq<u8>>,
    key: Seq<u8>,
)
    requires
        members.finite(),
        is_closest(top, members, target, count),
        among_nearest(members, target, key, count),
    ensures
        top.contains(key),
{
    if !top.contains(key) {
        lemma_ascending_len(top, members, target, key);
        let set = nearer(members, target, key);
        assert forall|k: Seq<u8>| top.to_set().contains(k) implies #[trigger] set.contains(k) by {
            let i = top.index_of(k);
            assert(members.contains(top[i]));
            assert(distance(top[i], target) < distance(key, target));
        }
        lemma_ascending_distinct(top, target);
        top.unique_seq_to_set();
        assert(top.to_set().subset_of(set));
        vstd::set_lib::lemma_len_subset(top.to_set(), set);
    }
}

/// The closest list of a set holds exactly the members than which fewer members
/// are closer.
pub proof fn law_closest_lists_hold_the_nearest(
    members: Set<Seq<u8>>,
    target: Seq<u8>,
    count: nat,
    key: Seq<u8>,
)
    requires
        members.finite(),
        full_keys(members),
        target.len() == 32,
    ensures
        closest(members, target, count).contains(key) <==> among_nearest(
            members,
            target,
            key,
            count,
        ),
{
    lemma_closest_exists(members, target, count);
    let top = closest(members, target, count);
    if top.contains(key) {
        let i = top.index_of(key);
        lemma_listed_are_nearest(members, target, count, top, i);
    }
    if among_nearest(members, target, key, count) {
        lemma_nearest_are_listed(members, target, count, top, key);
    }
}

proof fn lemma_no_ally(top: Seq<Seq<u8>>, reports: Map<Seq<u8>, NodeView>, from: int)
    requires
        forall|i: int, j: int|
            0 <= i < top.len() && 0 <= j < top.len() && i != j ==> !agree(
                reports[#[trigger] top[i]],
                reports[#[trigger] top[j]],
            ),
        0 <= from,
    ensures
        first_allied(top, reports, from) is None,
    decreases top.len() - from,
{
    if from < top.len() {
        lemma_no_ally(top, reports, from + 1);
    }
}

/// Where no report has authority, the subject did not report on itself and no two
/// of the closest responders agree, the report of the closest responder of all
/// wins: no responder is closer to the subject than the winner.
pub proof fn law_disagreement_falls_to_the_closest(
    subject: Seq<u8>,
    reports: Map<Seq<u8>, NodeView>,
    peer: Seq<u8>,
)
    requires
        subject.len() == 32,
        reports.dom().finite(),
        full_keys(reports.dom()),
        forall|k: Seq<u8>| #[trigger] reports.dom().contains(k) ==> reports[k].generation() == 0,
        !reports.dom().contains(subject),
        forall|p: Seq<u8>, q: Seq<u8>|
            p != q && #[trigger] among_nearest(reports.dom(), subject, p, 3)
                && #[trigger] among_nearest(reports.dom(), subject, q, 3) ==> !agree(
                reports[p],
                reports[q],
            ),
        reports.dom().contains(peer),
    ensures
        wins(subject, reports, peer) <==> forall|k: Seq<u8>| #[trigger]
            reports.dom().contains(k) ==> distance(peer, subject) <= distance(k, subject),
{
    let top = closest(reports.dom(), subject, QUORUM_TOP_N as nat);
    lemma_closest_exists(reports.dom(), subject, QUORUM_TOP_N as nat);
    lemma_ascending_distinct(top, subject);
    assert forall|i: int, j: int|
        0 <= i < top.len() && 0 <= j < top.len() && i != j implies !agree(
        reports[#[trigger] top[i]],
        reports[#[trigger] top[j]],
    ) by {
        lemma_listed_are_nearest(reports.dom(), subject, 3, top, i);
        lemma_listed_are_nearest(reports.dom(), subject, 3, top, j);
        assert(top[i] != top[j]);
    }
    lemma_no_ally(top, reports, 0);
    assert(!any_proven(reports));
    assert(reports.dom().len() > 0) by {
        if reports.dom().len() == 0 {
            assert(reports.dom() =~= Set::empty());
        }
    }
    assert(top.len() > 0);
    assert forall|k: Seq<u8>| #[trigger] reports.dom().contains(k) implies distance(top[0], subject)
        <= distance(k, subject) by {
        if top.contains(k) {
            let i = top.index_of(k);
            assert(top[i] == k);
            if i > 0 {
                assert(distance(top[0], subject) < distance(top[i], subject));
            }
        } else {
            assert(distance(top[0], subject) < distance(k, subject));
        }
    }
    if forall|k: Seq<u8>| #[trigger]
        reports.dom().contains(k) ==> distance(peer, subject) <= distance(k, subject) {
        assert(reports.dom().contains(top[0]));
        lemma_distance_injective(peer, top[0], subject);
    }
}

proof fn lemma_first_ally(top: Seq<Seq<u8>>, reports: Map<Seq<u8>, NodeView>, from: int, i: int)
    requires
        0 <= from <= i < top.len(),
        has_ally(top, reports, i),
        forall|j: int| from <= j < i ==> !#[trigger] has_ally(top, reports, j),
    ensures
        first_allied(top, reports, from) == Some(top[i]),
    decreases i - from,
{
    if from < i {
        assert(!has_ally(top, reports, from));
        lemma_first_ally(top, reports, from + 1, i);
    }
}

/// Where no report has authority and the subject did not report on itself, two of
/// the three closest responders that agree form a quorum: the winner is the
/// closest responder of those three with which another of them agrees.
pub proof fn law_the_closest_of_a_quorum_wins(
    subject: Seq<u8>,
    reports: Map<Seq<u8>, NodeView>,
    peer: Seq<u8>,
    ally: Seq<u8>,
)
    requires
        subject.len() == 32,
        reports.dom().finite(),
        full_keys(reports.dom()),
        forall|k: Seq<u8>| #[trigger] reports.dom().contains(k) ==> reports[k].generation() == 0,
        !reports.dom().contains(subject),
        among_nearest(reports.dom(), subject, peer, 3),
        among_nearest(reports.dom(), subject, ally, 3),
        peer != ally,
        agree(reports[peer], reports[ally]),
        forall|p: Seq<u8>, q: Seq<u8>|
            p != q && #[trigger] among_nearest(reports.dom(), subject, p, 3)
                && #[trigger] among_nearest(reports.dom(), subject, q, 3) && distance(p, subject)
                < distance(peer, subject) ==> !agree(reports[p], reports[q]),
    ensures
        wins(subject, reports, peer),
        forall|other: Seq<u8>| #[trigger] wins(subject, reports, other) ==> other == peer,
{
    let top = closest(reports.dom(), subject, QUORUM_TOP_N as nat);
    lemma_closest_exists(reports.dom(), subject, QUORUM_TOP_N as nat);
    lemma_ascending_distinct(top, subject);
    lemma_nearest_are_listed(reports.dom(), subject, 3, top, peer);
    lemma_nearest_are_listed(reports.dom(), subject, 3, top, ally);
    let i = top.index_of(peer);
    let a = top.index_of(ally);
    assert(top[i] == peer && top[a] == ally);
    assert(has_ally(top, reports, i));
    assert forall|j: int| 0 <= j < i implies !#[trigger] has_ally(top, reports, j) by {
        assert(distance(top[j], subject) < distance(top[i], subject));
        lemma_listed_are_nearest(reports.dom(), subject, 3, top, j);
        assert forall|m: int| 0 <= m < top.len() && m != j implies !agree(
            reports[top[j]],
            reports[#[trigger] top[m]],
        ) by {
            lemma_listed_are_nearest(reports.dom(), subject, 3, top, m);
            assert(top[j] != top[m]);
        }
    }
    lemma_first_ally(top, reports, 0, i);
    assert(!any_proven(reports));
}

/// Where no report has authority and the subject reported on itself, its own
/// report wins, however many others agree.
pub proof fn law_subjects_speak_for_themselves(
    subject: Seq<u8>,
    reports: Map<Seq<u8>, NodeView>,
    peer: Seq<u8>,
)
    requires
        forall|k: Seq<u8>| #[trigger] reports.dom().contains(k) ==> reports[k].generation() == 0,
        reports.dom().contains(subject),
    ensures
        wins(subject, reports, peer) <==> peer == subject,
{
    assert(!any_proven(reports));
}

/// Where some report has authority, the winner is of the highest protocol version
/// that occurs and, within it, of the highest sequence; of several such reports
/// the one of the closest responder wins, be it the subject or not.
pub proof fn law_authority_comes_before_everything(
    subject: Seq<u8>,
    reports: Map<Seq<u8>, NodeView>,
    proven: Seq<u8>,
    peer: Seq<u8>,
)
    requires
        reports.dom().contains(proven),
        reports[proven].generation() > 0,
        reports.dom().contains(peer),
    ensures
        wins(subject, reports, peer) <==> forall|k: Seq<u8>| #[trigger]
            reports.dom().contains(k) ==> {
                &&& reports[k].generation() <= reports[peer].generation()
                &&& reports[k].generation() == reports[peer].generation() ==> reports[k].version()
                    <= reports[peer].version()
                &&& reports[k].generation() == reports[peer].generation() && reports[k].version()
                    == reports[peer].version() ==> distance(peer, subject) <= distance(k, subject)
            },
{
    assert(any_proven(reports));
}

proof fn lemma_most_authority(
    subject: Seq<u8>,
    reports: Map<Seq<u8>, NodeView>,
    members: Set<Seq<u8>>,
) -> (best: Seq<u8>)
    requires
        members.finite(),
        members.len() > 0,
    ensures
        members.contains(best),
        forall|k: Seq<u8>| #[trigger]
            members.contains(k) ==> !reports[k].outranks(reports[best]) && (
            !reports[best].outranks(reports[k]) ==> distance(best, subject) <= distance(
                k,
                subject,
            )),
    decreases members.len(),
{
    let a = members.choose();
    assert(members.contains(a));
    let rest = members.remove(a);
    if rest.len() == 0 {
        assert(rest =~= Set::empty());
        assert forall|k: Seq<u8>| #[trigger] members.contains(k) implies k == a by {
            if k != a {
                assert(rest.contains(k));
            }
        }
        a
    } else {
        let b = lemma_most_authority(subject, reports, rest);
        let best = if reports[a].outranks(reports[b]) || (!reports[b].outranks(reports[a])
            && distance(a, subject) <= distance(b, subject)) {
            a
        } else {
            b
        };
        assert forall|k: Seq<u8>| #[trigger] members.contains(k) implies !reports[k].outranks(
            reports[best],
        ) && (!reports[best].outranks(reports[k]) ==> distance(best, subject) <= distance(
            k,
            subject,
        )) by {
            if k != a {
                assert(rest.contains(k));
            }
        }
        best
    }
}

/// Some report wins wherever there is one.
pub proof fn law_some_report_wins(subject: Seq<u8>, reports: Map<Seq<u8>, NodeView>)
    requires
        subject.len() == 32,
        reports.dom().finite(),
        full_keys(reports.dom()),
        reports.dom() != Set::<Seq<u8>>::empty(),
    ensures
        exists|peer: Seq<u8>| #[trigger] wins(subject, reports, peer),
{
    assert(reports.dom().len() > 0) by {
        if reports.dom().len() == 0 {
            assert(reports.dom() =~= Set::empty());
        }
    }
    if any_proven(reports) {
        let best = lemma_most_authority(subject, reports, reports.dom());
        let k = choose|k: Seq<u8>| #[trigger]
            reports.dom().contains(k) && reports[k].generation() > 0;
        assert(!reports[k].outranks(reports[best]));
        assert(wins(subject, reports, best));
    } else if reports.dom().contains(subject) {
        assert(wins(subject, reports, subject));
    } else {
        let top = closest(reports.dom(), subject, QUORUM_TOP_N as nat);
        lemma_closest_exists(reports.dom(), subject, QUORUM_TOP_N as nat);
        assert(reports.dom().contains(top[0]));
        match first_allied(top, reports, 0) {
            Some(ally) => {
                lemma_allied_is_listed(top, reports, 0);
                let i = top.index_of(ally);
                assert(reports.dom().contains(top[i]));
                assert(wins(subject, reports, ally));
            },
            None => {
                assert(wins(subject, reports, top[0]));
            },
        }
    }
}

proof fn lemma_allied_is_listed(top: Seq<Seq<u8>>, reports: Map<Seq<u8>, NodeView>, from: int)
    requires
        0 <= from,
    ensures
        first_allied(top, reports, from) matches Some(ally) ==> top.contains(ally),
    decreases top.len() - from,
{
    if from < top.len() {
        lemma_allied_is_listed(top, reports, from + 1);
    }
}

/// What a lookup ranks are the records of the peers closest to the key: as many
/// as wanted or all there are, each as it is filed, in strictly increasing
/// distance, and every record left out is farther than all of them.
pub proof fn law_ranked_records_are_the_closest(
    nodes: Map<Seq<u8>, NodeView>,
    key: Seq<u8>,
    count: nat,
)
    requires
        key.len() == 32,
        filed(nodes),
        nodes.dom().finite(),
        full_keys(nodes.dom()),
    ensures
        ({
            let result = ranked(nodes, key, count);
            &&& count <= nodes.dom().len() ==> result.len() == count
            &&& count > nodes.dom().len() ==> result.len() == nodes.dom().len()
            &&& forall|i: int|
                0 <= i < result.len() ==> nodes.dom().contains((#[trigger] result[i]).peer)
                    && result[i] == nodes[result[i].peer]
            &&& forall|i: int, j: int|
                0 <= i < j < result.len() ==> distance((#[trigger] result[i]).peer, key) < distance(
                    (#[trigger] result[j]).peer,
                    key,
                )
            &&& forall|k: Seq<u8>, i: int|
                0 <= i < result.len() && #[trigger] nodes.dom().contains(k) && !result.contains(
                    nodes[k],
                ) ==> distance((#[trigger] result[i]).peer, key) < distance(k, key)
        }),
{
    lemma_closest_exists(nodes.dom(), key, count);
    let peers = closest(nodes.dom(), key, count);
    let result = ranked(nodes, key, count);
    assert forall|i: int| 0 <= i < result.len() implies nodes.dom().contains(
        (#[trigger] result[i]).peer,
    ) && result[i] == nodes[result[i].peer] && result[i].peer == peers[i] by {
        assert(nodes.dom().contains(peers[i]));
    }
    assert forall|k: Seq<u8>, i: int|
        0 <= i < result.len() && #[trigger] nodes.dom().contains(k) && !result.contains(
            nodes[k],
        ) implies distance((#[trigger] result[i]).peer, key) < distance(k, key) by {
        assert(result[i].peer == peers[i]);
        if peers.contains(k) {
            let j = peers.index_of(k);
            assert(result[j] == nodes[k]);
        }
        assert(distance(peers[i], key) < distance(k, key));
    }
    assert forall|i: int, j: int| 0 <= i < j < result.len() implies distance(
        (#[trigger] result[i]).peer,
        key,
    ) < distance((#[trigger] result[j]).peer, key) by {
        assert(result[i].peer == peers[i] && result[j].peer == peers[j]);
        assert(distance(peers[i], key) < distance(peers[j], key));
    }
}

} // verus!
