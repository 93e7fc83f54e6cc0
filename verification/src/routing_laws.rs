//! Laws of report selection and of witness views.

use crate::client_routing::{
    agree, any_proven, first_allied, has_ally, preferred, ranked, ranks_of, self_inclusive,
    with_all_merged, wins, QUORUM_TOP_N,
};
use crate::keys::{closest, distance, full_keys, is_closest, lemma_distance_injective};
use crate::peer_record::NodeView;
use vstd::prelude::*;

verus! {

proof fn lemma_farthest(members: Set<Seq<u8>>, target: Seq<u8>) -> (far: Seq<u8>)
    requires
        members.finite(),
        members.len() > 0,
    ensures
        members.contains(far),
        forall|k: Seq<u8>| #[trigger]
            members.contains(k) ==> distance(k, target) <= distance(far, target),
    decreases members.len(),
{
    let a = members.choose();
    assert(members.contains(a));
    if members.len() == 1 {
        assert forall|k: Seq<u8>| #[trigger] members.contains(k) implies distance(k, target)
            <= distance(a, target) by {
            if k != a {
                assert(members.remove(a).contains(k));
                assert(members.remove(a).len() == 0);
                assert(members.remove(a) =~= Set::empty());
            }
        }
        a
    } else {
        let b = lemma_farthest(members.remove(a), target);
        let far = if distance(a, target) <= distance(b, target) {
            b
        } else {
            a
        };
        assert forall|k: Seq<u8>| #[trigger] members.contains(k) implies distance(k, target)
            <= distance(far, target) by {
            if k != a {
                assert(members.remove(a).contains(k));
            }
        }
        far
    }
}

proof fn lemma_all_sorted(members: Set<Seq<u8>>, target: Seq<u8>) -> (keys: Seq<Seq<u8>>)
    requires
        members.finite(),
        full_keys(members),
        target.len() == 32,
    ensures
        is_closest(keys, members, target, members.len()),
        forall|k: Seq<u8>| members.contains(k) <==> keys.contains(k),
    decreases members.len(),
{
    if members.len() == 0 {
        assert(members =~= Set::empty());
        Seq::empty()
    } else {
        let far = lemma_farthest(members, target);
        let rest = members.remove(far);
        let before = lemma_all_sorted(rest, target);
        let keys = before.push(far);
        assert forall|i: int, j: int| 0 <= i < j < keys.len() implies distance(
            #[trigger] keys[i],
            target,
        ) < distance(#[trigger] keys[j], target) by {
            assert(before[i] == keys[i]);
            assert(rest.contains(before[i]));
            if j < before.len() {
                assert(before[j] == keys[j]);
            } else {
                assert(members.contains(before[i]));
                if distance(before[i], target) == distance(far, target) {
                    lemma_distance_injective(before[i], far, target);
                }
            }
        }
        assert forall|k: Seq<u8>| members.contains(k) <==> keys.contains(k) by {
            if members.contains(k) {
                if k == far {
                    assert(keys[before.len() as int] == k);
                } else {
                    assert(rest.contains(k));
                    let i = before.index_of(k);
                    assert(keys[i] == k);
                }
            }
            if keys.contains(k) {
                let i = keys.index_of(k);
                if i < before.len() {
                    assert(before[i] == k);
                    assert(before.contains(k));
                }
            }
        }
        assert forall|i: int| 0 <= i < keys.len() implies members.contains(#[trigger] keys[i]) by {
            assert(keys.contains(keys[i]));
        }
        keys
    }
}

/// Every finite set of full-length keys has a closest list.
pub proof fn lemma_closest_exists(members: Set<Seq<u8>>, target: Seq<u8>, count: nat)
    requires
        members.finite(),
        full_keys(members),
        target.len() == 32,
    ensures
        is_closest(closest(members, target, count), members, target, count),
{
    let all = lemma_all_sorted(members, target);
    let n: int = if count < members.len() {
        count as int
    } else {
        members.len() as int
    };
    let kept = all.take(n);
    assert forall|k: Seq<u8>, i: int|
        0 <= i < kept.len() && #[trigger] members.contains(k) && !kept.contains(k) implies distance(
        #[trigger] kept[i],
        target,
    ) < distance(k, target) by {
        assert(all.contains(k));
        let j = all.index_of(k);
        assert(all[j] == k);
        if j < n {
            assert(kept[j] == k);
        }
        assert(all[i] == kept[i]);
        assert(distance(all[i], target) < distance(all[j], target));
    }
    assert forall|i: int| 0 <= i < kept.len() implies members.contains(#[trigger] kept[i]) by {
        assert(all[i] == kept[i]);
    }
    assert forall|i: int, j: int| 0 <= i < j < kept.len() implies distance(
        #[trigger] kept[i],
        target,
    ) < distance(#[trigger] kept[j], target) by {
        assert(all[i] == kept[i]);
        assert(all[j] == kept[j]);
    }
    assert(is_closest(kept, members, target, count));
}

/// Whether each record of a map is filed under its own peer.
pub open spec fn filed(nodes: Map<Seq<u8>, NodeView>) -> bool {
    forall|k: Seq<u8>| #[trigger] nodes.dom().contains(k) ==> nodes[k].peer == k
}

/// Whether each record of a list has a full-length identity.
pub open spec fn full_peers(nodes: Seq<NodeView>) -> bool {
    forall|i: int| 0 <= i < nodes.len() ==> (#[trigger] nodes[i]).peer.len() == 32
}

pub(crate) proof fn lemma_with_all_merged(nodes: Map<Seq<u8>, NodeView>, others: Seq<NodeView>)
    requires
        filed(nodes),
        nodes.dom().finite(),
        full_keys(nodes.dom()),
        full_peers(others),
    ensures
        filed(with_all_merged(nodes, others)),
        with_all_merged(nodes, others).dom().finite(),
        full_keys(with_all_merged(nodes, others).dom()),
        forall|i: int|
            0 <= i < others.len() ==> with_all_merged(nodes, others).dom().contains(
                (#[trigger] others[i]).peer,
            ),
        nodes.dom().subset_of(with_all_merged(nodes, others).dom()),
    decreases others.len(),
{
    if others.len() > 0 {
        let rest = others.drop_last();
        assert forall|i: int| 0 <= i < rest.len() implies (#[trigger] rest[i]).peer.len() == 32 by {
            assert(others[i] == rest[i]);
        }
        lemma_with_all_merged(nodes, rest);
        assert(others[others.len() - 1].peer.len() == 32);
        assert forall|i: int| 0 <= i < others.len() implies with_all_merged(
            nodes,
            others,
        ).dom().contains((#[trigger] others[i]).peer) by {
            if i < rest.len() {
                assert(rest[i] == others[i]);
            }
        }
    }
}

/// Deduplicated records name each peer once, in strictly increasing distance
/// from the key, and are no more than wanted.
pub proof fn law_witnessed_nodes_are_ranked(nodes: Seq<NodeView>, key: Seq<u8>, count: nat)
    requires
        key.len() == 32,
        full_peers(nodes),
    ensures
        ({
            let result = ranked(with_all_merged(Map::empty(), nodes), key, count);
            &&& result.len() <= count
            &&& forall|i: int, j: int|
                0 <= i < j < result.len() ==> distance((#[trigger] result[i]).peer, key) < distance(
                    (#[trigger] result[j]).peer,
                    key,
                )
        }),
{
    let merged = with_all_merged(Map::empty(), nodes);
    lemma_with_all_merged(Map::empty(), nodes);
    lemma_closest_exists(merged.dom(), key, count);
    let peers = closest(merged.dom(), key, count);
    let result = ranked(merged, key, count);
    assert forall|i: int, j: int| 0 <= i < j < result.len() implies distance(
        (#[trigger] result[i]).peer,
        key,
    ) < distance((#[trigger] result[j]).peer, key) by {
        assert(merged.dom().contains(peers[i]));
        assert(merged.dom().contains(peers[j]));
        assert(result[i].peer == peers[i]);
        assert(result[j].peer == peers[j]);
    }
}

/// A responder that is known is in its own view, wherever there is room for
/// every record of the view and for its own. Records without addresses count
/// like others.
pub proof fn law_views_are_self_inclusive(
    responder: Seq<u8>,
    view: Seq<NodeView>,
    known: Map<Seq<u8>, NodeView>,
    key: Seq<u8>,
    count: nat,
)
    requires
        key.len() == 32,
        full_peers(view),
        known.dom().contains(responder),
        known[responder].peer == responder,
        responder.len() == 32,
        self_inclusive(responder, view, known).dom().len() <= count,
    ensures
        exists|i: int|
            0 <= i < ranked(self_inclusive(responder, view, known), key, count).len() && (
            #[trigger] ranked(self_inclusive(responder, view, known), key, count)[i]).peer
                == responder,
        forall|j: int|
            0 <= j < view.len() ==> self_inclusive(responder, view, known).dom().contains(
                (#[trigger] view[j]).peer,
            ),
{
    lemma_with_all_merged(Map::empty(), view);
    let nodes = self_inclusive(responder, view, known);
    lemma_closest_exists(nodes.dom(), key, count);
    let peers = closest(nodes.dom(), key, count);
    assert(nodes.dom().contains(responder));
    if !peers.contains(responder) {
        assert(peers.len() == nodes.dom().len());
        lemma_ascending_len(peers, nodes.dom(), key, responder);
    }
    let i = peers.index_of(responder);
    assert(peers[i] == responder);
    assert(filed(nodes));
    assert(ranked(nodes, key, count)[i].peer == responder);
}

pub(crate) proof fn lemma_ascending_len(
    keys: Seq<Seq<u8>>,
    members: Set<Seq<u8>>,
    target: Seq<u8>,
    missing: Seq<u8>,
)
    requires
        members.finite(),
        crate::keys::ascending(keys, target),
        forall|i: int| 0 <= i < keys.len() ==> members.contains(#[trigger] keys[i]),
        members.contains(missing),
        !keys.contains(missing),
    ensures
        keys.len() < members.len(),
{
    crate::keys::lemma_ascending_distinct(keys, target);
    keys.unique_seq_to_set();
    let listed = keys.to_set();
    assert forall|k: Seq<u8>| listed.contains(k) implies #[trigger] members.remove(
        missing,
    ).contains(k) by {
        let i = keys.index_of(k);
        assert(members.contains(keys[i]));
    }
    assert(listed.subset_of(members.remove(missing)));
    vstd::set_lib::lemma_len_subset(listed, members.remove(missing));
}

/// Where two of the closest responders agree on a subject that no report
/// proves and that did not report on itself, the winning report agrees with
/// them: one dissenting responder cannot poison the lookup.
pub proof fn law_quorum_outvotes_one_dissenter(
    subject: Seq<u8>,
    reports: Map<Seq<u8>, NodeView>,
    peer: Seq<u8>,
    left: int,
    right: int,
)
    requires
        subject.len() == 32,
        reports.dom().finite(),
        full_keys(reports.dom()),
        !any_proven(reports),
        !reports.dom().contains(subject),
        wins(subject, reports, peer),
        0 <= left < closest(reports.dom(), subject, QUORUM_TOP_N as nat).len(),
        0 <= right < closest(reports.dom(), subject, QUORUM_TOP_N as nat).len(),
        left != right,
        agree(
            reports[closest(reports.dom(), subject, QUORUM_TOP_N as nat)[left]],
            reports[closest(reports.dom(), subject, QUORUM_TOP_N as nat)[right]],
        ),
    ensures
        agree(
            reports[peer],
            reports[closest(reports.dom(), subject, QUORUM_TOP_N as nat)[left]],
        ),
{
    let top = closest(reports.dom(), subject, QUORUM_TOP_N as nat);
    lemma_closest_exists(reports.dom(), subject, QUORUM_TOP_N as nat);
    assert(has_ally(top, reports, left)) by {
        assert(agree(reports[top[left]], reports[top[right]]));
    }
    lemma_first_allied_found(top, reports, 0, left);
    let k = choose|k: int|
        0 <= k < top.len() && has_ally(top, reports, k) && first_allied(top, reports, 0) == Some(
            #[trigger] top[k],
        );
    let m = choose|j: int|
        0 <= j < top.len() && j != k && agree(reports[top[k]], reports[#[trigger] top[j]]);
    let w = reports[peer];
    let l = reports[top[left]];
    assert forall|address| #[trigger] ranks_of(w.typed(), address) == ranks_of(
        l.typed(),
        address,
    ) by {
        assert(ranks_of(reports[top[k]].typed(), address) == ranks_of(
            reports[top[m]].typed(),
            address,
        ));
        assert(ranks_of(reports[top[left]].typed(), address) == ranks_of(
            reports[top[right]].typed(),
            address,
        ));
    }
}

proof fn lemma_first_allied_found(
    peers: Seq<Seq<u8>>,
    reports: Map<Seq<u8>, NodeView>,
    from: int,
    i: int,
)
    requires
        0 <= from <= i < peers.len(),
        has_ally(peers, reports, i),
    ensures
        exists|k: int|
            0 <= k < peers.len() && has_ally(peers, reports, k) && first_allied(
                peers,
                reports,
                from,
            ) == Some(#[trigger] peers[k]),
    decreases i - from,
{
    if has_ally(peers, reports, from) {
        assert(first_allied(peers, reports, from) == Some(peers[from]));
    } else {
        lemma_first_allied_found(peers, reports, from + 1, i);
    }
}

/// Preferring one lookup record to another is never mutual.
pub proof fn law_preference_is_one_way(left: NodeView, right: NodeView)
    requires
        preferred(left, right),
    ensures
        !preferred(right, left),
{
}

} // verus!
