//! Laws of how reports compare, how records are collected by peer, and how the
//! views of responders are put in order.

use crate::address::MultiAddr;
use crate::client_routing::{
    agree, all_known, arranged, best_rank, collected, normalized, place_of, preferred, ranked,
    ranks_of, refreshed, self_inclusive, transcript, winner, wins, with_all_merged, with_merged,
    WitnessView,
};
use crate::keys::{distance, full_keys};
use crate::peer_record::{NodeView, Typed};
use crate::routing_laws::{filed, full_peers, law_views_are_self_inclusive, lemma_with_all_merged};
use crate::selection_laws::{law_ranked_records_are_the_closest, law_some_report_wins};
use vstd::prelude::*;

verus! {

/// The best rank of typed addresses is the lowest that occurs, and that of none is
/// above every rank.
pub proof fn law_best_rank_is_the_lowest(typed: Seq<Typed>)
    ensures
        forall|i: int| 0 <= i < typed.len() ==> best_rank(typed) <= (#[trigger] typed[i]).1.rank(),
        typed.len() > 0 ==> exists|i: int|
            0 <= i < typed.len() && (#[trigger] typed[i]).1.rank() == best_rank(typed),
        typed.len() == 0 ==> best_rank(typed) == 255,
    decreases typed.len(),
{
    if typed.len() > 0 {
        let rest = typed.drop_last();
        law_best_rank_is_the_lowest(rest);
        assert forall|i: int| 0 <= i < typed.len() implies best_rank(typed) <= (
        #[trigger] typed[i]).1.rank() by {
            if i < rest.len() {
                assert(rest[i] == typed[i]);
            }
        }
        if typed.last().1.rank() < best_rank(rest) {
            assert(typed[typed.len() - 1].1.rank() == best_rank(typed));
        } else if rest.len() > 0 {
            let i = choose|i: int|
                0 <= i < rest.len() && (#[trigger] rest[i]).1.rank() == best_rank(rest);
            assert(typed[i].1.rank() == best_rank(typed));
        }
    }
}

/// More authority is preferred whatever the tags; with equal authority the better
/// best tag is, and with equal tags too nothing is preferred.
pub proof fn law_preference_goes_by_authority_first(left: NodeView, right: NodeView)
    ensures
        left.generation() > right.generation() ==> preferred(left, right),
        left.generation() == right.generation() && left.version() > right.version() ==> preferred(
            left,
            right,
        ),
        left.generation() == right.generation() && left.version() == right.version() ==> (preferred(
            left,
            right,
        ) <==> best_rank(left.typed()) < best_rank(right.typed())),
        preferred(left, right) ==> left.generation() >= right.generation(),
{
}

/// The ranks of an address are those of its entries, in order.
pub proof fn law_ranks_are_those_of_the_entries(typed: Seq<Typed>, address: MultiAddr)
    ensures
        ranks_of(typed, address) == typed.filter(|entry: Typed| entry.0 == address).map(
            |_i: int, entry: Typed| entry.1.rank(),
        ),
    decreases typed.len(),
{
    let of_address = |entry: Typed| entry.0 == address;
    let rank = |_i: int, entry: Typed| entry.1.rank();
    reveal(Seq::filter);
    if typed.len() > 0 {
        let rest = typed.drop_last();
        law_ranks_are_those_of_the_entries(rest, address);
        if typed.last().0 == address {
            assert(typed.filter(of_address) == rest.filter(of_address).push(typed.last()));
            assert(rest.filter(of_address).push(typed.last()).map(rank) =~= rest.filter(
                of_address,
            ).map(rank).push(typed.last().1.rank()));
        }
    } else {
        assert(typed.filter(of_address).map(rank) =~= Seq::<u8>::empty());
    }
}

/// Agreement is an equivalence: every report agrees with itself, and agreement
/// goes both ways and on.
pub proof fn law_agreement_is_an_equivalence(first: NodeView, second: NodeView, third: NodeView)
    ensures
        agree(first, first),
        agree(first, second) ==> agree(second, first),
        agree(first, second) && agree(second, third) ==> agree(first, third),
{
    if agree(first, second) {
        assert forall|address: MultiAddr| #[trigger] ranks_of(second.typed(), address) == ranks_of(
            first.typed(),
            address,
        ) by {
            assert(ranks_of(first.typed(), address) == ranks_of(second.typed(), address));
        }
        if agree(second, third) {
            assert forall|address: MultiAddr| #[trigger] ranks_of(first.typed(), address)
                == ranks_of(third.typed(), address) by {
                assert(ranks_of(second.typed(), address) == ranks_of(third.typed(), address));
            }
        }
    }
}

proof fn lemma_listed_has_rank(typed: Seq<Typed>, i: int)
    requires
        0 <= i < typed.len(),
    ensures
        ranks_of(typed, typed[i].0).contains(typed[i].1.rank()),
    decreases typed.len(),
{
    let rest = typed.drop_last();
    let ranks = ranks_of(typed, typed[i].0);
    if i < rest.len() {
        lemma_listed_has_rank(rest, i);
        let k = ranks_of(rest, rest[i].0).index_of(rest[i].1.rank());
        assert(ranks[k] == typed[i].1.rank());
    } else {
        assert(ranks[ranks.len() - 1] == typed[i].1.rank());
    }
}

proof fn lemma_rank_is_listed(typed: Seq<Typed>, address: MultiAddr, rank: u8)
    requires
        ranks_of(typed, address).contains(rank),
    ensures
        exists|i: int|
            0 <= i < typed.len() && (#[trigger] typed[i]).0 == address && typed[i].1.rank() == rank,
    decreases typed.len(),
{
    let ranks = ranks_of(typed, address);
    if typed.len() > 0 {
        let rest = typed.drop_last();
        let k = ranks.index_of(rank);
        if typed.last().0 == address && k == ranks.len() - 1 {
            assert(typed[typed.len() - 1].0 == address);
        } else {
            assert(ranks_of(rest, address)[k] == rank);
            lemma_rank_is_listed(rest, address, rank);
            let i = choose|i: int|
                0 <= i < rest.len() && (#[trigger] rest[i]).0 == address && rest[i].1.rank()
                    == rank;
            assert(typed[i].0 == address);
        }
    }
}

/// Reports that agree list the same addresses under the same tags: whatever one
/// lists, the other lists too.
pub proof fn law_agreeing_reports_list_the_same(left: NodeView, right: NodeView, entry: Typed)
    requires
        agree(left, right),
    ensures
        left.typed().contains(entry) <==> right.typed().contains(entry),
{
    assert(ranks_of(left.typed(), entry.0) == ranks_of(right.typed(), entry.0));
    if left.typed().contains(entry) {
        let i = left.typed().index_of(entry);
        lemma_listed_has_rank(left.typed(), i);
        lemma_rank_is_listed(right.typed(), entry.0, entry.1.rank());
        let j = choose|j: int|
            0 <= j < right.typed().len() && (#[trigger] right.typed()[j]).0 == entry.0
                && right.typed()[j].1.rank() == entry.1.rank();
        assert(right.typed()[j].1 == entry.1);
        assert(right.typed()[j] == entry);
    }
    if right.typed().contains(entry) {
        let i = right.typed().index_of(entry);
        lemma_listed_has_rank(right.typed(), i);
        lemma_rank_is_listed(left.typed(), entry.0, entry.1.rank());
        let j = choose|j: int|
            0 <= j < left.typed().len() && (#[trigger] left.typed()[j]).0 == entry.0
                && left.typed()[j].1.rank() == entry.1.rank();
        assert(left.typed()[j].1 == entry.1);
        assert(left.typed()[j] == entry);
    }
}

/// Whether each report is about the subject that it is kept under, from a
/// responder with a full-length identity.
pub open spec fn about_subjects(reports: Map<Seq<u8>, Map<Seq<u8>, NodeView>>) -> bool {
    forall|s: Seq<u8>, r: Seq<u8>|
        #![trigger reports[s].dom().contains(r)]
        reports.dom().contains(s) && reports[s].dom().contains(r) ==> reports[s][r].peer == s
            && r.len() == 32
}

/// A result that reports are known for is replaced by a report that wins for its
/// peer, and one without reports is handed out as it is.
pub proof fn law_winning_reports_refresh_results(
    node: NodeView,
    reports: Map<Seq<u8>, Map<Seq<u8>, NodeView>>,
)
    requires
        node.peer.len() == 32,
        reports.dom().contains(node.peer) ==> reports[node.peer].dom().finite() && full_keys(
            reports[node.peer].dom(),
        ),
    ensures
        !reports.dom().contains(node.peer) || reports[node.peer].dom() == Set::<Seq<u8>>::empty()
            ==> refreshed(node, reports) == node,
        reports.dom().contains(node.peer) && reports[node.peer].dom() != Set::<Seq<u8>>::empty()
            ==> exists|responder: Seq<u8>| #[trigger]
            wins(node.peer, reports[node.peer], responder) && refreshed(node, reports)
                == reports[node.peer][responder],
{
    if reports.dom().contains(node.peer) && reports[node.peer].dom() != Set::<Seq<u8>>::empty() {
        law_some_report_wins(node.peer, reports[node.peer]);
        assert(wins(node.peer, reports[node.peer], winner(node.peer, reports[node.peer])));
    }
}

/// Whether every subject with a result has reports that can be judged.
pub open spec fn judgeable(
    nodes: Seq<NodeView>,
    reports: Map<Seq<u8>, Map<Seq<u8>, NodeView>>,
) -> bool {
    &&& about_subjects(reports)
    &&& forall|i: int|
        0 <= i < nodes.len() ==> (#[trigger] nodes[i]).peer.len() == 32 && (reports.dom().contains(
            nodes[i].peer,
        ) ==> reports[nodes[i].peer].dom().finite())
}

proof fn lemma_refreshed_peer(
    node: NodeView,
    reports: Map<Seq<u8>, Map<Seq<u8>, NodeView>>,
)
    requires
        judgeable(seq![node], reports),
    ensures
        refreshed(node, reports).peer == node.peer,
{
    assert(seq![node][0] == node);
    if reports.dom().contains(node.peer) && reports[node.peer].dom() != Set::<Seq<u8>>::empty() {
        let known = reports[node.peer];
        assert forall|k: Seq<u8>| #[trigger] known.dom().contains(k) implies k.len() == 32 by {
            assert(reports[node.peer].dom().contains(k));
        }
        law_winning_reports_refresh_results(node, reports);
        let r = choose|r: Seq<u8>| #[trigger]
            wins(node.peer, known, r) && refreshed(node, reports) == known[r];
        assert(reports[node.peer].dom().contains(r));
    }
}

/// Refreshed results are kept once per peer: every peer with a result has one,
/// no other peer has, and it is the refreshed form of a result of that peer, than
/// which no other one has more authority, or as much with a better tag.
pub proof fn law_collected_results_are_the_best(
    nodes: Seq<NodeView>,
    reports: Map<Seq<u8>, Map<Seq<u8>, NodeView>>,
    peer: Seq<u8>,
)
    requires
        judgeable(nodes, reports),
    ensures
        collected(nodes, reports).dom().contains(peer) <==> exists|i: int|
            0 <= i < nodes.len() && (#[trigger] nodes[i]).peer == peer,
        collected(nodes, reports).dom().contains(peer) ==> exists|i: int|
            0 <= i < nodes.len() && (#[trigger] nodes[i]).peer == peer && collected(
                nodes,
                reports,
            )[peer] == refreshed(nodes[i], reports),
        collected(nodes, reports).dom().contains(peer) ==> forall|i: int|
            0 <= i < nodes.len() && (#[trigger] nodes[i]).peer == peer ==> {
                let kept = collected(nodes, reports)[peer];
                let other = refreshed(nodes[i], reports);
                &&& other.generation() <= kept.generation()
                &&& other.generation() == kept.generation() ==> other.version() <= kept.version()
                &&& other.generation() == kept.generation() && other.version() == kept.version()
                    ==> best_rank(kept.typed()) <= best_rank(other.typed())
            },
    decreases nodes.len(),
{
    if nodes.len() > 0 {
        let rest = nodes.drop_last();
        let last = nodes.last();
        assert forall|i: int| 0 <= i < rest.len() implies (#[trigger] rest[i]).peer.len() == 32 && (
        reports.dom().contains(rest[i].peer) ==> reports[rest[i].peer].dom().finite()) by {
            assert(nodes[i] == rest[i]);
        }
        law_collected_results_are_the_best(rest, reports, peer);
        assert(nodes[nodes.len() - 1] == last);
        assert(judgeable(seq![last], reports));
        lemma_refreshed_peer(last, reports);
        let before = collected(rest, reports);
        let after = collected(nodes, reports);
        if before.dom().contains(peer) {
            let i = choose|i: int|
                0 <= i < rest.len() && (#[trigger] rest[i]).peer == peer && before[peer]
                    == refreshed(rest[i], reports);
            assert(nodes[i] == rest[i]);
        }
        if last.peer == peer {
            assert(nodes[nodes.len() - 1].peer == peer);
        }
        if exists|i: int| 0 <= i < nodes.len() && (#[trigger] nodes[i]).peer == peer {
            let i = choose|i: int| 0 <= i < nodes.len() && (#[trigger] nodes[i]).peer == peer;
            if i < rest.len() {
                assert(rest[i].peer == peer);
            }
        }
        if after.dom().contains(peer) {
            assert forall|i: int| 0 <= i < nodes.len() && (#[trigger] nodes[i]).peer == peer implies ({
                let kept = after[peer];
                let other = refreshed(nodes[i], reports);
                &&& other.generation() <= kept.generation()
                &&& other.generation() == kept.generation() ==> other.version() <= kept.version()
                &&& other.generation() == kept.generation() && other.version() == kept.version()
                    ==> best_rank(kept.typed()) <= best_rank(other.typed())
            }) by {
                if i < rest.len() {
                    assert(rest[i] == nodes[i]);
                    assert(before.dom().contains(peer));
                }
            }
        }
    }
}

/// Merging a record in touches its own peer alone: a peer that is new gets the
/// record as it is, and one that is known gets it merged into its own.
pub proof fn law_records_are_merged_by_peer(
    nodes: Map<Seq<u8>, NodeView>,
    node: NodeView,
    other: Seq<u8>,
)
    requires
        other != node.peer,
    ensures
        with_merged(nodes, node).dom().contains(node.peer),
        !nodes.dom().contains(node.peer) ==> with_merged(nodes, node)[node.peer] == node,
        nodes.dom().contains(node.peer) ==> with_merged(nodes, node)[node.peer]
            == nodes[node.peer].merged(node),
        with_merged(nodes, node).dom().contains(other) <==> nodes.dom().contains(other),
        nodes.dom().contains(other) ==> with_merged(nodes, node)[other] == nodes[other],
{
}

/// After a list of records was merged in, exactly their peers and those before
/// are known; a peer that the list does not name keeps its record, and one that it
/// names once and that was not known has that record.
pub proof fn law_merged_lists_name_their_peers(
    nodes: Map<Seq<u8>, NodeView>,
    others: Seq<NodeView>,
    peer: Seq<u8>,
)
    ensures
        with_all_merged(nodes, others).dom().contains(peer) <==> nodes.dom().contains(peer) || (
        exists|i: int| 0 <= i < others.len() && (#[trigger] others[i]).peer == peer),
        (forall|i: int| 0 <= i < others.len() ==> (#[trigger] others[i]).peer != peer)
            ==> with_all_merged(nodes, others)[peer] == nodes[peer],
        forall|i: int|
            0 <= i < others.len() && (#[trigger] others[i]).peer == peer && !nodes.dom().contains(
                peer,
            ) && (forall|j: int|
                0 <= j < others.len() && j != i ==> (#[trigger] others[j]).peer != peer)
                ==> with_all_merged(nodes, others)[peer] == others[i],
    decreases others.len(),
{
    if others.len() > 0 {
        let rest = others.drop_last();
        law_merged_lists_name_their_peers(nodes, rest, peer);
        assert forall|i: int| 0 <= i < rest.len() implies #[trigger] rest[i] == others[i] by {}
        assert(others[others.len() - 1] == others.last());
        if exists|i: int| 0 <= i < others.len() && (#[trigger] others[i]).peer == peer {
            let i = choose|i: int| 0 <= i < others.len() && (#[trigger] others[i]).peer == peer;
            if i < rest.len() {
                assert(rest[i].peer == peer);
            }
        }
        if exists|i: int| 0 <= i < rest.len() && (#[trigger] rest[i]).peer == peer {
            let i = choose|i: int| 0 <= i < rest.len() && (#[trigger] rest[i]).peer == peer;
            assert(others[i].peer == peer);
        }
        assert forall|i: int|
            0 <= i < others.len() && (#[trigger] others[i]).peer == peer && !nodes.dom().contains(
                peer,
            ) && (forall|j: int|
                0 <= j < others.len() && j != i ==> (#[trigger] others[j]).peer
                    != peer) implies with_all_merged(nodes, others)[peer] == others[i] by {
            if i < rest.len() {
                assert(rest[i].peer == peer);
                assert forall|j: int| 0 <= j < rest.len() && j != i implies (
                #[trigger] rest[j]).peer != peer by {
                    assert(others[j].peer != peer);
                }
                assert(others[others.len() - 1].peer != peer);
            } else {
                assert forall|j: int| 0 <= j < rest.len() implies (#[trigger] rest[j]).peer
                    != peer by {
                    assert(others[j].peer != peer);
                }
            }
        }
    }
}

/// Making a view include its responder changes the record of the responder alone,
/// and nothing where the responder is not known.
pub proof fn law_views_gain_only_their_responder(
    responder: Seq<u8>,
    view: Seq<NodeView>,
    known: Map<Seq<u8>, NodeView>,
    peer: Seq<u8>,
)
    requires
        known.dom().contains(responder) ==> known[responder].peer == responder,
        peer != responder,
    ensures
        ({
            let plain = with_all_merged(Map::empty(), view);
            let whole = self_inclusive(responder, view, known);
            &&& !known.dom().contains(responder) ==> whole == plain
            &&& known.dom().contains(responder) ==> whole.dom().contains(responder)
            &&& known.dom().contains(responder) && !plain.dom().contains(responder)
                ==> whole[responder] == known[responder]
            &&& known.dom().contains(responder) && plain.dom().contains(responder)
                ==> whole[responder] == plain[responder].merged(known[responder])
            &&& whole.dom().contains(peer) <==> plain.dom().contains(peer)
            &&& plain.dom().contains(peer) ==> whole[peer] == plain[peer]
        }),
{
}

/// Every peer of the initial result and of a view is known, and no other one.
pub proof fn law_everything_seen_is_known(
    initial: Seq<NodeView>,
    views: Seq<WitnessView>,
    peer: Seq<u8>,
)
    ensures
        all_known(initial, views).dom().contains(peer) <==> (exists|i: int|
            0 <= i < initial.len() && (#[trigger] initial[i]).peer == peer) || (exists|v: int, i: int|
            0 <= v < views.len() && 0 <= i < views[v].closest.len() && (
            #[trigger] views[v].closest[i]).peer == peer),
    decreases views.len(),
{
    if views.len() == 0 {
        law_merged_lists_name_their_peers(Map::empty(), initial, peer);
    } else {
        let rest = views.drop_last();
        law_everything_seen_is_known(initial, rest, peer);
        law_merged_lists_name_their_peers(all_known(initial, rest), views.last().closest, peer);
        if exists|v: int, i: int|
            0 <= v < views.len() && 0 <= i < views[v].closest.len() && (
            #[trigger] views[v].closest[i]).peer == peer {
            let (v, i) = choose|v: int, i: int|
                0 <= v < views.len() && 0 <= i < views[v].closest.len() && (
                #[trigger] views[v].closest[i]).peer == peer;
            if v < rest.len() {
                assert(rest[v].closest[i].peer == peer);
            } else {
                assert(views.last().closest[i].peer == peer);
            }
        }
        if exists|v: int, i: int|
            0 <= v < rest.len() && 0 <= i < rest[v].closest.len() && (
            #[trigger] rest[v].closest[i]).peer == peer {
            let (v, i) = choose|v: int, i: int|
                0 <= v < rest.len() && 0 <= i < rest[v].closest.len() && (
                #[trigger] rest[v].closest[i]).peer == peer;
            assert(views[v].closest[i].peer == peer);
        }
        if exists|i: int|
            0 <= i < views.last().closest.len() && (#[trigger] views.last().closest[i]).peer
                == peer {
            let i = choose|i: int|
                0 <= i < views.last().closest.len() && (#[trigger] views.last().closest[i]).peer
                    == peer;
            assert(views[views.len() - 1].closest[i].peer == peer);
        }
    }
}

proof fn lemma_place(views: Seq<WitnessView>, responder: Seq<u8>, key: Seq<u8>)
    ensures
        0 <= place_of(views, responder, key) <= views.len(),
        place_of(views, responder, key) > 0 ==> distance(
            views[place_of(views, responder, key) - 1].responder,
            key,
        ) <= distance(responder, key),
        forall|i: int|
            place_of(views, responder, key) <= i < views.len() ==> distance(responder, key)
                < distance((#[trigger] views[i]).responder, key),
    decreases views.len(),
{
    if views.len() > 0 && distance(views.last().responder, key) > distance(responder, key) {
        let rest = views.drop_last();
        lemma_place(rest, responder, key);
        assert forall|i: int| place_of(views, responder, key) <= i < views.len() implies distance(
            responder,
            key,
        ) < distance((#[trigger] views[i]).responder, key) by {
            if i < rest.len() {
                assert(rest[i] == views[i]);
            }
        }
    }
}

/// Views are put in order of their responders' distance from the key, each of
/// them once.
pub proof fn law_views_are_in_order(views: Seq<WitnessView>, key: Seq<u8>)
    ensures
        arranged(views, key).len() == views.len(),
        arranged(views, key).to_multiset() == views.to_multiset(),
        forall|i: int, j: int|
            0 <= i < j < views.len() ==> distance(
                (#[trigger] arranged(views, key)[i]).responder,
                key,
            ) <= distance((#[trigger] arranged(views, key)[j]).responder, key),
    decreases views.len(),
{
    broadcast use vstd::seq_lib::group_to_multiset_ensures;

    if views.len() > 0 {
        let rest = views.drop_last();
        let last = views.last();
        law_views_are_in_order(rest, key);
        let before = arranged(rest, key);
        let place = place_of(before, last.responder, key);
        lemma_place(before, last.responder, key);
        let after = arranged(views, key);
        assert(views =~= rest.push(last));
        vstd::seq_lib::to_multiset_insert(before, place, last);
        assert(after.to_multiset() =~= views.to_multiset());
        assert forall|i: int, j: int| 0 <= i < j < views.len() implies distance(
            (#[trigger] after[i]).responder,
            key,
        ) <= distance((#[trigger] after[j]).responder, key) by {
            let a = if i < place {
                i
            } else {
                i - 1
            };
            let b = if j < place {
                j
            } else {
                j - 1
            };
            if i == place {
                assert(after[j] == before[b]);
            } else if j == place {
                assert(after[i] == before[a]);
                if a < place - 1 {
                    assert(distance(before[a].responder, key) <= distance(
                        before[place - 1].responder,
                        key,
                    ));
                }
            } else {
                assert(after[i] == before[a] && after[j] == before[b]);
            }
        }
    }
}

/// Two views of one responder stand in the order in which they came.
pub proof fn law_later_views_stand_behind(views: Seq<WitnessView>, view: WitnessView, key: Seq<u8>)
    ensures
        exists|place: int|
            0 <= place <= views.len() && arranged(views.push(view), key) == #[trigger] arranged(
                views,
                key,
            ).insert(place, view) && forall|i: int|
                place <= i < views.len() ==> (#[trigger] arranged(views, key)[i]).responder
                    != view.responder,
{
    assert(views.push(view).drop_last() =~= views);
    law_views_are_in_order(views, key);
    let before = arranged(views, key);
    let place = place_of(before, view.responder, key);
    lemma_place(before, view.responder, key);
    assert(arranged(views.push(view), key) == before.insert(place, view));
}

/// Each view of a transcript is that of its responder, in its place, made to
/// include the responder and cut to the closest records.
pub proof fn law_transcripts_keep_every_view(
    views: Seq<WitnessView>,
    known: Map<Seq<u8>, NodeView>,
    key: Seq<u8>,
    count: nat,
    index: int,
)
    requires
        0 <= index < views.len(),
    ensures
        normalized(views, known, key, count).len() == views.len(),
        normalized(views, known, key, count)[index].responder == views[index].responder,
        normalized(views, known, key, count)[index].closest == ranked(
            self_inclusive(views[index].responder, views[index].closest, known),
            key,
            count,
        ),
{
}

proof fn lemma_merged_count(others: Seq<NodeView>)
    ensures
        with_all_merged(Map::empty(), others).dom().finite(),
        with_all_merged(Map::empty(), others).dom().len() <= others.len(),
    decreases others.len(),
{
    if others.len() > 0 {
        lemma_merged_count(others.drop_last());
    }
}

proof fn lemma_known_is_filed(initial: Seq<NodeView>, views: Seq<WitnessView>)
    requires
        full_peers(initial),
        forall|v: int| 0 <= v < views.len() ==> full_peers((#[trigger] views[v]).closest),
    ensures
        filed(all_known(initial, views)),
        all_known(initial, views).dom().finite(),
        full_keys(all_known(initial, views).dom()),
    decreases views.len(),
{
    if views.len() == 0 {
        lemma_with_all_merged(Map::empty(), initial);
    } else {
        let rest = views.drop_last();
        assert forall|v: int| 0 <= v < rest.len() implies full_peers(
            (#[trigger] rest[v]).closest,
        ) by {
            assert(views[v] == rest[v]);
        }
        lemma_known_is_filed(initial, rest);
        assert(full_peers(views[views.len() - 1].closest));
        lemma_with_all_merged(all_known(initial, rest), views.last().closest);
    }
}

/// A transcript has as many views as there were responders, and a responder that
/// is in the initial result is named in its own view, wherever there is room for
/// one more record than it sent.
pub proof fn law_transcripts_are_self_inclusive(
    initial: Seq<NodeView>,
    views: Seq<WitnessView>,
    key: Seq<u8>,
    count: nat,
    view_count: nat,
    v: int,
    named: int,
)
    requires
        key.len() == 32,
        full_peers(initial),
        forall|w: int| 0 <= w < views.len() ==> full_peers((#[trigger] views[w]).closest),
        0 <= v < views.len(),
        0 <= named < transcript(initial, views, key, count, view_count).0.len(),
        transcript(initial, views, key, count, view_count).0[named].peer == views[v].responder,
        views[v].closest.len() < view_count,
    ensures
        transcript(initial, views, key, count, view_count).1.len() == views.len(),
        exists|w: int, i: int|
            0 <= w < views.len() && 0 <= i < transcript(
                initial,
                views,
                key,
                count,
                view_count,
            ).1[w].closest.len() && transcript(initial, views, key, count, view_count).1[w].responder
                == views[v].responder && (#[trigger] transcript(
                initial,
                views,
                key,
                count,
                view_count,
            ).1[w].closest[i]).peer == views[v].responder,
{
    broadcast use vstd::seq_lib::group_to_multiset_ensures;

    let merged = with_all_merged(Map::empty(), initial);
    lemma_with_all_merged(Map::empty(), initial);
    law_ranked_records_are_the_closest(merged, key, count);
    let first = ranked(merged, key, count);
    assert forall|i: int| 0 <= i < first.len() implies (#[trigger] first[i]).peer.len() == 32 by {
        assert(merged.dom().contains(first[i].peer));
    }
    lemma_known_is_filed(first, views);
    let known = all_known(first, views);
    let responder = views[v].responder;
    assert(first[named].peer == responder);
    law_everything_seen_is_known(first, views, responder);
    let own = views[v].closest;
    lemma_merged_count(own);
    assert(self_inclusive(responder, own, known).dom().len() <= view_count);
    law_views_are_self_inclusive(responder, own, known, key, view_count);
    let done = normalized(views, known, key, view_count);
    law_views_are_in_order(done, key);
    let all = arranged(done, key);
    assert(done.to_multiset().count(done[v]) > 0) by {
        assert(done.contains(done[v]));
    }
    assert(all.contains(done[v]));
    let w = all.index_of(done[v]);
    let i = choose|i: int|
        0 <= i < ranked(self_inclusive(responder, own, known), key, view_count).len() && (
        #[trigger] ranked(self_inclusive(responder, own, known), key, view_count)[i]).peer
            == responder;
    assert(all[w].closest[i].peer == responder);
    assert(all[w].responder == responder);
}

} // verus!
