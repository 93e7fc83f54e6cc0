//! Laws of merging peer records.

use crate::address::MultiAddr;
use crate::authority::AuthorityView;
use crate::keys::key_value;
use crate::peer_record::{
    all_offered, be_bytes64, by_priority, entry_addresses, lemma_position, of_rank, offered,
    position, sequence_marker, sequence_metadata, sorted, AddressType, NodeView, Typed,
};
use crate::record_bundle::{be_bytes, lemma_be_bytes};
use crate::signed_address::SignedView;
use vstd::prelude::*;

verus! {

proof fn lemma_of_rank(typed: Seq<Typed>, rank: u8)
    ensures
        forall|i: int|
            0 <= i < of_rank(typed, rank).len() ==> (#[trigger] of_rank(typed, rank)[i]).1.rank()
                == rank && typed.contains(of_rank(typed, rank)[i]),
        forall|i: int|
            0 <= i < typed.len() && (#[trigger] typed[i]).1.rank() == rank ==> of_rank(
                typed,
                rank,
            ).contains(typed[i]),
{
    broadcast use vstd::seq_lib::group_filter_ensures;

    let keep = |entry: Typed| entry.1.rank() == rank;
    assert forall|i: int| 0 <= i < of_rank(typed, rank).len() implies (#[trigger] of_rank(
        typed,
        rank,
    )[i]).1.rank() == rank && typed.contains(of_rank(typed, rank)[i]) by {
        assert(keep(typed.filter(keep)[i]));
        typed.lemma_filter_contains_rev(keep, typed.filter(keep)[i]);
    }
    assert forall|i: int|
        0 <= i < typed.len() && (#[trigger] typed[i]).1.rank() == rank implies of_rank(
        typed,
        rank,
    ).contains(typed[i]) by {
        assert(keep(typed[i]));
    }
}

/// Sorting typed addresses puts better tags first and neither adds nor drops an
/// entry.
pub proof fn law_sorting_keeps_entries(typed: Seq<Typed>)
    ensures
        by_priority(sorted(typed)),
        forall|entry: Typed| #[trigger] sorted(typed).contains(entry) <==> typed.contains(entry),
{
    let (a, b, c, d) = (
        of_rank(typed, 0),
        of_rank(typed, 1),
        of_rank(typed, 2),
        of_rank(typed, 3),
    );
    lemma_of_rank(typed, 0);
    lemma_of_rank(typed, 1);
    lemma_of_rank(typed, 2);
    lemma_of_rank(typed, 3);
    let all = sorted(typed);
    let (la, lb, lc) = (
        a.len() as int,
        (a.len() + b.len()) as int,
        (a.len() + b.len() + c.len()) as int,
    );
    assert forall|i: int| 0 <= i < all.len() implies (#[trigger] all[i]).1.rank() == (if i < la {
        0u8
    } else if i < lb {
        1u8
    } else if i < lc {
        2u8
    } else {
        3u8
    }) && typed.contains(all[i]) by {
        if i < la {
            assert(all[i] == a[i]);
        } else if i < lb {
            assert(all[i] == b[i - la]);
        } else if i < lc {
            assert(all[i] == c[i - lb]);
        } else {
            assert(all[i] == d[i - lc]);
        }
    }
    assert forall|entry: Typed| #[trigger] all.contains(entry) <==> typed.contains(entry) by {
        if typed.contains(entry) {
            let k = typed.index_of(entry);
            assert(typed[k] == entry);
            if entry.1.rank() == 0 {
                assert(a.contains(entry));
                let i = a.index_of(entry);
                assert(all[i] == entry);
            } else if entry.1.rank() == 1 {
                assert(b.contains(entry));
                let i = b.index_of(entry);
                assert(all[la + i] == entry);
            } else if entry.1.rank() == 2 {
                assert(c.contains(entry));
                let i = c.index_of(entry);
                assert(all[lb + i] == entry);
            } else {
                assert(d.contains(entry));
                let i = d.index_of(entry);
                assert(all[lc + i] == entry);
            }
        }
    }
}

/// Whether an address stands among typed entries.
pub open spec fn lists(typed: Seq<Typed>, address: MultiAddr) -> bool {
    exists|i: int| 0 <= i < typed.len() && (#[trigger] typed[i]).0 == address
}

proof fn lemma_offered_lists(typed: Seq<Typed>, entry: Typed, address: MultiAddr)
    ensures
        lists(offered(typed, entry), address) <==> lists(typed, address) || entry.0 == address,
{
    lemma_position(typed, entry.0);
    let after = offered(typed, entry);
    if lists(typed, address) {
        let i = choose|i: int| 0 <= i < typed.len() && (#[trigger] typed[i]).0 == address;
        assert(after[i].0 == address);
    }
    if entry.0 == address {
        match position(typed, entry.0) {
            Some(i) => {
                assert(after[i].0 == address);
            },
            None => {
                assert(after[typed.len() as int].0 == address);
            },
        }
    }
    if lists(after, address) && entry.0 != address {
        let i = choose|i: int| 0 <= i < after.len() && (#[trigger] after[i]).0 == address;
        assert(typed[i].0 == address);
    }
}

proof fn lemma_all_offered_lists(typed: Seq<Typed>, entries: Seq<Typed>, address: MultiAddr)
    ensures
        lists(all_offered(typed, entries), address) <==> lists(typed, address) || lists(
            entries,
            address,
        ),
    decreases entries.len(),
{
    if entries.len() > 0 {
        let rest = entries.drop_last();
        lemma_all_offered_lists(typed, rest, address);
        lemma_offered_lists(all_offered(typed, rest), entries.last(), address);
        if lists(entries, address) {
            let i = choose|i: int| 0 <= i < entries.len() && (#[trigger] entries[i]).0 == address;
            if i < rest.len() {
                assert(rest[i].0 == address);
            }
        }
        if lists(rest, address) {
            let i = choose|i: int| 0 <= i < rest.len() && (#[trigger] rest[i]).0 == address;
            assert(entries[i].0 == address);
        }
        if entries.last().0 == address {
            assert(entries[entries.len() - 1].0 == address);
        }
    }
}

/// Merging two hints gives the union of their addresses, best tags first.
pub proof fn law_merged_hints_unite(left: NodeView, right: NodeView, address: MultiAddr)
    requires
        left.generation() == 0,
        right.generation() == 0,
    ensures
        left.merged(right).addresses.contains(address) <==> left.addresses.contains(address)
            || right.addresses.contains(address),
        by_priority(
            Seq::new(
                left.merged(right).addresses.len(),
                |i: int| (left.merged(right).addresses[i], left.merged(right).types[i]),
            ),
        ),
        left.merged(right).addresses.len() == left.merged(right).types.len(),
{
    let offers = all_offered(left.typed(), right.typed());
    let united = sorted(offers);
    let merged = left.merged(right);
    law_sorting_keeps_entries(offers);
    lemma_all_offered_lists(left.typed(), right.typed(), address);
    assert(Seq::new(merged.addresses.len(), |i: int| (merged.addresses[i], merged.types[i]))
        =~= united);
    lemma_typed_lists(left, address);
    lemma_typed_lists(right, address);
    if merged.addresses.contains(address) {
        let i = merged.addresses.index_of(address);
        assert(united[i].0 == address);
        assert(united.contains(united[i]));
        let k = offers.index_of(united[i]);
        assert(offers[k].0 == address);
    }
    if lists(offers, address) {
        let k = choose|k: int| 0 <= k < offers.len() && (#[trigger] offers[k]).0 == address;
        assert(offers.contains(offers[k]));
        assert(united.contains(offers[k]));
        let i = united.index_of(offers[k]);
        assert(merged.addresses[i] == address);
    }
}

proof fn lemma_typed_lists(node: NodeView, address: MultiAddr)
    ensures
        lists(node.typed(), address) <==> node.addresses.contains(address),
{
    if lists(node.typed(), address) {
        let i = choose|i: int| 0 <= i < node.typed().len() && (#[trigger] node.typed()[i]).0
            == address;
        assert(node.addresses[i] == address);
    }
    if node.addresses.contains(address) {
        let i = node.addresses.index_of(address);
        assert(node.typed()[i].0 == address);
    }
}

/// A hint changes neither the addresses nor the authority of a record that the
/// owner has proven, whatever sequence it advertises.
pub proof fn law_hints_change_no_proven_view(proven: NodeView, hint: NodeView)
    requires
        proven.generation() > 0,
        hint.generation() == 0,
    ensures
        proven.merged(hint).addresses == proven.addresses,
        proven.merged(hint).types == proven.types,
        proven.merged(hint).authority == proven.authority,
        proven.merged(hint).publish_seq() == proven.publish_seq(),
{
}

/// A signed publication has more authority than any report over the owner's
/// connection, also where that report has the higher sequence.
pub proof fn law_signatures_outrank_connections(
    signed: NodeView,
    record: SignedView,
    connected: NodeView,
    sequence: u64,
)
    requires
        signed.authority == Some(AuthorityView::Signed(record)),
        connected.authority == Some(AuthorityView::AuthenticatedOwner(sequence)),
    ensures
        signed.outranks(connected),
        !connected.outranks(signed),
        signed.merged(connected).addresses == signed.addresses,
        connected.merged(signed).addresses == signed.addresses,
        connected.merged(signed).authority == signed.authority,
{
}

/// A merged record has at least the authority of each of the two, and where
/// their authority differs the order of merging does not matter.
pub proof fn law_merge_keeps_the_most_authority(left: NodeView, right: NodeView)
    ensures
        !left.outranks(left.merged(right)),
        !right.outranks(left.merged(right)),
        left.outranks(right) || right.outranks(left) ==> {
            &&& left.merged(right).addresses == right.merged(left).addresses
            &&& left.merged(right).types == right.merged(left).types
            &&& left.merged(right).authority == right.merged(left).authority
        },
{
}

/// A publication that is older than the accepted one, or the same one again,
/// changes no address.
pub proof fn law_replays_change_nothing(accepted: NodeView, replayed: NodeView)
    requires
        accepted.generation() == 2,
        replayed.generation() == 2,
        replayed.version() <= accepted.version(),
    ensures
        accepted.merged(replayed).addresses == accepted.addresses,
        accepted.merged(replayed).types == accepted.types,
        accepted.merged(replayed).authority == accepted.authority,
{
}

/// Whether an address stands among typed entries with a tag that is at least as
/// good.
spec fn covers(typed: Seq<Typed>, entry: Typed) -> bool {
    exists|i: int|
        0 <= i < typed.len() && (#[trigger] typed[i]).0 == entry.0 && typed[i].1.rank()
            <= entry.1.rank()
}

/// Whether each entry has a tag that its address can have.
spec fn well_tagged(typed: Seq<Typed>) -> bool {
    forall|i: int|
        0 <= i < typed.len() ==> AddressType::tag((#[trigger] typed[i]).0, typed[i].1)
            == typed[i].1
}

proof fn lemma_offered_covers(typed: Seq<Typed>, entry: Typed, other: Typed)
    requires
        covers(typed, other) || other == entry,
    ensures
        covers(offered(typed, entry), other),
{
    lemma_position(typed, entry.0);
    let after = offered(typed, entry);
    if covers(typed, other) {
        let i = choose|i: int|
            0 <= i < typed.len() && (#[trigger] typed[i]).0 == other.0 && typed[i].1.rank()
                <= other.1.rank();
        assert(after[i].0 == other.0);
    } else {
        match position(typed, entry.0) {
            Some(i) => {
                assert(after[i].0 == other.0);
            },
            None => {
                assert(after[typed.len() as int].0 == other.0);
            },
        }
    }
}

proof fn lemma_all_offered_cover(typed: Seq<Typed>, entries: Seq<Typed>, other: Typed)
    requires
        entries.contains(other),
    ensures
        covers(all_offered(typed, entries), other),
    decreases entries.len(),
{
    let rest = entries.drop_last();
    let k = entries.index_of(other);
    if k < rest.len() {
        assert(rest[k] == other);
        lemma_all_offered_cover(typed, rest, other);
    }
    lemma_offered_covers(all_offered(typed, rest), entries.last(), other);
}

proof fn lemma_all_offered_tagged(typed: Seq<Typed>, entries: Seq<Typed>)
    requires
        well_tagged(typed),
        well_tagged(entries),
    ensures
        well_tagged(all_offered(typed, entries)),
    decreases entries.len(),
{
    if entries.len() > 0 {
        lemma_all_offered_tagged(typed, entries.drop_last());
        lemma_position(all_offered(typed, entries.drop_last()), entries.last().0);
        assert(AddressType::tag(entries[entries.len() - 1].0, entries[entries.len() - 1].1)
            == entries[entries.len() - 1].1);
    }
}

proof fn lemma_covered_offers_change_nothing(typed: Seq<Typed>, entries: Seq<Typed>)
    requires
        by_priority(typed),
        forall|i: int| 0 <= i < entries.len() ==> covers(typed, #[trigger] entries[i]),
    ensures
        all_offered(typed, entries) == typed,
    decreases entries.len(),
{
    if entries.len() > 0 {
        let rest = entries.drop_last();
        assert forall|i: int| 0 <= i < rest.len() implies covers(typed, #[trigger] rest[i]) by {
            assert(covers(typed, entries[i]));
        }
        lemma_covered_offers_change_nothing(typed, rest);
        let entry = entries[entries.len() - 1];
        assert(covers(typed, entry));
        let i = choose|i: int|
            0 <= i < typed.len() && (#[trigger] typed[i]).0 == entry.0 && typed[i].1.rank()
                <= entry.1.rank();
        lemma_position(typed, entry.0);
        assert(typed[i].0 == entry.0);
    }
}

proof fn lemma_of_rank_last(typed: Seq<Typed>, rank: u8)
    requires
        typed.len() > 0,
    ensures
        of_rank(typed, rank) == if typed.last().1.rank() == rank {
            of_rank(typed.drop_last(), rank).push(typed.last())
        } else {
            of_rank(typed.drop_last(), rank)
        },
{
    reveal(Seq::filter);
}

proof fn lemma_nothing_above(typed: Seq<Typed>, rank: u8)
    requires
        typed.len() > 0,
        by_priority(typed),
        typed.last().1.rank() < rank,
    ensures
        of_rank(typed.drop_last(), rank) == Seq::<Typed>::empty(),
{
    let rest = typed.drop_last();
    lemma_of_rank(rest, rank);
    if of_rank(rest, rank).len() > 0 {
        let first = of_rank(rest, rank)[0];
        let k = rest.index_of(first);
        assert(typed[k] == first);
        assert(typed[typed.len() - 1] == typed.last());
    }
    assert(of_rank(rest, rank) =~= Seq::<Typed>::empty());
}

/// Four lists, one after the other.
#[verifier::opaque]
spec fn joined(a: Seq<Typed>, b: Seq<Typed>, c: Seq<Typed>, d: Seq<Typed>) -> Seq<Typed> {
    a + b + c + d
}

proof fn lemma_push_in_place(a: Seq<Typed>, b: Seq<Typed>, c: Seq<Typed>, d: Seq<Typed>, x: Typed)
    ensures
        d.len() == 0 && c.len() == 0 && b.len() == 0 ==> joined(a.push(x), b, c, d) == joined(
            a,
            b,
            c,
            d,
        ).push(x),
        d.len() == 0 && c.len() == 0 ==> joined(a, b.push(x), c, d) == joined(a, b, c, d).push(x),
        d.len() == 0 ==> joined(a, b, c.push(x), d) == joined(a, b, c, d).push(x),
        joined(a, b, c, d.push(x)) == joined(a, b, c, d).push(x),
{
    reveal(joined);
    if d.len() == 0 {
        assert(a + b + c.push(x) + d =~= (a + b + c + d).push(x));
        if c.len() == 0 {
            assert(a + b.push(x) + c + d =~= (a + b + c + d).push(x));
            if b.len() == 0 {
                assert(a.push(x) + b + c + d =~= (a + b + c + d).push(x));
            }
        }
    }
    assert(a + b + c + d.push(x) =~= (a + b + c + d).push(x));
}

/// The entries of each rank, one rank after the other.
#[verifier::opaque]
spec fn ranked(typed: Seq<Typed>) -> Seq<Typed> {
    joined(of_rank(typed, 0), of_rank(typed, 1), of_rank(typed, 2), of_rank(typed, 3))
}

proof fn lemma_ranked_is_sorted(typed: Seq<Typed>)
    ensures
        ranked(typed) == sorted(typed),
{
    reveal(ranked);
    reveal(joined);
}

proof fn lemma_ranked_push(typed: Seq<Typed>)
    requires
        typed.len() > 0,
        typed.last().1.rank() < 1 ==> of_rank(typed.drop_last(), 1).len() == 0,
        typed.last().1.rank() < 2 ==> of_rank(typed.drop_last(), 2).len() == 0,
        typed.last().1.rank() < 3 ==> of_rank(typed.drop_last(), 3).len() == 0,
    ensures
        ranked(typed) == ranked(typed.drop_last()).push(typed.last()),
{
    reveal(ranked);
    let rest = typed.drop_last();
    lemma_of_rank_last(typed, 0);
    lemma_of_rank_last(typed, 1);
    lemma_of_rank_last(typed, 2);
    lemma_of_rank_last(typed, 3);
    lemma_push_in_place(
        of_rank(rest, 0),
        of_rank(rest, 1),
        of_rank(rest, 2),
        of_rank(rest, 3),
        typed.last(),
    );
}

proof fn lemma_fewer_by_priority(typed: Seq<Typed>)
    requires
        typed.len() > 0,
        by_priority(typed),
    ensures
        by_priority(typed.drop_last()),
{
}

proof fn lemma_nothing_sorted(typed: Seq<Typed>)
    requires
        typed.len() == 0,
    ensures
        sorted(typed) == typed,
{
    law_sorting_keeps_entries(typed);
    if sorted(typed).len() > 0 {
        assert(sorted(typed).contains(sorted(typed)[0]));
    }
    assert(sorted(typed) =~= typed);
}

proof fn lemma_ranked_stays(typed: Seq<Typed>)
    requires
        by_priority(typed),
    ensures
        ranked(typed) == typed,
    decreases typed.len(),
{
    if typed.len() == 0 {
        lemma_nothing_sorted(typed);
        lemma_ranked_is_sorted(typed);
    } else {
        lemma_fewer_by_priority(typed);
        lemma_ranked_stays(typed.drop_last());
        if typed.last().1.rank() < 1 {
            lemma_nothing_above(typed, 1);
        }
        if typed.last().1.rank() < 2 {
            lemma_nothing_above(typed, 2);
        }
        if typed.last().1.rank() < 3 {
            lemma_nothing_above(typed, 3);
        }
        lemma_ranked_push(typed);
        assert(typed.drop_last().push(typed.last()) =~= typed);
    }
}

proof fn lemma_sorted_tagged(typed: Seq<Typed>)
    requires
        well_tagged(typed),
    ensures
        well_tagged(sorted(typed)),
{
    law_sorting_keeps_entries(typed);
    let united = sorted(typed);
    assert forall|i: int| 0 <= i < united.len() implies AddressType::tag(
        (#[trigger] united[i]).0,
        united[i].1,
    ) == united[i].1 by {
        assert(united.contains(united[i]));
        let k = typed.index_of(united[i]);
        assert(typed[k] == united[i]);
    }
}

proof fn lemma_sorted_covers(typed: Seq<Typed>, entry: Typed)
    requires
        covers(typed, entry),
    ensures
        covers(sorted(typed), entry),
{
    law_sorting_keeps_entries(typed);
    let k = choose|k: int|
        0 <= k < typed.len() && (#[trigger] typed[k]).0 == entry.0 && typed[k].1.rank()
            <= entry.1.rank();
    assert(sorted(typed).contains(typed[k]));
    let j = sorted(typed).index_of(typed[k]);
    assert(sorted(typed)[j].0 == entry.0);
}

proof fn lemma_uniting_again(typed: Seq<Typed>, entries: Seq<Typed>)
    requires
        well_tagged(typed),
        well_tagged(entries),
    ensures
        well_tagged(sorted(all_offered(typed, entries))),
        sorted(all_offered(sorted(all_offered(typed, entries)), entries)) == sorted(
            all_offered(typed, entries),
        ),
{
    let offers = all_offered(typed, entries);
    let united = sorted(offers);
    lemma_all_offered_tagged(typed, entries);
    lemma_sorted_tagged(offers);
    assert forall|i: int| 0 <= i < entries.len() implies covers(united, #[trigger] entries[i]) by {
        lemma_all_offered_cover(typed, entries, entries[i]);
        lemma_sorted_covers(offers, entries[i]);
    }
    assert(by_priority(united)) by {
        law_sorting_keeps_entries(offers);
    }
    lemma_covered_offers_change_nothing(united, entries);
    lemma_ranked_stays(united);
    lemma_ranked_is_sorted(united);
}

/// Merging the same record again changes nothing.
pub proof fn law_merging_again_changes_nothing(left: NodeView, right: NodeView)
    ensures
        left.merged(right).merged(right) == left.merged(right),
{
    if !right.outranks(left) && left.generation() == 0 {
        let once = left.merged(right);
        assert(well_tagged(left.typed()));
        assert(well_tagged(right.typed()));
        lemma_uniting_again(left.typed(), right.typed());
        assert(once.typed() =~= sorted(all_offered(left.typed(), right.typed())));
    }
}

/// A relay address comes before a direct one, that before an unverified one, and
/// a local one comes last.
pub proof fn law_relays_come_first(better: AddressType, worse: AddressType)
    ensures
        AddressType::Relay.rank() < AddressType::Direct.rank() < AddressType::Unverified.rank()
            < AddressType::Lan.rank(),
        better.rank() == worse.rank() ==> better == worse,
        better is Relay ==> better.rank() <= worse.rank(),
        worse is Lan ==> better.rank() <= worse.rank(),
{
}

/// Each address of a record is listed once, in its place. One of local scope is
/// tagged so whatever was advertised, another one as advertised, and one without
/// a tag as unverified.
pub proof fn law_tags_follow_the_address(node: NodeView, index: int)
    requires
        0 <= index < node.addresses.len(),
    ensures
        node.typed().len() == node.addresses.len(),
        node.typed()[index].0 == node.addresses[index],
        node.addresses[index].socket_addr.ip.lan() ==> node.typed()[index].1 is Lan,
        !node.addresses[index].socket_addr.ip.lan() && index < node.types.len()
            ==> node.typed()[index].1 == node.types[index],
        !node.addresses[index].socket_addr.ip.lan() && index >= node.types.len()
            ==> node.typed()[index].1 is Unverified,
{
}

proof fn lemma_rank_of_rank(typed: Seq<Typed>, rank: u8, other: u8)
    ensures
        of_rank(of_rank(typed, rank), other) == if rank == other {
            of_rank(typed, rank)
        } else {
            Seq::<Typed>::empty()
        },
    decreases typed.len(),
{
    reveal(Seq::filter);
    if typed.len() > 0 {
        lemma_rank_of_rank(typed.drop_last(), rank, other);
        lemma_of_rank_last(typed, rank);
        if typed.last().1.rank() == rank {
            let before = of_rank(typed.drop_last(), rank);
            assert(of_rank(typed, rank).drop_last() =~= before);
            lemma_of_rank_last(of_rank(typed, rank), other);
        }
    }
}

proof fn lemma_rank_of_joined(
    a: Seq<Typed>,
    b: Seq<Typed>,
    c: Seq<Typed>,
    d: Seq<Typed>,
    rank: u8,
)
    ensures
        of_rank(joined(a, b, c, d), rank) == joined(
            of_rank(a, rank),
            of_rank(b, rank),
            of_rank(c, rank),
            of_rank(d, rank),
        ),
{
    reveal(joined);
    let keep = |entry: Typed| entry.1.rank() == rank;
    Seq::filter_distributes_over_add(a + b + c, d, keep);
    Seq::filter_distributes_over_add(a + b, c, keep);
    Seq::filter_distributes_over_add(a, b, keep);
}

proof fn lemma_one_of_four(x: Seq<Typed>)
    ensures
        ({
            let none = Seq::<Typed>::empty();
            &&& joined(x, none, none, none) == x
            &&& joined(none, x, none, none) == x
            &&& joined(none, none, x, none) == x
            &&& joined(none, none, none, x) == x
        }),
{
    reveal(joined);
    let none = Seq::<Typed>::empty();
    assert(x + none + none + none =~= x);
    assert(none + x + none + none =~= x);
    assert(none + none + x + none =~= x);
    assert(none + none + none + x =~= x);
}

proof fn lemma_ranked_is_stable(typed: Seq<Typed>, rank: u8)
    requires
        rank < 4,
    ensures
        of_rank(ranked(typed), rank) == of_rank(typed, rank),
{
    reveal(ranked);
    lemma_rank_of_joined(
        of_rank(typed, 0),
        of_rank(typed, 1),
        of_rank(typed, 2),
        of_rank(typed, 3),
        rank,
    );
    lemma_rank_of_rank(typed, 0, rank);
    lemma_rank_of_rank(typed, 1, rank);
    lemma_rank_of_rank(typed, 2, rank);
    lemma_rank_of_rank(typed, 3, rank);
    lemma_one_of_four(of_rank(typed, rank));
}

proof fn lemma_filter_by_tag(left: Seq<Typed>, right: Seq<Typed>, kind: AddressType)
    requires
        of_rank(left, kind.rank()) == of_rank(right, kind.rank()),
    ensures
        left.filter(|entry: Typed| entry.1 == kind) == right.filter(
            |entry: Typed| entry.1 == kind,
        ),
{
    let rank = kind.rank();
    let keep = |entry: Typed| entry.1.rank() == rank;
    let same = |entry: Typed| entry.1 == kind;
    assert forall|entry: Typed| #[trigger] keep(entry) == same(entry) by {}
    assert(keep =~= same);
}

/// Sorting keeps the order of the entries with one tag, and their number.
pub proof fn law_sorting_is_stable(typed: Seq<Typed>, result: Seq<Typed>, kind: AddressType)
    requires
        result == sorted(typed),
    ensures
        result.filter(|entry: Typed| entry.1 == kind) == typed.filter(
            |entry: Typed| entry.1 == kind,
        ),
{
    assert(of_rank(result, kind.rank()) == of_rank(typed, kind.rank())) by {
        lemma_ranked_is_sorted(typed);
        lemma_ranked_is_stable(typed, kind.rank());
    }
    lemma_filter_by_tag(result, typed, kind);
}

/// A record without authority, or with that of a connection without a sequence,
/// is a hint; the connection of the owner with a sequence stands above a hint, and
/// a signature above both, whatever the sequences.
pub proof fn law_authority_has_three_levels(
    node: NodeView,
    sequence: u64,
    quic_sequence: u64,
    publication: SignedView,
)
    ensures
        node.authority is None ==> node.generation() == 0 && node.publish_seq() == 0,
        node.authority == Some(AuthorityView::AuthenticatedOwner(0)) ==> node.generation() == 0,
        node.authority == Some(AuthorityView::AuthenticatedOwner(sequence)) && sequence > 0
            ==> node.generation() == 1 && node.version() == sequence && node.publish_seq()
            == sequence,
        node.authority == Some(AuthorityView::Signed(publication)) ==> node.generation() == 2
            && node.version() == publication.sequence && node.publish_seq()
            == publication.sequence,
        node.authority == Some(AuthorityView::Combined { quic_sequence, publication })
            ==> node.generation() == 2 && node.version() == publication.sequence
            && node.publish_seq() >= publication.sequence && node.publish_seq() >= quic_sequence
            && (node.publish_seq() == publication.sequence || node.publish_seq() == quic_sequence),
{
}

/// More authority is a strict order: nothing outranks itself, no two outrank each
/// other, and what neither outranks is of one level and one sequence.
pub proof fn law_authority_is_ordered(first: NodeView, second: NodeView, third: NodeView)
    ensures
        !first.outranks(first),
        first.outranks(second) ==> !second.outranks(first),
        first.outranks(second) && second.outranks(third) ==> first.outranks(third),
        !first.outranks(second) && !second.outranks(first) <==> first.generation()
            == second.generation() && first.version() == second.version(),
        first.generation() > second.generation() ==> first.outranks(second),
        first.generation() == second.generation() && first.version() > second.version()
            ==> first.outranks(second),
{
}

/// A merged record stays that of its peer and has the better reliability of the
/// two. Where the other one has more authority, its addresses, tags and authority
/// are taken as they are, with its sequence in the metadata.
pub proof fn law_merges_take_the_better_publication(left: NodeView, right: NodeView)
    ensures
        left.merged(right).peer == left.peer,
        left.merged(right).reliability >= left.reliability,
        left.merged(right).reliability >= right.reliability,
        left.merged(right).reliability == left.reliability || left.merged(right).reliability
            == right.reliability,
        right.generation() > left.generation() || (right.generation() == left.generation()
            && right.version() > left.version()) ==> {
            &&& left.merged(right).addresses == right.addresses
            &&& left.merged(right).types == right.types
            &&& left.merged(right).authority == right.authority
            &&& left.merged(right).distance == sequence_metadata(right.publish_seq())
        },
        left.generation() > 0 && (left.generation() > right.generation() || (left.generation()
            == right.generation() && left.version() >= right.version())) ==> {
            &&& left.merged(right).addresses == left.addresses
            &&& left.merged(right).types == left.types
            &&& left.merged(right).authority == left.authority
            &&& left.merged(right).distance == sequence_metadata(left.publish_seq())
        },
        left.generation() == 0 && right.generation() == 0 && right.version() <= left.version()
            ==> left.merged(right).authority == left.authority && left.merged(right).distance
            == left.distance,
{
}

proof fn lemma_offers_keep_cover(typed: Seq<Typed>, entries: Seq<Typed>, other: Typed)
    requires
        covers(typed, other),
    ensures
        covers(all_offered(typed, entries), other),
    decreases entries.len(),
{
    if entries.len() > 0 {
        lemma_offers_keep_cover(typed, entries.drop_last(), other);
        lemma_offered_covers(all_offered(typed, entries.drop_last()), entries.last(), other);
    }
}

proof fn lemma_offers_invent_nothing(typed: Seq<Typed>, entries: Seq<Typed>, i: int)
    requires
        0 <= i < all_offered(typed, entries).len(),
    ensures
        typed.contains(all_offered(typed, entries)[i]) || entries.contains(
            all_offered(typed, entries)[i],
        ),
    decreases entries.len(),
{
    if entries.len() > 0 {
        let rest = entries.drop_last();
        let before = all_offered(typed, rest);
        lemma_position(before, entries.last().0);
        assert(entries[entries.len() - 1] == entries.last());
        let after = all_offered(typed, entries);
        if i < before.len() && after[i] == before[i] {
            lemma_offers_invent_nothing(typed, rest, i);
            if rest.contains(before[i]) {
                let k = rest.index_of(before[i]);
                assert(entries[k] == before[i]);
            }
        }
    }
}

/// Where two hints are merged, every entry of the result is an entry of one of
/// them, and each address has a tag at least as good as either gave it.
pub proof fn law_united_hints_take_the_better_tag(left: NodeView, right: NodeView, entry: Typed)
    requires
        left.generation() == 0,
        right.generation() == 0,
        right.version() <= left.version(),
    ensures
        ({
            let united = left.merged(right);
            let listed = Seq::new(
                united.addresses.len(),
                |i: int| (united.addresses[i], united.types[i]),
            );
            &&& listed.contains(entry) ==> left.typed().contains(entry) || right.typed().contains(
                entry,
            )
            &&& left.typed().contains(entry) || right.typed().contains(entry) ==> exists|i: int|
                0 <= i < listed.len() && (#[trigger] listed[i]).0 == entry.0 && listed[i].1.rank()
                    <= entry.1.rank()
        }),
{
    let offers = all_offered(left.typed(), right.typed());
    let united = left.merged(right);
    let listed = Seq::new(united.addresses.len(), |i: int| (united.addresses[i], united.types[i]));
    law_sorting_keeps_entries(offers);
    assert(listed =~= sorted(offers));
    if listed.contains(entry) {
        assert(offers.contains(entry));
        let i = offers.index_of(entry);
        lemma_offers_invent_nothing(left.typed(), right.typed(), i);
    }
    if left.typed().contains(entry) {
        let i = left.typed().index_of(entry);
        assert(covers(left.typed(), entry));
        lemma_offers_keep_cover(left.typed(), right.typed(), entry);
    } else if right.typed().contains(entry) {
        lemma_all_offered_cover(left.typed(), right.typed(), entry);
    }
    if left.typed().contains(entry) || right.typed().contains(entry) {
        let k = choose|k: int|
            0 <= k < offers.len() && (#[trigger] offers[k]).0 == entry.0 && offers[k].1.rank()
                <= entry.1.rank();
        assert(offers.contains(offers[k]));
        assert(listed.contains(offers[k]));
        let i = listed.index_of(offers[k]);
        assert(listed[i].0 == entry.0);
    }
}

/// The metadata of a record carries a publication sequence that is not zero: the
/// eight bytes behind the marker spell it, high byte first.
pub proof fn law_metadata_spells_the_sequence(sequence: u64)
    ensures
        sequence == 0 <==> sequence_metadata(sequence) is None,
        sequence_metadata(sequence) matches Some(bytes) ==> {
            &&& bytes.len() == 16
            &&& bytes.take(8) == seq![0x50u8, 0x55, 0x42, 0x53, 0x45, 0x51, 0x30, 0x31]
            &&& key_value(bytes.subrange(8, 12)) * 0x1_0000_0000 + key_value(
                bytes.subrange(12, 16),
            ) == sequence
        },
{
    if sequence > 0 {
        let bytes = sequence_metadata(sequence)->0;
        let high = (sequence / 0x1_0000_0000) as nat;
        let low = (sequence % 0x1_0000_0000) as nat;
        lemma_be_bytes(high);
        lemma_be_bytes(low);
        assert(bytes.take(8) =~= sequence_marker());
        assert(bytes.subrange(8, 12) =~= be_bytes(high));
        assert(bytes.subrange(12, 16) =~= be_bytes(low));
        assert(be_bytes64(sequence as nat).len() == 8);
    }
}

/// Addresses are handed out for dialling with the better tags first, and none is
/// lost or made up.
pub proof fn law_dialling_order_goes_by_tag(node: NodeView, left: int, right: int)
    requires
        0 <= left < right < sorted(node.typed()).len(),
    ensures
        sorted(node.typed())[left].1.rank() <= sorted(node.typed())[right].1.rank(),
        entry_addresses(sorted(node.typed()))[left] == sorted(node.typed())[left].0,
        forall|address: MultiAddr| #[trigger]
            entry_addresses(sorted(node.typed())).contains(address) <==> node.addresses.contains(
                address,
            ),
{
    let all = sorted(node.typed());
    law_sorting_keeps_entries(node.typed());
    assert forall|address: MultiAddr| #[trigger] entry_addresses(all).contains(address)
        <==> node.addresses.contains(address) by {
        if entry_addresses(all).contains(address) {
            let i = entry_addresses(all).index_of(address);
            let entry = all[i];
            assert(all.contains(entry));
            assert(node.typed().contains(entry));
            let k = node.typed().index_of(entry);
            assert(node.addresses[k] == address);
        }
        if node.addresses.contains(address) {
            let k = node.addresses.index_of(address);
            let entry = node.typed()[k];
            assert(node.typed().contains(entry));
            assert(all.contains(entry));
            let i = all.index_of(entry);
            assert(entry_addresses(all)[i] == address);
        }
    }
}

} // verus!
