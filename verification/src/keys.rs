//! 256-bit identities, their XOR metric, and their hexadecimal text.

use vstd::prelude::*;

verus! {

/// Canonical 256-bit DHT key or peer identity.
pub type LookupKey = [u8; 32];

/// The unsigned integer that a byte string spells in big-endian order.
pub open spec fn key_value(bytes: Seq<u8>) -> nat
    decreases bytes.len(),
{
    if bytes.len() == 0 {
        0
    } else {
        256 * key_value(bytes.drop_last()) + bytes.last() as nat
    }
}

/// Bytewise exclusive or of two strings of equal length.
pub open spec fn xor_bytes(left: Seq<u8>, right: Seq<u8>) -> Seq<u8> {
    Seq::new(left.len(), |i: int| left[i] ^ right[i])
}

/// Unsigned XOR distance between a peer and a target.
pub open spec fn distance(peer: Seq<u8>, target: Seq<u8>) -> nat {
    key_value(xor_bytes(peer, target))
}

proof fn lemma_value_order(a: Seq<u8>, b: Seq<u8>, i: int, k: int)
    requires
        a.len() == b.len(),
        0 <= i < k <= a.len(),
        a.take(i) =~= b.take(i),
        a[i] < b[i],
    ensures
        key_value(a.take(k)) < key_value(b.take(k)),
    decreases k,
{
    assert(a.take(k).drop_last() =~= a.take(k - 1));
    assert(b.take(k).drop_last() =~= b.take(k - 1));
    if k - 1 > i {
        lemma_value_order(a, b, i, k - 1);
    }
}

/// Strings of equal length that spell the same integer are the same string.
pub proof fn lemma_key_value_injective(a: Seq<u8>, b: Seq<u8>)
    requires
        a.len() == b.len(),
        key_value(a) == key_value(b),
    ensures
        a == b,
    decreases a.len(),
{
    if a.len() > 0 {
        lemma_key_value_injective(a.drop_last(), b.drop_last());
        assert(a =~= a.drop_last().push(a.last()));
        assert(b =~= b.drop_last().push(b.last()));
    } else {
        assert(a =~= b);
    }
}

proof fn lemma_xor_cancel(x: u8, y: u8, t: u8)
    by (bit_vector)
    requires
        x ^ t == y ^ t,
    ensures
        x == y,
{
}

proof fn lemma_xor_self(x: u8)
    by (bit_vector)
    ensures
        x ^ x == 0u8,
{
}

proof fn lemma_xor_commutes(x: u8, y: u8)
    by (bit_vector)
    ensures
        x ^ y == y ^ x,
{
}

proof fn lemma_zero_value(s: Seq<u8>)
    requires
        forall|i: int| 0 <= i < s.len() ==> s[i] == 0u8,
    ensures
        key_value(s) == 0,
    decreases s.len(),
{
    if s.len() > 0 {
        lemma_zero_value(s.drop_last());
    }
}

/// Two peers at the same distance from a target are the same peer, so the XOR
/// order has no ties between distinct identities.
pub proof fn lemma_distance_injective(a: Seq<u8>, b: Seq<u8>, target: Seq<u8>)
    requires
        a.len() == b.len(),
        b.len() == target.len(),
        distance(a, target) == distance(b, target),
    ensures
        a == b,
{
    lemma_key_value_injective(xor_bytes(a, target), xor_bytes(b, target));
    assert forall|i: int| 0 <= i < a.len() implies a[i] == b[i] by {
        assert(xor_bytes(a, target)[i] == xor_bytes(b, target)[i]);
        lemma_xor_cancel(a[i], b[i], target[i]);
    }
    assert(a =~= b);
}

/// The first byte in which two keys differ decides which is closer: the one whose
/// byte is closer to the target's.
pub proof fn law_the_first_difference_decides(
    a: Seq<u8>,
    b: Seq<u8>,
    target: Seq<u8>,
    index: int,
)
    requires
        a.len() == target.len(),
        b.len() == target.len(),
        0 <= index < target.len(),
        forall|i: int| 0 <= i < index ==> a[i] == b[i],
        a[index] ^ target[index] < b[index] ^ target[index],
    ensures
        distance(a, target) < distance(b, target),
{
    let left = xor_bytes(a, target);
    let right = xor_bytes(b, target);
    assert(left.take(index) =~= right.take(index));
    lemma_value_order(left, right, index, target.len() as int);
    assert(left.take(target.len() as int) =~= left);
    assert(right.take(target.len() as int) =~= right);
}

/// A key is at distance zero from itself and from no other key, and distance
/// does not depend on the direction in which it is measured.
pub proof fn law_distance_is_symmetric(a: Seq<u8>, b: Seq<u8>)
    requires
        a.len() == b.len(),
    ensures
        distance(a, b) == distance(b, a),
        distance(a, b) == 0 <==> a == b,
{
    assert(xor_bytes(a, b) =~= xor_bytes(b, a)) by {
        assert forall|i: int| 0 <= i < a.len() implies a[i] ^ b[i] == b[i] ^ a[i] by {
            lemma_xor_commutes(a[i], b[i]);
        }
    }
    assert forall|i: int| 0 <= i < b.len() implies xor_bytes(b, b)[i] == 0u8 by {
        lemma_xor_self(b[i]);
    }
    lemma_zero_value(xor_bytes(b, b));
    if distance(a, b) == 0 {
        lemma_distance_injective(a, b, b);
    }
}

/// Whether two keys hold the same bytes.
pub fn same_key(left: &LookupKey, right: &LookupKey) -> (same: bool)
    ensures
        same == (*left == *right),
        same == (left@ == right@),
{
    let mut index: usize = 0;
    while index < 32
        invariant
            index <= 32,
            forall|i: int| 0 <= i < index ==> left@[i] == right@[i],
        decreases 32 - index,
    {
        if left[index] != right[index] {
            assert(left@[index as int] != right@[index as int]);
            return false;
        }
        index += 1;
    }
    assert(left@ =~= right@);
    assert(*left =~= *right);
    true
}

/// Whether the integer that `left` spells is below the one that `right` spells.
pub fn key_less(left: &LookupKey, right: &LookupKey) -> (less: bool)
    ensures
        less == (key_value(left@) < key_value(right@)),
{
    let mut index: usize = 0;
    while index < 32
        invariant
            index <= 32,
            forall|i: int| 0 <= i < index ==> left@[i] == right@[i],
        decreases 32 - index,
    {
        if left[index] != right[index] {
            let less = left[index] < right[index];
            proof {
                assert(left@.take(index as int) =~= right@.take(index as int));
                assert(left@.take(32) =~= left@);
                assert(right@.take(32) =~= right@);
                if less {
                    lemma_value_order(left@, right@, index as int, 32);
                } else {
                    lemma_value_order(right@, left@, index as int, 32);
                }
            }
            return less;
        }
        index += 1;
    }
    assert(left@ =~= right@);
    false
}

/// Compute the unsigned 256-bit XOR distance used for Kademlia ordering.
pub fn xor_distance(left: &LookupKey, right: &LookupKey) -> (result: LookupKey)
    ensures
        result@ == xor_bytes(left@, right@),
{
    let mut result: LookupKey = [0u8; 32];
    let mut index: usize = 0;
    while index < 32
        invariant
            index <= 32,
            forall|i: int| 0 <= i < index ==> result@[i] == left@[i] ^ right@[i],
        decreases 32 - index,
    {
        result[index] = left[index] ^ right[index];
        index += 1;
    }
    assert(result@ =~= xor_bytes(left@, right@));
    result
}

/// Whether `left` is strictly closer to `target` than `right` is.
pub fn closer(left: &LookupKey, right: &LookupKey, target: &LookupKey) -> (less: bool)
    ensures
        less == (distance(left@, target@) < distance(right@, target@)),
{
    let left_distance = xor_distance(left, target);
    let right_distance = xor_distance(right, target);
    key_less(&left_distance, &right_distance)
}

/// The bytes of each key of a list.
pub open spec fn key_views(keys: Seq<LookupKey>) -> Seq<Seq<u8>> {
    keys.map(|_i: int, k: LookupKey| k@)
}

/// Whether a list of keys is in strictly increasing distance from a target.
pub open spec fn ascending(keys: Seq<Seq<u8>>, target: Seq<u8>) -> bool {
    forall|i: int, j: int|
        0 <= i < j < keys.len() ==> distance(#[trigger] keys[i], target) < distance(
            #[trigger] keys[j],
            target,
        )
}

/// Whether a set holds only full-length keys.
pub open spec fn full_keys(members: Set<Seq<u8>>) -> bool {
    forall|k: Seq<u8>| #[trigger] members.contains(k) ==> k.len() == 32
}

/// Whether `keys` lists the `count` members of a set that are closest to a
/// target, closest first, or all members where there are fewer.
pub open spec fn is_closest(
    keys: Seq<Seq<u8>>,
    members: Set<Seq<u8>>,
    target: Seq<u8>,
    count: nat,
) -> bool {
    &&& ascending(keys, target)
    &&& forall|i: int| 0 <= i < keys.len() ==> members.contains(#[trigger] keys[i])
    &&& keys.len() == if count < members.len() { count } else { members.len() }
    &&& forall|k: Seq<u8>, i: int|
        0 <= i < keys.len() && #[trigger] members.contains(k) && !keys.contains(k) ==> distance(
            #[trigger] keys[i],
            target,
        ) < distance(k, target)
}

/// The `count` members of a set that are closest to a target, closest first.
pub open spec fn closest(members: Set<Seq<u8>>, target: Seq<u8>, count: nat) -> Seq<Seq<u8>> {
    choose|keys: Seq<Seq<u8>>| is_closest(keys, members, target, count)
}

proof fn lemma_closest_prefix(
    left: Seq<Seq<u8>>,
    right: Seq<Seq<u8>>,
    members: Set<Seq<u8>>,
    target: Seq<u8>,
    count: nat,
    i: int,
)
    requires
        full_keys(members),
        target.len() == 32,
        is_closest(left, members, target, count),
        is_closest(right, members, target, count),
        0 <= i < left.len(),
        forall|j: int| 0 <= j < i ==> left[j] == right[j],
    ensures
        distance(left[i], target) <= distance(right[i], target),
{
    let k = right[i];
    assert(members.contains(k));
    if left.contains(k) {
        let j = left.index_of(k);
        assert(left[j] == k);
        if j < i {
            assert(right[j] == k);
            assert(distance(right[j], target) < distance(right[i], target));
        }
    }
}

/// Only one list is the closest list of a set.
pub proof fn lemma_closest_unique(
    left: Seq<Seq<u8>>,
    right: Seq<Seq<u8>>,
    members: Set<Seq<u8>>,
    target: Seq<u8>,
    count: nat,
)
    requires
        full_keys(members),
        target.len() == 32,
        is_closest(left, members, target, count),
        is_closest(right, members, target, count),
    ensures
        left == right,
{
    assert forall|n: int| 0 <= n <= left.len() implies left.take(n) == right.take(n) by {
        lemma_closest_takes(left, right, members, target, count, n);
    }
    assert(left.take(left.len() as int) =~= left);
    assert(right.take(right.len() as int) =~= right);
}

proof fn lemma_closest_takes(
    left: Seq<Seq<u8>>,
    right: Seq<Seq<u8>>,
    members: Set<Seq<u8>>,
    target: Seq<u8>,
    count: nat,
    n: int,
)
    requires
        full_keys(members),
        target.len() == 32,
        is_closest(left, members, target, count),
        is_closest(right, members, target, count),
        0 <= n <= left.len(),
    ensures
        left.take(n) == right.take(n),
    decreases n,
{
    if n > 0 {
        lemma_closest_takes(left, right, members, target, count, n - 1);
        assert forall|j: int| 0 <= j < n - 1 implies left[j] == right[j] by {
            assert(left.take(n - 1)[j] == right.take(n - 1)[j]);
        }
        lemma_closest_prefix(left, right, members, target, count, n - 1);
        lemma_closest_prefix(right, left, members, target, count, n - 1);
        assert(members.contains(left[n - 1]));
        assert(members.contains(right[n - 1]));
        lemma_distance_injective(left[n - 1], right[n - 1], target);
        assert(left.take(n) =~= left.take(n - 1).push(left[n - 1]));
        assert(right.take(n) =~= right.take(n - 1).push(right[n - 1]));
    }
    assert(left.take(n) =~= right.take(n));
}

/// Put keys without duplicates into increasing distance from a target.
pub fn sort_by_distance(keys: Vec<LookupKey>, target: &LookupKey) -> (sorted: Vec<LookupKey>)
    requires
        key_views(keys@).no_duplicates(),
    ensures
        ascending(key_views(sorted@), target@),
        key_views(sorted@).to_set() == key_views(keys@).to_set(),
        key_views(sorted@).no_duplicates(),
        sorted@.len() == keys@.len(),
{
    let mut sorted: Vec<LookupKey> = Vec::new();
    let mut index: usize = 0;
    while index < keys.len()
        invariant
            index <= keys@.len(),
            key_views(keys@).no_duplicates(),
            sorted@.len() == index,
            ascending(key_views(sorted@), target@),
            forall|k: Seq<u8>| #[trigger]
                key_views(sorted@).contains(k) <==> key_views(keys@.take(index as int)).contains(k),
        decreases keys@.len() - index,
    {
        let key = keys[index];
        let ghost before = key_views(sorted@);
        let mut place: usize = 0;
        while place < sorted.len() && closer(&sorted[place], &key, target)
            invariant
                place <= sorted@.len(),
                before == key_views(sorted@),
                ascending(before, target@),
                forall|i: int| 0 <= i < place ==> distance(#[trigger] before[i], target@) < distance(
                    key@,
                    target@,
                ),
            decreases sorted@.len() - place,
        {
            assert(before[place as int] == sorted@[place as int]@);
            place += 1;
        }
        proof {
            assert(!before.contains(key@)) by {
                if before.contains(key@) {
                    let taken = key_views(keys@.take(index as int));
                    assert(taken.contains(key@));
                    let j = taken.index_of(key@);
                    assert(taken[j] == key@);
                    assert(key_views(keys@)[j] == key@);
                    assert(key_views(keys@)[index as int] == key@);
                }
            }
            assert forall|i: int| place <= i < before.len() implies distance(key@, target@)
                < distance(#[trigger] before[i], target@) by {
                let p = place as int;
                assert(before[p] == sorted@[p]@);
                if distance(before[p], target@) == distance(key@, target@) {
                    lemma_distance_injective(before[p], key@, target@);
                    assert(before.contains(key@));
                }
                if p < i {
                    assert(distance(before[p], target@) < distance(before[i], target@));
                }
            }
        }
        sorted.insert(place, key);
        proof {
            let after = key_views(sorted@);
            assert(after =~= before.insert(place as int, key@));
            assert forall|i: int, j: int| 0 <= i < j < after.len() implies distance(
                #[trigger] after[i],
                target@,
            ) < distance(#[trigger] after[j], target@) by {
                let p = place as int;
                if i < p {
                    assert(after[i] == before[i]);
                } else if i > p {
                    assert(after[i] == before[i - 1]);
                }
                if j < p {
                    assert(after[j] == before[j]);
                } else if j > p {
                    assert(after[j] == before[j - 1]);
                }
            }
            let taken = key_views(keys@.take(index as int));
            let taken1 = key_views(keys@.take(index as int + 1));
            assert(taken1 =~= taken.push(key@));
            assert forall|k: Seq<u8>| #[trigger] after.contains(k) <==> taken1.contains(k) by {
                if after.contains(k) {
                    let j = after.index_of(k);
                    if j == place {
                        assert(taken1[index as int] == k);
                    } else {
                        let j2 = if j < place { j } else { j - 1 };
                        assert(before[j2] == k);
                        assert(before.contains(k));
                        let t = taken.index_of(k);
                        assert(taken1[t] == k);
                    }
                }
                if taken1.contains(k) {
                    let j = taken1.index_of(k);
                    if j < index {
                        assert(taken[j] == k);
                        assert(before.contains(k));
                        let b = before.index_of(k);
                        let b2 = if b < place { b } else { b + 1 };
                        assert(after[b2] == k);
                    } else {
                        assert(after[place as int] == k);
                    }
                }
            }
        }
        index += 1;
    }
    proof {
        assert(keys@.take(keys@.len() as int) =~= keys@);
        assert(key_views(sorted@).to_set() =~= key_views(keys@).to_set());
        lemma_ascending_distinct(key_views(sorted@), target@);
    }
    sorted
}

pub proof fn lemma_ascending_distinct(keys: Seq<Seq<u8>>, target: Seq<u8>)
    requires
        ascending(keys, target),
    ensures
        keys.no_duplicates(),
{
    assert forall|i: int, j: int|
        0 <= i < keys.len() && 0 <= j < keys.len() && i != j implies keys[i] != keys[j] by {
        if i < j {
            assert(distance(keys[i], target) < distance(keys[j], target));
        } else {
            assert(distance(keys[j], target) < distance(keys[i], target));
        }
    }
}

/// The `count` keys closest to a target, closest first.
pub fn closest_keys(keys: Vec<LookupKey>, target: &LookupKey, count: usize) -> (nearest: Vec<
    LookupKey,
>)
    requires
        key_views(keys@).no_duplicates(),
    ensures
        is_closest(key_views(nearest@), key_views(keys@).to_set(), target@, count as nat),
        key_views(nearest@) == closest(key_views(keys@).to_set(), target@, count as nat),
{
    let ghost members = key_views(keys@).to_set();
    let mut nearest = sort_by_distance(keys, target);
    let ghost all = key_views(nearest@);
    proof {
        all.unique_seq_to_set();
    }
    if count < nearest.len() {
        nearest.truncate(count);
    }
    proof {
        let kept = key_views(nearest@);
        assert(kept =~= all.take(kept.len() as int));
        assert forall|i: int| 0 <= i < kept.len() implies members.contains(#[trigger] kept[i]) by {
            assert(all[i] == kept[i]);
            assert(all.contains(all[i]));
            assert(all.to_set().contains(all[i]));
        }
        assert forall|k: Seq<u8>, i: int|
            0 <= i < kept.len() && #[trigger] members.contains(k) && !kept.contains(k) implies distance(
            #[trigger] kept[i],
            target@,
        ) < distance(k, target@) by {
            assert(all.to_set().contains(k));
            assert(all.contains(k));
            let j = all.index_of(k);
            assert(all[j] == k);
            if j < kept.len() {
                assert(kept[j] == k);
            }
            assert(all[i] == kept[i]);
            assert(distance(all[i], target@) < distance(all[j], target@));
        }
        assert forall|i: int, j: int| 0 <= i < j < kept.len() implies distance(
            #[trigger] kept[i],
            target@,
        ) < distance(#[trigger] kept[j], target@) by {
            assert(all[i] == kept[i]);
            assert(all[j] == kept[j]);
        }
        assert(is_closest(kept, members, target@, count as nat));
        assert(full_keys(members)) by {
            assert forall|k: Seq<u8>| #[trigger] members.contains(k) implies k.len() == 32 by {
                assert(key_views(keys@).contains(k));
            }
        }
        lemma_closest_unique(
            kept,
            closest(members, target@, count as nat),
            members,
            target@,
            count as nat,
        );
    }
    nearest
}

} // verus!
