//! Small association tables and sets over keys that are compared by their view.

use vstd::prelude::*;

verus! {

/// A value by which entries of a table are told apart.
pub trait TableKey: View + Sized {
    /// Whether two keys stand for the same entry.
    fn same(&self, other: &Self) -> (same: bool)
        ensures
            same == (self@ == other@),
    ;

    /// Another key that stands for the same entry.
    fn duplicate(&self) -> (copy: Self)
        ensures
            copy@ == self@,
    ;
}

/// A map from keys to values that remembers the order of first insertion.
pub struct Table<K: TableKey, T> {
    entries: Vec<(K, T)>,
}

/// The keys of a list of entries, in order.
pub open spec fn entry_keys<K: TableKey, T>(entries: Seq<(K, T)>) -> Seq<K::V> {
    entries.map(|_i: int, e: (K, T)| e.0@)
}

spec fn entry_map<K: TableKey, T>(entries: Seq<(K, T)>) -> Map<K::V, T> {
    Map::new(
        |k: K::V| entry_keys(entries).contains(k),
        |k: K::V| entries[entry_keys(entries).index_of(k)].1,
    )
}

proof fn lemma_entry_lookup<K: TableKey, T>(entries: Seq<(K, T)>, i: int)
    requires
        entry_keys(entries).no_duplicates(),
        0 <= i < entries.len(),
    ensures
        entry_map(entries).dom().contains(entries[i].0@),
        entry_map(entries)[entries[i].0@] == entries[i].1,
{
    let keys = entry_keys(entries);
    assert(keys[i] == entries[i].0@);
    assert(keys.contains(keys[i]));
    let j = keys.index_of(keys[i]);
    assert(keys[j] == keys[i]);
    assert(i == j);
}

proof fn lemma_entry_map_len<K: TableKey, T>(entries: Seq<(K, T)>)
    requires
        entry_keys(entries).no_duplicates(),
    ensures
        entry_map(entries).dom() == entry_keys(entries).to_set(),
        entry_map(entries).dom().finite(),
        entry_map(entries).dom().len() == entries.len(),
{
    let keys = entry_keys(entries);
    assert(entry_map(entries).dom() =~= keys.to_set());
    keys.unique_seq_to_set();
}

impl<K: TableKey, T> View for Table<K, T> {
    type V = Map<K::V, T>;

    closed spec fn view(&self) -> Map<K::V, T> {
        entry_map(self.entries@)
    }
}

impl<K: TableKey, T> Table<K, T> {
    #[verifier::type_invariant]
    spec fn distinct(self) -> bool {
        entry_keys(self.entries@).no_duplicates()
    }

    /// The keys in the order in which [`Table::entry_at`] hands them out.
    pub closed spec fn order(self) -> Seq<K::V> {
        entry_keys(self.entries@)
    }

    /// An empty table.
    pub fn new() -> (table: Self)
        ensures
            table@ == Map::<K::V, T>::empty(),
            table.order() == Seq::<K::V>::empty(),
    {
        let entries: Vec<(K, T)> = Vec::new();
        proof {
            assert(entry_keys(entries@) =~= Seq::<K::V>::empty());
            assert(entry_map(entries@) =~= Map::<K::V, T>::empty());
        }
        Table { entries }
    }

    /// Number of entries.
    pub fn len(&self) -> (count: usize)
        ensures
            count == self@.dom().len(),
            count == self.order().len(),
            self@.dom().finite(),
            self@.dom() == self.order().to_set(),
            self.order().no_duplicates(),
    {
        proof {
            use_type_invariant(self);
            lemma_entry_map_len(self.entries@);
        }
        self.entries.len()
    }

    /// The entry at a position of the table's order.
    pub fn entry_at(&self, index: usize) -> (entry: (&K, &T))
        requires
            index < self.order().len(),
        ensures
            entry.0@ == self.order()[index as int],
            self@.dom().contains(entry.0@),
            self@[entry.0@] == *entry.1,
    {
        proof {
            use_type_invariant(self);
            lemma_entry_lookup(self.entries@, index as int);
        }
        let entry = &self.entries[index];
        (&entry.0, &entry.1)
    }

    fn find(&self, key: &K) -> (found: Option<usize>)
        ensures
            match found {
                Some(i) => i < self.entries@.len() && self.entries@[i as int].0@ == key@,
                None => !entry_keys(self.entries@).contains(key@),
            },
    {
        let mut index: usize = 0;
        while index < self.entries.len()
            invariant
                index <= self.entries@.len(),
                forall|i: int| 0 <= i < index ==> #[trigger] self.entries@[i].0@ != key@,
            decreases self.entries@.len() - index,
        {
            if self.entries[index].0.same(key) {
                return Some(index);
            }
            index += 1;
        }
        proof {
            assert forall|i: int| 0 <= i < entry_keys(self.entries@).len() implies entry_keys(
                self.entries@,
            )[i] != key@ by {
                assert(self.entries@[i].0@ != key@);
            }
        }
        None
    }

    /// The value stored under a key.
    pub fn get(&self, key: &K) -> (value: Option<&T>)
        ensures
            match value {
                Some(v) => self@.dom().contains(key@) && *v == self@[key@],
                None => !self@.dom().contains(key@),
            },
    {
        match self.find(key) {
            Some(index) => {
                proof {
                    use_type_invariant(self);
                    lemma_entry_lookup(self.entries@, index as int);
                }
                Some(&self.entries[index].1)
            },
            None => None,
        }
    }

    /// Whether a key has an entry.
    pub fn contains(&self, key: &K) -> (found: bool)
        ensures
            found == self@.dom().contains(key@),
    {
        self.get(key).is_some()
    }

    /// Store a value under a key and hand back the value that it replaces.
    pub fn insert(&mut self, key: K, value: T) -> (previous: Option<T>)
        ensures
            final(self)@ == old(self)@.insert(key@, value),
            previous == if old(self)@.dom().contains(key@) {
                Some(old(self)@[key@])
            } else {
                None::<T>
            },
            final(self).order() == if old(self)@.dom().contains(key@) {
                old(self).order()
            } else {
                old(self).order().push(key@)
            },
    {
        proof {
            use_type_invariant(&*self);
        }
        let found = self.find(&key);
        let mut entries: Vec<(K, T)> = Vec::new();
        core::mem::swap(&mut entries, &mut self.entries);
        let ghost before = entries@;
        let previous = match found {
            Some(index) => {
                proof {
                    lemma_entry_lookup(before, index as int);
                }
                let entry = entries.remove(index);
                entries.insert(index, (entry.0, value));
                let ghost after = entries@;
                proof {
                    assert(after =~= before.update(index as int, (before[index as int].0, value)));
                    assert(entry_keys(after) =~= entry_keys(before));
                    assert forall|k: K::V| entry_keys(before).contains(k) implies entry_map(
                        after,
                    )[k] == entry_map(before).insert(key@, value)[k] by {
                        let i = entry_keys(before).index_of(k);
                        assert(entry_keys(before)[i] == k);
                        assert(entry_keys(before)[index as int] == key@);
                        lemma_entry_lookup(after, i);
                        lemma_entry_lookup(before, i);
                    }
                    assert(entry_map(after) =~= entry_map(before).insert(key@, value));
                }
                Some(entry.1)
            },
            None => {
                let ghost k0 = key@;
                entries.push((key, value));
                let ghost after = entries@;
                proof {
                    assert(entry_keys(after) =~= entry_keys(before).push(k0));
                    assert forall|k: K::V| entry_keys(after).contains(k) implies entry_map(
                        after,
                    )[k] == entry_map(before).insert(k0, value)[k] by {
                        let i = entry_keys(after).index_of(k);
                        lemma_entry_lookup(after, i);
                        if i < before.len() {
                            lemma_entry_lookup(before, i);
                            assert(entry_keys(before)[i] == k);
                        }
                    }
                    assert forall|k: K::V| #[trigger] entry_keys(after).contains(k)
                        == entry_map(before).insert(k0, value).dom().contains(k) by {
                        if entry_keys(before).contains(k) {
                            let i = entry_keys(before).index_of(k);
                            assert(entry_keys(after)[i] == k);
                        }
                        if k == k0 {
                            assert(entry_keys(after)[before.len() as int] == k);
                        }
                        if entry_keys(after).contains(k) && k != k0 {
                            let i = entry_keys(after).index_of(k);
                            assert(entry_keys(before)[i] == k);
                        }
                    }
                    assert(entry_map(after) =~= entry_map(before).insert(k0, value));
                }
                None
            },
        };
        self.entries = entries;
        previous
    }

    /// Take an entry out of the table.
    pub fn remove(&mut self, key: &K) -> (removed: Option<T>)
        ensures
            final(self)@ == old(self)@.remove(key@),
            removed == if old(self)@.dom().contains(key@) {
                Some(old(self)@[key@])
            } else {
                None::<T>
            },
            final(self).order() == if old(self)@.dom().contains(key@) {
                old(self).order().remove(old(self).order().index_of(key@))
            } else {
                old(self).order()
            },
    {
        proof {
            use_type_invariant(&*self);
        }
        let found = self.find(key);
        match found {
            Some(index) => {
                let mut entries: Vec<(K, T)> = Vec::new();
                core::mem::swap(&mut entries, &mut self.entries);
                let ghost before = entries@;
                proof {
                    lemma_entry_lookup(before, index as int);
                }
                let entry = entries.remove(index);
                let ghost after = entries@;
                proof {
                    assert(entry_keys(after) =~= entry_keys(before).remove(index as int));
                    assert(entry_keys(before)[index as int] == key@);
                    assert(entry_keys(before).index_of(key@) == index);
                    assert forall|i: int, j: int|
                        0 <= i < j < after.len() implies entry_keys(after)[i] != entry_keys(
                        after,
                    )[j] by {
                        let i2 = if i < index { i } else { i + 1 };
                        let j2 = if j < index { j } else { j + 1 };
                        assert(entry_keys(before)[i2] != entry_keys(before)[j2]);
                    }
                    assert forall|k: K::V| #[trigger] entry_keys(after).contains(k)
                        == entry_map(before).remove(key@).dom().contains(k) by {
                        if entry_keys(after).contains(k) {
                            let i = entry_keys(after).index_of(k);
                            let i2 = if i < index { i } else { i + 1 };
                            assert(entry_keys(before)[i2] == k);
                        }
                        if entry_keys(before).contains(k) && k != key@ {
                            let i = entry_keys(before).index_of(k);
                            let i2 = if i < index { i } else { i - 1 };
                            assert(entry_keys(after)[i2] == k);
                        }
                    }
                    assert forall|k: K::V| entry_keys(after).contains(k) implies entry_map(
                        after,
                    )[k] == entry_map(before)[k] by {
                        let i = entry_keys(after).index_of(k);
                        let i2 = if i < index { i } else { i + 1 };
                        lemma_entry_lookup(after, i);
                        lemma_entry_lookup(before, i2);
                    }
                    assert(entry_map(after) =~= entry_map(before).remove(key@));
                }
                self.entries = entries;
                Some(entry.1)
            },
            None => {
                proof {
                    assert(self@ =~= old(self)@.remove(key@));
                }
                None
            },
        }
    }

    /// Take every entry out of the table.
    pub fn clear(&mut self)
        ensures
            final(self)@ == Map::<K::V, T>::empty(),
            final(self).order() == Seq::<K::V>::empty(),
    {
        *self = Table::new();
    }

    /// The keys in the table's order.
    pub fn keys(&self) -> (keys: Vec<K>)
        ensures
            keys@.map(|_i: int, k: K| k@) == self.order(),
            self@.dom() == self.order().to_set(),
            self.order().no_duplicates(),
    {
        let count = self.len();
        let mut keys: Vec<K> = Vec::new();
        let mut index: usize = 0;
        while index < count
            invariant
                index <= count,
                count == self.order().len(),
                keys@.len() == index,
                forall|i: int| 0 <= i < index ==> #[trigger] keys@[i]@ == self.order()[i],
            decreases count - index,
        {
            keys.push(self.entry_at(index).0.duplicate());
            index += 1;
        }
        assert(keys@.map(|_i: int, k: K| k@) =~= self.order());
        keys
    }
}

/// A set of keys that remembers the order of first insertion.
pub struct KeySet<K: TableKey> {
    table: Table<K, ()>,
}

impl<K: TableKey> View for KeySet<K> {
    type V = Set<K::V>;

    closed spec fn view(&self) -> Set<K::V> {
        self.table@.dom()
    }
}

impl<K: TableKey> KeySet<K> {
    /// The members in the order in which [`KeySet::member_at`] hands them out.
    pub closed spec fn order(self) -> Seq<K::V> {
        self.table.order()
    }

    /// An empty set.
    pub fn new() -> (set: Self)
        ensures
            set@ == Set::<K::V>::empty(),
            set.order() == Seq::<K::V>::empty(),
    {
        let set = KeySet { table: Table::new() };
        assert(set@ =~= Set::<K::V>::empty());
        set
    }

    /// Number of members.
    pub fn len(&self) -> (count: usize)
        ensures
            count == self@.len(),
            count == self.order().len(),
            self@.finite(),
            self@ == self.order().to_set(),
            self.order().no_duplicates(),
    {
        self.table.len()
    }

    /// Whether the set has no member.
    pub fn is_empty(&self) -> (empty: bool)
        ensures
            empty == (self@ == Set::<K::V>::empty()),
    {
        let count = self.len();
        if count == 0 {
            assert(self@ =~= Set::<K::V>::empty());
        }
        count == 0
    }

    /// The member at a position of the set's order.
    pub fn member_at(&self, index: usize) -> (member: &K)
        requires
            index < self.order().len(),
        ensures
            member@ == self.order()[index as int],
            self@.contains(member@),
    {
        self.table.entry_at(index).0
    }

    /// Whether a key is a member.
    pub fn contains(&self, key: &K) -> (found: bool)
        ensures
            found == self@.contains(key@),
    {
        self.table.contains(key)
    }

    /// Add a key and say whether it was absent.
    pub fn insert(&mut self, key: K) -> (added: bool)
        ensures
            final(self)@ == old(self)@.insert(key@),
            added == !old(self)@.contains(key@),
            final(self).order() == if old(self)@.contains(key@) {
                old(self).order()
            } else {
                old(self).order().push(key@)
            },
    {
        let previous = self.table.insert(key, ());
        assert(self@ =~= old(self)@.insert(key@));
        previous.is_none()
    }

    /// Take a key out and say whether it was a member.
    pub fn remove(&mut self, key: &K) -> (removed: bool)
        ensures
            final(self)@ == old(self)@.remove(key@),
            removed == old(self)@.contains(key@),
    {
        let removed = self.table.remove(key);
        assert(self@ =~= old(self)@.remove(key@));
        removed.is_some()
    }

    /// Take every key out.
    pub fn clear(&mut self)
        ensures
            final(self)@ == Set::<K::V>::empty(),
    {
        self.table.clear();
        assert(self@ =~= Set::<K::V>::empty());
    }

    /// The members in the set's order.
    pub fn members(&self) -> (members: Vec<K>)
        ensures
            members@.map(|_i: int, k: K| k@) == self.order(),
            self@ == self.order().to_set(),
            self.order().no_duplicates(),
    {
        self.table.keys()
    }
}

} // verus!
