use vstd::prelude::*;

verus! {

/// A key that can be compared for equality.
pub trait TableKey: Sized + Copy {
    fn same(&self, other: &Self) -> (result: bool)
        ensures
            result == (*self == *other),
    ;
}

/// The map that a list of (key, value) entries denotes, later entries winning.
pub open spec fn entries_map<K, V>(entries: Seq<(K, V)>) -> Map<K, V>
    decreases entries.len(),
{
    if entries.len() == 0 {
        Map::empty()
    } else {
        entries_map(entries.drop_last()).insert(entries.last().0, entries.last().1)
    }
}

/// No key occurs twice in the entries.
pub open spec fn distinct_keys<K, V>(entries: Seq<(K, V)>) -> bool {
    forall|i: int, j: int| 0 <= i < j < entries.len() ==> #[trigger] entries[i].0 != #[trigger] entries[j].0
}

pub proof fn lemma_distinct_init<K, V>(entries: Seq<(K, V)>)
    requires
        distinct_keys(entries),
        entries.len() > 0,
    ensures
        distinct_keys(entries.drop_last()),
{
    let init = entries.drop_last();
    assert forall|a: int, b: int| 0 <= a < b < init.len() implies init[a].0 != init[b].0 by {
        assert(entries[a].0 != entries[b].0);
    }
}

pub proof fn lemma_entries_map_dom<K, V>(entries: Seq<(K, V)>)
    ensures
        forall|k: K| #[trigger]
            entries_map(entries).dom().contains(k) <==> exists|i: int| 0 <= i < entries.len() && entries[i].0 == k,
        entries_map(entries).dom().finite(),
    decreases entries.len(),
{
    if entries.len() > 0 {
        let init = entries.drop_last();
        lemma_entries_map_dom(init);
        assert forall|k: K| #[trigger]
            entries_map(entries).dom().contains(k) <==> exists|i: int| 0 <= i < entries.len() && entries[i].0 == k by {
            if exists|i: int| 0 <= i < entries.len() && entries[i].0 == k {
                let i = choose|i: int| 0 <= i < entries.len() && entries[i].0 == k;
                if i < entries.len() - 1 {
                    assert(init[i].0 == k);
                }
            }
            if entries_map(init).dom().contains(k) {
                let i = choose|i: int| 0 <= i < init.len() && init[i].0 == k;
                assert(entries[i].0 == k);
            }
        }
    }
}

pub proof fn lemma_entries_map_get<K, V>(entries: Seq<(K, V)>, i: int)
    requires
        distinct_keys(entries),
        0 <= i < entries.len(),
    ensures
        entries_map(entries).dom().contains(entries[i].0),
        entries_map(entries)[entries[i].0] == entries[i].1,
    decreases entries.len(),
{
    let init = entries.drop_last();
    if i < entries.len() - 1 {
        lemma_distinct_init(entries);
        lemma_entries_map_get(init, i);
        assert(entries[i].0 != entries.last().0);
        assert(init[i] == entries[i]);
    }
}

pub proof fn lemma_entries_map_len<K, V>(entries: Seq<(K, V)>)
    requires
        distinct_keys(entries),
    ensures
        entries_map(entries).dom().len() == entries.len(),
    decreases entries.len(),
{
    if entries.len() > 0 {
        let init = entries.drop_last();
        lemma_distinct_init(entries);
        lemma_entries_map_len(init);
        lemma_entries_map_dom(init);
        assert(!entries_map(init).dom().contains(entries.last().0)) by {
            if entries_map(init).dom().contains(entries.last().0) {
                let i = choose|i: int| 0 <= i < init.len() && init[i].0 == entries.last().0;
                assert(entries[i].0 == entries[entries.len() - 1].0);
            }
        }
    }
}

pub proof fn lemma_entries_map_update<K, V>(entries: Seq<(K, V)>, i: int, value: V)
    requires
        distinct_keys(entries),
        0 <= i < entries.len(),
    ensures
        entries_map(entries.update(i, (entries[i].0, value))) =~= entries_map(entries).insert(entries[i].0, value),
        distinct_keys(entries.update(i, (entries[i].0, value))),
    decreases entries.len(),
{
    let updated = entries.update(i, (entries[i].0, value));
    let init = entries.drop_last();
    lemma_distinct_init(entries);
    if i < entries.len() - 1 {
        lemma_entries_map_update(init, i, value);
        assert(updated.drop_last() =~= init.update(i, (init[i].0, value)));
        assert(entries[i].0 != entries.last().0);
    } else {
        assert(updated.drop_last() =~= init);
    }
    assert forall|a: int, b: int| 0 <= a < b < updated.len() implies updated[a].0 != updated[b].0 by {
        assert(entries[a].0 != entries[b].0);
    }
}

pub proof fn lemma_entries_map_remove<K, V>(entries: Seq<(K, V)>, i: int)
    requires
        distinct_keys(entries),
        0 <= i < entries.len(),
    ensures
        entries_map(entries.remove(i)) =~= entries_map(entries).remove(entries[i].0),
        distinct_keys(entries.remove(i)),
    decreases entries.len(),
{
    let removed = entries.remove(i);
    let init = entries.drop_last();
    let key = entries[i].0;
    lemma_distinct_init(entries);
    lemma_entries_map_dom(init);
    if i == entries.len() - 1 {
        assert(removed =~= init);
        assert(!entries_map(init).dom().contains(key)) by {
            if entries_map(init).dom().contains(key) {
                let j = choose|j: int| 0 <= j < init.len() && init[j].0 == key;
                assert(entries[j].0 == entries[i].0);
            }
        }
    } else {
        lemma_entries_map_remove(init, i);
        assert(removed.drop_last() =~= init.remove(i));
        assert(removed.last() == entries.last());
        assert(entries[i].0 != entries.last().0);
    }
    assert forall|a: int, b: int| 0 <= a < b < removed.len() implies removed[a].0 != removed[b].0 by {
        let a0 = if a < i { a } else { a + 1 };
        let b0 = if b < i { b } else { b + 1 };
        assert(removed[a] == entries[a0]);
        assert(removed[b] == entries[b0]);
        assert(entries[a0].0 != entries[b0].0);
    }
}

pub proof fn lemma_entries_map_push<K, V>(entries: Seq<(K, V)>, key: K, value: V)
    requires
        distinct_keys(entries),
        forall|i: int| 0 <= i < entries.len() ==> entries[i].0 != key,
    ensures
        entries_map(entries.push((key, value))) =~= entries_map(entries).insert(key, value),
        distinct_keys(entries.push((key, value))),
{
    let pushed = entries.push((key, value));
    assert(pushed.drop_last() =~= entries);
    assert forall|a: int, b: int| 0 <= a < b < pushed.len() implies pushed[a].0 != pushed[b].0 by {
        if b < entries.len() {
            assert(entries[a].0 != entries[b].0);
        }
    }
}

/// A map from keys to values, kept as a list of entries in which no key occurs twice.
#[derive(Debug)]
pub struct Table<K, V> {
    entries: Vec<(K, V)>,
}

impl<K: TableKey, V> Table<K, V> {
    /// The table's contents.
    pub closed spec fn map(&self) -> Map<K, V> {
        entries_map(self.entries@)
    }

    /// The keys in storage order.
    pub closed spec fn keys(&self) -> Seq<K> {
        self.entries@.map_values(|entry: (K, V)| entry.0)
    }

    pub closed spec fn wf(&self) -> bool {
        distinct_keys(self.entries@)
    }

    pub fn new() -> (table: Self)
        ensures
            table.wf(),
            table.map() == Map::<K, V>::empty(),
            table.keys() == Seq::<K>::empty(),
    {
        let table = Table { entries: Vec::new() };
        proof {
            assert(table.keys() =~= Seq::<K>::empty());
        }
        table
    }

    /// Every key of the map appears once in `keys`, and `keys` holds nothing else.
    pub proof fn lemma_keys(&self)
        requires
            self.wf(),
        ensures
            self.keys().no_duplicates(),
            forall|k: K| #[trigger] self.map().dom().contains(k) <==> self.keys().contains(k),
            self.map().dom().finite(),
            self.map().dom().len() == self.keys().len(),
    {
        lemma_entries_map_dom(self.entries@);
        lemma_entries_map_len(self.entries@);
        assert forall|k: K| #[trigger] self.map().dom().contains(k) <==> self.keys().contains(k) by {
            if self.map().dom().contains(k) {
                let i = choose|i: int| 0 <= i < self.entries@.len() && self.entries@[i].0 == k;
                assert(self.keys()[i] == k);
            }
            if self.keys().contains(k) {
                let i = choose|i: int| 0 <= i < self.keys().len() && self.keys()[i] == k;
                assert(self.entries@[i].0 == k);
            }
        }
        assert forall|a: int, b: int| 0 <= a < self.keys().len() && 0 <= b < self.keys().len() && a != b implies
            self.keys()[a] != self.keys()[b] by {
            if a < b {
                assert(self.entries@[a].0 != self.entries@[b].0);
            } else {
                assert(self.entries@[b].0 != self.entries@[a].0);
            }
        }
    }

    fn find(&self, key: &K) -> (index: Option<usize>)
        requires
            self.wf(),
        ensures
            index matches Some(i) ==> i < self.entries@.len() && self.entries@[i as int].0 == *key,
            index is None ==> !self.map().dom().contains(*key),
    {
        for i in 0..self.entries.len()
            invariant
                forall|j: int| 0 <= j < i ==> self.entries@[j].0 != *key,
        {
            if self.entries[i].0.same(key) {
                return Some(i);
            }
        }
        proof {
            lemma_entries_map_dom(self.entries@);
        }
        None
    }

    /// How many entries the table holds.
    pub fn len(&self) -> (count: usize)
        requires
            self.wf(),
        ensures
            count == self.map().dom().len(),
            count == self.keys().len(),
    {
        proof {
            lemma_entries_map_len(self.entries@);
        }
        self.entries.len()
    }

    /// The key stored at `index`.
    pub fn key_at(&self, index: usize) -> (key: K)
        requires
            index < self.keys().len(),
        ensures
            key == self.keys()[index as int],
    {
        self.entries[index].0
    }

    pub fn contains_key(&self, key: &K) -> (result: bool)
        requires
            self.wf(),
        ensures
            result == self.map().dom().contains(*key),
    {
        match self.find(key) {
            Some(i) => {
                proof {
                    lemma_entries_map_get(self.entries@, i as int);
                }
                true
            },
            None => false,
        }
    }

    pub fn get(&self, key: &K) -> (value: Option<&V>)
        requires
            self.wf(),
        ensures
            value matches Some(v) ==> self.map().dom().contains(*key) && self.map()[*key] == *v,
            value is None ==> !self.map().dom().contains(*key),
    {
        match self.find(key) {
            Some(i) => {
                proof {
                    lemma_entries_map_get(self.entries@, i as int);
                }
                Some(&self.entries[i].1)
            },
            None => None,
        }
    }

    /// Inserts or replaces the value for `key`.
    pub fn insert(&mut self, key: K, value: V)
        requires
            old(self).wf(),
        ensures
            final(self).wf(),
            final(self).map() == old(self).map().insert(key, value),
            old(self).map().dom().contains(key) ==> final(self).keys() == old(self).keys(),
            !old(self).map().dom().contains(key) ==> final(self).keys() == old(self).keys().push(key),
    {
        match self.find(&key) {
            Some(i) => {
                proof {
                    lemma_entries_map_update(self.entries@, i as int, value);
                    lemma_entries_map_get(self.entries@, i as int);
                }
                let ghost before = self.entries@;
                self.entries.set(i, (key, value));
                proof {
                    assert(self.entries@ =~= before.update(i as int, (before[i as int].0, value)));
                    assert(self.keys() =~= old(self).keys());
                }
            },
            None => {
                proof {
                    lemma_entries_map_dom(self.entries@);
                    assert forall|i: int| 0 <= i < self.entries@.len() implies self.entries@[i].0 != key by {
                        if self.entries@[i].0 == key {
                            assert(self.map().dom().contains(key));
                        }
                    }
                    lemma_entries_map_push(self.entries@, key, value);
                }
                self.entries.push((key, value));
                proof {
                    assert(self.keys() =~= old(self).keys().push(key));
                }
            },
        }
    }

    /// Removes the entry for `key` and hands out its value.
    pub fn remove(&mut self, key: &K) -> (value: Option<V>)
        requires
            old(self).wf(),
        ensures
            final(self).wf(),
            final(self).map() == old(self).map().remove(*key),
            value matches Some(v) ==> old(self).map().dom().contains(*key) && old(self).map()[*key] == v,
            value is None ==> !old(self).map().dom().contains(*key),
    {
        match self.find(key) {
            Some(i) => {
                proof {
                    lemma_entries_map_remove(self.entries@, i as int);
                    lemma_entries_map_get(self.entries@, i as int);
                }
                let (_, value) = self.entries.remove(i);
                Some(value)
            },
            None => {
                proof {
                    assert(old(self).map().remove(*key) =~= old(self).map());
                }
                None
            },
        }
    }
}

impl TableKey for u8 {
    fn same(&self, other: &Self) -> (result: bool) {
        *self == *other
    }
}

} // verus!
