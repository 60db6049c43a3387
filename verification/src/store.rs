//! A keyed store of per-address entries: balances, pending winnings, stats.

use vstd::prelude::*;
use crate::types::Address;

verus! {

/// The map that a list of entries stands for: where an address occurs more
/// than once, its last entry counts.
pub open spec fn entries_map<T>(entries: Seq<(Address, T)>) -> Map<Address, T>
    decreases entries.len(),
{
    if entries.len() == 0 {
        Map::empty()
    } else {
        entries_map(entries.drop_last()).insert(entries.last().0, entries.last().1)
    }
}

/// No address occurs twice in the list of entries.
pub open spec fn keys_distinct<T>(entries: Seq<(Address, T)>) -> bool {
    forall|i: int, j: int|
        0 <= i < entries.len() && 0 <= j < entries.len() && i != j ==> (#[trigger] entries[i]).0
            != (#[trigger] entries[j]).0
}

/// Whether the list holds an entry for the address.
pub open spec fn lists_key<T>(entries: Seq<(Address, T)>, a: Address) -> bool {
    exists|i: int| 0 <= i < entries.len() && (#[trigger] entries[i]).0 == a
}

/// The map of a list of entries holds exactly the listed addresses, and
/// where no address occurs twice, each with the value listed for it.
pub proof fn lemma_entries_map<T>(entries: Seq<(Address, T)>)
    ensures
        forall|a: Address| #[trigger]
            entries_map(entries).contains_key(a) <==> lists_key(entries, a),
        keys_distinct(entries) ==> forall|i: int|
            0 <= i < entries.len() ==> entries_map(entries)[(#[trigger] entries[i]).0]
                == entries[i].1,
    decreases entries.len(),
{
    if entries.len() > 0 {
        let before = entries.drop_last();
        let n = entries.len() - 1;
        lemma_entries_map(before);
        assert forall|a: Address| #[trigger]
            entries_map(entries).contains_key(a) <==> lists_key(entries, a) by {
            if entries_map(entries).contains_key(a) {
                if a == entries[n].0 {
                    assert(0 <= n < entries.len() && entries[n].0 == a);
                } else {
                    assert(entries_map(before).contains_key(a));
                    assert(lists_key(before, a));
                    let i = choose|i: int| 0 <= i < before.len() && (#[trigger] before[i]).0 == a;
                    assert(0 <= i < entries.len() && entries[i].0 == a);
                }
            }
            if lists_key(entries, a) {
                let i = choose|i: int| 0 <= i < entries.len() && (#[trigger] entries[i]).0 == a;
                if i < n {
                    assert(0 <= i < before.len() && before[i].0 == a);
                    assert(lists_key(before, a));
                    assert(entries_map(before).contains_key(a));
                }
            }
        }
        if keys_distinct(entries) {
            assert(keys_distinct(before)) by {
                assert forall|i: int, j: int|
                    0 <= i < before.len() && 0 <= j < before.len() && i != j implies (
                #[trigger] before[i]).0 != (#[trigger] before[j]).0 by {
                    assert(before[i] == entries[i]);
                    assert(before[j] == entries[j]);
                }
            }
            assert forall|i: int| 0 <= i < entries.len() implies entries_map(entries)[(
            #[trigger] entries[i]).0] == entries[i].1 by {
                if i < n {
                    assert(before[i] == entries[i]);
                    assert(entries[i].0 != entries[n].0);
                }
            }
        }
    }
}

/// The entries that the contract keeps per address, at most one for each.
pub struct AddressMap<T> {
    keys: Vec<Address>,
    values: Vec<T>,
}

impl<T> View for AddressMap<T> {
    type V = Map<Address, T>;

    /// The stored entries as a map from address to value.
    closed spec fn view(&self) -> Map<Address, T> {
        Map::new(
            |a: Address| self.keys@.contains(a),
            |a: Address| self.values@[self.keys@.index_of(a)],
        )
    }
}

impl<T: Copy> AddressMap<T> {
    /// Every key has its value, and no address is stored twice.
    pub closed spec fn wf(&self) -> bool {
        &&& self.keys@.len() == self.values@.len()
        &&& self.keys@.no_duplicates()
    }

    /// The value stored for `key`, or `default` where there is none.
    pub open spec fn value_or(&self, key: Address, default: T) -> T {
        if self@.contains_key(key) {
            self@[key]
        } else {
            default
        }
    }

    proof fn lemma_view_at(&self, i: int)
        requires
            self.wf(),
            0 <= i < self.keys@.len(),
        ensures
            self@.contains_key(self.keys@[i]),
            self@[self.keys@[i]] == self.values@[i],
    {
        let a = self.keys@[i];
        assert(self.keys@.contains(a));
        let j = self.keys@.index_of(a);
        assert(self.keys@[j] == a);
        assert(j == i);
    }

    /// A store without entries.
    pub fn new() -> (store: AddressMap<T>)
        ensures
            store.wf(),
            store@ == Map::<Address, T>::empty(),
    {
        let store = AddressMap { keys: Vec::new(), values: Vec::new() };
        assert(store@ =~= Map::<Address, T>::empty());
        store
    }

    fn position(&self, key: &Address) -> (found: Option<usize>)
        requires
            self.wf(),
        ensures
            match found {
                Some(i) => i < self.keys@.len() && self.keys@[i as int] == *key,
                None => !self.keys@.contains(*key),
            },
    {
        let mut i: usize = 0;
        while i < self.keys.len()
            invariant
                i <= self.keys@.len(),
                forall|j: int| 0 <= j < i ==> self.keys@[j] != *key,
            decreases self.keys@.len() - i,
        {
            if self.keys[i] == *key {
                return Some(i);
            }
            i += 1;
        }
        None
    }

    /// Looks up the entry of `key`.
    pub fn get(&self, key: &Address) -> (value: Option<T>)
        requires
            self.wf(),
        ensures
            value == (if self@.contains_key(*key) {
                Some(self@[*key])
            } else {
                None
            }),
    {
        match self.position(key) {
            Some(i) => {
                proof {
                    self.lemma_view_at(i as int);
                }
                Some(self.values[i])
            },
            None => None,
        }
    }

    /// Whether an entry is stored for `key`.
    pub fn contains_key(&self, key: &Address) -> (present: bool)
        requires
            self.wf(),
        ensures
            present == self@.contains_key(*key),
    {
        self.position(key).is_some()
    }

    /// Stores `value` for `key`, in place of the entry that `key` had, if any.
    pub fn insert(&mut self, key: Address, value: T)
        requires
            old(self).wf(),
        ensures
            final(self).wf(),
            final(self)@ == old(self)@.insert(key, value),
    {
        match self.position(&key) {
            Some(i) => {
                self.values.set(i, value);
                proof {
                    assert forall|a: Address| #[trigger] self@.contains_key(a) implies self@[a]
                        == old(self)@.insert(key, value)[a] by {
                        let j = self.keys@.index_of(a);
                        if a != key {
                            assert(j != i);
                        } else {
                            assert(self.keys@[j] == self.keys@[i as int]);
                        }
                    }
                    assert(self@ =~= old(self)@.insert(key, value));
                }
            },
            None => {
                self.keys.push(key);
                self.values.push(value);
                proof {
                    let n = old(self).keys@.len() as int;
                    assert(self.keys@ == old(self).keys@.push(key));
                    assert(self.keys@.no_duplicates());
                    assert forall|a: Address|
                        self@.contains_key(a) <==> #[trigger] old(self)@.insert(
                            key,
                            value,
                        ).contains_key(a) by {
                        if a == key {
                            assert(self.keys@[n] == key);
                        } else if old(self).keys@.contains(a) {
                            let j = old(self).keys@.index_of(a);
                            assert(self.keys@[j] == a);
                        } else if self.keys@.contains(a) {
                            let j = self.keys@.index_of(a);
                            assert(j < n);
                            assert(old(self).keys@[j] == a);
                        }
                    }
                    assert forall|a: Address| #[trigger] self@.contains_key(a) implies self@[a]
                        == old(self)@.insert(key, value)[a] by {
                        let j = self.keys@.index_of(a);
                        assert(self.keys@[j] == a);
                        if a == key {
                            assert(self.keys@[n] == key);
                            assert(j == n);
                        } else {
                            assert(j < n);
                            assert(old(self).keys@[j] == a);
                            let k = old(self).keys@.index_of(a);
                            assert(old(self).keys@[k] == a);
                            assert(k == j);
                        }
                    }
                    assert(self@ =~= old(self)@.insert(key, value));
                }
            },
        }
    }

    /// The stored entries as a list, each address once.
    pub fn entries(&self) -> (entries: Vec<(Address, T)>)
        requires
            self.wf(),
        ensures
            keys_distinct(entries@),
            entries_map(entries@) == self@,
    {
        let mut entries: Vec<(Address, T)> = Vec::new();
        let mut i: usize = 0;
        while i < self.keys.len()
            invariant
                self.wf(),
                i <= self.keys@.len(),
                entries@.len() == i,
                forall|j: int|
                    0 <= j < i ==> (#[trigger] entries@[j]) == (self.keys@[j], self.values@[j]),
            decreases self.keys@.len() - i,
        {
            entries.push((self.keys[i], self.values[i]));
            i += 1;
        }
        proof {
            assert(keys_distinct(entries@)) by {
                assert forall|i: int, j: int|
                    0 <= i < entries@.len() && 0 <= j < entries@.len() && i != j implies (
                #[trigger] entries@[i]).0 != (#[trigger] entries@[j]).0 by {
                    assert(entries@[i].0 == self.keys@[i]);
                    assert(entries@[j].0 == self.keys@[j]);
                }
            }
            lemma_entries_map(entries@);
            assert forall|a: Address| entries_map(entries@).contains_key(a) <==> self@.contains_key(
                a,
            ) by {
                if entries_map(entries@).contains_key(a) {
                    assert(lists_key(entries@, a));
                    let i = choose|i: int| 0 <= i < entries@.len() && (#[trigger] entries@[i]).0 == a;
                    assert(self.keys@[i] == a);
                }
                if self@.contains_key(a) {
                    let i = self.keys@.index_of(a);
                    assert(0 <= i < entries@.len() && entries@[i].0 == a);
                    assert(lists_key(entries@, a));
                }
            }
            assert forall|a: Address| self@.contains_key(a) implies entries_map(entries@)[a]
                == self@[a] by {
                let i = self.keys@.index_of(a);
                self.lemma_view_at(i);
                assert(entries@[i].0 == a);
            }
            assert(entries_map(entries@) =~= self@);
        }
        entries
    }

    /// The store that holds the listed entries. Where an address occurs more
    /// than once, its last entry counts.
    pub fn from_entries(entries: &Vec<(Address, T)>) -> (store: AddressMap<T>)
        ensures
            store.wf(),
            store@ == entries_map(entries@),
    {
        let mut store: AddressMap<T> = AddressMap::new();
        let mut i: usize = 0;
        assert(entries@.subrange(0, 0) =~= Seq::<(Address, T)>::empty());
        while i < entries.len()
            invariant
                store.wf(),
                i <= entries@.len(),
                store@ == entries_map(entries@.subrange(0, i as int)),
            decreases entries@.len() - i,
        {
            let entry = entries[i];
            store.insert(entry.0, entry.1);
            proof {
                let next = entries@.subrange(0, i + 1);
                assert(next.drop_last() =~= entries@.subrange(0, i as int));
                assert(next.last() == entries@[i as int]);
            }
            i += 1;
        }
        assert(entries@.subrange(0, entries@.len() as int) =~= entries@);
        store
    }

    /// A second store with the same entries.
    pub fn duplicate(&self) -> (copy: AddressMap<T>)
        requires
            self.wf(),
        ensures
            copy.wf(),
            copy@ == self@,
    {
        let mut keys: Vec<Address> = Vec::new();
        let mut values: Vec<T> = Vec::new();
        let mut i: usize = 0;
        while i < self.keys.len()
            invariant
                self.wf(),
                i <= self.keys@.len(),
                keys@ == self.keys@.subrange(0, i as int),
                values@ == self.values@.subrange(0, i as int),
            decreases self.keys@.len() - i,
        {
            keys.push(self.keys[i]);
            values.push(self.values[i]);
            i += 1;
            assert(keys@ =~= self.keys@.subrange(0, i as int));
            assert(values@ =~= self.values@.subrange(0, i as int));
        }
        assert(keys@ =~= self.keys@);
        assert(values@ =~= self.values@);
        let copy = AddressMap { keys, values };
        assert(copy@ =~= self@);
        copy
    }
}

} // verus!
