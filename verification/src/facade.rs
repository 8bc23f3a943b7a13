//! The map itself: an order index over the keys and, beside it, one value
//! for each key, held at the key's position in the index.

use crate::index::{floor_of, max_of, lemma_max_is, OrderIndex};
use crate::order::lawful_key;
use vstd::prelude::*;

verus! {

/// The map that pairs each key of `keys` with the value at the same
/// position of `values`.
pub open spec fn entries<K, V>(keys: Seq<K>, values: Seq<V>) -> Map<K, V> {
    Map::new(|k: K| keys.contains(k), |k: K| values[keys.index_of(k)])
}

/// What a floor query for `q` finds in `m`: the value under the floor of
/// `q` among the keys of `m`.
pub open spec fn latest_of<K: Ord, V>(m: Map<K, V>, q: K) -> Option<V> {
    match floor_of(m.dom(), q) {
        Some(k) => Some(m[k]),
        None => None,
    }
}

/// The entry that a floor query for `q` finds in `m`, with its own key.
pub open spec fn floor_entry<K: Ord, V>(m: Map<K, V>, q: K) -> Option<(K, V)> {
    match floor_of(m.dom(), q) {
        Some(k) => Some((k, m[k])),
        None => None,
    }
}

/// The entries of `m` without the one that a floor query for `q` finds.
pub open spec fn popped<K: Ord, V>(m: Map<K, V>, q: K) -> Map<K, V> {
    match floor_of(m.dom(), q) {
        Some(k) => m.remove(k),
        None => m,
    }
}

/// The entry of `m` with the greatest key.
pub open spec fn last_of<K: Ord, V>(m: Map<K, V>) -> Option<(K, V)> {
    match max_of(m.dom()) {
        Some(k) => Some((k, m[k])),
        None => None,
    }
}

/// With each key once, the entry of a key is the value at its position.
pub proof fn lemma_entries_at<K, V>(keys: Seq<K>, values: Seq<V>, pos: int)
    requires
        keys.no_duplicates(),
        0 <= pos < keys.len(),
    ensures
        entries(keys, values).dom() == keys.to_set(),
        entries(keys, values).contains_key(keys[pos]),
        entries(keys, values)[keys[pos]] == values[pos],
{
    assert(entries(keys, values).dom() =~= keys.to_set());
    assert(keys.contains(keys[pos]));
}

/// A new key and its value, put in at the same position, add one entry.
pub proof fn lemma_entries_insert<K, V>(keys: Seq<K>, values: Seq<V>, pos: int, k: K, v: V)
    requires
        keys.no_duplicates(),
        keys.len() == values.len(),
        0 <= pos <= keys.len(),
        !keys.contains(k),
    ensures
        keys.insert(pos, k).no_duplicates(),
        entries(keys.insert(pos, k), values.insert(pos, v)) == entries(keys, values).insert(k, v),
{
    let keys2 = keys.insert(pos, k);
    let values2 = values.insert(pos, v);
    assert forall|i: int, j: int| 0 <= i < keys2.len() && 0 <= j < keys2.len() && i != j implies keys2[i] != keys2[j] by {
        let bi = if i < pos { i } else { i - 1 };
        let bj = if j < pos { j } else { j - 1 };
        if i != pos && j != pos {
            assert(keys[bi] != keys[bj]);
        } else if i == pos {
            assert(keys[bj] == keys2[j]);
        } else {
            assert(keys[bi] == keys2[i]);
        }
    }
    let a = entries(keys2, values2);
    let b = entries(keys, values).insert(k, v);
    assert forall|x: K| a.contains_key(x) <==> b.contains_key(x) by {
        if keys2.contains(x) {
            let i = choose|i: int| 0 <= i < keys2.len() && keys2[i] == x;
            if i < pos {
                assert(keys[i] == x);
            } else if i > pos {
                assert(keys[i - 1] == x);
            }
        }
        if keys.contains(x) {
            let i = choose|i: int| 0 <= i < keys.len() && keys[i] == x;
            if i < pos {
                assert(keys2[i] == x);
            } else {
                assert(keys2[i + 1] == x);
            }
        }
        if x == k {
            assert(keys2[pos] == x);
        }
    }
    assert forall|x: K| a.contains_key(x) implies a[x] == b[x] by {
        let i = keys2.index_of(x);
        lemma_entries_at(keys2, values2, i);
        if i < pos {
            lemma_entries_at(keys, values, i);
        } else if i > pos {
            lemma_entries_at(keys, values, i - 1);
        }
    }
    assert(a =~= b);
}

/// A new value at a position replaces the value of the key there.
pub proof fn lemma_entries_update<K, V>(keys: Seq<K>, values: Seq<V>, pos: int, v: V)
    requires
        keys.no_duplicates(),
        keys.len() == values.len(),
        0 <= pos < keys.len(),
    ensures
        entries(keys, values.update(pos, v)) == entries(keys, values).insert(keys[pos], v),
{
    let a = entries(keys, values.update(pos, v));
    let b = entries(keys, values).insert(keys[pos], v);
    assert(keys.contains(keys[pos]));
    assert forall|x: K| a.contains_key(x) implies a[x] == b[x] by {
        let i = keys.index_of(x);
        lemma_entries_at(keys, values.update(pos, v), i);
        lemma_entries_at(keys, values, i);
    }
    assert(a =~= b);
}

/// Taking out a key and the value at its position removes its entry.
pub proof fn lemma_entries_remove<K, V>(keys: Seq<K>, values: Seq<V>, pos: int)
    requires
        keys.no_duplicates(),
        keys.len() == values.len(),
        0 <= pos < keys.len(),
    ensures
        entries(keys.remove(pos), values.remove(pos)) == entries(keys, values).remove(keys[pos]),
{
    let keys2 = keys.remove(pos);
    let values2 = values.remove(pos);
    let a = entries(keys2, values2);
    let b = entries(keys, values).remove(keys[pos]);
    assert forall|i: int, j: int| 0 <= i < keys2.len() && 0 <= j < keys2.len() && i != j implies keys2[i] != keys2[j] by {
        let bi = if i < pos { i } else { i + 1 };
        let bj = if j < pos { j } else { j + 1 };
        assert(keys[bi] != keys[bj]);
    }
    assert forall|x: K| a.contains_key(x) <==> b.contains_key(x) by {
        if keys2.contains(x) {
            let i = choose|i: int| 0 <= i < keys2.len() && keys2[i] == x;
            let bi = if i < pos { i } else { i + 1 };
            assert(keys[bi] == x);
            assert(keys[bi] != keys[pos]);
        }
        if keys.contains(x) && x != keys[pos] {
            let i = choose|i: int| 0 <= i < keys.len() && keys[i] == x;
            if i < pos {
                assert(keys2[i] == x);
            } else {
                assert(keys2[i - 1] == x);
            }
        }
    }
    assert forall|x: K| a.contains_key(x) implies a[x] == b[x] by {
        let i = keys2.index_of(x);
        lemma_entries_at(keys2, values2, i);
        let bi = if i < pos { i } else { i + 1 };
        lemma_entries_at(keys, values, bi);
    }
    assert(a =~= b);
}

/// A map from keys to values that also answers floor queries: what is
/// stored under the greatest key that does not exceed a given one.
#[derive(Debug)]
pub struct LatestMap<Key: Ord, Value> {
    index: OrderIndex<Key>,
    values: Vec<Value>,
}

impl<Key: Ord, Value> View for LatestMap<Key, Value> {
    type V = Map<Key, Value>;

    /// The entries of the map.
    closed spec fn view(&self) -> Map<Key, Value> {
        entries(self.index.keys(), self.values@)
    }
}

impl<Key: Ord, Value> Default for LatestMap<Key, Value> {
    /// A map without entries.
    fn default() -> (r: Self)
        ensures
            r@ == Map::<Key, Value>::empty(),
    {
        let r = LatestMap { index: OrderIndex::new(), values: Vec::new() };
        proof {
            assert(r@ =~= Map::<Key, Value>::empty());
        }
        r
    }
}

impl<Key: Ord, Value> LatestMap<Key, Value> {
    /// Each key of the index has its value, at the key's position.
    #[verifier::type_invariant]
    spec fn paired(&self) -> bool {
        self.index.keys().len() == self.values@.len()
    }

    /// A map has finitely many entries.
    pub proof fn lemma_finite(&self)
        ensures
            self@.dom().finite(),
    {
        assert(self@.dom() =~= self.index.keys().to_set());
        vstd::seq_lib::seq_to_set_is_finite(self.index.keys());
    }

    /// The number of entries.
    pub fn len(&self) -> (r: usize)
        ensures
            self@.dom().finite(),
            r == self@.len(),
    {
        proof {
            use_type_invariant(self);
            use_type_invariant(&self.index);
            let keys = self.index.keys();
            assert(self@.dom() =~= keys.to_set());
            keys.unique_seq_to_set();
        }
        self.values.len()
    }

    /// The order index of the map: the keys that have an entry.
    pub fn index(&self) -> (r: &OrderIndex<Key>)
        ensures
            r@ == self@.dom(),
            r.keys().len() == self@.len(),
    {
        proof {
            use_type_invariant(self);
            use_type_invariant(&self.index);
            let keys = self.index.keys();
            assert(self@.dom() =~= keys.to_set());
            keys.unique_seq_to_set();
        }
        &self.index
    }

    /// Stores `value` under `key`: a new entry where the key had none, else
    /// a new value for its entry.
    pub fn insert(&mut self, key: Key, value: Value)
        requires
            lawful_key::<Key>(),
        ensures
            final(self)@ == old(self)@.insert(key, value),
    {
        let mut taken = LatestMap { index: OrderIndex::new(), values: Vec::new() };
        std::mem::swap(self, &mut taken);
        proof {
            use_type_invariant(&taken);
            use_type_invariant(&taken.index);
        }
        let LatestMap { index, values } = taken;
        let mut index = index;
        let mut values = values;
        let ghost keys = index.keys();
        let ghost vals = values@;
        let (pos, fresh) = index.insert(key);
        if fresh {
            proof {
                lemma_entries_insert(keys, vals, pos as int, key, value);
            }
            values.insert(pos, value);
        } else {
            proof {
                lemma_entries_update(keys, vals, pos as int, value);
            }
            values[pos] = value;
        }
        *self = LatestMap { index, values };
    }

    /// The value under `key` itself, if it has an entry.
    pub fn get(&self, key: &Key) -> (r: Option<&Value>)
        requires
            lawful_key::<Key>(),
        ensures
            match r {
                Some(v) => self@.contains_key(*key) && *v == self@[*key],
                None => !self@.contains_key(*key),
            },
    {
        proof {
            use_type_invariant(self);
            use_type_invariant(&self.index);
            assert(self@.dom() =~= self.index@);
        }
        match self.index.position(key) {
            Some(pos) => {
                proof {
                    lemma_entries_at(self.index.keys(), self.values@, pos as int);
                }
                Some(&self.values[pos])
            },
            None => None,
        }
    }

    /// The value under the floor of `key`: under `key` itself where it has
    /// an entry, else under the greatest key with an entry that comes before
    /// it. `None` where every entry's key comes after `key`.
    pub fn get_latest(&self, key: &Key) -> (r: Option<&Value>)
        requires
            lawful_key::<Key>(),
        ensures
            match r {
                Some(v) => latest_of(self@, *key) == Some(*v),
                None => latest_of(self@, *key) is None,
            },
    {
        proof {
            use_type_invariant(self);
            use_type_invariant(&self.index);
            assert(self@.dom() =~= self.index@);
        }
        match self.index.floor(key) {
            Some(pos) => {
                proof {
                    lemma_entries_at(self.index.keys(), self.values@, pos as int);
                }
                Some(&self.values[pos])
            },
            None => None,
        }
    }

    /// The entry with the greatest key; `None` where the map is empty.
    pub fn get_last_with_key(&self) -> (r: Option<(&Key, &Value)>)
        requires
            lawful_key::<Key>(),
        ensures
            match r {
                Some((k, v)) => last_of(self@) == Some((*k, *v)),
                None => last_of(self@) is None && self@ == Map::<Key, Value>::empty(),
            },
    {
        proof {
            use_type_invariant(self);
            use_type_invariant(&self.index);
            assert(self@.dom() =~= self.index@);
        }
        match self.index.max() {
            Some(pos) => {
                proof {
                    lemma_entries_at(self.index.keys(), self.values@, pos as int);
                    lemma_max_is(self@.dom(), self.index.keys()[pos as int]);
                }
                Some((self.index.key_at(pos), &self.values[pos]))
            },
            None => {
                proof {
                    assert(self@ =~= Map::<Key, Value>::empty());
                }
                None
            },
        }
    }

    /// The value under `key` itself, to be changed in place. The floor is
    /// not consulted: a key without an entry of its own gives `None`.
    pub fn get_mut(&mut self, key: &Key) -> (r: Option<&mut Value>)
        requires
            lawful_key::<Key>(),
        ensures
            match r {
                Some(v) => {
                    &&& old(self)@.contains_key(*key)
                    &&& *v == old(self)@[*key]
                    &&& final(self)@ == old(self)@.insert(*key, *final(v))
                },
                None => !old(self)@.contains_key(*key) && final(self)@ == old(self)@,
            },
    {
        proof {
            use_type_invariant(&*self);
            use_type_invariant(&self.index);
            assert(self@.dom() =~= self.index@);
        }
        match self.index.position(key) {
            Some(pos) => {
                proof {
                    let keys = self.index.keys();
                    let vals = self.values@;
                    lemma_entries_at(keys, vals, pos as int);
                    assert forall|v: Value| #[trigger] entries(keys, vals.update(pos as int, v))
                        == entries(keys, vals).insert(*key, v) by {
                        lemma_entries_update(keys, vals, pos as int, v);
                    }
                }
                Some(&mut self.values[pos])
            },
            None => None,
        }
    }

    /// Whether `key` itself has an entry. The floor is not consulted.
    pub fn contains_key(&self, key: &Key) -> (r: bool)
        requires
            lawful_key::<Key>(),
        ensures
            r == self@.contains_key(*key),
    {
        proof {
            use_type_invariant(self);
            use_type_invariant(&self.index);
            assert(self@.dom() =~= self.index@);
        }
        self.index.contains(key)
    }

    /// Removes the entry that `get_latest` finds for `key` and returns it
    /// with its own key. Where `get_latest` finds none, nothing changes.
    pub fn pop_latest(&mut self, key: &Key) -> (r: Option<(Key, Value)>)
        requires
            lawful_key::<Key>(),
        ensures
            r == floor_entry(old(self)@, *key),
            final(self)@ == popped(old(self)@, *key),
    {
        proof {
            use_type_invariant(&*self);
            use_type_invariant(&self.index);
            assert(self@.dom() =~= self.index@);
        }
        match self.index.floor(key) {
            Some(pos) => {
                let mut taken = LatestMap { index: OrderIndex::new(), values: Vec::new() };
                std::mem::swap(self, &mut taken);
                let LatestMap { index, values } = taken;
                let mut index = index;
                let mut values = values;
                proof {
                    lemma_entries_at(index.keys(), values@, pos as int);
                    lemma_entries_remove(index.keys(), values@, pos as int);
                }
                let k = index.remove_at(pos);
                let v = values.remove(pos);
                *self = LatestMap { index, values };
                Some((k, v))
            },
            None => None,
        }
    }
}

} // verus!
