//! The order index: the keys that are present, kept in ascending order,
//! with exact and floor search over them.

use crate::order::{
    key_le, key_lt, lawful_key, lemma_lt_irreflexive, lemma_lt_transitive, lemma_trichotomy, rank,
    Rank,
};
use vstd::prelude::*;

verus! {

/// `s` lists its keys in strictly ascending order.
pub open spec fn ascending<K: Ord>(s: Seq<K>) -> bool {
    forall|i: int, j: int| 0 <= i < j < s.len() ==> key_lt(s[i], s[j])
}

/// `k` is the floor of `q` in `keys`: the greatest key present that does
/// not exceed `q`. A key that is present is its own floor.
pub open spec fn is_floor<K: Ord>(keys: Set<K>, q: K, k: K) -> bool {
    &&& keys.contains(k)
    &&& key_le(k, q)
    &&& forall|other: K| keys.contains(other) && key_le(other, q) ==> key_le(other, k)
}

/// The floor of `q` in `keys`, if some key present does not exceed `q`.
pub open spec fn floor_of<K: Ord>(keys: Set<K>, q: K) -> Option<K> {
    if exists|k: K| is_floor(keys, q, k) {
        Some(choose|k: K| is_floor(keys, q, k))
    } else {
        None
    }
}

/// `k` is the greatest key in `keys`.
pub open spec fn is_max<K: Ord>(keys: Set<K>, k: K) -> bool {
    &&& keys.contains(k)
    &&& forall|other: K| keys.contains(other) ==> key_le(other, k)
}

/// The greatest key in `keys`, if there is one.
pub open spec fn max_of<K: Ord>(keys: Set<K>) -> Option<K> {
    if exists|k: K| is_max(keys, k) {
        Some(choose|k: K| is_max(keys, k))
    } else {
        None
    }
}

/// Two keys that each come before or are the other are the same key.
pub proof fn lemma_le_antisymmetric<K: Ord>(a: K, b: K)
    requires
        lawful_key::<K>(),
        key_le(a, b),
        key_le(b, a),
    ensures
        a == b,
{
    lemma_trichotomy(a, b);
}

/// A query has at most one floor, and `floor_of` names it.
pub proof fn lemma_floor_is<K: Ord>(keys: Set<K>, q: K, k: K)
    requires
        lawful_key::<K>(),
        is_floor(keys, q, k),
    ensures
        floor_of(keys, q) == Some(k),
{
    let c = choose|c: K| is_floor(keys, q, c);
    lemma_le_antisymmetric(c, k);
}

/// Where every key present exceeds the query, the query has no floor.
pub proof fn lemma_floor_none<K: Ord>(keys: Set<K>, q: K)
    requires
        forall|k: K| keys.contains(k) ==> !key_le(k, q),
    ensures
        floor_of(keys, q) is None,
{
}

/// A set has at most one greatest key, and `max_of` names it.
pub proof fn lemma_max_is<K: Ord>(keys: Set<K>, k: K)
    requires
        lawful_key::<K>(),
        is_max(keys, k),
    ensures
        max_of(keys) == Some(k),
{
    let c = choose|c: K| is_max(keys, c);
    lemma_le_antisymmetric(c, k);
}

/// A finite set has a greatest key unless it is empty.
pub proof fn lemma_max_of<K: Ord>(keys: Set<K>)
    requires
        lawful_key::<K>(),
        keys.finite(),
    ensures
        match max_of(keys) {
            Some(k) => is_max(keys, k),
            None => keys == Set::<K>::empty(),
        },
    decreases keys.len(),
{
    if keys.len() == 0 {
        keys.lemma_len0_is_empty();
        assert(keys =~= Set::<K>::empty());
    } else {
        let x = keys.choose();
        let rest = keys.remove(x);
        lemma_max_of(rest);
        match max_of(rest) {
            Some(m) => {
                lemma_trichotomy(m, x);
                if key_lt(m, x) {
                    assert forall|other: K| keys.contains(other) implies key_le(other, x) by {
                        if other != x {
                            assert(rest.contains(other));
                            if other != m {
                                lemma_lt_transitive(other, m, x);
                            }
                        }
                    }
                    assert(is_max(keys, x));
                } else {
                    assert forall|other: K| keys.contains(other) implies key_le(other, m) by {
                        if other != x {
                            assert(rest.contains(other));
                        }
                    }
                    assert(is_max(keys, m));
                }
            },
            None => {
                assert forall|other: K| keys.contains(other) implies key_le(other, x) by {
                    if other != x {
                        assert(rest.contains(other));
                    }
                }
                assert(is_max(keys, x));
            },
        }
    }
}

/// In a finite set a query has a floor unless every key comes after it.
pub proof fn lemma_floor_of<K: Ord>(keys: Set<K>, q: K)
    requires
        lawful_key::<K>(),
        keys.finite(),
    ensures
        match floor_of(keys, q) {
            Some(k) => is_floor(keys, q, k),
            None => forall|k: K| keys.contains(k) ==> key_lt(q, k),
        },
{
    let at_most = |k: K| key_le(k, q);
    let below = keys.filter(at_most);
    keys.lemma_len_filter(at_most);
    lemma_max_of(below);
    match max_of(below) {
        Some(m) => {
            assert forall|other: K| keys.contains(other) && key_le(other, q) implies key_le(
                other,
                m,
            ) by {
                assert(below.contains(other));
            }
            assert(is_floor(keys, q, m));
        },
        None => {
            assert forall|k: K| keys.contains(k) implies key_lt(q, k) by {
                if key_le(k, q) {
                    assert(below.contains(k));
                }
                lemma_trichotomy(k, q);
            }
            assert forall|k: K| !is_floor(keys, q, k) by {
                if keys.contains(k) {
                    lemma_trichotomy(k, q);
                }
            }
        },
    }
}

/// An ascending sequence holds no key twice.
pub proof fn lemma_ascending_no_duplicates<K: Ord>(s: Seq<K>)
    requires
        lawful_key::<K>(),
        ascending(s),
    ensures
        s.no_duplicates(),
{
    assert forall|i: int, j: int| 0 <= i < s.len() && 0 <= j < s.len() && i != j implies s[i]
        != s[j] by {
        if i < j {
            lemma_lt_irreflexive(s[i]);
        } else {
            lemma_lt_irreflexive(s[j]);
        }
    }
}

/// The keys present, in ascending order and without duplicates.
#[derive(Debug)]
pub struct OrderIndex<K: Ord> {
    keys: Vec<K>,
}

impl<K: Ord> View for OrderIndex<K> {
    type V = Set<K>;

    /// The set of keys present.
    open spec fn view(&self) -> Set<K> {
        self.keys().to_set()
    }
}

impl<K: Ord> OrderIndex<K> {
    /// The keys present, in the order in which the index enumerates them.
    pub closed spec fn keys(&self) -> Seq<K> {
        self.keys@
    }

    /// Every index enumerates its keys in strictly ascending order, each
    /// key once.
    #[verifier::type_invariant]
    pub open spec fn is_ascending(&self) -> bool {
        &&& ascending(self.keys())
        &&& self.keys().no_duplicates()
    }

    /// An index with no keys.
    pub fn new() -> (r: Self)
        ensures
            r.keys() == Seq::<K>::empty(),
    {
        OrderIndex { keys: Vec::new() }
    }

    /// The number of keys present.
    pub fn len(&self) -> (r: usize)
        ensures
            r == self.keys().len(),
    {
        self.keys.len()
    }

    /// The key at a position of the enumeration.
    pub fn key_at(&self, pos: usize) -> (r: &K)
        requires
            pos < self.keys().len(),
        ensures
            *r == self.keys()[pos as int],
    {
        &self.keys[pos]
    }

    /// Finds where `q` stands among the keys: the number of keys that come
    /// before it, and whether the key at that position is `q` itself.
    pub fn search(&self, q: &K) -> (r: (usize, bool))
        requires
            lawful_key::<K>(),
        ensures
            r.0 <= self.keys().len(),
            forall|i: int| 0 <= i < r.0 ==> key_lt(self.keys()[i], *q),
            forall|i: int| r.0 <= i < self.keys().len() ==> key_le(*q, self.keys()[i]),
            r.1 <==> r.0 < self.keys().len() && self.keys()[r.0 as int] == *q,
            r.1 <==> self@.contains(*q),
    {
        proof {
            use_type_invariant(self);
        }
        let mut lo: usize = 0;
        let mut hi: usize = self.keys.len();
        while lo < hi
            invariant
                lawful_key::<K>(),
                ascending(self.keys@),
                lo <= hi <= self.keys@.len(),
                forall|i: int| 0 <= i < lo ==> key_lt(self.keys@[i], *q),
                forall|i: int| hi <= i < self.keys@.len() ==> key_lt(*q, self.keys@[i]),
            decreases hi - lo,
        {
            let mid: usize = lo + (hi - lo) / 2;
            match rank(&self.keys[mid], q) {
                Rank::Before => {
                    proof {
                        assert forall|i: int| 0 <= i < mid + 1 implies key_lt(
                            self.keys@[i],
                            *q,
                        ) by {
                            if i < mid {
                                lemma_lt_transitive(self.keys@[i], self.keys@[mid as int], *q);
                            }
                        }
                    }
                    lo = mid + 1;
                },
                Rank::Same => {
                    proof {
                        lemma_lt_irreflexive(*q);
                        assert(self.keys@.to_set().contains(self.keys@[mid as int]));
                    }
                    return (mid, true);
                },
                Rank::After => {
                    proof {
                        lemma_trichotomy(self.keys@[mid as int], *q);
                        assert forall|i: int| mid <= i < self.keys@.len() implies key_lt(
                            *q,
                            self.keys@[i],
                        ) by {
                            if mid < i {
                                lemma_lt_transitive(*q, self.keys@[mid as int], self.keys@[i]);
                            }
                        }
                    }
                    hi = mid;
                },
            }
        }
        proof {
            assert forall|i: int| 0 <= i < self.keys@.len() implies self.keys@[i] != *q by {
                lemma_lt_irreflexive(*q);
            }
        }
        (lo, false)
    }

    /// Whether `q` itself is present.
    pub fn contains(&self, q: &K) -> (r: bool)
        requires
            lawful_key::<K>(),
        ensures
            r == self@.contains(*q),
    {
        let (_, found) = self.search(q);
        found
    }

    /// The position of `q` itself, if it is present.
    pub fn position(&self, q: &K) -> (r: Option<usize>)
        requires
            lawful_key::<K>(),
        ensures
            match r {
                Some(pos) => pos < self.keys().len() && self.keys()[pos as int] == *q,
                None => !self@.contains(*q),
            },
    {
        let (pos, found) = self.search(q);
        if found {
            Some(pos)
        } else {
            None
        }
    }

    /// The position of the floor of `q`: of `q` itself where it is present,
    /// else of the greatest key that comes before it. `None` where every
    /// key present comes after `q`.
    pub fn floor(&self, q: &K) -> (r: Option<usize>)
        requires
            lawful_key::<K>(),
        ensures
            match r {
                Some(pos) => pos < self.keys().len() && floor_of(self@, *q) == Some(
                    self.keys()[pos as int],
                ),
                None => floor_of(self@, *q) is None,
            },
    {
        let (pos, found) = self.search(q);
        if found {
            proof {
                assert forall|other: K| self@.contains(other) && key_le(other, *q) implies key_le(
                    other,
                    self.keys()[pos as int],
                ) by {}
                lemma_floor_is(self@, *q, self.keys()[pos as int]);
            }
            Some(pos)
        } else if pos == 0 {
            proof {
                assert forall|k: K| self@.contains(k) implies !key_le(k, *q) by {
                    lemma_trichotomy(k, *q);
                }
                lemma_floor_none(self@, *q);
            }
            None
        } else {
            proof {
                use_type_invariant(self);
                let below = self.keys()[pos - 1];
                assert(self@.contains(below));
                assert forall|other: K| self@.contains(other) && key_le(other, *q) implies key_le(
                    other,
                    below,
                ) by {
                    let i = choose|i: int| 0 <= i < self.keys().len() && self.keys()[i] == other;
                    lemma_trichotomy(other, *q);
                    assert(i < pos);
                }
                lemma_floor_is(self@, *q, below);
            }
            Some(pos - 1)
        }
    }

    /// The position of the greatest key present; `None` where the index is
    /// empty.
    pub fn max(&self) -> (r: Option<usize>)
        ensures
            match r {
                Some(pos) => pos + 1 == self.keys().len() && is_max(self@, self.keys()[pos as int]),
                None => self.keys().len() == 0 && self@ == Set::<K>::empty(),
            },
    {
        proof {
            use_type_invariant(self);
        }
        let n = self.keys.len();
        if n == 0 {
            proof {
                assert(self@ =~= Set::<K>::empty());
            }
            None
        } else {
            proof {
                assert(self@.contains(self.keys()[n - 1]));
            }
            Some(n - 1)
        }
    }

    /// Makes `key` present. Returns its position, and whether it was
    /// absent before; where it was present, nothing changes.
    pub fn insert(&mut self, key: K) -> (r: (usize, bool))
        requires
            lawful_key::<K>(),
        ensures
            r.1 == !old(self)@.contains(key),
            r.0 <= old(self).keys().len(),
            r.0 < final(self).keys().len(),
            final(self).keys()[r.0 as int] == key,
            final(self).keys() == if r.1 {
                old(self).keys().insert(r.0 as int, key)
            } else {
                old(self).keys()
            },
            final(self)@ == old(self)@.insert(key),
    {
        proof {
            use_type_invariant(&*self);
        }
        let (pos, found) = self.search(&key);
        if found {
            proof {
                assert(self@ =~= self@.insert(key));
            }
            (pos, false)
        } else {
            let ghost before = self.keys@;
            let mut keys: Vec<K> = Vec::new();
            std::mem::swap(&mut keys, &mut self.keys);
            keys.insert(pos, key);
            proof {
                let after = keys@;
                assert forall|i: int, j: int| 0 <= i < j < after.len() implies key_lt(
                    after[i],
                    after[j],
                ) by {
                    if j == pos {
                    } else if i == pos {
                        lemma_trichotomy(key, before[j - 1]);
                    } else {
                        let bi = if i < pos { i } else { i - 1 };
                        let bj = if j < pos { j } else { j - 1 };
                        assert(key_lt(before[bi], before[bj]));
                    }
                }
                lemma_ascending_no_duplicates(after);
                assert(after.to_set() =~= before.to_set().insert(key)) by {
                    assert forall|k: K| after.to_set().contains(k) implies before.to_set().insert(
                        key,
                    ).contains(k) by {
                        let i = choose|i: int| 0 <= i < after.len() && after[i] == k;
                        if i < pos {
                            assert(before[i] == k);
                        } else if i > pos {
                            assert(before[i - 1] == k);
                        }
                    }
                    assert forall|k: K| before.to_set().insert(key).contains(
                        k,
                    ) implies after.to_set().contains(k) by {
                        if k == key {
                            assert(after[pos as int] == k);
                        } else {
                            let i = choose|i: int| 0 <= i < before.len() && before[i] == k;
                            if i < pos {
                                assert(after[i] == k);
                            } else {
                                assert(after[i + 1] == k);
                            }
                        }
                    }
                }
            }
            self.keys = keys;
            (pos, true)
        }
    }

    /// Takes out the key at a position and returns it.
    pub fn remove_at(&mut self, pos: usize) -> (r: K)
        requires
            lawful_key::<K>(),
            pos < old(self).keys().len(),
        ensures
            r == old(self).keys()[pos as int],
            final(self).keys() == old(self).keys().remove(pos as int),
            final(self)@ == old(self)@.remove(r),
    {
        proof {
            use_type_invariant(&*self);
        }
        let ghost before = self.keys@;
        let mut keys: Vec<K> = Vec::new();
        std::mem::swap(&mut keys, &mut self.keys);
        let key = keys.remove(pos);
        proof {
            let after = keys@;
            assert forall|i: int, j: int| 0 <= i < j < after.len() implies key_lt(
                after[i],
                after[j],
            ) by {
                let bi = if i < pos { i } else { i + 1 };
                let bj = if j < pos { j } else { j + 1 };
                assert(key_lt(before[bi], before[bj]));
            }
            lemma_ascending_no_duplicates(after);
            assert(after.to_set() =~= before.to_set().remove(key)) by {
                assert forall|k: K| after.to_set().contains(k) implies before.to_set().remove(
                    key,
                ).contains(k) by {
                    let i = choose|i: int| 0 <= i < after.len() && after[i] == k;
                    let bi = if i < pos { i } else { i + 1 };
                    assert(before[bi] == k);
                }
                assert forall|k: K| before.to_set().remove(key).contains(
                    k,
                ) implies after.to_set().contains(k) by {
                    let i = choose|i: int| 0 <= i < before.len() && before[i] == k;
                    if i < pos {
                        assert(after[i] == k);
                    } else {
                        assert(after[i - 1] == k);
                    }
                }
            }
        }
        self.keys = keys;
        key
    }

    /// Makes `key` absent. Returns whether it was present; where it was
    /// absent, nothing changes.
    pub fn remove(&mut self, key: &K) -> (r: bool)
        requires
            lawful_key::<K>(),
        ensures
            r == old(self)@.contains(*key),
            final(self)@ == old(self)@.remove(*key),
            final(self).keys() == if r {
                old(self).keys().remove(old(self).keys().index_of(*key))
            } else {
                old(self).keys()
            },
    {
        proof {
            use_type_invariant(&*self);
        }
        match self.position(key) {
            Some(pos) => {
                proof {
                    assert(self.keys().contains(*key));
                    assert(self.keys().index_of(*key) == pos);
                }
                self.remove_at(pos);
                true
            },
            None => {
                proof {
                    assert(self@ =~= self@.remove(*key));
                }
                false
            },
        }
    }
}

} // verus!
