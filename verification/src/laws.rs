//! What holds of the map whatever is stored in it, stated over the entries
//! that the operations' contracts speak of.

use crate::facade::{floor_entry, last_of, latest_of, popped};
use crate::index::{
    floor_of, is_floor, is_max, lemma_floor_is, lemma_floor_none, lemma_floor_of, lemma_max_of,
    max_of,
};
use crate::order::{key_le, key_lt, lawful_key, lemma_lt_transitive, lemma_trichotomy};
use vstd::prelude::*;

verus! {

/// One change to a map: storing a value under a key, or removing the entry
/// that a floor query for a key finds.
pub enum Step<K, V> {
    /// `insert` with this key and value.
    Put(K, V),
    /// `pop_latest` with this key.
    Pop(K),
}

/// The entries after one change to `m`.
pub open spec fn apply<K: Ord, V>(m: Map<K, V>, step: Step<K, V>) -> Map<K, V> {
    match step {
        Step::Put(k, v) => m.insert(k, v),
        Step::Pop(q) => popped(m, q),
    }
}

/// The entries after the changes of `steps`, made in order to an empty map.
pub open spec fn replay<K: Ord, V>(steps: Seq<Step<K, V>>) -> Map<K, V>
    decreases steps.len(),
{
    if steps.len() == 0 {
        Map::empty()
    } else {
        apply(replay(steps.drop_last()), steps.last())
    }
}

/// Step `i` of `steps` stores a value under `k` itself.
pub open spec fn stores<K: Ord, V>(steps: Seq<Step<K, V>>, i: int, k: K) -> bool {
    steps[i] matches Step::Put(put, _) && put == k
}

/// Step `i` of `steps` removes the entry of `k`: it is a `Pop` whose floor,
/// among the keys present when it is made, is `k`.
pub open spec fn removes<K: Ord, V>(steps: Seq<Step<K, V>>, i: int, k: K) -> bool {
    steps[i] matches Step::Pop(q) && floor_of(replay(steps.take(i)).dom(), q) == Some(k)
}

/// The entries after storing the pairs of `puts`, in order, in an empty map.
pub open spec fn filled<K, V>(puts: Seq<(K, V)>) -> Map<K, V>
    decreases puts.len(),
{
    if puts.len() == 0 {
        Map::empty()
    } else {
        filled(puts.drop_last()).insert(puts.last().0, puts.last().1)
    }
}

/// After a sequence of inserts the keys present are the keys inserted, each
/// with the value of its last insert, and they are finitely many.
pub proof fn lemma_filled<K, V>(puts: Seq<(K, V)>)
    ensures
        filled(puts).dom().finite(),
        forall|k: K|
            filled(puts).contains_key(k) <==> exists|i: int|
                0 <= i < puts.len() && #[trigger] puts[i].0 == k,
        forall|i: int|
            0 <= i < puts.len() && (forall|j: int| i < j < puts.len() ==> puts[j].0 != puts[i].0)
                ==> filled(puts)[#[trigger] puts[i].0] == puts[i].1,
    decreases puts.len(),
{
    if puts.len() > 0 {
        let init = puts.drop_last();
        let last = puts.last();
        lemma_filled(init);
        assert forall|k: K|
            filled(puts).contains_key(k) <==> exists|i: int|
                0 <= i < puts.len() && #[trigger] puts[i].0 == k by {
            if filled(puts).contains_key(k) {
                if k == last.0 {
                    assert(puts[puts.len() - 1].0 == k);
                } else {
                    let i = choose|i: int| 0 <= i < init.len() && #[trigger] init[i].0 == k;
                    assert(puts[i].0 == k);
                }
            }
            if exists|i: int| 0 <= i < puts.len() && #[trigger] puts[i].0 == k {
                let i = choose|i: int| 0 <= i < puts.len() && #[trigger] puts[i].0 == k;
                if i < init.len() {
                    assert(init[i].0 == k);
                }
            }
        }
        assert forall|i: int|
            0 <= i < puts.len() && (forall|j: int|
                i < j < puts.len() ==> puts[j].0 != puts[i].0) implies filled(puts)[#[trigger] puts[i].0]
            == puts[i].1 by {
            if i < init.len() {
                assert(init[i] == puts[i]);
                assert(puts[puts.len() - 1].0 != puts[i].0);
                assert forall|j: int| i < j < init.len() implies init[j].0 != init[i].0 by {
                    assert(init[j] == puts[j]);
                }
            }
        }
    }
}

/// A floor query finds the value under the greatest key present that does
/// not exceed the query, and finds nothing exactly where every key present
/// comes after the query.
pub proof fn law_latest_is_floor<K: Ord, V>(m: Map<K, V>, q: K)
    requires
        lawful_key::<K>(),
        m.dom().finite(),
    ensures
        match latest_of(m, q) {
            Some(v) => exists|k: K| is_floor(m.dom(), q, k) && v == m[k],
            None => forall|k: K| m.contains_key(k) ==> key_lt(q, k),
        },
{
    lemma_floor_of(m.dom(), q);
}

/// After any sequence of inserts, a floor query for `q` gives the value
/// last inserted under the greatest inserted key that does not exceed `q`,
/// and gives nothing where `q` comes before every inserted key.
pub proof fn law_latest_after_inserts<K: Ord, V>(puts: Seq<(K, V)>, q: K)
    requires
        lawful_key::<K>(),
    ensures
        match latest_of(filled(puts), q) {
            Some(v) => exists|i: int|
                {
                    &&& 0 <= i < puts.len()
                    &&& key_le(#[trigger] puts[i].0, q)
                    &&& forall|j: int|
                        0 <= j < puts.len() && key_le(#[trigger] puts[j].0, q) ==> key_le(
                            puts[j].0,
                            puts[i].0,
                        )
                    &&& forall|j: int| i < j < puts.len() ==> #[trigger] puts[j].0 != puts[i].0
                    &&& v == puts[i].1
                },
            None => forall|i: int| 0 <= i < puts.len() ==> key_lt(q, #[trigger] puts[i].0),
        },
{
    let m = filled(puts);
    lemma_filled(puts);
    lemma_floor_of(m.dom(), q);
    match floor_of(m.dom(), q) {
        Some(k) => {
            let i = last_put(puts, k, puts.len() as int);
            lemma_last_put(puts, k, puts.len() as int);
            assert(puts[i].0 == k);
            assert forall|j: int|
                0 <= j < puts.len() && key_le(#[trigger] puts[j].0, q) implies key_le(
                puts[j].0,
                puts[i].0,
            ) by {
                assert(m.contains_key(puts[j].0));
            }
            assert(m[puts[i].0] == puts[i].1);
        },
        None => {
            assert forall|i: int| 0 <= i < puts.len() implies key_lt(q, #[trigger] puts[i].0) by {
                assert(m.contains_key(puts[i].0));
            }
        },
    }
}

/// The last position below `end` at which `puts` stores under `k`, or -1.
pub open spec fn last_put<K, V>(puts: Seq<(K, V)>, k: K, end: int) -> int
    decreases end,
{
    if end <= 0 {
        -1
    } else if puts[end - 1].0 == k {
        end - 1
    } else {
        last_put(puts, k, end - 1)
    }
}

/// `last_put` finds the last insert under a key that was inserted.
pub proof fn lemma_last_put<K, V>(puts: Seq<(K, V)>, k: K, end: int)
    requires
        0 <= end <= puts.len(),
    ensures
        last_put(puts, k, end) < end,
        last_put(puts, k, end) >= 0 ==> puts[last_put(puts, k, end)].0 == k,
        forall|j: int| last_put(puts, k, end) < j < end ==> #[trigger] puts[j].0 != k,
        (exists|i: int| 0 <= i < end && #[trigger] puts[i].0 == k) ==> last_put(puts, k, end) >= 0,
    decreases end,
{
    if end > 0 && puts[end - 1].0 != k {
        lemma_last_put(puts, k, end - 1);
        if exists|i: int| 0 <= i < end && #[trigger] puts[i].0 == k {
            let i = choose|i: int| 0 <= i < end && #[trigger] puts[i].0 == k;
            assert(i < end - 1);
        }
    }
}

/// A key that has an entry of its own is its own floor: a floor query for
/// it gives its own value, whatever lesser keys are present.
pub proof fn law_exact_match_first<K: Ord, V>(m: Map<K, V>, q: K)
    requires
        lawful_key::<K>(),
        m.contains_key(q),
    ensures
        floor_of(m.dom(), q) == Some(q),
        latest_of(m, q) == Some(m[q]),
{
    lemma_floor_is(m.dom(), q, q);
}

/// Inserting under a key that has an entry replaces the value and adds no
/// entry: the keys and their number stay, and queries see the new value
/// only.
pub proof fn law_overwrite<K: Ord, V>(m: Map<K, V>, k: K, first: V, second: V)
    requires
        lawful_key::<K>(),
        m.dom().finite(),
    ensures
        m.insert(k, first).insert(k, second).dom() == m.insert(k, first).dom(),
        m.insert(k, first).insert(k, second).len() == m.insert(k, first).len(),
        m.insert(k, first).insert(k, second) == m.insert(k, second),
        latest_of(m.insert(k, first).insert(k, second), k) == Some(second),
{
    let once = m.insert(k, first);
    let twice = once.insert(k, second);
    assert(twice.dom() =~= once.dom());
    assert(twice =~= m.insert(k, second));
    law_exact_match_first(twice, k);
}

/// A key has an entry exactly if some step stored under that very key and
/// no later step removed its entry. That a floor query for the key finds
/// something does not give it an entry.
pub proof fn law_contains_is_exact<K: Ord, V>(steps: Seq<Step<K, V>>, k: K)
    requires
        lawful_key::<K>(),
    ensures
        replay(steps).contains_key(k) <==> exists|i: int|
            {
                &&& 0 <= i < steps.len()
                &&& #[trigger] stores(steps, i, k)
                &&& forall|j: int| i < j < steps.len() ==> !#[trigger] removes(steps, j, k)
            },
    decreases steps.len(),
{
    if steps.len() > 0 {
        let n = steps.len() - 1;
        let init = steps.drop_last();
        let before = replay(init);
        law_contains_is_exact(init, k);
        assert(steps.take(n) =~= init);
        assert forall|j: int| 0 <= j < n implies removes(steps, j, k) == removes(init, j, k) by {
            assert(steps.take(j) =~= init.take(j));
        }
        assert forall|j: int| 0 <= j < n implies stores(steps, j, k) == stores(init, j, k) by {}
        let held = exists|i: int|
            {
                &&& 0 <= i < steps.len()
                &&& #[trigger] stores(steps, i, k)
                &&& forall|j: int| i < j < steps.len() ==> !#[trigger] removes(steps, j, k)
            };
        if replay(steps).contains_key(k) {
            if stores(steps, n, k) {
                assert(held);
            } else {
                assert(before.contains_key(k));
                let i = choose|i: int|
                    {
                        &&& 0 <= i < init.len()
                        &&& #[trigger] stores(init, i, k)
                        &&& forall|j: int| i < j < init.len() ==> !#[trigger] removes(init, j, k)
                    };
                assert(stores(steps, i, k));
                assert(!removes(steps, n, k));
                assert forall|j: int| i < j < steps.len() implies !#[trigger] removes(
                    steps,
                    j,
                    k,
                ) by {
                    if j < n {
                        assert(removes(steps, j, k) == removes(init, j, k));
                    }
                }
                assert(held);
            }
        }
        if held {
            let i = choose|i: int|
                {
                    &&& 0 <= i < steps.len()
                    &&& #[trigger] stores(steps, i, k)
                    &&& forall|j: int| i < j < steps.len() ==> !#[trigger] removes(steps, j, k)
                };
            if i < n {
                assert(stores(init, i, k));
                assert forall|j: int| i < j < init.len() implies !#[trigger] removes(
                    init,
                    j,
                    k,
                ) by {
                    assert(removes(steps, j, k) == removes(init, j, k));
                }
                assert(before.contains_key(k));
                assert(!removes(steps, n, k));
            }
            assert(replay(steps).contains_key(k));
        }
    }
}

/// Removing the floor of `q` takes away exactly that entry, so the number
/// of entries goes down by one; a floor query for `q` then finds the
/// greatest key that came before the removed one, or nothing where there
/// was none.
pub proof fn law_pop_falls_through<K: Ord, V>(m: Map<K, V>, q: K, k: K)
    requires
        lawful_key::<K>(),
        m.dom().finite(),
        floor_of(m.dom(), q) == Some(k),
    ensures
        floor_entry(m, q) == Some((k, m[k])),
        popped(m, q) == m.remove(k),
        m.contains_key(k),
        m.remove(k).dom() == m.dom().remove(k),
        m.remove(k).len() == m.len() - 1,
        forall|other: K| other != k && m.contains_key(other) ==> m.remove(k).contains_key(other)
            && m.remove(k)[other] == m[other],
        match latest_of(m.remove(k), q) {
            Some(v) => exists|next: K|
                {
                    &&& m.contains_key(next)
                    &&& key_lt(next, k)
                    &&& forall|other: K|
                        m.contains_key(other) && key_lt(other, k) ==> key_le(other, next)
                    &&& v == m[next]
                },
            None => forall|other: K| m.contains_key(other) ==> !key_lt(other, k),
        },
{
    lemma_floor_of(m.dom(), q);
    let rest = m.remove(k);
    assert(rest.dom() =~= m.dom().remove(k));
    lemma_floor_of(rest.dom(), q);
    match floor_of(rest.dom(), q) {
        Some(next) => {
            lemma_trichotomy(next, k);
            assert forall|other: K| m.contains_key(other) && key_lt(other, k) implies key_le(
                other,
                next,
            ) by {
                lemma_trichotomy(other, k);
                assert(rest.dom().contains(other));
                if k != q {
                    lemma_lt_transitive(other, k, q);
                }
            }
        },
        None => {
            assert forall|other: K| m.contains_key(other) implies !key_lt(other, k) by {
                if key_lt(other, k) {
                    lemma_trichotomy(other, k);
                    assert(rest.dom().contains(other));
                    if k != q {
                        lemma_lt_transitive(other, k, q);
                    }
                    lemma_trichotomy(other, q);
                }
            }
        },
    }
}

/// The last entry is the one with the greatest key present; a map has one
/// unless it is empty, so it has one after any insert.
pub proof fn law_last_is_max<K: Ord, V>(m: Map<K, V>, k: K, v: V)
    requires
        lawful_key::<K>(),
        m.dom().finite(),
    ensures
        match last_of(m) {
            Some((top, value)) => is_max(m.dom(), top) && value == m[top],
            None => m == Map::<K, V>::empty(),
        },
        match last_of(m.insert(k, v)) {
            Some((top, value)) => is_max(m.dom().insert(k), top) && value == m.insert(k, v)[top],
            None => false,
        },
{
    lemma_max_of(m.dom());
    if max_of(m.dom()) is None {
        assert(m =~= Map::<K, V>::empty());
    }
    let more = m.insert(k, v);
    assert(more.dom() =~= m.dom().insert(k));
    lemma_max_of(more.dom());
    assert(more.dom().contains(k));
}

/// In an empty map no query finds anything, and a removal leaves it empty.
pub proof fn law_empty<K: Ord, V>(q: K)
    ensures
        floor_of(Set::<K>::empty(), q) is None,
        max_of(Set::<K>::empty()) is None,
        latest_of(Map::<K, V>::empty(), q) is None,
        last_of(Map::<K, V>::empty()) is None,
        floor_entry(Map::<K, V>::empty(), q) is None,
        popped(Map::<K, V>::empty(), q) == Map::<K, V>::empty(),
{
    lemma_floor_none(Set::<K>::empty(), q);
    assert(Map::<K, V>::empty().dom() =~= Set::<K>::empty());
}

} // verus!
