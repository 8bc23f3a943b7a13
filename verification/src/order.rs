//! The order on keys, as the rest of the crate sees it.
//!
//! Keys are ordered by their `Ord` implementation. Everything proved about
//! the map assumes that this implementation is a strict total order that
//! agrees with equality of values; `lawful_key` says so.

use core::cmp::Ordering;
use vstd::laws_cmp::obeys_cmp;
use vstd::laws_eq::obeys_concrete_eq;
use vstd::prelude::*;
use vstd::std_specs::cmp::{OrdSpec, PartialEqSpec, PartialOrdSpec};

verus! {

/// The key type compares lawfully: `cmp` is specified, orders the type
/// totally, and calls two keys equal exactly when they are the same value.
pub open spec fn lawful_key<K: Ord>() -> bool {
    &&& obeys_cmp::<K>()
    &&& obeys_concrete_eq::<K>()
}

/// `a` comes strictly before `b`.
pub open spec fn key_lt<K: Ord>(a: K, b: K) -> bool {
    a.cmp_spec(&b) == Ordering::Less
}

/// `a` comes before `b` or is `b`.
pub open spec fn key_le<K: Ord>(a: K, b: K) -> bool {
    key_lt(a, b) || a == b
}

/// No key comes before itself.
pub proof fn lemma_lt_irreflexive<K: Ord>(a: K)
    requires
        lawful_key::<K>(),
    ensures
        !key_lt(a, a),
{
    reveal(obeys_concrete_eq);
    reveal(vstd::laws_cmp::obeys_cmp_partial_ord);
    reveal(vstd::laws_cmp::obeys_cmp_ord);
    assert(a.eq_spec(&a));
    assert(a.partial_cmp_spec(&a) == Some(a.cmp_spec(&a)));
}

/// Of two keys, exactly one of "before", "same", "after" holds.
pub proof fn lemma_trichotomy<K: Ord>(a: K, b: K)
    requires
        lawful_key::<K>(),
    ensures
        key_lt(a, b) || a == b || key_lt(b, a),
        !(key_lt(a, b) && a == b),
        !(key_lt(b, a) && a == b),
        !(key_lt(a, b) && key_lt(b, a)),
{
    reveal(obeys_concrete_eq);
    reveal(vstd::laws_cmp::obeys_cmp_partial_ord);
    reveal(vstd::laws_cmp::obeys_cmp_ord);
    reveal(vstd::laws_cmp::obeys_partial_cmp_spec_properties);
    assert(a.partial_cmp_spec(&b) == Some(a.cmp_spec(&b)));
    assert(b.partial_cmp_spec(&a) == Some(b.cmp_spec(&a)));
    assert(a.partial_cmp_spec(&b) == Some(Ordering::Equal) <==> a.eq_spec(&b));
    assert(b.partial_cmp_spec(&a) == Some(Ordering::Equal) <==> b.eq_spec(&a));
    assert(a.partial_cmp_spec(&b) == Some(Ordering::Less) <==> b.partial_cmp_spec(&a) == Some(
        Ordering::Greater,
    ));
    assert(b.partial_cmp_spec(&a) == Some(Ordering::Less) <==> a.partial_cmp_spec(&b) == Some(
        Ordering::Greater,
    ));
}

/// "Before" is transitive.
pub proof fn lemma_lt_transitive<K: Ord>(a: K, b: K, c: K)
    requires
        lawful_key::<K>(),
        key_lt(a, b),
        key_lt(b, c),
    ensures
        key_lt(a, c),
{
    reveal(vstd::laws_cmp::obeys_cmp_ord);
    reveal(vstd::laws_cmp::obeys_partial_cmp_spec_properties);
    assert(a.partial_cmp_spec(&b) == Some(a.cmp_spec(&b)));
    assert(b.partial_cmp_spec(&c) == Some(b.cmp_spec(&c)));
    assert(a.partial_cmp_spec(&c) == Some(a.cmp_spec(&c)));
}

/// How two keys stand to each other.
#[derive(Clone, Copy, Debug, PartialEq, Eq, Structural)]
pub enum Rank {
    /// The first comes before the second.
    Before,
    /// They are the same key.
    Same,
    /// The first comes after the second.
    After,
}

/// The rank of `a` against `b`, as the order on keys gives it.
pub open spec fn rank_of<K: Ord>(a: K, b: K) -> Rank {
    if key_lt(a, b) {
        Rank::Before
    } else if a == b {
        Rank::Same
    } else {
        Rank::After
    }
}

/// Compares two keys.
pub fn rank<K: Ord>(a: &K, b: &K) -> (r: Rank)
    requires
        lawful_key::<K>(),
    ensures
        r == rank_of(*a, *b),
{
    proof {
        reveal(obeys_concrete_eq);
        reveal(vstd::laws_cmp::obeys_cmp_partial_ord);
        reveal(vstd::laws_cmp::obeys_cmp_ord);
        assert(a.partial_cmp_spec(b) == Some(a.cmp_spec(b)));
        assert(a.partial_cmp_spec(b) == Some(Ordering::Equal) <==> a.eq_spec(b));
    }
    match a.cmp(b) {
        Ordering::Less => Rank::Before,
        Ordering::Equal => Rank::Same,
        Ordering::Greater => Rank::After,
    }
}

/// The built-in integers are lawful keys.
pub proof fn lemma_integers_are_lawful()
    ensures
        lawful_key::<u8>(),
        lawful_key::<u16>(),
        lawful_key::<u32>(),
        lawful_key::<u64>(),
        lawful_key::<u128>(),
        lawful_key::<usize>(),
        lawful_key::<i8>(),
        lawful_key::<i16>(),
        lawful_key::<i32>(),
        lawful_key::<i64>(),
        lawful_key::<i128>(),
        lawful_key::<isize>(),
{
    broadcast use vstd::laws_cmp::group_laws_cmp;
    broadcast use vstd::laws_eq::group_laws_eq;
}

/// As keys the built-in integers are ordered as numbers.
pub proof fn lemma_integers_order_as_numbers()
    ensures
        forall|a: u8, b: u8| key_lt(a, b) <==> a < b,
        forall|a: u16, b: u16| key_lt(a, b) <==> a < b,
        forall|a: u32, b: u32| key_lt(a, b) <==> a < b,
        forall|a: u64, b: u64| key_lt(a, b) <==> a < b,
        forall|a: u128, b: u128| key_lt(a, b) <==> a < b,
        forall|a: usize, b: usize| key_lt(a, b) <==> a < b,
        forall|a: i8, b: i8| key_lt(a, b) <==> a < b,
        forall|a: i16, b: i16| key_lt(a, b) <==> a < b,
        forall|a: i32, b: i32| key_lt(a, b) <==> a < b,
        forall|a: i64, b: i64| key_lt(a, b) <==> a < b,
        forall|a: i128, b: i128| key_lt(a, b) <==> a < b,
        forall|a: isize, b: isize| key_lt(a, b) <==> a < b,
{
}

} // verus!
