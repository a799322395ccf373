//! The order of keys: what the ordered list asks of a key type, and the
//! comparison it makes.

use vstd::prelude::*;
use core::cmp::Ordering;
use vstd::std_specs::cmp::OrdSpec;

verus! {

/// How one key stands to another.
#[derive(Clone, Copy, Debug)]
pub enum Rank {
    Less,
    Equal,
    Greater,
}

/// Whether `a` comes before `b` in the order of the key type.
pub open spec fn key_lt<K: Ord>(a: K, b: K) -> bool {
    a.cmp_spec(&b) == Ordering::Less
}

/// Whether the key type's comparison is a strict total order that agrees
/// with equality: it does what it is specified to do, of two keys exactly
/// one comes first unless they are equal, and the order is transitive.
#[verifier::opaque]
pub open spec fn total_order<K: Ord>() -> bool {
    &&& K::obeys_cmp_spec()
    &&& forall|a: K, b: K| (#[trigger] a.cmp_spec(&b) == Ordering::Equal) <==> a == b
    &&& forall|a: K, b: K|
        (#[trigger] a.cmp_spec(&b) == Ordering::Greater) <==> b.cmp_spec(&a) == Ordering::Less
    &&& forall|a: K, b: K, c: K|
        key_lt(a, b) && #[trigger] key_lt(b, c) ==> #[trigger] key_lt(a, c)
}

/// Of two keys, exactly one of three holds: the first comes first, they are
/// equal, or the second comes first.
pub proof fn lemma_trichotomy<K: Ord>(a: K, b: K)
    requires
        total_order::<K>(),
    ensures
        key_lt(a, b) || a == b || key_lt(b, a),
        !(key_lt(a, b) && a == b),
        !(key_lt(a, b) && key_lt(b, a)),
        !(a == b && key_lt(b, a)),
{
    reveal(total_order);
    let x = a.cmp_spec(&b);
    let y = b.cmp_spec(&a);
    assert(a.cmp_spec(&b) == Ordering::Greater <==> b.cmp_spec(&a) == Ordering::Less);
    assert(b.cmp_spec(&a) == Ordering::Greater <==> a.cmp_spec(&b) == Ordering::Less);
    assert(a.cmp_spec(&b) == Ordering::Equal <==> a == b);
    assert(b.cmp_spec(&a) == Ordering::Equal <==> b == a);
}

/// The order is transitive.
pub proof fn lemma_lt_transitive<K: Ord>(a: K, b: K, c: K)
    requires
        total_order::<K>(),
        key_lt(a, b),
        key_lt(b, c),
    ensures
        key_lt(a, c),
{
    reveal(total_order);
}

/// Compares two keys.
pub fn compare<K: Ord>(a: &K, b: &K) -> (rank: Rank)
    requires
        total_order::<K>(),
    ensures
        match rank {
            Rank::Less => key_lt(*a, *b),
            Rank::Equal => *a == *b,
            Rank::Greater => key_lt(*b, *a),
        },
{
    proof {
        reveal(total_order);
        lemma_trichotomy(*a, *b);
    }
    match a.cmp(b) {
        Ordering::Less => Rank::Less,
        Ordering::Equal => Rank::Equal,
        Ordering::Greater => Rank::Greater,
    }
}

/// The built-in order of the integer types is a total order.
pub proof fn lemma_integers_ordered()
    ensures
        total_order::<i32>(),
        total_order::<i64>(),
        total_order::<u32>(),
        total_order::<u64>(),
        total_order::<usize>(),
{
    reveal(total_order);
}

} // verus!
