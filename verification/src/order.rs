//! What the containers of this crate ask of a key type: that its comparison
//! operators compute a total order whose equality is `==`.

use vstd::prelude::*;
use vstd::std_specs::cmp::{PartialEqSpec, PartialOrdIs, PartialOrdSpec};

verus! {

/// `a` is at most `b` in the order that `<=` computes on `K`.
pub open spec fn le<K: PartialOrd>(a: K, b: K) -> bool {
    a.is_le(&b)
}

/// `a` is below `b` in the order that `<` computes on `K`.
pub open spec fn lt<K: PartialOrd>(a: K, b: K) -> bool {
    a.is_lt(&b)
}

/// The operators `==`, `<` and `<=` of `K` return what their specifications say,
/// `==` holds of equal values only, and `<=` is a total order of which `<` is
/// the strict part.
pub open spec fn total_order<K: PartialOrd>() -> bool {
    &&& K::obeys_eq_spec()
    &&& K::obeys_partial_cmp_spec()
    &&& forall|a: K, b: K| #[trigger] a.eq_spec(&b) <==> a == b
    &&& forall|a: K, b: K| #[trigger] le(a, b) || le(b, a)
    &&& forall|a: K, b: K| #[trigger] le(a, b) && le(b, a) ==> a == b
    &&& forall|a: K, b: K, c: K| #[trigger] le(a, b) && #[trigger] le(b, c) ==> le(a, c)
    &&& forall|a: K, b: K| #[trigger] lt(a, b) <==> le(a, b) && a != b
}

/// Each key is at most every later one.
pub open spec fn sorted<K: PartialOrd>(keys: Seq<K>) -> bool {
    forall|i: int, j: int| 0 <= i <= j < keys.len() ==> le(#[trigger] keys[i], #[trigger] keys[j])
}

/// Each key is below every later one.
pub open spec fn strictly_sorted<K: PartialOrd>(keys: Seq<K>) -> bool {
    forall|i: int, j: int| 0 <= i < j < keys.len() ==> lt(#[trigger] keys[i], #[trigger] keys[j])
}

/// A strictly sorted sequence is sorted and holds no key twice.
pub proof fn lemma_strictly_sorted<K: PartialOrd>(keys: Seq<K>)
    requires
        total_order::<K>(),
        strictly_sorted(keys),
    ensures
        sorted(keys),
        forall|i: int, j: int|
            0 <= i < keys.len() && 0 <= j < keys.len() && #[trigger] keys[i] == #[trigger] keys[j]
                ==> i == j,
{
}

/// Appending a key that is at least the last one keeps a sequence sorted.
pub proof fn lemma_sorted_push<K: PartialOrd>(keys: Seq<K>, key: K)
    requires
        total_order::<K>(),
        sorted(keys),
        keys.len() > 0 ==> le(keys.last(), key),
    ensures
        sorted(keys.push(key)),
{
}

/// The unsigned integers of pointer width are totally ordered.
pub proof fn lemma_total_order_usize()
    ensures
        total_order::<usize>(),
{
}

/// The unsigned 64-bit integers are totally ordered.
pub proof fn lemma_total_order_u64()
    ensures
        total_order::<u64>(),
{
}

/// The unsigned 32-bit integers are totally ordered.
pub proof fn lemma_total_order_u32()
    ensures
        total_order::<u32>(),
{
}

/// The signed 64-bit integers are totally ordered.
pub proof fn lemma_total_order_i64()
    ensures
        total_order::<i64>(),
{
}

} // verus!
