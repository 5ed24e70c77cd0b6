//! The total order on keys, phrased over `Ord`.
use core::cmp::Ordering;
use vstd::laws_cmp::obeys_cmp;
use vstd::prelude::*;
use vstd::std_specs::cmp::OrdSpec;

verus! {

/// `K`'s `Ord` is a total order that agrees with equality of values.
pub open spec fn total_order<K: Ord>() -> bool {
    &&& obeys_cmp::<K>()
    &&& forall|a: K, b: K| #[trigger] a.cmp_spec(&b) == Ordering::Equal <==> a == b
}

/// `a` sorts strictly before `b`.
pub open spec fn less<K: Ord>(a: K, b: K) -> bool {
    a.cmp_spec(&b) == Ordering::Less
}

/// The laws of a strict total order, unfolded for the solver.
pub proof fn lemma_order_laws<K: Ord>()
    requires
        total_order::<K>(),
    ensures
        forall|a: K| !#[trigger] less(a, a),
        forall|a: K, b: K| #[trigger] less(a, b) ==> !less(b, a),
        forall|a: K, b: K| a == b || #[trigger] less(a, b) || less(b, a),
        forall|a: K, b: K, c: K| #[trigger] less(a, b) && #[trigger] less(b, c) ==> less(a, c),
{
    reveal(vstd::laws_cmp::obeys_cmp_ord);
    reveal(vstd::laws_cmp::obeys_cmp_partial_ord);
    reveal(vstd::laws_cmp::obeys_partial_cmp_spec_properties);
    reveal(vstd::laws_eq::obeys_eq_spec_properties);
}

/// The primitive integers are totally ordered keys.
pub proof fn lemma_integers_totally_ordered()
    ensures
        total_order::<u8>(),
        total_order::<u16>(),
        total_order::<u32>(),
        total_order::<u64>(),
        total_order::<u128>(),
        total_order::<usize>(),
        total_order::<i8>(),
        total_order::<i16>(),
        total_order::<i32>(),
        total_order::<i64>(),
        total_order::<i128>(),
        total_order::<isize>(),
{
    broadcast use vstd::laws_cmp::group_laws_cmp;
}

/// How a key stands to another.
#[derive(Clone, Copy, PartialEq, Eq, Structural)]
pub enum Side {
    Below,
    Same,
    Above,
}

/// Compares two keys.
pub fn compare<K: Ord>(a: &K, b: &K) -> (side: Side)
    requires
        total_order::<K>(),
    ensures
        side == Side::Below <==> less(*a, *b),
        side == Side::Same <==> *a == *b,
        side == Side::Above <==> less(*b, *a),
{
    proof {
        lemma_order_laws::<K>();
        reveal(vstd::laws_cmp::obeys_cmp_ord);
    }
    match a.cmp(b) {
        Ordering::Less => Side::Below,
        Ordering::Equal => Side::Same,
        Ordering::Greater => Side::Above,
    }
}

} // verus!
