//! Comparison policy for domain values that are only partially ordered.
//!
//! Every containment test and every sort in this crate goes through
//! [`compare`], which reports one of four outcomes. Two values that cannot be
//! ordered (a not-a-number float, say) are `Unordered`, and every test built
//! on an `Unordered` outcome fails.

use core::cmp::Ordering;
use vstd::prelude::*;
use vstd::std_specs::cmp::PartialOrdSpec;

verus! {

/// How a first domain value stands to a second one.
#[derive(Clone, Copy, PartialEq, Eq, Debug)]
pub enum Relation {
    /// The first is strictly below the second.
    Less,
    /// The two are equal.
    Equal,
    /// The first is strictly above the second.
    Greater,
    /// The two cannot be ordered.
    Unordered,
}

/// Whether the executable comparisons of `B` return what `partial_cmp_spec` says.
pub open spec fn obeys<B: PartialOrd>() -> bool {
    B::obeys_partial_cmp_spec()
}

/// The relation of `a` to `b` under the partial order of `B`.
pub open spec fn relation<B: PartialOrd>(a: B, b: B) -> Relation {
    match a.partial_cmp_spec(&b) {
        Some(Ordering::Less) => Relation::Less,
        Some(Ordering::Equal) => Relation::Equal,
        Some(Ordering::Greater) => Relation::Greater,
        None => Relation::Unordered,
    }
}

/// `a < b`.
pub open spec fn lt<B: PartialOrd>(a: B, b: B) -> bool {
    relation(a, b) == Relation::Less
}

/// `a <= b`.
pub open spec fn le<B: PartialOrd>(a: B, b: B) -> bool {
    relation(a, b) == Relation::Less || relation(a, b) == Relation::Equal
}

/// `a > b`.
pub open spec fn gt<B: PartialOrd>(a: B, b: B) -> bool {
    relation(a, b) == Relation::Greater
}

/// `a >= b`.
pub open spec fn ge<B: PartialOrd>(a: B, b: B) -> bool {
    relation(a, b) == Relation::Greater || relation(a, b) == Relation::Equal
}

/// `a == b` under the order.
pub open spec fn same<B: PartialOrd>(a: B, b: B) -> bool {
    relation(a, b) == Relation::Equal
}

/// `a` and `b` can be ordered.
pub open spec fn comparable<B: PartialOrd>(a: B, b: B) -> bool {
    relation(a, b) != Relation::Unordered
}

/// The relation seen from the other side.
pub open spec fn mirrored(r: Relation) -> Relation {
    match r {
        Relation::Less => Relation::Greater,
        Relation::Equal => Relation::Equal,
        Relation::Greater => Relation::Less,
        Relation::Unordered => Relation::Unordered,
    }
}

/// The order of `B` behaves as a partial order should: swapping the
/// arguments mirrors the outcome, and `<=` and `<` chain. Nothing is asked of
/// values that cannot be ordered, so a float type with not-a-number values can
/// satisfy it.
pub open spec fn lawful<B: PartialOrd>() -> bool {
    &&& forall|a: B, b: B| #[trigger] relation(a, b) == mirrored(relation(b, a))
    &&& forall|a: B, b: B, c: B|
        #![trigger relation(a, b), relation(b, c)]
        le(a, b) && le(b, c) ==> le(a, c)
    &&& forall|a: B, b: B, c: B|
        #![trigger relation(a, b), relation(b, c)]
        lt(a, b) && le(b, c) ==> lt(a, c)
    &&& forall|a: B, b: B, c: B|
        #![trigger relation(a, b), relation(b, c)]
        le(a, b) && lt(b, c) ==> lt(a, c)
}

/// Compares two domain values.
pub fn compare<B: PartialOrd>(a: &B, b: &B) -> (r: Relation)
    ensures
        obeys::<B>() ==> r == relation(*a, *b),
{
    match a.partial_cmp(b) {
        Some(Ordering::Less) => Relation::Less,
        Some(Ordering::Equal) => Relation::Equal,
        Some(Ordering::Greater) => Relation::Greater,
        None => Relation::Unordered,
    }
}

/// Tests `a < b`; false when the two cannot be ordered.
pub fn is_lt<B: PartialOrd>(a: &B, b: &B) -> (r: bool)
    ensures
        obeys::<B>() ==> r == lt(*a, *b),
{
    match compare(a, b) {
        Relation::Less => true,
        _ => false,
    }
}

/// Tests `a <= b`; false when the two cannot be ordered.
pub fn is_le<B: PartialOrd>(a: &B, b: &B) -> (r: bool)
    ensures
        obeys::<B>() ==> r == le(*a, *b),
{
    match compare(a, b) {
        Relation::Less => true,
        Relation::Equal => true,
        _ => false,
    }
}

/// Tests `a > b`; false when the two cannot be ordered.
pub fn is_gt<B: PartialOrd>(a: &B, b: &B) -> (r: bool)
    ensures
        obeys::<B>() ==> r == gt(*a, *b),
{
    match compare(a, b) {
        Relation::Greater => true,
        _ => false,
    }
}

/// Tests `a >= b`; false when the two cannot be ordered.
pub fn is_ge<B: PartialOrd>(a: &B, b: &B) -> (r: bool)
    ensures
        obeys::<B>() ==> r == ge(*a, *b),
{
    match compare(a, b) {
        Relation::Greater => true,
        Relation::Equal => true,
        _ => false,
    }
}

/// Tests `a == b` under the order; false when the two cannot be ordered.
pub fn is_same<B: PartialOrd>(a: &B, b: &B) -> (r: bool)
    ensures
        obeys::<B>() ==> r == same(*a, *b),
{
    match compare(a, b) {
        Relation::Equal => true,
        _ => false,
    }
}

/// Swapping the arguments mirrors the relation.
pub proof fn lemma_mirror<B: PartialOrd>(a: B, b: B)
    requires
        lawful::<B>(),
    ensures
        relation(a, b) == mirrored(relation(b, a)),
        relation(b, a) == mirrored(relation(a, b)),
{
}

/// `<=` and `<` chain: from `a <= b <= c` follows `a <= c`, strictly where
/// one of the two steps is strict.
pub proof fn lemma_chain<B: PartialOrd>(a: B, b: B, c: B)
    requires
        lawful::<B>(),
    ensures
        le(a, b) && le(b, c) ==> le(a, c),
        lt(a, b) && le(b, c) ==> lt(a, c),
        le(a, b) && lt(b, c) ==> lt(a, c),
{
}

/// The order of the unsigned 64-bit integers is lawful, and any two of them
/// can be ordered: what is proved of lawful orders holds of functions on them.
pub proof fn lemma_u64_lawful()
    ensures
        obeys::<u64>(),
        lawful::<u64>(),
        forall|a: u64, b: u64| comparable(a, b),
{
}

/// The order of the signed 64-bit integers is lawful, and any two of them
/// can be ordered.
pub proof fn lemma_i64_lawful()
    ensures
        obeys::<i64>(),
        lawful::<i64>(),
        forall|a: i64, b: i64| comparable(a, b),
{
}

} // verus!
