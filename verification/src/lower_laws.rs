//! What holds of every function made of lower-bounded pieces.

use crate::dual_laws::single_valued;
use crate::lower::{
    can_insert_spec, governing, governs, leads, lemma_leads_unique, well_formed, yields,
    LowerBoundedFunction,
};
use crate::order::{comparable, ge, lawful, lt, same};
use crate::sort::{arranged, lemma_arranged_keeps};
use vstd::prelude::*;

verus! {

/// A piece cannot be inserted at a bound at which another starts.
pub proof fn lemma_duplicate_rejected<B: PartialOrd, O, F>(
    s: Seq<LowerBoundedFunction<B, O, F>>,
    i: int,
    lower: B,
)
    requires
        0 <= i < s.len(),
        same(lower, s[i].lower),
    ensures
        !can_insert_spec(s, lower),
{
    assert(same(lower, s[i].lower));
}

/// In a well-formed function, the last piece whose lower bound is at or below
/// `x` governs `x`.
pub proof fn lemma_last_below_governs<B: PartialOrd, O, F>(
    s: Seq<LowerBoundedFunction<B, O, F>>,
    k: int,
    x: B,
)
    requires
        lawful::<B>(),
        well_formed(s),
        0 <= k < s.len(),
        ge(x, s[k].lower),
        k + 1 < s.len() ==> lt(x, s[k + 1].lower),
    ensures
        governing(s, x) == Some(k),
{
    assert forall|j: int| 0 <= j < k implies !#[trigger] governs(s, j, x) by {
        // The piece behind an earlier one starts at or below the bound at `k`.
        if j + 1 < k {
            assert(lt(s[j + 1].lower, s[k].lower));
        }
    }
    lemma_leads_unique(s, x, k);
}

/// Whatever the order of insertion: once the pieces are sorted, a point at or
/// above the bound of an inserted piece, with no other bound between that
/// bound and the point, is governed by that piece.
pub proof fn lemma_built_last_below_governs<B: PartialOrd, O, F>(
    src: Seq<LowerBoundedFunction<B, O, F>>,
    out: Seq<LowerBoundedFunction<B, O, F>>,
    from: Seq<int>,
    m: int,
    x: B,
) -> (i: int)
    requires
        lawful::<B>(),
        arranged(src, out, from),
        well_formed(out),
        0 <= m < src.len(),
        ge(x, src[m].lower),
        forall|n: int|
            0 <= n < src.len() && n != m ==> lt((#[trigger] src[n]).lower, src[m].lower) || lt(
                x,
                src[n].lower,
            ),
    ensures
        0 <= i < out.len(),
        out[i] == src[m],
        governing(out, x) == Some(i),
{
    let i = lemma_arranged_keeps(src, out, from, m);
    if i + 1 < out.len() {
        // The next piece starts above this one, so it starts above `x`.
        assert(out[i + 1] == src[from[i + 1]]);
        assert(lt(out[i].lower, out[i + 1].lower));
    }
    lemma_last_below_governs(out, i, x);
    i
}

/// In a well-formed function, a point that can be ordered against the bounds
/// is undefined exactly where it lies below every lower bound.
pub proof fn lemma_undefined_below_all<B: PartialOrd, O, F>(
    s: Seq<LowerBoundedFunction<B, O, F>>,
    x: B,
)
    requires
        lawful::<B>(),
        well_formed(s),
        forall|i: int| 0 <= i < s.len() ==> comparable(x, (#[trigger] s[i]).lower),
    ensures
        governing(s, x) is None <==> forall|i: int|
            0 <= i < s.len() ==> lt(x, (#[trigger] s[i]).lower),
{
    if forall|i: int| 0 <= i < s.len() ==> lt(x, (#[trigger] s[i]).lower) {
        assert forall|i: int| !leads(s, i, x) by {}
    } else {
        let i = choose|i: int| 0 <= i < s.len() && !lt(x, (#[trigger] s[i]).lower);
        let k = lemma_find_last_below(s, x, i);
        lemma_last_below_governs(s, k, x);
    }
}

/// From a piece whose bound is at or below `x`, the last such piece.
proof fn lemma_find_last_below<B: PartialOrd, O, F>(
    s: Seq<LowerBoundedFunction<B, O, F>>,
    x: B,
    i: int,
) -> (k: int)
    requires
        forall|j: int| 0 <= j < s.len() ==> comparable(x, (#[trigger] s[j]).lower),
        0 <= i < s.len(),
        ge(x, s[i].lower),
    ensures
        i <= k < s.len(),
        ge(x, s[k].lower),
        k + 1 < s.len() ==> lt(x, s[k + 1].lower),
    decreases s.len() - i,
{
    if i + 1 < s.len() && !lt(x, s[i + 1].lower) {
        lemma_find_last_below(s, x, i + 1)
    } else {
        i
    }
}

/// A point that cannot be ordered against any bound is undefined.
pub proof fn lemma_unordered_undefined<B: PartialOrd, O, F>(
    s: Seq<LowerBoundedFunction<B, O, F>>,
    x: B,
)
    requires
        forall|i: int| 0 <= i < s.len() ==> !comparable(x, (#[trigger] s[i]).lower),
    ensures
        governing(s, x) is None,
{
    assert forall|i: int| !leads(s, i, x) by {}
}

/// Evaluating twice at the same point gives the same answer: both times
/// nothing, or both times an output of the same piece, and the same output
/// where that piece's function has only one.
pub proof fn lemma_eval_repeatable<B: PartialOrd, O, F: Fn(B) -> O>(
    s: Seq<LowerBoundedFunction<B, O, F>>,
    x: B,
    first: Option<O>,
    second: Option<O>,
)
    requires
        yields(s, x, first),
        yields(s, x, second),
    ensures
        first is Some <==> second is Some,
        match governing(s, x) {
            Some(i) => single_valued(s[i].func, x) ==> first == second,
            None => first == second,
        },
{
}

} // verus!
