//! What holds of every function made of dual-bounded pieces.

use crate::dual::{
    can_insert_spec, clash, governing, governs, leads, lemma_leads_unique, well_formed, yields,
    DualBoundedFunction,
};
use crate::order::{comparable, ge, gt, lawful, le, lemma_mirror, lt, same};
use crate::sort::{arranged, lemma_arranged_keeps};
use vstd::prelude::*;

verus! {

/// The function `f` has at most one output at `x`.
pub open spec fn single_valued<B, O, F: Fn(B) -> O>(f: F, x: B) -> bool {
    forall|a: O, b: O| f.ensures((x,), a) && f.ensures((x,), b) ==> a == b
}

/// In a well-formed function, a point of `[lower, higher)` of a piece is
/// governed by that piece. So a point strictly inside one interval gives that
/// interval's function, and where two pieces touch, the shared point goes to
/// the piece that starts there.
pub proof fn lemma_inside_governed<B: PartialOrd, O, F>(
    s: Seq<DualBoundedFunction<B, O, F>>,
    k: int,
    x: B,
)
    requires
        lawful::<B>(),
        well_formed(s),
        0 <= k < s.len(),
        ge(x, s[k].lower),
        lt(x, s[k].higher),
    ensures
        governing(s, x) == Some(k),
{
    assert forall|j: int| 0 <= j < k implies !#[trigger] governs(s, j, x) by {
        // An earlier piece that held `x` would collide with the piece at `k`,
        // and a gap behind an earlier piece ends at or below the bound at `k`.
        assert(le(s[j].lower, s[k].lower));
        if j + 1 < k {
            assert(le(s[j + 1].lower, s[k].lower));
        }
    }
    lemma_leads_unique(s, x, k);
}

/// Where the higher bound of one piece is the lower bound of another, which
/// has its bounds in order, the shared point is governed by the piece that
/// starts there.
pub proof fn lemma_boundary_goes_to_later_piece<B: PartialOrd, O, F>(
    s: Seq<DualBoundedFunction<B, O, F>>,
    j: int,
    k: int,
)
    requires
        lawful::<B>(),
        well_formed(s),
        0 <= j < s.len(),
        0 <= k < s.len(),
        same(s[j].higher, s[k].lower),
        lt(s[k].lower, s[k].higher),
    ensures
        governing(s, s[j].higher) == Some(k),
{
    lemma_inside_governed(s, k, s[j].higher);
}

/// Whatever the order of insertion: once the pieces are sorted, a point of
/// `[lower, higher)` of an inserted piece is governed by that piece.
pub proof fn lemma_built_inside_governed<B: PartialOrd, O, F>(
    src: Seq<DualBoundedFunction<B, O, F>>,
    out: Seq<DualBoundedFunction<B, O, F>>,
    from: Seq<int>,
    m: int,
    x: B,
) -> (i: int)
    requires
        lawful::<B>(),
        arranged(src, out, from),
        well_formed(out),
        0 <= m < src.len(),
        ge(x, src[m].lower),
        lt(x, src[m].higher),
    ensures
        0 <= i < out.len(),
        out[i] == src[m],
        governing(out, x) == Some(i),
{
    let i = lemma_arranged_keeps(src, out, from, m);
    lemma_inside_governed(out, i, x);
    i
}

/// Whatever the order of insertion: once the pieces are sorted, the point at
/// which one inserted piece ends and another starts is governed by the one
/// that starts there.
pub proof fn lemma_built_boundary_goes_to_later_piece<B: PartialOrd, O, F>(
    src: Seq<DualBoundedFunction<B, O, F>>,
    out: Seq<DualBoundedFunction<B, O, F>>,
    from: Seq<int>,
    a: int,
    b: int,
) -> (i: int)
    requires
        lawful::<B>(),
        arranged(src, out, from),
        well_formed(out),
        0 <= a < src.len(),
        0 <= b < src.len(),
        same(src[a].higher, src[b].lower),
        lt(src[b].lower, src[b].higher),
    ensures
        0 <= i < out.len(),
        out[i] == src[b],
        governing(out, src[a].higher) == Some(i),
{
    let j = lemma_arranged_keeps(src, out, from, a);
    let i = lemma_arranged_keeps(src, out, from, b);
    lemma_boundary_goes_to_later_piece(out, j, i);
    i
}

/// In a well-formed function whose last piece has its bounds in order, the
/// higher bound of the last piece is governed by that piece: the whole range
/// is closed at its end.
pub proof fn lemma_closed_at_end<B: PartialOrd, O, F>(s: Seq<DualBoundedFunction<B, O, F>>, x: B)
    requires
        lawful::<B>(),
        well_formed(s),
        s.len() > 0,
        le(s.last().lower, s.last().higher),
        same(x, s.last().higher),
    ensures
        governing(s, x) == Some(s.len() - 1),
{
    let k = s.len() - 1;
    assert forall|j: int| 0 <= j < k implies !#[trigger] governs(s, j, x) by {
        // An earlier piece that held `x` would reach beyond the last piece,
        // and a gap behind an earlier piece ends at or below the last bound.
        assert(le(s[j].lower, s[k].lower));
        if j + 1 < k {
            assert(le(s[j + 1].lower, s[k].lower));
        }
    }
    lemma_leads_unique(s, x, k);
}

/// A point that lies in no interval `[lower, higher)`, is not the higher
/// bound of the last piece, and does not lie in a gap behind a piece, is
/// undefined.
pub proof fn lemma_outside_undefined<B: PartialOrd, O, F>(
    s: Seq<DualBoundedFunction<B, O, F>>,
    x: B,
)
    requires
        forall|i: int| 0 <= i < s.len() ==> !(ge(x, (#[trigger] s[i]).lower) && lt(x, s[i].higher)),
        s.len() > 0 ==> !same(x, s.last().higher),
        forall|i: int|
            0 <= i < s.len() - 1 ==> !(ge(x, (#[trigger] s[i]).higher) && lt(x, s[i + 1].lower)),
    ensures
        governing(s, x) is None,
{
    assert forall|i: int| !leads(s, i, x) by {}
}

/// In a function whose pieces all have their bounds in order, a point below
/// every lower bound, or above every higher bound, is undefined.
pub proof fn lemma_beyond_undefined<B: PartialOrd, O, F>(
    s: Seq<DualBoundedFunction<B, O, F>>,
    x: B,
)
    requires
        lawful::<B>(),
        forall|i: int| 0 <= i < s.len() ==> le((#[trigger] s[i]).lower, s[i].higher),
        (forall|i: int| 0 <= i < s.len() ==> lt(x, (#[trigger] s[i]).lower)) || (forall|i: int|
            0 <= i < s.len() ==> gt(x, (#[trigger] s[i]).higher)),
    ensures
        governing(s, x) is None,
{
    assert forall|i: int| !leads(s, i, x) by {
        if 0 <= i < s.len() {
            assert(le(s[i].lower, s[i].higher));
            if i + 1 < s.len() {
                assert(le(s[i + 1].lower, s[i + 1].higher));
            }
        }
    }
}

/// A point that cannot be ordered against any bound is undefined.
pub proof fn lemma_unordered_undefined<B: PartialOrd, O, F>(
    s: Seq<DualBoundedFunction<B, O, F>>,
    x: B,
)
    requires
        forall|i: int|
            0 <= i < s.len() ==> !comparable(x, (#[trigger] s[i]).lower) && !comparable(
                x,
                s[i].higher,
            ),
    ensures
        governing(s, x) is None,
{
    assert forall|i: int| !leads(s, i, x) by {}
}

/// An interval that starts inside a piece, ends inside it, or covers it,
/// cannot be inserted.
pub proof fn lemma_overlap_rejected<B: PartialOrd, O, F>(
    s: Seq<DualBoundedFunction<B, O, F>>,
    i: int,
    lower: B,
    higher: B,
)
    requires
        0 <= i < s.len(),
        (ge(lower, s[i].lower) && lt(lower, s[i].higher)) || (gt(higher, s[i].lower) && le(
            higher,
            s[i].higher,
        )) || (le(lower, s[i].lower) && ge(higher, s[i].higher)),
    ensures
        !can_insert_spec(s, lower, higher),
{
    assert(clash(lower, higher, s[i]));
}

/// Two intervals with their bounds in order that share a point cannot be
/// inserted one after the other, in either order: neither after a copy of
/// itself, nor one that reaches into the other, lies within it or covers it.
pub proof fn lemma_shared_point_rejected<B: PartialOrd, O, F>(
    s: Seq<DualBoundedFunction<B, O, F>>,
    i: int,
    lower: B,
    higher: B,
    x: B,
)
    requires
        lawful::<B>(),
        0 <= i < s.len(),
        comparable(lower, s[i].lower),
        comparable(higher, s[i].higher),
        le(lower, x) && lt(x, higher),
        le(s[i].lower, x) && lt(x, s[i].higher),
    ensures
        !can_insert_spec(s, lower, higher),
{
    assert(clash(lower, higher, s[i]));
}

/// An interval that only touches the pieces, ending where one starts or
/// starting where one ends, and otherwise lies to one side of each, can be
/// inserted.
pub proof fn lemma_touching_accepted<B: PartialOrd, O, F>(
    s: Seq<DualBoundedFunction<B, O, F>>,
    lower: B,
    higher: B,
)
    requires
        lawful::<B>(),
        lt(lower, higher),
        forall|i: int|
            0 <= i < s.len() ==> lt((#[trigger] s[i]).lower, s[i].higher) && (le(higher, s[i].lower)
                || le(s[i].higher, lower)),
    ensures
        can_insert_spec(s, lower, higher),
{
    assert forall|i: int| 0 <= i < s.len() implies !clash(lower, higher, #[trigger] s[i]) by {
        lemma_mirror(lower, s[i].lower);
        lemma_mirror(higher, s[i].higher);
    }
}

/// Evaluating twice at the same point gives the same answer: both times
/// nothing, or both times an output of the same piece, and the same output
/// where that piece's function has only one.
pub proof fn lemma_eval_repeatable<B: PartialOrd, O, F: Fn(B) -> O>(
    s: Seq<DualBoundedFunction<B, O, F>>,
    x: B,
    first: Option<O>,
    second: Option<O>,
)
    requires
        yields(s, x, first),
        yields(s, x, second),
    ensures
        first is Some <==> second is Some,
        match governing(s, x) {
            Some(i) => single_valued(s[i].func, x) ==> first == second,
            None => first == second,
        },
{
}

} // verus!
