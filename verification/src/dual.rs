//! Pieces with a lower and an upper bound, `[lower, higher)`.

use crate::order::{
    comparable, compare, ge, gt, is_ge, is_gt, is_le, is_lt, is_same, lawful, le, lemma_chain,
    lemma_mirror, lt, obeys, relation, same, Relation,
};
use crate::sort::{
    arranged, lemma_arranged_keeps_ranking, rearranges, sorted, stable_sort, weakly_ordered, Ranked,
};
use core::marker::PhantomData;
use vstd::prelude::*;

verus! {

/// A function that is only defined between `lower` and `higher`.
/// Where the upper bound of one piece meets the lower bound of another, the
/// piece that starts there takes precedence.
pub struct DualBoundedFunction<B, O, F> {
    /// The stored function.
    pub func: F,
    /// The lower bound of the function.
    pub lower: B,
    /// The higher bound of the function.
    pub higher: B,
    /// Ties the output type to the piece.
    pub output: PhantomData<O>,
}

impl<B, O, F> DualBoundedFunction<B, O, F> {
    /// A piece that applies `func` on `[lower, higher)`.
    pub fn new(func: F, lower: B, higher: B) -> (r: Self)
        ensures
            r.func == func,
            r.lower == lower,
            r.higher == higher,
    {
        DualBoundedFunction { func, lower, higher, output: PhantomData }
    }
}

impl<B: PartialOrd, O, F> Ranked for DualBoundedFunction<B, O, F> {
    open spec fn rank_obeys() -> bool {
        obeys::<B>()
    }

    /// By lower bound; by higher bound where the lower bounds are equal or
    /// cannot be ordered; neither before the other where the higher bounds
    /// do not decide either.
    open spec fn ranks_before(&self, other: &Self) -> bool {
        match relation(self.lower, other.lower) {
            Relation::Less => true,
            Relation::Greater => false,
            _ => lt(self.higher, other.higher),
        }
    }

    fn before(&self, other: &Self) -> (r: bool) {
        match compare(&self.lower, &other.lower) {
            Relation::Less => true,
            Relation::Greater => false,
            _ => is_lt(&self.higher, &other.higher),
        }
    }
}

/// The interval `[lower, higher)` collides with the piece `b`: it starts
/// inside `b`, ends inside `b`, or covers `b`.
pub open spec fn clash<B: PartialOrd, O, F>(
    lower: B,
    higher: B,
    b: DualBoundedFunction<B, O, F>,
) -> bool {
    ||| ge(lower, b.lower) && lt(lower, b.higher)
    ||| gt(higher, b.lower) && le(higher, b.higher)
    ||| le(lower, b.lower) && ge(higher, b.higher)
}

/// `[lower, higher)` collides with no piece of `s`.
pub open spec fn can_insert_spec<B: PartialOrd, O, F>(
    s: Seq<DualBoundedFunction<B, O, F>>,
    lower: B,
    higher: B,
) -> bool {
    forall|i: int| 0 <= i < s.len() ==> !clash(lower, higher, #[trigger] s[i])
}

/// `after` is `before` with one more piece at its end, made of `func`,
/// `lower` and `higher`.
pub open spec fn extended<B, O, F>(
    before: Seq<DualBoundedFunction<B, O, F>>,
    after: Seq<DualBoundedFunction<B, O, F>>,
    lower: B,
    higher: B,
    func: F,
) -> bool {
    &&& after.len() == before.len() + 1
    &&& after.drop_last() == before
    &&& after.last().func == func
    &&& after.last().lower == lower
    &&& after.last().higher == higher
}

/// Of any two pieces of `s`, one could have been inserted after the other.
pub open spec fn separate<B: PartialOrd, O, F>(s: Seq<DualBoundedFunction<B, O, F>>) -> bool {
    forall|i: int, j: int|
        #![trigger s[i], s[j]]
        0 <= i < s.len() && 0 <= j < s.len() && i != j ==> !clash(s[i].lower, s[i].higher, s[j])
            || !clash(s[j].lower, s[j].higher, s[i])
}

/// Any two bounds of `s` can be ordered.
pub open spec fn comparable_bounds<B: PartialOrd, O, F>(
    s: Seq<DualBoundedFunction<B, O, F>>,
) -> bool {
    forall|i: int, j: int|
        #![trigger s[i], s[j]]
        0 <= i < s.len() && 0 <= j < s.len() ==> comparable(s[i].lower, s[j].lower) && comparable(
            s[i].lower,
            s[j].higher,
        ) && comparable(s[i].higher, s[j].lower) && comparable(s[i].higher, s[j].higher)
}

/// The lower bounds of `s` ascend.
pub open spec fn ascending<B: PartialOrd, O, F>(s: Seq<DualBoundedFunction<B, O, F>>) -> bool {
    forall|i: int, j: int|
        #![trigger s[i], s[j]]
        0 <= i < j < s.len() ==> le(s[i].lower, s[j].lower)
}

/// What a valid piecewise function holds: bounds that can all be ordered,
/// pieces that do not collide, in ascending order of their lower bounds.
pub open spec fn well_formed<B: PartialOrd, O, F>(s: Seq<DualBoundedFunction<B, O, F>>) -> bool {
    &&& comparable_bounds(s)
    &&& separate(s)
    &&& ascending(s)
}

/// The piece at `i` claims `x`: `x` lies in `[lower, higher)`; or the piece is
/// the last one and `x` is its higher bound; or a gap follows the piece and `x`
/// lies between its higher bound and the next lower bound.
pub open spec fn governs<B: PartialOrd, O, F>(
    s: Seq<DualBoundedFunction<B, O, F>>,
    i: int,
    x: B,
) -> bool {
    ||| ge(x, s[i].lower) && lt(x, s[i].higher)
    ||| i + 1 == s.len() && same(x, s[i].higher)
    ||| i + 1 < s.len() && !same(s[i + 1].lower, s[i].higher) && ge(x, s[i].higher) && lt(
        x,
        s[i + 1].lower,
    )
}

/// The piece at `i` is the first that claims `x`.
pub open spec fn leads<B: PartialOrd, O, F>(
    s: Seq<DualBoundedFunction<B, O, F>>,
    i: int,
    x: B,
) -> bool {
    &&& 0 <= i < s.len()
    &&& governs(s, i, x)
    &&& forall|j: int| 0 <= j < i ==> !#[trigger] governs(s, j, x)
}

/// The index of the piece that governs `x`, if any.
pub open spec fn governing<B: PartialOrd, O, F>(
    s: Seq<DualBoundedFunction<B, O, F>>,
    x: B,
) -> Option<int> {
    if exists|i: int| leads(s, i, x) {
        Some(choose|i: int| leads(s, i, x))
    } else {
        None
    }
}

/// Every piece's function can be called on `x`.
pub open spec fn accepts<B, O, F: Fn(B) -> O>(s: Seq<DualBoundedFunction<B, O, F>>, x: B) -> bool {
    forall|i: int| 0 <= i < s.len() ==> (#[trigger] s[i]).func.requires((x,))
}

/// `r` is a possible value of the function at `x`: an output of the governing
/// piece's function, or nothing where no piece governs.
pub open spec fn yields<B: PartialOrd, O, F: Fn(B) -> O>(
    s: Seq<DualBoundedFunction<B, O, F>>,
    x: B,
    r: Option<O>,
) -> bool {
    match governing(s, x) {
        Some(i) => r matches Some(o) && s[i].func.ensures((x,), o),
        None => r is None,
    }
}

/// A function defined by pieces, each on `[lower, higher)`, held in ascending
/// order of their lower bounds.
pub struct PartialFunction<B: PartialOrd, O, F> {
    funcs: Vec<DualBoundedFunction<B, O, F>>,
}

/// A builder to create an immutable [`PartialFunction`].
pub struct PartialFunctionBuilder<B: PartialOrd, O, F> {
    funcs: Vec<DualBoundedFunction<B, O, F>>,
}

impl<B: PartialOrd, O, F> PartialFunction<B, O, F> {
    /// The pieces are separate, and sorted wherever their ranking is a strict weak
    /// order.
    #[verifier::type_invariant]
    spec fn inv(self) -> bool {
        obeys::<B>() ==> separate(self.funcs@) && (weakly_ordered(self.funcs@) ==> sorted(self.funcs@))
    }
}

impl<B: PartialOrd, O, F: Fn(B) -> O> PartialFunction<B, O, F> {
    /// The pieces, in the order in which they are searched.
    pub closed spec fn view(&self) -> Seq<DualBoundedFunction<B, O, F>> {
        self.funcs@
    }

    /// Creates a new, empty builder.
    pub fn new() -> (r: PartialFunctionBuilder<B, O, F>)
        ensures
            r@ == Seq::<DualBoundedFunction<B, O, F>>::empty(),
    {
        PartialFunctionBuilder::new()
    }

    /// Evaluates the function at `x`: the governing piece's function applied
    /// to `x`, or `None` where no piece governs.
    ///
    /// Every function whose bounds can all be ordered is well formed, so the
    /// laws on well-formed sequences of pieces apply to what is evaluated.
    pub fn eval(&self, x: B) -> (r: Option<O>)
        requires
            accepts(self@, x),
        ensures
            obeys::<B>() ==> yields(self@, x, r),
            r matches Some(o) ==> exists|i: int|
                0 <= i < self@.len() && (#[trigger] self@[i]).func.ensures((x,), o),
            obeys::<B>() && lawful::<B>() && comparable_bounds(self@) ==> well_formed(self@),
    {
        proof {
            use_type_invariant(self);
            if obeys::<B>() && lawful::<B>() && comparable_bounds(self@) {
                lemma_bounds_weakly_ordered(self@);
                lemma_sorted_well_formed(self@);
            }
        }
        let n: usize = self.funcs.len();
        let mut i: usize = 0;
        assert(self@ == self.funcs@);
        while i < n
            invariant
                n == self.funcs.len(),
                i <= n,
                self@ == self.funcs@,
                accepts(self@, x),
                obeys::<B>() && lawful::<B>() && comparable_bounds(self@) ==> well_formed(self@),
                obeys::<B>() ==> forall|j: int| 0 <= j < i ==> !#[trigger] governs(self@, j, x),
            decreases n - i,
        {
            let piece = &self.funcs[i];
            let hit = if is_ge(&x, &piece.lower) && is_lt(&x, &piece.higher) {
                true
            } else if i + 1 == n {
                is_same(&x, &piece.higher)
            } else {
                let next = &self.funcs[i + 1];
                !is_same(&next.lower, &piece.higher) && is_ge(&x, &piece.higher) && is_lt(
                    &x,
                    &next.lower,
                )
            };
            if hit {
                proof {
                    if obeys::<B>() {
                        assert(leads(self@, i as int, x));
                        lemma_leads_unique(self@, x, i as int);
                    }
                }
                assert(self@[i as int].func.requires((x,)));
                let f = &piece.func;
                let o = f(x);
                assert(self@[i as int].func.ensures((x,), o));
                return Some(o);
            }
            i += 1;
        }
        proof {
            if obeys::<B>() {
                assert(governing(self@, x) is None);
            }
        }
        None
    }
}

/// The pieces of the builder that an insertion handed back, whether it
/// inserted or not.
pub open spec fn held<B: PartialOrd, O, F: Fn(B) -> O>(
    r: Result<PartialFunctionBuilder<B, O, F>, PartialFunctionBuilder<B, O, F>>,
) -> Seq<DualBoundedFunction<B, O, F>> {
    match r {
        Ok(b) => b@,
        Err(b) => b@,
    }
}

/// The first piece that claims `x` is the governing one.
pub proof fn lemma_leads_unique<B: PartialOrd, O, F>(
    s: Seq<DualBoundedFunction<B, O, F>>,
    x: B,
    i: int,
)
    requires
        leads(s, i, x),
    ensures
        governing(s, x) == Some(i),
{
    let c = choose|c: int| leads(s, c, x);
    assert(leads(s, c, x));
    if c < i {
        assert(!governs(s, c, x));
    }
    if i < c {
        assert(!governs(s, i, x));
    }
}

impl<B: PartialOrd, O, F> PartialFunctionBuilder<B, O, F> {
    /// The pieces are separate.
    #[verifier::type_invariant]
    spec fn inv(self) -> bool {
        obeys::<B>() ==> separate(self.funcs@)
    }
}

impl<B: PartialOrd, O, F: Fn(B) -> O> PartialFunctionBuilder<B, O, F> {
    /// The pieces, in the order in which they were inserted.
    pub closed spec fn view(&self) -> Seq<DualBoundedFunction<B, O, F>> {
        self.funcs@
    }

    /// Creates an empty builder.
    pub fn new() -> (r: Self)
        ensures
            r@ == Seq::<DualBoundedFunction<B, O, F>>::empty(),
    {
        PartialFunctionBuilder { funcs: Vec::new() }
    }

    /// Adds a piece that applies `func` on `[lower, higher)`. The interval
    /// must not collide with a piece that is already there; where that is not
    /// known beforehand, use [`PartialFunctionBuilder::try_with`].
    ///
    /// The bounds are taken as they come: a piece whose lower bound lies
    /// above its higher bound is accepted, and claims no point of its own
    /// interval.
    pub fn with(self, lower: B, higher: B, func: F) -> (r: Self)
        requires
            can_insert_spec(self@, lower, higher),
        ensures
            extended(self@, r@, lower, higher, func),
            obeys::<B>() ==> separate(r@),
            forall|x: B| accepts(self@, x) && func.requires((x,)) ==> #[trigger] accepts(r@, x),
    {
        proof {
            use_type_invariant(&self);
        }
        let mut funcs = self.funcs;
        let ghost before = funcs@;
        funcs.push(DualBoundedFunction::new(func, lower, higher));
        proof {
            assert(funcs@.drop_last() =~= before);
            lemma_insert_keeps_separate(before, funcs@, lower, higher, func);
            lemma_insert_keeps_accepting(before, funcs@);
        }
        PartialFunctionBuilder { funcs }
    }

    /// Adds a piece that applies `func` on `[lower, higher)` if the interval
    /// collides with no piece that is already there; otherwise hands the
    /// builder back unchanged.
    pub fn try_with(self, lower: B, higher: B, func: F) -> (r: Result<Self, Self>)
        ensures
            obeys::<B>() ==> (r is Ok <==> can_insert_spec(self@, lower, higher)),
            r is Ok ==> extended(self@, held(r), lower, higher, func),
            r is Err ==> held(r) == self@,
            obeys::<B>() ==> separate(held(r)),
            forall|x: B| accepts(self@, x) && func.requires((x,)) ==> #[trigger] accepts(held(r), x),
    {
        proof {
            use_type_invariant(&self);
        }
        if self.can_insert(&lower, &higher) {
            let mut funcs = self.funcs;
            let ghost before = funcs@;
            funcs.push(DualBoundedFunction::new(func, lower, higher));
            proof {
                assert(funcs@.drop_last() =~= before);
                if obeys::<B>() {
                    lemma_insert_keeps_separate(before, funcs@, lower, higher, func);
                }
                lemma_insert_keeps_accepting(before, funcs@);
            }
            Ok(PartialFunctionBuilder { funcs })
        } else {
            Err(self)
        }
    }

    /// Tells whether `[lower, higher)` can be inserted: whether it collides
    /// with no piece that is already there. Intervals that only touch do not
    /// collide.
    pub fn can_insert(&self, lower: &B, higher: &B) -> (r: bool)
        ensures
            obeys::<B>() ==> r == can_insert_spec(self@, *lower, *higher),
    {
        let n: usize = self.funcs.len();
        let mut i: usize = 0;
        while i < n
            invariant
                n == self.funcs.len(),
                i <= n,
                obeys::<B>() ==> forall|j: int|
                    0 <= j < i ==> !clash(*lower, *higher, #[trigger] self.funcs@[j]),
            decreases n - i,
        {
            let b = &self.funcs[i];
            if (is_ge(lower, &b.lower) && is_lt(lower, &b.higher)) || (is_gt(higher, &b.lower)
                && is_le(higher, &b.higher)) || (is_le(lower, &b.lower) && is_ge(
                higher,
                &b.higher,
            )) {
                proof {
                    if obeys::<B>() {
                        assert(clash(*lower, *higher, self.funcs@[i as int]));
                    }
                }
                return false;
            }
            i += 1;
        }
        true
    }

    /// Builds the function: the pieces in ascending order of their lower
    /// bounds, pieces of equal rank in the order of their insertion.
    pub fn build(self) -> (r: PartialFunction<B, O, F>)
        ensures
            exists|from: Seq<int>| #[trigger] rearranges(self@, r@, from),
            obeys::<B>() && weakly_ordered(self@) ==> sorted(r@),
            obeys::<B>() ==> separate(r@),
            obeys::<B>() && lawful::<B>() && comparable_bounds(self@) ==> well_formed(r@),
            forall|x: B| accepts(self@, x) ==> #[trigger] accepts(r@, x),
    {
        proof {
            use_type_invariant(&self);
        }
        let ghost before = self.funcs@;
        let funcs = stable_sort(self.funcs);
        proof {
            let from = choose|from: Seq<int>| #[trigger] rearranges(before, funcs@, from);
            lemma_arranged_keeps_separate(before, funcs@, from);
            lemma_arranged_keeps_ranking(before, funcs@, from);
            if obeys::<B>() && lawful::<B>() && comparable_bounds(before) {
                lemma_arranged_keeps_comparable(before, funcs@, from);
                lemma_bounds_weakly_ordered(funcs@);
                lemma_sorted_well_formed(funcs@);
            }
        }
        let r = PartialFunction { funcs };
        proof {
            let from = choose|from: Seq<int>| #[trigger] rearranges(before, funcs@, from);
            assert(rearranges(self@, r@, from));
            assert forall|x: B| accepts(before, x) implies #[trigger] accepts(funcs@, x) by {
                assert forall|i: int| 0 <= i < funcs@.len() implies (#[trigger] funcs@[i]).func.requires(
                    (x,),
                ) by {
                    assert(funcs@[i] == before[from[i]]);
                }
            }
        }
        r
    }
}

/// A piece that collides with none of the others keeps the pieces separate.
pub proof fn lemma_insert_keeps_separate<B: PartialOrd, O, F>(
    before: Seq<DualBoundedFunction<B, O, F>>,
    after: Seq<DualBoundedFunction<B, O, F>>,
    lower: B,
    higher: B,
    func: F,
)
    requires
        extended(before, after, lower, higher, func),
        can_insert_spec(before, lower, higher),
    ensures
        separate(before) ==> separate(after),
{
    if separate(before) {
        assert forall|i: int, j: int|
            #![trigger after[i], after[j]]
            0 <= i < after.len() && 0 <= j < after.len() && i != j implies !clash(
            after[i].lower,
            after[i].higher,
            after[j],
        ) || !clash(after[j].lower, after[j].higher, after[i]) by {
            let n = before.len() as int;
            if i < n {
                assert(after[i] == before[i]);
            }
            if j < n {
                assert(after[j] == before[j]);
            }
        }
    }
}

/// A sequence that grew by one piece accepts what the shorter one and the new
/// piece's function accept.
pub proof fn lemma_insert_keeps_accepting<B, O, F: Fn(B) -> O>(
    before: Seq<DualBoundedFunction<B, O, F>>,
    after: Seq<DualBoundedFunction<B, O, F>>,
)
    requires
        after.len() == before.len() + 1,
        after.drop_last() == before,
    ensures
        forall|x: B|
            accepts(before, x) && after.last().func.requires((x,)) ==> #[trigger] accepts(after, x),
{
    assert forall|x: B| accepts(before, x) && after.last().func.requires((x,)) implies #[trigger] accepts(
        after,
        x,
    ) by {
        assert forall|i: int| 0 <= i < after.len() implies (#[trigger] after[i]).func.requires((x,)) by {
            if i < before.len() {
                assert(after[i] == before[i]);
            }
        }
    }
}

/// Where all bounds can be ordered and the order is lawful, ranking by lower
/// and then by higher bound is a strict weak order.
pub proof fn lemma_bounds_weakly_ordered<B: PartialOrd, O, F>(
    s: Seq<DualBoundedFunction<B, O, F>>,
)
    requires
        lawful::<B>(),
        comparable_bounds(s),
    ensures
        weakly_ordered(s),
{
    assert forall|i: int, j: int|
        #![trigger s[i], s[j]]
        0 <= i < s.len() && 0 <= j < s.len() && s[i].ranks_before(&s[j]) implies !s[j].ranks_before(
        &s[i],
    ) by {
        lemma_mirror(s[i].lower, s[j].lower);
        lemma_mirror(s[i].higher, s[j].higher);
    }
    assert forall|i: int, j: int, k: int|
        #![trigger s[i].ranks_before(&s[j]), s[j].ranks_before(&s[k])]
        0 <= i < s.len() && 0 <= j < s.len() && 0 <= k < s.len() && !s[i].ranks_before(&s[j])
            && !s[j].ranks_before(&s[k]) implies !s[i].ranks_before(&s[k]) by {
        // With all bounds ordered, "does not rank before" chains as `>=` does.
        lemma_chain(s[k].lower, s[j].lower, s[i].lower);
        lemma_chain(s[k].higher, s[j].higher, s[i].higher);
    }
}

/// A rearrangement of separate pieces is separate.
pub proof fn lemma_arranged_keeps_separate<B: PartialOrd, O, F>(
    src: Seq<DualBoundedFunction<B, O, F>>,
    out: Seq<DualBoundedFunction<B, O, F>>,
    from: Seq<int>,
)
    requires
        arranged(src, out, from),
    ensures
        separate(src) ==> separate(out),
{
    if separate(src) {
        assert forall|i: int, j: int|
            #![trigger out[i], out[j]]
            0 <= i < out.len() && 0 <= j < out.len() && i != j implies !clash(
            out[i].lower,
            out[i].higher,
            out[j],
        ) || !clash(out[j].lower, out[j].higher, out[i]) by {
            assert(out[i] == src[from[i]]);
            assert(out[j] == src[from[j]]);
        }
    }
}

/// A rearrangement of pieces whose bounds can all be ordered has bounds that
/// can all be ordered.
pub proof fn lemma_arranged_keeps_comparable<B: PartialOrd, O, F>(
    src: Seq<DualBoundedFunction<B, O, F>>,
    out: Seq<DualBoundedFunction<B, O, F>>,
    from: Seq<int>,
)
    requires
        arranged(src, out, from),
    ensures
        comparable_bounds(src) ==> comparable_bounds(out),
{
    if comparable_bounds(src) {
        assert forall|i: int, j: int|
            #![trigger out[i], out[j]]
            0 <= i < out.len() && 0 <= j < out.len() implies comparable(out[i].lower, out[j].lower)
            && comparable(out[i].lower, out[j].higher) && comparable(out[i].higher, out[j].lower)
            && comparable(out[i].higher, out[j].higher) by {
            assert(out[i] == src[from[i]]);
            assert(out[j] == src[from[j]]);
        }
    }
}

/// Separate pieces with bounds that can all be ordered, sorted by rank, are
/// well formed.
pub proof fn lemma_sorted_well_formed<B: PartialOrd, O, F>(s: Seq<DualBoundedFunction<B, O, F>>)
    requires
        lawful::<B>(),
        comparable_bounds(s),
        separate(s),
        sorted(s),
    ensures
        well_formed(s),
{
    assert forall|i: int, j: int|
        #![trigger s[i], s[j]]
        0 <= i < j < s.len() implies le(s[i].lower, s[j].lower) by {
        assert(!s[j].ranks_before(&s[i]));
        lemma_mirror(s[i].lower, s[j].lower);
    }
}

} // verus!
