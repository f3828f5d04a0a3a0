//! Pieces with a lower bound only: each holds from its bound up to the next
//! piece's bound, the last one without end.

use crate::order::{
    comparable, ge, gt, is_ge, is_gt, is_lt, is_same, lawful, lemma_chain, lemma_mirror, lt, obeys,
    same,
};
use crate::sort::{
    arranged, lemma_arranged_keeps_ranking, rearranges, sorted, stable_sort, weakly_ordered, Ranked,
};
use core::marker::PhantomData;
use vstd::prelude::*;

verus! {

/// A function that is valid from `lower` upwards, or until another piece starts.
pub struct LowerBoundedFunction<B, O, F> {
    /// The stored function.
    pub func: F,
    /// The lower bound of the function.
    pub lower: B,
    /// Ties the output type to the piece.
    pub output: PhantomData<O>,
}

impl<B, O, F> LowerBoundedFunction<B, O, F> {
    /// A piece that applies `func` from `lower` upwards.
    pub fn new(func: F, lower: B) -> (r: Self)
        ensures
            r.func == func,
            r.lower == lower,
    {
        LowerBoundedFunction { func, lower, output: PhantomData }
    }
}

impl<B: PartialOrd, O, F> Ranked for LowerBoundedFunction<B, O, F> {
    open spec fn rank_obeys() -> bool {
        obeys::<B>()
    }

    /// By lower bound; neither before the other where the bounds cannot be
    /// ordered.
    open spec fn ranks_before(&self, other: &Self) -> bool {
        lt(self.lower, other.lower)
    }

    fn before(&self, other: &Self) -> (r: bool) {
        is_lt(&self.lower, &other.lower)
    }
}

/// No piece of `s` starts at `lower`.
pub open spec fn can_insert_spec<B: PartialOrd, O, F>(
    s: Seq<LowerBoundedFunction<B, O, F>>,
    lower: B,
) -> bool {
    forall|i: int| 0 <= i < s.len() ==> !same(lower, (#[trigger] s[i]).lower)
}

/// `after` is `before` with one more piece at its end, made of `func` and
/// `lower`.
pub open spec fn extended<B, O, F>(
    before: Seq<LowerBoundedFunction<B, O, F>>,
    after: Seq<LowerBoundedFunction<B, O, F>>,
    lower: B,
    func: F,
) -> bool {
    &&& after.len() == before.len() + 1
    &&& after.drop_last() == before
    &&& after.last().func == func
    &&& after.last().lower == lower
}

/// Of any two pieces of `s`, one does not start where the other does.
pub open spec fn distinct<B: PartialOrd, O, F>(s: Seq<LowerBoundedFunction<B, O, F>>) -> bool {
    forall|i: int, j: int|
        #![trigger s[i], s[j]]
        0 <= i < s.len() && 0 <= j < s.len() && i != j ==> !same(s[i].lower, s[j].lower) || !same(
            s[j].lower,
            s[i].lower,
        )
}

/// Any two bounds of `s` can be ordered.
pub open spec fn comparable_bounds<B: PartialOrd, O, F>(
    s: Seq<LowerBoundedFunction<B, O, F>>,
) -> bool {
    forall|i: int, j: int|
        #![trigger s[i], s[j]]
        0 <= i < s.len() && 0 <= j < s.len() ==> comparable(s[i].lower, s[j].lower)
}

/// The lower bounds of `s` ascend strictly.
pub open spec fn ascending<B: PartialOrd, O, F>(s: Seq<LowerBoundedFunction<B, O, F>>) -> bool {
    forall|i: int, j: int|
        #![trigger s[i], s[j]]
        0 <= i < j < s.len() ==> lt(s[i].lower, s[j].lower)
}

/// What a valid piecewise function holds: bounds that can all be ordered, in
/// strictly ascending order.
pub open spec fn well_formed<B: PartialOrd, O, F>(s: Seq<LowerBoundedFunction<B, O, F>>) -> bool {
    &&& comparable_bounds(s)
    &&& ascending(s)
}

/// The piece at `i` claims `x`: `x` is at or above its bound, and below the
/// next piece's bound if there is a next piece.
pub open spec fn governs<B: PartialOrd, O, F>(
    s: Seq<LowerBoundedFunction<B, O, F>>,
    i: int,
    x: B,
) -> bool {
    &&& ge(x, s[i].lower)
    &&& i + 1 == s.len() || (i + 1 < s.len() && gt(s[i + 1].lower, x))
}

/// The piece at `i` is the first that claims `x`.
pub open spec fn leads<B: PartialOrd, O, F>(
    s: Seq<LowerBoundedFunction<B, O, F>>,
    i: int,
    x: B,
) -> bool {
    &&& 0 <= i < s.len()
    &&& governs(s, i, x)
    &&& forall|j: int| 0 <= j < i ==> !#[trigger] governs(s, j, x)
}

/// The index of the piece that governs `x`, if any.
pub open spec fn governing<B: PartialOrd, O, F>(
    s: Seq<LowerBoundedFunction<B, O, F>>,
    x: B,
) -> Option<int> {
    if exists|i: int| leads(s, i, x) {
        Some(choose|i: int| leads(s, i, x))
    } else {
        None
    }
}

/// Every piece's function can be called on `x`.
pub open spec fn accepts<B, O, F: Fn(B) -> O>(s: Seq<LowerBoundedFunction<B, O, F>>, x: B) -> bool {
    forall|i: int| 0 <= i < s.len() ==> (#[trigger] s[i]).func.requires((x,))
}

/// `r` is a possible value of the function at `x`: an output of the governing
/// piece's function, or nothing where no piece governs.
pub open spec fn yields<B: PartialOrd, O, F: Fn(B) -> O>(
    s: Seq<LowerBoundedFunction<B, O, F>>,
    x: B,
    r: Option<O>,
) -> bool {
    match governing(s, x) {
        Some(i) => r matches Some(o) && s[i].func.ensures((x,), o),
        None => r is None,
    }
}

/// A function defined by pieces that each hold from their lower bound up to
/// the next piece's lower bound, held in ascending order of those bounds.
///
/// With pieces `0 -> 5` and `1 -> 10`: `f(0.5) = 5`, `f(1) = 10`, `f(70) = 10`.
pub struct LowerPartialFunction<B: PartialOrd, O, F> {
    funcs: Vec<LowerBoundedFunction<B, O, F>>,
}

/// A builder to create an immutable [`LowerPartialFunction`].
pub struct LowerPartialFunctionBuilder<B: PartialOrd, O, F> {
    funcs: Vec<LowerBoundedFunction<B, O, F>>,
}

impl<B: PartialOrd, O, F> LowerPartialFunction<B, O, F> {
    /// The pieces are distinct, and sorted wherever their ranking is a strict weak
    /// order.
    #[verifier::type_invariant]
    spec fn inv(self) -> bool {
        obeys::<B>() ==> distinct(self.funcs@) && (weakly_ordered(self.funcs@) ==> sorted(self.funcs@))
    }
}

impl<B: PartialOrd, O, F: Fn(B) -> O> LowerPartialFunction<B, O, F> {
    /// The pieces, in the order in which they are searched.
    pub closed spec fn view(&self) -> Seq<LowerBoundedFunction<B, O, F>> {
        self.funcs@
    }

    /// Creates a new, empty builder.
    pub fn new() -> (r: LowerPartialFunctionBuilder<B, O, F>)
        ensures
            r@ == Seq::<LowerBoundedFunction<B, O, F>>::empty(),
    {
        LowerPartialFunctionBuilder::new()
    }

    /// Evaluates the function at `x`: the governing piece's function applied
    /// to `x`, or `None` where no piece governs.
    ///
    /// Every function whose bounds can all be ordered is well formed, so the
    /// laws on well-formed sequences of pieces apply to what is evaluated.
    pub fn eval(&self, x: B) -> (r: Option<O>)
        requires
            accepts(self@, x),
        ensures
            obeys::<B>() ==> yields(self@, x, r),
            r matches Some(o) ==> exists|i: int|
                0 <= i < self@.len() && (#[trigger] self@[i]).func.ensures((x,), o),
            obeys::<B>() && lawful::<B>() && comparable_bounds(self@) ==> well_formed(self@),
    {
        proof {
            use_type_invariant(self);
            if obeys::<B>() && lawful::<B>() && comparable_bounds(self@) {
                lemma_bounds_weakly_ordered(self@);
                lemma_sorted_well_formed(self@);
            }
        }
        let n: usize = self.funcs.len();
        let mut i: usize = 0;
        assert(self@ == self.funcs@);
        while i < n
            invariant
                n == self.funcs.len(),
                i <= n,
                self@ == self.funcs@,
                accepts(self@, x),
                obeys::<B>() && lawful::<B>() && comparable_bounds(self@) ==> well_formed(self@),
                obeys::<B>() ==> forall|j: int| 0 <= j < i ==> !#[trigger] governs(self@, j, x),
            decreases n - i,
        {
            let piece = &self.funcs[i];
            let hit = if !is_ge(&x, &piece.lower) {
                false
            } else if i + 1 == n {
                true
            } else {
                is_gt(&self.funcs[i + 1].lower, &x)
            };
            if hit {
                proof {
                    if obeys::<B>() {
                        assert(leads(self@, i as int, x));
                        lemma_leads_unique(self@, x, i as int);
                    }
                }
                assert(self@[i as int].func.requires((x,)));
                let f = &piece.func;
                let o = f(x);
                assert(self@[i as int].func.ensures((x,), o));
                return Some(o);
            }
            i += 1;
        }
        proof {
            if obeys::<B>() {
                assert(governing(self@, x) is None);
            }
        }
        None
    }
}

/// The pieces of the builder that an insertion handed back, whether it
/// inserted or not.
pub open spec fn held<B: PartialOrd, O, F: Fn(B) -> O>(
    r: Result<LowerPartialFunctionBuilder<B, O, F>, LowerPartialFunctionBuilder<B, O, F>>,
) -> Seq<LowerBoundedFunction<B, O, F>> {
    match r {
        Ok(b) => b@,
        Err(b) => b@,
    }
}

/// The first piece that claims `x` is the governing one.
pub proof fn lemma_leads_unique<B: PartialOrd, O, F>(
    s: Seq<LowerBoundedFunction<B, O, F>>,
    x: B,
    i: int,
)
    requires
        leads(s, i, x),
    ensures
        governing(s, x) == Some(i),
{
    let c = choose|c: int| leads(s, c, x);
    assert(leads(s, c, x));
    if c < i {
        assert(!governs(s, c, x));
    }
    if i < c {
        assert(!governs(s, i, x));
    }
}

impl<B: PartialOrd, O, F> LowerPartialFunctionBuilder<B, O, F> {
    /// The pieces are distinct.
    #[verifier::type_invariant]
    spec fn inv(self) -> bool {
        obeys::<B>() ==> distinct(self.funcs@)
    }
}

impl<B: PartialOrd, O, F: Fn(B) -> O> LowerPartialFunctionBuilder<B, O, F> {
    /// The pieces, in the order in which they were inserted.
    pub closed spec fn view(&self) -> Seq<LowerBoundedFunction<B, O, F>> {
        self.funcs@
    }

    /// Creates an empty builder.
    pub fn new() -> (r: Self)
        ensures
            r@ == Seq::<LowerBoundedFunction<B, O, F>>::empty(),
    {
        LowerPartialFunctionBuilder { funcs: Vec::new() }
    }

    /// Adds a piece that applies `func` from `lower` upwards. No piece that is
    /// already there may start at `lower`; where that is not known beforehand,
    /// use [`LowerPartialFunctionBuilder::try_with`].
    pub fn with(self, lower: B, func: F) -> (r: Self)
        requires
            can_insert_spec(self@, lower),
        ensures
            extended(self@, r@, lower, func),
            obeys::<B>() ==> distinct(r@),
            forall|x: B| accepts(self@, x) && func.requires((x,)) ==> #[trigger] accepts(r@, x),
    {
        proof {
            use_type_invariant(&self);
        }
        let mut funcs = self.funcs;
        let ghost before = funcs@;
        funcs.push(LowerBoundedFunction::new(func, lower));
        proof {
            assert(funcs@.drop_last() =~= before);
            lemma_insert_keeps_distinct(before, funcs@, lower, func);
            lemma_insert_keeps_accepting(before, funcs@);
        }
        LowerPartialFunctionBuilder { funcs }
    }

    /// Adds a piece that applies `func` from `lower` upwards if no piece that
    /// is already there starts at `lower`; otherwise hands the builder back
    /// unchanged.
    pub fn try_with(self, lower: B, func: F) -> (r: Result<Self, Self>)
        ensures
            obeys::<B>() ==> (r is Ok <==> can_insert_spec(self@, lower)),
            r is Ok ==> extended(self@, held(r), lower, func),
            r is Err ==> held(r) == self@,
            obeys::<B>() ==> distinct(held(r)),
            forall|x: B| accepts(self@, x) && func.requires((x,)) ==> #[trigger] accepts(held(r), x),
    {
        proof {
            use_type_invariant(&self);
        }
        if self.can_insert(&lower) {
            let mut funcs = self.funcs;
            let ghost before = funcs@;
            funcs.push(LowerBoundedFunction::new(func, lower));
            proof {
                assert(funcs@.drop_last() =~= before);
                if obeys::<B>() {
                    lemma_insert_keeps_distinct(before, funcs@, lower, func);
                }
                lemma_insert_keeps_accepting(before, funcs@);
            }
            Ok(LowerPartialFunctionBuilder { funcs })
        } else {
            Err(self)
        }
    }

    /// Tells whether a piece can be inserted at `lower`: whether no piece
    /// that is already there starts at `lower`.
    pub fn can_insert(&self, lower: &B) -> (r: bool)
        ensures
            obeys::<B>() ==> r == can_insert_spec(self@, *lower),
    {
        let n: usize = self.funcs.len();
        let mut i: usize = 0;
        while i < n
            invariant
                n == self.funcs.len(),
                i <= n,
                obeys::<B>() ==> forall|j: int|
                    0 <= j < i ==> !same(*lower, (#[trigger] self.funcs@[j]).lower),
            decreases n - i,
        {
            if is_same(lower, &self.funcs[i].lower) {
                proof {
                    if obeys::<B>() {
                        assert(same(*lower, self.funcs@[i as int].lower));
                    }
                }
                return false;
            }
            i += 1;
        }
        true
    }

    /// Builds the function: the pieces in ascending order of their lower
    /// bounds, pieces of equal rank in the order of their insertion.
    pub fn build(self) -> (r: LowerPartialFunction<B, O, F>)
        ensures
            exists|from: Seq<int>| #[trigger] rearranges(self@, r@, from),
            obeys::<B>() && weakly_ordered(self@) ==> sorted(r@),
            obeys::<B>() ==> distinct(r@),
            obeys::<B>() && lawful::<B>() && comparable_bounds(self@) ==> well_formed(r@),
            forall|x: B| accepts(self@, x) ==> #[trigger] accepts(r@, x),
    {
        proof {
            use_type_invariant(&self);
        }
        let ghost before = self.funcs@;
        let funcs = stable_sort(self.funcs);
        proof {
            let from = choose|from: Seq<int>| #[trigger] rearranges(before, funcs@, from);
            lemma_arranged_keeps_distinct(before, funcs@, from);
            lemma_arranged_keeps_ranking(before, funcs@, from);
            if obeys::<B>() && lawful::<B>() && comparable_bounds(before) {
                lemma_arranged_keeps_comparable(before, funcs@, from);
                lemma_bounds_weakly_ordered(funcs@);
                lemma_sorted_well_formed(funcs@);
            }
        }
        let r = LowerPartialFunction { funcs };
        proof {
            let from = choose|from: Seq<int>| #[trigger] rearranges(before, funcs@, from);
            assert(rearranges(self@, r@, from));
            assert forall|x: B| accepts(before, x) implies #[trigger] accepts(funcs@, x) by {
                assert forall|i: int| 0 <= i < funcs@.len() implies (#[trigger] funcs@[i]).func.requires(
                    (x,),
                ) by {
                    assert(funcs@[i] == before[from[i]]);
                }
            }
        }
        r
    }
}

/// A piece that starts where none of the others does keeps the pieces distinct.
pub proof fn lemma_insert_keeps_distinct<B: PartialOrd, O, F>(
    before: Seq<LowerBoundedFunction<B, O, F>>,
    after: Seq<LowerBoundedFunction<B, O, F>>,
    lower: B,
    func: F,
)
    requires
        extended(before, after, lower, func),
        can_insert_spec(before, lower),
    ensures
        distinct(before) ==> distinct(after),
{
    if distinct(before) {
        assert forall|i: int, j: int|
            #![trigger after[i], after[j]]
            0 <= i < after.len() && 0 <= j < after.len() && i != j implies !same(
            after[i].lower,
            after[j].lower,
        ) || !same(after[j].lower, after[i].lower) by {
            let n = before.len() as int;
            if i < n {
                assert(after[i] == before[i]);
            }
            if j < n {
                assert(after[j] == before[j]);
            }
        }
    }
}

/// A sequence that grew by one piece accepts what the shorter one and the new
/// piece's function accept.
pub proof fn lemma_insert_keeps_accepting<B, O, F: Fn(B) -> O>(
    before: Seq<LowerBoundedFunction<B, O, F>>,
    after: Seq<LowerBoundedFunction<B, O, F>>,
)
    requires
        after.len() == before.len() + 1,
        after.drop_last() == before,
    ensures
        forall|x: B|
            accepts(before, x) && after.last().func.requires((x,)) ==> #[trigger] accepts(after, x),
{
    assert forall|x: B| accepts(before, x) && after.last().func.requires((x,)) implies #[trigger] accepts(
        after,
        x,
    ) by {
        assert forall|i: int| 0 <= i < after.len() implies (#[trigger] after[i]).func.requires((x,)) by {
            if i < before.len() {
                assert(after[i] == before[i]);
            }
        }
    }
}

/// Where all bounds can be ordered and the order is lawful, ranking by lower
/// bound is a strict weak order.
pub proof fn lemma_bounds_weakly_ordered<B: PartialOrd, O, F>(
    s: Seq<LowerBoundedFunction<B, O, F>>,
)
    requires
        lawful::<B>(),
        comparable_bounds(s),
    ensures
        weakly_ordered(s),
{
    assert forall|i: int, j: int|
        #![trigger s[i], s[j]]
        0 <= i < s.len() && 0 <= j < s.len() && s[i].ranks_before(&s[j]) implies !s[j].ranks_before(
        &s[i],
    ) by {
        lemma_mirror(s[i].lower, s[j].lower);
    }
    assert forall|i: int, j: int, k: int|
        #![trigger s[i].ranks_before(&s[j]), s[j].ranks_before(&s[k])]
        0 <= i < s.len() && 0 <= j < s.len() && 0 <= k < s.len() && !s[i].ranks_before(&s[j])
            && !s[j].ranks_before(&s[k]) implies !s[i].ranks_before(&s[k]) by {
        // With all bounds ordered, "does not rank before" chains as `>=` does.
        lemma_chain(s[k].lower, s[j].lower, s[i].lower);
    }
}

/// A rearrangement of distinct pieces is distinct.
pub proof fn lemma_arranged_keeps_distinct<B: PartialOrd, O, F>(
    src: Seq<LowerBoundedFunction<B, O, F>>,
    out: Seq<LowerBoundedFunction<B, O, F>>,
    from: Seq<int>,
)
    requires
        arranged(src, out, from),
    ensures
        distinct(src) ==> distinct(out),
{
    if distinct(src) {
        assert forall|i: int, j: int|
            #![trigger out[i], out[j]]
            0 <= i < out.len() && 0 <= j < out.len() && i != j implies !same(
            out[i].lower,
            out[j].lower,
        ) || !same(out[j].lower, out[i].lower) by {
            assert(out[i] == src[from[i]]);
            assert(out[j] == src[from[j]]);
        }
    }
}

/// A rearrangement of pieces whose bounds can all be ordered has bounds that
/// can all be ordered.
pub proof fn lemma_arranged_keeps_comparable<B: PartialOrd, O, F>(
    src: Seq<LowerBoundedFunction<B, O, F>>,
    out: Seq<LowerBoundedFunction<B, O, F>>,
    from: Seq<int>,
)
    requires
        arranged(src, out, from),
    ensures
        comparable_bounds(src) ==> comparable_bounds(out),
{
    if comparable_bounds(src) {
        assert forall|i: int, j: int|
            #![trigger out[i], out[j]]
            0 <= i < out.len() && 0 <= j < out.len() implies comparable(out[i].lower, out[j].lower) by {
            assert(out[i] == src[from[i]]);
            assert(out[j] == src[from[j]]);
        }
    }
}

/// Distinct pieces with bounds that can all be ordered, sorted by rank, are
/// well formed.
pub proof fn lemma_sorted_well_formed<B: PartialOrd, O, F>(s: Seq<LowerBoundedFunction<B, O, F>>)
    requires
        lawful::<B>(),
        comparable_bounds(s),
        distinct(s),
        sorted(s),
    ensures
        well_formed(s),
{
    assert forall|i: int, j: int|
        #![trigger s[i], s[j]]
        0 <= i < j < s.len() implies lt(s[i].lower, s[j].lower) by {
        assert(!s[j].ranks_before(&s[i]));
        lemma_mirror(s[i].lower, s[j].lower);
    }
}

} // verus!
