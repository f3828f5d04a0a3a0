//! A stable insertion sort over items that know which of two comes first.

use vstd::prelude::*;

verus! {

/// An item with a strict "comes before" test.
pub trait Ranked: Sized {
    /// Whether [`Ranked::before`] returns what [`Ranked::ranks_before`] says.
    spec fn rank_obeys() -> bool;

    /// `self` must stand before `other` in sorted order.
    spec fn ranks_before(&self, other: &Self) -> bool;

    /// Tests whether `self` must stand before `other`.
    fn before(&self, other: &Self) -> (r: bool)
        ensures
            Self::rank_obeys() ==> r == self.ranks_before(other),
    ;
}

/// `out` holds the items of `src`, each exactly once: `out[i]` is
/// `src[from[i]]`, no index of `src` is named twice, and each is named.
pub open spec fn arranged<T>(src: Seq<T>, out: Seq<T>, from: Seq<int>) -> bool {
    &&& out.len() == src.len()
    &&& from.len() == src.len()
    &&& forall|i: int|
        0 <= i < out.len() ==> 0 <= #[trigger] from[i] < src.len() && out[i] == src[from[i]]
    &&& forall|i: int, j: int| 0 <= i < j < out.len() ==> #[trigger] from[i] != #[trigger] from[j]
    &&& forall|m: int| 0 <= m < src.len() ==> #[trigger] from.contains(m)
}

/// Two items change their relative order only where the one that now comes
/// first ranks strictly before the other.
pub open spec fn stable<T: Ranked>(out: Seq<T>, from: Seq<int>) -> bool {
    forall|i: int, j: int|
        0 <= i < j < out.len() && from.len() == out.len() && #[trigger] from[i] > #[trigger] from[j]
            ==> out[i].ranks_before(&out[j])
}

/// `out` is a stable rearrangement of `src`, witnessed by `from`.
pub open spec fn rearranges<T: Ranked>(src: Seq<T>, out: Seq<T>, from: Seq<int>) -> bool {
    &&& arranged(src, out, from)
    &&& T::rank_obeys() ==> stable(out, from)
}

/// No item ranks before one that precedes it.
pub open spec fn sorted<T: Ranked>(s: Seq<T>) -> bool {
    forall|i: int, j: int| #![trigger s[i], s[j]] 0 <= i < j < s.len() ==> !s[j].ranks_before(&s[i])
}

/// Among the items of `s`, "ranks before" is a strict weak order: it never
/// holds both ways, and where it holds of neither `(a, b)` nor `(b, c)` it
/// does not hold of `(a, c)`.
pub open spec fn weakly_ordered<T: Ranked>(s: Seq<T>) -> bool {
    &&& forall|i: int, j: int|
        #![trigger s[i], s[j]]
        0 <= i < s.len() && 0 <= j < s.len() && s[i].ranks_before(&s[j]) ==> !s[j].ranks_before(
            &s[i],
        )
    &&& forall|i: int, j: int, k: int|
        #![trigger s[i].ranks_before(&s[j]), s[j].ranks_before(&s[k])]
        0 <= i < s.len() && 0 <= j < s.len() && 0 <= k < s.len() && !s[i].ranks_before(&s[j])
            && !s[j].ranks_before(&s[k]) ==> !s[i].ranks_before(&s[k])
}

/// Sorts `v` by insertion. The result holds the same items; items of which
/// neither ranks before the other keep their order; and where "ranks before"
/// is a strict weak order on the items, the result is sorted.
pub fn stable_sort<T: Ranked>(v: Vec<T>) -> (r: Vec<T>)
    ensures
        exists|from: Seq<int>| #[trigger] rearranges(v@, r@, from),
        T::rank_obeys() && weakly_ordered(v@) ==> sorted(r@),
{
    let ghost src = v@;
    let mut rest = v;
    let mut out: Vec<T> = Vec::new();
    let ghost mut from: Seq<int> = Seq::empty();
    while rest.len() > 0
        invariant
            rest.len() + out.len() == src.len(),
            from.len() == out.len(),
            rest@ == src.take(rest.len() as int),
            forall|i: int|
                0 <= i < out.len() ==> rest.len() <= #[trigger] from[i] < src.len() && out@[i]
                    == src[from[i]],
            forall|i: int, j: int|
                0 <= i < j < out.len() ==> #[trigger] from[i] != #[trigger] from[j],
            forall|m: int| rest.len() <= m < src.len() ==> #[trigger] from.contains(m),
            T::rank_obeys() ==> stable(out@, from),
            T::rank_obeys() && weakly_ordered(src) ==> sorted(out@),
        decreases rest.len(),
    {
        let ghost k: int = rest.len() - 1;
        let ghost before_pop = out@;
        let ghost from_before = from;
        let item = rest.pop().unwrap();
        let n: usize = out.len();
        let mut p: usize = 0;
        let mut scanning = true;
        while scanning && p < n
            invariant
                n == out.len(),
                p <= n,
                T::rank_obeys() ==> forall|i: int| 0 <= i < p ==> (#[trigger] out@[i]).ranks_before(&item),
                !scanning ==> p < n && (T::rank_obeys() ==> !out@[p as int].ranks_before(&item)),
            decreases (if scanning { 1int } else { 0int }) + n - p,
        {
            if out[p].before(&item) {
                p += 1;
            } else {
                scanning = false;
            }
        }
        out.insert(p, item);
        proof {
            from = from.insert(p as int, k);
            // The item came from index `k`, below every index named so far.
            assert forall|i: int, j: int| 0 <= i < j < out.len() implies #[trigger] from[i]
                != #[trigger] from[j] by {
                let oi = if i < p { i } else { i - 1 };
                let oj = if j < p { j } else { j - 1 };
                assert(i == p || from[i] == from_before[oi]);
                assert(j == p || from[j] == from_before[oj]);
            }
            assert forall|m: int| k <= m < src.len() implies #[trigger] from.contains(m) by {
                if m == k {
                    assert(from[p as int] == k);
                } else {
                    assert(from_before.contains(m));
                    let i = choose|i: int| 0 <= i < from_before.len() && from_before[i] == m;
                    if i < p {
                        assert(from[i] == m);
                    } else {
                        assert(from[i + 1] == m);
                    }
                }
            }
            if T::rank_obeys() {
                // Only the items in front of the new one have overtaken it,
                // and each of them ranks before it.
                assert forall|i: int, j: int|
                    0 <= i < j < out.len() && from.len() == out.len() && #[trigger] from[i]
                        > #[trigger] from[j] implies out@[i].ranks_before(&out@[j]) by {
                    let oi = if i < p { i } else { i - 1 };
                    let oj = if j < p { j } else { j - 1 };
                    assert(i == p || (from[i] == from_before[oi] && out@[i] == before_pop[oi]));
                    assert(j == p || (from[j] == from_before[oj] && out@[j] == before_pop[oj]));
                }
                if weakly_ordered(src) {
                    lemma_insert_keeps_sorted(src, before_pop, from_before, p as int, item, k);
                }
            }
        }
    }
    proof {
        assert(rearranges(src, out@, from));
    }
    out
}

/// Every item of `src` stands somewhere in a rearrangement of it.
pub proof fn lemma_arranged_keeps<T>(src: Seq<T>, out: Seq<T>, from: Seq<int>, m: int) -> (i: int)
    requires
        arranged(src, out, from),
        0 <= m < src.len(),
    ensures
        0 <= i < out.len(),
        from[i] == m,
        out[i] == src[m],
{
    assert(from.contains(m));
    choose|i: int| 0 <= i < from.len() && from[i] == m
}

/// Where the ranking is a strict weak order on a rearrangement, it is one on
/// the items as they stood before.
pub proof fn lemma_arranged_keeps_ranking<T: Ranked>(src: Seq<T>, out: Seq<T>, from: Seq<int>)
    requires
        arranged(src, out, from),
    ensures
        weakly_ordered(out) ==> weakly_ordered(src),
{
    if weakly_ordered(out) {
        assert forall|i: int, j: int|
            #![trigger src[i], src[j]]
            0 <= i < src.len() && 0 <= j < src.len() && src[i].ranks_before(&src[j]) implies !src[j].ranks_before(
            &src[i],
        ) by {
            let a = lemma_arranged_keeps(src, out, from, i);
            let b = lemma_arranged_keeps(src, out, from, j);
            assert(out[a].ranks_before(&out[b]));
        }
        assert forall|i: int, j: int, k: int|
            #![trigger src[i].ranks_before(&src[j]), src[j].ranks_before(&src[k])]
            0 <= i < src.len() && 0 <= j < src.len() && 0 <= k < src.len() && !src[i].ranks_before(
                &src[j],
            ) && !src[j].ranks_before(&src[k]) implies !src[i].ranks_before(&src[k]) by {
            let a = lemma_arranged_keeps(src, out, from, i);
            let b = lemma_arranged_keeps(src, out, from, j);
            let c = lemma_arranged_keeps(src, out, from, k);
            assert(!out[a].ranks_before(&out[b]) && !out[b].ranks_before(&out[c]));
        }
    }
}

/// Inserting `item` behind the items that rank before it, and in front of one
/// that does not, keeps a sorted sequence sorted.
proof fn lemma_insert_keeps_sorted<T: Ranked>(
    src: Seq<T>,
    out: Seq<T>,
    from: Seq<int>,
    p: int,
    item: T,
    k: int,
)
    requires
        weakly_ordered(src),
        sorted(out),
        0 <= p <= out.len(),
        0 <= k < src.len(),
        item == src[k],
        from.len() == out.len(),
        forall|i: int| 0 <= i < out.len() ==> 0 <= #[trigger] from[i] < src.len() && out[i] == src[from[i]],
        forall|i: int| 0 <= i < p ==> (#[trigger] out[i]).ranks_before(&item),
        p < out.len() ==> !out[p].ranks_before(&item),
    ensures
        sorted(out.insert(p, item)),
{
    let res = out.insert(p, item);
    assert forall|i: int, j: int| #![trigger res[i], res[j]] 0 <= i < j < res.len() implies !res[j].ranks_before(
        &res[i],
    ) by {
        let oi = if i < p { i } else { i - 1 };
        let oj = if j < p { j } else { j - 1 };
        if i != p && j != p {
            assert(res[i] == out[oi] && res[j] == out[oj]);
        } else if j == p {
            // res[i] ranks before the item, so the item does not rank before it
            assert(res[i] == out[i] && out[i] == src[from[i]]);
        } else {
            // out[oj] does not rank before out[p], nor out[p] before the item
            assert(res[j] == out[oj] && out[oj] == src[from[oj]]);
            assert(out[p] == src[from[p]]);
        }
    }
}

} // verus!
