//! Stable sorting of items that have an order of precedence.

use vstd::prelude::*;
use vstd::seq_lib::*;

verus! {

/// Items of which some come before others. What an item holds decides.
pub trait Ranked: View + Sized {
    /// Whether `a` comes before `b`.
    spec fn before(a: Self::V, b: Self::V) -> bool;

    /// Whether `a` has a place in the order.
    spec fn placeable(a: Self::V) -> bool;

    /// Whether `self` comes before `other`.
    fn precedes(&self, other: &Self) -> (r: bool)
        ensures
            r == Self::before(self@, other@),
    ;

    /// Of two items at most one comes before the other, and an item that lies
    /// between neither of two keeps them apart.
    proof fn lemma_order(a: Self::V, b: Self::V, c: Self::V)
        requires
            Self::placeable(a),
            Self::placeable(b),
            Self::placeable(c),
        ensures
            !(Self::before(a, b) && Self::before(b, a)),
            Self::before(a, b) ==> Self::before(a, c) || Self::before(c, b),
    ;
}

/// Items by what they hold.
pub open spec fn views<T: Ranked>(s: Seq<T>) -> Seq<T::V> {
    Seq::new(s.len(), |i: int| s[i]@)
}

/// Whether neither of two items comes before the other.
pub open spec fn tied<T: Ranked>(a: T::V, b: T::V) -> bool {
    !T::before(a, b) && !T::before(b, a)
}

/// Whether every item of `s` has a place in the order.
pub open spec fn all_placeable<T: Ranked>(s: Seq<T::V>) -> bool {
    forall|i: int| 0 <= i < s.len() ==> T::placeable(#[trigger] s[i])
}

/// `s` with `x` put behind everything that it does not come before.
pub open spec fn placed<T: Ranked>(s: Seq<T::V>, x: T::V) -> Seq<T::V>
    decreases s.len(),
{
    if s.len() > 0 && T::before(x, s.last()) {
        placed::<T>(s.drop_last(), x).push(s.last())
    } else {
        s.push(x)
    }
}

/// The items of `s` in order of precedence, tied ones as they stood.
pub open spec fn ranked<T: Ranked>(s: Seq<T::V>) -> Seq<T::V>
    decreases s.len(),
{
    if s.len() == 0 {
        seq![]
    } else {
        placed::<T>(ranked::<T>(s.drop_last()), s.last())
    }
}

/// Whether no item of `s` comes before one that stands ahead of it.
pub open spec fn in_order<T: Ranked>(s: Seq<T::V>) -> bool {
    forall|i: int, j: int|
        #![trigger s[i], s[j]]
        0 <= i < j < s.len() ==> !T::before(s[j], s[i])
}

/// The items of `v` in order of precedence, tied ones as they stood.
pub fn rank<T: Ranked>(v: Vec<T>) -> (r: Vec<T>)
    ensures
        views(r@) == ranked::<T>(views(v@)),
{
    let mut out: Vec<T> = Vec::new();
    let mut rest: Vec<T> = v;
    let mut items: Vec<T> = Vec::new();
    let ghost all = v@;
    while rest.len() > 0
        invariant
            items@ =~= rest_reversed(all, rest@.len() as int),
            rest@ =~= all.take(rest@.len() as int),
            rest@.len() <= all.len(),
        decreases rest.len(),
    {
        let x: Option<T> = rest.pop();
        if let Some(item) = x {
            items.push(item);
        }
    }
    while items.len() > 0
        invariant
            items@ =~= rest_reversed(all, all.len() - items@.len()),
            items@.len() <= all.len(),
            views(out@) == ranked::<T>(views(all.take(all.len() - items@.len()))),
        decreases items.len(),
    {
        let ghost k = all.len() - items@.len();
        let next: Option<T> = items.pop();
        if let Some(x) = next {
            let ghost before = views(out@);
            let mut at: usize = out.len();
            assert(before.take(at as int) =~= before);
            assert(placed::<T>(before, x@) =~= placed::<T>(before.take(at as int), x@)
                + before.skip(at as int));
            while at > 0 && x.precedes(&out[at - 1])
                invariant
                    at <= out.len(),
                    views(out@) == before,
                    placed::<T>(before, x@) == placed::<T>(before.take(at as int), x@)
                        + before.skip(at as int),
                decreases at,
            {
                let ghost front = before.take(at as int);
                assert(front.last() == before[at - 1]);
                assert(before[at - 1] == out@[at - 1]@);
                assert(front.drop_last() =~= before.take(at - 1));
                assert(placed::<T>(front, x@) + before.skip(at as int) =~= placed::<T>(
                    before.take(at - 1),
                    x@,
                ) + before.skip(at - 1));
                at = at - 1;
            }
            let ghost front = before.take(at as int);
            assert(at > 0 ==> front.last() == before[at - 1] && before[at - 1] == out@[at - 1]@);
            assert(placed::<T>(front, x@) == front.push(x@));
            out.insert(at, x);
            assert(views(out@) =~= front.push(x@) + before.skip(at as int));
            assert(views(all.take(k + 1)).drop_last() =~= views(all.take(k)));
            assert(views(all.take(k + 1)).last() == x@);
        }
    }
    assert(all.take(all.len() as int) =~= all);
    out
}

/// The items of `s` from `from` on, last one first.
spec fn rest_reversed<T>(s: Seq<T>, from: int) -> Seq<T> {
    s.skip(from).reverse()
}

/// Ranking moves items about and neither adds nor loses any.
pub proof fn law_rank_keeps_items<T: Ranked>(s: Seq<T::V>)
    ensures
        ranked::<T>(s).to_multiset() == s.to_multiset(),
        ranked::<T>(s).len() == s.len(),
    decreases s.len(),
{
    broadcast use group_to_multiset_ensures;

    if s.len() > 0 {
        law_rank_keeps_items::<T>(s.drop_last());
        lemma_placed_keeps::<T>(ranked::<T>(s.drop_last()), s.last());
        assert(s =~= s.drop_last().push(s.last()));
    } else {
        assert(s =~= seq![]);
    }
}

proof fn lemma_placed_keeps<T: Ranked>(s: Seq<T::V>, x: T::V)
    ensures
        placed::<T>(s, x).to_multiset() =~= s.to_multiset().insert(x),
        placed::<T>(s, x).len() == s.len() + 1,
    decreases s.len(),
{
    broadcast use group_to_multiset_ensures;

    if s.len() > 0 && T::before(x, s.last()) {
        lemma_placed_keeps::<T>(s.drop_last(), x);
        assert(s =~= s.drop_last().push(s.last()));
    }
}

/// After ranking no item stands behind one that it comes before.
pub proof fn law_rank_orders<T: Ranked>(s: Seq<T::V>)
    requires
        all_placeable::<T>(s),
    ensures
        in_order::<T>(ranked::<T>(s)),
        all_placeable::<T>(ranked::<T>(s)),
    decreases s.len(),
{
    if s.len() > 0 {
        assert(all_placeable::<T>(s.drop_last()));
        law_rank_orders::<T>(s.drop_last());
        lemma_placed_orders::<T>(ranked::<T>(s.drop_last()), s.last());
    }
}

proof fn lemma_placed_orders<T: Ranked>(s: Seq<T::V>, x: T::V)
    requires
        in_order::<T>(s),
        all_placeable::<T>(s),
        T::placeable(x),
    ensures
        in_order::<T>(placed::<T>(s, x)),
        all_placeable::<T>(placed::<T>(s, x)),
        forall|i: int|
            0 <= i < placed::<T>(s, x).len() ==> #[trigger] placed::<T>(s, x)[i] == x || s.contains(
                placed::<T>(s, x)[i],
            ),
    decreases s.len(),
{
    let r = placed::<T>(s, x);
    if s.len() > 0 && T::before(x, s.last()) {
        let front = s.drop_last();
        let last = s.last();
        assert(in_order::<T>(front)) by {
            assert forall|i: int, j: int|
                #![trigger front[i], front[j]]
                0 <= i < j < front.len() implies !T::before(front[j], front[i]) by {
                assert(front[i] == s[i] && front[j] == s[j]);
            }
        }
        assert(all_placeable::<T>(front)) by {
            assert forall|i: int| 0 <= i < front.len() implies T::placeable(#[trigger] front[i]) by {
                assert(front[i] == s[i]);
            }
        }
        lemma_placed_orders::<T>(front, x);
        let p = placed::<T>(front, x);
        T::lemma_order(x, last, x);
        assert forall|i: int| 0 <= i < r.len() implies #[trigger] r[i] == x || s.contains(r[i]) by {
            if i < p.len() {
                assert(r[i] == p[i]);
                if p[i] != x {
                    let k = choose|k: int| 0 <= k < front.len() && front[k] == p[i];
                    assert(s[k] == r[i]);
                }
            } else {
                assert(s[s.len() - 1] == r[i]);
            }
        }
        assert forall|i: int, j: int|
            #![trigger r[i], r[j]]
            0 <= i < j < r.len() implies !T::before(r[j], r[i]) by {
            if j < p.len() {
                assert(r[i] == p[i] && r[j] == p[j]);
            } else {
                assert(r[i] == p[i]);
                if p[i] != x {
                    let k = choose|k: int| 0 <= k < front.len() && front[k] == p[i];
                    assert(s[k] == front[k]);
                    assert(!T::before(s[s.len() - 1], s[k]));
                }
            }
        }
    } else {
        assert forall|i: int, j: int|
            #![trigger r[i], r[j]]
            0 <= i < j < r.len() implies !T::before(r[j], r[i]) by {
            if j < s.len() {
                assert(r[i] == s[i] && r[j] == s[j]);
            } else {
                assert(r[i] == s[i]);
                assert(T::placeable(s[s.len() - 1]));
                assert(T::placeable(s[i]));
                if T::before(x, s[i]) {
                    T::lemma_order(x, s[i], s[s.len() - 1]);
                    if i < s.len() - 1 {
                        assert(!T::before(s[s.len() - 1], s[i]));
                    }
                }
            }
        }
        assert forall|i: int| 0 <= i < r.len() implies #[trigger] r[i] == x || s.contains(r[i]) by {
            if i < s.len() {
                assert(s[i] == r[i]);
            }
        }
    }
}

/// Items that are tied keep the order in which they stood.
pub proof fn law_rank_is_stable<T: Ranked>(s: Seq<T::V>, k: T::V)
    requires
        all_placeable::<T>(s),
        T::placeable(k),
    ensures
        ranked::<T>(s).filter(|x: T::V| tied::<T>(x, k)) == s.filter(|x: T::V| tied::<T>(x, k)),
    decreases s.len(),
{
    let p = |x: T::V| tied::<T>(x, k);
    reveal(Seq::filter);
    if s.len() > 0 {
        assert(all_placeable::<T>(s.drop_last()));
        law_rank_is_stable::<T>(s.drop_last(), k);
        law_rank_orders::<T>(s.drop_last());
        lemma_placed_filter::<T>(ranked::<T>(s.drop_last()), s.last(), k);
        let kept = s.drop_last().filter(p);
        if p(s.last()) {
            assert(kept + seq![s.last()] =~= kept.push(s.last()));
        } else {
            assert(kept + seq![] =~= kept);
        }
    }
}

proof fn lemma_placed_filter<T: Ranked>(s: Seq<T::V>, x: T::V, k: T::V)
    requires
        all_placeable::<T>(s),
        T::placeable(x),
        T::placeable(k),
    ensures
        placed::<T>(s, x).filter(|y: T::V| tied::<T>(y, k)) == s.filter(|y: T::V| tied::<T>(y, k)) + (if tied::<T>(x, k) {
            seq![x]
        } else {
            seq![]
        }),
    decreases s.len(),
{
    let p = |y: T::V| tied::<T>(y, k);
    reveal(Seq::filter);
    let own = if tied::<T>(x, k) {
        seq![x]
    } else {
        seq![]
    };
    let r = placed::<T>(s, x);
    if s.len() > 0 && T::before(x, s.last()) {
        let front = s.drop_last();
        let last = s.last();
        assert(all_placeable::<T>(front)) by {
            assert forall|i: int| 0 <= i < front.len() implies T::placeable(#[trigger] front[i]) by {
                assert(front[i] == s[i]);
            }
        }
        lemma_placed_filter::<T>(front, x, k);
        assert(T::placeable(s[s.len() - 1]));
        T::lemma_order(x, last, k);
        assert(r.drop_last() =~= placed::<T>(front, x));
        assert(r.last() == last);
        if p(last) {
            assert(own =~= seq![]);
            assert(front.filter(p) + seq![] =~= front.filter(p));
            assert(s.filter(p) + seq![] =~= s.filter(p));
        } else {
            assert(s.filter(p) == front.filter(p));
        }
    } else {
        assert(r.drop_last() =~= s);
        assert(r.last() == x);
        if p(x) {
            assert(s.filter(p).push(x) =~= s.filter(p) + own);
        } else {
            assert(s.filter(p) =~= s.filter(p) + own);
        }
    }
}

} // verus!
