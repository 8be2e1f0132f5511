//! Sorting that keeps the order of what compares as equal.
use crate::text::views;
use vstd::prelude::*;

verus! {

/// Values that come in an order, which their views decide.
pub trait Ordered: View + Sized {
    /// Whether the one comes before the other.
    spec fn precedes(a: Self::V, b: Self::V) -> bool;

    /// No two come before each other, and what does not come before anything else may stand behind
    /// it.
    proof fn lemma_order(a: Self::V, b: Self::V, c: Self::V)
        ensures
            Self::precedes(a, b) ==> !Self::precedes(b, a),
            !Self::precedes(a, b) && !Self::precedes(b, c) ==> !Self::precedes(a, c),
    ;

    /// Tells whether this value comes before the other.
    fn comes_before(&self, other: &Self) -> (r: bool)
        ensures
            r == Self::precedes(self@, other@),
    ;
}

/// The values with one more behind all that it does not come before.
pub open spec fn placed<T: Ordered>(s: Seq<T::V>, x: T::V) -> Seq<T::V>
    decreases s.len(),
{
    if s.len() > 0 && T::precedes(x, s.last()) {
        placed::<T>(s.drop_last(), x).push(s.last())
    } else {
        s.push(x)
    }
}

/// The values in their order.
pub open spec fn in_order<T: Ordered>(s: Seq<T::V>) -> Seq<T::V>
    decreases s.len(),
{
    if s.len() == 0 {
        s
    } else {
        placed::<T>(in_order::<T>(s.drop_last()), s.last())
    }
}

/// Whether none of the values comes before one that stands in front of it.
pub open spec fn is_ordered<T: Ordered>(s: Seq<T::V>) -> bool {
    forall|i: int, j: int| 0 <= i < j < s.len() ==> !T::precedes(#[trigger] s[j], #[trigger] s[i])
}

proof fn lemma_placed<T: Ordered>(s: Seq<T::V>, x: T::V)
    ensures
        placed::<T>(s, x).to_multiset() == s.to_multiset().insert(x),
        placed::<T>(s, x).len() == s.len() + 1,
        is_ordered::<T>(s) ==> is_ordered::<T>(placed::<T>(s, x)),
        forall|y: T::V| #[trigger]
            placed::<T>(s, x).contains(y) ==> s.contains(y) || y == x,
    decreases s.len(),
{
    broadcast use vstd::seq_lib::group_to_multiset_ensures;

    let r = placed::<T>(s, x);
    if s.len() > 0 && T::precedes(x, s.last()) {
        let front = s.drop_last();
        lemma_placed::<T>(front, x);
        let p = placed::<T>(front, x);
        assert(s =~= front.push(s.last()));
        assert(r.to_multiset() =~= s.to_multiset().insert(x));
        assert forall|y: T::V| #[trigger] r.contains(y) implies s.contains(y) || y == x by {
            let i = choose|i: int| 0 <= i < r.len() && r[i] == y;
            if i < p.len() {
                assert(p[i] == y);
                assert(p.contains(y));
                if y != x {
                    let k = choose|k: int| 0 <= k < front.len() && front[k] == y;
                    assert(s[k] == y);
                }
            } else {
                assert(s[s.len() - 1] == y);
            }
        }
        if is_ordered::<T>(s) {
            assert forall|i: int, j: int| 0 <= i < j < front.len() implies !T::precedes(
                #[trigger] front[j],
                #[trigger] front[i],
            ) by {
                assert(!T::precedes(s[j], s[i]));
            }
            assert forall|i: int, j: int| 0 <= i < j < r.len() implies !T::precedes(
                #[trigger] r[j],
                #[trigger] r[i],
            ) by {
                if j < p.len() {
                    assert(r[j] == p[j] && r[i] == p[i]);
                } else {
                    assert(p[i] == r[i]);
                    assert(p.contains(r[i]));
                    if r[i] == x {
                        T::lemma_order(x, s.last(), x);
                    } else {
                        let k = choose|k: int| 0 <= k < front.len() && front[k] == r[i];
                        assert(!T::precedes(s[s.len() - 1], s[k]));
                    }
                }
            }
        }
    } else {
        assert(r =~= s.push(x));
        assert forall|y: T::V| #[trigger] r.contains(y) implies s.contains(y) || y == x by {
            let i = choose|i: int| 0 <= i < r.len() && r[i] == y;
            if i < s.len() {
                assert(s[i] == y);
            }
        }
        if is_ordered::<T>(s) {
            assert forall|i: int, j: int| 0 <= i < j < r.len() implies !T::precedes(
                #[trigger] r[j],
                #[trigger] r[i],
            ) by {
                if j < s.len() {
                    assert(!T::precedes(s[j], s[i]));
                } else {
                    if i < s.len() - 1 {
                        assert(!T::precedes(s[s.len() - 1], s[i]));
                    } else {
                        T::lemma_order(s[i], s[i], s[i]);
                    }
                    T::lemma_order(x, s.last(), s[i]);
                }
            }
        }
    }
}

/// Sorting keeps every value, as often as it is there, and puts them in order.
pub proof fn law_in_order<T: Ordered>(s: Seq<T::V>)
    ensures
        in_order::<T>(s).to_multiset() == s.to_multiset(),
        in_order::<T>(s).len() == s.len(),
        is_ordered::<T>(in_order::<T>(s)),
    decreases s.len(),
{
    broadcast use vstd::seq_lib::group_to_multiset_ensures;

    if s.len() > 0 {
        law_in_order::<T>(s.drop_last());
        lemma_placed::<T>(in_order::<T>(s.drop_last()), s.last());
        assert(s =~= s.drop_last().push(s.last()));
    }
}

/// Sorting changes nothing where the values are in order already.
pub proof fn law_ordered_stays<T: Ordered>(s: Seq<T::V>)
    requires
        is_ordered::<T>(s),
    ensures
        in_order::<T>(s) == s,
    decreases s.len(),
{
    if s.len() > 0 {
        let front = s.drop_last();
        assert forall|i: int, j: int| 0 <= i < j < front.len() implies !T::precedes(
            #[trigger] front[j],
            #[trigger] front[i],
        ) by {
            assert(!T::precedes(s[j], s[i]));
        }
        law_ordered_stays::<T>(front);
        if front.len() > 0 {
            assert(!T::precedes(s[s.len() - 1], s[s.len() - 2]));
        }
        assert(s =~= front.push(s.last()));
    }
}

proof fn lemma_placed_at<T: Ordered>(s: Seq<T::V>, x: T::V, at: int)
    requires
        0 <= at <= s.len(),
        forall|i: int| at <= i < s.len() ==> T::precedes(x, #[trigger] s[i]),
        at > 0 ==> !T::precedes(x, s[at - 1]),
    ensures
        placed::<T>(s, x) == s.insert(at, x),
    decreases s.len(),
{
    if at < s.len() {
        assert(T::precedes(x, s[s.len() - 1]));
        lemma_placed_at::<T>(s.drop_last(), x, at);
        assert(s.drop_last().insert(at, x).push(s.last()) =~= s.insert(at, x));
    } else {
        assert(s.push(x) =~= s.insert(at, x));
    }
}

/// Sorts values; what compares as equal keeps its order.
pub fn sort<T: Ordered>(values: Vec<T>) -> (r: Vec<T>)
    ensures
        views(r@) == in_order::<T>(views(values@)),
{
    let ghost all = views(values@);
    let mut rest = values;
    let mut back: Vec<T> = Vec::new();
    while rest.len() > 0
        invariant
            all.len() == rest@.len() + back@.len(),
            forall|i: int| 0 <= i < rest@.len() ==> all[i] == (#[trigger] rest@[i])@,
            forall|i: int|
                0 <= i < back@.len() ==> all[all.len() - 1 - i] == (#[trigger] back@[i])@,
        decreases rest@.len(),
    {
        if let Some(x) = rest.pop() {
            back.push(x);
        }
    }
    let mut out: Vec<T> = Vec::new();
    assert(views(out@) =~= all.subrange(0, 0));
    assert(all.subrange(0, 0).len() == 0);
    while back.len() > 0
        invariant
            back@.len() <= all.len(),
            forall|i: int|
                0 <= i < back@.len() ==> all[all.len() - 1 - i] == (#[trigger] back@[i])@,
            views(out@) == in_order::<T>(all.subrange(0, all.len() - back@.len())),
        decreases back@.len(),
    {
        let ghost n = all.len() - back@.len();
        if let Some(x) = back.pop() {
            let mut at: usize = out.len();
            while at > 0 && x.comes_before(&out[at - 1])
                invariant
                    0 <= at <= out@.len(),
                    forall|i: int|
                        at <= i < out@.len() ==> T::precedes(x@, (#[trigger] out@[i])@),
                decreases at,
            {
                at -= 1;
            }
            proof {
                let s = views(out@);
                assert forall|i: int| at <= i < s.len() implies T::precedes(x@, #[trigger] s[i]) by {
                    assert(T::precedes(x@, out@[i]@));
                }
                lemma_placed_at::<T>(s, x@, at as int);
                let upto = all.subrange(0, n + 1);
                assert(upto.drop_last() =~= all.subrange(0, n));
                assert(upto.last() == x@);
                assert(views(out@.insert(at as int, x)) =~= s.insert(at as int, x@));
            }
            out.insert(at, x);
        }
    }
    assert(all.subrange(0, all.len() as int) =~= all);
    out
}

} // verus!
