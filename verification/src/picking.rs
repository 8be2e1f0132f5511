//! Lists that hold just what was wanted of another list, in its order.
use vstd::prelude::*;

verus! {

/// Whether `out` is what is wanted, in order: `at` are the places of what is wanted, one for each
/// that is there, and none is passed over.
pub open spec fn picks<T>(out: Seq<T>, wanted: Seq<Option<T>>, at: Seq<int>) -> bool {
    &&& at.len() == out.len()
    &&& forall|j: int|
        0 <= j < at.len() ==> 0 <= #[trigger] at[j] < wanted.len() && wanted[at[j]] == Some(out[j])
    &&& forall|j: int, k: int| 0 <= j < k < at.len() ==> #[trigger] at[j] < #[trigger] at[k]
    &&& forall|i: int|
        0 <= i < wanted.len() && (#[trigger] wanted[i]) is Some ==> at.contains(i)
}

/// Whether `out` is just what is wanted, in order and each once.
pub open spec fn picked<T>(out: Seq<T>, wanted: Seq<Option<T>>) -> bool {
    exists|at: Seq<int>| picks(out, wanted, at)
}

/// Nothing is what is wanted of nothing.
pub proof fn lemma_picked_none<T>()
    ensures
        picked(Seq::<T>::empty(), Seq::<Option<T>>::empty()),
{
    assert(picks(Seq::<T>::empty(), Seq::<Option<T>>::empty(), Seq::<int>::empty()));
}

/// One more thing is put behind the others if it is wanted.
pub proof fn lemma_picked_push<T>(out: Seq<T>, wanted: Seq<Option<T>>, x: Option<T>)
    requires
        picked(out, wanted),
    ensures
        picked(
            (match x {
                Some(v) => out.push(v),
                None => out,
            }),
            wanted.push(x),
        ),
{
    let at = choose|at: Seq<int>| picks(out, wanted, at);
    let more = wanted.push(x);
    match x {
        Some(v) => {
            let all = at.push(wanted.len() as int);
            let res = out.push(v);
            assert forall|j: int| 0 <= j < all.len() implies 0 <= #[trigger] all[j] < more.len()
                && more[all[j]] == Some(res[j]) by {
                if j < at.len() {
                    assert(all[j] == at[j]);
                }
            }
            assert forall|j: int, k: int| 0 <= j < k < all.len() implies #[trigger] all[j]
                < #[trigger] all[k] by {
                assert(all[j] == at[j]);
                if k < at.len() {
                    assert(all[k] == at[k]);
                }
            }
            assert forall|i: int| 0 <= i < more.len() && (#[trigger] more[i]) is Some implies all.contains(
                i,
            ) by {
                if i < wanted.len() {
                    assert(wanted[i] == more[i]);
                    let j = choose|j: int| 0 <= j < at.len() && at[j] == i;
                    assert(all[j] == i);
                } else {
                    assert(all[at.len() as int] == i);
                }
            }
            assert(picks(res, more, all));
        },
        None => {
            assert forall|j: int| 0 <= j < at.len() implies 0 <= #[trigger] at[j] < more.len()
                && more[at[j]] == Some(out[j]) by {}
            assert forall|i: int| 0 <= i < more.len() && (#[trigger] more[i]) is Some implies at.contains(
                i,
            ) by {
                assert(wanted[i] == more[i]);
            }
            assert(picks(out, more, at));
        },
    }
}

/// What is picked is there just where it is wanted.
pub proof fn lemma_picked_has<T>(out: Seq<T>, wanted: Seq<Option<T>>, v: T)
    requires
        picked(out, wanted),
    ensures
        out.contains(v) <==> wanted.contains(Some(v)),
{
    let at = choose|at: Seq<int>| picks(out, wanted, at);
    if out.contains(v) {
        let j = choose|j: int| 0 <= j < out.len() && out[j] == v;
        assert(wanted[at[j]] == Some(v));
    }
    if wanted.contains(Some(v)) {
        let i = choose|i: int| 0 <= i < wanted.len() && wanted[i] == Some(v);
        let j = choose|j: int| 0 <= j < at.len() && at[j] == i;
        assert(out[j] == v);
    }
}

/// What is picked of two lists, one behind the other, is picked of both together.
pub proof fn lemma_picked_both<T>(
    a: Seq<T>,
    wanted_a: Seq<Option<T>>,
    b: Seq<T>,
    wanted_b: Seq<Option<T>>,
)
    requires
        picked(a, wanted_a),
        picked(b, wanted_b),
    ensures
        picked(a + b, wanted_a + wanted_b),
{
    let x = choose|at: Seq<int>| picks(a, wanted_a, at);
    let y = choose|at: Seq<int>| picks(b, wanted_b, at);
    let n = wanted_a.len() as int;
    let all = x + Seq::new(y.len(), |j: int| y[j] + n);
    let out = a + b;
    let wanted = wanted_a + wanted_b;
    assert forall|j: int| 0 <= j < all.len() implies 0 <= #[trigger] all[j] < wanted.len()
        && wanted[all[j]] == Some(out[j]) by {
        if j < x.len() {
            assert(all[j] == x[j]);
        } else {
            let k = j - x.len();
            assert(all[j] == y[k] + n);
            assert(wanted_b[y[k]] == Some(b[k]));
        }
    }
    assert forall|j: int, k: int| 0 <= j < k < all.len() implies #[trigger] all[j]
        < #[trigger] all[k] by {
        if k < x.len() {
            assert(all[j] == x[j] && all[k] == x[k]);
        } else if j < x.len() {
            assert(all[j] == x[j] && all[k] == y[k - x.len()] + n);
            assert(0 <= y[k - x.len()]);
        } else {
            assert(all[j] == y[j - x.len()] + n && all[k] == y[k - x.len()] + n);
        }
    }
    assert forall|i: int| 0 <= i < wanted.len() && (#[trigger] wanted[i]) is Some implies all.contains(
        i,
    ) by {
        if i < n {
            assert(wanted_a[i] == wanted[i]);
            let j = choose|j: int| 0 <= j < x.len() && x[j] == i;
            assert(all[j] == i);
        } else {
            assert(wanted_b[i - n] == wanted[i]);
            let j = choose|j: int| 0 <= j < y.len() && y[j] == i - n;
            assert(all[x.len() + j] == i);
        }
    }
    assert(picks(out, wanted, all));
}

} // verus!
