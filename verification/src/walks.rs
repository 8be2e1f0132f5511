//! Walks through nested things: one way to each thing that is met.
use vstd::prelude::*;

verus! {

/// Whether `at` are the ways to the things that are met, one for each and none twice, each thing is
/// right for its way, and every way that must be gone is.
pub open spec fn leads<K, A>(
    at: Seq<Seq<K>>,
    met: Seq<A>,
    right: spec_fn(Seq<K>, A) -> bool,
    must: spec_fn(Seq<K>) -> bool,
) -> bool {
    &&& at.len() == met.len()
    &&& at.no_duplicates()
    &&& forall|i: int| 0 <= i < at.len() ==> right(#[trigger] at[i], met[i])
    &&& forall|l: Seq<K>| #[trigger] must(l) ==> at.contains(l)
}

/// The first step of a way and the rest of it.
pub proof fn lemma_way<K>(k: K, l: Seq<K>)
    ensures
        (seq![k] + l).len() == l.len() + 1,
        (seq![k] + l)[0] == k,
        (seq![k] + l).drop_first() == l,
{
    assert((seq![k] + l).drop_first() =~= l);
}

/// Ways with a further first step behind those that start otherwise.
pub proof fn lemma_leads_on<K, A>(
    before: Seq<Seq<K>>,
    first: Seq<A>,
    k: K,
    here: Seq<Seq<K>>,
    then: Seq<A>,
    right: spec_fn(Seq<K>, A) -> bool,
    must: spec_fn(Seq<K>) -> bool,
) -> (at: Seq<Seq<K>>)
    requires
        before.len() == first.len(),
        before.no_duplicates(),
        forall|i: int| 0 <= i < before.len() ==> right(#[trigger] before[i], first[i]),
        forall|i: int| 0 <= i < before.len() ==> (#[trigger] before[i]).len() > 0 && before[i][0] != k,
        here.len() == then.len(),
        here.no_duplicates(),
        forall|i: int| 0 <= i < here.len() ==> right(seq![k] + #[trigger] here[i], then[i]),
        forall|l: Seq<K>| #[trigger]
            must(l) ==> l.len() > 0 && if l[0] == k {
                here.contains(l.drop_first())
            } else {
                before.contains(l)
            },
    ensures
        leads(at, first + then, right, must),
{
    let n = before.len() as int;
    let more = Seq::new(here.len(), |i: int| seq![k] + here[i]);
    let at = before + more;
    let met = first + then;
    assert forall|i: int| n <= i < at.len() implies at[i] == seq![k] + here[i - n] && (
    #[trigger] at[i]).drop_first() == here[i - n] && at[i][0] == k by {
        lemma_way(k, here[i - n]);
    }
    assert forall|i: int| 0 <= i < n implies #[trigger] at[i] == before[i] by {}
    assert(at.no_duplicates()) by {
        assert forall|i: int, j: int|
            0 <= i < at.len() && 0 <= j < at.len() && i != j implies at[i] != at[j] by {
            if i >= n && j >= n {
                assert(at[i].drop_first() == here[i - n] && at[j].drop_first() == here[j - n]);
            } else if i < n && j < n {
                assert(before[i] != before[j]);
            } else if i < n {
                assert(before[i][0] != k);
                assert(at[j][0] == k);
            } else {
                assert(before[j][0] != k);
                assert(at[i][0] == k);
            }
        }
    }
    assert forall|i: int| 0 <= i < at.len() implies right(#[trigger] at[i], met[i]) by {
        if i < n {
            assert(at[i] == before[i]);
        } else {
            assert(at[i] == seq![k] + here[i - n]);
        }
    }
    assert forall|l: Seq<K>| #[trigger] must(l) implies at.contains(l) by {
        if l[0] == k {
            let r = l.drop_first();
            let i = choose|i: int| 0 <= i < here.len() && here[i] == r;
            assert(l =~= seq![k] + r);
            assert(at[n + i] == l);
        } else {
            let i = choose|i: int| 0 <= i < before.len() && before[i] == l;
            assert(at[i] == l);
        }
    }
    at
}

/// The way of no steps before those of some.
pub proof fn lemma_leads_in<K, A>(
    top: A,
    here: Seq<Seq<K>>,
    then: Seq<A>,
    right: spec_fn(Seq<K>, A) -> bool,
    must: spec_fn(Seq<K>) -> bool,
) -> (at: Seq<Seq<K>>)
    requires
        right(Seq::empty(), top),
        here.len() == then.len(),
        here.no_duplicates(),
        forall|i: int|
            0 <= i < here.len() ==> (#[trigger] here[i]).len() > 0 && right(here[i], then[i]),
        forall|l: Seq<K>| l.len() > 0 && #[trigger] must(l) ==> here.contains(l),
    ensures
        leads(at, seq![top] + then, right, must),
{
    let none = Seq::<K>::empty();
    let at = seq![none] + here;
    let met = seq![top] + then;
    assert forall|i: int| 1 <= i < at.len() implies #[trigger] at[i] == here[i - 1] by {}
    assert(at.no_duplicates()) by {
        assert forall|i: int, j: int|
            0 <= i < at.len() && 0 <= j < at.len() && i != j implies at[i] != at[j] by {
            if i > 0 {
                assert(at[i] == here[i - 1]);
            }
            if j > 0 {
                assert(at[j] == here[j - 1]);
            }
        }
    }
    assert forall|i: int| 0 <= i < at.len() implies right(#[trigger] at[i], met[i]) by {
        if i > 0 {
            assert(at[i] == here[i - 1]);
        }
    }
    assert forall|l: Seq<K>| #[trigger] must(l) implies at.contains(l) by {
        if l.len() == 0 {
            assert(l =~= none);
            assert(at[0] == l);
        } else {
            let i = choose|i: int| 0 <= i < here.len() && here[i] == l;
            assert(at[i + 1] == l);
        }
    }
    at
}

/// The way of no steps alone.
pub proof fn lemma_leads_here<K, A>(
    top: A,
    right: spec_fn(Seq<K>, A) -> bool,
    must: spec_fn(Seq<K>) -> bool,
) -> (at: Seq<Seq<K>>)
    requires
        right(Seq::empty(), top),
        forall|l: Seq<K>| #[trigger] must(l) ==> l.len() == 0,
    ensures
        leads(at, seq![top], right, must),
{
    let at = lemma_leads_in(top, Seq::empty(), Seq::empty(), right, must);
    assert(seq![top] + Seq::<A>::empty() =~= seq![top]);
    at
}

} // verus!
