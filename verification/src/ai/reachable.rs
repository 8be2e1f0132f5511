//! The commits that can be reached from several commits.
use crate::commit_object::{commit_at, CommitModel, CommitObject};
use crate::merge_base::{is_ancestor, is_path};
use crate::object::{ObjectError, ObjectSha};
use crate::object_db::{lemma_count, ObjectDb};
use crate::oid_list::OidList;
use vstd::prelude::*;

verus! {

/// A walk in progress: the commits to look at, the last one first, and those found.
#[verifier::ext_equal]
pub struct Spread {
    pub stack: Seq<ObjectSha>,
    pub found: Seq<ObjectSha>,
}

/// The walk after the next commit was looked at; one found before is passed over.
pub open spec fn spread_step(db: Map<ObjectSha, Seq<u8>>, s: Spread) -> Result<Spread, ObjectError> {
    let oid = s.stack.last();
    let rest = s.stack.drop_last();
    if s.found.contains(oid) {
        Ok(Spread { stack: rest, found: s.found })
    } else {
        match commit_at(db, oid) {
            Err(e) => Err(e),
            Ok(c) => Ok(Spread { stack: rest + c.parents, found: s.found.push(oid) }),
        }
    }
}

/// The walk from some commits after `k` were looked at.
pub open spec fn spread(db: Map<ObjectSha, Seq<u8>>, tips: Seq<ObjectSha>, k: nat) -> Result<
    Spread,
    ObjectError,
>
    decreases k,
{
    if k == 0 {
        Ok(Spread { stack: tips, found: Seq::empty() })
    } else {
        match spread(db, tips, (k - 1) as nat) {
            Err(e) => Err(e),
            Ok(s) => if s.stack.len() == 0 {
                Ok(s)
            } else {
                spread_step(db, s)
            },
        }
    }
}

/// Whether the walk is over after `k` commits, with this result.
pub open spec fn spread_ends(
    db: Map<ObjectSha, Seq<u8>>,
    tips: Seq<ObjectSha>,
    k: nat,
    r: Result<Seq<ObjectSha>, ObjectError>,
) -> bool {
    match spread(db, tips, k) {
        Ok(s) => s.stack.len() == 0 && r == Ok::<Seq<ObjectSha>, ObjectError>(s.found),
        Err(e) => r == Err::<Seq<ObjectSha>, ObjectError>(e),
    }
}

/// Whether the walk from some commits ends with this result: the commits found, or what keeps one
/// from being read.
pub open spec fn spreads_to(
    db: Map<ObjectSha, Seq<u8>>,
    tips: Seq<ObjectSha>,
    r: Result<Seq<ObjectSha>, ObjectError>,
) -> bool {
    exists|k: nat| #[trigger] spread_ends(db, tips, k, r)
}

proof fn lemma_spread_stays(db: Map<ObjectSha, Seq<u8>>, tips: Seq<ObjectSha>, j: nat, k: nat)
    requires
        j <= k,
        spread(db, tips, j) matches Ok(s) ==> s.stack.len() == 0,
    ensures
        spread(db, tips, k) == spread(db, tips, j),
    decreases k,
{
    if j < k {
        lemma_spread_stays(db, tips, j, (k - 1) as nat);
    }
}

/// The walk from some commits ends in one way only.
pub proof fn law_spread_unique(
    db: Map<ObjectSha, Seq<u8>>,
    tips: Seq<ObjectSha>,
    a: Result<Seq<ObjectSha>, ObjectError>,
    b: Result<Seq<ObjectSha>, ObjectError>,
)
    requires
        spreads_to(db, tips, a),
        spreads_to(db, tips, b),
    ensures
        a == b,
{
    let j = choose|k: nat| #[trigger] spread_ends(db, tips, k, a);
    let k = choose|k: nat| #[trigger] spread_ends(db, tips, k, b);
    if j <= k {
        lemma_spread_stays(db, tips, j, k);
    } else {
        lemma_spread_stays(db, tips, k, j);
    }
}

/// Whether a commit is one of some commits, or an ancestor of one.
pub open spec fn is_below(db: Map<ObjectSha, Seq<u8>>, tips: Seq<ObjectSha>, o: ObjectSha) -> bool {
    exists|i: int| 0 <= i < tips.len() && is_ancestor(db, o, #[trigger] tips[i])
}

/// What always holds of a walk.
spec fn sound_spread(db: Map<ObjectSha, Seq<u8>>, tips: Seq<ObjectSha>, s: Spread) -> bool {
    &&& s.found.no_duplicates()
    &&& forall|i: int|
        0 <= i < s.found.len() ==> commit_at(db, #[trigger] s.found[i]) is Ok && is_below(
            db,
            tips,
            s.found[i],
        )
    &&& forall|i: int| 0 <= i < s.stack.len() ==> is_below(db, tips, #[trigger] s.stack[i])
    &&& forall|i: int, p: ObjectSha|
        0 <= i < s.found.len() && #[trigger] commit_at(db, s.found[i])->Ok_0.parents.contains(p)
            ==> s.found.contains(p) || s.stack.contains(p)
    &&& forall|i: int|
        0 <= i < tips.len() ==> s.found.contains(#[trigger] tips[i]) || s.stack.contains(tips[i])
}

proof fn lemma_below_parent(
    db: Map<ObjectSha, Seq<u8>>,
    tips: Seq<ObjectSha>,
    o: ObjectSha,
    p: ObjectSha,
)
    requires
        is_below(db, tips, o),
        commit_at(db, o) is Ok,
        commit_at(db, o)->Ok_0.parents.contains(p),
    ensures
        is_below(db, tips, p),
{
    let i = choose|i: int| 0 <= i < tips.len() && is_ancestor(db, o, #[trigger] tips[i]);
    let from = tips[i];
    let q = choose|q: Seq<ObjectSha>| is_path(db, q, from, o);
    let r = q.push(p);
    assert forall|j: int| 0 <= j < r.len() - 1 implies (commit_at(db, #[trigger] r[j]) matches Ok(c)
        && c.parents.contains(r[j + 1])) by {
        if j < q.len() - 1 {
            assert(commit_at(db, q[j]) is Ok);
            assert(r[j] == q[j] && r[j + 1] == q[j + 1]);
        }
    }
    assert(is_path(db, r, from, p));
    assert(is_ancestor(db, p, tips[i]));
}

proof fn lemma_sound_step(db: Map<ObjectSha, Seq<u8>>, tips: Seq<ObjectSha>, s: Spread)
    requires
        sound_spread(db, tips, s),
        s.stack.len() > 0,
    ensures
        spread_step(db, s) matches Ok(t) ==> sound_spread(db, tips, t),
{
    let oid = s.stack.last();
    let rest = s.stack.drop_last();
    assert(s.stack[s.stack.len() - 1] == oid);
    if let Ok(t) = spread_step(db, s) {
        assert forall|x: ObjectSha| s.stack.contains(x) && x != oid implies #[trigger] rest.contains(
            x,
        ) by {
            let i = choose|i: int| 0 <= i < s.stack.len() && s.stack[i] == x;
            assert(rest[i] == x);
        }
        assert forall|i: int| 0 <= i < rest.len() implies is_below(db, tips, #[trigger] rest[i]) by {
            assert(rest[i] == s.stack[i]);
        }
        if s.found.contains(oid) {
            assert forall|i: int, p: ObjectSha|
                0 <= i < t.found.len() && #[trigger] commit_at(
                    db,
                    t.found[i],
                )->Ok_0.parents.contains(p) implies t.found.contains(p) || t.stack.contains(p) by {
                assert(s.found.contains(p) || s.stack.contains(p));
            }
            assert forall|i: int| 0 <= i < tips.len() implies t.found.contains(#[trigger] tips[i])
                || t.stack.contains(tips[i]) by {}
        } else {
            let ps = commit_at(db, oid)->Ok_0.parents;
            assert(t.found[s.found.len() as int] == oid);
            assert forall|x: ObjectSha| s.found.contains(x) implies #[trigger] t.found.contains(
                x,
            ) by {
                let i = choose|i: int| 0 <= i < s.found.len() && s.found[i] == x;
                assert(t.found[i] == x);
            }
            assert forall|x: ObjectSha| rest.contains(x) || ps.contains(
                x,
            ) implies #[trigger] t.stack.contains(x) by {
                if rest.contains(x) {
                    let i = choose|i: int| 0 <= i < rest.len() && rest[i] == x;
                    assert(t.stack[i] == x);
                } else {
                    let i = choose|i: int| 0 <= i < ps.len() && ps[i] == x;
                    assert(t.stack[rest.len() + i] == x);
                }
            }
            assert forall|i: int| 0 <= i < t.stack.len() implies is_below(
                db,
                tips,
                #[trigger] t.stack[i],
            ) by {
                if i < rest.len() {
                    assert(t.stack[i] == rest[i]);
                } else {
                    assert(t.stack[i] == ps[i - rest.len()]);
                    assert(ps.contains(ps[i - rest.len()]));
                    lemma_below_parent(db, tips, oid, t.stack[i]);
                }
            }
            assert forall|i: int| 0 <= i < t.found.len() implies commit_at(
                db,
                #[trigger] t.found[i],
            ) is Ok && is_below(db, tips, t.found[i]) by {
                if i < s.found.len() {
                    assert(t.found[i] == s.found[i]);
                }
            }
            assert forall|i: int, p: ObjectSha|
                0 <= i < t.found.len() && #[trigger] commit_at(
                    db,
                    t.found[i],
                )->Ok_0.parents.contains(p) implies t.found.contains(p) || t.stack.contains(p) by {
                if i < s.found.len() {
                    assert(t.found[i] == s.found[i]);
                    assert(s.found.contains(p) || s.stack.contains(p));
                    if s.stack.contains(p) && p != oid {
                        assert(rest.contains(p));
                    }
                } else {
                    assert(ps.contains(p));
                }
            }
            assert forall|i: int| 0 <= i < tips.len() implies t.found.contains(#[trigger] tips[i])
                || t.stack.contains(tips[i]) by {
                if s.stack.contains(tips[i]) && tips[i] != oid {
                    assert(rest.contains(tips[i]));
                }
            }
        }
    }
}

proof fn lemma_sound_spread(db: Map<ObjectSha, Seq<u8>>, tips: Seq<ObjectSha>, k: nat)
    ensures
        spread(db, tips, k) matches Ok(s) ==> sound_spread(db, tips, s),
    decreases k,
{
    if k == 0 {
        assert forall|i: int| 0 <= i < tips.len() implies is_below(db, tips, #[trigger] tips[i]) by {
            assert(is_path(db, seq![tips[i]], tips[i], tips[i]));
            assert(is_ancestor(db, tips[i], tips[i]));
        }
        assert forall|i: int| 0 <= i < tips.len() implies tips.contains(#[trigger] tips[i]) by {}
    } else {
        lemma_sound_spread(db, tips, (k - 1) as nat);
        if let Ok(s) = spread(db, tips, (k - 1) as nat) {
            if s.stack.len() > 0 {
                lemma_sound_step(db, tips, s);
            }
        }
    }
}

proof fn lemma_path_found(
    db: Map<ObjectSha, Seq<u8>>,
    tips: Seq<ObjectSha>,
    s: Spread,
    p: Seq<ObjectSha>,
    i: int,
)
    requires
        sound_spread(db, tips, s),
        s.stack.len() == 0,
        p.len() > 0,
        tips.contains(p[0]),
        is_path(db, p, p[0], p.last()),
        0 <= i < p.len(),
    ensures
        s.found.contains(p[i]),
    decreases i,
{
    if i == 0 {
        let t = choose|t: int| 0 <= t < tips.len() && tips[t] == p[0];
        assert(s.found.contains(tips[t]));
    } else {
        lemma_path_found(db, tips, s, p, i - 1);
        let k = choose|k: int| 0 <= k < s.found.len() && s.found[k] == p[i - 1];
        assert(commit_at(db, p[i - 1]) matches Ok(c) && c.parents.contains(p[i - 1 + 1]));
        assert(commit_at(db, s.found[k])->Ok_0.parents.contains(p[i]));
    }
}

/// The commits found are those that can be reached, each once.
pub proof fn law_spread_reaches_all(
    db: Map<ObjectSha, Seq<u8>>,
    tips: Seq<ObjectSha>,
    found: Seq<ObjectSha>,
)
    requires
        spreads_to(db, tips, Ok(found)),
    ensures
        found.no_duplicates(),
        forall|i: int| 0 <= i < found.len() ==> commit_at(db, #[trigger] found[i]) is Ok,
        forall|o: ObjectSha| #[trigger] found.contains(o) <==> is_below(db, tips, o),
{
    let k = choose|k: nat| #[trigger] spread_ends(db, tips, k, Ok(found));
    lemma_sound_spread(db, tips, k);
    let s = spread(db, tips, k)->Ok_0;
    assert forall|o: ObjectSha| #[trigger] found.contains(o) <==> is_below(db, tips, o) by {
        if found.contains(o) {
            let i = choose|i: int| 0 <= i < found.len() && found[i] == o;
            assert(is_below(db, tips, s.found[i]));
        }
        if is_below(db, tips, o) {
            let i = choose|i: int| 0 <= i < tips.len() && is_ancestor(db, o, #[trigger] tips[i]);
            let from = tips[i];
            let p = choose|p: Seq<ObjectSha>| is_path(db, p, from, o);
            lemma_path_found(db, tips, s, p, p.len() - 1);
        }
    }
}

/// The commits, with the ids that they are stored under.
pub open spec fn found_ids(v: Seq<(ObjectSha, CommitObject)>) -> Seq<ObjectSha> {
    Seq::new(v.len(), |i: int| v[i].0)
}

/// Finds all commits that can be reached from some commits.
pub fn collect_commits(db: &ObjectDb, tips: &[ObjectSha]) -> (r: Result<
    Vec<(ObjectSha, CommitObject)>,
    ObjectError,
>)
    ensures
        (match r {
            Ok(v) => spreads_to(db@, tips@, Ok(found_ids(v@))) && forall|i: int|
                0 <= i < v@.len() ==> commit_at(db@, (#[trigger] v@[i]).0) == Ok::<
                    CommitModel,
                    ObjectError,
                >(v@[i].1@),
            Err(e) => spreads_to(db@, tips@, Err(e)),
        }),
{
    let mut stack: Vec<ObjectSha> = Vec::new();
    let mut t: usize = 0;
    while t < tips.len()
        invariant
            0 <= t <= tips@.len(),
            stack@ == tips@.subrange(0, t as int),
        decreases tips@.len() - t,
    {
        stack.push(tips[t]);
        t += 1;
        assert(stack@ =~= tips@.subrange(0, t as int));
    }
    assert(stack@ =~= tips@);
    let mut found = OidList::new();
    let mut out: Vec<(ObjectSha, CommitObject)> = Vec::new();
    let ghost mut k: nat = 0;
    assert(found_ids(out@) =~= found@);
    while stack.len() > 0
        invariant
            spread(db@, tips@, k) == Ok::<Spread, ObjectError>(
                Spread { stack: stack@, found: found@ },
            ),
            found_ids(out@) == found@,
            forall|i: int|
                0 <= i < out@.len() ==> commit_at(db@, (#[trigger] out@[i]).0) == Ok::<
                    CommitModel,
                    ObjectError,
                >(out@[i].1@),
            found@.len() <= db.count(),
        decreases db.count() - found@.len(), stack@.len(),
    {
        let ghost before = Spread { stack: stack@, found: found@ };
        if let Some(oid) = stack.pop() {
            assert(oid == before.stack.last());
            assert(stack@ =~= before.stack.drop_last());
            if found.contains(&oid) {
                assert(spread(db@, tips@, k + 1) == spread_step(db@, before));
            } else {
                let commit = match CommitObject::read_loose_commit(db, &oid) {
                    Ok(c) => c,
                    Err(e) => {
                        assert(spread(db@, tips@, k + 1) == spread_step(db@, before));
                        assert(spread_ends(db@, tips@, k + 1, Err(e)));
                        return Err(e);
                    },
                };
                let ghost rest = stack@;
                let mut i: usize = 0;
                assert(rest + commit.parents@.subrange(0, 0) =~= rest);
                while i < commit.parents.len()
                    invariant
                        0 <= i <= commit.parents@.len(),
                        stack@ == rest + commit.parents@.subrange(0, i as int),
                    decreases commit.parents@.len() - i,
                {
                    stack.push(commit.parents[i]);
                    i += 1;
                    assert(stack@ =~= rest + commit.parents@.subrange(0, i as int));
                }
                assert(commit.parents@.subrange(0, i as int) =~= commit.parents@);
                found.add(oid);
                out.push((oid, commit));
                assert(found_ids(out@) =~= found@);
                proof {
                    assert(spread(db@, tips@, k + 1) == spread_step(db@, before));
                    lemma_sound_spread(db@, tips@, k + 1);
                    assert forall|i: int| 0 <= i < found@.len() implies db@.contains_key(
                        #[trigger] found@[i],
                    ) by {
                        assert(commit_at(db@, found@[i]) is Ok);
                    }
                    lemma_count(db, found@);
                }
            }
            proof {
                k = k + 1;
            }
        }
    }
    assert(spread_ends(db@, tips@, k, Ok(found_ids(out@))));
    Ok(out)
}

} // verus!
