//! Walking the history of a commit, and where two histories meet.
use crate::commit_object::{commit_at, CommitModel, CommitObject};
use crate::object::{ObjectError, ObjectSha};
use crate::object_db::{lemma_count, ObjectDb};
use crate::oid_list::OidList;
use vstd::prelude::*;

verus! {

/// The list with those of `new` added that it does not hold yet.
pub open spec fn with_new(list: Seq<ObjectSha>, new: Seq<ObjectSha>) -> Seq<ObjectSha>
    decreases new.len(),
{
    if new.len() == 0 {
        list
    } else {
        let front = with_new(list, new.drop_last());
        if front.contains(new.last()) {
            front
        } else {
            front.push(new.last())
        }
    }
}

/// The commits found, breadth first, after the parents of the first `k` of them were looked at.
pub open spec fn found(db: Map<ObjectSha, Seq<u8>>, start: ObjectSha, k: nat) -> Seq<ObjectSha>
    decreases k,
{
    if k == 0 {
        seq![start]
    } else {
        let before = found(db, start, (k - 1) as nat);
        if k - 1 < before.len() {
            match commit_at(db, before[k - 1]) {
                Ok(c) => with_new(before, c.parents),
                Err(_) => before,
            }
        } else {
            before
        }
    }
}

/// Whether the first `k` commits found can all be read.
pub open spec fn readable(db: Map<ObjectSha, Seq<u8>>, start: ObjectSha, k: nat) -> bool {
    k <= found(db, start, k).len() && forall|i: int|
        0 <= i < k ==> commit_at(db, #[trigger] found(db, start, k)[i]) is Ok
}

/// Whether walking the history from a commit on gives the list of all its commits, breadth first,
/// or stops at a commit that cannot be read.
pub open spec fn walks_to(
    db: Map<ObjectSha, Seq<u8>>,
    start: ObjectSha,
    r: Result<Seq<ObjectSha>, ObjectError>,
) -> bool {
    match r {
        Ok(s) => readable(db, start, s.len()) && found(db, start, s.len()) == s,
        Err(e) => exists|k: nat| #[trigger]
            readable(db, start, k) && k < found(db, start, k).len() && commit_at(
                db,
                found(db, start, k)[k as int],
            ) == Err::<CommitModel, ObjectError>(e),
    }
}

/// Whether a list is of all that a walk of the history from a commit on finds, breadth first,
/// when it passes over the commits that cannot be read.
pub open spec fn spans(db: Map<ObjectSha, Seq<u8>>, start: ObjectSha, t: Seq<ObjectSha>) -> bool {
    found(db, start, t.len()) == t
}

/// The walk from a commit on is what it is: it cannot both end and stop, nor end in two lists.
pub proof fn law_walk_unique(
    db: Map<ObjectSha, Seq<u8>>,
    start: ObjectSha,
    a: Result<Seq<ObjectSha>, ObjectError>,
    b: Result<Seq<ObjectSha>, ObjectError>,
)
    requires
        walks_to(db, start, a),
        walks_to(db, start, b),
    ensures
        a == b,
{
    lemma_no_longer(db, start, a, b);
    lemma_no_longer(db, start, b, a);
    lemma_walk_end(db, start, a);
    lemma_walk_end(db, start, b);
}

proof fn lemma_walk_end(
    db: Map<ObjectSha, Seq<u8>>,
    start: ObjectSha,
    r: Result<Seq<ObjectSha>, ObjectError>,
)
    requires
        walks_to(db, start, r),
    ensures
        readable(db, start, walk_end(db, start, r)),
        match r {
            Ok(s) => found(db, start, walk_end(db, start, r)) == s && s.len() == walk_end(
                db,
                start,
                r,
            ),
            Err(e) => walk_end(db, start, r) < found(db, start, walk_end(db, start, r)).len()
                && commit_at(
                db,
                found(db, start, walk_end(db, start, r))[walk_end(db, start, r) as int],
            ) == Err::<CommitModel, ObjectError>(e),
        },
{
}

proof fn lemma_no_longer(
    db: Map<ObjectSha, Seq<u8>>,
    start: ObjectSha,
    a: Result<Seq<ObjectSha>, ObjectError>,
    b: Result<Seq<ObjectSha>, ObjectError>,
)
    requires
        walks_to(db, start, a),
        walks_to(db, start, b),
    ensures
        walk_end(db, start, a) >= walk_end(db, start, b),
{
    let ka = walk_end(db, start, a);
    let kb = walk_end(db, start, b);
    lemma_walk_end(db, start, a);
    lemma_walk_end(db, start, b);
    if ka < kb {
        lemma_found_grows(db, start, ka, kb);
        if a is Ok {
            lemma_stuck(db, start, ka, kb);
        } else {
            assert(commit_at(db, found(db, start, kb)[ka as int]) is Ok);
        }
    }
}

spec fn walk_end(
    db: Map<ObjectSha, Seq<u8>>,
    start: ObjectSha,
    r: Result<Seq<ObjectSha>, ObjectError>,
) -> nat {
    match r {
        Ok(s) => s.len(),
        Err(e) => choose|k: nat| #[trigger]
            readable(db, start, k) && k < found(db, start, k).len() && commit_at(
                db,
                found(db, start, k)[k as int],
            ) == Err::<CommitModel, ObjectError>(e),
    }
}

proof fn lemma_with_new(list: Seq<ObjectSha>, new: Seq<ObjectSha>)
    requires
        list.no_duplicates(),
    ensures
        list.len() <= with_new(list, new).len(),
        with_new(list, new).subrange(0, list.len() as int) == list,
        with_new(list, new).no_duplicates(),
        forall|o: ObjectSha| #[trigger]
            with_new(list, new).contains(o) <==> list.contains(o) || new.contains(o),
    decreases new.len(),
{
    if new.len() == 0 {
        assert(list.subrange(0, list.len() as int) =~= list);
    } else {
        let t = new.drop_last();
        let front = with_new(list, t);
        let all = with_new(list, new);
        lemma_with_new(list, t);
        assert(all.subrange(0, list.len() as int) =~= front.subrange(0, list.len() as int));
        assert forall|o: ObjectSha| #[trigger]
            all.contains(o) <==> list.contains(o) || new.contains(o) by {
            if front.contains(o) {
                let i = choose|i: int| 0 <= i < front.len() && front[i] == o;
                assert(all[i] == o);
                if t.contains(o) {
                    let k = choose|k: int| 0 <= k < t.len() && t[k] == o;
                    assert(new[k] == o);
                }
            }
            if new.contains(o) && !t.contains(o) {
                let k = choose|k: int| 0 <= k < new.len() && new[k] == o;
                if k < t.len() {
                    assert(t[k] == o);
                }
                assert(o == new.last());
                if !front.contains(o) {
                    assert(all[front.len() as int] == o);
                }
            }
            if all.contains(o) && !front.contains(o) {
                assert(o == new.last());
                assert(new[new.len() - 1] == o);
            }
        }
    }
}

/// What has been found stays found, and nothing is found twice.
proof fn lemma_found_grows(db: Map<ObjectSha, Seq<u8>>, start: ObjectSha, j: nat, k: nat)
    requires
        j <= k,
    ensures
        found(db, start, j).len() <= found(db, start, k).len(),
        found(db, start, k).subrange(0, found(db, start, j).len() as int) == found(db, start, j),
        forall|i: int|
            0 <= i < found(db, start, j).len() ==> found(db, start, k)[i] == found(db, start, j)[i],
        found(db, start, k).no_duplicates(),
        found(db, start, k).len() > 0,
        found(db, start, k)[0] == start,
    decreases k,
{
    let a = found(db, start, j);
    let b = found(db, start, k);
    if k == j {
        assert(b.subrange(0, b.len() as int) =~= b);
        if k > 0 {
            lemma_found_grows(db, start, (k - 1) as nat, (k - 1) as nat);
            let p = found(db, start, (k - 1) as nat);
            if k - 1 < p.len() {
                if let Ok(c) = commit_at(db, p[k - 1]) {
                    lemma_with_new(p, c.parents);
                    assert(b.subrange(0, p.len() as int)[0] == b[0]);
                }
            }
        }
    } else {
        let p = found(db, start, (k - 1) as nat);
        lemma_found_grows(db, start, j, (k - 1) as nat);
        if k - 1 < p.len() {
            if let Ok(c) = commit_at(db, p[k - 1]) {
                lemma_with_new(p, c.parents);
                assert(b.subrange(0, p.len() as int) == p);
                assert forall|i: int| 0 <= i < p.len() implies b[i] == p[i] by {
                    assert(b.subrange(0, p.len() as int)[i] == b[i]);
                }
            }
        }
        assert(b.subrange(0, a.len() as int) =~= a);
    }
}

/// Whether `p` leads from a commit to another, from each to one of its parents.
pub open spec fn is_path(db: Map<ObjectSha, Seq<u8>>, p: Seq<ObjectSha>, from: ObjectSha, to: ObjectSha) -> bool {
    &&& p.len() > 0
    &&& p[0] == from
    &&& p.last() == to
    &&& forall|i: int|
        0 <= i < p.len() - 1 ==> (commit_at(db, #[trigger] p[i]) matches Ok(c)
            && c.parents.contains(p[i + 1]))
}

/// Whether `to` is `from` or one of its ancestors.
pub open spec fn is_ancestor(db: Map<ObjectSha, Seq<u8>>, to: ObjectSha, from: ObjectSha) -> bool {
    exists|p: Seq<ObjectSha>| is_path(db, p, from, to)
}

proof fn lemma_found_ancestors(db: Map<ObjectSha, Seq<u8>>, start: ObjectSha, k: nat, o: ObjectSha)
    requires
        found(db, start, k).contains(o),
    ensures
        is_ancestor(db, o, start),
    decreases k,
{
    if k == 0 {
        assert(o == start);
        assert(is_path(db, seq![start], start, start));
    } else {
        let p = found(db, start, (k - 1) as nat);
        lemma_found_grows(db, start, (k - 1) as nat, (k - 1) as nat);
        if p.contains(o) {
            lemma_found_ancestors(db, start, (k - 1) as nat, o);
        } else {
            let c = commit_at(db, p[k - 1])->Ok_0;
            lemma_with_new(p, c.parents);
            assert(c.parents.contains(o));
            lemma_found_ancestors(db, start, (k - 1) as nat, p[k - 1]);
            let mid = p[k - 1];
            let q = choose|q: Seq<ObjectSha>| is_path(db, q, start, mid);
            let r = q.push(o);
            assert forall|i: int| 0 <= i < r.len() - 1 implies (commit_at(db, #[trigger] r[i]) matches Ok(
                c,
            ) && c.parents.contains(r[i + 1])) by {
                if i < q.len() - 1 {
                    assert(r[i] == q[i] && r[i + 1] == q[i + 1]);
                } else {
                    assert(r[i] == q.last());
                }
            }
            assert(is_path(db, r, start, o));
        }
    }
}

/// In a whole walk, the parents of every commit that can be read are found too.
proof fn lemma_walk_closed(
    db: Map<ObjectSha, Seq<u8>>,
    start: ObjectSha,
    s: Seq<ObjectSha>,
    i: int,
    o: ObjectSha,
)
    requires
        spans(db, start, s),
        0 <= i < s.len(),
        commit_at(db, s[i]) matches Ok(c) && c.parents.contains(o),
    ensures
        s.contains(o),
{
    let n = s.len();
    let before = found(db, start, i as nat);
    let after = found(db, start, (i + 1) as nat);
    lemma_found_grows(db, start, i as nat, n);
    lemma_found_grows(db, start, (i + 1) as nat, n);
    lemma_found_grows(db, start, i as nat, i as nat);
    let c = commit_at(db, s[i])->Ok_0;
    if i < before.len() {
        assert(before[i] == s[i]);
        lemma_with_new(before, c.parents);
        assert(after.contains(o));
        let k = choose|k: int| 0 <= k < after.len() && after[k] == o;
        assert(s[k] == o);
    } else {
        lemma_stuck(db, start, i as nat, n);
    }
}

/// Once every commit found has been looked at, no more are found.
proof fn lemma_stuck(db: Map<ObjectSha, Seq<u8>>, start: ObjectSha, j: nat, k: nat)
    requires
        found(db, start, j).len() <= j <= k,
    ensures
        found(db, start, k) == found(db, start, j),
    decreases k,
{
    if j < k {
        lemma_stuck(db, start, j, (k - 1) as nat);
    }
}

/// A whole walk has found the commit itself and all its ancestors, each once, and nothing else.
pub proof fn law_walk_is_ancestry(db: Map<ObjectSha, Seq<u8>>, start: ObjectSha, s: Seq<ObjectSha>)
    requires
        spans(db, start, s),
    ensures
        s.no_duplicates(),
        forall|o: ObjectSha| #[trigger] s.contains(o) <==> is_ancestor(db, o, start),
{
    lemma_found_grows(db, start, s.len(), s.len());
    assert forall|o: ObjectSha| #[trigger] s.contains(o) <==> is_ancestor(db, o, start) by {
        if s.contains(o) {
            lemma_found_ancestors(db, start, s.len(), o);
        }
        if is_ancestor(db, o, start) {
            let p = choose|p: Seq<ObjectSha>| is_path(db, p, start, o);
            lemma_path_found(db, start, s, p, (p.len() - 1) as int);
        }
    }
}

proof fn lemma_path_found(
    db: Map<ObjectSha, Seq<u8>>,
    start: ObjectSha,
    s: Seq<ObjectSha>,
    p: Seq<ObjectSha>,
    i: int,
)
    requires
        spans(db, start, s),
        is_path(db, p, start, p.last()),
        0 <= i < p.len(),
    ensures
        s.contains(p[i]),
    decreases i,
{
    if i == 0 {
        lemma_found_grows(db, start, s.len(), s.len());
        assert(s[0] == start);
    } else {
        lemma_path_found(db, start, s, p, i - 1);
        let k = choose|k: int| 0 <= k < s.len() && s[k] == p[i - 1];
        lemma_walk_closed(db, start, s, k, p[i]);
    }
}

/// Whether a walk first stumbles at `i`: what it found there cannot be read, all before can.
pub open spec fn first_fault(
    db: Map<ObjectSha, Seq<u8>>,
    t: Seq<ObjectSha>,
    i: int,
    e: ObjectError,
) -> bool {
    &&& 0 <= i < t.len()
    &&& commit_at(db, t[i]) == Err::<CommitModel, ObjectError>(e)
    &&& forall|j: int| 0 <= j < i ==> commit_at(db, #[trigger] t[j]) is Ok
}

/// A whole walk without a fault is that of the whole history; one with a fault stops there.
proof fn lemma_walk_faults(
    db: Map<ObjectSha, Seq<u8>>,
    start: ObjectSha,
    t: Seq<ObjectSha>,
    i: int,
    e: ObjectError,
)
    requires
        spans(db, start, t),
        first_fault(db, t, i, e),
    ensures
        walks_to(db, start, Err(e)),
{
    let n = t.len();
    lemma_found_grows(db, start, i as nat, n);
    lemma_found_grows(db, start, i as nat, i as nat);
    let f = found(db, start, i as nat);
    if f.len() <= i {
        lemma_stuck(db, start, i as nat, n);
    }
    assert forall|j: int| 0 <= j < i implies commit_at(db, #[trigger] f[j]) is Ok by {
        assert(f[j] == t[j]);
    }
    assert(f[i] == t[i]);
    assert(readable(db, start, i as nat));
}

/// Walks the history from a commit on, breadth first, over all commits that can be read; with
/// the first that cannot.
fn walk_history(db: &ObjectDb, start: &ObjectSha) -> (r: (OidList, Option<(usize, ObjectError)>))
    ensures
        spans(db@, *start, r.0@),
        (match r.1 {
            None => forall|j: int| 0 <= j < r.0@.len() ==> commit_at(db@, #[trigger] r.0@[j]) is Ok,
            Some((i, e)) => first_fault(db@, r.0@, i as int, e),
        }),
{
    let mut walk = OidList::new();
    walk.add(*start);
    assert(walk@ =~= seq![*start]);
    let mut fault: Option<(usize, ObjectError)> = None;
    let mut k: usize = 0;
    let ghost mut read: Seq<ObjectSha> = Seq::empty();
    while k < walk.len()
        invariant
            0 <= k <= walk@.len(),
            walk@ == found(db@, *start, k as nat),
            (match fault {
                None => forall|j: int| 0 <= j < k ==> commit_at(db@, #[trigger] walk@[j]) is Ok,
                Some((i, e)) => i < k && first_fault(db@, walk@, i as int, e),
            }),
            read.no_duplicates(),
            read.len() <= db.count(),
            forall|j: int| 0 <= j < read.len() ==> db@.contains_key(#[trigger] read[j]),
            forall|j: int| 0 <= j < read.len() ==> walk@.subrange(0, k as int).contains(
                #[trigger] read[j],
            ),
        decreases db.count() - read.len(), walk@.len() - k,
    {
        let oid = walk.at(k);
        let ghost before = walk@;
        proof {
            lemma_found_grows(db@, *start, k as nat, k as nat + 1);
            lemma_found_grows(db@, *start, k as nat, k as nat);
            assert forall|o: ObjectSha| before.subrange(0, k as int).contains(
                o,
            ) implies o != oid && #[trigger] before.subrange(0, k + 1).contains(o) by {
                let j = choose|j: int| 0 <= j < k && before.subrange(0, k as int)[j] == o;
                assert(before.subrange(0, k + 1)[j] == o);
                assert(before[j] == o);
            }
        }
        match CommitObject::read_loose_commit(db, &oid) {
            Ok(commit) => {
                let mut i: usize = 0;
                while i < commit.parents.len()
                    invariant
                        0 <= i <= commit.parents@.len(),
                        walk@ == with_new(before, commit.parents@.subrange(0, i as int)),
                    decreases commit.parents@.len() - i,
                {
                    proof {
                        let t = commit.parents@.subrange(0, i + 1);
                        assert(t.drop_last() =~= commit.parents@.subrange(0, i as int));
                        assert(t.last() == commit.parents@[i as int]);
                    }
                    if !walk.contains(&commit.parents[i]) {
                        walk.add(commit.parents[i]);
                    }
                    i += 1;
                }
                assert(commit.parents@.subrange(0, i as int) =~= commit.parents@);
                proof {
                    let more = read.push(oid);
                    assert(more.no_duplicates()) by {
                        assert forall|j: int| 0 <= j < read.len() implies read[j] != oid by {
                            assert(before.subrange(0, k as int).contains(read[j]));
                        }
                    }
                    lemma_count(db, more);
                    assert(walk@.subrange(0, k + 1) =~= before.subrange(0, k + 1));
                    assert(before.subrange(0, k + 1)[k as int] == oid);
                    assert forall|j: int| 0 <= j < more.len() implies walk@.subrange(
                        0,
                        k + 1,
                    ).contains(#[trigger] more[j]) by {
                        if j < read.len() {
                            assert(before.subrange(0, k as int).contains(read[j]));
                        }
                    }
                    read = more;
                }
            },
            Err(e) => {
                if fault.is_none() {
                    fault = Some((k, e));
                }
                proof {
                    assert forall|j: int| 0 <= j < read.len() implies walk@.subrange(
                        0,
                        k + 1,
                    ).contains(#[trigger] read[j]) by {
                        assert(before.subrange(0, k as int).contains(read[j]));
                    }
                }
            },
        }
        k += 1;
    }
    (walk, fault)
}

/// Walks the whole history from a commit on, breadth first.
fn collect_ancestors(db: &ObjectDb, start: &ObjectSha) -> (r: Result<OidList, ObjectError>)
    ensures
        (match r {
            Ok(w) => walks_to(db@, *start, Ok(w@)),
            Err(e) => walks_to(db@, *start, Err(e)),
        }),
{
    let (walk, fault) = walk_history(db, start);
    match fault {
        None => Ok(walk),
        Some((i, e)) => {
            proof {
                lemma_walk_faults(db@, *start, walk@, i as int, e);
            }
            Err(e)
        },
    }
}

/// The first of `t` that is also in `s`.
pub open spec fn first_common(t: Seq<ObjectSha>, s: Seq<ObjectSha>) -> Option<ObjectSha>
    decreases t.len(),
{
    if t.len() == 0 {
        None
    } else if s.contains(t[0]) {
        Some(t[0])
    } else {
        first_common(t.drop_first(), s)
    }
}

/// Where two commits whose histories are `s` and `t` meet: at the one of them that is an ancestor
/// of the other, if one is; otherwise at the commit of the first history that a breadth-first walk
/// of the second comes to first, if there is one.
pub open spec fn meeting(a: ObjectSha, b: ObjectSha, s: Seq<ObjectSha>, t: Seq<ObjectSha>) -> Option<
    ObjectSha,
> {
    if s.contains(b) {
        Some(b)
    } else if t.contains(a) {
        Some(a)
    } else {
        first_common(t, s)
    }
}

/// The first of one list that is in the other is in both; where there is none, they share nothing.
pub proof fn lemma_first_common(t: Seq<ObjectSha>, s: Seq<ObjectSha>)
    ensures
        match first_common(t, s) {
            Some(m) => t.contains(m) && s.contains(m),
            None => forall|k: int| 0 <= k < t.len() ==> !s.contains(#[trigger] t[k]),
        },
    decreases t.len(),
{
    if t.len() > 0 && !s.contains(t[0]) {
        let u = t.drop_first();
        lemma_first_common(u, s);
        match first_common(t, s) {
            Some(m) => {
                let k = choose|k: int| 0 <= k < u.len() && u[k] == m;
                assert(t[k + 1] == m);
            },
            None => {
                assert forall|k: int| 0 <= k < t.len() implies !s.contains(#[trigger] t[k]) by {
                    if k > 0 {
                        assert(u[k - 1] == t[k]);
                    }
                }
            },
        }
    }
}

/// Whether the first `n` of one list are all missing in the other.
pub open spec fn nothing_common(t: Seq<ObjectSha>, n: int, s: Seq<ObjectSha>) -> bool {
    forall|j: int| 0 <= j < n && j < t.len() ==> !s.contains(#[trigger] t[j])
}

/// Whether two different commits meet at `base`. The history of the first has to be whole; that
/// of the second, up to where it comes to the first.
pub open spec fn meets(
    db: Map<ObjectSha, Seq<u8>>,
    a: ObjectSha,
    b: ObjectSha,
    base: Option<ObjectSha>,
) -> bool {
    exists|s: Seq<ObjectSha>, t: Seq<ObjectSha>|
        {
            &&& walks_to(db, a, Ok(s))
            &&& spans(db, b, t)
            &&& forall|i: int, e: ObjectError|
                #![trigger first_fault(db, t, i, e)]
                first_fault(db, t, i, e) ==> !nothing_common(t, i, s)
            &&& base == #[trigger] meeting(a, b, s, t)
        }
}

/// Whether the search for where two histories meet stops at this fault: one in the first history,
/// or one in the second that comes before all that it shares with the first.
pub open spec fn walk_fault(
    db: Map<ObjectSha, Seq<u8>>,
    a: ObjectSha,
    b: ObjectSha,
    e: ObjectError,
) -> bool {
    ||| walks_to(db, a, Err(e))
    ||| exists|s: Seq<ObjectSha>, t: Seq<ObjectSha>, i: int|
        {
            &&& walks_to(db, a, Ok(s))
            &&& spans(db, b, t)
            &&& #[trigger] first_fault(db, t, i, e)
            &&& #[trigger] nothing_common(t, i, s)
        }
}

proof fn lemma_spans_unique(
    db: Map<ObjectSha, Seq<u8>>,
    start: ObjectSha,
    t: Seq<ObjectSha>,
    u: Seq<ObjectSha>,
)
    requires
        spans(db, start, t),
        spans(db, start, u),
    ensures
        t == u,
{
    if t.len() <= u.len() {
        lemma_stuck(db, start, t.len(), u.len());
    } else {
        lemma_stuck(db, start, u.len(), t.len());
    }
}

/// Two different commits meet in one way at most, and not where the search stops at a fault.
pub proof fn law_meeting_unique(
    db: Map<ObjectSha, Seq<u8>>,
    a: ObjectSha,
    b: ObjectSha,
    base: Option<ObjectSha>,
)
    requires
        meets(db, a, b, base),
    ensures
        forall|other: Option<ObjectSha>| #[trigger] meets(db, a, b, other) ==> other == base,
        forall|e: ObjectError| !(#[trigger] walk_fault(db, a, b, e)),
{
    let (s, t) = choose|s: Seq<ObjectSha>, t: Seq<ObjectSha>|
        {
            &&& walks_to(db, a, Ok(s))
            &&& spans(db, b, t)
            &&& forall|i: int, e: ObjectError|
                #![trigger first_fault(db, t, i, e)]
                first_fault(db, t, i, e) ==> !nothing_common(t, i, s)
            &&& base == #[trigger] meeting(a, b, s, t)
        };
    assert forall|other: Option<ObjectSha>| #[trigger] meets(db, a, b, other) implies other
        == base by {
        let (s2, t2) = choose|s2: Seq<ObjectSha>, t2: Seq<ObjectSha>|
            {
                &&& walks_to(db, a, Ok(s2))
                &&& spans(db, b, t2)
                &&& forall|i: int, e: ObjectError|
                    #![trigger first_fault(db, t2, i, e)]
                    first_fault(db, t2, i, e) ==> !nothing_common(t2, i, s2)
                &&& other == #[trigger] meeting(a, b, s2, t2)
            };
        law_walk_unique(db, a, Ok(s), Ok(s2));
        lemma_spans_unique(db, b, t, t2);
    }
    assert forall|e: ObjectError| !(#[trigger] walk_fault(db, a, b, e)) by {
        if walk_fault(db, a, b, e) {
            if walks_to(db, a, Err(e)) {
                law_walk_unique(db, a, Ok(s), Err(e));
            } else {
                let (s2, t2, i) = choose|s2: Seq<ObjectSha>, t2: Seq<ObjectSha>, i: int|
                    {
                        &&& walks_to(db, a, Ok(s2))
                        &&& spans(db, b, t2)
                        &&& #[trigger] first_fault(db, t2, i, e)
                        &&& #[trigger] nothing_common(t2, i, s2)
                    };
                law_walk_unique(db, a, Ok(s), Ok(s2));
                lemma_spans_unique(db, b, t, t2);
            }
        }
    }
}

/// Where two different commits meet is an ancestor of both: the one of the two that is an
/// ancestor of the other, if one is.
pub proof fn law_meeting_is_ancestor(
    db: Map<ObjectSha, Seq<u8>>,
    a: ObjectSha,
    b: ObjectSha,
    base: Option<ObjectSha>,
)
    requires
        meets(db, a, b, base),
    ensures
        base matches Some(m) ==> is_ancestor(db, m, a) && is_ancestor(db, m, b),
        base is None ==> forall|o: ObjectSha|
            !(#[trigger] is_ancestor(db, o, a) && is_ancestor(db, o, b)),
        is_ancestor(db, b, a) ==> base == Some(b),
        is_ancestor(db, a, b) && !is_ancestor(db, b, a) ==> base == Some(a),
{
    let (s, t) = choose|s: Seq<ObjectSha>, t: Seq<ObjectSha>|
        {
            &&& walks_to(db, a, Ok(s))
            &&& spans(db, b, t)
            &&& forall|i: int, e: ObjectError|
                #![trigger first_fault(db, t, i, e)]
                first_fault(db, t, i, e) ==> !nothing_common(t, i, s)
            &&& base == #[trigger] meeting(a, b, s, t)
        };
    assert(is_path(db, seq![a], a, a));
    assert(is_path(db, seq![b], b, b));
    law_walk_is_ancestry(db, a, s);
    law_walk_is_ancestry(db, b, t);
    lemma_first_common(t, s);
    if base is None {
        assert forall|o: ObjectSha| !(#[trigger] is_ancestor(db, o, a) && is_ancestor(
            db,
            o,
            b,
        )) by {
            if is_ancestor(db, o, a) && is_ancestor(db, o, b) {
                assert(s.contains(o) && t.contains(o));
                let k = choose|k: int| 0 <= k < t.len() && t[k] == o;
                assert(!s.contains(t[k]));
            }
        }
    }
}

/// The step of a walk at which its `i`-th commit is found.
spec fn finder(db: Map<ObjectSha, Seq<u8>>, start: ObjectSha, i: int) -> nat {
    choose|k: nat| #[trigger]
        found(db, start, k).len() <= i && i < found(db, start, k + 1).len()
}

proof fn lemma_finder(db: Map<ObjectSha, Seq<u8>>, start: ObjectSha, n: nat, i: int)
    requires
        0 < i < found(db, start, n).len(),
    ensures
        ({
            let k = finder(db, start, i);
            found(db, start, k).len() <= i && i < found(db, start, k + 1).len() && k < i
        }),
    decreases n,
{
    if n > 0 {
        let m = (n - 1) as nat;
        if i < found(db, start, m).len() {
            lemma_finder(db, start, m, i);
        } else {
            assert(found(db, start, m).len() <= i && i < found(db, start, m + 1).len());
        }
    }
    let k = finder(db, start, i);
    assert(found(db, start, k).len() <= i && i < found(db, start, k + 1).len());
}

/// How many commits the line is long along which a walk comes to its `i`-th commit.
spec fn distance_at(db: Map<ObjectSha, Seq<u8>>, start: ObjectSha, i: int) -> nat
    decreases i,
{
    if i <= 0 {
        1
    } else {
        let k = finder(db, start, i);
        if k < i {
            1 + distance_at(db, start, k as int)
        } else {
            1
        }
    }
}

proof fn lemma_distance_grows(
    db: Map<ObjectSha, Seq<u8>>,
    start: ObjectSha,
    t: Seq<ObjectSha>,
    i: int,
    j: int,
)
    requires
        spans(db, start, t),
        0 <= i <= j < t.len(),
    ensures
        1 <= distance_at(db, start, i) <= distance_at(db, start, j),
    decreases j,
{
    if j > 0 {
        lemma_finder(db, start, t.len(), j);
        let b = finder(db, start, j);
        lemma_found_grows(db, start, b, t.len());
        if i > 0 {
            lemma_finder(db, start, t.len(), i);
            let a = finder(db, start, i);
            if a > b {
                lemma_found_grows(db, start, b + 1, a);
            }
            lemma_distance_grows(db, start, t, a as int, b as int);
        } else {
            lemma_distance_grows(db, start, t, 0, b as int);
        }
    }
}

proof fn lemma_path_longer(
    db: Map<ObjectSha, Seq<u8>>,
    q: Seq<ObjectSha>,
    start: ObjectSha,
    x: ObjectSha,
    o: ObjectSha,
)
    requires
        is_path(db, q, start, x),
        commit_at(db, x) is Ok,
        commit_at(db, x)->Ok_0.parents.contains(o),
    ensures
        is_path(db, q.push(o), start, o),
{
    let r = q.push(o);
    assert forall|j: int| 0 <= j < r.len() - 1 implies (commit_at(db, #[trigger] r[j]) matches Ok(c)
        && c.parents.contains(r[j + 1])) by {
        if j < q.len() - 1 {
            assert(r[j] == q[j] && r[j + 1] == q[j + 1]);
        } else {
            assert(r[j] == q.last());
        }
    }
    assert(r[0] == q[0]);
}

#[verifier::rlimit(40)]
proof fn lemma_finder_parent(
    db: Map<ObjectSha, Seq<u8>>,
    start: ObjectSha,
    t: Seq<ObjectSha>,
    i: int,
)
    requires
        spans(db, start, t),
        0 < i < t.len(),
    ensures
        ({
            let k = finder(db, start, i);
            k < i && commit_at(db, t[k as int]) is Ok && commit_at(
                db,
                t[k as int],
            )->Ok_0.parents.contains(t[i])
        }),
{
    lemma_found_grows(db, start, t.len(), t.len());
    lemma_finder(db, start, t.len(), i);
    let k = finder(db, start, i);
    let before = found(db, start, k);
    let after = found(db, start, k + 1);
    lemma_found_grows(db, start, k, k);
    lemma_found_grows(db, start, k + 1, k + 1);
    lemma_found_grows(db, start, k, t.len());
    lemma_found_grows(db, start, k + 1, t.len());
    assert(before[k as int] == t[k as int]);
    let c = commit_at(db, t[k as int])->Ok_0;
    lemma_with_new(before, c.parents);
    let o = t[i];
    assert(after[i] == o);
    assert(!before.contains(o)) by {
        if before.contains(o) {
            let j = choose|j: int| 0 <= j < before.len() && before[j] == o;
            assert(after.subrange(0, before.len() as int)[j] == after[j]);
        }
    }
    assert(after.contains(o));
    assert(c.parents.contains(o));
}

proof fn lemma_distance_path(
    db: Map<ObjectSha, Seq<u8>>,
    start: ObjectSha,
    t: Seq<ObjectSha>,
    i: int,
) -> (q: Seq<ObjectSha>)
    requires
        spans(db, start, t),
        0 <= i < t.len(),
    ensures
        is_path(db, q, start, t[i]),
        q.len() == distance_at(db, start, i),
    decreases i,
{
    if i == 0 {
        lemma_found_grows(db, start, t.len(), t.len());
        seq![start]
    } else {
        lemma_finder_parent(db, start, t, i);
        let k = finder(db, start, i);
        let q = lemma_distance_path(db, start, t, k as int);
        lemma_path_longer(db, q, start, t[k as int], t[i]);
        q.push(t[i])
    }
}

proof fn lemma_distance_least(
    db: Map<ObjectSha, Seq<u8>>,
    start: ObjectSha,
    t: Seq<ObjectSha>,
    p: Seq<ObjectSha>,
    j: int,
)
    requires
        spans(db, start, t),
        0 <= j < t.len(),
        is_path(db, p, start, t[j]),
    ensures
        distance_at(db, start, j) <= p.len(),
    decreases p.len(),
{
    lemma_found_grows(db, start, t.len(), t.len());
    if j > 0 {
        if p.len() == 1 {
            assert(t[j] == t[0]);
        }
        let q = p.drop_last();
        let x = q.last();
        assert(x == p[p.len() - 2]);
        assert(is_path(db, q, start, x)) by {
            assert forall|i: int| 0 <= i < q.len() - 1 implies (commit_at(
                db,
                #[trigger] q[i],
            ) matches Ok(c) && c.parents.contains(q[i + 1])) by {
                assert(q[i] == p[i] && q[i + 1] == p[i + 1]);
            }
        }
        lemma_path_found(db, start, t, q, q.len() - 1);
        let i = choose|i: int| 0 <= i < t.len() && t[i] == x;
        lemma_distance_least(db, start, t, q, i);
        let o = t[j];
        assert(p[p.len() - 1] == o);
        let c = commit_at(db, x)->Ok_0;
        assert(c.parents.contains(o));
        let before = found(db, start, i as nat);
        let after = found(db, start, (i + 1) as nat);
        lemma_found_grows(db, start, i as nat, t.len());
        lemma_found_grows(db, start, i as nat, i as nat);
        lemma_found_grows(db, start, (i + 1) as nat, t.len());
        if before.len() <= i {
            lemma_stuck(db, start, i as nat, t.len());
        }
        assert(before[i] == x);
        lemma_with_new(before, c.parents);
        assert(after.contains(o));
        let m = choose|m: int| 0 <= m < after.len() && after[m] == o;
        assert(t[m] == o);
        assert(m == j);
        lemma_finder(db, start, t.len(), j);
        let k = finder(db, start, j);
        if k > i {
            lemma_found_grows(db, start, (i + 1) as nat, k);
        }
        lemma_distance_grows(db, start, t, k as int, i);
    }
}

/// Where two commits meet, of which neither is an ancestor of the other, no common ancestor is
/// nearer to the second of them: it comes to the meeting along a line that is no longer than any to
/// a common ancestor.
pub proof fn law_meeting_is_nearest(
    db: Map<ObjectSha, Seq<u8>>,
    a: ObjectSha,
    b: ObjectSha,
    m: ObjectSha,
    o: ObjectSha,
    p: Seq<ObjectSha>,
)
    requires
        meets(db, a, b, Some(m)),
        !is_ancestor(db, b, a),
        !is_ancestor(db, a, b),
        is_ancestor(db, o, a),
        is_path(db, p, b, o),
    ensures
        exists|q: Seq<ObjectSha>| #[trigger] is_path(db, q, b, m) && q.len() <= p.len(),
{
    let (s, t) = choose|s: Seq<ObjectSha>, t: Seq<ObjectSha>|
        {
            &&& walks_to(db, a, Ok(s))
            &&& spans(db, b, t)
            &&& forall|i: int, e: ObjectError|
                #![trigger first_fault(db, t, i, e)]
                first_fault(db, t, i, e) ==> !nothing_common(t, i, s)
            &&& Some(m) == #[trigger] meeting(a, b, s, t)
        };
    law_walk_is_ancestry(db, a, s);
    law_walk_is_ancestry(db, b, t);
    lemma_first_place(t, s);
    let k = choose|k: int|
        0 <= k < t.len() && t[k] == m && (forall|j: int| 0 <= j < k ==> !s.contains(#[trigger] t[j]));
    lemma_path_found(db, b, t, p, p.len() - 1);
    assert(s.contains(o));
    let j = choose|j: int| 0 <= j < t.len() && t[j] == o;
    assert(k <= j) by {
        if j < k {
            assert(!s.contains(t[j]));
        }
    }
    lemma_distance_grows(db, b, t, k, j);
    lemma_distance_least(db, b, t, p, j);
    let q = lemma_distance_path(db, b, t, k);
    assert(is_path(db, q, b, m));
}

proof fn lemma_first_place(t: Seq<ObjectSha>, s: Seq<ObjectSha>)
    ensures
        first_common(t, s) matches Some(m) ==> exists|k: int|
            0 <= k < t.len() && t[k] == m && (forall|j: int|
                0 <= j < k ==> !s.contains(#[trigger] t[j])),
    decreases t.len(),
{
    if t.len() > 0 {
        if s.contains(t[0]) {
            assert(t[0] == t[0]);
        } else if let Some(m) = first_common(t, s) {
            let u = t.drop_first();
            lemma_first_place(u, s);
            let k = choose|k: int|
                0 <= k < u.len() && u[k] == m && (forall|j: int|
                    0 <= j < k ==> !s.contains(#[trigger] u[j]));
            assert(t[k + 1] == m);
            assert forall|j: int| 0 <= j < k + 1 implies !s.contains(#[trigger] t[j]) by {
                if j > 0 {
                    assert(t[j] == u[j - 1]);
                }
            }
        }
    }
}

/// The first of the commits that the walk has come to too, and where it stands.
fn first_shared(order: &OidList, walk: &OidList) -> (r: Option<usize>)
    ensures
        (match r {
            None => first_common(order@, walk@) is None && nothing_common(
                order@,
                order@.len() as int,
                walk@,
            ),
            Some(i) => i < order@.len() && first_common(order@, walk@) == Some(order@[i as int])
                && walk@.contains(order@[i as int]) && nothing_common(order@, i as int, walk@),
        }),
{
    let mut i: usize = 0;
    assert(order@.subrange(0, order@.len() as int) =~= order@);
    while i < order.len()
        invariant
            0 <= i <= order@.len(),
            nothing_common(order@, i as int, walk@),
            first_common(order@, walk@) == first_common(
                order@.subrange(i as int, order@.len() as int),
                walk@,
            ),
        decreases order@.len() - i,
    {
        proof {
            let u = order@.subrange(i as int, order@.len() as int);
            assert(u[0] == order@[i as int]);
            assert(u.drop_first() =~= order@.subrange(i + 1, order@.len() as int));
        }
        if walk.contains(&order.at(i)) {
            return Some(i);
        }
        i += 1;
    }
    None
}

/// Finds where the histories of two commits meet.
pub fn find_merge_base(db: &ObjectDb, oid_a: &ObjectSha, oid_b: &ObjectSha) -> (r: Result<
    Option<ObjectSha>,
    ObjectError,
>)
    ensures
        *oid_a == *oid_b ==> r == Ok::<Option<ObjectSha>, ObjectError>(Some(*oid_a)),
        *oid_a != *oid_b ==> (match r {
            Ok(m) => meets(db@, *oid_a, *oid_b, m),
            Err(e) => walk_fault(db@, *oid_a, *oid_b, e),
        }),
        r matches Ok(Some(m)) ==> is_ancestor(db@, m, *oid_a) && is_ancestor(db@, m, *oid_b),
        r matches Ok(None) ==> forall|o: ObjectSha|
            !(#[trigger] is_ancestor(db@, o, *oid_a) && is_ancestor(db@, o, *oid_b)),
        r is Ok && is_ancestor(db@, *oid_b, *oid_a) ==> r == Ok::<Option<ObjectSha>, ObjectError>(
            Some(*oid_b),
        ),
        r is Ok && is_ancestor(db@, *oid_a, *oid_b) && !is_ancestor(db@, *oid_b, *oid_a) ==> r
            == Ok::<Option<ObjectSha>, ObjectError>(Some(*oid_a)),
{
    if *oid_a == *oid_b {
        assert(is_path(db@, seq![*oid_a], *oid_a, *oid_a));
        return Ok(Some(*oid_a));
    }
    let ours = match collect_ancestors(db, oid_a) {
        Ok(w) => w,
        Err(e) => return Err(e),
    };
    let (theirs, fault) = walk_history(db, oid_b);
    let ghost s = ours@;
    let ghost t = theirs@;
    let shared = first_shared(&theirs, &ours);
    if let Some((i, e)) = fault {
        let before = match shared {
            Some(k) => k < i,
            None => false,
        };
        if !before {
            assert(first_fault(db@, t, i as int, e) && nothing_common(t, i as int, s));
            return Err(e);
        }
    }
    proof {
        assert forall|i: int, x: ObjectError|
            #![trigger first_fault(db@, t, i, x)]
            first_fault(db@, t, i, x) implies !nothing_common(t, i, s) by {
            match fault {
                None => {
                    assert(commit_at(db@, t[i]) is Ok);
                },
                Some((k, e)) => {
                    if i < k {
                        assert(commit_at(db@, t[i]) is Ok);
                    }
                    if k < i {
                        assert(commit_at(db@, t[k as int]) is Ok);
                    }
                    let j = shared->Some_0 as int;
                    assert(s.contains(t[j]));
                },
            }
        }
    }
    let base = if ours.contains(oid_b) {
        Some(*oid_b)
    } else if theirs.contains(oid_a) {
        Some(*oid_a)
    } else {
        match shared {
            Some(k) => Some(theirs.at(k)),
            None => None,
        }
    };
    proof {
        assert(base == meeting(*oid_a, *oid_b, s, t));
        law_meeting_is_ancestor(db@, *oid_a, *oid_b, base);
    }
    Ok(base)
}

} // verus!
