//! A history along the first parents alone.
use crate::bytes::find_from;
use crate::commit_object::{
    commit_at, headers_in, no_fields, with_header, with_headers, CommitModel, CommitObject,
    HeaderFields, HeaderModel,
};
use crate::object::{payload_of_kind, ObjectError, ObjectSha};
use crate::object_db::{lemma_count, ObjectDb};
use vstd::prelude::*;

verus! {

/// The commits from one on along the first parents, at most `left` of them, and what keeps the next
/// from being read. Where the whole history is asked for, a further commit is a fault.
pub open spec fn chain(db: Map<ObjectSha, Seq<u8>>, oid: ObjectSha, left: nat, whole: bool) -> (
    Seq<ObjectSha>,
    Option<ObjectError>,
)
    decreases left,
{
    if left == 0 {
        (
            Seq::empty(),
            if !whole {
                None
            } else if let Err(e) = commit_at(db, oid) {
                Some(e)
            } else {
                Some(ObjectError::Cyclic(oid))
            },
        )
    } else {
        match commit_at(db, oid) {
            Err(e) => (Seq::empty(), Some(e)),
            Ok(c) => if c.parents.len() == 0 {
                (seq![oid], None)
            } else {
                let rest = chain(db, c.parents[0], (left - 1) as nat, whole);
                (seq![oid] + rest.0, rest.1)
            },
        }
    }
}

/// The commits of a chain, newest first, and what stopped the walk.
pub struct Chain {
    pub commits: Vec<(ObjectSha, CommitObject)>,
    pub fault: Option<ObjectError>,
}

/// The ids of the commits.
pub open spec fn chain_ids(v: Seq<(ObjectSha, CommitObject)>) -> Seq<ObjectSha> {
    Seq::new(v.len(), |i: int| v[i].0)
}

/// Whether each commit is the one that the store holds under its id.
pub open spec fn chain_fits(
    db: Map<ObjectSha, Seq<u8>>,
    v: Seq<(ObjectSha, CommitObject)>,
) -> bool {
    forall|i: int|
        0 <= i < v.len() ==> commit_at(db, (#[trigger] v[i]).0) == Ok::<CommitModel, ObjectError>(
            v[i].1@,
        )
}

/// Walks along the first parents.
pub fn walk_first_parents(db: &ObjectDb, oid: &ObjectSha, left: usize, whole: bool) -> (r: Chain)
    ensures
        chain_fits(db@, r.commits@),
        (chain_ids(r.commits@), r.fault) == chain(db@, *oid, left as nat, whole),
{
    let mut commits: Vec<(ObjectSha, CommitObject)> = Vec::new();
    let mut cur = *oid;
    let mut n: usize = left;
    let ghost goal = chain(db@, *oid, left as nat, whole);
    assert(chain_ids(commits@) + goal.0 =~= goal.0);
    while n > 0
        invariant
            0 <= n <= left,
            goal == chain(db@, *oid, left as nat, whole),
            chain_fits(db@, commits@),
            goal.0 == chain_ids(commits@) + chain(db@, cur, n as nat, whole).0,
            goal.1 == chain(db@, cur, n as nat, whole).1,
        decreases n,
    {
        let ghost before = chain_ids(commits@);
        let commit = match CommitObject::read_loose_commit(db, &cur) {
            Ok(c) => c,
            Err(e) => {
                assert(before + Seq::empty() =~= before);
                return Chain { commits, fault: Some(e) };
            },
        };
        let next = if commit.parents.len() > 0 {
            Some(commit.parents[0])
        } else {
            None
        };
        let here = cur;
        commits.push((here, commit));
        assert(chain_ids(commits@) =~= before.push(here));
        match next {
            None => {
                assert(before + seq![here] =~= before.push(here));
                return Chain { commits, fault: None };
            },
            Some(p) => {
                proof {
                    let rest = chain(db@, p, (n - 1) as nat, whole).0;
                    assert(before + (seq![here] + rest) =~= before.push(here) + rest);
                }
                cur = p;
            },
        }
        n -= 1;
    }
    assert(chain_ids(commits@) + Seq::empty() =~= chain_ids(commits@));
    if !whole {
        return Chain { commits, fault: None };
    }
    let fault = match CommitObject::read_loose_commit(db, &cur) {
        Ok(_) => ObjectError::Cyclic(cur),
        Err(e) => e,
    };
    Chain { commits, fault: Some(fault) }
}

/// Each commit of a chain but the first is the first parent of the one before it.
pub proof fn law_chain_links(
    db: Map<ObjectSha, Seq<u8>>,
    oid: ObjectSha,
    left: nat,
    whole: bool,
    i: int,
)
    requires
        0 <= i < chain(db, oid, left, whole).0.len(),
    ensures
        chain(db, oid, left, whole).0[0] == oid,
        commit_at(db, chain(db, oid, left, whole).0[i]) is Ok,
        i > 0 ==> (commit_at(db, chain(db, oid, left, whole).0[i - 1]) matches Ok(c)
            && c.parents.len() > 0 && c.parents[0] == chain(db, oid, left, whole).0[i]),
    decreases left,
{
    if left > 0 {
        if let Ok(c) = commit_at(db, oid) {
            if c.parents.len() > 0 && i > 0 {
                let s = chain(db, oid, left, whole).0;
                let rest = chain(db, c.parents[0], (left - 1) as nat, whole).0;
                assert(s[i] == rest[i - 1]);
                law_chain_links(db, c.parents[0], (left - 1) as nat, whole, i - 1);
                if i > 1 {
                    assert(s[i - 1] == rest[i - 2]);
                }
            }
        }
    }
}

proof fn lemma_chain_full(
    db: Map<ObjectSha, Seq<u8>>,
    oid: ObjectSha,
    left: nat,
    whole: bool,
    end: ObjectSha,
)
    requires
        chain(db, oid, left, whole).1 == Some(ObjectError::Cyclic(end)),
        forall|o: ObjectSha| #[trigger] commit_at(db, o) != Err::<CommitModel, ObjectError>(
            ObjectError::Cyclic(end),
        ),
    ensures
        chain(db, oid, left, whole).0.len() == left,
        commit_at(db, end) is Ok,
    decreases left,
{
    if left > 0 {
        if let Ok(c) = commit_at(db, oid) {
            if c.parents.len() > 0 {
                lemma_chain_full(db, c.parents[0], (left - 1) as nat, whole, end);
            }
        }
    }
}

/// A history is called cyclic only where it is: one of its commits comes back.
pub proof fn law_cycle_is_real(db: &ObjectDb, oid: ObjectSha, end: ObjectSha)
    requires
        chain(db@, oid, db.count(), true).1 == Some(ObjectError::Cyclic(end)),
    ensures
        !chain(db@, oid, db.count(), true).0.push(end).no_duplicates(),
{
    let ids = chain(db@, oid, db.count(), true).0;
    assert forall|o: ObjectSha| #[trigger] commit_at(db@, o) != Err::<CommitModel, ObjectError>(
        ObjectError::Cyclic(end),
    ) by {
        lemma_commit_not_cyclic(db@, o);
    }
    lemma_chain_full(db@, oid, db.count(), true, end);
    let all = ids.push(end);
    if all.no_duplicates() {
        assert forall|i: int| 0 <= i < all.len() implies db@.contains_key(#[trigger] all[i]) by {
            if i < ids.len() {
                law_chain_links(db@, oid, db.count(), true, i);
            }
        }
        lemma_count(db, all);
    }
}

/// Reading the headers of a commit finds no cycle.
pub proof fn lemma_headers_not_cyclic(s: Seq<u8>, is_sha1: bool)
    ensures
        headers_in(s, is_sha1) matches Err(e) ==> !(e is Cyclic),
    decreases s.len(),
{
    let i = find_from(s, 0x0a, 0);
    if 0 < i < s.len() {
        lemma_headers_not_cyclic(s.subrange(i + 1, s.len() as int), is_sha1);
    }
}

/// Putting headers together finds no cycle.
pub proof fn lemma_fields_not_cyclic(f: HeaderFields, hs: Seq<HeaderModel>)
    ensures
        with_headers(f, hs) matches Err(e) ==> !(e is Cyclic),
    decreases hs.len(),
{
    if hs.len() > 0 {
        if let Ok(g) = with_header(f, hs[0]) {
            lemma_fields_not_cyclic(g, hs.drop_first());
        }
    }
}

proof fn lemma_commit_not_cyclic(db: Map<ObjectSha, Seq<u8>>, o: ObjectSha)
    ensures
        commit_at(db, o) matches Err(e) ==> !(e is Cyclic),
{
    if db.contains_key(o) {
        if let Ok(p) = payload_of_kind(db[o], "commit"@) {
            lemma_headers_not_cyclic(p, o is SHA1);
            if let Ok((hs, _)) = headers_in(p, o is SHA1) {
                lemma_fields_not_cyclic(no_fields(), hs);
            }
        }
    }
}

/// Whether the first parent of the commit `a` is `b`.
pub open spec fn is_first_parent(
    db: Map<ObjectSha, Seq<u8>>,
    a: ObjectSha,
    b: ObjectSha,
) -> bool {
    match commit_at(db, a) {
        Ok(c) => c.parents.len() > 0 && c.parents[0] == b,
        Err(_) => false,
    }
}

/// A history along the first parents is complete: whatever can be read by going from the given
/// commit to first parents, one after another and no more than asked for, stands at the beginning of
/// it.
pub proof fn law_chain_complete(
    db: Map<ObjectSha, Seq<u8>>,
    oid: ObjectSha,
    left: nat,
    whole: bool,
    s: Seq<ObjectSha>,
)
    requires
        s.len() <= left,
        s.len() > 0 ==> s[0] == oid,
        forall|i: int| 0 <= i < s.len() ==> commit_at(db, #[trigger] s[i]) is Ok,
        forall|i: int, j: int|
            0 <= i && j == i + 1 && j < s.len() ==> is_first_parent(
                db,
                #[trigger] s[i],
                #[trigger] s[j],
            ),
    ensures
        s.is_prefix_of(chain(db, oid, left, whole).0),
    decreases left,
{
    let ids = chain(db, oid, left, whole).0;
    if s.len() > 0 {
        assert(commit_at(db, s[0]) is Ok);
        let c = commit_at(db, oid)->Ok_0;
        let t = s.drop_first();
        if t.len() > 0 {
            assert(is_first_parent(db, s[0], s[1]));
            assert(t[0] == c.parents[0]);
            assert forall|i: int| 0 <= i < t.len() implies commit_at(db, #[trigger] t[i]) is Ok by {
                assert(t[i] == s[i + 1]);
            }
            assert forall|i: int, j: int|
                0 <= i && j == i + 1 && j < t.len() implies is_first_parent(
                db,
                #[trigger] t[i],
                #[trigger] t[j],
            ) by {
                assert(t[i] == s[i + 1] && t[j] == s[j + 1]);
            }
            law_chain_complete(db, c.parents[0], (left - 1) as nat, whole, t);
            let rest = chain(db, c.parents[0], (left - 1) as nat, whole).0;
            assert(ids == seq![oid] + rest);
            assert(ids.subrange(0, s.len() as int) =~= s) by {
                assert forall|i: int| 0 <= i < s.len() implies ids[i] == s[i] by {
                    if i > 0 {
                        assert(rest.subrange(0, t.len() as int)[i - 1] == t[i - 1]);
                    }
                }
            }
        } else {
            assert(ids[0] == oid);
            assert(ids.subrange(0, 1) =~= s);
        }
    } else {
        assert(ids.subrange(0, 0) =~= s);
    }
}

/// A history along the first parents ends where it must: without a fault, at a commit that has no
/// parents, unless no more commits are asked for; with a fault, before a commit that cannot be read,
/// or where the whole history is asked for and does not end.
pub proof fn law_chain_end(db: Map<ObjectSha, Seq<u8>>, oid: ObjectSha, left: nat, whole: bool)
    ensures
        ({
            let (ids, fault) = chain(db, oid, left, whole);
            let last = commit_at(db, ids.last())->Ok_0;
            let next = if ids.len() == 0 {
                oid
            } else {
                last.parents[0]
            };
            &&& ids.len() <= left
            &&& ids.len() > 0 ==> commit_at(db, ids.last()) is Ok
            &&& match fault {
                None => ids.len() == left && !whole || ids.len() > 0 && last.parents.len() == 0,
                Some(e) => {
                    &&& ids.len() > 0 ==> last.parents.len() > 0
                    &&& commit_at(db, next) == Err::<CommitModel, ObjectError>(e) || whole && ids.len()
                        == left && commit_at(db, next) is Ok && e == ObjectError::Cyclic(next)
                },
            }
        }),
    decreases left,
{
    if left > 0 {
        if let Ok(c) = commit_at(db, oid) {
            if c.parents.len() > 0 {
                law_chain_end(db, c.parents[0], (left - 1) as nat, whole);
                let rest = chain(db, c.parents[0], (left - 1) as nat, whole).0;
                let ids = chain(db, oid, left, whole).0;
                assert(ids == seq![oid] + rest);
                if rest.len() > 0 {
                    assert(ids.last() == rest.last());
                }
            }
        }
    }
}

} // verus!
