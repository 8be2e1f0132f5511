//! Pulling: fetching, and then merging the remote branch that goes with the current one.
use crate::bytes::starts_with;
use crate::fetch::{FetchedModel, FetchedRef};
use crate::head::{Head, HeadModel};
use crate::index::{forward_slashes, with_forward_slashes};
use crate::merge::{
    merge, merge_result, resolve_to_commit_oid, target_in, MergeError, MergePlan, PlanModel,
};
use crate::numbers::hex_value;
use crate::object::ObjectSha;
use crate::object_db::ObjectDb;
use crate::reference::sha1_in;
use crate::text::{
    chars_of, chars_start_with, lemma_trim_padded, lemma_trim_solid, opt_view, same_text,
    string_of, trim, views,
};
use vstd::prelude::*;
use vstd::slice::slice_subrange;

verus! {

/// The short name of a branch whose reference has the given path.
pub open spec fn short_branch(path: Seq<char>) -> Seq<char> {
    let p = forward_slashes(path);
    if starts_with(p, "refs/heads/"@) {
        p.subrange(11, p.len() as int)
    } else {
        p
    }
}

/// The branch that `HEAD` is on; nothing where it is on none.
pub open spec fn branch_name(h: HeadModel) -> Option<Seq<char>> {
    match h {
        HeadModel::Branch(path) => Some(short_branch(path)),
        HeadModel::Commit(_) => None,
    }
}

/// The branch that `HEAD` is on; nothing where it is on none.
pub fn current_branch_name(head: &Head) -> (r: Option<String>)
    ensures
        opt_view(r) == branch_name(head@),
{
    match head {
        Head::TargetCommit(_) => None,
        Head::TargetBranch { branch_ref_path } => {
            let cs = chars_of(branch_ref_path.as_str());
            let p = with_forward_slashes(cs.as_slice());
            if chars_start_with(p.as_slice(), "refs/heads/") {
                proof {
                    reveal_strlit("refs/heads/");
                }
                Some(string_of(slice_subrange(p.as_slice(), 11, p.len())))
            } else {
                Some(string_of(p.as_slice()))
            }
        },
    }
}

/// The file that remembers where a branch of a remote is, relative to the repository.
pub open spec fn tracking_path(remote: Seq<char>, branch: Seq<char>) -> Seq<char> {
    "refs/remotes/"@ + remote + "/"@ + branch
}

/// The file that remembers where a branch of a remote is, relative to the repository.
pub fn tracking_ref(remote: &str, branch: &str) -> (r: String)
    ensures
        r@ == tracking_path(remote@, branch@),
{
    let mut r = string_of(chars_of("refs/remotes/").as_slice());
    r.append(remote);
    r.append("/");
    r.append(branch);
    r
}

/// The message of a merge that is not given one.
pub fn default_message(remote: &str, branch: &str) -> (r: String)
    ensures
        r@ == "Merge branch '"@ + remote@ + "/"@ + branch@ + "'\n"@,
{
    let mut r = string_of(chars_of("Merge branch '").as_slice());
    r.append(remote);
    r.append("/");
    r.append(branch);
    r.append("'\n");
    r
}

/// The commit that the reference of a remote branch with this content leads to: the one whose id it
/// holds, or that of the local branch that it names, whose reference has the content `local`.
pub open spec fn tracked_in(content: Option<Seq<char>>, local: Option<Seq<char>>) -> Result<
    ObjectSha,
    MergeError,
> {
    match content {
        None => Err(MergeError::NoBranch),
        Some(s) => target_in(s, local),
    }
}

/// What merging a remote branch into `ours` gives.
pub open spec fn tracking_merged(
    db: &ObjectDb,
    ours: ObjectSha,
    tip: Option<Seq<char>>,
    local: Option<Seq<char>>,
    r: Result<(ObjectSha, MergePlan), MergeError>,
) -> bool {
    match tracked_in(tip, local) {
        Err(e) => r == Err::<(ObjectSha, MergePlan), MergeError>(e),
        Ok(theirs) => {
            &&& r is Ok ==> r->Ok_0.0 == theirs
            &&& if ours == theirs {
                r is Ok && r->Ok_0.1@ == PlanModel::UpToDate
            } else {
                merge_result(
                    db@,
                    ours,
                    theirs,
                    db.count(),
                    (match r {
                        Ok((_, plan)) => Ok(plan@),
                        Err(e) => Err(e),
                    }),
                )
            }
        },
    }
}

/// Plans the merge of a remote branch into `ours`. `tip` is the content of the file that
/// [`tracking_ref`] names, and `local` that of the file that
/// [`target_ref`](crate::merge::target_ref) gives for it, where they exist.
pub fn merge_remote_tracking(
    db: &ObjectDb,
    ours: &ObjectSha,
    tip: Option<&str>,
    local: Option<&str>,
) -> (r: Result<(ObjectSha, MergePlan), MergeError>)
    ensures
        tracking_merged(db, *ours, opt_view(tip), opt_view(local), r),
{
    let theirs = match tip {
        None => return Err(MergeError::NoBranch),
        Some(s) => match resolve_to_commit_oid(s, local) {
            Ok(oid) => oid,
            Err(e) => return Err(e),
        },
    };
    match merge(db, ours, &theirs) {
        Ok(plan) => Ok((theirs, plan)),
        Err(e) => Err(e),
    }
}

/// What a file holds after a fetch that wrote these references, when it held `before`.
pub open spec fn content_after(
    refs: Seq<FetchedModel>,
    path: Seq<char>,
    before: Option<Seq<char>>,
) -> Option<Seq<char>>
    decreases refs.len(),
{
    if refs.len() == 0 {
        before
    } else if refs.last().local_name == path {
        Some(refs.last().sha.push('\n'))
    } else {
        content_after(refs.drop_last(), path, before)
    }
}

/// The content of a file after a fetch that wrote these references.
pub fn tip_after(refs: &[FetchedRef], path: &str, before: Option<String>) -> (r: Option<String>)
    ensures
        opt_view(r) == content_after(views(refs@), path@, opt_view(before)),
{
    let ghost all = views(refs@);
    let mut n: usize = refs.len();
    assert(all.subrange(0, n as int) =~= all);
    while n > 0
        invariant
            0 <= n <= refs@.len(),
            all == views(refs@),
            content_after(all, path@, opt_view(before)) == content_after(
                all.subrange(0, n as int),
                path@,
                opt_view(before),
            ),
        decreases n,
    {
        n -= 1;
        proof {
            let upto = all.subrange(0, n + 1);
            assert(upto.drop_last() =~= all.subrange(0, n as int));
            assert(upto.last() == refs@[n as int]@);
        }
        if same_text(refs[n].local_name.as_str(), path) {
            let mut r = string_of(chars_of(refs[n].sha.as_str()).as_slice());
            r.push('\n');
            return Some(r);
        }
    }
    before
}

/// Why a pull did nothing more.
#[derive(Debug)]
pub enum PullError<E> {
    /// The fetch failed.
    Fetch(E),
    /// The fetch is done, and the merge cannot be.
    Merge(MergeError),
}

/// Plans the merge that follows a fetch. `fetched` is what the fetch gave: the references that it
/// wrote, or why it failed. `db` and `ours` are the store and the current commit that it left.
/// `tip` is what the file at `path`, that of the remote branch, held before it, and `local` what
/// the local branch holds that this file names after it, if it names one.
pub fn pull<E>(
    fetched: Result<&[FetchedRef], E>,
    db: &ObjectDb,
    ours: &ObjectSha,
    path: &str,
    tip: Option<String>,
    local: Option<&str>,
) -> (r: Result<(ObjectSha, MergePlan), PullError<E>>)
    ensures
        (match fetched {
            Err(e) => r == Err::<(ObjectSha, MergePlan), PullError<E>>(PullError::Fetch(e)),
            Ok(refs) => {
                let now = content_after(views(refs@), path@, opt_view(tip));
                match r {
                    Ok(p) => tracking_merged(db, *ours, now, opt_view(local), Ok(p)),
                    Err(PullError::Merge(e)) => tracking_merged(
                        db,
                        *ours,
                        now,
                        opt_view(local),
                        Err(e),
                    ),
                    Err(PullError::Fetch(_)) => false,
                }
            },
        }),
{
    match fetched {
        Err(e) => Err(PullError::Fetch(e)),
        Ok(refs) => {
            let now = tip_after(refs, path, tip);
            let at: Option<&str> = match &now {
                Some(s) => Some(s.as_str()),
                None => None,
            };
            match merge_remote_tracking(db, ours, at, local) {
                Ok(p) => Ok(p),
                Err(e) => Err(PullError::Merge(e)),
            }
        },
    }
}

/// A pull merges what the remote has: after a fetch, each file leads to the commit that was written
/// to it last.
pub proof fn law_pull_merges_fetched(
    refs: Seq<FetchedModel>,
    i: int,
    before: Option<Seq<char>>,
    local: Option<Seq<char>>,
)
    requires
        0 <= i < refs.len(),
        sha1_in(refs[i].sha) is Some,
        forall|j: int|
            i < j < refs.len() ==> (#[trigger] refs[j]).local_name != refs[i].local_name,
    ensures
        tracked_in(content_after(refs, refs[i].local_name, before), local) == Ok::<
            ObjectSha,
            MergeError,
        >(sha1_in(refs[i].sha)->Some_0),
    decreases refs.len(),
{
    let path = refs[i].local_name;
    if i < refs.len() - 1 {
        let front = refs.drop_last();
        assert(refs[refs.len() - 1].local_name != path);
        assert forall|j: int| i < j < front.len() implies (#[trigger] front[j]).local_name
            != front[i].local_name by {
            assert(refs[j].local_name != path);
        }
        law_pull_merges_fetched(front, i, before, local);
    } else {
        let s = refs[i].sha;
        lemma_sha1_solid(s);
        assert(s.push('\n') =~= Seq::<char>::empty() + s + seq!['\n']);
        lemma_trim_padded(Seq::empty(), s, seq!['\n']);
    }
}

proof fn lemma_sha1_solid(s: Seq<char>)
    requires
        sha1_in(s) is Some,
    ensures
        trim(s) == s,
{
    assert(hex_value(s[0]) is Some && hex_value(s.last()) is Some);
    lemma_trim_solid(s);
}

} // verus!
