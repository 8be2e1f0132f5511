//! What comes of a merge, a pull and a push as a whole: which plan is made, what it leaves in the
//! index and in the repository, and what is taken for which branch.
use crate::bytes::ends_with;
use crate::clone_plan::{dir_of_url, last_separator};
use crate::commit_object::{commit_at, IdentityModel};
use crate::fetch::FetchedModel;
use crate::get_packfile_by_network::{without_slashes, RefModel};
use crate::head::HeadModel;
use crate::index::{
    entry_of_file, forward_slashes, law_staged_once, staged_entry, without_path, EntryModel, FileStat,
    IndexError, IndexModel,
};
use crate::index_laws::{is_side, law_conflict_recorded, law_path_removed};
use crate::index_tree::{node_entry, NodeModel};
use crate::merge::{
    conflicts_in, merge_commit_model, merge_files, merge_result, plan_from, recorded, target_in,
    tree_of, trees_actions, ActionModel, MergeError, PlanModel,
};
use crate::merge_base::{is_ancestor, law_meeting_is_ancestor, meets};
use crate::merge_laws::{law_merge_plan, right_plan};
use crate::net_laws::law_id_of_ref;
use crate::numbers::hex_of;
use crate::object::{tree_in, ObjectError, ObjectSha, TreeEntry};
use crate::picking::lemma_picked_has;
use crate::pull::{branch_name, content_after, tracking_path};
use crate::push::remote_id;
use crate::reference::sha1_in;
use crate::staging::{input_fault, StageFault};
use crate::text::trim;
use crate::unix_path::relative_to;
use vstd::prelude::*;
use vstd::utf8::encode_utf8;

verus! {

/// Whether these are the entries of the tree of a commit.
pub open spec fn is_tree_of(
    db: Map<ObjectSha, Seq<u8>>,
    oid: ObjectSha,
    t: Seq<(Seq<u8>, TreeEntry)>,
) -> bool {
    commit_at(db, oid) is Ok && tree_in(db, commit_at(db, oid)->Ok_0.tree) == Ok::<
        Seq<(Seq<u8>, TreeEntry)>,
        ObjectError,
    >(t)
}

/// Whether the actions merge the trees of two commits against that of a third.
pub open spec fn merges(
    db: Map<ObjectSha, Seq<u8>>,
    base: ObjectSha,
    ours: ObjectSha,
    theirs: ObjectSha,
    acts: Seq<ActionModel>,
) -> bool {
    exists|
        b: Seq<(Seq<u8>, TreeEntry)>,
        o: Seq<(Seq<u8>, TreeEntry)>,
        t: Seq<(Seq<u8>, TreeEntry)>,
        at: Seq<Seq<Seq<u8>>>,
    |
        #![trigger right_plan(db, b, o, t, acts, at)]
        is_tree_of(db, base, b) && is_tree_of(db, ours, o) && is_tree_of(db, theirs, t)
            && right_plan(db, b, o, t, acts, at)
}

proof fn lemma_merges(
    db: Map<ObjectSha, Seq<u8>>,
    base: ObjectSha,
    ours: ObjectSha,
    theirs: ObjectSha,
    b: Seq<(Seq<u8>, TreeEntry)>,
    o: Seq<(Seq<u8>, TreeEntry)>,
    t: Seq<(Seq<u8>, TreeEntry)>,
    depth: nat,
)
    requires
        is_tree_of(db, base, b),
        is_tree_of(db, ours, o),
        is_tree_of(db, theirs, t),
        trees_actions(db, b, o, t, depth) is Ok,
    ensures
        merges(db, base, ours, theirs, trees_actions(db, b, o, t, depth)->Ok_0),
{
    law_merge_plan(db, b, o, t, depth);
    let acts = trees_actions(db, b, o, t, depth)->Ok_0;
    let at = choose|at: Seq<Seq<Seq<u8>>>| #[trigger] right_plan(db, b, o, t, acts, at);
    assert(right_plan(db, b, o, t, acts, at));
}

/// A merge of two different commits does nothing just where ours comes from theirs. Where theirs
/// comes from ours it goes over to theirs, which is merged against our own tree; else both are merged
/// against the tree of a commit that both come from.
pub proof fn law_merge_outcome(
    db: Map<ObjectSha, Seq<u8>>,
    ours: ObjectSha,
    theirs: ObjectSha,
    depth: nat,
    plan: PlanModel,
)
    requires
        ours != theirs,
        merge_result(db, ours, theirs, depth, Ok(plan)),
    ensures
        plan == PlanModel::UpToDate <==> is_ancestor(db, theirs, ours),
        is_ancestor(db, ours, theirs) && !is_ancestor(db, theirs, ours) ==> plan is FastForward,
        plan matches PlanModel::FastForward(acts) ==> is_ancestor(db, ours, theirs) && merges(
            db,
            ours,
            ours,
            theirs,
            acts,
        ),
        plan matches PlanModel::ThreeWay(acts) ==> exists|base: ObjectSha|
            is_ancestor(db, base, ours) && is_ancestor(db, base, theirs) && #[trigger] merges(
                db,
                base,
                ours,
                theirs,
                acts,
            ),
{
    let o = tree_of(db, ours)->Ok_0;
    let t = tree_of(db, theirs)->Ok_0;
    let r = Ok::<PlanModel, MergeError>(plan);
    let base = choose|base: Option<ObjectSha>| #[trigger]
        meets(db, ours, theirs, base) && r == plan_from(db, ours, theirs, o, t, base, depth);
    assert(meets(db, ours, theirs, base) && r == plan_from(db, ours, theirs, o, t, base, depth));
    law_meeting_is_ancestor(db, ours, theirs, base);
    assert(is_tree_of(db, ours, o) && is_tree_of(db, theirs, t));
    match plan {
        PlanModel::UpToDate => {},
        PlanModel::FastForward(acts) => {
            lemma_merges(db, ours, ours, theirs, o, o, t, depth);
        },
        PlanModel::ThreeWay(acts) => {
            let m = base->Some_0;
            let b = tree_of(db, m)->Ok_0;
            assert(is_tree_of(db, m, b));
            lemma_merges(db, m, ours, theirs, b, o, t, depth);
            assert(merges(db, m, ours, theirs, acts));
        },
    }
}

/// A merge leaves behind where we were, and where there are conflicts also what is merged, and the
/// message for when they are settled.
pub proof fn law_merge_state(
    theirs: ObjectSha,
    ours: ObjectSha,
    acts: Seq<ActionModel>,
    message: Seq<char>,
)
    ensures
        ({
            let files = merge_files(theirs, ours, acts, message);
            let conflicts = exists|i: int|
                0 <= i < acts.len() && (#[trigger] acts[i]) is WriteConflict;
            &&& files.len() == (if theirs == ours {
                0int
            } else if conflicts {
                3
            } else {
                1
            })
            &&& theirs != ours ==> files[0].path == "ORIG_HEAD"@ && files[0].content == hex_of(
                ours@,
            ).push('\n')
            &&& theirs != ours && conflicts ==> files[1].path == "MERGE_HEAD"@ && files[1].content
                == hex_of(theirs@).push('\n') && files[2].path == "MERGE_MSG"@ && files[2].content
                == message
        }),
{
    lemma_conflicts(acts);
}

proof fn lemma_conflicts(acts: Seq<ActionModel>)
    ensures
        conflicts_in(acts).len() > 0 <==> exists|i: int|
            0 <= i < acts.len() && (#[trigger] acts[i]) is WriteConflict,
    decreases acts.len(),
{
    if acts.len() > 0 {
        let t = acts.drop_last();
        lemma_conflicts(t);
        if exists|i: int| 0 <= i < t.len() && (#[trigger] t[i]) is WriteConflict {
            let i = choose|i: int| 0 <= i < t.len() && (#[trigger] t[i]) is WriteConflict;
            assert(acts[i] is WriteConflict);
        }
        if exists|i: int| 0 <= i < acts.len() && (#[trigger] acts[i]) is WriteConflict {
            let i = choose|i: int| 0 <= i < acts.len() && (#[trigger] acts[i]) is WriteConflict;
            if i < t.len() {
                assert(t[i] is WriteConflict);
            }
        }
        assert(acts[acts.len() - 1] == acts.last());
    }
}

/// A file that a merge writes is staged: the index has just the entry of that file for its path, and
/// keeps what it has for other paths.
pub proof fn law_merged_recorded(
    index: IndexModel,
    a: ActionModel,
    stat: FileStat,
    m: IndexModel,
    path: Seq<u8>,
    oid: ObjectSha,
)
    requires
        recorded(index, a, stat) == Ok::<IndexModel, IndexError>(m),
        (a matches ActionModel::WriteFile { entry, oid: o, .. } && entry == path && o == oid) || (
        a matches ActionModel::WriteMerged { entry, oid: o, .. } && entry == path && o == oid),
    ensures
        m.version == index.version,
        forall|e: EntryModel| #[trigger]
            m.entries.to_multiset().count(e) == (if e.path != path {
                index.entries.to_multiset().count(e)
            } else if e == entry_of_file(stat, path, oid) {
                1
            } else {
                0
            }),
{
    law_staged_once(index.entries, stat, path, oid);
}

/// A file that a merge takes away is taken out of the index, and a directory leaves it as it is.
pub proof fn law_removal_recorded(
    index: IndexModel,
    a: ActionModel,
    stat: FileStat,
    m: IndexModel,
    path: Seq<u8>,
)
    requires
        recorded(index, a, stat) == Ok::<IndexModel, IndexError>(m),
    ensures
        a is MakeDir ==> m == index,
        (a matches ActionModel::Remove { entry, .. } && entry == path) ==> m.version
            == index.version && forall|e: EntryModel| #[trigger]
            m.entries.contains(e) <==> index.entries.contains(e) && e.path != path,
{
    if a is Remove {
        let s = index.entries;
        let p = a->Remove_entry;
        law_path_removed(s, p);
        let wanted = Seq::new(
            s.len(),
            |i: int|
                if s[i].path == p {
                    None
                } else {
                    Some(s[i])
                },
        );
        assert forall|e: EntryModel| #[trigger]
            m.entries.contains(e) <==> s.contains(e) && e.path != p by {
            lemma_picked_has(without_path(s, p), wanted, e);
            if wanted.contains(Some(e)) {
                let i = choose|i: int| 0 <= i < wanted.len() && wanted[i] == Some(e);
                assert(s[i] == e);
            }
            if s.contains(e) && e.path != p {
                let i = choose|i: int| 0 <= i < s.len() && s[i] == e;
                assert(wanted[i] == Some(e));
            }
        }
    }
}

/// A conflict of a merge puts the sides of the path into the index, and nothing is staged for it.
pub proof fn law_conflict_left(
    index: IndexModel,
    a: ActionModel,
    stat: FileStat,
    m: IndexModel,
)
    requires
        recorded(index, a, stat) == Ok::<IndexModel, IndexError>(m),
    ensures
        a matches ActionModel::WriteConflict { entry, base, ours, theirs, .. } ==> {
            &&& staged_entry(m.entries, entry) is None
            &&& base is Some ==> exists|e: EntryModel| #[trigger]
                m.entries.contains(e) && is_side(e, entry, base, 1)
            &&& ours is Some ==> exists|e: EntryModel| #[trigger]
                m.entries.contains(e) && is_side(e, entry, ours, 2)
            &&& theirs is Some ==> exists|e: EntryModel| #[trigger]
                m.entries.contains(e) && is_side(e, entry, theirs, 3)
            &&& forall|e: EntryModel|
                e.path != entry ==> (#[trigger] m.entries.contains(e) <==> index.entries.contains(e))
        },
{
    if let ActionModel::WriteConflict { entry, base, ours, theirs, .. } = a {
        law_conflict_recorded(index.entries, entry, base, ours, theirs);
    }
}

/// A merge commit records the tree of the index and comes from ours and from theirs, in that order.
pub proof fn law_merge_commit(
    root: NodeModel,
    ours: ObjectSha,
    theirs: ObjectSha,
    author: IdentityModel,
    committer: IdentityModel,
    message: Seq<char>,
)
    ensures
        ({
            let c = merge_commit_model(root, ours, theirs, author, committer, message);
            &&& c.tree == node_entry(root).object_name
            &&& c.parents.len() == 2 && c.parents[0] == ours && c.parents[1] == theirs
            &&& c.author == author && c.committer == committer
            &&& c.trailing_headers.len() == 0
            &&& c.message == encode_utf8(message)
        }),
{
}

/// What is merged is the commit whose id is given, else the one that the branch of that name is at.
pub proof fn law_merge_target(target: Seq<char>, content: Seq<char>, oid: ObjectSha)
    ensures
        sha1_in(trim(target)) == Some(oid) ==> target_in(target, None) == Ok::<
            ObjectSha,
            MergeError,
        >(oid) && target_in(target, Some(content)) == Ok::<ObjectSha, MergeError>(oid),
        sha1_in(trim(target)) is None ==> target_in(target, None) == Err::<ObjectSha, MergeError>(
            MergeError::NoBranch,
        ),
        sha1_in(trim(target)) is None && sha1_in(trim(content)) == Some(oid) ==> target_in(
            target,
            Some(content),
        ) == Ok::<ObjectSha, MergeError>(oid),
        sha1_in(trim(target)) is None && sha1_in(trim(content)) is None ==> target_in(
            target,
            Some(content),
        ) == Err::<ObjectSha, MergeError>(MergeError::BadBranch),
{
}

/// What a pull does not fetch stays as it was.
pub proof fn law_pull_keeps(refs: Seq<FetchedModel>, path: Seq<char>, before: Option<Seq<char>>)
    requires
        forall|i: int| 0 <= i < refs.len() ==> (#[trigger] refs[i]).local_name != path,
    ensures
        content_after(refs, path, before) == before,
    decreases refs.len(),
{
    if refs.len() > 0 {
        let t = refs.drop_last();
        assert(refs[refs.len() - 1].local_name != path);
        assert forall|i: int| 0 <= i < t.len() implies (#[trigger] t[i]).local_name != path by {
            assert(t[i] == refs[i]);
        }
        law_pull_keeps(t, path, before);
    }
}

/// The branch that `HEAD` is on is what stands behind `refs/heads/`; a commit on its own is no
/// branch.
pub proof fn law_branch_name(name: Seq<char>, oid: ObjectSha, remote: Seq<char>)
    requires
        !name.contains('\\'),
    ensures
        branch_name(HeadModel::Branch("refs/heads/"@ + name)) == Some(name),
        branch_name(HeadModel::Commit(oid)) is None,
        tracking_path(remote, name) == "refs/remotes/"@ + remote + "/"@ + name,
{
    reveal_strlit("refs/heads/");
    let path = "refs/heads/"@ + name;
    let p = forward_slashes(path);
    assert forall|i: int| 0 <= i < path.len() implies p[i] == path[i] by {
        if i >= 11 {
            assert(path[i] == name[i - 11]);
            assert(name.contains(name[i - 11]));
        }
    }
    assert(p =~= path);
    assert(p.subrange(0, 11) =~= "refs/heads/"@);
    assert(p.subrange(11, p.len() as int) =~= name);
}

/// What the remote has of a branch is the id that it advertises first for it; for one that it does
/// not advertise, forty zeros.
pub proof fn law_remote_id(refs: Seq<RefModel>, name: Seq<char>, k: int)
    requires
        0 <= k <= refs.len(),
        forall|i: int| 0 <= i < k ==> (#[trigger] refs[i]).name != name,
        k < refs.len() ==> refs[k].name == name,
    ensures
        k < refs.len() ==> remote_id(refs, name) == refs[k].sha,
        k == refs.len() ==> remote_id(refs, name).len() == 40 && forall|i: int|
            0 <= i < 40 ==> #[trigger] remote_id(refs, name)[i] == '0',
{
    law_id_of_ref(refs, name, k);
}

/// Paths to stage are refused for the first that is not below the worktree, or that is in the
/// repository itself; else not.
pub proof fn law_inputs_checked(canons: Seq<Seq<u8>>, worktree: Seq<u8>, git_abs: Seq<u8>, k: int)
    requires
        0 <= k <= canons.len(),
        forall|i: int|
            0 <= i < k ==> relative_to(worktree, #[trigger] canons[i]) is Some && relative_to(
                git_abs,
                canons[i],
            ) is None,
        k < canons.len() ==> relative_to(worktree, canons[k]) is None || relative_to(
            git_abs,
            canons[k],
        ) is Some,
    ensures
        input_fault(canons, worktree, git_abs) == (if k == canons.len() {
            None
        } else if relative_to(worktree, canons[k]) is None {
            Some(StageFault::NotUnderWorktree(canons[k]))
        } else {
            Some(StageFault::InRepo(canons[k]))
        }),
    decreases k,
{
    if k > 0 {
        assert(relative_to(worktree, canons[0]) is Some && relative_to(git_abs, canons[0]) is None);
        let t = canons.drop_first();
        assert forall|i: int| 0 <= i < k - 1 implies relative_to(
            worktree,
            #[trigger] t[i],
        ) is Some && relative_to(git_abs, t[i]) is None by {
            assert(t[i] == canons[i + 1]);
        }
        law_inputs_checked(t, worktree, git_abs, k - 1);
    }
}

proof fn lemma_slashes_off(s: Seq<char>, slashes: Seq<char>)
    requires
        s.len() > 0,
        s.last() != '/',
        forall|i: int| 0 <= i < slashes.len() ==> #[trigger] slashes[i] == '/',
    ensures
        without_slashes(s + slashes) == s,
    decreases slashes.len(),
{
    if slashes.len() == 0 {
        assert(s + slashes =~= s);
    } else {
        let t = slashes.drop_last();
        assert forall|i: int| 0 <= i < t.len() implies #[trigger] t[i] == '/' by {
            assert(t[i] == slashes[i]);
        }
        lemma_slashes_off(s, t);
        assert(slashes[slashes.len() - 1] == '/');
        assert((s + slashes).last() == '/');
        assert((s + slashes).drop_last() =~= s + t);
    }
}

proof fn lemma_last_separator(s: Seq<char>, at: int, upto: int)
    requires
        -1 <= at < upto <= s.len(),
        at >= 0 ==> s[at] == '/' || s[at] == ':',
        forall|i: int| at < i < upto ==> s[i] != '/' && s[i] != ':',
    ensures
        last_separator(s, upto) == at,
    decreases upto,
{
    if upto > 0 && upto - 1 > at {
        lemma_last_separator(s, at, upto - 1);
    }
}

/// A clone goes into the directory that the address ends in: what stands behind its last slash or
/// colon, without `.git` and without slashes at the end.
pub proof fn law_clone_dir(front: Seq<char>, name: Seq<char>, git: bool, slashes: Seq<char>)
    requires
        front.len() > 0 ==> front.last() == '/' || front.last() == ':',
        name.len() > 0,
        !name.contains('/') && !name.contains(':'),
        !ends_with(name, ".git"@),
        forall|i: int| 0 <= i < slashes.len() ==> #[trigger] slashes[i] == '/',
    ensures
        dir_of_url(
            front + name + (if git {
                ".git"@
            } else {
                Seq::empty()
            }) + slashes,
        ) == Some(name),
{
    reveal_strlit(".git");
    let end = if git {
        ".git"@
    } else {
        Seq::empty()
    };
    let last = name + end;
    let s = front + last;
    assert forall|i: int| 0 <= i < last.len() implies last[i] != '/' && last[i] != ':' by {
        if i < name.len() {
            assert(name.contains(name[i]));
            assert(last[i] == name[i]);
        } else {
            assert(last[i] == ".git"@[i - name.len()]);
        }
    }
    assert(s.last() == last[last.len() - 1]);
    lemma_slashes_off(s, slashes);
    assert(front + name + end + slashes =~= s + slashes);
    assert forall|i: int| front.len() - 1 < i < s.len() implies s[i] != '/' && s[i] != ':' by {
        assert(s[i] == last[i - front.len()]);
    }
    if front.len() > 0 {
        assert(s[front.len() - 1] == front.last());
    }
    lemma_last_separator(s, front.len() - 1, s.len() as int);
    assert(s.subrange(front.len() as int, s.len() as int) =~= last);
    if git {
        assert(last.subrange(last.len() - 4, last.len() as int) =~= ".git"@);
        assert(last.subrange(0, last.len() - 4) =~= name);
    } else {
        assert(last =~= name);
    }
}

} // verus!
