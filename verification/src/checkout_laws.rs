//! What a checkout does: every file of the commit's tree is written, and untracked files alone keep
//! it from being done.
use crate::byte_map::{ascending, has_key, lemma_lookup_at, lemma_lookup_has_key, lookup};
use crate::bytes::rfind_before;
use crate::checkout::{
    checked_out, child_actions, first_entangled, first_in, node_actions, parent_dirs, removals,
    resolved, some_above, some_below, target_named, untracked_fault, FaultModel, TargetModel,
};
use crate::commit_object::commit_at;
use crate::diff_laws::path_below;
use crate::git_paths::branch_ref;
use crate::head::{head_in, law_branch_head_round_trip, law_head_moves, HeadModel};
use crate::index::{index_form, IndexError, IndexModel};
use crate::index_tree::{children_in, node_in, NodeModel};
use crate::merge::ActionModel;
use crate::merge_laws::{lemma_found_key, lemma_front};
use crate::numbers::hex_of;
use crate::object::{
    blob_in, lemma_entries_ascend, lemma_oid_hex_round_trip, oid_from_hex, payload_of_kind,
    tree_entries, tree_in, FileMode, ObjectError, ObjectSha, TreeEntry,
};
use crate::path_set::{
    below, key_path, keys_without, lemma_keys_without, lemma_path_set, path_key, path_set,
};
use crate::reference::{ref_in, RefError};
use crate::text::{is_space, lossy_text};
use crate::unix_path::pushed;
use crate::walks::{leads, lemma_leads_here, lemma_leads_in, lemma_leads_on, lemma_way};
use vstd::prelude::*;
use vstd::utf8::encode_utf8;

verus! {

/// The entries of the tree that the store holds under an id.
pub open spec fn tree_held(db: Map<ObjectSha, Seq<u8>>, oid: ObjectSha) -> Option<
    Seq<(Seq<u8>, TreeEntry)>,
> {
    if db.contains_key(oid) {
        match payload_of_kind(db[oid], "tree"@) {
            Ok(p) => match tree_entries(p, true, Seq::empty()) {
                Ok(t) => Some(t),
                Err(_) => None,
            },
            Err(_) => None,
        }
    } else {
        None
    }
}

/// What the tree that an entry stands for has under a name.
pub open spec fn entry_step(
    db: Map<ObjectSha, Seq<u8>>,
    e: Option<TreeEntry>,
    name: Seq<u8>,
) -> Option<TreeEntry> {
    match e {
        Some(x) => match tree_held(db, x.object_name) {
            Some(t) => lookup(t, name),
            None => None,
        },
        None => None,
    }
}

/// What is found from an entry on along some names.
pub open spec fn entry_below(
    db: Map<ObjectSha, Seq<u8>>,
    e: Option<TreeEntry>,
    names: Seq<Seq<u8>>,
) -> Option<TreeEntry>
    decreases names.len(),
{
    if names.len() == 0 {
        e
    } else {
        entry_below(db, entry_step(db, e, names[0]), names.drop_first())
    }
}

/// What is found in a tree along some names.
pub open spec fn entry_in_tree(
    db: Map<ObjectSha, Seq<u8>>,
    t: Seq<(Seq<u8>, TreeEntry)>,
    names: Seq<Seq<u8>>,
) -> Option<TreeEntry> {
    entry_below(db, lookup(t, names[0]), names.drop_first())
}

/// Whether an action makes the directory that an entry is, or writes the file: with its mode, and
/// with the content and the id of its blob.
pub open spec fn puts(
    db: Map<ObjectSha, Seq<u8>>,
    e: Option<TreeEntry>,
    at: Seq<u8>,
    a: ActionModel,
) -> bool {
    match (e, a) {
        (Some(x), ActionModel::MakeDir { path }) => path == at && tree_held(db, x.object_name) is Some,
        (Some(x), ActionModel::WriteFile { path, entry, mode, content, oid }) => {
            &&& path == at
            &&& index_form(at) == Ok::<Seq<u8>, IndexError>(entry)
            &&& mode == x.file_mode && mode != FileMode::Directory && mode != FileMode::Gitlink
            &&& oid == x.object_name
            &&& blob_in(db, oid) == Ok::<Seq<u8>, ObjectError>(content)
        },
        _ => false,
    }
}

spec fn node_right(db: Map<ObjectSha, Seq<u8>>, e: TreeEntry, path: Seq<u8>) -> spec_fn(
    Seq<Seq<u8>>,
    ActionModel,
) -> bool {
    |l: Seq<Seq<u8>>, a: ActionModel|
        puts(db, entry_below(db, Some(e), l), path_below(path, l), a)
}

spec fn node_must(db: Map<ObjectSha, Seq<u8>>, e: TreeEntry) -> spec_fn(Seq<Seq<u8>>) -> bool {
    |l: Seq<Seq<u8>>| entry_below(db, Some(e), l) is Some
}

spec fn dir_right(
    db: Map<ObjectSha, Seq<u8>>,
    entries: Seq<(Seq<u8>, TreeEntry)>,
    path: Seq<u8>,
) -> spec_fn(Seq<Seq<u8>>, ActionModel) -> bool {
    |l: Seq<Seq<u8>>, a: ActionModel|
        l.len() > 0 && has_key(entries, l[0]) && puts(
            db,
            entry_in_tree(db, entries, l),
            path_below(path, l),
            a,
        )
}

spec fn dir_must(db: Map<ObjectSha, Seq<u8>>, entries: Seq<(Seq<u8>, TreeEntry)>) -> spec_fn(
    Seq<Seq<u8>>,
) -> bool {
    |l: Seq<Seq<u8>>| l.len() > 0 && entry_in_tree(db, entries, l) is Some
}

proof fn lemma_nothing_under(db: Map<ObjectSha, Seq<u8>>, l: Seq<Seq<u8>>)
    ensures
        entry_below(db, None, l) is None,
    decreases l.len(),
{
    if l.len() > 0 {
        lemma_nothing_under(db, l.drop_first());
    }
}

proof fn lemma_node(
    db: Map<ObjectSha, Seq<u8>>,
    e: TreeEntry,
    depth: nat,
    path: Seq<u8>,
) -> (at: Seq<Seq<Seq<u8>>>)
    requires
        node_in(db, e, depth) is Ok,
        node_actions(db, node_in(db, e, depth)->Ok_0, path) is Ok,
    ensures
        leads(
            at,
            node_actions(db, node_in(db, e, depth)->Ok_0, path)->Ok_0,
            node_right(db, e, path),
            node_must(db, e),
        ),
    decreases depth, 0nat,
{
    let n = node_in(db, e, depth)->Ok_0;
    let acts = node_actions(db, n, path)->Ok_0;
    let right = node_right(db, e, path);
    let must = node_must(db, e);
    let none = Seq::<Seq<u8>>::empty();
    reveal_strlit("blob");
    reveal_strlit("tree");
    assert("blob"@[0] != "tree"@[0]);
    assert(path_below(path, none) == path);
    assert(entry_below(db, Some(e), none) == Some(e));
    match n {
        NodeModel::Blob(x) => {
            assert(tree_held(db, e.object_name) is None);
            assert forall|l: Seq<Seq<u8>>| #[trigger] must(l) implies l.len() == 0 by {
                if l.len() > 0 {
                    lemma_nothing_under(db, l.drop_first());
                }
            }
            assert(acts =~= seq![acts[0]]);
            lemma_leads_here(acts[0], right, must)
        },
        NodeModel::Tree(c) => {
            let entries = tree_held(db, e.object_name)->Some_0;
            let less = (depth - 1) as nat;
            lemma_entries_ascend(
                payload_of_kind(db[e.object_name], "tree"@)->Ok_0,
                true,
                Seq::empty(),
            );
            let here = lemma_dir(db, entries, less, path);
            let then = child_actions(db, c, c.len() as int, path)->Ok_0;
            let top = ActionModel::MakeDir { path };
            assert forall|i: int| 0 <= i < here.len() implies (#[trigger] here[i]).len() > 0
                && right(here[i], then[i]) by {
                assert(dir_right(db, entries, path)(here[i], then[i]));
            }
            assert forall|l: Seq<Seq<u8>>| l.len() > 0 && #[trigger] must(l) implies here.contains(
                l,
            ) by {
                assert(dir_must(db, entries)(l));
            }
            lemma_leads_in(top, here, then, right, must)
        },
    }
}

proof fn lemma_child_upto(
    db: Map<ObjectSha, Seq<u8>>,
    c: Seq<(Seq<u8>, NodeModel)>,
    d: Seq<(Seq<u8>, NodeModel)>,
    n: int,
    path: Seq<u8>,
)
    requires
        n <= c.len(),
        n <= d.len(),
        forall|i: int| 0 <= i < n ==> #[trigger] c[i] == d[i],
    ensures
        child_actions(db, c, n, path) == child_actions(db, d, n, path),
    decreases n,
{
    if n > 0 {
        lemma_child_upto(db, c, d, n - 1, path);
        assert(c[n - 1] == d[n - 1]);
    }
}

proof fn lemma_dir(
    db: Map<ObjectSha, Seq<u8>>,
    entries: Seq<(Seq<u8>, TreeEntry)>,
    depth: nat,
    path: Seq<u8>,
) -> (at: Seq<Seq<Seq<u8>>>)
    requires
        ascending(entries),
        children_in(db, entries, depth) is Ok,
        ({
            let c = children_in(db, entries, depth)->Ok_0;
            child_actions(db, c, c.len() as int, path) is Ok
        }),
    ensures
        ({
            let c = children_in(db, entries, depth)->Ok_0;
            leads(
                at,
                child_actions(db, c, c.len() as int, path)->Ok_0,
                dir_right(db, entries, path),
                dir_must(db, entries),
            )
        }),
    decreases depth, 1 + entries.len(),
{
    let right = dir_right(db, entries, path);
    let must = dir_must(db, entries);
    if entries.len() == 0 {
        let at = Seq::<Seq<Seq<u8>>>::empty();
        assert forall|l: Seq<Seq<u8>>| #[trigger] must(l) implies at.contains(l) by {
            lemma_found_key(entries, l[0]);
            lemma_nothing_under(db, l.drop_first());
        }
        at
    } else {
        let front = entries.drop_last();
        let (k, e) = entries.last();
        lemma_front(entries);
        let c = children_in(db, entries, depth)->Ok_0;
        let d = children_in(db, front, depth)->Ok_0;
        let n = d.len() as int;
        let node = node_in(db, e, depth)->Ok_0;
        assert(c == d.push((k, node)));
        lemma_child_upto(db, c, d, n, path);
        assert(c[n] == (k, node));
        let before = lemma_dir(db, front, depth, path);
        let first = child_actions(db, d, n, path)->Ok_0;
        let inner = pushed(path, k);
        let here = lemma_node(db, e, depth, inner);
        let then = node_actions(db, node, inner)->Ok_0;
        assert forall|i: int| 0 <= i < before.len() implies right(#[trigger] before[i], first[i]) && (
        before[i]).len() > 0 && before[i][0] != k by {
            assert(dir_right(db, front, path)(before[i], first[i]));
            assert(has_key(front, before[i][0]));
        }
        assert forall|i: int| 0 <= i < here.len() implies right(
            seq![k] + #[trigger] here[i],
            then[i],
        ) by {
            lemma_way(k, here[i]);
            assert(node_right(db, e, inner)(here[i], then[i]));
        }
        assert forall|l: Seq<Seq<u8>>| #[trigger] must(l) implies l.len() > 0 && if l[0] == k {
            here.contains(l.drop_first())
        } else {
            before.contains(l)
        } by {
            if l[0] == k {
                assert(node_must(db, e)(l.drop_first()));
            } else {
                lemma_found_key(entries, l[0]);
                lemma_nothing_under(db, l.drop_first());
                assert(has_key(entries, l[0]));
                assert(has_key(front, l[0]));
                assert(dir_must(db, front)(l));
            }
        }
        lemma_leads_on(before, first, k, here, then, right, must)
    }
}

/// Whether the actions put down everything that a tree holds: `at` are the names that lead to what
/// each action is for, none twice, and nothing is left out.
pub open spec fn puts_all(
    db: Map<ObjectSha, Seq<u8>>,
    entries: Seq<(Seq<u8>, TreeEntry)>,
    acts: Seq<ActionModel>,
    at: Seq<Seq<Seq<u8>>>,
) -> bool {
    &&& at.len() == acts.len()
    &&& at.no_duplicates()
    &&& forall|i: int|
        0 <= i < at.len() ==> (#[trigger] at[i]).len() > 0 && puts(
            db,
            entry_in_tree(db, entries, at[i]),
            path_below(Seq::empty(), at[i]),
            acts[i],
        )
    &&& forall|l: Seq<Seq<u8>>|
        l.len() > 0 && (#[trigger] entry_in_tree(db, entries, l)) is Some ==> at.contains(l)
}

/// The commit that is asked for, or that the branch is at whose reference has the content `branch`.
pub open spec fn commit_asked(target: TargetModel, branch: Option<Seq<char>>) -> ObjectSha {
    match target {
        TargetModel::Commit(oid) => oid,
        TargetModel::Branch(_) => ref_in(branch->Some_0)->Ok_0,
    }
}

/// A checkout puts down everything that the tree of the commit holds: the commit that was asked for,
/// or the one that the branch is at.
pub proof fn law_checkout_puts_all(
    db: Map<ObjectSha, Seq<u8>>,
    target: TargetModel,
    branch: Option<Seq<char>>,
    index: Option<IndexModel>,
    work: Seq<Seq<u8>>,
    depth: nat,
)
    requires
        checked_out(db, target, branch, index, work, depth) is Ok,
    ensures
        ({
            let plan = checked_out(db, target, branch, index, work, depth)->Ok_0;
            let oid = commit_asked(target, branch);
            &&& target is Branch ==> branch is Some && ref_in(branch->Some_0) is Ok
            &&& commit_at(db, oid) is Ok
            &&& tree_in(db, commit_at(db, oid)->Ok_0.tree) is Ok
            &&& exists|at: Seq<Seq<Seq<u8>>>| #[trigger]
                puts_all(db, tree_in(db, commit_at(db, oid)->Ok_0.tree)->Ok_0, plan.actions, at)
        }),
{
    let plan = checked_out(db, target, branch, index, work, depth)->Ok_0;
    let oid = resolved(db, target, branch)->Ok_0.0;
    let c = commit_at(db, oid)->Ok_0;
    let entries = tree_in(db, c.tree)->Ok_0;
    lemma_entries_ascend(payload_of_kind(db[c.tree], "tree"@)->Ok_0, true, Seq::empty());
    let at = lemma_dir(db, entries, depth, Seq::empty());
    assert forall|i: int| 0 <= i < at.len() implies (#[trigger] at[i]).len() > 0 && puts(
        db,
        entry_in_tree(db, entries, at[i]),
        path_below(Seq::empty(), at[i]),
        plan.actions[i],
    ) by {
        assert(dir_right(db, entries, Seq::empty())(at[i], plan.actions[i]));
    }
    assert forall|l: Seq<Seq<u8>>|
        l.len() > 0 && (#[trigger] entry_in_tree(db, entries, l)) is Some implies at.contains(l) by {
        assert(dir_must(db, entries)(l));
    }
    assert(puts_all(db, entries, plan.actions, at));
}

/// After a checkout, `HEAD` is at the commit that was asked for, on no branch, or on the branch that
/// was asked for.
pub proof fn law_checkout_moves_head(
    db: Map<ObjectSha, Seq<u8>>,
    target: TargetModel,
    branch: Option<Seq<char>>,
    index: Option<IndexModel>,
    work: Seq<Seq<u8>>,
    depth: nat,
)
    requires
        checked_out(db, target, branch, index, work, depth) is Ok,
    ensures
        ({
            let plan = checked_out(db, target, branch, index, work, depth)->Ok_0;
            match target {
                TargetModel::Commit(oid) => oid is SHA1 ==> head_in(plan.head) == Ok::<
                    HeadModel,
                    RefError,
                >(HeadModel::Commit(oid)),
                TargetModel::Branch(name) => {
                    let full = "refs/heads/"@ + name;
                    lossy_text(encode_utf8(full)) == full && name.len() > 0 && name[0] != '/'
                        && !is_space(name.last()) && !name.contains('\n') && !name.contains('\\')
                        ==> head_in(plan.head) == Ok::<HeadModel, RefError>(HeadModel::Branch(full))
                },
            }
        }),
{
    let (oid, head) = resolved(db, target, branch)->Ok_0;
    match target {
        TargetModel::Commit(oid) => {
            if oid is SHA1 {
                law_head_moves(db, HeadModel::Commit(oid), oid);
            }
        },
        TargetModel::Branch(name) => {
            let full = "refs/heads/"@ + name;
            reveal_strlit("refs/heads/");
            reveal_strlit("refs/heads");
            if lossy_text(encode_utf8(full)) == full && name.len() > 0 && name[0] != '/'
                && !is_space(name.last()) && !name.contains('\n') && !name.contains('\\') {
                assert("refs/heads"@.push('/') =~= "refs/heads/"@);
                assert(branch_ref(name) =~= full);
                assert forall|i: int| 0 <= i < full.len() implies full[i] != '\n' && full[i] != '\\' by {
                    if i >= 11 {
                        assert(full[i] == name[i - 11]);
                        assert(name.contains(name[i - 11]));
                    }
                }
                assert(crate::index::forward_slashes(full) =~= full);
                assert(full[0] == 'r');
                assert(full.last() == name.last());
                law_branch_head_round_trip(full);
            }
        },
    }
}

proof fn lemma_first_in(keys: Seq<Seq<u8>>, set: Seq<(Seq<u8>, ())>)
    ensures
        match first_in(keys, set) {
            Some(k) => keys.contains(k) && lookup(set, k) is Some,
            None => forall|i: int| 0 <= i < keys.len() ==> lookup(set, #[trigger] keys[i]) is None,
        },
    decreases keys.len(),
{
    if keys.len() > 0 {
        let t = keys.drop_first();
        lemma_first_in(t, set);
        match first_in(keys, set) {
            Some(k) => {
                if lookup(set, keys[0]) is Some {
                    assert(keys[0] == k);
                } else {
                    let i = choose|i: int| 0 <= i < t.len() && t[i] == k;
                    assert(keys[i + 1] == k);
                }
            },
            None => {
                assert forall|i: int| 0 <= i < keys.len() implies lookup(
                    set,
                    #[trigger] keys[i],
                ) is None by {
                    if i > 0 {
                        assert(t[i - 1] == keys[i]);
                    }
                }
            },
        }
    }
}

proof fn lemma_first_entangled(keys: Seq<Seq<u8>>, set: Seq<(Seq<u8>, ())>)
    ensures
        match first_entangled(keys, set) {
            Some(f) => exists|i: int|
                0 <= i < keys.len() && (some_above(#[trigger] keys[i], set) && f
                    == FaultModel::Removed(key_path(keys[i])) || some_below(keys[i], set) && f
                    == FaultModel::Blocks(key_path(keys[i]))),
            None => forall|i: int|
                0 <= i < keys.len() ==> !some_above(#[trigger] keys[i], set) && !some_below(
                    keys[i],
                    set,
                ),
        },
    decreases keys.len(),
{
    if keys.len() > 0 {
        let t = keys.drop_first();
        lemma_first_entangled(t, set);
        if some_above(keys[0], set) || some_below(keys[0], set) {
            assert(keys[0] == keys[0]);
        } else {
            match first_entangled(keys, set) {
                Some(f) => {
                    let i = choose|i: int|
                        0 <= i < t.len() && (some_above(#[trigger] t[i], set) && f
                            == FaultModel::Removed(key_path(t[i])) || some_below(t[i], set) && f
                            == FaultModel::Blocks(key_path(t[i])));
                    assert(keys[i + 1] == t[i]);
                },
                None => {
                    assert forall|i: int| 0 <= i < keys.len() implies !some_above(
                        #[trigger] keys[i],
                        set,
                    ) && !some_below(keys[i], set) by {
                        if i > 0 {
                            assert(t[i - 1] == keys[i]);
                        }
                    }
                },
            }
        }
    }
}

/// Whether an untracked file is in the way of a new path: at it, below it or above it.
pub open spec fn in_the_way(
    old_paths: Seq<Seq<u8>>,
    new_paths: Seq<Seq<u8>>,
    work: Seq<Seq<u8>>,
    i: int,
    j: int,
) -> bool {
    let u = path_key(work[i]);
    let p = path_key(new_paths[j]);
    &&& 0 <= i < work.len() && 0 <= j < new_paths.len()
    &&& !(exists|k: int| 0 <= k < old_paths.len() && path_key(#[trigger] old_paths[k]) == u)
    &&& u == p || below(u, p) || below(p, u)
}

/// A checkout is refused on account of untracked files just where one of them is in the way of a
/// path that has to be written.
pub proof fn law_refused_for_untracked(
    old_paths: Seq<Seq<u8>>,
    new_paths: Seq<Seq<u8>>,
    work: Seq<Seq<u8>>,
)
    ensures
        untracked_fault(path_set(old_paths), path_set(new_paths), path_set(work)) is Some
            <==> exists|i: int, j: int| #[trigger] in_the_way(old_paths, new_paths, work, i, j),
{
    let a = path_set(old_paths);
    let b = path_set(new_paths);
    let w = path_set(work);
    let keys = keys_without(w, a);
    lemma_path_set(old_paths);
    lemma_path_set(new_paths);
    lemma_path_set(work);
    lemma_keys_without(w, a);
    lemma_first_in(keys, b);
    lemma_first_entangled(keys, b);
    if untracked_fault(a, b, w) is Some {
        let (u, p) = if first_in(keys, b) is Some {
            (first_in(keys, b)->Some_0, first_in(keys, b)->Some_0)
        } else {
            let f = first_entangled(keys, b)->Some_0;
            let i = choose|i: int|
                0 <= i < keys.len() && (some_above(#[trigger] keys[i], b) && f
                    == FaultModel::Removed(key_path(keys[i])) || some_below(keys[i], b) && f
                    == FaultModel::Blocks(key_path(keys[i])));
            let k = keys[i];
            if some_above(k, b) {
                let m = choose|m: int| 0 <= m < b.len() && below(k, (#[trigger] b[m]).0);
                (k, b[m].0)
            } else {
                let m = choose|m: int| 0 <= m < b.len() && below((#[trigger] b[m]).0, k);
                (k, b[m].0)
            }
        };
        assert(keys.contains(u));
        assert(has_key(w, u) && lookup(a, u) is None);
        lemma_lookup_has_key(w, u);
        assert(lookup(w, u) is Some);
        assert(lookup(b, p) is Some) by {
            if first_in(keys, b) is None {
                let m = choose|m: int| 0 <= m < b.len() && (#[trigger] b[m]).0 == p;
                lemma_lookup_at(b, m);
            }
        }
        let i = choose|i: int| 0 <= i < work.len() && path_key(#[trigger] work[i]) == u;
        let j = choose|j: int| 0 <= j < new_paths.len() && path_key(#[trigger] new_paths[j]) == p;
        assert(in_the_way(old_paths, new_paths, work, i, j));
    }
    if exists|i: int, j: int| #[trigger] in_the_way(old_paths, new_paths, work, i, j) {
        let (i, j) = choose|i: int, j: int| #[trigger]
            in_the_way(old_paths, new_paths, work, i, j);
        let u = path_key(work[i]);
        let p = path_key(new_paths[j]);
        assert(lookup(w, u) is Some);
        lemma_lookup_has_key(w, u);
        assert(lookup(a, u) is None);
        assert(keys.contains(u));
        let k = choose|k: int| 0 <= k < keys.len() && keys[k] == u;
        assert(lookup(b, p) is Some);
        lemma_lookup_has_key(b, p);
        let m = choose|m: int| 0 <= m < b.len() && (#[trigger] b[m]).0 == p;
        if u != p {
            assert(below(u, b[m].0) || below(b[m].0, u));
            assert(some_above(keys[k], b) || some_below(keys[k], b));
        }
    }
}

/// The directories that a path is in are all its beginnings that end before a slash, the longest
/// first.
pub proof fn law_parent_dirs(p: Seq<u8>)
    ensures
        forall|i: int|
            0 <= i < parent_dirs(p).len() ==> {
                let d = #[trigger] parent_dirs(p)[i];
                0 < d.len() < p.len() && p[d.len() as int] == 0x2f && d == p.subrange(
                    0,
                    d.len() as int,
                )
            },
        forall|n: int|
            0 < n < p.len() && #[trigger] p[n] == 0x2f ==> parent_dirs(p).contains(p.subrange(0, n)),
        forall|i: int, j: int|
            0 <= i < j < parent_dirs(p).len() ==> (#[trigger] parent_dirs(p)[i]).len() > (
            #[trigger] parent_dirs(p)[j]).len(),
    decreases p.len(),
{
    let k = rfind_before(p, 0x2f, p.len() as int);
    crate::bytes::lemma_rfind_before(p, 0x2f, p.len() as int);
    if 0 < k < p.len() {
        let q = p.subrange(0, k);
        let rest = parent_dirs(q);
        let all = parent_dirs(p);
        law_parent_dirs(q);
        assert(all == seq![q] + rest);
        assert forall|i: int| 0 <= i < all.len() implies {
            let d = #[trigger] all[i];
            0 < d.len() < p.len() && p[d.len() as int] == 0x2f && d == p.subrange(0, d.len() as int)
        } by {
            if i > 0 {
                let d = rest[i - 1];
                assert(all[i] == d);
                assert(q.subrange(0, d.len() as int) =~= p.subrange(0, d.len() as int));
            }
        }
        assert forall|n: int| 0 < n < p.len() && #[trigger] p[n] == 0x2f implies all.contains(
            p.subrange(0, n),
        ) by {
            if n == k {
                assert(all[0] == p.subrange(0, n));
            } else {
                assert(n < k);
                assert(q[n] == 0x2f);
                let d = q.subrange(0, n);
                assert(d =~= p.subrange(0, n));
                let m = choose|m: int| 0 <= m < rest.len() && rest[m] == d;
                assert(all[m + 1] == d);
            }
        }
        assert forall|i: int, j: int| 0 <= i < j < all.len() implies (#[trigger] all[i]).len() > (
        #[trigger] all[j]).len() by {
            assert(all[j] == rest[j - 1]);
            if i > 0 {
                assert(all[i] == rest[i - 1]);
            }
        }
    }
}

/// With a file that is taken away go the directories that it was in, as far as they are left empty.
pub proof fn law_removal_dirs(
    old_set: Seq<(Seq<u8>, ())>,
    new_set: Seq<(Seq<u8>, ())>,
    i: int,
)
    requires
        0 <= i < removals(old_set, new_set).len(),
    ensures
        removals(old_set, new_set)[i].1 == parent_dirs(removals(old_set, new_set)[i].0),
{
}

/// What is named by an id is that commit, and any other name is that of a branch.
pub proof fn law_target_named(oid: ObjectSha, name: Seq<char>)
    ensures
        target_named(hex_of(oid@)) == TargetModel::Commit(oid),
        oid_from_hex(name) is None ==> target_named(name) == TargetModel::Branch(name),
{
    lemma_oid_hex_round_trip(oid);
}

} // verus!
