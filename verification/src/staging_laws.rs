//! What is staged for some paths: every file below them, once, with its content.
use crate::ignore::{ignored, RulesModel};
use crate::index::{
    entry_of_file, law_staged_once, mode_of_stat, staged_entry, with_file, EntryModel, IndexError,
    IndexModel,
};
use crate::object::{framed, oid_of_raw};
use crate::path_set::{lemma_key_path, lemma_path_set, path_key, path_set};
use crate::staging::{
    all_leaves, canon_of, entry_of, in_order, in_repo, leaves_at, leaves_upto, passed_over,
    stage_list, staged_files, StageModel, WorkModel,
};
use crate::status::lemma_staged_entry;
use crate::unix_path::pushed;
use crate::walks::{leads, lemma_leads_here, lemma_leads_on, lemma_way};
use vstd::prelude::*;
use vstd::utf8::encode_utf8;

verus! {

/// What is found in the file system along a way: at each step, which of the names of a directory is
/// taken.
pub open spec fn work_at(n: WorkModel, way: Seq<int>) -> Option<WorkModel>
    decreases way.len(),
{
    if way.len() == 0 {
        Some(n)
    } else {
        match n {
            WorkModel::Dir { children, .. } => if 0 <= way[0] < children.len() {
                work_at(children[way[0]].1, way.drop_first())
            } else {
                None
            },
            _ => None,
        }
    }
}

/// The path of what is found along a way.
pub open spec fn work_path(path: Seq<u8>, n: WorkModel, way: Seq<int>) -> Seq<u8>
    decreases way.len(),
{
    if way.len() == 0 {
        path
    } else {
        match n {
            WorkModel::Dir { children, .. } => work_path(
                pushed(path, children[way[0]].0),
                children[way[0]].1,
                way.drop_first(),
            ),
            _ => path,
        }
    }
}

/// Whether no step of a way leads into a repository: neither to a name of one nor to where the
/// repository is.
pub open spec fn work_open(n: WorkModel, git_abs: Seq<u8>, way: Seq<int>) -> bool
    decreases way.len(),
{
    way.len() > 0 ==> match n {
        WorkModel::Dir { children, .. } => {
            let (name, child) = children[way[0]];
            &&& name != encode_utf8(".git"@)
            &&& name != encode_utf8(".gift"@)
            &&& !in_repo(git_abs, canon_of(child))
            &&& work_open(child, git_abs, way.drop_first())
        },
        _ => true,
    }
}

/// Whether a way leads to a file or link that is to be staged.
pub open spec fn is_leaf_at(n: WorkModel, git_abs: Seq<u8>, way: Seq<int>) -> bool {
    work_at(n, way) matches Some(WorkModel::Leaf { .. }) && work_open(n, git_abs, way)
}

spec fn leaf_right(path: Seq<u8>, n: WorkModel, git_abs: Seq<u8>) -> spec_fn(
    Seq<int>,
    Seq<u8>,
) -> bool {
    |way: Seq<int>, p: Seq<u8>| is_leaf_at(n, git_abs, way) && p == work_path(path, n, way)
}

spec fn leaf_must(n: WorkModel, git_abs: Seq<u8>) -> spec_fn(Seq<int>) -> bool {
    |way: Seq<int>| is_leaf_at(n, git_abs, way)
}

spec fn child_right(
    path: Seq<u8>,
    children: Seq<(Seq<u8>, WorkModel)>,
    n: int,
    git_abs: Seq<u8>,
) -> spec_fn(Seq<int>, Seq<u8>) -> bool {
    |way: Seq<int>, p: Seq<u8>|
        way.len() > 0 && 0 <= way[0] < n && !passed_over(
            git_abs,
            children[way[0]].0,
            canon_of(children[way[0]].1),
        ) && is_leaf_at(children[way[0]].1, git_abs, way.drop_first()) && p == work_path(
            pushed(path, children[way[0]].0),
            children[way[0]].1,
            way.drop_first(),
        )
}

spec fn child_must(children: Seq<(Seq<u8>, WorkModel)>, n: int, git_abs: Seq<u8>) -> spec_fn(
    Seq<int>,
) -> bool {
    |way: Seq<int>|
        way.len() > 0 && 0 <= way[0] < n && !passed_over(
            git_abs,
            children[way[0]].0,
            canon_of(children[way[0]].1),
        ) && is_leaf_at(children[way[0]].1, git_abs, way.drop_first())
}

proof fn lemma_leaves(path: Seq<u8>, n: WorkModel, git_abs: Seq<u8>, recursive: bool) -> (at: Seq<
    Seq<int>,
>)
    requires
        leaves_at(path, n, git_abs, recursive) is Ok,
    ensures
        leads(
            at,
            leaves_at(path, n, git_abs, recursive)->Ok_0,
            leaf_right(path, n, git_abs),
            leaf_must(n, git_abs),
        ),
    decreases n, 0int,
{
    let right = leaf_right(path, n, git_abs);
    let must = leaf_must(n, git_abs);
    let none = Seq::<int>::empty();
    match n {
        WorkModel::Leaf { .. } => {
            assert(work_at(n, none) == Some(n) && work_open(n, git_abs, none));
            assert(work_path(path, n, none) == path);
            lemma_leads_here(path, right, must)
        },
        WorkModel::Other { .. } => Seq::empty(),
        WorkModel::Dir { canon, children } => {
            let at = lemma_children(path, children, children.len() as int, git_abs, recursive);
            let met = leaves_at(path, n, git_abs, recursive)->Ok_0;
            assert forall|i: int| 0 <= i < at.len() implies right(#[trigger] at[i], met[i]) by {
                assert(child_right(path, children, children.len() as int, git_abs)(at[i], met[i]));
            }
            assert forall|l: Seq<int>| #[trigger] must(l) implies at.contains(l) by {
                assert(l.len() > 0) by {
                    if l.len() == 0 {
                        assert(work_at(n, l) == Some(n));
                    }
                }
                assert(child_must(children, children.len() as int, git_abs)(l));
            }
            at
        },
    }
}

proof fn lemma_children(
    path: Seq<u8>,
    children: Seq<(Seq<u8>, WorkModel)>,
    n: int,
    git_abs: Seq<u8>,
    recursive: bool,
) -> (at: Seq<Seq<int>>)
    requires
        0 <= n <= children.len(),
        leaves_upto(path, children, n, git_abs, recursive) is Ok,
    ensures
        leads(
            at,
            leaves_upto(path, children, n, git_abs, recursive)->Ok_0,
            child_right(path, children, n, git_abs),
            child_must(children, n, git_abs),
        ),
    decreases children, n,
{
    let right = child_right(path, children, n, git_abs);
    let must = child_must(children, n, git_abs);
    if n == 0 {
        Seq::empty()
    } else {
        let before = lemma_children(path, children, n - 1, git_abs, recursive);
        let first = leaves_upto(path, children, n - 1, git_abs, recursive)->Ok_0;
        let (name, child) = children[n - 1];
        assert forall|i: int| 0 <= i < before.len() implies right(#[trigger] before[i], first[i]) && (
        before[i]).len() > 0 && before[i][0] != n - 1 by {
            assert(child_right(path, children, n - 1, git_abs)(before[i], first[i]));
        }
        if passed_over(git_abs, name, canon_of(child)) {
            assert forall|l: Seq<int>| #[trigger] must(l) implies before.contains(l) by {
                assert(child_must(children, n - 1, git_abs)(l));
            }
            before
        } else {
            let sub = pushed(path, name);
            assert(decreases_to!(children => children[n - 1]));
            assert(decreases_to!(children[n - 1] => children[n - 1].1));
            let here = lemma_leaves(sub, child, git_abs, recursive);
            let then = leaves_at(sub, child, git_abs, recursive)->Ok_0;
            assert forall|i: int| 0 <= i < here.len() implies right(
                seq![n - 1] + #[trigger] here[i],
                then[i],
            ) by {
                lemma_way(n - 1, here[i]);
                assert(leaf_right(sub, child, git_abs)(here[i], then[i]));
            }
            assert forall|l: Seq<int>| #[trigger] must(l) implies l.len() > 0 && if l[0] == n - 1 {
                here.contains(l.drop_first())
            } else {
                before.contains(l)
            } by {
                if l[0] == n - 1 {
                    assert(leaf_must(child, git_abs)(l.drop_first()));
                } else {
                    assert(child_must(children, n - 1, git_abs)(l));
                }
            }
            lemma_leads_on(before, first, n - 1, here, then, right, must)
        }
    }
}

/// The files and links below a path are all found, each once, outside of repositories: `at` are the
/// ways to them.
pub proof fn law_leaves_found(path: Seq<u8>, n: WorkModel, git_abs: Seq<u8>, recursive: bool)
    requires
        leaves_at(path, n, git_abs, recursive) is Ok,
    ensures
        ({
            let found = leaves_at(path, n, git_abs, recursive)->Ok_0;
            exists|at: Seq<Seq<int>>|
                #[trigger] at.len() == found.len() && at.no_duplicates() && (forall|i: int|
                    0 <= i < at.len() ==> is_leaf_at(n, git_abs, #[trigger] at[i]) && found[i]
                        == work_path(path, n, at[i])) && (forall|way: Seq<int>| #[trigger]
                    is_leaf_at(n, git_abs, way) ==> at.contains(way))
        }),
{
    let found = leaves_at(path, n, git_abs, recursive)->Ok_0;
    let at = lemma_leaves(path, n, git_abs, recursive);
    assert forall|i: int| 0 <= i < at.len() implies is_leaf_at(n, git_abs, #[trigger] at[i])
        && found[i] == work_path(path, n, at[i]) by {
        assert(leaf_right(path, n, git_abs)(at[i], found[i]));
    }
    assert forall|way: Seq<int>| #[trigger] is_leaf_at(n, git_abs, way) implies at.contains(way) by {
        assert(leaf_must(n, git_abs)(way));
    }
    assert(at.len() == found.len());
}

/// Whether nothing along the open ways keeps the files below a path from being staged: everything is
/// a file, a link or a directory, no directory is in the repository, and directories are to be gone
/// into where there are any.
pub open spec fn can_be_walked(n: WorkModel, git_abs: Seq<u8>, recursive: bool) -> bool {
    forall|way: Seq<int>|
        work_open(n, git_abs, way) ==> match #[trigger] work_at(n, way) {
            Some(WorkModel::Other { .. }) => false,
            Some(WorkModel::Dir { canon, .. }) => recursive && !in_repo(git_abs, canon),
            _ => true,
        }
}

/// The files below a path are found just where nothing keeps them from being staged.
pub proof fn law_leaves_succeed(path: Seq<u8>, n: WorkModel, git_abs: Seq<u8>, recursive: bool)
    ensures
        leaves_at(path, n, git_abs, recursive) is Ok <==> can_be_walked(n, git_abs, recursive),
    decreases n, 0int,
{
    let none = Seq::<int>::empty();
    assert(work_open(n, git_abs, none) && work_at(n, none) == Some(n));
    match n {
        WorkModel::Leaf { .. } => {
            assert forall|way: Seq<int>| work_open(n, git_abs, way) implies match #[trigger] work_at(
                n,
                way,
            ) {
                Some(WorkModel::Other { .. }) => false,
                Some(WorkModel::Dir { canon, .. }) => recursive && !in_repo(git_abs, canon),
                _ => true,
            } by {}
        },
        WorkModel::Other { .. } => {},
        WorkModel::Dir { canon, children } => {
            lemma_children_succeed(path, children, children.len() as int, git_abs, recursive);
            let each = |i: int|
                passed_over(git_abs, children[i].0, canon_of(children[i].1)) || can_be_walked(
                    children[i].1,
                    git_abs,
                    recursive,
                );
            if can_be_walked(n, git_abs, recursive) {
                assert forall|i: int| 0 <= i < children.len() implies #[trigger] each(i) by {
                    let c = children[i].1;
                    if !passed_over(git_abs, children[i].0, canon_of(c)) {
                        assert forall|way: Seq<int>| work_open(c, git_abs, way) implies match
                        #[trigger] work_at(c, way) {
                            Some(WorkModel::Other { .. }) => false,
                            Some(WorkModel::Dir { canon, .. }) => recursive && !in_repo(
                                git_abs,
                                canon,
                            ),
                            _ => true,
                        } by {
                            lemma_way(i, way);
                            let whole = seq![i] + way;
                            assert(work_at(n, whole) == work_at(c, way));
                            assert(work_open(n, git_abs, whole));
                        }
                    }
                }
            }
            assert((forall|i: int| 0 <= i < children.len() ==> #[trigger] each(i)) <==> leaves_upto(
                path,
                children,
                children.len() as int,
                git_abs,
                recursive,
            ) is Ok) by {
                assert forall|i: int| #[trigger] each(i) == (passed_over(
                    git_abs,
                    children[i].0,
                    canon_of(children[i].1),
                ) || can_be_walked(children[i].1, git_abs, recursive)) by {}
                if forall|i: int| 0 <= i < children.len() ==> #[trigger] each(i) {
                    assert forall|i: int| 0 <= i < children.len() implies passed_over(
                        git_abs,
                        (#[trigger] children[i]).0,
                        canon_of(children[i].1),
                    ) || can_be_walked(children[i].1, git_abs, recursive) by {
                        assert(each(i));
                    }
                }
            }
            if leaves_at(path, n, git_abs, recursive) is Ok {
                assert forall|way: Seq<int>| work_open(n, git_abs, way) implies match
                #[trigger] work_at(n, way) {
                    Some(WorkModel::Other { .. }) => false,
                    Some(WorkModel::Dir { canon, .. }) => recursive && !in_repo(git_abs, canon),
                    _ => true,
                } by {
                    if way.len() > 0 && 0 <= way[0] < children.len() {
                        let r = way.drop_first();
                        let c = children[way[0]].1;
                        assert(work_at(n, way) == work_at(c, r));
                        assert(each(way[0]));
                        assert(work_open(c, git_abs, r));
                    }
                }
            }
        },
    }
}

proof fn lemma_children_succeed(
    path: Seq<u8>,
    children: Seq<(Seq<u8>, WorkModel)>,
    n: int,
    git_abs: Seq<u8>,
    recursive: bool,
)
    requires
        0 <= n <= children.len(),
    ensures
        leaves_upto(path, children, n, git_abs, recursive) is Ok <==> forall|i: int|
            0 <= i < n ==> passed_over(
                git_abs,
                (#[trigger] children[i]).0,
                canon_of(children[i].1),
            ) || can_be_walked(children[i].1, git_abs, recursive),
    decreases children, n,
{
    if n > 0 {
        lemma_children_succeed(path, children, n - 1, git_abs, recursive);
        let c = children[n - 1];
        assert(decreases_to!(children => children[n - 1]));
        assert(decreases_to!(children[n - 1] => children[n - 1].1));
        law_leaves_succeed(pushed(path, c.0), c.1, git_abs, recursive);
    }
}

proof fn lemma_all_leaves(
    roots: Seq<(Seq<u8>, WorkModel)>,
    git_abs: Seq<u8>,
    recursive: bool,
    p: Seq<u8>,
)
    requires
        all_leaves(roots, git_abs, recursive) is Ok,
    ensures
        all_leaves(roots, git_abs, recursive)->Ok_0.contains(p) <==> exists|i: int, way: Seq<int>|
            0 <= i < roots.len() && #[trigger] is_leaf_at(roots[i].1, git_abs, way) && p
                == work_path(roots[i].0, roots[i].1, way),
    decreases roots.len(),
{
    let all = all_leaves(roots, git_abs, recursive)->Ok_0;
    if roots.len() > 0 {
        let t = roots.drop_last();
        let (path, n) = roots.last();
        lemma_all_leaves(t, git_abs, recursive, p);
        let before = all_leaves(t, git_abs, recursive)->Ok_0;
        let more = leaves_at(path, n, git_abs, recursive)->Ok_0;
        let at = lemma_leaves(path, n, git_abs, recursive);
        if all.contains(p) {
            let k = choose|k: int| 0 <= k < all.len() && all[k] == p;
            if k < before.len() {
                assert(before[k] == p);
                let (i, way) = choose|i: int, way: Seq<int>|
                    0 <= i < t.len() && #[trigger] is_leaf_at(t[i].1, git_abs, way) && p
                        == work_path(t[i].0, t[i].1, way);
                assert(roots[i] == t[i]);
                assert(is_leaf_at(roots[i].1, git_abs, way));
            } else {
                let m = k - before.len();
                assert(more[m] == p);
                assert(leaf_right(path, n, git_abs)(at[m], more[m]));
                assert(roots[roots.len() - 1] == (path, n));
                assert(is_leaf_at(roots[roots.len() - 1].1, git_abs, at[m]));
            }
        }
        if exists|i: int, way: Seq<int>|
            0 <= i < roots.len() && #[trigger] is_leaf_at(roots[i].1, git_abs, way) && p
                == work_path(roots[i].0, roots[i].1, way) {
            let (i, way) = choose|i: int, way: Seq<int>|
                0 <= i < roots.len() && #[trigger] is_leaf_at(roots[i].1, git_abs, way) && p
                    == work_path(roots[i].0, roots[i].1, way);
            if i < t.len() {
                assert(t[i] == roots[i]);
                assert(is_leaf_at(t[i].1, git_abs, way));
                let k = choose|k: int| 0 <= k < before.len() && before[k] == p;
                assert(all[k] == p);
            } else {
                assert(roots[i] == (path, n));
                assert(leaf_must(n, git_abs)(way));
                let m = choose|m: int| 0 <= m < at.len() && at[m] == way;
                assert(leaf_right(path, n, git_abs)(at[m], more[m]));
                assert(all[before.len() + m] == p);
            }
        }
    }
}

/// The files to stage for some paths are all files and links at and below them, and no others.
pub proof fn law_stage_list(
    roots: Seq<(Seq<u8>, WorkModel)>,
    git_abs: Seq<u8>,
    recursive: bool,
    p: Seq<u8>,
)
    requires
        stage_list(roots, git_abs, recursive) is Ok,
        forall|q: Seq<u8>| all_leaves(roots, git_abs, recursive)->Ok_0.contains(q) ==> !q.contains(0),
    ensures
        stage_list(roots, git_abs, recursive)->Ok_0.contains(p) <==> exists|i: int, way: Seq<int>|
            0 <= i < roots.len() && #[trigger] is_leaf_at(roots[i].1, git_abs, way) && p
                == work_path(roots[i].0, roots[i].1, way),
{
    let paths = all_leaves(roots, git_abs, recursive)->Ok_0;
    let out = in_order(paths);
    let set = path_set(paths);
    lemma_all_leaves(roots, git_abs, recursive, p);
    lemma_path_set(paths);
    if out.contains(p) {
        let i = choose|i: int| 0 <= i < out.len() && out[i] == p;
        crate::byte_map::lemma_lookup_at(set, i);
        assert(crate::byte_map::lookup(set, set[i].0) is Some);
        let k = choose|k: int| 0 <= k < paths.len() && path_key(#[trigger] paths[k]) == set[i].0;
        assert(paths.contains(paths[k]));
        lemma_key_path(paths[k]);
        assert(paths[k] == p);
    }
    if paths.contains(p) {
        lemma_key_path(p);
        let k = choose|k: int| 0 <= k < paths.len() && paths[k] == p;
        assert(path_key(paths[k]) == path_key(p));
        assert(crate::byte_map::lookup(set, path_key(p)) is Some);
        let r = crate::byte_map::rank(set, path_key(p));
        assert(set[r].0 == path_key(p));
        assert(out[r] == p);
    }
}

/// Whether a path has just one entry, and this is it.
pub open spec fn only_entry(entries: Seq<EntryModel>, e: EntryModel) -> bool {
    &&& entries.contains(e)
    &&& forall|k: int| 0 <= k < entries.len() && (#[trigger] entries[k]).path == e.path ==> entries[k]
        == e
}

proof fn lemma_counts(entries: Seq<EntryModel>)
    ensures
        forall|e: EntryModel| #[trigger] entries.contains(e) <==> entries.to_multiset().count(e) > 0,
{
    entries.to_multiset_ensures();
}

proof fn lemma_only_staged(
    entries: Seq<EntryModel>,
    s: crate::index::FileStat,
    path: Seq<u8>,
    oid: crate::object::ObjectSha,
)
    ensures
        only_entry(with_file(entries, s, path, oid), entry_of_file(s, path, oid)),
        forall|e: EntryModel|
            e.path != path && #[trigger] only_entry(entries, e) ==> only_entry(
                with_file(entries, s, path, oid),
                e,
            ),
        forall|e: EntryModel|
            e.path != path ==> (#[trigger] entries.contains(e) <==> with_file(
                entries,
                s,
                path,
                oid,
            ).contains(e)),
{
    let all = with_file(entries, s, path, oid);
    let e0 = entry_of_file(s, path, oid);
    law_staged_once(entries, s, path, oid);
    lemma_counts(all);
    lemma_counts(entries);
    assert(all.to_multiset().count(e0) == 1);
    assert(all.contains(e0));
    assert forall|k: int| 0 <= k < all.len() && (#[trigger] all[k]).path == path implies all[k]
        == e0 by {
        assert(all.contains(all[k]));
        assert(all.to_multiset().count(all[k]) > 0);
    }
    assert forall|e: EntryModel| e.path != path implies (#[trigger] entries.contains(e)
        <==> all.contains(e)) by {
        assert(all.to_multiset().count(e) == entries.to_multiset().count(e));
    }
    assert forall|e: EntryModel| e.path != path && #[trigger] only_entry(entries, e) implies only_entry(
        all,
        e,
    ) by {
        assert(entries.contains(e));
        assert forall|k: int| 0 <= k < all.len() && (#[trigger] all[k]).path == e.path implies all[k]
            == e by {
            assert(all.contains(all[k]));
            assert(entries.contains(all[k]));
            let j = choose|j: int| 0 <= j < entries.len() && entries[j] == all[k];
            assert(entries[j].path == e.path);
        }
    }
}

proof fn lemma_stays_staged(
    index: IndexModel,
    git_abs: Seq<u8>,
    rules: RulesModel,
    files: Seq<StageModel>,
    path: Seq<u8>,
)
    requires
        staged_files(index, git_abs, rules, files) is Ok,
        staged_entry(index.entries, path) is Some,
    ensures
        staged_entry(staged_files(index, git_abs, rules, files)->Ok_0.index.entries, path) is Some,
    decreases files.len(),
{
    if files.len() > 0 {
        let t = files.drop_last();
        let f = files.last();
        lemma_stays_staged(index, git_abs, rules, t, path);
        let before = staged_files(index, git_abs, rules, t)->Ok_0.index.entries;
        let after = staged_files(index, git_abs, rules, files)->Ok_0.index.entries;
        let other = entry_of(rules.worktree, f.path)->Ok_0;
        let oid = oid_of_raw(framed("blob"@, f.content));
        lemma_only_staged(before, f.stat, other, oid);
        lemma_staged_entry(before, path);
        lemma_staged_entry(after, path);
        let e = if other == path && after != before {
            entry_of_file(f.stat, path, oid)
        } else {
            staged_entry(before, path)->Some_0
        };
        assert(after.contains(e));
        let k = choose|k: int| 0 <= k < after.len() && after[k] == e;
        assert(after[k].path == path && after[k].merge_stage == 0);
    }
}

/// Every file that is not ignored, or that the index has already, is staged: its path then has just
/// the entry that holds its mode and the id of its content, unless a later file has the same path,
/// and its content is among the blobs to store.
pub proof fn law_files_staged(
    index: IndexModel,
    git_abs: Seq<u8>,
    rules: RulesModel,
    files: Seq<StageModel>,
    i: int,
    path: Seq<u8>,
)
    requires
        staged_files(index, git_abs, rules, files) is Ok,
        0 <= i < files.len(),
        entry_of(rules.worktree, files[i].path) == Ok::<Seq<u8>, IndexError>(path),
        !ignored(rules, files[i].path) || staged_entry(index.entries, path) is Some,
        forall|j: int|
            i < j < files.len() ==> entry_of(rules.worktree, (#[trigger] files[j]).path) != Ok::<
                Seq<u8>,
                IndexError,
            >(path),
    ensures
        ({
            let s = staged_files(index, git_abs, rules, files)->Ok_0;
            let raw = framed("blob"@, files[i].content);
            let e = entry_of_file(files[i].stat, path, oid_of_raw(raw));
            &&& only_entry(s.index.entries, e)
            &&& staged_entry(s.index.entries, path) == Some(e)
            &&& e.path == path && e.obj_name == oid_of_raw(raw) && e.merge_stage == 0
            &&& e.file_mode == mode_of_stat(files[i].stat)->0
            &&& s.blobs.contains((oid_of_raw(raw), raw))
        }),
    decreases files.len(),
{
    let s = staged_files(index, git_abs, rules, files)->Ok_0;
    let t = files.drop_last();
    let f = files.last();
    let before = staged_files(index, git_abs, rules, t)->Ok_0;
    let raw = framed("blob"@, files[i].content);
    let oid = oid_of_raw(raw);
    let e = entry_of_file(files[i].stat, path, oid);
    if i == files.len() - 1 {
        if staged_entry(index.entries, path) is Some {
            lemma_stays_staged(index, git_abs, rules, t, path);
        }
        lemma_only_staged(before.index.entries, f.stat, path, oid);
        assert(s.blobs.last() == (oid, raw));
        assert(s.blobs[s.blobs.len() - 1] == (oid, raw));
    } else {
        assert(t[i] == files[i]);
        assert forall|j: int| i < j < t.len() implies entry_of(
            rules.worktree,
            (#[trigger] t[j]).path,
        ) != Ok::<Seq<u8>, IndexError>(path) by {
            assert(t[j] == files[j]);
        }
        law_files_staged(index, git_abs, rules, t, i, path);
        assert(files[files.len() - 1] == f);
        let k = choose|k: int| 0 <= k < before.blobs.len() && before.blobs[k] == (oid, raw);
        let other = entry_of(rules.worktree, f.path)->Ok_0;
        let new_oid = oid_of_raw(framed("blob"@, f.content));
        lemma_only_staged(before.index.entries, f.stat, other, new_oid);
        assert(s.blobs[k] == (oid, raw));
        assert(only_entry(s.index.entries, e));
    }
    lemma_staged_entry(s.index.entries, path);
    let k = choose|k: int| 0 <= k < s.index.entries.len() && s.index.entries[k] == e;
    assert(s.index.entries[k].path == path && s.index.entries[k].merge_stage == 0);
    let g = staged_entry(s.index.entries, path)->Some_0;
    let m = choose|m: int| 0 <= m < s.index.entries.len() && s.index.entries[m] == g;
    assert(s.index.entries[m].path == path);
}

/// The entries of a path stay as they are where no file with that path is staged: where each such
/// file is ignored and the index does not have it yet.
pub proof fn law_others_kept(
    index: IndexModel,
    git_abs: Seq<u8>,
    rules: RulesModel,
    files: Seq<StageModel>,
    e: EntryModel,
)
    requires
        staged_files(index, git_abs, rules, files) is Ok,
        forall|j: int|
            0 <= j < files.len() && entry_of(rules.worktree, (#[trigger] files[j]).path) == Ok::<
                Seq<u8>,
                IndexError,
            >(e.path) ==> ignored(rules, files[j].path) && staged_entry(index.entries, e.path) is None,
    ensures
        staged_files(index, git_abs, rules, files)->Ok_0.index.entries.contains(e)
            <==> index.entries.contains(e),
    decreases files.len(),
{
    if files.len() > 0 {
        let t = files.drop_last();
        let f = files.last();
        assert forall|j: int|
            0 <= j < t.len() && entry_of(rules.worktree, (#[trigger] t[j]).path) == Ok::<
                Seq<u8>,
                IndexError,
            >(e.path) implies ignored(rules, t[j].path) && staged_entry(
            index.entries,
            e.path,
        ) is None by {
            assert(t[j] == files[j]);
        }
        law_others_kept(index, git_abs, rules, t, e);
        let before = staged_files(index, git_abs, rules, t)->Ok_0;
        let path = entry_of(rules.worktree, f.path)->Ok_0;
        let oid = oid_of_raw(framed("blob"@, f.content));
        if path == e.path {
            assert(files[files.len() - 1] == f);
            assert(ignored(rules, f.path));
            assert(staged_entry(before.index.entries, path) is None) by {
                lemma_staged_entry(before.index.entries, path);
                lemma_staged_entry(index.entries, path);
                if let Some(g) = staged_entry(before.index.entries, path) {
                    law_others_kept(index, git_abs, rules, t, g);
                    let k = choose|k: int| 0 <= k < index.entries.len() && index.entries[k] == g;
                    assert(index.entries[k].path == path);
                }
            }
        } else {
            lemma_only_staged(before.index.entries, f.stat, path, oid);
        }
    }
}

} // verus!
