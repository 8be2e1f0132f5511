//! When nothing is staged: after a commit, which holds all that was, and after a checkout.
use crate::byte_map::{ascending, bind, lemma_bind, lemma_lookup_at, lookup};
use crate::checkout::{
    child_actions, law_checkout_writes_tree, node_actions, switched, written,
};
use crate::commit_object::{
    commit_at, commit_payload, law_commit_round_trip, writable_commit, CommitModel,
};
use crate::head::{current, head_in, HeadModel};
use crate::index::{
    entry_of_file, index_form, law_staged_once, staged_entry, with_file, EntryModel, FileStat,
    IndexError, IndexModel,
};
use crate::index_tree::{
    at_or_below, entries_of, height, law_index_tree, law_leaf_inserted, leaf_at, leaves_from,
    leaves_of, lemma_entries_writable, lemma_max_height, lemma_tree_ordered, max_height, node_entry,
    ordered, replaced, stored, tree_of_entries, NodeModel,
};
use crate::merge::{recorded, ActionModel};
use crate::object::{
    framed, git_order, law_tree_round_trip, lemma_frame_round_trip, tree_in, tree_payload,
    FileMode, ObjectError, ObjectSha, TreeEntry,
};
use crate::reference::RefError;
use crate::status::{
    head_files, law_nothing_staged, staged_changes, tree_files, with_entry_files,
    with_tree_files, ChangeType,
};
use crate::unix_path::{components, file_name, joined, parent_components, pushed};
use vstd::prelude::*;

verus! {

/// The path of what some names lead to from a directory.
pub open spec fn under(dir: Seq<u8>, names: Seq<Seq<u8>>) -> Seq<u8>
    decreases names.len(),
{
    if names.len() == 0 {
        dir
    } else {
        under(joined(dir, names[0]), names.drop_first())
    }
}

/// Whether a path is just its components, with slashes between them.
pub open spec fn plain_path(path: Seq<u8>) -> bool {
    under(Seq::empty(), components(path)) == path
}

/// The file that some names lead to from a node.
spec fn leaf_in(n: NodeModel, names: Seq<Seq<u8>>) -> Option<TreeEntry>
    decreases names.len(),
{
    match n {
        NodeModel::Blob(e) => if names.len() == 0 {
            Some(e)
        } else {
            None
        },
        NodeModel::Tree(c) => if names.len() == 0 {
            None
        } else {
            match lookup(c, names[0]) {
                Some(m) => leaf_in(m, names.drop_first()),
                None => None,
            }
        },
    }
}

proof fn lemma_leaf_in(c: Seq<(Seq<u8>, NodeModel)>, dirs: Seq<Seq<u8>>, name: Seq<u8>)
    ensures
        leaf_in(NodeModel::Tree(c), dirs.push(name)) == leaf_at(c, dirs, name),
    decreases dirs.len(),
{
    let names = dirs.push(name);
    reveal_with_fuel(leaf_in, 2);
    if dirs.len() == 0 {
        assert(names.drop_first() =~= Seq::empty());
    } else {
        assert(names[0] == dirs[0]);
        assert(names.drop_first() =~= dirs.drop_first().push(name));
        match lookup(c, dirs[0]) {
            Some(NodeModel::Tree(d)) => {
                lemma_leaf_in(d, dirs.drop_first(), name);
            },
            _ => {},
        }
    }
}

/// The files with those of a node added.
spec fn node_files(
    files: Seq<(Seq<u8>, ObjectSha)>,
    n: NodeModel,
    path: Seq<u8>,
) -> Seq<(Seq<u8>, ObjectSha)>
    decreases n, 0int,
{
    match n {
        NodeModel::Blob(e) => bind(files, path, e.object_name),
        NodeModel::Tree(c) => child_files(files, c, c.len() as int, path),
    }
}

/// The files with those of the first `k` nodes of a directory added.
spec fn child_files(
    files: Seq<(Seq<u8>, ObjectSha)>,
    c: Seq<(Seq<u8>, NodeModel)>,
    k: int,
    dir: Seq<u8>,
) -> Seq<(Seq<u8>, ObjectSha)>
    decreases c, k,
{
    if k <= 0 || k > c.len() {
        files
    } else {
        node_files(child_files(files, c, k - 1, dir), c[k - 1].1, joined(dir, c[k - 1].0))
    }
}

/// Whether no file of a node passes for a directory.
spec fn no_dir_leaves(n: NodeModel) -> bool {
    forall|names: Seq<Seq<u8>>| #[trigger]
        leaf_in(n, names) is Some ==> leaf_in(n, names)->Some_0.file_mode != FileMode::Directory
}

proof fn lemma_child_leaves(c: Seq<(Seq<u8>, NodeModel)>, i: int, names: Seq<Seq<u8>>)
    requires
        ascending(c),
        0 <= i < c.len(),
    ensures
        leaf_in(NodeModel::Tree(c), seq![c[i].0] + names) == leaf_in(c[i].1, names),
{
    let all = seq![c[i].0] + names;
    lemma_lookup_at(c, i);
    assert(all[0] == c[i].0);
    assert(all.drop_first() =~= names);
}

proof fn lemma_child_no_dirs(c: Seq<(Seq<u8>, NodeModel)>, i: int)
    requires
        ascending(c),
        0 <= i < c.len(),
        no_dir_leaves(NodeModel::Tree(c)),
    ensures
        no_dir_leaves(c[i].1),
{
    assert forall|names: Seq<Seq<u8>>| #[trigger] leaf_in(c[i].1, names) is Some implies leaf_in(
        c[i].1,
        names,
    )->Some_0.file_mode != FileMode::Directory by {
        lemma_child_leaves(c, i, names);
    }
}

proof fn lemma_entry_files_are(
    db: Map<ObjectSha, Seq<u8>>,
    files: Seq<(Seq<u8>, ObjectSha)>,
    n: NodeModel,
    path: Seq<u8>,
    depth: nat,
)
    requires
        ordered(n),
        stored(db, n),
        no_dir_leaves(n),
        height(n) <= depth,
    ensures
        with_entry_files(db, files, node_entry(n), path, depth) == Ok::<
            Seq<(Seq<u8>, ObjectSha)>,
            ObjectError,
        >(node_files(files, n, path)),
    decreases n, 0int,
{
    match n {
        NodeModel::Blob(e) => {
            assert(leaf_in(n, Seq::empty()) == Some(e));
        },
        NodeModel::Tree(c) => {
            lemma_tree_read(db, c);
            lemma_tree_files_are(db, files, c, c.len() as int, path, (depth - 1) as nat);
            let es = entries_of(c);
            assert(es.subrange(0, c.len() as int) =~= es);
        },
    }
}

/// The tree of a directory whose objects are stored is read back.
proof fn lemma_tree_read(db: Map<ObjectSha, Seq<u8>>, c: Seq<(Seq<u8>, NodeModel)>)
    requires
        ordered(NodeModel::Tree(c)),
        stored(db, NodeModel::Tree(c)),
    ensures
        tree_in(db, node_entry(NodeModel::Tree(c)).object_name) == Ok::<
            Seq<(Seq<u8>, TreeEntry)>,
            ObjectError,
        >(entries_of(c)),
{
    let es = entries_of(c);
    lemma_entries_writable(db, c);
    law_tree_round_trip(es, true);
    reveal_strlit("tree");
    lemma_frame_round_trip("tree"@, tree_payload(git_order(es)));
}

proof fn lemma_tree_files_are(
    db: Map<ObjectSha, Seq<u8>>,
    files: Seq<(Seq<u8>, ObjectSha)>,
    c: Seq<(Seq<u8>, NodeModel)>,
    k: int,
    dir: Seq<u8>,
    depth: nat,
)
    requires
        ordered(NodeModel::Tree(c)),
        stored(db, NodeModel::Tree(c)),
        no_dir_leaves(NodeModel::Tree(c)),
        0 <= k <= c.len(),
        max_height(c, c.len() as int) <= depth,
    ensures
        with_tree_files(db, files, entries_of(c).subrange(0, k), dir, depth) == Ok::<
            Seq<(Seq<u8>, ObjectSha)>,
            ObjectError,
        >(child_files(files, c, k, dir)),
    decreases c, k,
{
    let es = entries_of(c).subrange(0, k);
    if k > 0 {
        lemma_tree_files_are(db, files, c, k - 1, dir, depth);
        assert(es.drop_last() =~= entries_of(c).subrange(0, k - 1));
        assert(es.last() == (c[k - 1].0, node_entry(c[k - 1].1)));
        lemma_max_height(c, c.len() as int, k - 1);
        lemma_child_no_dirs(c, k - 1);
        assert(ordered(c[k - 1].1));
        assert(stored(db, c[k - 1].1));
        lemma_entry_files_are(
            db,
            child_files(files, c, k - 1, dir),
            c[k - 1].1,
            joined(dir, c[k - 1].0),
            depth,
        );
    }
}

/// Whether a file came from those that were there, or from a node.
spec fn comes_from(
    files: Seq<(Seq<u8>, ObjectSha)>,
    n: NodeModel,
    dir: Seq<u8>,
    p: Seq<u8>,
    o: ObjectSha,
) -> bool {
    ||| lookup(files, p) == Some(o)
    ||| exists|names: Seq<Seq<u8>>|
        (#[trigger] leaf_in(n, names)) matches Some(e) && e.object_name == o && p == under(
            dir,
            names,
        )
}

proof fn lemma_node_files(files: Seq<(Seq<u8>, ObjectSha)>, n: NodeModel, path: Seq<u8>)
    requires
        ascending(files),
        ordered(n),
    ensures
        ascending(node_files(files, n, path)),
        forall|p: Seq<u8>| #[trigger]
            lookup(files, p) is Some ==> lookup(node_files(files, n, path), p) is Some,
        forall|names: Seq<Seq<u8>>| #[trigger]
            leaf_in(n, names) is Some ==> lookup(
                node_files(files, n, path),
                under(path, names),
            ) is Some,
        forall|p: Seq<u8>| #[trigger]
            lookup(node_files(files, n, path), p) is Some ==> comes_from(
                files,
                n,
                path,
                p,
                lookup(node_files(files, n, path), p)->Some_0,
            ),
    decreases n, 0int,
{
    match n {
        NodeModel::Blob(e) => {
            lemma_bind(files, path, e.object_name);
            let all = node_files(files, n, path);
            assert(leaf_in(n, Seq::empty()) == Some(e));
            assert(under(path, Seq::empty()) == path);
            assert forall|names: Seq<Seq<u8>>| #[trigger]
                leaf_in(n, names) is Some implies lookup(all, under(path, names)) is Some by {
                assert(names =~= Seq::empty());
            }
            assert forall|p: Seq<u8>| #[trigger] lookup(all, p) is Some implies comes_from(
                files,
                n,
                path,
                p,
                lookup(all, p)->Some_0,
            ) by {
                if p != path {
                    assert(lookup(all, p) == lookup(files, p));
                }
            }
        },
        NodeModel::Tree(c) => {
            let all = node_files(files, n, path);
            lemma_child_files(files, c, c.len() as int, path);
            assert forall|names: Seq<Seq<u8>>| #[trigger]
                leaf_in(n, names) is Some implies lookup(all, under(path, names)) is Some by {
                let r = crate::byte_map::rank(c, names[0]);
                assert(c[r].0 == names[0]);
                assert(leaf_in(c[r].1, names.drop_first()) is Some);
            }
            assert forall|p: Seq<u8>| #[trigger] lookup(all, p) is Some implies comes_from(
                files,
                n,
                path,
                p,
                lookup(all, p)->Some_0,
            ) by {
                let o = lookup(all, p)->Some_0;
                assert(came_from(files, c, c.len() as int, path, p, o));
                if lookup(files, p) != Some(o) {
                    let (i, rest) = choose|i: int, rest: Seq<Seq<u8>>|
                        0 <= i < c.len() && ((#[trigger] leaf_in(c[i].1, rest)) matches Some(e)
                            && e.object_name == o && p == under(joined(path, c[i].0), rest));
                    lemma_child_leaves(c, i, rest);
                    let names = seq![c[i].0] + rest;
                    assert(names[0] == c[i].0);
                    assert(names.drop_first() =~= rest);
                    assert(leaf_in(n, names) == leaf_in(c[i].1, rest));
                }
            }
        },
    }
}

/// Whether a file came from those that were there, or from one of the first `k` nodes of a
/// directory.
spec fn came_from(
    files: Seq<(Seq<u8>, ObjectSha)>,
    c: Seq<(Seq<u8>, NodeModel)>,
    k: int,
    dir: Seq<u8>,
    p: Seq<u8>,
    o: ObjectSha,
) -> bool {
    ||| lookup(files, p) == Some(o)
    ||| exists|i: int, rest: Seq<Seq<u8>>|
        0 <= i < k && ((#[trigger] leaf_in(c[i].1, rest)) matches Some(e) && e.object_name == o && p
            == under(joined(dir, c[i].0), rest))
}

proof fn lemma_child_files(
    files: Seq<(Seq<u8>, ObjectSha)>,
    c: Seq<(Seq<u8>, NodeModel)>,
    k: int,
    dir: Seq<u8>,
)
    requires
        ascending(files),
        ordered(NodeModel::Tree(c)),
        0 <= k <= c.len(),
    ensures
        ascending(child_files(files, c, k, dir)),
        forall|p: Seq<u8>| #[trigger]
            lookup(files, p) is Some ==> lookup(child_files(files, c, k, dir), p) is Some,
        forall|i: int, rest: Seq<Seq<u8>>|
            0 <= i < k && #[trigger] leaf_in(c[i].1, rest) is Some ==> lookup(
                child_files(files, c, k, dir),
                under(joined(dir, c[i].0), rest),
            ) is Some,
        forall|p: Seq<u8>| #[trigger]
            lookup(child_files(files, c, k, dir), p) is Some ==> came_from(
                files,
                c,
                k,
                dir,
                p,
                lookup(child_files(files, c, k, dir), p)->Some_0,
            ),
    decreases c, k,
{
    if k > 0 {
        let before = child_files(files, c, k - 1, dir);
        let all = child_files(files, c, k, dir);
        let at = joined(dir, c[k - 1].0);
        lemma_child_files(files, c, k - 1, dir);
        assert(ordered(c[k - 1].1));
        lemma_node_files(before, c[k - 1].1, at);
        assert forall|i: int, rest: Seq<Seq<u8>>|
            0 <= i < k && #[trigger] leaf_in(c[i].1, rest) is Some implies lookup(
            all,
            under(joined(dir, c[i].0), rest),
        ) is Some by {
            if i < k - 1 {
                assert(lookup(before, under(joined(dir, c[i].0), rest)) is Some);
            }
        }
        assert forall|p: Seq<u8>| #[trigger] lookup(all, p) is Some implies came_from(
            files,
            c,
            k,
            dir,
            p,
            lookup(all, p)->Some_0,
        ) by {
            let o = lookup(all, p)->Some_0;
            assert(comes_from(before, c[k - 1].1, at, p, o));
            if lookup(before, p) == Some(o) {
                assert(came_from(files, c, k - 1, dir, p, o));
            }
        }
    }
}

/// What is below a file is no file.
proof fn lemma_nothing_below(c: Seq<(Seq<u8>, NodeModel)>, p: Seq<Seq<u8>>, q: Seq<Seq<u8>>)
    requires
        leaf_in(NodeModel::Tree(c), q) is Some,
        at_or_below(p, q),
        p != q,
    ensures
        leaf_in(NodeModel::Tree(c), p) is None,
    decreases q.len(),
{
    reveal_with_fuel(leaf_in, 2);
    assert(q.len() > 0);
    assert(p.subrange(0, q.len() as int)[0] == p[0]);
    let n = lookup(c, q[0])->Some_0;
    let p1 = p.drop_first();
    let q1 = q.drop_first();
    assert(p1.subrange(0, q1.len() as int) =~= p.subrange(0, q.len() as int).drop_first());
    assert(p1 != q1) by {
        if p1 == q1 {
            assert(p =~= seq![p[0]] + p1);
            assert(q =~= seq![q[0]] + q1);
        }
    }
    match n {
        NodeModel::Blob(_) => {
            assert(q1.len() == 0);
            assert(p1.len() > 0) by {
                if p1.len() == 0 {
                    assert(p1 =~= q1);
                }
            }
        },
        NodeModel::Tree(d) => {
            lemma_nothing_below(d, p1, q1);
        },
    }
}

/// The leaf for an entry of an index.
spec fn leaf_of(e: EntryModel) -> TreeEntry {
    TreeEntry { file_mode: e.file_mode, object_name: e.obj_name }
}

/// Every file of the tree of an index is one of its entries.
proof fn lemma_leaves_are_entries(entries: Seq<EntryModel>, names: Seq<Seq<u8>>) -> (i: int)
    requires
        tree_of_entries(entries, true) is Ok,
        leaf_in(NodeModel::Tree(tree_of_entries(entries, true)->Ok_0), names) is Some,
    ensures
        0 <= i < entries.len(),
        components(entries[i].path) == names,
        leaf_in(NodeModel::Tree(tree_of_entries(entries, true)->Ok_0), names) == Some(
            leaf_of(entries[i]),
        ),
    decreases entries.len(),
{
    if entries.len() == 0 {
        let none = Seq::<(Seq<u8>, NodeModel)>::empty();
        assert(lookup(none, names[0]) is None);
        0
    } else {
        let front = entries.drop_last();
        let e = entries.last();
        let c = tree_of_entries(front, true)->Ok_0;
        let d = tree_of_entries(entries, true)->Ok_0;
        let dirs = parent_components(e.path);
        let name = file_name(e.path)->Some_0;
        let q = dirs.push(name);
        lemma_tree_ordered(front, true);
        law_leaf_inserted(c, dirs, name, leaf_of(e));
        assert(q =~= components(e.path));
        lemma_leaf_in(d, dirs, name);
        if names == q {
            entries.len() - 1
        } else {
            if at_or_below(names, q) {
                lemma_nothing_below(d, names, q);
            }
            assert(names.len() > 0);
            let dirs2 = names.drop_last();
            assert(dirs2.push(names.last()) =~= names);
            lemma_leaf_in(d, dirs2, names.last());
            lemma_leaf_in(c, dirs2, names.last());
            assert(!at_or_below(dirs2.push(names.last()), q));
            assert(leaf_at(d, dirs2, names.last()) == leaf_at(c, dirs2, names.last()));
            let i = lemma_leaves_are_entries(front, names);
            assert(front[i] == entries[i]);
            i
        }
    }
}

proof fn lemma_staged(entries: Seq<EntryModel>, i: int)
    requires
        0 <= i < entries.len(),
        entries[i].merge_stage == 0,
    ensures
        staged_entry(entries, entries[i].path) is Some,
    decreases entries.len(),
{
    if i > 0 {
        let rest = entries.drop_first();
        assert(rest[i - 1] == entries[i]);
        lemma_staged(rest, i - 1);
    }
}

/// Whether the entries of an index are those of files, none of which is in the way of another, with
/// nothing left to be resolved.
pub open spec fn settled_entries(entries: Seq<EntryModel>) -> bool {
    forall|i: int|
        0 <= i < entries.len() ==> {
            &&& (#[trigger] entries[i]).merge_stage == 0
            &&& entries[i].file_mode != FileMode::Directory
            &&& plain_path(entries[i].path)
            &&& !replaced(entries, i, true)
        }
}

/// The files of the tree of an index are its entries.
proof fn lemma_files_are_entries(
    db: Map<ObjectSha, Seq<u8>>,
    entries: Seq<EntryModel>,
    depth: nat,
) -> (files: Seq<(Seq<u8>, ObjectSha)>)
    requires
        settled_entries(entries),
        tree_of_entries(entries, true) is Ok,
        stored(db, NodeModel::Tree(tree_of_entries(entries, true)->Ok_0)),
        height(NodeModel::Tree(tree_of_entries(entries, true)->Ok_0)) <= depth + 1,
    ensures
        tree_files(db, entries_of(tree_of_entries(entries, true)->Ok_0), depth) == Ok::<
            Seq<(Seq<u8>, ObjectSha)>,
            ObjectError,
        >(files),
        ascending(files),
        forall|i: int|
            0 <= i < entries.len() ==> lookup(files, (#[trigger] entries[i]).path) == Some(
                entries[i].obj_name,
            ),
        forall|k: int|
            0 <= k < files.len() ==> staged_entry(entries, (#[trigger] files[k]).0) is Some,
{
    let c = tree_of_entries(entries, true)->Ok_0;
    let n = NodeModel::Tree(c);
    let none = Seq::<(Seq<u8>, ObjectSha)>::empty();
    let root = Seq::<u8>::empty();
    lemma_tree_ordered(entries, true);
    assert(no_dir_leaves(n)) by {
        assert forall|names: Seq<Seq<u8>>| #[trigger] leaf_in(n, names) is Some implies leaf_in(
            n,
            names,
        )->Some_0.file_mode != FileMode::Directory by {
            let i = lemma_leaves_are_entries(entries, names);
            assert(entries[i].file_mode != FileMode::Directory);
        }
    }
    let files = node_files(none, n, root);
    lemma_tree_files_are(db, none, c, c.len() as int, root, depth);
    assert(entries_of(c).subrange(0, c.len() as int) =~= entries_of(c));
    lemma_node_files(none, n, root);
    assert forall|p: Seq<u8>| #[trigger] lookup(files, p) is Some implies exists|j: int|
        0 <= j < entries.len() && (#[trigger] entries[j]).path == p && lookup(files, p) == Some(
            entries[j].obj_name,
        ) by {
        let o = lookup(files, p)->Some_0;
        assert(comes_from(none, n, root, p, o));
        assert(lookup(none, p) is None);
        let names = choose|names: Seq<Seq<u8>>|
            (#[trigger] leaf_in(n, names)) matches Some(e) && e.object_name == o && p == under(
                root,
                names,
            );
        let j = lemma_leaves_are_entries(entries, names);
        assert(plain_path(entries[j].path));
        assert(entries[j].path == p);
    }
    assert forall|i: int| 0 <= i < entries.len() implies lookup(
        files,
        (#[trigger] entries[i]).path,
    ) == Some(entries[i].obj_name) by {
        let path = entries[i].path;
        law_index_tree(entries, true, i);
        let names = components(path);
        let dirs = parent_components(path);
        lemma_leaf_in(c, dirs, file_name(path)->Some_0);
        assert(dirs.push(file_name(path)->Some_0) =~= names);
        assert(leaf_in(n, names) is Some);
        assert(under(root, names) == path);
        let j = choose|j: int|
            0 <= j < entries.len() && (#[trigger] entries[j]).path == path && lookup(files, path)
                == Some(entries[j].obj_name);
        let both = components(path);
        assert(both.subrange(0, both.len() as int) =~= both);
        if i < j {
            assert(replaced(entries, i, true));
        }
        if j < i {
            assert(replaced(entries, j, true));
        }
    }
    assert forall|k: int| 0 <= k < files.len() implies staged_entry(
        entries,
        (#[trigger] files[k]).0,
    ) is Some by {
        lemma_lookup_at(files, k);
        let p = files[k].0;
        let j = choose|j: int|
            0 <= j < entries.len() && (#[trigger] entries[j]).path == p && lookup(files, p) == Some(
                entries[j].obj_name,
            );
        lemma_staged(entries, j);
    }
    files
}

/// After a commit of an index, whose objects are stored, nothing is staged: the index and the last
/// commit do not differ.
pub proof fn law_commit_leaves_nothing_staged(
    db: Map<ObjectSha, Seq<u8>>,
    entries: Seq<EntryModel>,
    m: CommitModel,
    oid: ObjectSha,
    head: Seq<char>,
    tip: Option<Seq<char>>,
    depth: nat,
)
    requires
        settled_entries(entries),
        tree_of_entries(entries, true) is Ok,
        stored(db, NodeModel::Tree(tree_of_entries(entries, true)->Ok_0)),
        height(NodeModel::Tree(tree_of_entries(entries, true)->Ok_0)) <= depth + 1,
        m.tree == node_entry(NodeModel::Tree(tree_of_entries(entries, true)->Ok_0)).object_name,
        writable_commit(m, oid is SHA1),
        db.contains_key(oid),
        db[oid] == framed("commit"@, commit_payload(m)),
        head_in(head) is Ok,
        current(db, head_in(head)->Ok_0, tip) == Ok::<ObjectSha, RefError>(oid),
    ensures
        head_files(db, head, tip, depth) matches Ok(Some(files)) && staged_changes(
            entries,
            Some(files),
        ) == Seq::<(Seq<u8>, ChangeType)>::empty(),
{
    let c = tree_of_entries(entries, true)->Ok_0;
    law_commit_round_trip(m, oid is SHA1);
    assert(commit_at(db, oid) == Ok::<CommitModel, ObjectError>(m));
    lemma_tree_ordered(entries, true);
    lemma_tree_read(db, c);
    let files = lemma_files_are_entries(db, entries, depth);
    law_nothing_staged(entries, files);
}

/// Whether a name can be one of a directory: not empty, and without slashes.
pub open spec fn plain_name(name: Seq<u8>) -> bool {
    name.len() > 0 && !name.contains(0x2f)
}

/// Whether all names below a node are such as a directory can hold.
pub open spec fn plain_names(n: NodeModel) -> bool
    decreases n,
{
    match n {
        NodeModel::Blob(_) => true,
        NodeModel::Tree(c) => {
            &&& forall|i: int| 0 <= i < c.len() ==> plain_name((#[trigger] c[i]).0)
            &&& forall|i: int| 0 <= i < c.len() ==> plain_names((#[trigger] c[i]).1)
        },
    }
}

/// Some files with more put among them, by path.
spec fn with_leaves(
    files: Seq<(Seq<u8>, ObjectSha)>,
    leaves: Seq<(Seq<u8>, TreeEntry)>,
) -> Seq<(Seq<u8>, ObjectSha)>
    decreases leaves.len(),
{
    if leaves.len() == 0 {
        files
    } else {
        bind(
            with_leaves(files, leaves.drop_last()),
            leaves.last().0,
            leaves.last().1.object_name,
        )
    }
}

proof fn lemma_with_leaves_concat(
    files: Seq<(Seq<u8>, ObjectSha)>,
    a: Seq<(Seq<u8>, TreeEntry)>,
    b: Seq<(Seq<u8>, TreeEntry)>,
)
    ensures
        with_leaves(files, a + b) == with_leaves(with_leaves(files, a), b),
    decreases b.len(),
{
    if b.len() == 0 {
        assert(a + b =~= a);
    } else {
        lemma_with_leaves_concat(files, a, b.drop_last());
        assert((a + b).drop_last() =~= a + b.drop_last());
        assert((a + b).last() == b.last());
    }
}

/// Whether a directory's path is such that a slash has to come after it.
spec fn open_ended(dir: Seq<u8>) -> bool {
    dir.len() == 0 || dir.last() != 0x2f
}

proof fn lemma_plain_join(dir: Seq<u8>, name: Seq<u8>)
    requires
        plain_name(name),
        open_ended(dir),
    ensures
        joined(dir, name) == pushed(dir, name),
        open_ended(joined(dir, name)),
{
    assert(name[0] != 0x2f) by {
        assert(name.contains(name[0]));
    }
    assert(name.last() != 0x2f) by {
        assert(name.contains(name.last()));
    }
    assert(joined(dir, name) =~= pushed(dir, name));
}

proof fn lemma_node_leaves(files: Seq<(Seq<u8>, ObjectSha)>, n: NodeModel, path: Seq<u8>)
    requires
        plain_names(n),
        open_ended(path),
    ensures
        node_files(files, n, path) == with_leaves(files, leaves_of(n, path)),
    decreases n, 0int,
{
    match n {
        NodeModel::Blob(e) => {
            let one = seq![(path, e)];
            assert(one.drop_last() =~= Seq::empty());
            assert(one.last() == (path, e));
            reveal_with_fuel(with_leaves, 2);
        },
        NodeModel::Tree(c) => {
            lemma_child_leaves_from(files, c, 0, path);
        },
    }
}

proof fn lemma_child_leaves_from(
    files: Seq<(Seq<u8>, ObjectSha)>,
    c: Seq<(Seq<u8>, NodeModel)>,
    k: int,
    dir: Seq<u8>,
)
    requires
        plain_names(NodeModel::Tree(c)),
        open_ended(dir),
        0 <= k <= c.len(),
    ensures
        child_files(files, c, c.len() as int, dir) == with_leaves(
            child_files(files, c, k, dir),
            leaves_from(c, k, dir),
        ),
    decreases c, c.len() - k,
{
    if k < c.len() {
        let before = child_files(files, c, k, dir);
        let whole = NodeModel::Tree(c);
        assert(whole->Tree_0 == c);
        assert(plain_name(c[k].0));
        assert(plain_names(c[k].1));
        lemma_plain_join(dir, c[k].0);
        let at = joined(dir, c[k].0);
        lemma_node_leaves(before, c[k].1, at);
        lemma_child_leaves_from(files, c, k + 1, dir);
        lemma_with_leaves_concat(before, leaves_of(c[k].1, at), leaves_from(c, k + 1, dir));
    }
}

proof fn lemma_child_actions_ok(
    db: Map<ObjectSha, Seq<u8>>,
    c: Seq<(Seq<u8>, NodeModel)>,
    n: int,
    path: Seq<u8>,
    i: int,
)
    requires
        0 <= i < n <= c.len(),
        child_actions(db, c, n, path) is Ok,
    ensures
        node_actions(db, c[i].1, pushed(path, c[i].0)) is Ok,
    decreases n,
{
    if i < n - 1 {
        lemma_child_actions_ok(db, c, n - 1, path, i);
    }
}

proof fn lemma_actions_no_dirs(db: Map<ObjectSha, Seq<u8>>, n: NodeModel, path: Seq<u8>)
    requires
        ordered(n),
        node_actions(db, n, path) is Ok,
    ensures
        no_dir_leaves(n),
    decreases n,
{
    match n {
        NodeModel::Blob(e) => {},
        NodeModel::Tree(c) => {
            assert forall|names: Seq<Seq<u8>>| #[trigger] leaf_in(n, names) is Some implies leaf_in(
                n,
                names,
            )->Some_0.file_mode != FileMode::Directory by {
                let r = crate::byte_map::rank(c, names[0]);
                assert(c[r].0 == names[0]);
                assert(ordered(c[r].1));
                lemma_child_actions_ok(db, c, c.len() as int, path, r);
                lemma_actions_no_dirs(db, c[r].1, pushed(path, c[r].0));
                assert(leaf_in(c[r].1, names.drop_first()) is Some);
            }
        },
    }
}

/// Whether an action is one of a checkout: it makes a directory, or writes and stages a file.
spec fn of_checkout(a: ActionModel) -> bool {
    match a {
        ActionModel::MakeDir { .. } => true,
        ActionModel::WriteFile { path, entry, .. } => index_form(path) == Ok::<
            Seq<u8>,
            IndexError,
        >(entry),
        _ => false,
    }
}

proof fn lemma_node_actions_shape(db: Map<ObjectSha, Seq<u8>>, n: NodeModel, path: Seq<u8>)
    ensures
        node_actions(db, n, path) matches Ok(a) ==> forall|i: int|
            0 <= i < a.len() ==> of_checkout(#[trigger] a[i]),
    decreases n, 0int,
{
    if let NodeModel::Tree(c) = n {
        lemma_child_actions_shape(db, c, c.len() as int, path);
        if let Ok(a) = node_actions(db, n, path) {
            let inner = child_actions(db, c, c.len() as int, path)->Ok_0;
            assert forall|i: int| 0 <= i < a.len() implies of_checkout(#[trigger] a[i]) by {
                if i > 0 {
                    assert(a[i] == inner[i - 1]);
                }
            }
        }
    }
}

proof fn lemma_child_actions_shape(
    db: Map<ObjectSha, Seq<u8>>,
    c: Seq<(Seq<u8>, NodeModel)>,
    n: int,
    path: Seq<u8>,
)
    ensures
        child_actions(db, c, n, path) matches Ok(a) ==> forall|i: int|
            0 <= i < a.len() ==> of_checkout(#[trigger] a[i]),
    decreases c, n,
{
    if 0 < n <= c.len() {
        lemma_child_actions_shape(db, c, n - 1, path);
        lemma_node_actions_shape(db, c[n - 1].1, pushed(path, c[n - 1].0));
        if let Ok(a) = child_actions(db, c, n, path) {
            let before = child_actions(db, c, n - 1, path)->Ok_0;
            let more = node_actions(db, c[n - 1].1, pushed(path, c[n - 1].0))->Ok_0;
            assert forall|i: int| 0 <= i < a.len() implies of_checkout(#[trigger] a[i]) by {
                if i < before.len() {
                    assert(a[i] == before[i]);
                } else {
                    assert(a[i] == more[i - before.len()]);
                }
            }
        }
    }
}

/// The index after the first `n` actions, each of which wrote a file as the file system says.
pub open spec fn index_after(
    index: IndexModel,
    actions: Seq<ActionModel>,
    stats: Seq<FileStat>,
    n: int,
) -> Result<IndexModel, IndexError>
    decreases n,
{
    if n <= 0 {
        Ok(index)
    } else {
        match index_after(index, actions, stats, n - 1) {
            Err(e) => Err(e),
            Ok(m) => recorded(m, actions[n - 1], stats[n - 1]),
        }
    }
}

/// Whether the entries are just for some files, and nothing is left to be resolved.
spec fn agrees(entries: Seq<EntryModel>, files: Seq<(Seq<u8>, ObjectSha)>) -> bool {
    &&& ascending(files)
    &&& forall|e: EntryModel| #[trigger]
        entries.contains(e) ==> e.merge_stage == 0 && lookup(files, e.path) == Some(e.obj_name)
    &&& forall|p: Seq<u8>| #[trigger]
        lookup(files, p) is Some ==> exists|e: EntryModel| #[trigger]
            entries.contains(e) && e.path == p
}

proof fn lemma_staging_agrees(
    entries: Seq<EntryModel>,
    files: Seq<(Seq<u8>, ObjectSha)>,
    s: FileStat,
    path: Seq<u8>,
    oid: ObjectSha,
)
    requires
        agrees(entries, files),
    ensures
        agrees(with_file(entries, s, path, oid), bind(files, path, oid)),
{
    broadcast use vstd::seq_lib::group_to_multiset_ensures;

    let all = with_file(entries, s, path, oid);
    let more = bind(files, path, oid);
    let new = entry_of_file(s, path, oid);
    law_staged_once(entries, s, path, oid);
    lemma_bind(files, path, oid);
    assert forall|e: EntryModel| #[trigger] all.contains(e) implies e.merge_stage == 0 && lookup(
        more,
        e.path,
    ) == Some(e.obj_name) by {
        assert(all.to_multiset().count(e) > 0);
        if e.path != path {
            assert(entries.to_multiset().count(e) > 0);
            assert(entries.contains(e));
        }
    }
    assert forall|p: Seq<u8>| #[trigger] lookup(more, p) is Some implies exists|e: EntryModel|
        #[trigger] all.contains(e) && e.path == p by {
        if p == path {
            assert(all.to_multiset().count(new) == 1);
            assert(all.contains(new));
        } else {
            assert(lookup(files, p) is Some);
            let e = choose|e: EntryModel| #[trigger] entries.contains(e) && e.path == p;
            assert(entries.to_multiset().count(e) > 0);
            assert(all.to_multiset().count(e) > 0);
            assert(all.contains(e));
        }
    }
}

proof fn lemma_index_agrees(
    index: IndexModel,
    actions: Seq<ActionModel>,
    stats: Seq<FileStat>,
    n: int,
)
    requires
        index.entries.len() == 0,
        0 <= n <= actions.len(),
        forall|i: int|
            0 <= i < actions.len() ==> match #[trigger] actions[i] {
                ActionModel::MakeDir { .. } => true,
                ActionModel::WriteFile { path, entry, .. } => entry == path,
                _ => false,
            },
    ensures
        index_after(index, actions, stats, n) matches Ok(m) ==> agrees(
            m.entries,
            with_leaves(Seq::empty(), written(actions.subrange(0, n))),
        ),
    decreases n,
{
    let none = Seq::<(Seq<u8>, ObjectSha)>::empty();
    if n == 0 {
        assert(actions.subrange(0, 0) =~= Seq::empty());
        assert(written(actions.subrange(0, 0)) =~= Seq::empty());
    } else {
        lemma_index_agrees(index, actions, stats, n - 1);
        let upto = actions.subrange(0, n);
        let before = actions.subrange(0, n - 1);
        assert(upto.drop_last() =~= before);
        assert(upto.last() == actions[n - 1]);
        if let Ok(m) = index_after(index, actions, stats, n - 1) {
            match actions[n - 1] {
                ActionModel::WriteFile { path, entry, mode, oid, .. } => {
                    let leaf = (path, TreeEntry { file_mode: mode, object_name: oid });
                    let w = written(before).push(leaf);
                    assert(written(upto) == w);
                    assert(w.drop_last() =~= written(before));
                    assert(w.last() == leaf);
                    lemma_staging_agrees(
                        m.entries,
                        with_leaves(none, written(before)),
                        stats[n - 1],
                        entry,
                        oid,
                    );
                },
                _ => {},
            }
        }
    }
}

/// After the checkout of a directory whose objects are stored, and whose paths are such as an index
/// holds them, nothing is staged: the index and the directory do not differ.
pub proof fn law_checkout_leaves_nothing_staged(
    db: Map<ObjectSha, Seq<u8>>,
    old_set: Seq<(Seq<u8>, ())>,
    work: Seq<(Seq<u8>, ())>,
    c: Seq<(Seq<u8>, NodeModel)>,
    head: HeadModel,
    index: IndexModel,
    stats: Seq<FileStat>,
    depth: nat,
)
    requires
        ordered(NodeModel::Tree(c)),
        stored(db, NodeModel::Tree(c)),
        plain_names(NodeModel::Tree(c)),
        height(NodeModel::Tree(c)) <= depth + 1,
        forall|i: int|
            0 <= i < leaves_from(c, 0, Seq::empty()).len() ==> index_form(
                (#[trigger] leaves_from(c, 0, Seq::empty())[i]).0,
            ) == Ok::<Seq<u8>, IndexError>(leaves_from(c, 0, Seq::empty())[i].0),
        index.entries.len() == 0,
    ensures
        switched(db, old_set, work, c, head) matches Ok(plan) ==> (index_after(
            index,
            plan.actions,
            stats,
            plan.actions.len() as int,
        ) matches Ok(m) ==> (tree_files(db, entries_of(c), depth) matches Ok(files)
            && staged_changes(m.entries, Some(files)) == Seq::<(Seq<u8>, ChangeType)>::empty())),
{
    let none = Seq::<(Seq<u8>, ObjectSha)>::empty();
    let root = Seq::<u8>::empty();
    let leaves = leaves_from(c, 0, root);
    if let Ok(plan) = switched(db, old_set, work, c, head) {
        let n = plan.actions.len() as int;
        if let Ok(m) = index_after(index, plan.actions, stats, n) {
            law_checkout_writes_tree(db, old_set, work, c, head);
            lemma_child_actions_shape(db, c, c.len() as int, root);
            assert(node_actions(db, NodeModel::Tree(c), root) is Ok);
            lemma_actions_no_dirs(db, NodeModel::Tree(c), root);
            let files = child_files(none, c, c.len() as int, root);
            lemma_tree_files_are(db, none, c, c.len() as int, root, depth);
            assert(entries_of(c).subrange(0, c.len() as int) =~= entries_of(c));
            lemma_child_leaves_from(none, c, 0, root);
            assert(files == with_leaves(none, leaves));
            assert forall|i: int| 0 <= i < plan.actions.len() implies match #[trigger] plan.actions[i] {
                ActionModel::MakeDir { .. } => true,
                ActionModel::WriteFile { path, entry, .. } => entry == path,
                _ => false,
            } by {
                assert(of_checkout(plan.actions[i]));
                if plan.actions[i] is WriteFile {
                    let k = lemma_written_at(plan.actions, i);
                    assert(leaves[k].0 == plan.actions[i]->WriteFile_path);
                }
            }
            lemma_index_agrees(index, plan.actions, stats, n);
            assert(plan.actions.subrange(0, n) =~= plan.actions);
            assert(agrees(m.entries, files));
            assert forall|i: int| 0 <= i < m.entries.len() implies lookup(
                files,
                (#[trigger] m.entries[i]).path,
            ) == Some(m.entries[i].obj_name) by {
                assert(m.entries.contains(m.entries[i]));
            }
            assert forall|k: int| 0 <= k < files.len() implies staged_entry(
                m.entries,
                (#[trigger] files[k]).0,
            ) is Some by {
                lemma_lookup_at(files, k);
                let e = choose|e: EntryModel| #[trigger]
                    m.entries.contains(e) && e.path == files[k].0;
                let j = choose|j: int| 0 <= j < m.entries.len() && m.entries[j] == e;
                lemma_staged(m.entries, j);
            }
            law_nothing_staged(m.entries, files);
        }
    }
}

/// Where a file that is written stands among those written.
proof fn lemma_written_at(actions: Seq<ActionModel>, i: int) -> (k: int)
    requires
        0 <= i < actions.len(),
        actions[i] is WriteFile,
    ensures
        0 <= k < written(actions).len(),
        written(actions)[k].0 == actions[i]->WriteFile_path,
    decreases actions.len(),
{
    let front = actions.drop_last();
    if i == actions.len() - 1 {
        written(front).len() as int
    } else {
        assert(front[i] == actions[i]);
        lemma_written_at(front, i)
    }
}

} // verus!
