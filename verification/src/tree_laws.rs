//! What the tree that is made of an index holds, and which trees are written.
use crate::byte_map::{lemma_lookup_at, lookup, rank};
use crate::index::EntryModel;
use crate::index_tree::{
    at_or_below, law_leaf_inserted, leaf_at, lemma_tree_ordered, objects_from, objects_of, ordered,
    raw_tree, replaced, tree_of_entries, with_leaf, NodeModel,
};
use crate::object::{oid_of_raw, ObjectSha, TreeEntry};
use crate::unix_path::{components, file_name, parent_components};
use vstd::prelude::*;

verus! {

proof fn lemma_leaf_blocks(
    c: Seq<(Seq<u8>, NodeModel)>,
    dirs: Seq<Seq<u8>>,
    name: Seq<u8>,
    dirs2: Seq<Seq<u8>>,
    name2: Seq<u8>,
)
    requires
        leaf_at(c, dirs, name) is Some,
        at_or_below(dirs2.push(name2), dirs.push(name)),
        dirs2.push(name2) != dirs.push(name),
    ensures
        leaf_at(c, dirs2, name2) is None,
    decreases dirs.len(),
{
    let p = dirs.push(name);
    let q = dirs2.push(name2);
    assert(q.subrange(0, p.len() as int)[0] == q[0]);
    if dirs2.len() == 0 {
        assert(q =~= p);
    }
    assert(dirs2[0] == q[0]);
    if dirs.len() > 0 {
        assert(p[0] == dirs[0]);
        let d = lookup(c, dirs[0])->Some_0->Tree_0;
        let a = dirs.drop_first();
        let b = dirs2.drop_first();
        assert(a.push(name) =~= p.drop_first());
        assert(b.push(name2) =~= q.drop_first());
        assert(q.drop_first().subrange(0, p.len() - 1) =~= q.subrange(0, p.len() as int).drop_first());
        if b.push(name2) == a.push(name) {
            assert(q =~= seq![q[0]] + q.drop_first());
            assert(p =~= seq![p[0]] + p.drop_first());
        }
        lemma_leaf_blocks(d, a, name, b, name2);
    }
}

/// Whether a leaf of the tree of an index is that of its `i`-th entry: at the path of the entry,
/// with its mode and its id, and no later entry takes its place.
pub open spec fn leaf_of(
    entries: Seq<EntryModel>,
    all: bool,
    i: int,
    path: Seq<Seq<u8>>,
    leaf: TreeEntry,
) -> bool {
    &&& 0 <= i < entries.len()
    &&& all || entries[i].merge_stage == 0
    &&& components(entries[i].path) == path
    &&& entries[i].file_mode == leaf.file_mode
    &&& entries[i].obj_name == leaf.object_name
    &&& !replaced(entries, i, all)
}

/// Every file of the tree of an index is that of an entry.
pub proof fn law_leaf_from_index(
    entries: Seq<EntryModel>,
    all: bool,
    dirs: Seq<Seq<u8>>,
    name: Seq<u8>,
    leaf: TreeEntry,
)
    requires
        tree_of_entries(entries, all) is Ok,
        leaf_at(tree_of_entries(entries, all)->Ok_0, dirs, name) == Some(leaf),
    ensures
        exists|i: int| #[trigger] leaf_of(entries, all, i, dirs.push(name), leaf),
    decreases entries.len(),
{
    if entries.len() == 0 {
        assert(leaf_at(Seq::empty(), dirs, name) is None);
    } else {
        let t = entries.drop_last();
        let n = t.len() as int;
        let e = entries[n];
        lemma_tree_ordered(t, all);
        let c = tree_of_entries(t, all)->Ok_0;
        let p = dirs.push(name);
        if all || e.merge_stage == 0 {
            let d = parent_components(e.path);
            let x = file_name(e.path)->0;
            let y = TreeEntry { file_mode: e.file_mode, object_name: e.obj_name };
            law_leaf_inserted(c, d, x, y);
            let q = d.push(x);
            assert(q =~= components(e.path));
            if p == q {
                assert(dirs =~= p.drop_last() && d =~= q.drop_last());
                assert(p.last() == name && q.last() == x);
                assert(leaf_of(entries, all, n, p, leaf));
            } else {
                let now = tree_of_entries(entries, all)->Ok_0;
                if at_or_below(p, q) {
                    lemma_leaf_blocks(now, d, x, dirs, name);
                }
                law_leaf_from_index(t, all, dirs, name, leaf);
                let i = choose|i: int| #[trigger] leaf_of(t, all, i, p, leaf);
                lemma_still_there(entries, all, i);
                assert(t[i] == entries[i]);
                assert(leaf_of(entries, all, i, p, leaf));
            }
        } else {
            law_leaf_from_index(t, all, dirs, name, leaf);
            let i = choose|i: int| #[trigger] leaf_of(t, all, i, p, leaf);
            lemma_still_there(entries, all, i);
            assert(t[i] == entries[i]);
            assert(leaf_of(entries, all, i, p, leaf));
        }
    }
}

proof fn lemma_still_there(entries: Seq<EntryModel>, all: bool, i: int)
    requires
        0 <= i < entries.len() - 1,
        !replaced(entries.drop_last(), i, all),
        ({
            let e = entries[entries.len() - 1];
            !(all || e.merge_stage == 0) || !at_or_below(
                components(entries[i].path),
                components(e.path),
            )
        }),
    ensures
        !replaced(entries, i, all),
{
    let t = entries.drop_last();
    if replaced(entries, i, all) {
        let k = choose|k: int|
            i < k < entries.len() && (all || (#[trigger] entries[k]).merge_stage == 0)
                && at_or_below(components(entries[i].path), components(entries[k].path));
        if k < t.len() {
            assert(t[k] == entries[k] && t[i] == entries[i]);
        }
    }
}

proof fn lemma_in_the_way(
    c: Seq<(Seq<u8>, NodeModel)>,
    dirs: Seq<Seq<u8>>,
    name: Seq<u8>,
    leaf: TreeEntry,
) -> (j: int)
    requires
        with_leaf(c, dirs, name, leaf) is None,
    ensures
        0 <= j < dirs.len(),
        leaf_at(c, dirs.subrange(0, j), dirs[j]) is Some,
    decreases dirs.len(),
{
    match lookup(c, dirs[0]) {
        Some(NodeModel::Blob(e)) => {
            assert(dirs.subrange(0, 0).len() == 0);
            0
        },
        Some(NodeModel::Tree(d)) => {
            let t = dirs.drop_first();
            let j = lemma_in_the_way(d, t, name, leaf);
            let front = dirs.subrange(0, j + 1);
            assert(front[0] == dirs[0]);
            assert(front.drop_first() =~= t.subrange(0, j));
            assert(t[j] == dirs[j + 1]);
            j + 1
        },
        None => {
            let d = Seq::<(Seq<u8>, NodeModel)>::empty();
            let t = dirs.drop_first();
            let j = lemma_in_the_way(d, t, name, leaf);
            assert(leaf_at(d, t.subrange(0, j), t[j]) is None);
            0
        },
    }
}

/// Whether an entry of an index goes into its tree.
pub open spec fn goes_in(e: EntryModel, all: bool) -> bool {
    all || e.merge_stage == 0
}

/// A tree can be made of an index whose entries have names of files and none of which is at a
/// directory of a later one.
pub proof fn law_index_tree_succeeds(entries: Seq<EntryModel>, all: bool)
    requires
        forall|i: int|
            0 <= i < entries.len() && goes_in(#[trigger] entries[i], all) ==> file_name(
                entries[i].path,
            ) is Some,
        forall|i: int, k: int|
            0 <= i < k < entries.len() && goes_in(#[trigger] entries[i], all) && goes_in(
                #[trigger] entries[k],
                all,
            ) && at_or_below(components(entries[k].path), components(entries[i].path))
                ==> components(entries[k].path) == components(entries[i].path),
    ensures
        tree_of_entries(entries, all) is Ok,
    decreases entries.len(),
{
    if entries.len() > 0 {
        let t = entries.drop_last();
        let n = t.len() as int;
        let e = entries[n];
        assert forall|i: int| 0 <= i < t.len() && goes_in(#[trigger] t[i], all) implies file_name(
            t[i].path,
        ) is Some by {
            assert(t[i] == entries[i]);
        }
        assert forall|i: int, k: int|
            0 <= i < k < t.len() && goes_in(#[trigger] t[i], all) && goes_in(#[trigger] t[k], all)
                && at_or_below(components(t[k].path), components(t[i].path)) implies components(
            t[k].path,
        ) == components(t[i].path) by {
            assert(t[i] == entries[i] && t[k] == entries[k]);
        }
        law_index_tree_succeeds(t, all);
        let c = tree_of_entries(t, all)->Ok_0;
        if goes_in(e, all) {
            let dirs = parent_components(e.path);
            let name = file_name(e.path)->0;
            let leaf = TreeEntry { file_mode: e.file_mode, object_name: e.obj_name };
            if with_leaf(c, dirs, name, leaf) is None {
                let j = lemma_in_the_way(c, dirs, name, leaf);
                let front = dirs.subrange(0, j);
                let p = front.push(dirs[j]);
                law_leaf_from_index(t, all, front, dirs[j], leaf_at(c, front, dirs[j])->0);
                let i = choose|i: int| #[trigger]
                    leaf_of(t, all, i, p, leaf_at(c, front, dirs[j])->0);
                assert(t[i] == entries[i]);
                let full = components(e.path);
                assert(full.subrange(0, p.len() as int) =~= p);
                assert(goes_in(entries[i], all) && goes_in(entries[n], all));
            }
        }
    }
}

/// No tree can be made of an index with an entry that has no name of a file.
pub proof fn law_nameless_refused(entries: Seq<EntryModel>, all: bool, i: int)
    requires
        0 <= i < entries.len(),
        goes_in(entries[i], all),
        file_name(entries[i].path) is None,
    ensures
        tree_of_entries(entries, all) is Err,
    decreases entries.len(),
{
    if i < entries.len() - 1 {
        assert(entries.drop_last()[i] == entries[i]);
        law_nameless_refused(entries.drop_last(), all, i);
    }
}

/// What is found in a tree along some names.
pub open spec fn node_at(n: NodeModel, names: Seq<Seq<u8>>) -> Option<NodeModel>
    decreases names.len(),
{
    if names.len() == 0 {
        Some(n)
    } else {
        match n {
            NodeModel::Blob(_) => None,
            NodeModel::Tree(c) => match lookup(c, names[0]) {
                Some(m) => node_at(m, names.drop_first()),
                None => None,
            },
        }
    }
}

/// A directory as an object: its id and its bytes.
pub open spec fn tree_object(c: Seq<(Seq<u8>, NodeModel)>) -> (ObjectSha, Seq<u8>) {
    (oid_of_raw(raw_tree(c)), raw_tree(c))
}

proof fn lemma_objects_from(
    c: Seq<(Seq<u8>, NodeModel)>,
    i: int,
    k: int,
    x: (ObjectSha, Seq<u8>),
)
    requires
        0 <= i <= k < c.len(),
        objects_of(c[k].1).contains(x),
    ensures
        objects_from(c, i).contains(x),
    decreases k - i,
{
    let here = objects_of(c[i].1);
    let rest = objects_from(c, i + 1);
    if i == k {
        let j = choose|j: int| 0 <= j < here.len() && here[j] == x;
        assert((here + rest)[j] == x);
    } else {
        lemma_objects_from(c, i + 1, k, x);
        let j = choose|j: int| 0 <= j < rest.len() && rest[j] == x;
        assert((here + rest)[here.len() + j] == x);
    }
}

/// A tree is written with all directories below it.
pub proof fn law_directories_written(
    n: NodeModel,
    names: Seq<Seq<u8>>,
    c: Seq<(Seq<u8>, NodeModel)>,
)
    requires
        node_at(n, names) == Some(NodeModel::Tree(c)),
    ensures
        objects_of(n).contains(tree_object(c)),
    decreases names.len(),
{
    if names.len() == 0 {
        let all = objects_of(n);
        assert(all[all.len() - 1] == tree_object(c));
    } else {
        let d = n->Tree_0;
        let r = rank(d, names[0]);
        law_directories_written(d[r].1, names.drop_first(), c);
        lemma_objects_from(d, 0, r, tree_object(c));
        let inner = objects_from(d, 0);
        let j = choose|j: int| 0 <= j < inner.len() && inner[j] == tree_object(c);
        assert(objects_of(n)[j] == tree_object(c));
    }
}

proof fn lemma_from_some(c: Seq<(Seq<u8>, NodeModel)>, i: int, x: (ObjectSha, Seq<u8>)) -> (k: int)
    requires
        0 <= i,
        objects_from(c, i).contains(x),
    ensures
        i <= k < c.len(),
        objects_of(c[k].1).contains(x),
    decreases c.len() - i,
{
    let here = objects_of(c[i].1);
    let rest = objects_from(c, i + 1);
    let j = choose|j: int| 0 <= j < objects_from(c, i).len() && objects_from(c, i)[j] == x;
    if j < here.len() {
        assert(here[j] == x);
        i
    } else {
        assert(rest[j - here.len()] == x);
        lemma_from_some(c, i + 1, x)
    }
}

/// Whether an object is a directory of a tree.
pub open spec fn is_directory(n: NodeModel, names: Seq<Seq<u8>>, x: (ObjectSha, Seq<u8>)) -> bool {
    node_at(n, names) matches Some(NodeModel::Tree(c)) && x == tree_object(c)
}

/// Nothing is written with a tree but the directories in it.
pub proof fn law_only_directories_written(n: NodeModel, x: (ObjectSha, Seq<u8>))
    requires
        ordered(n),
        objects_of(n).contains(x),
    ensures
        exists|names: Seq<Seq<u8>>| is_directory(n, names, x),
    decreases n,
{
    let d = n->Tree_0;
    let inner = objects_from(d, 0);
    let j = choose|j: int| 0 <= j < objects_of(n).len() && objects_of(n)[j] == x;
    if j == inner.len() {
        assert(is_directory(n, Seq::empty(), x));
    } else {
        assert(inner[j] == x);
        let k = lemma_from_some(d, 0, x);
        assert(ordered(d[k].1));
        law_only_directories_written(d[k].1, x);
        let l = choose|l: Seq<Seq<u8>>| is_directory(d[k].1, l, x);
        let names = seq![d[k].0] + l;
        lemma_lookup_at(d, k);
        assert(names.drop_first() =~= l);
        assert(is_directory(n, names, x));
    }
}

} // verus!
