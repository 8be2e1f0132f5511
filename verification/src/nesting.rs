//! Trees within trees: a walk is given up for its depth only where a tree lies within itself.
use crate::byte_map::lookup;
use crate::commit_object::{commit_in, headers_in, no_fields};
use crate::diff::{both_names, files_at, files_in, name_diff, tree_diff};
use crate::first_parents::{lemma_fields_not_cyclic, lemma_headers_not_cyclic};
use crate::index_tree::{children_in, node_in};
use crate::merge::{
    actions_upto, decided, entry_actions, merge_actions, merged, side_of, take_actions,
    tree_actions, MergeError, MergeModel, Side,
};
use crate::object::{
    first_entry, kind_of_raw, payload_of_raw, tree_entries, tree_in, ObjectError, ObjectSha,
    TreeEntry,
};
use crate::object_db::{lemma_count, ObjectDb};
use crate::status::{tree_files, with_entry_files, with_tree_files};
use crate::unix_path::{joined, pushed};
use vstd::prelude::*;

verus! {

/// The entries of the tree that the store holds under an id.
pub open spec fn dir_entries(db: Map<ObjectSha, Seq<u8>>, oid: ObjectSha) -> Option<
    Seq<(Seq<u8>, TreeEntry)>,
> {
    if db.contains_key(oid) && kind_of_raw(db[oid]) == Ok::<Seq<char>, ObjectError>("tree"@) {
        match tree_entries(payload_of_raw(db[oid]), true, Seq::empty()) {
            Ok(entries) => Some(entries),
            Err(_) => None,
        }
    } else {
        None
    }
}

/// Whether one of the entries names the given object.
pub open spec fn names_object(entries: Seq<(Seq<u8>, TreeEntry)>, oid: ObjectSha) -> bool {
    exists|i: int| 0 <= i < entries.len() && (#[trigger] entries[i]).1.object_name == oid
}

/// Whether these are trees of the store, each named by an entry of the one before it.
pub open spec fn nested(db: Map<ObjectSha, Seq<u8>>, s: Seq<ObjectSha>) -> bool {
    &&& forall|i: int| 0 <= i < s.len() ==> dir_entries(db, #[trigger] s[i]) is Some
    &&& forall|i: int, j: int|
        0 <= i && j == i + 1 && j < s.len() ==> names_object(
            dir_entries(db, #[trigger] s[i])->Some_0,
            #[trigger] s[j],
        )
}

/// Whether the store holds a tree that lies within itself.
pub open spec fn has_cycle(db: Map<ObjectSha, Seq<u8>>) -> bool {
    exists|s: Seq<ObjectSha>| #[trigger] nested(db, s) && !s.no_duplicates()
}

/// Whether `n` trees lie within each other, of which the given one is the first.
spec fn deep(db: Map<ObjectSha, Seq<u8>>, oid: ObjectSha, n: nat) -> bool {
    exists|s: Seq<ObjectSha>| #[trigger] nested(db, s) && s.len() == n && n > 0 && s[0] == oid
}

/// Whether one of the entries names the first of `n` trees within each other.
spec fn deep_below(db: Map<ObjectSha, Seq<u8>>, entries: Seq<(Seq<u8>, TreeEntry)>, n: nat) -> bool {
    exists|i: int| 0 <= i < entries.len() && deep(db, (#[trigger] entries[i]).1.object_name, n)
}

proof fn lemma_deep_one(db: Map<ObjectSha, Seq<u8>>, oid: ObjectSha)
    requires
        dir_entries(db, oid) is Some,
    ensures
        deep(db, oid, 1),
{
    assert(nested(db, seq![oid]));
}

proof fn lemma_deep_more(
    db: Map<ObjectSha, Seq<u8>>,
    oid: ObjectSha,
    entries: Seq<(Seq<u8>, TreeEntry)>,
    n: nat,
)
    requires
        dir_entries(db, oid) == Some(entries),
        deep_below(db, entries, n),
    ensures
        deep(db, oid, n + 1),
{
    let i = choose|i: int|
        0 <= i < entries.len() && deep(db, (#[trigger] entries[i]).1.object_name, n);
    let inner = entries[i].1.object_name;
    let s = choose|s: Seq<ObjectSha>| #[trigger] nested(db, s) && s.len() == n && n > 0 && s[0] == inner;
    let t = seq![oid] + s;
    assert(names_object(entries, inner));
    assert forall|k: int| 0 <= k < t.len() implies dir_entries(db, #[trigger] t[k]) is Some by {
        if k > 0 {
            assert(t[k] == s[k - 1]);
        }
    }
    assert forall|k: int, j: int| 0 <= k && j == k + 1 && j < t.len() implies names_object(
        dir_entries(db, #[trigger] t[k])->Some_0,
        #[trigger] t[j],
    ) by {
        assert(t[j] == s[j - 1]);
        if k > 0 {
            assert(t[k] == s[k - 1]);
        }
    }
    assert(nested(db, t));
}

proof fn lemma_deep_wider(
    db: Map<ObjectSha, Seq<u8>>,
    front: Seq<(Seq<u8>, TreeEntry)>,
    entries: Seq<(Seq<u8>, TreeEntry)>,
    n: nat,
)
    requires
        deep_below(db, front, n),
        front == entries.drop_last(),
        entries.len() > 0,
    ensures
        deep_below(db, entries, n),
{
    let i = choose|i: int|
        0 <= i < front.len() && deep(db, (#[trigger] front[i]).1.object_name, n);
    assert(entries[i] == front[i]);
}

proof fn lemma_deep_found(
    db: Map<ObjectSha, Seq<u8>>,
    entries: Seq<(Seq<u8>, TreeEntry)>,
    name: Seq<u8>,
    n: nat,
)
    requires
        lookup(entries, name) matches Some(e) && deep(db, e.object_name, n),
    ensures
        deep_below(db, entries, n),
{
    let r = crate::byte_map::rank(entries, name);
    assert(entries[r].1 == lookup(entries, name)->Some_0);
}

/// More trees within each other than there are objects: one of them comes back.
proof fn lemma_deep_cycle(db: &ObjectDb, oid: ObjectSha)
    requires
        deep(db@, oid, db.count() + 1),
    ensures
        has_cycle(db@),
{
    let s = choose|s: Seq<ObjectSha>| #[trigger]
        nested(db@, s) && s.len() == db.count() + 1 && s[0] == oid;
    if s.no_duplicates() {
        assert forall|i: int| 0 <= i < s.len() implies db@.contains_key(#[trigger] s[i]) by {
            assert(dir_entries(db@, s[i]) is Some);
        }
        lemma_count(db, s);
    }
}

proof fn lemma_entries_not_cyclic(s: Seq<u8>, is_sha1: bool, acc: Seq<(Seq<u8>, TreeEntry)>)
    ensures
        tree_entries(s, is_sha1, acc) matches Err(e) ==> !(e is Cyclic),
    decreases s.len(),
{
    if let Ok(Some(((name, entry), rest))) = first_entry(s, is_sha1) {
        if rest.len() < s.len() {
            lemma_entries_not_cyclic(rest, is_sha1, crate::byte_map::bind(acc, name, entry));
        }
    }
}

proof fn lemma_commit_in_not_cyclic(s: Seq<u8>, is_sha1: bool)
    ensures
        commit_in(s, is_sha1) matches Err(e) ==> !(e is Cyclic),
{
    lemma_headers_not_cyclic(s, is_sha1);
    if let Ok((hs, _)) = headers_in(s, is_sha1) {
        lemma_fields_not_cyclic(no_fields(), hs);
    }
}

/// A tree that is read is one of the store, and reading it finds no cycle.
proof fn lemma_tree_in(db: Map<ObjectSha, Seq<u8>>, oid: ObjectSha)
    ensures
        tree_in(db, oid) matches Ok(entries) ==> dir_entries(db, oid) == Some(entries),
        tree_in(db, oid) matches Err(e) ==> !(e is Cyclic),
{
    if db.contains_key(oid) {
        lemma_entries_not_cyclic(payload_of_raw(db[oid]), true, Seq::empty());
    }
}

proof fn lemma_node_in(db: Map<ObjectSha, Seq<u8>>, e: TreeEntry, depth: nat)
    ensures
        node_in(db, e, depth) matches Err(x) && x is Cyclic ==> deep(db, e.object_name, depth + 1),
    decreases depth, 0nat,
{
    let oid = e.object_name;
    if db.contains_key(oid) {
        let payload = payload_of_raw(db[oid]);
        lemma_entries_not_cyclic(payload, true, Seq::empty());
        lemma_commit_in_not_cyclic(payload, true);
        if let Some(entries) = dir_entries(db, oid) {
            reveal_strlit("blob");
            reveal_strlit("tree");
            assert("blob"@[0] != "tree"@[0]);
            if depth == 0 {
                lemma_deep_one(db, oid);
            } else {
                lemma_children_in(db, entries, (depth - 1) as nat);
                if let Err(x) = children_in(db, entries, (depth - 1) as nat) {
                    if x is Cyclic {
                        lemma_deep_more(db, oid, entries, depth);
                    }
                }
            }
        }
    }
}

proof fn lemma_children_in(
    db: Map<ObjectSha, Seq<u8>>,
    entries: Seq<(Seq<u8>, TreeEntry)>,
    depth: nat,
)
    ensures
        children_in(db, entries, depth) matches Err(x) && x is Cyclic ==> deep_below(
            db,
            entries,
            depth + 1,
        ),
    decreases depth, 1 + entries.len(),
{
    if entries.len() > 0 {
        let front = entries.drop_last();
        lemma_children_in(db, front, depth);
        lemma_node_in(db, entries.last().1, depth);
        if children_in(db, front, depth) is Err {
            if deep_below(db, front, depth + 1) {
                lemma_deep_wider(db, front, entries, depth + 1);
            }
        } else {
            assert(entries[entries.len() - 1] == entries.last());
        }
    }
}

/// Reading a tree with all that it holds is given up as cyclic only where the store holds a tree
/// that lies within itself.
pub proof fn law_read_cycle_is_real(db: &ObjectDb, entries: Seq<(Seq<u8>, TreeEntry)>)
    requires
        children_in(db@, entries, db.count()) matches Err(e) && e is Cyclic,
    ensures
        has_cycle(db@),
{
    lemma_children_in(db@, entries, db.count());
    let i = choose|i: int|
        0 <= i < entries.len() && deep(
            db@,
            (#[trigger] entries[i]).1.object_name,
            db.count() + 1,
        );
    lemma_deep_cycle(db, entries[i].1.object_name);
}

proof fn lemma_files_at(
    db: Map<ObjectSha, Seq<u8>>,
    e: TreeEntry,
    path: Seq<u8>,
    added: bool,
    depth: nat,
)
    ensures
        files_at(db, e, path, added, depth) matches Err(x) && x is Cyclic ==> deep(
            db,
            e.object_name,
            depth + 1,
        ),
    decreases depth, 0nat,
{
    let oid = e.object_name;
    lemma_tree_in(db, oid);
    if let Ok(entries) = tree_in(db, oid) {
        if depth == 0 {
            lemma_deep_one(db, oid);
        } else {
            lemma_files_in(db, entries, path, added, (depth - 1) as nat);
            if deep_below(db, entries, depth) {
                lemma_deep_more(db, oid, entries, depth);
            }
        }
    }
}

proof fn lemma_files_in(
    db: Map<ObjectSha, Seq<u8>>,
    entries: Seq<(Seq<u8>, TreeEntry)>,
    path: Seq<u8>,
    added: bool,
    depth: nat,
)
    ensures
        files_in(db, entries, path, added, depth) matches Err(x) && x is Cyclic ==> deep_below(
            db,
            entries,
            depth + 1,
        ),
    decreases depth, 1 + entries.len(),
{
    if entries.len() > 0 {
        let front = entries.drop_last();
        let (name, e) = entries.last();
        lemma_files_in(db, front, path, added, depth);
        lemma_files_at(db, e, pushed(path, name), added, depth);
        if files_in(db, front, path, added, depth) is Err {
            if deep_below(db, front, depth + 1) {
                lemma_deep_wider(db, front, entries, depth + 1);
            }
        } else {
            assert(entries[entries.len() - 1] == entries.last());
        }
    }
}

spec fn deep_side(db: Map<ObjectSha, Seq<u8>>, e: Option<TreeEntry>, n: nat) -> bool {
    e matches Some(e) && deep(db, e.object_name, n)
}

proof fn lemma_name_diff(
    db: Map<ObjectSha, Seq<u8>>,
    a: Option<TreeEntry>,
    b: Option<TreeEntry>,
    path: Seq<u8>,
    depth: nat,
)
    ensures
        name_diff(db, a, b, path, depth) matches Err(x) && x is Cyclic ==> deep_side(
            db,
            a,
            depth + 1,
        ) || deep_side(db, b, depth + 1),
    decreases depth, 0nat,
{
    match (a, b) {
        (None, None) => {},
        (Some(e), None) => {
            lemma_files_at(db, e, path, false, depth);
        },
        (None, Some(e)) => {
            lemma_files_at(db, e, path, true, depth);
        },
        (Some(e), Some(f)) => {
            lemma_tree_in(db, e.object_name);
            lemma_tree_in(db, f.object_name);
            if let (Ok(s), Ok(t)) = (tree_in(db, e.object_name), tree_in(db, f.object_name)) {
                if depth == 0 {
                    lemma_deep_one(db, e.object_name);
                } else {
                    lemma_tree_diff(db, s, t, both_names(s, t), path, (depth - 1) as nat);
                    if deep_below(db, s, depth) {
                        lemma_deep_more(db, e.object_name, s, depth);
                    }
                    if deep_below(db, t, depth) {
                        lemma_deep_more(db, f.object_name, t, depth);
                    }
                }
            }
        },
    }
}

proof fn lemma_tree_diff(
    db: Map<ObjectSha, Seq<u8>>,
    a: Seq<(Seq<u8>, TreeEntry)>,
    b: Seq<(Seq<u8>, TreeEntry)>,
    names: Seq<(Seq<u8>, ())>,
    path: Seq<u8>,
    depth: nat,
)
    ensures
        tree_diff(db, a, b, names, path, depth) matches Err(x) && x is Cyclic ==> deep_below(
            db,
            a,
            depth + 1,
        ) || deep_below(db, b, depth + 1),
    decreases depth, 1 + names.len(),
{
    if names.len() > 0 {
        let name = names.last().0;
        let at = pushed(path, name);
        lemma_tree_diff(db, a, b, names.drop_last(), path, depth);
        lemma_name_diff(db, lookup(a, name), lookup(b, name), at, depth);
        if deep_side(db, lookup(a, name), depth + 1) {
            lemma_deep_found(db, a, name, depth + 1);
        }
        if deep_side(db, lookup(b, name), depth + 1) {
            lemma_deep_found(db, b, name, depth + 1);
        }
    }
}

/// Comparing two trees is given up as cyclic only where the store holds a tree that lies within
/// itself.
pub proof fn law_diff_cycle_is_real(
    db: &ObjectDb,
    a: Seq<(Seq<u8>, TreeEntry)>,
    b: Seq<(Seq<u8>, TreeEntry)>,
)
    requires
        crate::diff::trees_diff(db@, a, b, db.count()) matches Err(e) && e is Cyclic,
    ensures
        has_cycle(db@),
{
    lemma_tree_diff(db@, a, b, both_names(a, b), Seq::empty(), db.count());
    let entries = if deep_below(db@, a, db.count() + 1) {
        a
    } else {
        b
    };
    let i = choose|i: int|
        0 <= i < entries.len() && deep(
            db@,
            (#[trigger] entries[i]).1.object_name,
            db.count() + 1,
        );
    lemma_deep_cycle(db, entries[i].1.object_name);
}

proof fn lemma_entry_files(
    db: Map<ObjectSha, Seq<u8>>,
    files: Seq<(Seq<u8>, ObjectSha)>,
    e: TreeEntry,
    path: Seq<u8>,
    depth: nat,
)
    ensures
        with_entry_files(db, files, e, path, depth) matches Err(x) && x is Cyclic ==> deep(
            db,
            e.object_name,
            depth + 1,
        ),
    decreases depth, 0nat,
{
    let oid = e.object_name;
    lemma_tree_in(db, oid);
    if let Ok(entries) = tree_in(db, oid) {
        if depth == 0 {
            lemma_deep_one(db, oid);
        } else {
            lemma_tree_files(db, files, entries, path, (depth - 1) as nat);
            if deep_below(db, entries, depth) {
                lemma_deep_more(db, oid, entries, depth);
            }
        }
    }
}

proof fn lemma_tree_files(
    db: Map<ObjectSha, Seq<u8>>,
    files: Seq<(Seq<u8>, ObjectSha)>,
    entries: Seq<(Seq<u8>, TreeEntry)>,
    dir: Seq<u8>,
    depth: nat,
)
    ensures
        with_tree_files(db, files, entries, dir, depth) matches Err(x) && x is Cyclic
            ==> deep_below(db, entries, depth + 1),
    decreases depth, 1 + entries.len(),
{
    if entries.len() > 0 {
        let front = entries.drop_last();
        let (name, e) = entries.last();
        lemma_tree_files(db, files, front, dir, depth);
        match with_tree_files(db, files, front, dir, depth) {
            Err(_) => {
                if deep_below(db, front, depth + 1) {
                    lemma_deep_wider(db, front, entries, depth + 1);
                }
            },
            Ok(before) => {
                lemma_entry_files(db, before, e, joined(dir, name), depth);
                assert(entries[entries.len() - 1] == entries.last());
            },
        }
    }
}

/// Listing the files of a tree is given up as cyclic only where the store holds a tree that lies
/// within itself.
pub proof fn law_listing_cycle_is_real(db: &ObjectDb, tree: Seq<(Seq<u8>, TreeEntry)>)
    requires
        tree_files(db@, tree, db.count()) matches Err(e) && e is Cyclic,
    ensures
        has_cycle(db@),
{
    lemma_tree_files(db@, Seq::empty(), tree, Seq::empty(), db.count());
    let i = choose|i: int|
        0 <= i < tree.len() && deep(db@, (#[trigger] tree[i]).1.object_name, db.count() + 1);
    lemma_deep_cycle(db, tree[i].1.object_name);
}

proof fn lemma_decided(
    db: Map<ObjectSha, Seq<u8>>,
    name: Seq<u8>,
    base: Side,
    ours: Side,
    theirs: Side,
    depth: nat,
)
    ensures
        decided(db, name, base, ours, theirs, depth) matches Err(x) && x is Cyclic ==> (
        ours matches Some((_, oid)) && deep(db, oid, depth + 1)),
    decreases depth, 0nat,
{
    if let (Some((_, oid)), Some((_, their))) = (ours, theirs) {
        lemma_tree_in(db, oid);
        lemma_tree_in(db, their);
        if let Some((_, b)) = base {
            lemma_tree_in(db, b);
        }
        let trees = (
            crate::merge::side_tree(db, base),
            tree_in(db, oid),
            crate::merge::side_tree(db, theirs),
        );
        if let (Ok(b), Ok(o), Ok(t)) = trees {
            if depth == 0 {
                lemma_deep_one(db, oid);
            } else {
                let names = crate::merge::all_names(b, o, t);
                lemma_merged(db, b, o, t, names, (depth - 1) as nat);
                if deep_below(db, o, depth) {
                    lemma_deep_more(db, oid, o, depth);
                }
            }
        }
    }
}

proof fn lemma_merged(
    db: Map<ObjectSha, Seq<u8>>,
    base: Seq<(Seq<u8>, TreeEntry)>,
    ours: Seq<(Seq<u8>, TreeEntry)>,
    theirs: Seq<(Seq<u8>, TreeEntry)>,
    names: Seq<(Seq<u8>, ())>,
    depth: nat,
)
    ensures
        merged(db, base, ours, theirs, names, depth) matches Err(x) && x is Cyclic ==> deep_below(
            db,
            ours,
            depth + 1,
        ),
    decreases depth, 1 + names.len(),
{
    if names.len() > 0 {
        let name = names.last().0;
        lemma_merged(db, base, ours, theirs, names.drop_last(), depth);
        lemma_decided(
            db,
            name,
            side_of(lookup(base, name)),
            side_of(lookup(ours, name)),
            side_of(lookup(theirs, name)),
            depth,
        );
        if deep_side(db, lookup(ours, name), depth + 1) {
            lemma_deep_found(db, ours, name, depth + 1);
        }
    }
}

/// Merging three trees is given up as cyclic only where the store holds a tree that lies within
/// itself.
pub proof fn law_merge_cycle_is_real(
    db: &ObjectDb,
    base: Seq<(Seq<u8>, TreeEntry)>,
    ours: Seq<(Seq<u8>, TreeEntry)>,
    theirs: Seq<(Seq<u8>, TreeEntry)>,
    names: Seq<(Seq<u8>, ())>,
)
    requires
        merged(db@, base, ours, theirs, names, db.count()) matches Err(e) && e is Cyclic,
    ensures
        has_cycle(db@),
{
    lemma_merged(db@, base, ours, theirs, names, db.count());
    let i = choose|i: int|
        0 <= i < ours.len() && deep(db@, (#[trigger] ours[i]).1.object_name, db.count() + 1);
    lemma_deep_cycle(db, ours[i].1.object_name);
}

/// Whether something was given up as cyclic.
pub open spec fn found_cyclic<T>(r: Result<T, MergeError>) -> bool {
    r matches Err(MergeError::Object(e)) && e is Cyclic
}

proof fn lemma_take_actions(
    db: Map<ObjectSha, Seq<u8>>,
    mode: crate::object::FileMode,
    oid: ObjectSha,
    path: Seq<u8>,
    depth: nat,
)
    ensures
        found_cyclic(take_actions(db, mode, oid, path, depth)) ==> deep(db, oid, depth + 1),
    decreases depth, 0nat,
{
    lemma_tree_in(db, oid);
    if let Ok(entries) = tree_in(db, oid) {
        if depth == 0 {
            lemma_deep_one(db, oid);
        } else {
            lemma_tree_actions(db, entries, path, (depth - 1) as nat);
            if deep_below(db, entries, depth) {
                lemma_deep_more(db, oid, entries, depth);
            }
        }
    }
}

proof fn lemma_tree_actions(
    db: Map<ObjectSha, Seq<u8>>,
    entries: Seq<(Seq<u8>, TreeEntry)>,
    path: Seq<u8>,
    depth: nat,
)
    ensures
        found_cyclic(tree_actions(db, entries, path, depth)) ==> deep_below(db, entries, depth + 1),
    decreases depth, 1 + entries.len(),
{
    if entries.len() > 0 {
        let front = entries.drop_last();
        let (name, e) = entries.last();
        let at = pushed(path, name);
        lemma_tree_actions(db, front, path, depth);
        lemma_take_actions(db, e.file_mode, e.object_name, at, depth);
        if tree_actions(db, front, path, depth) is Err {
            if deep_below(db, front, depth + 1) {
                lemma_deep_wider(db, front, entries, depth + 1);
            }
        } else {
            assert(entries[entries.len() - 1] == entries.last());
        }
    }
}

proof fn lemma_entry_actions(db: &ObjectDb, m: MergeModel, prefix: Seq<u8>)
    ensures
        found_cyclic(entry_actions(db@, m, prefix, db.count())) ==> has_cycle(db@),
    decreases m, 0int,
{
    match m {
        MergeModel::Take { name, mode, oid } => {
            let at = pushed(prefix, name);
            lemma_take_actions(db@, mode, oid, at, db.count());
            if deep(db@, oid, db.count() + 1) {
                lemma_deep_cycle(db, oid);
            }
        },
        MergeModel::Subtree { name, entries } => {
            let at = pushed(prefix, name);
            lemma_actions_upto(db, entries, entries.len() as int, at);
        },
        _ => {},
    }
}

proof fn lemma_actions_upto(db: &ObjectDb, entries: Seq<MergeModel>, n: int, prefix: Seq<u8>)
    ensures
        found_cyclic(actions_upto(db@, entries, n, prefix, db.count())) ==> has_cycle(db@),
    decreases entries, n,
{
    if 0 < n <= entries.len() {
        lemma_actions_upto(db, entries, n - 1, prefix);
        lemma_entry_actions(db, entries[n - 1], prefix);
    }
}

/// Carrying out the decisions of a merge is given up as cyclic only where the store holds a tree
/// that lies within itself.
pub proof fn law_merge_actions_cycle_is_real(
    db: &ObjectDb,
    entries: Seq<MergeModel>,
    prefix: Seq<u8>,
)
    requires
        found_cyclic(merge_actions(db@, entries, prefix, db.count())),
    ensures
        has_cycle(db@),
{
    lemma_actions_upto(db, entries, entries.len() as int, prefix);
}

} // verus!
