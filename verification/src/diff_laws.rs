//! What a comparison of two trees tells: each file that differs, once.
use crate::byte_map::{
    ascending, has_key, lemma_lookup_at, lemma_with_names, lookup, with_names,
};
use crate::diff::{
    all_reversed, both_names, dirs_diff, entry_diff, files_at, files_in, law_diff_from_nothing,
    law_diff_reversed, law_no_self_diff, lemma_dir_reversed, name_diff, tree_diff, trees_diff,
    with_contents, BlobDiffModel, DiffModel,
};
use crate::merge::both_trees;
use crate::object::{
    blob_in, lemma_entries_ascend, tree_in, FileMode, ObjectError, ObjectSha, TreeEntry,
};
use crate::object_db::{lemma_count, ObjectDb};
use crate::unix_path::pushed;
use vstd::prelude::*;

verus! {

/// What is found from an entry on along some names, each in the directory before it.
pub open spec fn node_below(
    db: Map<ObjectSha, Seq<u8>>,
    e: Option<TreeEntry>,
    names: Seq<Seq<u8>>,
) -> Option<TreeEntry>
    decreases names.len(),
{
    if names.len() == 0 {
        e
    } else {
        match e {
            Some(x) => if x.file_mode == FileMode::Directory {
                match tree_in(db, x.object_name) {
                    Ok(t) => node_below(db, lookup(t, names[0]), names.drop_first()),
                    Err(_) => None,
                }
            } else {
                None
            },
            None => None,
        }
    }
}

/// The file that is found from an entry on along some names.
pub open spec fn file_below(
    db: Map<ObjectSha, Seq<u8>>,
    e: Option<TreeEntry>,
    names: Seq<Seq<u8>>,
) -> Option<TreeEntry> {
    match node_below(db, e, names) {
        Some(x) => if x.file_mode == FileMode::Directory {
            None
        } else {
            Some(x)
        },
        None => None,
    }
}

/// What is found in a tree along some names.
pub open spec fn node_in_tree(
    db: Map<ObjectSha, Seq<u8>>,
    t: Seq<(Seq<u8>, TreeEntry)>,
    names: Seq<Seq<u8>>,
) -> Option<TreeEntry> {
    if names.len() == 0 {
        None
    } else {
        node_below(db, lookup(t, names[0]), names.drop_first())
    }
}

/// The file that is found in a tree along some names.
pub open spec fn file_in_tree(
    db: Map<ObjectSha, Seq<u8>>,
    t: Seq<(Seq<u8>, TreeEntry)>,
    names: Seq<Seq<u8>>,
) -> Option<TreeEntry> {
    if names.len() == 0 {
        None
    } else {
        file_below(db, lookup(t, names[0]), names.drop_first())
    }
}

/// The path of some names below a directory.
pub open spec fn path_below(dir: Seq<u8>, names: Seq<Seq<u8>>) -> Seq<u8>
    decreases names.len(),
{
    if names.len() == 0 {
        dir
    } else {
        path_below(pushed(dir, names[0]), names.drop_first())
    }
}

/// What is told of a file that is there in one of two trees, or in both.
pub open spec fn told(a: Option<TreeEntry>, b: Option<TreeEntry>, path: Seq<u8>) -> DiffModel {
    match (a, b) {
        (None, Some(f)) => DiffModel::Added { path, mode: f.file_mode, oid: f.object_name },
        (Some(e), None) => DiffModel::Deleted { path, mode: e.file_mode, oid: e.object_name },
        (Some(e), Some(f)) => DiffModel::Modified {
            path,
            old_mode: e.file_mode,
            new_mode: f.file_mode,
            old_oid: e.object_name,
            new_oid: f.object_name,
        },
        (None, None) => arbitrary(),
    }
}

/// Whether two things that are found are both directories or both files, where both are found.
pub open spec fn same_kind(a: Option<TreeEntry>, b: Option<TreeEntry>) -> bool {
    match (a, b) {
        (Some(x), Some(y)) => (x.file_mode == FileMode::Directory) == (y.file_mode
            == FileMode::Directory),
        _ => true,
    }
}

/// Whether nothing below two entries is a directory on the one side and a file on the other.
pub open spec fn alike(
    db: Map<ObjectSha, Seq<u8>>,
    a: Option<TreeEntry>,
    b: Option<TreeEntry>,
) -> bool {
    forall|names: Seq<Seq<u8>>|
        same_kind(#[trigger] node_below(db, a, names), node_below(db, b, names))
}

/// Whether nothing in two trees is a directory in the one and a file in the other.
pub open spec fn trees_alike(
    db: Map<ObjectSha, Seq<u8>>,
    a: Seq<(Seq<u8>, TreeEntry)>,
    b: Seq<(Seq<u8>, TreeEntry)>,
) -> bool {
    forall|names: Seq<Seq<u8>>|
        same_kind(#[trigger] node_in_tree(db, a, names), node_in_tree(db, b, names))
}

/// Whether the differences are one for each file below two entries that differs, with `at` the
/// names that lead to it.
spec fn one_each(
    db: Map<ObjectSha, Seq<u8>>,
    a: Option<TreeEntry>,
    b: Option<TreeEntry>,
    path: Seq<u8>,
    d: Seq<DiffModel>,
    at: Seq<Seq<Seq<u8>>>,
) -> bool {
    &&& at.len() == d.len()
    &&& at.no_duplicates()
    &&& forall|i: int|
        0 <= i < d.len() ==> file_below(db, a, #[trigger] at[i]) != file_below(db, b, at[i]) && d[i]
            == told(file_below(db, a, at[i]), file_below(db, b, at[i]), path_below(path, at[i]))
    &&& forall|l: Seq<Seq<u8>>| #[trigger]
        file_below(db, a, l) != file_below(db, b, l) ==> at.contains(l)
}

/// Whether the differences are one for each file that differs in two trees under one of some names.
spec fn one_each_in(
    db: Map<ObjectSha, Seq<u8>>,
    a: Seq<(Seq<u8>, TreeEntry)>,
    b: Seq<(Seq<u8>, TreeEntry)>,
    names: Seq<(Seq<u8>, ())>,
    path: Seq<u8>,
    d: Seq<DiffModel>,
    at: Seq<Seq<Seq<u8>>>,
) -> bool {
    &&& at.len() == d.len()
    &&& at.no_duplicates()
    &&& forall|i: int|
        0 <= i < d.len() ==> (#[trigger] at[i]).len() > 0 && has_key(names, at[i][0])
            && file_in_tree(db, a, at[i]) != file_in_tree(db, b, at[i]) && d[i] == told(
            file_in_tree(db, a, at[i]),
            file_in_tree(db, b, at[i]),
            path_below(path, at[i]),
        )
    &&& forall|l: Seq<Seq<u8>>|
        l.len() > 0 && has_key(names, l[0]) && #[trigger] file_in_tree(db, a, l) != file_in_tree(
            db,
            b,
            l,
        ) ==> at.contains(l)
}

/// Whether the differences are one for each file that differs in two trees: `at` are the names that
/// lead to the files, one list for each difference and none twice.
pub open spec fn one_per_file(
    db: Map<ObjectSha, Seq<u8>>,
    a: Seq<(Seq<u8>, TreeEntry)>,
    b: Seq<(Seq<u8>, TreeEntry)>,
    d: Seq<DiffModel>,
    at: Seq<Seq<Seq<u8>>>,
) -> bool {
    &&& at.len() == d.len()
    &&& at.no_duplicates()
    &&& forall|i: int|
        0 <= i < d.len() ==> file_in_tree(db, a, #[trigger] at[i]) != file_in_tree(db, b, at[i])
            && d[i] == told(
            file_in_tree(db, a, at[i]),
            file_in_tree(db, b, at[i]),
            path_below(Seq::empty(), at[i]),
        )
    &&& forall|l: Seq<Seq<u8>>| #[trigger]
        file_in_tree(db, a, l) != file_in_tree(db, b, l) ==> at.contains(l)
}

/// A directory on one side only differs as it does from an empty one.
proof fn lemma_one_side(
    db: Map<ObjectSha, Seq<u8>>,
    t: Seq<(Seq<u8>, TreeEntry)>,
    path: Seq<u8>,
    depth: nat,
)
    requires
        ascending(t),
    ensures
        files_in(db, t, path, true, depth) == tree_diff(
            db,
            Seq::empty(),
            t,
            both_names(Seq::empty(), t),
            path,
            depth,
        ),
        files_in(db, t, path, false, depth) matches Ok(d) ==> tree_diff(
            db,
            t,
            Seq::empty(),
            both_names(t, Seq::empty()),
            path,
            depth,
        ) == Ok::<Seq<DiffModel>, ObjectError>(d),
{
    let none = Seq::<(Seq<u8>, TreeEntry)>::empty();
    law_diff_from_nothing(db, t, path, depth);
    if let Ok(d) = files_in(db, t, path, false, depth) {
        lemma_dir_reversed(db, t, path, false, depth);
        law_diff_reversed(db, none, t, both_names(none, t), path, depth);
        assert(all_reversed(all_reversed(d)) =~= d);
    }
}

/// The entries of a directory on one side; none where there is no directory.
spec fn side_entries(db: Map<ObjectSha, Seq<u8>>, e: Option<TreeEntry>) -> Seq<
    (Seq<u8>, TreeEntry),
> {
    match e {
        Some(x) => tree_in(db, x.object_name)->Ok_0,
        None => Seq::empty(),
    }
}

/// Whether a side is nothing, or a directory that can be read.
spec fn open_side(db: Map<ObjectSha, Seq<u8>>, e: Option<TreeEntry>) -> bool {
    e matches Some(x) ==> x.file_mode == FileMode::Directory && tree_in(db, x.object_name) is Ok
}

/// The names of a tree that can be read ascend.
pub proof fn lemma_tree_ascends(db: Map<ObjectSha, Seq<u8>>, oid: ObjectSha)
    ensures
        tree_in(db, oid) matches Ok(t) ==> ascending(t),
{
    if let Ok(t) = tree_in(db, oid) {
        lemma_entries_ascend(
            crate::object::payload_of_kind(db[oid], "tree"@)->Ok_0,
            true,
            Seq::empty(),
        );
    }
}

proof fn lemma_has_name(
    a: Seq<(Seq<u8>, TreeEntry)>,
    b: Seq<(Seq<u8>, TreeEntry)>,
    k: Seq<u8>,
)
    ensures
        ascending(both_names(a, b)),
        lookup(a, k) is Some || lookup(b, k) is Some ==> has_key(both_names(a, b), k),
{
    let none = Seq::<(Seq<u8>, ())>::empty();
    lemma_with_names(none, a);
    lemma_with_names(with_names(none, a), b);
    if lookup(a, k) is Some {
        assert(a[crate::byte_map::rank(a, k)].0 == k);
        assert(has_key(a, k));
    }
    if lookup(b, k) is Some {
        assert(b[crate::byte_map::rank(b, k)].0 == k);
        assert(has_key(b, k));
    }
    assert(has_key(both_names(a, b), k) <==> has_key(with_names(none, a), k) || has_key(b, k));
    assert(has_key(with_names(none, a), k) <==> has_key(none, k) || has_key(a, k));
}

/// Below sides that can be opened, what is found is what is found in their trees.
proof fn lemma_opened(db: Map<ObjectSha, Seq<u8>>, e: Option<TreeEntry>, l: Seq<Seq<u8>>)
    requires
        open_side(db, e),
    ensures
        l.len() > 0 ==> node_below(db, e, l) == node_in_tree(db, side_entries(db, e), l),
        file_below(db, e, l) == file_in_tree(db, side_entries(db, e), l),
{
    if e is None && l.len() > 0 {
        lemma_nothing_below(db, l.drop_first());
    }
}

proof fn lemma_nothing_below(db: Map<ObjectSha, Seq<u8>>, l: Seq<Seq<u8>>)
    ensures
        node_below(db, None, l) is None,
{
}

proof fn lemma_one_each(
    db: Map<ObjectSha, Seq<u8>>,
    a: Option<TreeEntry>,
    b: Option<TreeEntry>,
    path: Seq<u8>,
    depth: nat,
) -> (at: Seq<Seq<Seq<u8>>>)
    requires
        name_diff(db, a, b, path, depth) is Ok,
        alike(db, a, b),
    ensures
        one_each(db, a, b, path, name_diff(db, a, b, path, depth)->Ok_0, at),
    decreases depth, 0nat,
{
    let d = name_diff(db, a, b, path, depth)->Ok_0;
    let here = Seq::<Seq<u8>>::empty();
    if a == b {
        assert(d =~= Seq::empty());
        Seq::empty()
    } else if (a matches Some(e) && e.file_mode == FileMode::Directory) || (b matches Some(f)
        && f.file_mode == FileMode::Directory) {
        assert(node_below(db, a, here) == a && node_below(db, b, here) == b);
        assert(open_side(db, a) && open_side(db, b) && depth > 0);
        let s = side_entries(db, a);
        let t = side_entries(db, b);
        let less = (depth - 1) as nat;
        if let Some(e) = a {
            lemma_tree_ascends(db, e.object_name);
        }
        if let Some(f) = b {
            lemma_tree_ascends(db, f.object_name);
        }
        if b is None {
            lemma_one_side(db, s, path, less);
        }
        if a is None {
            lemma_one_side(db, t, path, less);
        }
        assert(tree_diff(db, s, t, both_names(s, t), path, less) == Ok::<
            Seq<DiffModel>,
            ObjectError,
        >(d));
        assert(trees_alike(db, s, t)) by {
            assert forall|l: Seq<Seq<u8>>|
                same_kind(#[trigger] node_in_tree(db, s, l), node_in_tree(db, t, l)) by {
                lemma_opened(db, a, l);
                lemma_opened(db, b, l);
                if l.len() > 0 {
                    assert(node_below(db, a, l) == node_in_tree(db, s, l));
                    assert(node_below(db, b, l) == node_in_tree(db, t, l));
                }
            }
        }
        lemma_has_name(s, t, Seq::empty());
        let at = lemma_one_each_in(db, s, t, both_names(s, t), path, less);
        assert forall|i: int| 0 <= i < d.len() implies file_below(db, a, #[trigger] at[i])
            != file_below(db, b, at[i]) && d[i] == told(
            file_below(db, a, at[i]),
            file_below(db, b, at[i]),
            path_below(path, at[i]),
        ) by {
            lemma_opened(db, a, at[i]);
            lemma_opened(db, b, at[i]);
        }
        assert forall|l: Seq<Seq<u8>>| #[trigger]
            file_below(db, a, l) != file_below(db, b, l) implies at.contains(l) by {
            lemma_opened(db, a, l);
            lemma_opened(db, b, l);
            if l.len() > 0 {
                lemma_has_name(s, t, l[0]);
                lemma_nothing_below(db, l.drop_first());
            }
        }
        at
    } else {
        let at = seq![here];
        assert(path_below(path, here) == path);
        assert(file_below(db, a, here) == a && file_below(db, b, here) == b);
        assert(d =~= seq![told(a, b, path)]);
        assert forall|l: Seq<Seq<u8>>| #[trigger]
            file_below(db, a, l) != file_below(db, b, l) implies at.contains(l) by {
            if l.len() == 0 {
                assert(l =~= here);
                assert(at[0] == l);
            }
        }
        at
    }
}

proof fn lemma_one_each_in(
    db: Map<ObjectSha, Seq<u8>>,
    a: Seq<(Seq<u8>, TreeEntry)>,
    b: Seq<(Seq<u8>, TreeEntry)>,
    names: Seq<(Seq<u8>, ())>,
    path: Seq<u8>,
    depth: nat,
) -> (at: Seq<Seq<Seq<u8>>>)
    requires
        tree_diff(db, a, b, names, path, depth) is Ok,
        ascending(names),
        trees_alike(db, a, b),
    ensures
        one_each_in(db, a, b, names, path, tree_diff(db, a, b, names, path, depth)->Ok_0, at),
    decreases depth, 1 + names.len(),
{
    let d = tree_diff(db, a, b, names, path, depth)->Ok_0;
    if names.len() == 0 {
        Seq::empty()
    } else {
        let front = names.drop_last();
        let k = names.last().0;
        let x = lookup(a, k);
        let y = lookup(b, k);
        assert(ascending(front)) by {
            assert forall|i: int, j: int| 0 <= i < j < front.len() implies crate::bytes::lex_lt(
                #[trigger] front[i].0,
                #[trigger] front[j].0,
            ) by {
                assert(names[i] == front[i] && names[j] == front[j]);
            }
        }
        let before = lemma_one_each_in(db, a, b, front, path, depth);
        assert(alike(db, x, y)) by {
            assert forall|l: Seq<Seq<u8>>|
                same_kind(#[trigger] node_below(db, x, l), node_below(db, y, l)) by {
                let whole = seq![k] + l;
                assert(whole.drop_first() =~= l);
                assert(whole[0] == k);
                assert(node_in_tree(db, a, whole) == node_below(db, x, l));
                assert(node_in_tree(db, b, whole) == node_below(db, y, l));
            }
        }
        let d0 = tree_diff(db, a, b, front, path, depth)->Ok_0;
        let d1 = name_diff(db, x, y, pushed(path, k), depth)->Ok_0;
        let here = lemma_one_each(db, x, y, pushed(path, k), depth);
        let more = Seq::new(here.len(), |i: int| seq![k] + here[i]);
        let at = before + more;
        assert(d == d0 + d1);
        assert forall|l: Seq<Seq<u8>>| #![trigger seq![k] + l]
            (seq![k] + l).drop_first() == l && (seq![k] + l)[0] == k by {
            assert((seq![k] + l).drop_first() =~= l);
        }
        assert forall|i: int| 0 <= i < before.len() implies (#[trigger] before[i])[0] != k by {
            let j = choose|j: int| 0 <= j < front.len() && (#[trigger] front[j]).0 == before[i][0];
            assert(names[j].0 == front[j].0);
            assert(crate::bytes::lex_lt(names[j].0, names[names.len() - 1].0));
            crate::bytes::lemma_lex_irreflexive(k);
        }
        assert(at.no_duplicates()) by {
            assert forall|i: int, j: int|
                0 <= i < at.len() && 0 <= j < at.len() && i != j implies at[i] != at[j] by {
                let n = before.len() as int;
                if i >= n {
                    assert(at[i] == seq![k] + here[i - n]);
                    if j >= n {
                        assert(at[j] == seq![k] + here[j - n]);
                        assert(here[i - n] != here[j - n]);
                    } else {
                        assert(at[j] == before[j]);
                    }
                } else {
                    assert(at[i] == before[i]);
                    if j >= n {
                        assert(at[j] == seq![k] + here[j - n]);
                    } else {
                        assert(at[j] == before[j]);
                    }
                }
            }
        }
        assert forall|i: int| 0 <= i < d.len() implies (#[trigger] at[i]).len() > 0 && has_key(
            names,
            at[i][0],
        ) && file_in_tree(db, a, at[i]) != file_in_tree(db, b, at[i]) && d[i] == told(
            file_in_tree(db, a, at[i]),
            file_in_tree(db, b, at[i]),
            path_below(path, at[i]),
        ) by {
            let n = before.len() as int;
            if i < n {
                assert(at[i] == before[i]);
                let j = choose|j: int|
                    0 <= j < front.len() && (#[trigger] front[j]).0 == before[i][0];
                assert(names[j].0 == at[i][0]);
            } else {
                assert(at[i] == seq![k] + here[i - n]);
                assert(names[names.len() - 1].0 == k);
                assert(at[i].drop_first() == here[i - n]);
            }
        }
        assert forall|l: Seq<Seq<u8>>|
            l.len() > 0 && has_key(names, l[0]) && #[trigger] file_in_tree(db, a, l)
                != file_in_tree(db, b, l) implies at.contains(l) by {
            let n = before.len() as int;
            if l[0] == k {
                let r = l.drop_first();
                assert(file_below(db, x, r) != file_below(db, y, r));
                let i = choose|i: int| 0 <= i < here.len() && here[i] == r;
                assert(l =~= seq![k] + r);
                assert(at[n + i] == l);
            } else {
                let j = choose|j: int| 0 <= j < names.len() && (#[trigger] names[j]).0 == l[0];
                assert(front[j].0 == l[0]);
                assert(before.contains(l));
                let i = choose|i: int| 0 <= i < before.len() && before[i] == l;
                assert(at[i] == l);
            }
        }
        at
    }
}

/// Comparing two trees tells of each file whose mode or id differs, and of no other, once: as added
/// where only the second has it, as deleted where only the first has it, and as modified where both
/// have it. This holds of trees in which no name is a directory in the one and a file in the other.
pub proof fn law_diff_per_file(
    db: Map<ObjectSha, Seq<u8>>,
    a: Seq<(Seq<u8>, TreeEntry)>,
    b: Seq<(Seq<u8>, TreeEntry)>,
    depth: nat,
)
    requires
        trees_diff(db, a, b, depth) is Ok,
        trees_alike(db, a, b),
    ensures
        exists|at: Seq<Seq<Seq<u8>>>| #[trigger]
            one_per_file(db, a, b, trees_diff(db, a, b, depth)->Ok_0, at),
{
    lemma_has_name(a, b, Seq::empty());
    let at = lemma_one_each_in(db, a, b, both_names(a, b), Seq::empty(), depth);
    let d = trees_diff(db, a, b, depth)->Ok_0;
    assert forall|l: Seq<Seq<u8>>| #[trigger]
        file_in_tree(db, a, l) != file_in_tree(db, b, l) implies at.contains(l) by {
        if l.len() > 0 {
            lemma_has_name(a, b, l[0]);
            lemma_nothing_below(db, l.drop_first());
        }
    }
    assert(one_per_file(db, a, b, d, at));
}

/// Whether what is found is no directory, or one that can be read.
pub open spec fn opens(db: Map<ObjectSha, Seq<u8>>, n: Option<TreeEntry>) -> bool {
    match n {
        Some(x) => x.file_mode == FileMode::Directory ==> tree_in(db, x.object_name) is Ok,
        None => true,
    }
}

/// Whether every directory at and below an entry can be read.
pub open spec fn all_open(db: Map<ObjectSha, Seq<u8>>, e: Option<TreeEntry>) -> bool {
    forall|names: Seq<Seq<u8>>| opens(db, #[trigger] node_below(db, e, names))
}

/// Whether every directory in a tree can be read.
pub open spec fn all_open_in(db: Map<ObjectSha, Seq<u8>>, t: Seq<(Seq<u8>, TreeEntry)>) -> bool {
    forall|names: Seq<Seq<u8>>| opens(db, #[trigger] node_in_tree(db, t, names))
}

/// Whether what is found is a directory.
pub open spec fn is_dir(n: Option<TreeEntry>) -> bool {
    n matches Some(x) && x.file_mode == FileMode::Directory
}

/// Whether two trees differ at a directory of the first that lies within itself: two lists of
/// names, of which the one goes on where the other ends, lead to the same directory.
pub open spec fn comes_back(
    db: Map<ObjectSha, Seq<u8>>,
    t: Seq<(Seq<u8>, TreeEntry)>,
    other: Seq<(Seq<u8>, TreeEntry)>,
) -> bool {
    exists|outer: Seq<Seq<u8>>, inner: Seq<Seq<u8>>|
        {
            &&& #[trigger] outer.is_prefix_of(inner)
            &&& outer.len() < inner.len()
            &&& is_dir(node_in_tree(db, t, outer))
            &&& is_dir(node_in_tree(db, t, inner))
            &&& node_in_tree(db, t, outer)->Some_0.object_name == node_in_tree(
                db,
                t,
                inner,
            )->Some_0.object_name
            &&& node_in_tree(db, t, inner) != node_in_tree(db, other, inner)
        }
}

/// Whether two entries differ at a directory of the first that is found along `n` names and can be
/// read.
spec fn reaches_down(
    db: Map<ObjectSha, Seq<u8>>,
    a: Option<TreeEntry>,
    b: Option<TreeEntry>,
    n: nat,
) -> bool {
    exists|l: Seq<Seq<u8>>|
        l.len() == n && is_dir(#[trigger] node_below(db, a, l)) && tree_in(
            db,
            node_below(db, a, l)->Some_0.object_name,
        ) is Ok && node_below(db, a, l) != node_below(db, b, l)
}

/// The same of two trees.
spec fn reaches_down_in(
    db: Map<ObjectSha, Seq<u8>>,
    a: Seq<(Seq<u8>, TreeEntry)>,
    b: Seq<(Seq<u8>, TreeEntry)>,
    n: nat,
) -> bool {
    exists|l: Seq<Seq<u8>>|
        l.len() == n && n > 0 && is_dir(#[trigger] node_in_tree(db, a, l)) && tree_in(
            db,
            node_in_tree(db, a, l)->Some_0.object_name,
        ) is Ok && node_in_tree(db, a, l) != node_in_tree(db, b, l)
}

/// Whether a comparison of two entries was done, or went as far down as it may.
spec fn done_or_deep(
    db: Map<ObjectSha, Seq<u8>>,
    a: Option<TreeEntry>,
    b: Option<TreeEntry>,
    depth: nat,
    r: Result<Seq<DiffModel>, ObjectError>,
) -> bool {
    r is Ok || reaches_down(db, a, b, depth) || reaches_down(db, b, a, depth)
}

/// Whether a comparison of two trees was done, or went as far down as it may.
spec fn done_or_deep_in(
    db: Map<ObjectSha, Seq<u8>>,
    a: Seq<(Seq<u8>, TreeEntry)>,
    b: Seq<(Seq<u8>, TreeEntry)>,
    depth: nat,
    r: Result<Seq<DiffModel>, ObjectError>,
) -> bool {
    r is Ok || reaches_down_in(db, a, b, depth + 1) || reaches_down_in(db, b, a, depth + 1)
}

/// What is found from a directory on is found from its tree on.
proof fn lemma_down_inside(
    db: Map<ObjectSha, Seq<u8>>,
    a: Option<TreeEntry>,
    b: Option<TreeEntry>,
    n: nat,
)
    requires
        open_side(db, a),
        open_side(db, b),
        reaches_down_in(db, side_entries(db, a), side_entries(db, b), n),
    ensures
        reaches_down(db, a, b, n),
{
    let s = side_entries(db, a);
    let t = side_entries(db, b);
    let l = choose|l: Seq<Seq<u8>>|
        l.len() == n && n > 0 && is_dir(#[trigger] node_in_tree(db, s, l)) && tree_in(
            db,
            node_in_tree(db, s, l)->Some_0.object_name,
        ) is Ok && node_in_tree(db, s, l) != node_in_tree(db, t, l);
    lemma_opened(db, a, l);
    lemma_opened(db, b, l);
    assert(is_dir(node_below(db, a, l)));
}

/// What is found below a name of a tree is found in the tree.
proof fn lemma_down_child(
    db: Map<ObjectSha, Seq<u8>>,
    a: Seq<(Seq<u8>, TreeEntry)>,
    b: Seq<(Seq<u8>, TreeEntry)>,
    k: Seq<u8>,
    n: nat,
)
    requires
        reaches_down(db, lookup(a, k), lookup(b, k), n),
    ensures
        reaches_down_in(db, a, b, n + 1),
{
    let x = lookup(a, k);
    let y = lookup(b, k);
    let l = choose|l: Seq<Seq<u8>>|
        l.len() == n && is_dir(#[trigger] node_below(db, x, l)) && tree_in(
            db,
            node_below(db, x, l)->Some_0.object_name,
        ) is Ok && node_below(db, x, l) != node_below(db, y, l);
    let whole = seq![k] + l;
    assert(whole.drop_first() =~= l);
    assert(node_in_tree(db, a, whole) == node_below(db, x, l));
    assert(node_in_tree(db, b, whole) == node_below(db, y, l));
    assert(is_dir(node_in_tree(db, a, whole)));
}

/// Going along names one after another is going along all of them.
proof fn lemma_below_twice(
    db: Map<ObjectSha, Seq<u8>>,
    e: Option<TreeEntry>,
    p: Seq<Seq<u8>>,
    q: Seq<Seq<u8>>,
)
    ensures
        node_below(db, e, p + q) == node_below(db, node_below(db, e, p), q),
    decreases p.len(),
{
    if p.len() == 0 {
        assert(p + q =~= q);
    } else {
        assert((p + q).drop_first() =~= p.drop_first() + q);
        assert((p + q)[0] == p[0]);
        match e {
            Some(x) => {
                if x.file_mode == FileMode::Directory {
                    if let Ok(t) = tree_in(db, x.object_name) {
                        lemma_below_twice(db, lookup(t, p[0]), p.drop_first(), q);
                    } else {
                        lemma_nothing_below(db, q);
                    }
                } else {
                    lemma_nothing_below(db, q);
                }
            },
            None => {
                lemma_nothing_below(db, q);
            },
        }
    }
}

/// What lies on the way to a directory is a directory that can be read, and where two trees differ
/// they differ on the way there.
proof fn lemma_on_the_way(
    db: Map<ObjectSha, Seq<u8>>,
    t: Seq<(Seq<u8>, TreeEntry)>,
    other: Seq<(Seq<u8>, TreeEntry)>,
    l: Seq<Seq<u8>>,
    n: int,
)
    requires
        0 < n <= l.len(),
        is_dir(node_in_tree(db, t, l)),
        tree_in(db, node_in_tree(db, t, l)->Some_0.object_name) is Ok,
        node_in_tree(db, t, l) != node_in_tree(db, other, l),
    ensures
        is_dir(node_in_tree(db, t, l.subrange(0, n))),
        tree_in(db, node_in_tree(db, t, l.subrange(0, n))->Some_0.object_name) is Ok,
        node_in_tree(db, t, l.subrange(0, n)) != node_in_tree(db, other, l.subrange(0, n)),
{
    let p = l.subrange(0, n);
    let q = l.subrange(n, l.len() as int);
    assert(l.drop_first() =~= p.drop_first() + q);
    assert(l[0] == p[0]);
    lemma_below_twice(db, lookup(t, l[0]), p.drop_first(), q);
    lemma_below_twice(db, lookup(other, l[0]), p.drop_first(), q);
    if q.len() == 0 {
        assert(p =~= l);
    }
}

/// A way down that is longer than there are objects comes back to one of them.
proof fn lemma_comes_back(
    db: &ObjectDb,
    t: Seq<(Seq<u8>, TreeEntry)>,
    other: Seq<(Seq<u8>, TreeEntry)>,
)
    requires
        reaches_down_in(db@, t, other, db.count() + 1),
    ensures
        comes_back(db@, t, other),
{
    let l = choose|l: Seq<Seq<u8>>|
        l.len() == db.count() + 1 && is_dir(#[trigger] node_in_tree(db@, t, l)) && tree_in(
            db@,
            node_in_tree(db@, t, l)->Some_0.object_name,
        ) is Ok && node_in_tree(db@, t, l) != node_in_tree(db@, other, l);
    let ids = Seq::new(
        l.len(),
        |i: int| node_in_tree(db@, t, l.subrange(0, i + 1))->Some_0.object_name,
    );
    assert forall|i: int| 0 <= i < ids.len() implies db@.contains_key(#[trigger] ids[i]) by {
        lemma_on_the_way(db@, t, other, l, i + 1);
    }
    if ids.no_duplicates() {
        lemma_count(db, ids);
    }
    let (i, j) = choose|i: int, j: int|
        0 <= i < ids.len() && 0 <= j < ids.len() && i != j && ids[i] == ids[j];
    let a = if i < j {
        i
    } else {
        j
    };
    let b = if i < j {
        j
    } else {
        i
    };
    lemma_on_the_way(db@, t, other, l, a + 1);
    lemma_on_the_way(db@, t, other, l, b + 1);
    let outer = l.subrange(0, a + 1);
    let inner = l.subrange(0, b + 1);
    assert(inner.subrange(0, outer.len() as int) =~= outer);
    assert(outer.is_prefix_of(inner));
    assert(ids[a] == ids[b]);
}

/// The tree of an entry all of which can be read can all be read.
proof fn lemma_open_inside(db: Map<ObjectSha, Seq<u8>>, e: TreeEntry)
    requires
        all_open(db, Some(e)),
        e.file_mode == FileMode::Directory,
    ensures
        tree_in(db, e.object_name) is Ok,
        all_open_in(db, tree_in(db, e.object_name)->Ok_0),
{
    let here = Seq::<Seq<u8>>::empty();
    assert(node_below(db, Some(e), here) == Some(e));
    let t = tree_in(db, e.object_name)->Ok_0;
    assert forall|l: Seq<Seq<u8>>| opens(db, #[trigger] node_in_tree(db, t, l)) by {
        if l.len() > 0 {
            assert(node_in_tree(db, t, l) == node_below(db, Some(e), l));
        }
    }
}

/// What a tree holds under a name can be read where all of the tree can.
proof fn lemma_open_child(db: Map<ObjectSha, Seq<u8>>, t: Seq<(Seq<u8>, TreeEntry)>, k: Seq<u8>)
    requires
        all_open_in(db, t),
    ensures
        all_open(db, lookup(t, k)),
{
    assert forall|l: Seq<Seq<u8>>| opens(db, #[trigger] node_below(db, lookup(t, k), l)) by {
        let whole = seq![k] + l;
        assert(whole.drop_first() =~= l);
        assert(node_in_tree(db, t, whole) == node_below(db, lookup(t, k), l));
    }
}

proof fn lemma_files_done(
    db: Map<ObjectSha, Seq<u8>>,
    e: TreeEntry,
    path: Seq<u8>,
    added: bool,
    depth: nat,
)
    requires
        all_open(db, Some(e)),
    ensures
        files_at(db, e, path, added, depth) is Ok || reaches_down(db, Some(e), None, depth),
    decreases depth, 0nat,
{
    if e.file_mode == FileMode::Directory {
        lemma_open_inside(db, e);
        lemma_tree_ascends(db, e.object_name);
        if depth == 0 {
            let here = Seq::<Seq<u8>>::empty();
            assert(is_dir(node_below(db, Some(e), here)));
        } else {
            let t = tree_in(db, e.object_name)->Ok_0;
            lemma_dir_done(db, t, t.len() as int, path, added, (depth - 1) as nat);
            assert(t.subrange(0, t.len() as int) =~= t);
            if reaches_down_in(db, t, Seq::empty(), depth) {
                lemma_down_inside(db, Some(e), None, depth);
            }
        }
    }
}

proof fn lemma_dir_done(
    db: Map<ObjectSha, Seq<u8>>,
    t: Seq<(Seq<u8>, TreeEntry)>,
    n: int,
    path: Seq<u8>,
    added: bool,
    depth: nat,
)
    requires
        all_open_in(db, t),
        ascending(t),
        0 <= n <= t.len(),
    ensures
        files_in(db, t.subrange(0, n), path, added, depth) is Ok || reaches_down_in(
            db,
            t,
            Seq::empty(),
            depth + 1,
        ),
    decreases depth, 1 + n,
{
    if n > 0 {
        let (name, e) = t[n - 1];
        assert(t.subrange(0, n).drop_last() =~= t.subrange(0, n - 1));
        lemma_dir_done(db, t, n - 1, path, added, depth);
        lemma_lookup_at(t, n - 1);
        lemma_open_child(db, t, name);
        lemma_files_done(db, e, pushed(path, name), added, depth);
        if reaches_down(db, Some(e), None, depth) {
            lemma_down_child(db, t, Seq::empty(), name, depth);
        }
    }
}

proof fn lemma_name_done(
    db: Map<ObjectSha, Seq<u8>>,
    a: Option<TreeEntry>,
    b: Option<TreeEntry>,
    path: Seq<u8>,
    depth: nat,
)
    requires
        all_open(db, a),
        all_open(db, b),
    ensures
        done_or_deep(db, a, b, depth, name_diff(db, a, b, path, depth)),
    decreases depth, 0nat,
{
    match (a, b) {
        (None, None) => {},
        (Some(e), None) => lemma_files_done(db, e, path, false, depth),
        (None, Some(f)) => lemma_files_done(db, f, path, true, depth),
        (Some(e), Some(f)) => {
            if e != f && e.file_mode == FileMode::Directory && f.file_mode == FileMode::Directory {
                lemma_open_inside(db, e);
                lemma_open_inside(db, f);
                if depth == 0 {
                    let here = Seq::<Seq<u8>>::empty();
                    assert(is_dir(node_below(db, a, here)));
                } else {
                    let s = tree_in(db, e.object_name)->Ok_0;
                    let t = tree_in(db, f.object_name)->Ok_0;
                    lemma_tree_done(db, s, t, both_names(s, t), path, (depth - 1) as nat);
                    if reaches_down_in(db, s, t, depth) {
                        lemma_down_inside(db, a, b, depth);
                    }
                    if reaches_down_in(db, t, s, depth) {
                        lemma_down_inside(db, b, a, depth);
                    }
                }
            }
        },
    }
}

proof fn lemma_tree_done(
    db: Map<ObjectSha, Seq<u8>>,
    a: Seq<(Seq<u8>, TreeEntry)>,
    b: Seq<(Seq<u8>, TreeEntry)>,
    names: Seq<(Seq<u8>, ())>,
    path: Seq<u8>,
    depth: nat,
)
    requires
        all_open_in(db, a),
        all_open_in(db, b),
    ensures
        done_or_deep_in(db, a, b, depth, tree_diff(db, a, b, names, path, depth)),
    decreases depth, 1 + names.len(),
{
    if names.len() > 0 {
        let k = names.last().0;
        lemma_tree_done(db, a, b, names.drop_last(), path, depth);
        lemma_open_child(db, a, k);
        lemma_open_child(db, b, k);
        lemma_name_done(db, lookup(a, k), lookup(b, k), pushed(path, k), depth);
        if reaches_down(db, lookup(a, k), lookup(b, k), depth) {
            lemma_down_child(db, a, b, k, depth);
        }
        if reaches_down(db, lookup(b, k), lookup(a, k), depth) {
            lemma_down_child(db, b, a, k, depth);
        }
    }
}

/// Two trees can be compared where every directory in them can be read and none at which they
/// differ lies within itself.
pub proof fn law_diff_succeeds(
    db: &ObjectDb,
    a: Seq<(Seq<u8>, TreeEntry)>,
    b: Seq<(Seq<u8>, TreeEntry)>,
)
    requires
        all_open_in(db@, a),
        all_open_in(db@, b),
        !comes_back(db@, a, b),
        !comes_back(db@, b, a),
    ensures
        trees_diff(db@, a, b, db.count()) is Ok,
{
    lemma_tree_done(db@, a, b, both_names(a, b), Seq::empty(), db.count());
    if reaches_down_in(db@, a, b, db.count() + 1) {
        lemma_comes_back(db, a, b);
    }
    if reaches_down_in(db@, b, a, db.count() + 1) {
        lemma_comes_back(db, b, a);
    }
}

/// Comparing the contents too tells of the same files, wherever each of them can be compared.
pub proof fn law_contents_keep_entries(db: Map<ObjectSha, Seq<u8>>, d: Seq<DiffModel>)
    ensures
        with_contents(db, d) is Ok <==> forall|i: int|
            0 <= i < d.len() ==> entry_diff(db, #[trigger] d[i]) is Ok,
        with_contents(db, d) matches Ok(v) ==> v.len() == d.len() && forall|i: int|
            0 <= i < d.len() ==> (#[trigger] v[i]).0 == d[i],
    decreases d.len(),
{
    if d.len() > 0 {
        let front = d.drop_last();
        law_contents_keep_entries(db, front);
        if forall|i: int| 0 <= i < d.len() ==> entry_diff(db, #[trigger] d[i]) is Ok {
            assert forall|i: int| 0 <= i < front.len() implies entry_diff(
                db,
                #[trigger] front[i],
            ) is Ok by {
                assert(entry_diff(db, d[i]) is Ok);
            }
            assert(entry_diff(db, d[d.len() - 1]) is Ok);
        }
        if with_contents(db, d) is Ok {
            assert forall|i: int| 0 <= i < d.len() implies entry_diff(
                db,
                #[trigger] d[i],
            ) is Ok by {
                if i < front.len() {
                    assert(entry_diff(db, front[i]) is Ok);
                }
            }
        }
    }
}

/// Whether every file in a tree is a blob that the store holds.
pub open spec fn all_stored_in(db: Map<ObjectSha, Seq<u8>>, t: Seq<(Seq<u8>, TreeEntry)>) -> bool {
    forall|names: Seq<Seq<u8>>|
        (#[trigger] file_in_tree(db, t, names)) is Some ==> blob_in(
            db,
            file_in_tree(db, t, names)->Some_0.object_name,
        ) is Ok
}

/// The files that a comparison with contents tells of.
pub open spec fn entries_told(v: Seq<(DiffModel, BlobDiffModel)>) -> Seq<DiffModel> {
    Seq::new(v.len(), |i: int| v[i].0)
}

/// Where the two sides of each difference can be read, the comparison with contents tells of the
/// same files.
proof fn lemma_contents_told(db: Map<ObjectSha, Seq<u8>>, d: Seq<DiffModel>)
    requires
        forall|i: int| 0 <= i < d.len() ==> entry_diff(db, #[trigger] d[i]) is Ok,
    ensures
        with_contents(db, d) is Ok,
        entries_told(with_contents(db, d)->Ok_0) == d,
{
    law_contents_keep_entries(db, d);
    assert(entries_told(with_contents(db, d)->Ok_0) =~= d);
}

/// Two commits whose trees and blobs are all stored can be compared, as long as no directory at
/// which they differ lies within itself, and no name is a directory in the one and a file in the
/// other. The comparison tells of each file whose mode or id differs, and of no other, once; the
/// other way round it tells of the same files with added and deleted exchanged; and a commit does
/// not differ from itself.
pub proof fn law_diff_commits(db: &ObjectDb, x: ObjectSha, y: ObjectSha)
    requires
        both_trees(db@, x, y) is Ok,
        all_open_in(db@, both_trees(db@, x, y)->Ok_0.0),
        all_open_in(db@, both_trees(db@, x, y)->Ok_0.1),
        all_stored_in(db@, both_trees(db@, x, y)->Ok_0.0),
        all_stored_in(db@, both_trees(db@, x, y)->Ok_0.1),
        !comes_back(db@, both_trees(db@, x, y)->Ok_0.0, both_trees(db@, x, y)->Ok_0.1),
        !comes_back(db@, both_trees(db@, x, y)->Ok_0.1, both_trees(db@, x, y)->Ok_0.0),
        trees_alike(db@, both_trees(db@, x, y)->Ok_0.0, both_trees(db@, x, y)->Ok_0.1),
    ensures
        ({
            let (a, b) = both_trees(db@, x, y)->Ok_0;
            let there = dirs_diff(db@, a, b, db.count());
            let back = dirs_diff(db@, b, a, db.count());
            &&& there is Ok
            &&& exists|at: Seq<Seq<Seq<u8>>>| #[trigger]
                one_per_file(db@, a, b, entries_told(there->Ok_0), at)
            &&& both_trees(db@, y, x) == Ok::<
                (Seq<(Seq<u8>, TreeEntry)>, Seq<(Seq<u8>, TreeEntry)>),
                ObjectError,
            >((b, a))
            &&& back is Ok
            &&& entries_told(back->Ok_0) == all_reversed(entries_told(there->Ok_0))
            &&& both_trees(db@, x, x) == Ok::<
                (Seq<(Seq<u8>, TreeEntry)>, Seq<(Seq<u8>, TreeEntry)>),
                ObjectError,
            >((a, a))
            &&& dirs_diff(db@, a, a, db.count()) == Ok::<
                Seq<(DiffModel, BlobDiffModel)>,
                ObjectError,
            >(Seq::empty())
        }),
{
    let (a, b) = both_trees(db@, x, y)->Ok_0;
    let root = Seq::<u8>::empty();
    law_diff_succeeds(db, a, b);
    law_diff_per_file(db@, a, b, db.count());
    let d = trees_diff(db@, a, b, db.count())->Ok_0;
    let at = choose|at: Seq<Seq<Seq<u8>>>| #[trigger] one_per_file(db@, a, b, d, at);
    law_diff_reversed(db@, a, b, both_names(a, b), root, db.count());
    let e = all_reversed(d);
    assert forall|i: int| 0 <= i < d.len() implies entry_diff(db@, #[trigger] d[i]) is Ok
        && entry_diff(db@, e[i]) is Ok by {
        let l = at[i];
        assert(file_in_tree(db@, a, l) != file_in_tree(db@, b, l));
    }
    lemma_contents_told(db@, d);
    lemma_contents_told(db@, e);
    law_no_self_diff(db@, a, both_names(a, a), root, db.count());
}

} // verus!
