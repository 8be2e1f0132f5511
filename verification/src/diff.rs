//! Differences between trees, name by name, and between the files in them.
use crate::byte_map::{
    add_names, ascending, has_key, lemma_bind_last, lemma_lookup_at, lemma_same_names,
    lemma_with_names, lookup, with_names, ByteMap,
};
use crate::bytes::{copy_bytes, find_byte, lex_lt};
use crate::commit_object::CommitObject;
use crate::merge::both_trees;
use crate::object::{
    blob_in, read_loose_blob, tree_in, FileMode, ObjectError, ObjectSha, TreeEntry, TreeObject,
};
use crate::object_db::ObjectDb;
use crate::outside::{create_patch, patch_text};
use crate::text::{lemma_views_push, res_view, text_of, text_of_slice, views};
use crate::unix_path::{components, components_of, push_path, pushed};
use vstd::prelude::*;

verus! {

/// Where the content of one side comes from.
pub enum BlobSide<'a> {
    /// There is none.
    Empty,
    /// A blob in the store.
    Stored(&'a ObjectSha),
    /// A file of the working directory, with this content.
    Worktree(&'a [u8]),
}

/// The content of one side.
pub open spec fn side_content(db: Map<ObjectSha, Seq<u8>>, side: BlobSide) -> Result<
    Seq<u8>,
    ObjectError,
> {
    match side {
        BlobSide::Empty => Ok(Seq::empty()),
        BlobSide::Stored(oid) => blob_in(db, *oid),
        BlobSide::Worktree(content) => Ok(content@),
    }
}

/// How two contents differ.
#[derive(Debug)]
pub enum BlobDiff {
    /// As a unified diff of two texts.
    Text(String),
    /// At least one of them is not text.
    Binary,
}

/// The model of a [`BlobDiff`].
#[verifier::ext_equal]
pub enum BlobDiffModel {
    Text(Seq<char>),
    Binary,
}

impl View for BlobDiff {
    type V = BlobDiffModel;

    open spec fn view(&self) -> BlobDiffModel {
        match *self {
            BlobDiff::Text(s) => BlobDiffModel::Text(s@),
            BlobDiff::Binary => BlobDiffModel::Binary,
        }
    }
}

/// How two contents differ: text is what is UTF-8 and holds no zero byte.
pub open spec fn content_diff(old_bytes: Seq<u8>, new_bytes: Seq<u8>) -> BlobDiffModel {
    if old_bytes.contains(0) || new_bytes.contains(0) {
        BlobDiffModel::Binary
    } else {
        match (text_of(old_bytes), text_of(new_bytes)) {
            (Some(a), Some(b)) => BlobDiffModel::Text(patch_text(a, b)),
            _ => BlobDiffModel::Binary,
        }
    }
}

/// How two sides differ.
pub open spec fn sides_diff(
    db: Map<ObjectSha, Seq<u8>>,
    old_side: BlobSide,
    new_side: BlobSide,
) -> Result<BlobDiffModel, ObjectError> {
    match (side_content(db, old_side), side_content(db, new_side)) {
        (Err(e), _) => Err(e),
        (_, Err(e)) => Err(e),
        (Ok(a), Ok(b)) => Ok(content_diff(a, b)),
    }
}

fn read_blob_bytes(db: &ObjectDb, side: &BlobSide) -> (r: Result<Vec<u8>, ObjectError>)
    ensures
        res_view(r) == side_content(db@, *side),
{
    match side {
        BlobSide::Empty => {
            let none: Vec<u8> = Vec::new();
            assert(none@ =~= Seq::empty());
            Ok(none)
        },
        BlobSide::Stored(oid) => read_loose_blob(db, oid),
        BlobSide::Worktree(content) => Ok(copy_bytes(content)),
    }
}

fn is_binary(b: &[u8]) -> (r: bool)
    ensures
        r == b@.contains(0),
{
    find_byte(b, 0, 0) < b.len()
}

/// How two contents differ.
pub fn diff_bytes(old_bytes: &[u8], new_bytes: &[u8]) -> (r: BlobDiff)
    ensures
        r@ == content_diff(old_bytes@, new_bytes@),
{
    if is_binary(old_bytes) || is_binary(new_bytes) {
        return BlobDiff::Binary;
    }
    match (text_of_slice(old_bytes), text_of_slice(new_bytes)) {
        (Some(a), Some(b)) => BlobDiff::Text(create_patch(a.as_str(), b.as_str())),
        _ => BlobDiff::Binary,
    }
}

/// How two sides differ.
pub fn diff_blobs(db: &ObjectDb, old_side: BlobSide, new_side: BlobSide) -> (r: Result<
    BlobDiff,
    ObjectError,
>)
    ensures
        res_view(r) == sides_diff(db@, old_side, new_side),
{
    let a = match read_blob_bytes(db, &old_side) {
        Ok(a) => a,
        Err(e) => return Err(e),
    };
    let b = match read_blob_bytes(db, &new_side) {
        Ok(b) => b,
        Err(e) => return Err(e),
    };
    Ok(diff_bytes(a.as_slice(), b.as_slice()))
}

/// A file that is in one tree only, or in both and not the same.
#[derive(Debug)]
pub enum DiffEntry {
    Added { path: Vec<u8>, mode: FileMode, oid: ObjectSha },
    Deleted { path: Vec<u8>, mode: FileMode, oid: ObjectSha },
    Modified {
        path: Vec<u8>,
        old_mode: FileMode,
        new_mode: FileMode,
        old_oid: ObjectSha,
        new_oid: ObjectSha,
    },
}

/// The model of a [`DiffEntry`].
#[verifier::ext_equal]
pub enum DiffModel {
    Added { path: Seq<u8>, mode: FileMode, oid: ObjectSha },
    Deleted { path: Seq<u8>, mode: FileMode, oid: ObjectSha },
    Modified {
        path: Seq<u8>,
        old_mode: FileMode,
        new_mode: FileMode,
        old_oid: ObjectSha,
        new_oid: ObjectSha,
    },
}

impl View for DiffEntry {
    type V = DiffModel;

    open spec fn view(&self) -> DiffModel {
        match *self {
            DiffEntry::Added { path, mode, oid } => DiffModel::Added { path: path@, mode, oid },
            DiffEntry::Deleted { path, mode, oid } => DiffModel::Deleted { path: path@, mode, oid },
            DiffEntry::Modified {
                path,
                old_mode,
                new_mode,
                old_oid,
                new_oid,
            } => DiffModel::Modified { path: path@, old_mode, new_mode, old_oid, new_oid },
        }
    }
}

/// The path of a difference.
pub open spec fn diff_path(d: DiffModel) -> Seq<u8> {
    match d {
        DiffModel::Added { path, .. } => path,
        DiffModel::Deleted { path, .. } => path,
        DiffModel::Modified { path, .. } => path,
    }
}

impl DiffEntry {
    /// The path of the file.
    pub fn path(&self) -> (r: &[u8])
        ensures
            r@ == diff_path(self@),
    {
        match self {
            DiffEntry::Added { path, .. } => path.as_slice(),
            DiffEntry::Deleted { path, .. } => path.as_slice(),
            DiffEntry::Modified { path, .. } => path.as_slice(),
        }
    }
}

/// The difference that a file on one side only is.
pub open spec fn one_sided(e: TreeEntry, path: Seq<u8>, added: bool) -> DiffModel {
    if added {
        DiffModel::Added { path, mode: e.file_mode, oid: e.object_name }
    } else {
        DiffModel::Deleted { path, mode: e.file_mode, oid: e.object_name }
    }
}

/// The differences that a name on one side only makes: one for every file at or below it.
pub open spec fn files_at(
    db: Map<ObjectSha, Seq<u8>>,
    e: TreeEntry,
    path: Seq<u8>,
    added: bool,
    depth: nat,
) -> Result<Seq<DiffModel>, ObjectError>
    decreases depth, 0nat,
{
    if e.file_mode == FileMode::Directory {
        match tree_in(db, e.object_name) {
            Err(x) => Err(x),
            Ok(entries) => if depth == 0 {
                Err(ObjectError::Cyclic(e.object_name))
            } else {
                files_in(db, entries, path, added, (depth - 1) as nat)
            },
        }
    } else {
        Ok(seq![one_sided(e, path, added)])
    }
}

/// The differences that a directory on one side only makes.
pub open spec fn files_in(
    db: Map<ObjectSha, Seq<u8>>,
    entries: Seq<(Seq<u8>, TreeEntry)>,
    path: Seq<u8>,
    added: bool,
    depth: nat,
) -> Result<Seq<DiffModel>, ObjectError>
    decreases depth, 1 + entries.len(),
{
    if entries.len() == 0 {
        Ok(Seq::empty())
    } else {
        let (name, e) = entries.last();
        match files_in(db, entries.drop_last(), path, added, depth) {
            Err(x) => Err(x),
            Ok(before) => match files_at(db, e, pushed(path, name), added, depth) {
                Err(x) => Err(x),
                Ok(d) => Ok(before + d),
            },
        }
    }
}

/// The names in either of two trees, each once, in order.
pub open spec fn both_names(
    a: Seq<(Seq<u8>, TreeEntry)>,
    b: Seq<(Seq<u8>, TreeEntry)>,
) -> Seq<(Seq<u8>, ())> {
    with_names(with_names(Seq::empty(), a), b)
}

/// The differences that what is at a path in two trees makes.
pub open spec fn name_diff(
    db: Map<ObjectSha, Seq<u8>>,
    a: Option<TreeEntry>,
    b: Option<TreeEntry>,
    path: Seq<u8>,
    depth: nat,
) -> Result<Seq<DiffModel>, ObjectError>
    decreases depth, 0nat,
{
    match (a, b) {
        (None, None) => Ok(Seq::empty()),
        (Some(e), None) => files_at(db, e, path, false, depth),
        (None, Some(e)) => files_at(db, e, path, true, depth),
        (Some(e), Some(f)) => if e == f {
            Ok(Seq::empty())
        } else if e.file_mode == FileMode::Directory && f.file_mode == FileMode::Directory {
            match (tree_in(db, e.object_name), tree_in(db, f.object_name)) {
                (Err(x), _) => Err(x),
                (_, Err(x)) => Err(x),
                (Ok(s), Ok(t)) => if depth == 0 {
                    Err(ObjectError::Cyclic(e.object_name))
                } else {
                    tree_diff(db, s, t, both_names(s, t), path, (depth - 1) as nat)
                },
            }
        } else {
            Ok(
                seq![
                    DiffModel::Modified {
                        path,
                        old_mode: e.file_mode,
                        new_mode: f.file_mode,
                        old_oid: e.object_name,
                        new_oid: f.object_name,
                    },
                ],
            )
        },
    }
}

/// The differences of two trees at the given names, up to the first tree that cannot be read.
pub open spec fn tree_diff(
    db: Map<ObjectSha, Seq<u8>>,
    a: Seq<(Seq<u8>, TreeEntry)>,
    b: Seq<(Seq<u8>, TreeEntry)>,
    names: Seq<(Seq<u8>, ())>,
    path: Seq<u8>,
    depth: nat,
) -> Result<Seq<DiffModel>, ObjectError>
    decreases depth, 1 + names.len(),
{
    if names.len() == 0 {
        Ok(Seq::empty())
    } else {
        let name = names.last().0;
        match tree_diff(db, a, b, names.drop_last(), path, depth) {
            Err(x) => Err(x),
            Ok(before) => match name_diff(
                db,
                lookup(a, name),
                lookup(b, name),
                pushed(path, name),
                depth,
            ) {
                Err(x) => Err(x),
                Ok(d) => Ok(before + d),
            },
        }
    }
}

proof fn lemma_files_stop(
    db: Map<ObjectSha, Seq<u8>>,
    entries: Seq<(Seq<u8>, TreeEntry)>,
    path: Seq<u8>,
    added: bool,
    depth: nat,
    i: int,
)
    requires
        0 <= i <= entries.len(),
        files_in(db, entries.subrange(0, i), path, added, depth) is Err,
    ensures
        files_in(db, entries, path, added, depth) == files_in(
            db,
            entries.subrange(0, i),
            path,
            added,
            depth,
        ),
    decreases entries.len() - i,
{
    if i == entries.len() {
        assert(entries.subrange(0, i) =~= entries);
    } else {
        assert(entries.subrange(0, i + 1).drop_last() =~= entries.subrange(0, i));
        lemma_files_stop(db, entries, path, added, depth, i + 1);
    }
}

proof fn lemma_tree_diff_stops(
    db: Map<ObjectSha, Seq<u8>>,
    a: Seq<(Seq<u8>, TreeEntry)>,
    b: Seq<(Seq<u8>, TreeEntry)>,
    names: Seq<(Seq<u8>, ())>,
    path: Seq<u8>,
    depth: nat,
    i: int,
)
    requires
        0 <= i <= names.len(),
        tree_diff(db, a, b, names.subrange(0, i), path, depth) is Err,
    ensures
        tree_diff(db, a, b, names, path, depth) == tree_diff(
            db,
            a,
            b,
            names.subrange(0, i),
            path,
            depth,
        ),
    decreases names.len() - i,
{
    if i == names.len() {
        assert(names.subrange(0, i) =~= names);
    } else {
        assert(names.subrange(0, i + 1).drop_last() =~= names.subrange(0, i));
        lemma_tree_diff_stops(db, a, b, names, path, depth, i + 1);
    }
}

/// Whether the differences that `r` tells of were put behind those that were there.
spec fn appended(
    before: Seq<DiffModel>,
    after: Seq<DiffModel>,
    r: Result<(), ObjectError>,
    d: Result<Seq<DiffModel>, ObjectError>,
) -> bool {
    match r {
        Ok(_) => d is Ok && after == before + d->Ok_0,
        Err(x) => d == Err::<Seq<DiffModel>, ObjectError>(x),
    }
}

fn collect_files(
    db: &ObjectDb,
    e: &TreeEntry,
    path: Vec<u8>,
    added: bool,
    depth: usize,
    out: &mut Vec<DiffEntry>,
) -> (r: Result<(), ObjectError>)
    ensures
        appended(
            views(old(out)@),
            views(final(out)@),
            r,
            files_at(db@, *e, path@, added, depth as nat),
        ),
    decreases depth, 0nat,
{
    if e.file_mode == FileMode::Directory {
        let tree = match TreeObject::read_loose_tree(db, &e.object_name) {
            Ok(t) => t,
            Err(x) => return Err(x),
        };
        if depth == 0 {
            return Err(ObjectError::Cyclic(e.object_name));
        }
        collect_dir(db, tree.entries(), path.as_slice(), added, depth - 1, out)
    } else {
        let d = if added {
            DiffEntry::Added { path, mode: e.file_mode, oid: e.object_name }
        } else {
            DiffEntry::Deleted { path, mode: e.file_mode, oid: e.object_name }
        };
        proof {
            lemma_views_push(out@, d);
            assert(views(out@).push(d@) =~= views(out@) + seq![d@]);
        }
        out.push(d);
        Ok(())
    }
}

fn collect_dir(
    db: &ObjectDb,
    entries: &ByteMap<TreeEntry>,
    path: &[u8],
    added: bool,
    depth: usize,
    out: &mut Vec<DiffEntry>,
) -> (r: Result<(), ObjectError>)
    ensures
        appended(
            views(old(out)@),
            views(final(out)@),
            r,
            files_in(db@, entries@, path@, added, depth as nat),
        ),
    decreases depth, 1nat,
{
    let ghost before = views(out@);
    let mut i: usize = 0;
    assert(entries@.subrange(0, 0) =~= Seq::empty());
    assert(before + Seq::<DiffModel>::empty() =~= before);
    while i < entries.len()
        invariant
            0 <= i <= entries@.len(),
            appended(
                before,
                views(out@),
                Ok(()),
                files_in(db@, entries@.subrange(0, i as int), path@, added, depth as nat),
            ),
        decreases entries@.len() - i,
    {
        let e = entries.value_at(i);
        let rel = push_path(path, entries.key_at(i).as_slice());
        let ghost rel_bytes = rel@;
        let ghost a = files_in(
            db@,
            entries@.subrange(0, i as int),
            path@,
            added,
            depth as nat,
        )->Ok_0;
        proof {
            let upto = entries@.subrange(0, i + 1);
            assert(upto.drop_last() =~= entries@.subrange(0, i as int));
            assert(upto.last() == entries@[i as int]);
        }
        match collect_files(db, e, rel, added, depth, out) {
            Ok(_) => {
                proof {
                    let b = files_at(db@, *e, rel_bytes, added, depth as nat)->Ok_0;
                    assert(before + a + b =~= before + (a + b));
                }
            },
            Err(x) => {
                proof {
                    lemma_files_stop(db@, entries@, path@, added, depth as nat, i + 1);
                }
                return Err(x);
            },
        }
        i += 1;
    }
    assert(entries@.subrange(0, i as int) =~= entries@);
    Ok(())
}

fn diff_name(
    db: &ObjectDb,
    a: Option<&TreeEntry>,
    b: Option<&TreeEntry>,
    path: Vec<u8>,
    depth: usize,
    out: &mut Vec<DiffEntry>,
) -> (r: Result<(), ObjectError>)
    ensures
        appended(
            views(old(out)@),
            views(final(out)@),
            r,
            name_diff(
                db@,
                (match a {
                    Some(e) => Some(*e),
                    None => None,
                }),
                (match b {
                    Some(e) => Some(*e),
                    None => None,
                }),
                path@,
                depth as nat,
            ),
        ),
    decreases depth, 0nat,
{
    let ghost before = views(out@);
    assert(before + Seq::<DiffModel>::empty() =~= before);
    match (a, b) {
        (None, None) => Ok(()),
        (Some(e), None) => collect_files(db, e, path, false, depth, out),
        (None, Some(e)) => collect_files(db, e, path, true, depth, out),
        (Some(e), Some(f)) => {
            if e.object_name == f.object_name && e.file_mode == f.file_mode {
                return Ok(());
            }
            if e.file_mode == FileMode::Directory && f.file_mode == FileMode::Directory {
                let s = match TreeObject::read_loose_tree(db, &e.object_name) {
                    Ok(t) => t,
                    Err(x) => return Err(x),
                };
                let t = match TreeObject::read_loose_tree(db, &f.object_name) {
                    Ok(t) => t,
                    Err(x) => return Err(x),
                };
                if depth == 0 {
                    return Err(ObjectError::Cyclic(e.object_name));
                }
                diff_recursive(db, s.entries(), t.entries(), path.as_slice(), depth - 1, out)
            } else {
                let d = DiffEntry::Modified {
                    path,
                    old_mode: e.file_mode,
                    new_mode: f.file_mode,
                    old_oid: e.object_name,
                    new_oid: f.object_name,
                };
                proof {
                    lemma_views_push(out@, d);
                    assert(before.push(d@) =~= before + seq![d@]);
                }
                out.push(d);
                Ok(())
            }
        },
    }
}

fn diff_recursive(
    db: &ObjectDb,
    a: &ByteMap<TreeEntry>,
    b: &ByteMap<TreeEntry>,
    path: &[u8],
    depth: usize,
    out: &mut Vec<DiffEntry>,
) -> (r: Result<(), ObjectError>)
    ensures
        appended(
            views(old(out)@),
            views(final(out)@),
            r,
            tree_diff(db@, a@, b@, both_names(a@, b@), path@, depth as nat),
        ),
    decreases depth, 1nat,
{
    let mut names: ByteMap<()> = ByteMap::new();
    add_names(&mut names, a);
    add_names(&mut names, b);
    let ghost before = views(out@);
    let mut i: usize = 0;
    assert(names@.subrange(0, 0) =~= Seq::empty());
    assert(before + Seq::<DiffModel>::empty() =~= before);
    while i < names.len()
        invariant
            0 <= i <= names@.len(),
            names@ == both_names(a@, b@),
            appended(
                before,
                views(out@),
                Ok(()),
                tree_diff(db@, a@, b@, names@.subrange(0, i as int), path@, depth as nat),
            ),
        decreases names@.len() - i,
    {
        let name = names.key_at(i);
        let rel = push_path(path, name.as_slice());
        let x = a.get(name.as_slice());
        let y = b.get(name.as_slice());
        let ghost rel_bytes = rel@;
        let ghost d = tree_diff(
            db@,
            a@,
            b@,
            names@.subrange(0, i as int),
            path@,
            depth as nat,
        )->Ok_0;
        proof {
            let upto = names@.subrange(0, i + 1);
            assert(upto.drop_last() =~= names@.subrange(0, i as int));
            assert(upto.last() == names@[i as int]);
        }
        match diff_name(db, x, y, rel, depth, out) {
            Ok(_) => {
                proof {
                    let more = name_diff(
                        db@,
                        lookup(a@, name@),
                        lookup(b@, name@),
                        rel_bytes,
                        depth as nat,
                    )->Ok_0;
                    assert(before + d + more =~= before + (d + more));
                }
            },
            Err(e) => {
                proof {
                    lemma_tree_diff_stops(db@, a@, b@, names@, path@, depth as nat, i + 1);
                }
                return Err(e);
            },
        }
        i += 1;
    }
    assert(names@.subrange(0, i as int) =~= names@);
    Ok(())
}

/// The differences of two trees, whose paths start at the trees.
pub open spec fn trees_diff(
    db: Map<ObjectSha, Seq<u8>>,
    a: Seq<(Seq<u8>, TreeEntry)>,
    b: Seq<(Seq<u8>, TreeEntry)>,
    depth: nat,
) -> Result<Seq<DiffModel>, ObjectError> {
    tree_diff(db, a, b, both_names(a, b), Seq::empty(), depth)
}

/// Compares two trees, without looking into files.
pub fn diff_trees(db: &ObjectDb, old_tree: &TreeObject, new_tree: &TreeObject) -> (r: Result<
    Vec<DiffEntry>,
    ObjectError,
>)
    ensures
        (match r {
            Ok(v) => trees_diff(db@, old_tree.names(), new_tree.names(), db.count()) == Ok::<
                Seq<DiffModel>,
                ObjectError,
            >(views(v@)),
            Err(e) => trees_diff(db@, old_tree.names(), new_tree.names(), db.count()) == Err::<
                Seq<DiffModel>,
                ObjectError,
            >(e),
        }),
{
    let mut out: Vec<DiffEntry> = Vec::new();
    let root: Vec<u8> = Vec::new();
    assert(root@ =~= Seq::empty());
    match diff_recursive(
        db,
        old_tree.entries(),
        new_tree.entries(),
        root.as_slice(),
        db.len(),
        &mut out,
    ) {
        Ok(_) => {
            assert(views(out@) =~= trees_diff(
                db@,
                old_tree.names(),
                new_tree.names(),
                db.count(),
            )->Ok_0);
            Ok(out)
        },
        Err(e) => Err(e),
    }
}

/// The entries of the directory that a path of names leads to, from the tree with the given id;
/// nothing where a name is missing or is not a directory.
pub open spec fn tree_below(
    db: Map<ObjectSha, Seq<u8>>,
    oid: ObjectSha,
    path: Seq<Seq<u8>>,
) -> Result<Option<(ObjectSha, Seq<(Seq<u8>, TreeEntry)>)>, ObjectError>
    decreases path.len(),
{
    match tree_in(db, oid) {
        Err(e) => Err(e),
        Ok(t) => if path.len() == 0 {
            Ok(Some((oid, t)))
        } else {
            match lookup(t, path[0]) {
                None => Ok(None),
                Some(e) => if e.file_mode == FileMode::Directory {
                    tree_below(db, e.object_name, path.drop_first())
                } else {
                    Ok(None)
                },
            }
        },
    }
}

/// The directory below a tree that a path leads to.
pub fn subtree_at(db: &ObjectDb, tree: &TreeObject, path: &[u8]) -> (r: Result<
    Option<TreeObject>,
    ObjectError,
>)
    ensures
        tree_below(db@, tree.id(), components(path@)) == (match r {
            Err(e) => Err::<Option<(ObjectSha, Seq<(Seq<u8>, TreeEntry)>)>, ObjectError>(e),
            Ok(None) => Ok(None),
            Ok(Some(t)) => Ok(Some((t.id(), t.names()))),
        }),
{
    let parts = components_of(path);
    let ghost all = components(path@);
    let mut current = match TreeObject::read_loose_tree(db, tree.object_name()) {
        Ok(t) => t,
        Err(e) => return Err(e),
    };
    let mut i: usize = 0;
    assert(all.subrange(0, all.len() as int) =~= all);
    while i < parts.len()
        invariant
            0 <= i <= parts@.len(),
            all == views(parts@),
            all == components(path@),
            tree_in(db@, current.id()) == Ok::<Seq<(Seq<u8>, TreeEntry)>, ObjectError>(
                current.names(),
            ),
            tree_below(db@, tree.id(), all) == tree_below(
                db@,
                current.id(),
                all.subrange(i as int, all.len() as int),
            ),
        decreases parts@.len() - i,
    {
        proof {
            let rest = all.subrange(i as int, all.len() as int);
            assert(rest[0] == parts@[i as int]@);
            assert(rest.drop_first() =~= all.subrange(i + 1, all.len() as int));
        }
        let next = match current.entries().get(parts[i].as_slice()) {
            None => return Ok(None),
            Some(e) => {
                if e.file_mode != FileMode::Directory {
                    return Ok(None);
                }
                e.object_name
            },
        };
        current = match TreeObject::read_loose_tree(db, &next) {
            Ok(t) => t,
            Err(e) => {
                assert(tree_below(db@, next, all.subrange(i + 1, all.len() as int)) is Err);
                return Err(e);
            },
        };
        i += 1;
    }
    assert(all.subrange(i as int, all.len() as int).len() == 0);
    Ok(Some(current))
}

/// A file that differs, and how.
#[derive(Debug)]
pub struct FileContentDiff {
    pub entry: DiffEntry,
    pub diff: BlobDiff,
}

impl View for FileContentDiff {
    type V = (DiffModel, BlobDiffModel);

    open spec fn view(&self) -> (DiffModel, BlobDiffModel) {
        (self.entry@, self.diff@)
    }
}

/// How the contents of a file that differs do.
pub open spec fn entry_diff(db: Map<ObjectSha, Seq<u8>>, d: DiffModel) -> Result<
    BlobDiffModel,
    ObjectError,
> {
    match d {
        DiffModel::Added { oid, .. } => sides_diff(db, BlobSide::Empty, BlobSide::Stored(&oid)),
        DiffModel::Deleted { oid, .. } => sides_diff(db, BlobSide::Stored(&oid), BlobSide::Empty),
        DiffModel::Modified { old_oid, new_oid, .. } => sides_diff(
            db,
            BlobSide::Stored(&old_oid),
            BlobSide::Stored(&new_oid),
        ),
    }
}

/// The differences with how the contents differ, up to the first file that cannot be read.
pub open spec fn with_contents(db: Map<ObjectSha, Seq<u8>>, d: Seq<DiffModel>) -> Result<
    Seq<(DiffModel, BlobDiffModel)>,
    ObjectError,
>
    decreases d.len(),
{
    if d.len() == 0 {
        Ok(Seq::empty())
    } else {
        match with_contents(db, d.drop_last()) {
            Err(e) => Err(e),
            Ok(before) => match entry_diff(db, d.last()) {
                Err(e) => Err(e),
                Ok(c) => Ok(before.push((d.last(), c))),
            },
        }
    }
}

proof fn lemma_contents_stop(db: Map<ObjectSha, Seq<u8>>, d: Seq<DiffModel>, i: int)
    requires
        0 <= i <= d.len(),
        with_contents(db, d.subrange(0, i)) is Err,
    ensures
        with_contents(db, d) == with_contents(db, d.subrange(0, i)),
    decreases d.len() - i,
{
    if i == d.len() {
        assert(d.subrange(0, i) =~= d);
    } else {
        assert(d.subrange(0, i + 1).drop_last() =~= d.subrange(0, i));
        lemma_contents_stop(db, d, i + 1);
    }
}

/// The differences of two trees with how the contents differ.
pub open spec fn dirs_diff(
    db: Map<ObjectSha, Seq<u8>>,
    a: Seq<(Seq<u8>, TreeEntry)>,
    b: Seq<(Seq<u8>, TreeEntry)>,
    depth: nat,
) -> Result<Seq<(DiffModel, BlobDiffModel)>, ObjectError> {
    match trees_diff(db, a, b, depth) {
        Err(e) => Err(e),
        Ok(d) => with_contents(db, d),
    }
}

/// Compares two trees and the files in them.
pub fn diff_dirs(db: &ObjectDb, old_tree: &TreeObject, new_tree: &TreeObject) -> (r: Result<
    Vec<FileContentDiff>,
    ObjectError,
>)
    ensures
        (match r {
            Ok(v) => dirs_diff(db@, old_tree.names(), new_tree.names(), db.count()) == Ok::<
                Seq<(DiffModel, BlobDiffModel)>,
                ObjectError,
            >(views(v@)),
            Err(e) => dirs_diff(db@, old_tree.names(), new_tree.names(), db.count()) == Err::<
                Seq<(DiffModel, BlobDiffModel)>,
                ObjectError,
            >(e),
        }),
{
    let mut entries = match diff_trees(db, old_tree, new_tree) {
        Ok(v) => v,
        Err(e) => return Err(e),
    };
    let ghost all = views(entries@);
    let mut out: Vec<FileContentDiff> = Vec::new();
    let mut i: usize = 0;
    let n: usize = entries.len();
    assert(all.subrange(0, 0) =~= Seq::empty());
    assert(views(out@) =~= Seq::empty());
    while i < n
        invariant
            0 <= i <= n,
            n == all.len(),
            trees_diff(db@, old_tree.names(), new_tree.names(), db.count()) == Ok::<
                Seq<DiffModel>,
                ObjectError,
            >(all),
            views(entries@) == all.subrange(i as int, n as int),
            with_contents(db@, all.subrange(0, i as int)) == Ok::<
                Seq<(DiffModel, BlobDiffModel)>,
                ObjectError,
            >(views(out@)),
        decreases n - i,
    {
        proof {
            let upto = all.subrange(0, i + 1);
            assert(upto.drop_last() =~= all.subrange(0, i as int));
            assert(views(entries@).len() == n - i);
            assert(views(entries@)[0] == all[i as int]);
            assert(all.subrange(i as int, n as int).drop_first() =~= all.subrange(
                i + 1,
                n as int,
            ));
        }
        let ghost was = entries@;
        let entry = entries.remove(0);
        proof {
            assert(views(entries@) =~= views(was).drop_first());
        }
        let result = match &entry {
            DiffEntry::Added { oid, .. } => diff_blobs(db, BlobSide::Empty, BlobSide::Stored(oid)),
            DiffEntry::Deleted { oid, .. } => diff_blobs(
                db,
                BlobSide::Stored(oid),
                BlobSide::Empty,
            ),
            DiffEntry::Modified { old_oid, new_oid, .. } => diff_blobs(
                db,
                BlobSide::Stored(old_oid),
                BlobSide::Stored(new_oid),
            ),
        };
        match result {
            Ok(diff) => {
                let f = FileContentDiff { entry, diff };
                proof {
                    lemma_views_push(out@, f);
                }
                out.push(f);
            },
            Err(e) => {
                proof {
                    lemma_contents_stop(db@, all, i + 1);
                }
                return Err(e);
            },
        }
        i += 1;
    }
    assert(all.subrange(0, i as int) =~= all);
    Ok(out)
}

/// Compares the trees of two commits and the files in them.
pub fn diff_commits(db: &ObjectDb, old_commit: &ObjectSha, new_commit: &ObjectSha) -> (r: Result<
    Vec<FileContentDiff>,
    ObjectError,
>)
    ensures
        (match both_trees(db@, *old_commit, *new_commit) {
            Err(e) => r matches Err(x) && x == e,
            Ok((a, b)) => match r {
                Ok(v) => dirs_diff(db@, a, b, db.count()) == Ok::<
                    Seq<(DiffModel, BlobDiffModel)>,
                    ObjectError,
                >(views(v@)),
                Err(e) => dirs_diff(db@, a, b, db.count()) == Err::<
                    Seq<(DiffModel, BlobDiffModel)>,
                    ObjectError,
                >(e),
            },
        }),
{
    let a = match CommitObject::read_loose_commit(db, old_commit) {
        Ok(c) => c,
        Err(e) => return Err(e),
    };
    let b = match CommitObject::read_loose_commit(db, new_commit) {
        Ok(c) => c,
        Err(e) => return Err(e),
    };
    let s = match TreeObject::read_loose_tree(db, &a.tree) {
        Ok(t) => t,
        Err(e) => return Err(e),
    };
    let t = match TreeObject::read_loose_tree(db, &b.tree) {
        Ok(t) => t,
        Err(e) => return Err(e),
    };
    diff_dirs(db, &s, &t)
}

/// A tree does not differ from itself.
pub proof fn law_no_self_diff(
    db: Map<ObjectSha, Seq<u8>>,
    a: Seq<(Seq<u8>, TreeEntry)>,
    names: Seq<(Seq<u8>, ())>,
    path: Seq<u8>,
    depth: nat,
)
    ensures
        tree_diff(db, a, a, names, path, depth) == Ok::<Seq<DiffModel>, ObjectError>(Seq::empty()),
    decreases names.len(),
{
    if names.len() > 0 {
        let name = names.last().0;
        law_no_self_diff(db, a, names.drop_last(), path, depth);
        let none = Seq::<DiffModel>::empty();
        assert(name_diff(db, lookup(a, name), lookup(a, name), pushed(path, name), depth) == Ok::<
            Seq<DiffModel>,
            ObjectError,
        >(none));
        assert(none + none =~= none);
    }
}

proof fn lemma_added_names(b: Seq<(Seq<u8>, TreeEntry)>)
    requires
        ascending(b),
    ensures
        both_names(Seq::empty(), b).len() == b.len(),
        forall|i: int|
            0 <= i < b.len() ==> (#[trigger] both_names(Seq::empty(), b)[i]).0 == b[i].0,
    decreases b.len(),
{
    let none = Seq::<(Seq<u8>, TreeEntry)>::empty();
    if b.len() > 0 {
        let t = b.drop_last();
        lemma_added_names(t);
        let before = both_names(none, t);
        lemma_with_names(Seq::<(Seq<u8>, ())>::empty(), t);
        assert forall|i: int| 0 <= i < before.len() implies lex_lt(
            (#[trigger] before[i]).0,
            b.last().0,
        ) by {
            assert(before[i].0 == t[i].0);
            assert(b[i].0 == t[i].0);
        }
        lemma_bind_last(before, b.last().0, ());
    }
}

/// Against an empty tree, a tree differs by all its files, each added.
pub proof fn law_diff_from_nothing(
    db: Map<ObjectSha, Seq<u8>>,
    b: Seq<(Seq<u8>, TreeEntry)>,
    path: Seq<u8>,
    depth: nat,
)
    requires
        ascending(b),
    ensures
        tree_diff(db, Seq::empty(), b, both_names(Seq::empty(), b), path, depth) == files_in(
            db,
            b,
            path,
            true,
            depth,
        ),
{
    let none = Seq::<(Seq<u8>, TreeEntry)>::empty();
    let names = both_names(none, b);
    lemma_added_names(b);
    lemma_added_upto(db, b, names, path, depth, b.len() as int);
    assert(names.subrange(0, names.len() as int) =~= names);
    assert(b.subrange(0, b.len() as int) =~= b);
}

proof fn lemma_added_upto(
    db: Map<ObjectSha, Seq<u8>>,
    b: Seq<(Seq<u8>, TreeEntry)>,
    names: Seq<(Seq<u8>, ())>,
    path: Seq<u8>,
    depth: nat,
    n: int,
)
    requires
        ascending(b),
        0 <= n <= b.len(),
        names.len() == b.len(),
        forall|i: int| 0 <= i < b.len() ==> (#[trigger] names[i]).0 == b[i].0,
    ensures
        tree_diff(db, Seq::empty(), b, names.subrange(0, n), path, depth) == files_in(
            db,
            b.subrange(0, n),
            path,
            true,
            depth,
        ),
    decreases n,
{
    if n > 0 {
        let none = Seq::<(Seq<u8>, TreeEntry)>::empty();
        lemma_added_upto(db, b, names, path, depth, n - 1);
        assert(names.subrange(0, n).drop_last() =~= names.subrange(0, n - 1));
        assert(b.subrange(0, n).drop_last() =~= b.subrange(0, n - 1));
        assert(names.subrange(0, n).last() == names[n - 1]);
        assert(b.subrange(0, n).last() == b[n - 1]);
        assert(names[n - 1].0 == b[n - 1].0);
        lemma_lookup_at(b, n - 1);
        let (name, e) = b[n - 1];
        assert(lookup(none, name) is None);
        assert(lookup(b, name) == Some(e));
        assert(name_diff(db, None, Some(e), pushed(path, name), depth) == files_at(
            db,
            e,
            pushed(path, name),
            true,
            depth,
        ));
    }
}

/// A difference seen from the other side.
pub open spec fn reversed(d: DiffModel) -> DiffModel {
    match d {
        DiffModel::Added { path, mode, oid } => DiffModel::Deleted { path, mode, oid },
        DiffModel::Deleted { path, mode, oid } => DiffModel::Added { path, mode, oid },
        DiffModel::Modified { path, old_mode, new_mode, old_oid, new_oid } => DiffModel::Modified {
            path,
            old_mode: new_mode,
            new_mode: old_mode,
            old_oid: new_oid,
            new_oid: old_oid,
        },
    }
}

/// Differences seen from the other side.
pub open spec fn all_reversed(s: Seq<DiffModel>) -> Seq<DiffModel> {
    Seq::new(s.len(), |i: int| reversed(s[i]))
}

proof fn lemma_files_reversed(
    db: Map<ObjectSha, Seq<u8>>,
    e: TreeEntry,
    path: Seq<u8>,
    added: bool,
    depth: nat,
)
    ensures
        files_at(db, e, path, added, depth) matches Ok(d) ==> files_at(db, e, path, !added, depth)
            == Ok::<Seq<DiffModel>, ObjectError>(all_reversed(d)),
    decreases depth, 0nat,
{
    if e.file_mode == FileMode::Directory {
        if let Ok(entries) = tree_in(db, e.object_name) {
            if depth > 0 {
                lemma_dir_reversed(db, entries, path, added, (depth - 1) as nat);
            }
        }
    } else {
        assert(all_reversed(seq![one_sided(e, path, added)]) =~= seq![one_sided(e, path, !added)]);
    }
}

/// The files of a directory, added, are those of it, deleted, seen from the other side.
pub proof fn lemma_dir_reversed(
    db: Map<ObjectSha, Seq<u8>>,
    entries: Seq<(Seq<u8>, TreeEntry)>,
    path: Seq<u8>,
    added: bool,
    depth: nat,
)
    ensures
        files_in(db, entries, path, added, depth) matches Ok(d) ==> files_in(
            db,
            entries,
            path,
            !added,
            depth,
        ) == Ok::<Seq<DiffModel>, ObjectError>(all_reversed(d)),
    decreases depth, 1 + entries.len(),
{
    if entries.len() == 0 {
        assert(all_reversed(Seq::empty()) =~= Seq::empty());
    } else {
        let (name, e) = entries.last();
        lemma_dir_reversed(db, entries.drop_last(), path, added, depth);
        lemma_files_reversed(db, e, pushed(path, name), added, depth);
        if let (Ok(a), Ok(b)) = (
            files_in(db, entries.drop_last(), path, added, depth),
            files_at(db, e, pushed(path, name), added, depth),
        ) {
            assert(all_reversed(a + b) =~= all_reversed(a) + all_reversed(b));
        }
    }
}

proof fn lemma_names_swapped(a: Seq<(Seq<u8>, TreeEntry)>, b: Seq<(Seq<u8>, TreeEntry)>)
    ensures
        both_names(a, b) == both_names(b, a),
{
    let none = Seq::<(Seq<u8>, ())>::empty();
    lemma_with_names(none, a);
    lemma_with_names(none, b);
    lemma_with_names(with_names(none, a), b);
    lemma_with_names(with_names(none, b), a);
    assert forall|k: Seq<u8>| #[trigger]
        has_key(both_names(a, b), k) <==> has_key(both_names(b, a), k) by {}
    lemma_same_names(both_names(a, b), both_names(b, a));
}

proof fn lemma_name_diff_reversed(
    db: Map<ObjectSha, Seq<u8>>,
    a: Option<TreeEntry>,
    b: Option<TreeEntry>,
    path: Seq<u8>,
    depth: nat,
)
    ensures
        name_diff(db, a, b, path, depth) matches Ok(d) ==> name_diff(db, b, a, path, depth) == Ok::<
            Seq<DiffModel>,
            ObjectError,
        >(all_reversed(d)),
    decreases depth, 0nat,
{
    assert(all_reversed(Seq::empty()) =~= Seq::empty());
    match (a, b) {
        (None, None) => {},
        (Some(e), None) => {
            lemma_files_reversed(db, e, path, false, depth);
        },
        (None, Some(e)) => {
            lemma_files_reversed(db, e, path, true, depth);
        },
        (Some(e), Some(f)) => {
            if e != f {
                if e.file_mode == FileMode::Directory && f.file_mode == FileMode::Directory {
                    if let (Ok(s), Ok(t)) = (tree_in(db, e.object_name), tree_in(db, f.object_name)) {
                        if depth > 0 {
                            lemma_names_swapped(s, t);
                            law_diff_reversed(
                                db,
                                s,
                                t,
                                both_names(s, t),
                                path,
                                (depth - 1) as nat,
                            );
                        }
                    }
                } else if let Ok(d) = name_diff(db, a, b, path, depth) {
                    assert(name_diff(db, b, a, path, depth)->Ok_0 =~= all_reversed(d));
                }
            }
        },
    }
}

/// The differences of two trees are those of the same trees the other way round, reversed.
pub proof fn law_diff_reversed(
    db: Map<ObjectSha, Seq<u8>>,
    a: Seq<(Seq<u8>, TreeEntry)>,
    b: Seq<(Seq<u8>, TreeEntry)>,
    names: Seq<(Seq<u8>, ())>,
    path: Seq<u8>,
    depth: nat,
)
    ensures
        tree_diff(db, a, b, names, path, depth) matches Ok(d) ==> tree_diff(
            db,
            b,
            a,
            names,
            path,
            depth,
        ) == Ok::<Seq<DiffModel>, ObjectError>(all_reversed(d)),
        both_names(a, b) == both_names(b, a),
    decreases depth, 1 + names.len(),
{
    lemma_names_swapped(a, b);
    if names.len() == 0 {
        assert(all_reversed(Seq::empty()) =~= Seq::empty());
    } else {
        let name = names.last().0;
        law_diff_reversed(db, a, b, names.drop_last(), path, depth);
        lemma_name_diff_reversed(db, lookup(a, name), lookup(b, name), pushed(path, name), depth);
        if let (Ok(c), Ok(d)) = (
            tree_diff(db, a, b, names.drop_last(), path, depth),
            name_diff(db, lookup(a, name), lookup(b, name), pushed(path, name), depth),
        ) {
            assert(all_reversed(c + d) =~= all_reversed(c) + all_reversed(d));
        }
    }
}

} // verus!
