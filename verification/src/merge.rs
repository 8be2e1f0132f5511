//! Merging: three trees compared name by name, and what follows from it for the working directory
//! and the index.
use crate::byte_map::{
    add_names, ascending, has_key, lemma_same_names, lemma_with_names, lookup, with_names, ByteMap,
};
use crate::bytes::{copy_bytes, find_byte, lemma_find_from};
use crate::commit_object::{
    commit_at, commit_payload, commit_tree, CommitIdentity, CommitModel, CommitObject,
    IdentityModel,
};
use crate::git_paths::{branch_ref, get_branch_ref_path};
use crate::index::{
    add_fault, add_index, conflict_entries, index_form, insert_conflict_entries, mode_of_stat,
    normalize_entry_path_bytes, path_fault, sorted, times_fit, with_file, without_path, FileStat,
    IndexError, IndexFile, IndexModel,
};
use crate::index_tree::{
    node_entry, objects_of, raw_objects, tree_of_entries, NodeModel, TreeError, TreeNode,
};
use crate::merge_base::{find_merge_base, is_ancestor, meets, walk_fault};
use crate::object::{
    blob_in, framed, hash_object, oid_of_raw, read_loose_blob, tree_in, FileMode, ObjectError,
    ObjectSha, TreeEntry, TreeObject,
};
use crate::object_db::ObjectDb;
use crate::outside::{merge_text, merged_text, zlib_deflated};
use crate::reference::{read_sha1, ref_text, sha1_in, text_for, RefUpdate, UpdateModel};
use crate::text::{
    chars_of, lemma_views_push, res_view, string_of, text_of, text_of_slice, trim, trimmed, views,
};
use crate::unix_path::{push_path, pushed};
use vstd::prelude::*;
use vstd::utf8::encode_utf8;

verus! {

/// What is at a name on one side, if anything.
pub type Side = Option<(FileMode, ObjectSha)>;

/// What a three-way comparison decides for one name.
#[derive(Debug)]
pub enum MergeEntry {
    /// The name is in the result as it is: unchanged, changed on one side only, or changed alike.
    Take { name: Vec<u8>, mode: FileMode, oid: ObjectSha },
    /// The name is not in the result.
    Delete { name: Vec<u8> },
    /// Both sides changed it, and differently.
    Conflict { name: Vec<u8>, base: Side, ours: Side, theirs: Side },
    /// Both sides hold different directories, which were compared in turn.
    Subtree { name: Vec<u8>, entries: Vec<MergeEntry> },
}

/// The model of a [`MergeEntry`].
#[verifier::ext_equal]
pub enum MergeModel {
    Take { name: Seq<u8>, mode: FileMode, oid: ObjectSha },
    Delete { name: Seq<u8> },
    Conflict { name: Seq<u8>, base: Side, ours: Side, theirs: Side },
    Subtree { name: Seq<u8>, entries: Seq<MergeModel> },
}

impl View for MergeEntry {
    type V = MergeModel;

    open spec fn view(&self) -> MergeModel {
        self.model()
    }
}

impl MergeEntry {
    /// The model of the entry.
    pub open spec fn model(self) -> MergeModel
        decreases self,
    {
        match self {
            MergeEntry::Take { name, mode, oid } => MergeModel::Take { name: name@, mode, oid },
            MergeEntry::Delete { name } => MergeModel::Delete { name: name@ },
            MergeEntry::Conflict { name, base, ours, theirs } => MergeModel::Conflict {
                name: name@,
                base,
                ours,
                theirs,
            },
            MergeEntry::Subtree { name, entries } => MergeModel::Subtree {
                name: name@,
                entries: Seq::new(
                    entries@.len(),
                    |i: int|
                        if 0 <= i < entries@.len() {
                            entries@[i].model()
                        } else {
                            arbitrary()
                        },
                ),
            },
        }
    }
}

/// The models of a list of entries.
pub open spec fn entry_models(v: Seq<MergeEntry>) -> Seq<MergeModel> {
    Seq::new(v.len(), |i: int| v[i]@)
}

/// The side that an entry of a tree is.
pub open spec fn side_of(e: Option<TreeEntry>) -> Side {
    match e {
        Some(e) => Some((e.file_mode, e.object_name)),
        None => None,
    }
}

/// Whether a side holds a directory.
pub open spec fn is_dir(s: Side) -> bool {
    s matches Some((FileMode::Directory, _))
}

/// The entry that takes over one side.
pub open spec fn taken(name: Seq<u8>, s: Side) -> MergeModel {
    match s {
        Some((mode, oid)) => MergeModel::Take { name, mode, oid },
        None => MergeModel::Delete { name },
    }
}

/// The entries of the tree that a side names; none where there is nothing.
pub open spec fn side_tree(db: Map<ObjectSha, Seq<u8>>, s: Side) -> Result<
    Seq<(Seq<u8>, TreeEntry)>,
    ObjectError,
> {
    match s {
        Some((_, oid)) => tree_in(db, oid),
        None => Ok(Seq::empty()),
    }
}

/// The names in any of three trees, each once, in order.
pub open spec fn all_names(
    base: Seq<(Seq<u8>, TreeEntry)>,
    ours: Seq<(Seq<u8>, TreeEntry)>,
    theirs: Seq<(Seq<u8>, TreeEntry)>,
) -> Seq<(Seq<u8>, ())> {
    with_names(with_names(with_names(Seq::empty(), base), ours), theirs)
}

/// What is decided for one name. Where both sides agree, or only one of them changed, that one is
/// taken over; where both hold directories, these are compared; all else is a conflict.
pub open spec fn decided(
    db: Map<ObjectSha, Seq<u8>>,
    name: Seq<u8>,
    base: Side,
    ours: Side,
    theirs: Side,
    depth: nat,
) -> Result<MergeModel, ObjectError>
    decreases depth, 0nat,
{
    if ours == theirs || theirs == base {
        Ok(taken(name, ours))
    } else if ours == base {
        Ok(taken(name, theirs))
    } else if is_dir(ours) && is_dir(theirs) {
        match (side_tree(db, base), side_tree(db, ours), side_tree(db, theirs)) {
            (Err(e), _, _) => Err(e),
            (_, Err(e), _) => Err(e),
            (_, _, Err(e)) => Err(e),
            (Ok(b), Ok(o), Ok(t)) => if depth == 0 {
                Err(ObjectError::Cyclic(ours->Some_0.1))
            } else {
                match merged(db, b, o, t, all_names(b, o, t), (depth - 1) as nat) {
                    Err(e) => Err(e),
                    Ok(entries) => Ok(MergeModel::Subtree { name, entries }),
                }
            },
        }
    } else {
        Ok(MergeModel::Conflict { name, base, ours, theirs })
    }
}

/// What is decided for each of the names, up to the first for which a directory cannot be read.
pub open spec fn merged(
    db: Map<ObjectSha, Seq<u8>>,
    base: Seq<(Seq<u8>, TreeEntry)>,
    ours: Seq<(Seq<u8>, TreeEntry)>,
    theirs: Seq<(Seq<u8>, TreeEntry)>,
    names: Seq<(Seq<u8>, ())>,
    depth: nat,
) -> Result<Seq<MergeModel>, ObjectError>
    decreases depth, 1 + names.len(),
{
    if names.len() == 0 {
        Ok(Seq::empty())
    } else {
        let name = names.last().0;
        match merged(db, base, ours, theirs, names.drop_last(), depth) {
            Err(e) => Err(e),
            Ok(before) => match decided(
                db,
                name,
                side_of(lookup(base, name)),
                side_of(lookup(ours, name)),
                side_of(lookup(theirs, name)),
                depth,
            ) {
                Err(e) => Err(e),
                Ok(m) => Ok(before.push(m)),
            },
        }
    }
}

proof fn lemma_merged_stops(
    db: Map<ObjectSha, Seq<u8>>,
    base: Seq<(Seq<u8>, TreeEntry)>,
    ours: Seq<(Seq<u8>, TreeEntry)>,
    theirs: Seq<(Seq<u8>, TreeEntry)>,
    names: Seq<(Seq<u8>, ())>,
    depth: nat,
    i: int,
)
    requires
        0 <= i <= names.len(),
        merged(db, base, ours, theirs, names.subrange(0, i), depth) is Err,
    ensures
        merged(db, base, ours, theirs, names, depth) == merged(
            db,
            base,
            ours,
            theirs,
            names.subrange(0, i),
            depth,
        ),
    decreases names.len() - i,
{
    if i == names.len() {
        assert(names.subrange(0, i) =~= names);
    } else {
        assert(names.subrange(0, i + 1).drop_last() =~= names.subrange(0, i));
        lemma_merged_stops(db, base, ours, theirs, names, depth, i + 1);
    }
}

fn side_at(m: &ByteMap<TreeEntry>, name: &[u8]) -> (r: Side)
    ensures
        r == side_of(lookup(m@, name@)),
{
    match m.get(name) {
        Some(e) => Some((e.file_mode, e.object_name)),
        None => None,
    }
}

fn sides_equal(a: &Side, b: &Side) -> (r: bool)
    ensures
        r == (*a == *b),
{
    match (a, b) {
        (Some((am, ao)), Some((bm, bo))) => *am == *bm && *ao == *bo,
        (None, None) => true,
        _ => false,
    }
}

fn take(name: Vec<u8>, s: Side) -> (r: MergeEntry)
    ensures
        r@ == taken(name@, s),
{
    match s {
        Some((mode, oid)) => MergeEntry::Take { name, mode, oid },
        None => MergeEntry::Delete { name },
    }
}

fn decide(
    db: &ObjectDb,
    name: Vec<u8>,
    base: Side,
    ours: Side,
    theirs: Side,
    depth: usize,
) -> (r: Result<MergeEntry, ObjectError>)
    ensures
        res_view(r) == decided(db@, name@, base, ours, theirs, depth as nat),
    decreases depth, 0nat,
{
    if sides_equal(&ours, &theirs) || sides_equal(&theirs, &base) {
        return Ok(take(name, ours));
    }
    if sides_equal(&ours, &base) {
        return Ok(take(name, theirs));
    }
    match (&ours, &theirs) {
        (Some((FileMode::Directory, our_oid)), Some((FileMode::Directory, their_oid))) => {
            let none: ByteMap<TreeEntry> = ByteMap::new();
            let base_tree = match &base {
                Some((_, oid)) => match TreeObject::read_loose_tree(db, oid) {
                    Ok(t) => Some(t),
                    Err(e) => return Err(e),
                },
                None => None,
            };
            let our_tree = match TreeObject::read_loose_tree(db, our_oid) {
                Ok(t) => t,
                Err(e) => return Err(e),
            };
            let their_tree = match TreeObject::read_loose_tree(db, their_oid) {
                Ok(t) => t,
                Err(e) => return Err(e),
            };
            if depth == 0 {
                return Err(ObjectError::Cyclic(*our_oid));
            }
            let base_entries = match &base_tree {
                Some(t) => t.entries(),
                None => &none,
            };
            match merge_recursive(
                db,
                base_entries,
                our_tree.entries(),
                their_tree.entries(),
                depth - 1,
            ) {
                Ok(entries) => {
                    let r = MergeEntry::Subtree { name, entries };
                    assert(r@->Subtree_entries =~= entry_models(entries@));
                    Ok(r)
                },
                Err(e) => Err(e),
            }
        },
        _ => Ok(MergeEntry::Conflict { name, base, ours, theirs }),
    }
}

fn merge_recursive(
    db: &ObjectDb,
    base: &ByteMap<TreeEntry>,
    ours: &ByteMap<TreeEntry>,
    theirs: &ByteMap<TreeEntry>,
    depth: usize,
) -> (r: Result<Vec<MergeEntry>, ObjectError>)
    ensures
        (match r {
            Ok(v) => merged(
                db@,
                base@,
                ours@,
                theirs@,
                all_names(base@, ours@, theirs@),
                depth as nat,
            ) == Ok::<Seq<MergeModel>, ObjectError>(entry_models(v@)),
            Err(e) => merged(
                db@,
                base@,
                ours@,
                theirs@,
                all_names(base@, ours@, theirs@),
                depth as nat,
            ) == Err::<Seq<MergeModel>, ObjectError>(e),
        }),
    decreases depth, 1nat,
{
    let mut names: ByteMap<()> = ByteMap::new();
    add_names(&mut names, base);
    add_names(&mut names, ours);
    add_names(&mut names, theirs);
    let mut out: Vec<MergeEntry> = Vec::new();
    let mut i: usize = 0;
    assert(names@.subrange(0, 0) =~= Seq::empty());
    assert(entry_models(out@) =~= Seq::empty());
    while i < names.len()
        invariant
            0 <= i <= names@.len(),
            names@ == all_names(base@, ours@, theirs@),
            merged(db@, base@, ours@, theirs@, names@.subrange(0, i as int), depth as nat) == Ok::<
                Seq<MergeModel>,
                ObjectError,
            >(entry_models(out@)),
        decreases names@.len() - i,
    {
        let name = copy_bytes(names.key_at(i).as_slice());
        let b = side_at(base, name.as_slice());
        let o = side_at(ours, name.as_slice());
        let t = side_at(theirs, name.as_slice());
        let ghost before = entry_models(out@);
        proof {
            let upto = names@.subrange(0, i + 1);
            assert(upto.drop_last() =~= names@.subrange(0, i as int));
            assert(upto.last() == names@[i as int]);
        }
        match decide(db, name, b, o, t, depth) {
            Ok(m) => {
                out.push(m);
                assert(entry_models(out@) =~= before.push(m@));
            },
            Err(e) => {
                proof {
                    lemma_merged_stops(
                        db@,
                        base@,
                        ours@,
                        theirs@,
                        names@,
                        depth as nat,
                        i + 1,
                    );
                }
                return Err(e);
            },
        }
        i += 1;
    }
    assert(names@.subrange(0, i as int) =~= names@);
    Ok(out)
}

/// Compares three trees: that of the common ancestor, ours, and the one to merge.
pub fn merge_trees(db: &ObjectDb, base: &TreeObject, ours: &TreeObject, theirs: &TreeObject) -> (r:
    Result<Vec<MergeEntry>, ObjectError>)
    ensures
        (match r {
            Ok(v) => merged(
                db@,
                base.names(),
                ours.names(),
                theirs.names(),
                all_names(base.names(), ours.names(), theirs.names()),
                db.count(),
            ) == Ok::<Seq<MergeModel>, ObjectError>(entry_models(v@)),
            Err(e) => merged(
                db@,
                base.names(),
                ours.names(),
                theirs.names(),
                all_names(base.names(), ours.names(), theirs.names()),
                db.count(),
            ) == Err::<Seq<MergeModel>, ObjectError>(e),
        }),
{
    merge_recursive(db, base.entries(), ours.entries(), theirs.entries(), db.len())
}

/// The decisions are one for each name, and each is made from the three sides of that name.
pub proof fn law_one_decision_each(
    db: Map<ObjectSha, Seq<u8>>,
    base: Seq<(Seq<u8>, TreeEntry)>,
    ours: Seq<(Seq<u8>, TreeEntry)>,
    theirs: Seq<(Seq<u8>, TreeEntry)>,
    names: Seq<(Seq<u8>, ())>,
    depth: nat,
)
    ensures
        merged(db, base, ours, theirs, names, depth) matches Ok(v) ==> v.len() == names.len()
            && forall|i: int|
            0 <= i < v.len() ==> Ok::<MergeModel, ObjectError>(#[trigger] v[i]) == decided(
                db,
                names[i].0,
                side_of(lookup(base, names[i].0)),
                side_of(lookup(ours, names[i].0)),
                side_of(lookup(theirs, names[i].0)),
                depth,
            ),
    decreases names.len(),
{
    if names.len() > 0 {
        let t = names.drop_last();
        law_one_decision_each(db, base, ours, theirs, t, depth);
        if let Ok(v) = merged(db, base, ours, theirs, names, depth) {
            let before = merged(db, base, ours, theirs, t, depth)->Ok_0;
            assert forall|i: int| 0 <= i < v.len() implies Ok::<MergeModel, ObjectError>(
                #[trigger] v[i],
            ) == decided(
                db,
                names[i].0,
                side_of(lookup(base, names[i].0)),
                side_of(lookup(ours, names[i].0)),
                side_of(lookup(theirs, names[i].0)),
                depth,
            ) by {
                if i < before.len() {
                    assert(v[i] == before[i] && t[i] == names[i]);
                }
            }
        }
    }
}

/// The names of three trees are those that any of them has, and they ascend.
pub proof fn law_names_complete(
    base: Seq<(Seq<u8>, TreeEntry)>,
    ours: Seq<(Seq<u8>, TreeEntry)>,
    theirs: Seq<(Seq<u8>, TreeEntry)>,
)
    ensures
        ascending(all_names(base, ours, theirs)),
        forall|k: Seq<u8>| #[trigger]
            has_key(all_names(base, ours, theirs), k) <==> has_key(base, k) || has_key(ours, k)
                || has_key(theirs, k),
{
    let none = Seq::<(Seq<u8>, ())>::empty();
    lemma_with_names(none, base);
    lemma_with_names(with_names(none, base), ours);
    lemma_with_names(with_names(with_names(none, base), ours), theirs);
}

/// Whether two decisions are the same but for which side is which.
pub open spec fn mirrors(a: MergeModel, b: MergeModel) -> bool
    decreases a,
{
    match (a, b) {
        (MergeModel::Take { .. }, _) => a == b,
        (MergeModel::Delete { .. }, _) => a == b,
        (
            MergeModel::Conflict { name, base, ours, theirs },
            MergeModel::Conflict { name: name2, base: base2, ours: ours2, theirs: theirs2 },
        ) => name == name2 && base == base2 && ours == theirs2 && theirs == ours2,
        (
            MergeModel::Subtree { name, entries },
            MergeModel::Subtree { name: name2, entries: entries2 },
        ) => name == name2 && entries.len() == entries2.len() && forall|i: int|
            0 <= i < entries.len() ==> mirrors(#[trigger] entries[i], entries2[i]),
        _ => false,
    }
}

proof fn lemma_decided_mirrored(
    db: Map<ObjectSha, Seq<u8>>,
    name: Seq<u8>,
    base: Side,
    ours: Side,
    theirs: Side,
    depth: nat,
)
    ensures
        decided(db, name, base, ours, theirs, depth) matches Ok(a) ==> (decided(
            db,
            name,
            base,
            theirs,
            ours,
            depth,
        ) matches Ok(b) && mirrors(a, b)),
    decreases depth, 0nat,
{
    let trees = (side_tree(db, base), side_tree(db, ours), side_tree(db, theirs));
    if let (Ok(b), Ok(o), Ok(t)) = trees {
        if depth > 0 {
            law_merge_mirrored(db, b, o, t, all_names(b, o, t), (depth - 1) as nat);
        }
    }
}

/// A merge the other way round decides the same, but for which side is which.
pub proof fn law_merge_mirrored(
    db: Map<ObjectSha, Seq<u8>>,
    base: Seq<(Seq<u8>, TreeEntry)>,
    ours: Seq<(Seq<u8>, TreeEntry)>,
    theirs: Seq<(Seq<u8>, TreeEntry)>,
    names: Seq<(Seq<u8>, ())>,
    depth: nat,
)
    ensures
        all_names(base, ours, theirs) == all_names(base, theirs, ours),
        merged(db, base, ours, theirs, names, depth) matches Ok(v) ==> (merged(
            db,
            base,
            theirs,
            ours,
            names,
            depth,
        ) matches Ok(w) && w.len() == v.len() && forall|i: int|
            0 <= i < v.len() ==> mirrors(#[trigger] v[i], w[i])),
    decreases depth, 1 + names.len(),
{
    law_names_complete(base, ours, theirs);
    law_names_complete(base, theirs, ours);
    lemma_same_names(all_names(base, ours, theirs), all_names(base, theirs, ours));
    if names.len() > 0 {
        let name = names.last().0;
        let t = names.drop_last();
        law_merge_mirrored(db, base, ours, theirs, t, depth);
        lemma_decided_mirrored(
            db,
            name,
            side_of(lookup(base, name)),
            side_of(lookup(ours, name)),
            side_of(lookup(theirs, name)),
            depth,
        );
    }
}

/// Every name taken over from one tree.
pub open spec fn all_taken(names: Seq<(Seq<u8>, ())>, tree: Seq<(Seq<u8>, TreeEntry)>) -> Seq<
    MergeModel,
> {
    Seq::new(names.len(), |i: int| taken(names[i].0, side_of(lookup(tree, names[i].0))))
}

/// Where only one side differs from the common ancestor, or both are alike, the merge cannot fail
/// and takes that side over, name by name: there is no conflict.
pub proof fn law_one_sided_merge(
    db: Map<ObjectSha, Seq<u8>>,
    base: Seq<(Seq<u8>, TreeEntry)>,
    changed: Seq<(Seq<u8>, TreeEntry)>,
    names: Seq<(Seq<u8>, ())>,
    depth: nat,
)
    ensures
        merged(db, base, base, changed, names, depth) == Ok::<Seq<MergeModel>, ObjectError>(
            all_taken(names, changed),
        ),
        merged(db, base, changed, base, names, depth) == merged(
            db,
            base,
            base,
            changed,
            names,
            depth,
        ),
        merged(db, base, changed, changed, names, depth) == merged(
            db,
            base,
            base,
            changed,
            names,
            depth,
        ),
    decreases names.len(),
{
    if names.len() == 0 {
        assert(all_taken(names, changed) =~= Seq::empty());
    } else {
        let t = names.drop_last();
        let last = names.last().0;
        law_one_sided_merge(db, base, changed, t, depth);
        let b = side_of(lookup(base, last));
        let c = side_of(lookup(changed, last));
        let all = Ok::<MergeModel, ObjectError>(taken(last, c));
        assert(decided(db, last, b, b, c, depth) == all);
        assert(decided(db, last, b, c, b, depth) == all);
        assert(decided(db, last, b, c, c, depth) == all);
        assert(all_taken(names, changed) =~= all_taken(t, changed).push(
            taken(last, side_of(lookup(changed, last))),
        ));
    }
}

/// What is to be done to the working directory and the index.
#[derive(Debug)]
pub enum WorktreeAction {
    /// Make a directory.
    MakeDir { path: Vec<u8> },
    /// Write a file or a symbolic link, and stage it.
    WriteFile { path: Vec<u8>, entry: Vec<u8>, mode: FileMode, content: Vec<u8>, oid: ObjectSha },
    /// Remove a file, if it is there, and all its entries in the index.
    Remove { path: Vec<u8>, entry: Vec<u8> },
    /// Write a merged text, keep it as an object, and stage it.
    WriteMerged {
        path: Vec<u8>,
        entry: Vec<u8>,
        content: Vec<u8>,
        oid: ObjectSha,
        raw: Vec<u8>,
    },
    /// Write what is left to be resolved, and keep the three sides in the index.
    WriteConflict {
        path: Vec<u8>,
        entry: Vec<u8>,
        content: Vec<u8>,
        base: Side,
        ours: Side,
        theirs: Side,
    },
}

/// The model of a [`WorktreeAction`].
#[verifier::ext_equal]
pub enum ActionModel {
    MakeDir { path: Seq<u8> },
    WriteFile { path: Seq<u8>, entry: Seq<u8>, mode: FileMode, content: Seq<u8>, oid: ObjectSha },
    Remove { path: Seq<u8>, entry: Seq<u8> },
    WriteMerged {
        path: Seq<u8>,
        entry: Seq<u8>,
        content: Seq<u8>,
        oid: ObjectSha,
        raw: Seq<u8>,
    },
    WriteConflict {
        path: Seq<u8>,
        entry: Seq<u8>,
        content: Seq<u8>,
        base: Side,
        ours: Side,
        theirs: Side,
    },
}

impl View for WorktreeAction {
    type V = ActionModel;

    open spec fn view(&self) -> ActionModel {
        match *self {
            WorktreeAction::MakeDir { path } => ActionModel::MakeDir { path: path@ },
            WorktreeAction::WriteFile { path, entry, mode, content, oid } => ActionModel::WriteFile {
                path: path@,
                entry: entry@,
                mode,
                content: content@,
                oid,
            },
            WorktreeAction::Remove { path, entry } => ActionModel::Remove {
                path: path@,
                entry: entry@,
            },
            WorktreeAction::WriteMerged {
                path,
                entry,
                content,
                oid,
                raw,
            } => ActionModel::WriteMerged {
                path: path@,
                entry: entry@,
                content: content@,
                oid,
                raw: raw@,
            },
            WorktreeAction::WriteConflict {
                path,
                entry,
                content,
                base,
                ours,
                theirs,
            } => ActionModel::WriteConflict {
                path: path@,
                entry: entry@,
                content: content@,
                base,
                ours,
                theirs,
            },
        }
    }
}

/// Why a merge cannot be done.
#[derive(Clone, Copy, PartialEq, Eq, Debug)]
pub enum MergeError {
    /// An object cannot be read.
    Object(ObjectError),
    /// A path cannot be that of an index entry.
    Index(IndexError),
    /// The two commits have no common ancestor.
    Unrelated,
    /// The branch to merge does not exist.
    NoBranch,
    /// The branch to merge holds no object id.
    BadBranch,
    /// The tree of the merge cannot be made from the index.
    Tree(TreeError),
}

/// The path of an index entry for a path of the working directory.
pub open spec fn entry_path(path: Seq<u8>) -> Result<Seq<u8>, MergeError> {
    match index_form(path) {
        Ok(p) => Ok(p),
        Err(e) => Err(MergeError::Index(e)),
    }
}

/// The bytes of the blob that a side names; none where there is nothing.
pub open spec fn side_bytes(db: Map<ObjectSha, Seq<u8>>, s: Side) -> Result<Seq<u8>, ObjectError> {
    match s {
        Some((_, oid)) => blob_in(db, oid),
        None => Ok(Seq::empty()),
    }
}

/// What three versions of a file merge to: a clean result, or what is left to be resolved. Files
/// that are not text are never merged: ours stays.
pub open spec fn merged_bytes(base: Seq<u8>, ours: Seq<u8>, theirs: Seq<u8>) -> Result<
    Seq<u8>,
    Seq<u8>,
> {
    if base.contains(0) || ours.contains(0) || theirs.contains(0) {
        Err(ours)
    } else {
        match (text_of(base), text_of(ours), text_of(theirs)) {
            (Some(b), Some(o), Some(t)) => match merged_text(b, o, t) {
                Ok(m) => Ok(encode_utf8(m)),
                Err(m) => Err(encode_utf8(m)),
            },
            _ => Err(ours),
        }
    }
}

/// What is done about a conflict, when merging the contents gave this.
pub open spec fn settled(
    path: Seq<u8>,
    entry: Seq<u8>,
    base: Side,
    ours: Side,
    theirs: Side,
    content: Result<Seq<u8>, Seq<u8>>,
) -> ActionModel {
    match content {
        Ok(content) => ActionModel::WriteMerged {
            path,
            entry,
            content,
            oid: oid_of_raw(framed("blob"@, content)),
            raw: framed("blob"@, content),
        },
        Err(content) => ActionModel::WriteConflict { path, entry, content, base, ours, theirs },
    }
}

/// What is done about a conflict at a path.
pub open spec fn conflict_action(
    db: Map<ObjectSha, Seq<u8>>,
    path: Seq<u8>,
    base: Side,
    ours: Side,
    theirs: Side,
) -> Result<ActionModel, MergeError> {
    match (side_bytes(db, base), side_bytes(db, ours), side_bytes(db, theirs)) {
        (Err(e), _, _) => Err(MergeError::Object(e)),
        (_, Err(e), _) => Err(MergeError::Object(e)),
        (_, _, Err(e)) => Err(MergeError::Object(e)),
        (Ok(b), Ok(o), Ok(t)) => match entry_path(path) {
            Err(e) => Err(e),
            Ok(entry) => Ok(settled(path, entry, base, ours, theirs, merged_bytes(b, o, t))),
        },
    }
}

/// Writing a blob to a path.
pub open spec fn write_action(
    db: Map<ObjectSha, Seq<u8>>,
    mode: FileMode,
    oid: ObjectSha,
    path: Seq<u8>,
) -> Result<ActionModel, MergeError> {
    match blob_in(db, oid) {
        Err(e) => Err(MergeError::Object(e)),
        Ok(content) => match entry_path(path) {
            Err(e) => Err(e),
            Ok(entry) => Ok(ActionModel::WriteFile { path, entry, mode, content, oid }),
        },
    }
}

/// Writing a file, or a directory and all that it holds, to a path.
pub open spec fn take_actions(
    db: Map<ObjectSha, Seq<u8>>,
    mode: FileMode,
    oid: ObjectSha,
    path: Seq<u8>,
    depth: nat,
) -> Result<Seq<ActionModel>, MergeError>
    decreases depth, 0nat,
{
    if mode == FileMode::Directory {
        match tree_in(db, oid) {
            Err(e) => Err(MergeError::Object(e)),
            Ok(entries) => if depth == 0 {
                Err(MergeError::Object(ObjectError::Cyclic(oid)))
            } else {
                match tree_actions(db, entries, path, (depth - 1) as nat) {
                    Err(e) => Err(e),
                    Ok(a) => Ok(seq![ActionModel::MakeDir { path }] + a),
                }
            },
        }
    } else {
        match write_action(db, mode, oid, path) {
            Err(e) => Err(e),
            Ok(a) => Ok(seq![a]),
        }
    }
}

/// Writing all that a directory holds.
pub open spec fn tree_actions(
    db: Map<ObjectSha, Seq<u8>>,
    entries: Seq<(Seq<u8>, TreeEntry)>,
    path: Seq<u8>,
    depth: nat,
) -> Result<Seq<ActionModel>, MergeError>
    decreases depth, 1 + entries.len(),
{
    if entries.len() == 0 {
        Ok(Seq::empty())
    } else {
        let (name, e) = entries.last();
        match tree_actions(db, entries.drop_last(), path, depth) {
            Err(x) => Err(x),
            Ok(before) => match take_actions(
                db,
                e.file_mode,
                e.object_name,
                pushed(path, name),
                depth,
            ) {
                Err(x) => Err(x),
                Ok(a) => Ok(before + a),
            },
        }
    }
}

/// What one decision means for the working directory and the index.
pub open spec fn entry_actions(
    db: Map<ObjectSha, Seq<u8>>,
    m: MergeModel,
    prefix: Seq<u8>,
    depth: nat,
) -> Result<Seq<ActionModel>, MergeError>
    decreases m, 0int,
{
    match m {
        MergeModel::Take { name, mode, oid } => take_actions(
            db,
            mode,
            oid,
            pushed(prefix, name),
            depth,
        ),
        MergeModel::Delete { name } => match entry_path(pushed(prefix, name)) {
            Err(e) => Err(e),
            Ok(entry) => Ok(seq![ActionModel::Remove { path: pushed(prefix, name), entry }]),
        },
        MergeModel::Conflict { name, base, ours, theirs } => match conflict_action(
            db,
            pushed(prefix, name),
            base,
            ours,
            theirs,
        ) {
            Err(e) => Err(e),
            Ok(a) => Ok(seq![a]),
        },
        MergeModel::Subtree { name, entries } => match actions_upto(
            db,
            entries,
            entries.len() as int,
            pushed(prefix, name),
            depth,
        ) {
            Err(e) => Err(e),
            Ok(a) => Ok(seq![ActionModel::MakeDir { path: pushed(prefix, name) }] + a),
        },
    }
}

/// What the first `n` decisions mean for the working directory and the index.
pub open spec fn actions_upto(
    db: Map<ObjectSha, Seq<u8>>,
    entries: Seq<MergeModel>,
    n: int,
    prefix: Seq<u8>,
    depth: nat,
) -> Result<Seq<ActionModel>, MergeError>
    decreases entries, n,
{
    if n <= 0 || n > entries.len() {
        Ok(Seq::empty())
    } else {
        match actions_upto(db, entries, n - 1, prefix, depth) {
            Err(e) => Err(e),
            Ok(before) => match entry_actions(db, entries[n - 1], prefix, depth) {
                Err(e) => Err(e),
                Ok(a) => Ok(before + a),
            },
        }
    }
}

/// What the decisions of a merge mean for the working directory and the index.
pub open spec fn merge_actions(
    db: Map<ObjectSha, Seq<u8>>,
    entries: Seq<MergeModel>,
    prefix: Seq<u8>,
    depth: nat,
) -> Result<Seq<ActionModel>, MergeError> {
    actions_upto(db, entries, entries.len() as int, prefix, depth)
}

proof fn lemma_actions_stop(
    db: Map<ObjectSha, Seq<u8>>,
    entries: Seq<MergeModel>,
    n: int,
    m: int,
    prefix: Seq<u8>,
    depth: nat,
)
    requires
        0 <= n <= m <= entries.len(),
        actions_upto(db, entries, n, prefix, depth) is Err,
    ensures
        actions_upto(db, entries, m, prefix, depth) == actions_upto(db, entries, n, prefix, depth),
    decreases m - n,
{
    if n < m {
        lemma_actions_stop(db, entries, n, m - 1, prefix, depth);
    }
}

proof fn lemma_tree_actions_stop(
    db: Map<ObjectSha, Seq<u8>>,
    entries: Seq<(Seq<u8>, TreeEntry)>,
    path: Seq<u8>,
    depth: nat,
    i: int,
)
    requires
        0 <= i <= entries.len(),
        tree_actions(db, entries.subrange(0, i), path, depth) is Err,
    ensures
        tree_actions(db, entries, path, depth) == tree_actions(
            db,
            entries.subrange(0, i),
            path,
            depth,
        ),
    decreases entries.len() - i,
{
    if i == entries.len() {
        assert(entries.subrange(0, i) =~= entries);
    } else {
        assert(entries.subrange(0, i + 1).drop_last() =~= entries.subrange(0, i));
        lemma_tree_actions_stop(db, entries, path, depth, i + 1);
    }
}

fn index_entry_path(path: &[u8]) -> (r: Result<Vec<u8>, MergeError>)
    ensures
        res_view(r) == entry_path(path@),
{
    match normalize_entry_path_bytes(path) {
        Ok(p) => Ok(p),
        Err(e) => Err(MergeError::Index(e)),
    }
}

fn has_nul(b: &[u8]) -> (r: bool)
    ensures
        r == b@.contains(0),
{
    let n: usize = find_byte(b, 0, 0);
    proof {
        lemma_find_from(b@, 0, 0);
    }
    n < b.len()
}

/// Merges three versions of a file: a clean result, or what is left to be resolved.
pub fn merge_bytes(base: &[u8], ours: &[u8], theirs: &[u8]) -> (r: Result<Vec<u8>, Vec<u8>>)
    ensures
        (match r {
            Ok(m) => merged_bytes(base@, ours@, theirs@) == Ok::<Seq<u8>, Seq<u8>>(m@),
            Err(m) => merged_bytes(base@, ours@, theirs@) == Err::<Seq<u8>, Seq<u8>>(m@),
        }),
{
    if has_nul(base) || has_nul(ours) || has_nul(theirs) {
        return Err(copy_bytes(ours));
    }
    match (text_of_slice(base), text_of_slice(ours), text_of_slice(theirs)) {
        (Some(b), Some(o), Some(t)) => match merge_text(b.as_str(), o.as_str(), t.as_str()) {
            Ok(m) => Ok(copy_bytes(m.as_str().as_bytes())),
            Err(m) => Err(copy_bytes(m.as_str().as_bytes())),
        },
        _ => Err(copy_bytes(ours)),
    }
}

/// Decides what is done about a conflict, from what merging the contents gave.
pub fn settle(
    path: Vec<u8>,
    entry: Vec<u8>,
    base: Side,
    ours: Side,
    theirs: Side,
    content: Result<Vec<u8>, Vec<u8>>,
) -> (r: WorktreeAction)
    ensures
        r@ == settled(
            path@,
            entry@,
            base,
            ours,
            theirs,
            (match content {
                Ok(c) => Ok(c@),
                Err(c) => Err(c@),
            }),
        ),
{
    match content {
        Ok(content) => {
            let (oid, raw) = hash_object(content.as_slice());
            WorktreeAction::WriteMerged { path, entry, content, oid, raw }
        },
        Err(content) => WorktreeAction::WriteConflict { path, entry, content, base, ours, theirs },
    }
}

fn read_side(db: &ObjectDb, s: &Side) -> (r: Result<Vec<u8>, ObjectError>)
    ensures
        res_view(r) == side_bytes(db@, *s),
{
    match s {
        Some((_, oid)) => read_loose_blob(db, oid),
        None => {
            let none: Vec<u8> = Vec::new();
            assert(none@ =~= Seq::empty());
            Ok(none)
        },
    }
}

fn apply_conflict(db: &ObjectDb, path: Vec<u8>, base: Side, ours: Side, theirs: Side) -> (r: Result<
    WorktreeAction,
    MergeError,
>)
    ensures
        res_view(r) == conflict_action(db@, path@, base, ours, theirs),
{
    let b = match read_side(db, &base) {
        Ok(b) => b,
        Err(e) => return Err(MergeError::Object(e)),
    };
    let o = match read_side(db, &ours) {
        Ok(o) => o,
        Err(e) => return Err(MergeError::Object(e)),
    };
    let t = match read_side(db, &theirs) {
        Ok(t) => t,
        Err(e) => return Err(MergeError::Object(e)),
    };
    let entry = match index_entry_path(path.as_slice()) {
        Ok(p) => p,
        Err(e) => return Err(e),
    };
    let content = merge_bytes(b.as_slice(), o.as_slice(), t.as_slice());
    Ok(settle(path, entry, base, ours, theirs, content))
}

fn write_blob_at(db: &ObjectDb, mode: FileMode, oid: &ObjectSha, path: Vec<u8>) -> (r: Result<
    WorktreeAction,
    MergeError,
>)
    ensures
        res_view(r) == write_action(db@, mode, *oid, path@),
{
    let content = match read_loose_blob(db, oid) {
        Ok(c) => c,
        Err(e) => return Err(MergeError::Object(e)),
    };
    let entry = match index_entry_path(path.as_slice()) {
        Ok(p) => p,
        Err(e) => return Err(e),
    };
    Ok(WorktreeAction::WriteFile { path, entry, mode, content, oid: *oid })
}

fn apply_take(
    db: &ObjectDb,
    mode: FileMode,
    oid: &ObjectSha,
    path: Vec<u8>,
    depth: usize,
    out: &mut Vec<WorktreeAction>,
) -> (r: Result<(), MergeError>)
    ensures
        (match r {
            Ok(_) => take_actions(db@, mode, *oid, path@, depth as nat) is Ok && views(
                final(out)@,
            ) == views(old(out)@) + take_actions(db@, mode, *oid, path@, depth as nat)->Ok_0,
            Err(e) => take_actions(db@, mode, *oid, path@, depth as nat) == Err::<
                Seq<ActionModel>,
                MergeError,
            >(e),
        }),
    decreases depth, 0nat,
{
    let ghost before = views(out@);
    if mode == FileMode::Directory {
        let tree = match TreeObject::read_loose_tree(db, oid) {
            Ok(t) => t,
            Err(e) => return Err(MergeError::Object(e)),
        };
        if depth == 0 {
            return Err(MergeError::Object(ObjectError::Cyclic(*oid)));
        }
        let made = WorktreeAction::MakeDir { path: copy_bytes(path.as_slice()) };
        proof {
            lemma_views_push(out@, made);
        }
        out.push(made);
        let ghost mid = views(out@);
        match apply_tree_take(db, tree.entries(), path.as_slice(), depth - 1, out) {
            Ok(_) => {
                proof {
                    let a = tree_actions(db@, tree.names(), path@, (depth - 1) as nat)->Ok_0;
                    assert(mid + a =~= before + (seq![ActionModel::MakeDir { path: path@ }] + a));
                }
                Ok(())
            },
            Err(e) => Err(e),
        }
    } else {
        match write_blob_at(db, mode, oid, path) {
            Ok(a) => {
                proof {
                    lemma_views_push(out@, a);
                    assert(before.push(a@) =~= before + seq![a@]);
                }
                out.push(a);
                Ok(())
            },
            Err(e) => Err(e),
        }
    }
}

fn apply_tree_take(
    db: &ObjectDb,
    entries: &ByteMap<TreeEntry>,
    path: &[u8],
    depth: usize,
    out: &mut Vec<WorktreeAction>,
) -> (r: Result<(), MergeError>)
    ensures
        (match r {
            Ok(_) => tree_actions(db@, entries@, path@, depth as nat) is Ok && views(final(out)@)
                == views(old(out)@) + tree_actions(db@, entries@, path@, depth as nat)->Ok_0,
            Err(e) => tree_actions(db@, entries@, path@, depth as nat) == Err::<
                Seq<ActionModel>,
                MergeError,
            >(e),
        }),
    decreases depth, 1nat,
{
    let ghost before = views(out@);
    let mut i: usize = 0;
    assert(entries@.subrange(0, 0) =~= Seq::empty());
    assert(before + Seq::<ActionModel>::empty() =~= before);
    while i < entries.len()
        invariant
            0 <= i <= entries@.len(),
            tree_actions(db@, entries@.subrange(0, i as int), path@, depth as nat) is Ok,
            views(out@) == before + tree_actions(
                db@,
                entries@.subrange(0, i as int),
                path@,
                depth as nat,
            )->Ok_0,
        decreases entries@.len() - i,
    {
        let e = entries.value_at(i);
        let rel = push_path(path, entries.key_at(i).as_slice());
        let ghost a = tree_actions(
            db@,
            entries@.subrange(0, i as int),
            path@,
            depth as nat,
        )->Ok_0;
        proof {
            let upto = entries@.subrange(0, i + 1);
            assert(upto.drop_last() =~= entries@.subrange(0, i as int));
            assert(upto.last() == entries@[i as int]);
        }
        let ghost rel_bytes = rel@;
        match apply_take(db, e.file_mode, &e.object_name, rel, depth, out) {
            Ok(_) => {
                proof {
                    let b = take_actions(
                        db@,
                        e.file_mode,
                        e.object_name,
                        rel_bytes,
                        depth as nat,
                    )->Ok_0;
                    assert(before + a + b =~= before + (a + b));
                }
            },
            Err(x) => {
                proof {
                    lemma_tree_actions_stop(db@, entries@, path@, depth as nat, i + 1);
                }
                return Err(x);
            },
        }
        i += 1;
    }
    assert(entries@.subrange(0, i as int) =~= entries@);
    Ok(())
}

fn apply_entries(
    db: &ObjectDb,
    entries: &Vec<MergeEntry>,
    prefix: &[u8],
    out: &mut Vec<WorktreeAction>,
) -> (r: Result<(), MergeError>)
    ensures
        (match r {
            Ok(_) => merge_actions(db@, entry_models(entries@), prefix@, db.count()) is Ok
                && views(final(out)@) == views(old(out)@) + merge_actions(
                db@,
                entry_models(entries@),
                prefix@,
                db.count(),
            )->Ok_0,
            Err(e) => merge_actions(db@, entry_models(entries@), prefix@, db.count()) == Err::<
                Seq<ActionModel>,
                MergeError,
            >(e),
        }),
    decreases entries@,
{
    let ghost before = views(out@);
    let ghost models = entry_models(entries@);
    let depth: usize = db.len();
    let mut i: usize = 0;
    assert(before + Seq::<ActionModel>::empty() =~= before);
    while i < entries.len()
        invariant
            0 <= i <= entries@.len(),
            depth == db.count(),
            models == entry_models(entries@),
            actions_upto(db@, models, i as int, prefix@, depth as nat) is Ok,
            views(out@) == before + actions_upto(
                db@,
                models,
                i as int,
                prefix@,
                depth as nat,
            )->Ok_0,
        decreases entries@.len() - i,
    {
        let ghost a = actions_upto(db@, models, i as int, prefix@, depth as nat)->Ok_0;
        let ghost now = views(out@);
        let ghost m = models[i as int];
        assert(decreases_to!(entries@ => entries@[i as int]));
        let r = match &entries[i] {
            MergeEntry::Take { name, mode, oid } => apply_take(
                db,
                *mode,
                oid,
                push_path(prefix, name.as_slice()),
                depth,
                out,
            ),
            MergeEntry::Delete { name } => {
                let path = push_path(prefix, name.as_slice());
                match index_entry_path(path.as_slice()) {
                    Ok(entry) => {
                        let gone = WorktreeAction::Remove { path, entry };
                        proof {
                            lemma_views_push(out@, gone);
                            assert(now.push(gone@) =~= now + seq![gone@]);
                        }
                        out.push(gone);
                        Ok(())
                    },
                    Err(e) => Err(e),
                }
            },
            MergeEntry::Conflict { name, base, ours, theirs } => {
                match apply_conflict(db, push_path(prefix, name.as_slice()), *base, *ours, *theirs) {
                    Ok(c) => {
                        proof {
                            lemma_views_push(out@, c);
                            assert(now.push(c@) =~= now + seq![c@]);
                        }
                        out.push(c);
                        Ok(())
                    },
                    Err(e) => Err(e),
                }
            },
            MergeEntry::Subtree { name, entries: below } => {
                let path = push_path(prefix, name.as_slice());
                let made = WorktreeAction::MakeDir { path: copy_bytes(path.as_slice()) };
                proof {
                    lemma_views_push(out@, made);
                    assert(m->Subtree_entries =~= entry_models(below@));
                }
                out.push(made);
                match apply_entries(db, below, path.as_slice(), out) {
                    Ok(_) => {
                        proof {
                            let b = merge_actions(
                                db@,
                                entry_models(below@),
                                path@,
                                db.count(),
                            )->Ok_0;
                            assert(now.push(made@) + b =~= now + (seq![made@] + b));
                        }
                        Ok(())
                    },
                    Err(e) => Err(e),
                }
            },
        };
        match r {
            Ok(_) => {
                proof {
                    let b = entry_actions(db@, m, prefix@, depth as nat)->Ok_0;
                    assert(views(out@) == now + b);
                    assert(before + a + b =~= before + (a + b));
                }
            },
            Err(e) => {
                proof {
                    lemma_actions_stop(
                        db@,
                        models,
                        i + 1,
                        models.len() as int,
                        prefix@,
                        depth as nat,
                    );
                }
                return Err(e);
            },
        }
        i += 1;
    }
    Ok(())
}

/// Says what the decisions of a merge mean for the working directory and the index, in order.
pub fn merge_apply(db: &ObjectDb, entries: &Vec<MergeEntry>, prefix: &[u8]) -> (r: Result<
    Vec<WorktreeAction>,
    MergeError,
>)
    ensures
        (match r {
            Ok(v) => merge_actions(db@, entry_models(entries@), prefix@, db.count()) == Ok::<
                Seq<ActionModel>,
                MergeError,
            >(views(v@)),
            Err(e) => merge_actions(db@, entry_models(entries@), prefix@, db.count()) == Err::<
                Seq<ActionModel>,
                MergeError,
            >(e),
        }),
{
    let mut out: Vec<WorktreeAction> = Vec::new();
    match apply_entries(db, entries, prefix, &mut out) {
        Ok(_) => {
            assert(views(out@) =~= merge_actions(
                db@,
                entry_models(entries@),
                prefix@,
                db.count(),
            )->Ok_0);
            Ok(out)
        },
        Err(e) => Err(e),
    }
}

/// The paths that are left to be resolved after some actions.
pub open spec fn conflicts_in(actions: Seq<ActionModel>) -> Seq<Seq<u8>>
    decreases actions.len(),
{
    if actions.len() == 0 {
        Seq::empty()
    } else {
        let before = conflicts_in(actions.drop_last());
        match actions.last() {
            ActionModel::WriteConflict { path, .. } => before.push(path),
            _ => before,
        }
    }
}

/// The paths that are left to be resolved.
pub fn conflict_paths(actions: &Vec<WorktreeAction>) -> (r: Vec<Vec<u8>>)
    ensures
        views(r@) == conflicts_in(views(actions@)),
{
    let ghost all = views(actions@);
    let mut out: Vec<Vec<u8>> = Vec::new();
    let mut i: usize = 0;
    assert(all.subrange(0, 0) =~= Seq::empty());
    assert(views(out@) =~= Seq::empty());
    while i < actions.len()
        invariant
            0 <= i <= actions@.len(),
            all == views(actions@),
            views(out@) == conflicts_in(all.subrange(0, i as int)),
        decreases actions@.len() - i,
    {
        proof {
            let upto = all.subrange(0, i + 1);
            assert(upto.drop_last() =~= all.subrange(0, i as int));
            assert(upto.last() == actions@[i as int]@);
        }
        match &actions[i] {
            WorktreeAction::WriteConflict { path, .. } => {
                let p = copy_bytes(path.as_slice());
                proof {
                    lemma_views_push(out@, p);
                }
                out.push(p);
            },
            _ => {},
        }
        i += 1;
    }
    assert(all.subrange(0, i as int) =~= all);
    out
}

/// The file that remembers where `HEAD` was before a merge.
pub open spec fn orig_head_file(ours: ObjectSha) -> UpdateModel {
    UpdateModel { path: "ORIG_HEAD"@, content: ref_text(ours) }
}

/// The file that tells the next commit of its second parent.
pub open spec fn merge_head_file(theirs: ObjectSha) -> UpdateModel {
    UpdateModel { path: "MERGE_HEAD"@, content: ref_text(theirs) }
}

/// The file that keeps the message of a merge for the next commit.
pub open spec fn merge_msg_file(message: Seq<char>) -> UpdateModel {
    UpdateModel { path: "MERGE_MSG"@, content: message }
}

/// The files that a merge of two commits writes to the repository beside the index and the
/// references: where `HEAD` was and, where paths are left to be resolved, what the commit that ends
/// the merge needs. A merge of a commit with itself writes none.
pub open spec fn merge_files(
    theirs: ObjectSha,
    ours: ObjectSha,
    actions: Seq<ActionModel>,
    message: Seq<char>,
) -> Seq<UpdateModel> {
    if theirs == ours {
        Seq::empty()
    } else if conflicts_in(actions).len() == 0 {
        seq![orig_head_file(ours)]
    } else {
        seq![orig_head_file(ours), merge_head_file(theirs), merge_msg_file(message)]
    }
}

/// The file that remembers where `HEAD` was before a merge.
pub fn orig_head(ours: &ObjectSha) -> (r: RefUpdate)
    ensures
        r@ == orig_head_file(*ours),
{
    RefUpdate { path: string_of(chars_of("ORIG_HEAD").as_slice()), content: text_for(ours) }
}

/// The file that tells the next commit of its second parent.
pub fn merge_head(theirs: &ObjectSha) -> (r: RefUpdate)
    ensures
        r@ == merge_head_file(*theirs),
{
    RefUpdate { path: string_of(chars_of("MERGE_HEAD").as_slice()), content: text_for(theirs) }
}

/// The files that a merge of `theirs` into `ours` writes to the repository, when it takes these
/// actions: a merge that leaves paths to be resolved is ended by the next commit, which finds its
/// second parent and its message there, and any other is committed at once.
pub fn merge_state(
    theirs: &ObjectSha,
    ours: &ObjectSha,
    actions: &Vec<WorktreeAction>,
    message: &str,
) -> (r: Vec<RefUpdate>)
    ensures
        views(r@) == merge_files(*theirs, *ours, views(actions@), message@),
        views(r@).contains(merge_head_file(*theirs)) <==> *theirs != *ours && conflicts_in(
            views(actions@),
        ).len() > 0,
{
    let ghost files = merge_files(*theirs, *ours, views(actions@), message@);
    let mut out: Vec<RefUpdate> = Vec::new();
    proof {
        reveal_strlit("ORIG_HEAD");
        reveal_strlit("MERGE_HEAD");
        assert("ORIG_HEAD"@[0] != "MERGE_HEAD"@[0]);
    }
    if *theirs != *ours {
        out.push(orig_head(ours));
        if conflict_paths(actions).len() > 0 {
            out.push(merge_head(theirs));
            out.push(
                RefUpdate {
                    path: string_of(chars_of("MERGE_MSG").as_slice()),
                    content: string_of(chars_of(message).as_slice()),
                },
            );
            assert(files[1] == merge_head_file(*theirs));
        }
    }
    assert(views(out@) =~= files);
    out
}

/// The index after an action, when the file it wrote, if it wrote one, is as `stat` says.
pub open spec fn recorded(index: IndexModel, a: ActionModel, stat: FileStat) -> Result<
    IndexModel,
    IndexError,
> {
    match a {
        ActionModel::MakeDir { .. } => Ok(index),
        ActionModel::WriteFile { entry, oid, .. } => staged(index, stat, entry, oid),
        ActionModel::Remove { entry, .. } => Ok(
            IndexModel { entries: without_path(index.entries, entry), ..index },
        ),
        ActionModel::WriteMerged { entry, oid, .. } => staged(index, stat, entry, oid),
        ActionModel::WriteConflict { entry, base, ours, theirs, .. } => Ok(
            IndexModel {
                entries: sorted(
                    without_path(index.entries, entry) + conflict_entries(
                        entry,
                        base,
                        ours,
                        theirs,
                    ),
                ),
                ..index
            },
        ),
    }
}

/// The index after a file is staged.
pub open spec fn staged(index: IndexModel, stat: FileStat, path: Seq<u8>, oid: ObjectSha) -> Result<
    IndexModel,
    IndexError,
> {
    match add_fault(stat, path, oid) {
        Some(e) => Err(e),
        None => Ok(IndexModel { entries: with_file(index.entries, stat, path, oid), ..index }),
    }
}

/// Whether the entry path of an action is one that an index can hold.
pub open spec fn sound_action(a: ActionModel) -> bool {
    match a {
        ActionModel::WriteConflict { entry, .. } => path_fault(entry) is None,
        _ => true,
    }
}

/// Whether an action leaves a file that the index remembers the state of.
pub open spec fn leaves_file(a: ActionModel) -> bool {
    a is WriteFile || a is WriteMerged
}

/// Brings the index up to date with an action that was done. `stat` says how the file is that the
/// action left, where the index remembers that.
pub fn record_action(index: &mut IndexFile, action: &WorktreeAction, stat: Option<&FileStat>) -> (r:
    Result<(), IndexError>)
    requires
        leaves_file(action@) ==> stat is Some && times_fit(*stat->Some_0) && mode_of_stat(
            *stat->Some_0,
        ) is Some,
        sound_action(action@),
    ensures
        (match recorded(old(index)@, action@, *stat->Some_0) {
            Ok(m) => r is Ok && final(index)@ == m,
            Err(e) => r == Err::<(), IndexError>(e) && final(index)@ == old(index)@,
        }),
{
    match action {
        WorktreeAction::MakeDir { .. } => Ok(()),
        WorktreeAction::WriteFile { entry, oid, .. } => match stat {
            Some(s) => add_index(index, s, copy_bytes(entry.as_slice()), *oid),
            None => Ok(()),
        },
        WorktreeAction::Remove { entry, .. } => {
            index.remove_entry(entry.as_slice());
            Ok(())
        },
        WorktreeAction::WriteMerged { entry, oid, .. } => match stat {
            Some(s) => add_index(index, s, copy_bytes(entry.as_slice()), *oid),
            None => Ok(()),
        },
        WorktreeAction::WriteConflict { entry, base, ours, theirs, .. } => {
            insert_conflict_entries(index, entry.as_slice(), *base, *ours, *theirs);
            Ok(())
        },
    }
}

/// The actions of a merge can all be recorded.
pub proof fn law_actions_sound(
    db: Map<ObjectSha, Seq<u8>>,
    entries: Seq<MergeModel>,
    n: int,
    prefix: Seq<u8>,
    depth: nat,
)
    ensures
        actions_upto(db, entries, n, prefix, depth) matches Ok(a) ==> forall|i: int|
            0 <= i < a.len() ==> sound_action(#[trigger] a[i]),
    decreases entries, n,
{
    if 0 < n <= entries.len() {
        law_actions_sound(db, entries, n - 1, prefix, depth);
        let m = entries[n - 1];
        lemma_entry_sound(db, m, prefix, depth);
        if let Ok(a) = actions_upto(db, entries, n, prefix, depth) {
            let before = actions_upto(db, entries, n - 1, prefix, depth)->Ok_0;
            let more = entry_actions(db, m, prefix, depth)->Ok_0;
            assert forall|i: int| 0 <= i < a.len() implies sound_action(#[trigger] a[i]) by {
                if i < before.len() {
                    assert(a[i] == before[i]);
                } else {
                    assert(a[i] == more[i - before.len()]);
                }
            }
        }
    }
}

proof fn lemma_entry_sound(
    db: Map<ObjectSha, Seq<u8>>,
    m: MergeModel,
    prefix: Seq<u8>,
    depth: nat,
)
    ensures
        entry_actions(db, m, prefix, depth) matches Ok(a) ==> forall|i: int|
            0 <= i < a.len() ==> sound_action(#[trigger] a[i]),
    decreases m, 0int,
{
    match m {
        MergeModel::Take { name, mode, oid } => {
            lemma_take_sound(db, mode, oid, pushed(prefix, name), depth);
        },
        MergeModel::Subtree { name, entries } => {
            law_actions_sound(db, entries, entries.len() as int, pushed(prefix, name), depth);
            if let Ok(b) = actions_upto(
                db,
                entries,
                entries.len() as int,
                pushed(prefix, name),
                depth,
            ) {
                let a = seq![ActionModel::MakeDir { path: pushed(prefix, name) }] + b;
                assert forall|i: int| 0 <= i < a.len() implies sound_action(#[trigger] a[i]) by {
                    if i > 0 {
                        assert(a[i] == b[i - 1]);
                    }
                }
            }
        },
        _ => {},
    }
}

proof fn lemma_take_sound(
    db: Map<ObjectSha, Seq<u8>>,
    mode: FileMode,
    oid: ObjectSha,
    path: Seq<u8>,
    depth: nat,
)
    ensures
        take_actions(db, mode, oid, path, depth) matches Ok(a) ==> forall|i: int|
            0 <= i < a.len() ==> sound_action(#[trigger] a[i]),
    decreases depth, 0nat,
{
    if mode == FileMode::Directory && depth > 0 {
        if let Ok(entries) = tree_in(db, oid) {
            lemma_tree_sound(db, entries, path, (depth - 1) as nat);
            if let Ok(b) = tree_actions(db, entries, path, (depth - 1) as nat) {
                let a = seq![ActionModel::MakeDir { path }] + b;
                assert forall|i: int| 0 <= i < a.len() implies sound_action(#[trigger] a[i]) by {
                    if i > 0 {
                        assert(a[i] == b[i - 1]);
                    }
                }
            }
        }
    }
}

proof fn lemma_tree_sound(
    db: Map<ObjectSha, Seq<u8>>,
    entries: Seq<(Seq<u8>, TreeEntry)>,
    path: Seq<u8>,
    depth: nat,
)
    ensures
        tree_actions(db, entries, path, depth) matches Ok(a) ==> forall|i: int|
            0 <= i < a.len() ==> sound_action(#[trigger] a[i]),
    decreases depth, 1 + entries.len(),
{
    if entries.len() > 0 {
        let (name, e) = entries.last();
        lemma_tree_sound(db, entries.drop_last(), path, depth);
        lemma_take_sound(db, e.file_mode, e.object_name, pushed(path, name), depth);
        if let Ok(a) = tree_actions(db, entries, path, depth) {
            let before = tree_actions(db, entries.drop_last(), path, depth)->Ok_0;
            let more = take_actions(db, e.file_mode, e.object_name, pushed(path, name), depth)->Ok_0;
            assert forall|i: int| 0 <= i < a.len() implies sound_action(#[trigger] a[i]) by {
                if i < before.len() {
                    assert(a[i] == before[i]);
                } else {
                    assert(a[i] == more[i - before.len()]);
                }
            }
        }
    }
}

/// How a merge ended.
#[derive(Debug)]
pub enum MergeOutcome {
    /// There was nothing to merge.
    AlreadyUpToDate,
    /// Only `HEAD` moved, to this commit.
    FastForward(ObjectSha),
    /// A merge commit was made.
    Clean(ObjectSha),
    /// These paths are left to be resolved, and no commit was made.
    Conflict(Vec<Vec<u8>>),
}

/// What a merge has to do.
#[derive(Debug)]
pub enum MergePlan {
    /// Nothing.
    UpToDate,
    /// Do the actions, and move `HEAD` to the other commit.
    FastForward(Vec<WorktreeAction>),
    /// Do the actions, and make a merge commit if nothing is left to be resolved.
    ThreeWay(Vec<WorktreeAction>),
}

/// The model of a [`MergePlan`].
#[verifier::ext_equal]
pub enum PlanModel {
    UpToDate,
    FastForward(Seq<ActionModel>),
    ThreeWay(Seq<ActionModel>),
}

impl View for MergePlan {
    type V = PlanModel;

    open spec fn view(&self) -> PlanModel {
        match *self {
            MergePlan::UpToDate => PlanModel::UpToDate,
            MergePlan::FastForward(a) => PlanModel::FastForward(views(a@)),
            MergePlan::ThreeWay(a) => PlanModel::ThreeWay(views(a@)),
        }
    }
}

/// The entries of the tree of a commit.
pub open spec fn tree_of(db: Map<ObjectSha, Seq<u8>>, oid: ObjectSha) -> Result<
    Seq<(Seq<u8>, TreeEntry)>,
    ObjectError,
> {
    match commit_at(db, oid) {
        Err(e) => Err(e),
        Ok(c) => tree_in(db, c.tree),
    }
}

/// What has to be done to merge three trees.
pub open spec fn trees_actions(
    db: Map<ObjectSha, Seq<u8>>,
    base: Seq<(Seq<u8>, TreeEntry)>,
    ours: Seq<(Seq<u8>, TreeEntry)>,
    theirs: Seq<(Seq<u8>, TreeEntry)>,
    depth: nat,
) -> Result<Seq<ActionModel>, MergeError> {
    match merged(db, base, ours, theirs, all_names(base, ours, theirs), depth) {
        Err(e) => Err(MergeError::Object(e)),
        Ok(entries) => merge_actions(db, entries, Seq::empty(), depth),
    }
}

/// What has to be done to merge two different commits whose histories meet at `base`.
pub open spec fn plan_from(
    db: Map<ObjectSha, Seq<u8>>,
    ours: ObjectSha,
    theirs: ObjectSha,
    our_tree: Seq<(Seq<u8>, TreeEntry)>,
    their_tree: Seq<(Seq<u8>, TreeEntry)>,
    base: Option<ObjectSha>,
    depth: nat,
) -> Result<PlanModel, MergeError> {
    match base {
        None => Err(MergeError::Unrelated),
        Some(base) => if base == theirs {
            Ok(PlanModel::UpToDate)
        } else if base == ours {
            match trees_actions(db, our_tree, our_tree, their_tree, depth) {
                Err(e) => Err(e),
                Ok(a) => Ok(PlanModel::FastForward(a)),
            }
        } else {
            match tree_of(db, base) {
                Err(e) => Err(MergeError::Object(e)),
                Ok(base_tree) => match trees_actions(
                    db,
                    base_tree,
                    our_tree,
                    their_tree,
                    depth,
                ) {
                    Err(e) => Err(e),
                    Ok(a) => Ok(PlanModel::ThreeWay(a)),
                },
            }
        },
    }
}

/// Reads the tree of a commit.
pub fn read_commit_tree(db: &ObjectDb, oid: &ObjectSha) -> (r: Result<TreeObject, ObjectError>)
    ensures
        (match r {
            Ok(t) => tree_of(db@, *oid) == Ok::<Seq<(Seq<u8>, TreeEntry)>, ObjectError>(t.names()),
            Err(e) => tree_of(db@, *oid) == Err::<Seq<(Seq<u8>, TreeEntry)>, ObjectError>(e),
        }),
{
    match CommitObject::read_loose_commit(db, oid) {
        Err(e) => Err(e),
        Ok(c) => TreeObject::read_loose_tree(db, &c.tree),
    }
}

fn plan_trees(db: &ObjectDb, base: &TreeObject, ours: &TreeObject, theirs: &TreeObject) -> (r:
    Result<Vec<WorktreeAction>, MergeError>)
    ensures
        (match r {
            Ok(v) => trees_actions(
                db@,
                base.names(),
                ours.names(),
                theirs.names(),
                db.count(),
            ) == Ok::<Seq<ActionModel>, MergeError>(views(v@)),
            Err(e) => trees_actions(
                db@,
                base.names(),
                ours.names(),
                theirs.names(),
                db.count(),
            ) == Err::<Seq<ActionModel>, MergeError>(e),
        }),
{
    match merge_trees(db, base, ours, theirs) {
        Err(e) => Err(MergeError::Object(e)),
        Ok(entries) => {
            let root: Vec<u8> = Vec::new();
            assert(root@ =~= Seq::empty());
            merge_apply(db, &entries, root.as_slice())
        },
    }
}

fn plan_with_base(
    db: &ObjectDb,
    ours: &ObjectSha,
    theirs: &ObjectSha,
    our_tree: &TreeObject,
    their_tree: &TreeObject,
    base: Option<ObjectSha>,
) -> (r: Result<MergePlan, MergeError>)
    ensures
        res_view(r) == plan_from(
            db@,
            *ours,
            *theirs,
            our_tree.names(),
            their_tree.names(),
            base,
            db.count(),
        ),
{
    let base = match base {
        None => return Err(MergeError::Unrelated),
        Some(b) => b,
    };
    if base == *theirs {
        return Ok(MergePlan::UpToDate);
    }
    if base == *ours {
        return match plan_trees(db, our_tree, our_tree, their_tree) {
            Ok(a) => Ok(MergePlan::FastForward(a)),
            Err(e) => Err(e),
        };
    }
    match read_commit_tree(db, &base) {
        Err(e) => Err(MergeError::Object(e)),
        Ok(base_tree) => match plan_trees(db, &base_tree, our_tree, their_tree) {
            Ok(a) => Ok(MergePlan::ThreeWay(a)),
            Err(e) => Err(e),
        },
    }
}

/// The trees of two commits, or what keeps the first of commits and trees from being read.
pub open spec fn both_trees(db: Map<ObjectSha, Seq<u8>>, ours: ObjectSha, theirs: ObjectSha) -> Result<
    (Seq<(Seq<u8>, TreeEntry)>, Seq<(Seq<u8>, TreeEntry)>),
    ObjectError,
> {
    match (commit_at(db, ours), commit_at(db, theirs)) {
        (Err(e), _) => Err(e),
        (_, Err(e)) => Err(e),
        (Ok(o), Ok(t)) => match (tree_in(db, o.tree), tree_in(db, t.tree)) {
            (Err(e), _) => Err(e),
            (_, Err(e)) => Err(e),
            (Ok(a), Ok(b)) => Ok((a, b)),
        },
    }
}

/// Whether merging two different commits gives this: the plan that follows from where their
/// histories meet, or what keeps a tree or a history from being read.
pub open spec fn merge_result(
    db: Map<ObjectSha, Seq<u8>>,
    ours: ObjectSha,
    theirs: ObjectSha,
    depth: nat,
    r: Result<PlanModel, MergeError>,
) -> bool {
    match both_trees(db, ours, theirs) {
        Ok((o, t)) => {
            ||| r matches Err(MergeError::Object(e)) && walk_fault(db, ours, theirs, e)
            ||| exists|base: Option<ObjectSha>| #[trigger]
                meets(db, ours, theirs, base) && r == plan_from(db, ours, theirs, o, t, base, depth)
        },
        Err(e) => r matches Err(MergeError::Object(x)) && x == e,
    }
}

/// Plans the merge of commit `theirs` into commit `ours`.
pub fn merge(db: &ObjectDb, ours: &ObjectSha, theirs: &ObjectSha) -> (r: Result<
    MergePlan,
    MergeError,
>)
    ensures
        *ours == *theirs ==> r is Ok && r->Ok_0@ == PlanModel::UpToDate,
        *ours != *theirs ==> merge_result(db@, *ours, *theirs, db.count(), res_view(r)),
        r is Ok && is_ancestor(db@, *theirs, *ours) ==> r->Ok_0@ == PlanModel::UpToDate,
        r is Ok && is_ancestor(db@, *ours, *theirs) && *ours != *theirs && !is_ancestor(
            db@,
            *theirs,
            *ours,
        ) ==> r->Ok_0@ is FastForward,
{
    proof {
        assert(crate::merge_base::is_path(db@, seq![*ours], *ours, *ours));
    }
    if *ours == *theirs {
        return Ok(MergePlan::UpToDate);
    }
    let our_commit = match CommitObject::read_loose_commit(db, ours) {
        Ok(c) => c,
        Err(e) => return Err(MergeError::Object(e)),
    };
    let their_commit = match CommitObject::read_loose_commit(db, theirs) {
        Ok(c) => c,
        Err(e) => return Err(MergeError::Object(e)),
    };
    let our_tree = match TreeObject::read_loose_tree(db, &our_commit.tree) {
        Ok(t) => t,
        Err(e) => return Err(MergeError::Object(e)),
    };
    let their_tree = match TreeObject::read_loose_tree(db, &their_commit.tree) {
        Ok(t) => t,
        Err(e) => return Err(MergeError::Object(e)),
    };
    let base = match find_merge_base(db, ours, theirs) {
        Ok(b) => b,
        Err(e) => return Err(MergeError::Object(e)),
    };
    assert(meets(db@, *ours, *theirs, base));
    plan_with_base(db, ours, theirs, &our_tree, &their_tree, base)
}

/// The commit that a merge target names: an id, or a branch whose reference has the content
/// `branch`.
pub open spec fn target_in(target: Seq<char>, branch: Option<Seq<char>>) -> Result<
    ObjectSha,
    MergeError,
> {
    match sha1_in(trim(target)) {
        Some(oid) => Ok(oid),
        None => match branch {
            None => Err(MergeError::NoBranch),
            Some(content) => match sha1_in(trim(content)) {
                Some(oid) => Ok(oid),
                None => Err(MergeError::BadBranch),
            },
        },
    }
}

/// The reference file to read for a merge target; none where the target is an id itself.
pub fn target_ref(target: &str) -> (r: Option<String>)
    ensures
        crate::text::opt_view(r) == (match sha1_in(trim(target@)) {
            Some(_) => None::<Seq<char>>,
            None => Some(branch_ref(trim(target@))),
        }),
{
    let cs = chars_of(target);
    let t = trimmed(cs.as_slice());
    match read_sha1(t) {
        Some(_) => None,
        None => Some(get_branch_ref_path(string_of(t).as_str())),
    }
}

/// The commit that a merge target names. `branch` is the content of the reference file that
/// [`target_ref`] gives, if there is such a file.
pub fn resolve_to_commit_oid(target: &str, branch: Option<&str>) -> (r: Result<
    ObjectSha,
    MergeError,
>)
    ensures
        r == target_in(target@, crate::text::opt_view(branch)),
{
    let cs = chars_of(target);
    match read_sha1(trimmed(cs.as_slice())) {
        Some(oid) => Ok(oid),
        None => match branch {
            None => Err(MergeError::NoBranch),
            Some(content) => {
                let b = chars_of(content);
                match read_sha1(trimmed(b.as_slice())) {
                    Some(oid) => Ok(oid),
                    None => Err(MergeError::BadBranch),
                }
            },
        },
    }
}

/// The objects that a merge commit consists of.
#[derive(Debug)]
pub struct MergeCommit {
    /// The trees, each with its id and its loose form.
    pub trees: Vec<(ObjectSha, Vec<u8>)>,
    /// The id of the commit.
    pub oid: ObjectSha,
    /// The file that stores the commit.
    pub file: Vec<u8>,
}

/// The commit of a merge whose result has the given root directory.
pub open spec fn merge_commit_model(
    root: NodeModel,
    ours: ObjectSha,
    theirs: ObjectSha,
    author: IdentityModel,
    committer: IdentityModel,
    message: Seq<char>,
) -> CommitModel {
    CommitModel {
        tree: node_entry(root).object_name,
        parents: seq![ours, theirs],
        author,
        committer,
        trailing_headers: Seq::empty(),
        message: encode_utf8(message),
    }
}

/// Makes the commit of a merge that left nothing to be resolved.
pub fn merge_commit(
    index: &IndexFile,
    ours: &ObjectSha,
    theirs: &ObjectSha,
    author: CommitIdentity,
    committer: CommitIdentity,
    message: &str,
) -> (r: Result<MergeCommit, MergeError>)
    ensures
        (match tree_of_entries(index@.entries, false) {
            Err(e) => r matches Err(MergeError::Tree(x)) && x == e,
            Ok(c) => {
                let root = NodeModel::Tree(c);
                let raw = framed(
                    "commit"@,
                    commit_payload(
                        merge_commit_model(root, *ours, *theirs, author@, committer@, message@),
                    ),
                );
                r matches Ok(m) && raw_objects(m.trees@) == objects_of(root) && m.oid
                    == oid_of_raw(raw) && m.file@ == zlib_deflated(raw)
            },
        }),
{
    let root = match TreeNode::from_index_file(index) {
        Ok(n) => n,
        Err(e) => return Err(MergeError::Tree(e)),
    };
    let mut trees: Vec<(ObjectSha, Vec<u8>)> = Vec::new();
    let entry = root.write_tree_return_entry(&mut trees);
    assert(raw_objects(trees@) =~= objects_of(root@));
    let parents: Vec<ObjectSha> = vec![*ours, *theirs];
    let commit = CommitObject::new(
        entry.object_name,
        parents,
        author,
        committer,
        Vec::new(),
        copy_bytes(message.as_bytes()),
    );
    assert(commit@ =~= merge_commit_model(
        root@,
        *ours,
        *theirs,
        author@,
        committer@,
        message@,
    ));
    let (oid, file) = commit_tree(&commit);
    Ok(MergeCommit { trees, oid, file })
}

} // verus!
