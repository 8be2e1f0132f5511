//! Checking out: what has to change in the working directory to show a commit, and when that would
//! touch files that are not tracked.
use crate::byte_map::{lemma_lookup_has_key, lookup, ByteMap};
use crate::bytes::{copy_bytes, rfind_before};
use crate::commit_object::{commit_at, CommitObject};
use crate::git_paths::{branch_ref, get_branch_ref_path};
use crate::head::{head_text, Head, HeadModel};
use crate::index::{index_form, normalize_entry_path_bytes, IndexError, IndexFile, IndexModel};
use crate::index_tree::{
    children_in, children_view, leaf_views, leaves_from, leaves_of, lemma_tree_view,
    tree_of_entries, IndexRootTree, NodeModel, TreeError, TreeNode,
};
use crate::merge::{ActionModel, WorktreeAction};
use crate::object::{
    blob_in, oid_from_hex, read_loose_blob, tree_in, FileMode, ObjectError, ObjectSha, TreeEntry,
    TreeObject,
};
use crate::object_db::ObjectDb;
use crate::path_set::{
    below, difference, is_below, key_path, keys_without, lemma_key_path, lemma_keys_without,
    lemma_path_set, path_key, path_of, path_set, set_of_paths,
};
use crate::reference::{commit_fault, ensure_commit, read_ref, ref_in, RefError};
use crate::text::{
    both_view, chars_of, lemma_views_push, lossy_text, opt_view, string_of, utf8_lossy, views,
};
use crate::unix_path::{push_path, pushed};
use vstd::prelude::*;
use vstd::slice::slice_subrange;

verus! {

/// What to check out.
#[derive(Debug)]
pub enum CheckoutTarget {
    Commit(ObjectSha),
    Branch(String),
}

/// The model of a [`CheckoutTarget`].
#[verifier::ext_equal]
pub enum TargetModel {
    Commit(ObjectSha),
    Branch(Seq<char>),
}

impl View for CheckoutTarget {
    type V = TargetModel;

    open spec fn view(&self) -> TargetModel {
        match *self {
            CheckoutTarget::Commit(oid) => TargetModel::Commit(oid),
            CheckoutTarget::Branch(name) => TargetModel::Branch(name@),
        }
    }
}

/// What a text names: a commit where it is an object id in hexadecimal, otherwise a branch.
pub open spec fn target_named(s: Seq<char>) -> TargetModel {
    match oid_from_hex(s) {
        Some(oid) => TargetModel::Commit(oid),
        None => TargetModel::Branch(s),
    }
}

impl CheckoutTarget {
    /// What a text names.
    pub fn from_str(s: &str) -> (r: CheckoutTarget)
        ensures
            r@ == target_named(s@),
    {
        match ObjectSha::from_hex(s) {
            Some(oid) => CheckoutTarget::Commit(oid),
            None => CheckoutTarget::Branch(string_of(chars_of(s).as_slice())),
        }
    }
}

/// Why a checkout is refused or cannot be done.
#[derive(Debug)]
pub enum CheckoutError {
    /// The reference of the branch cannot be read.
    Ref(RefError),
    /// An object cannot be read.
    Object(ObjectError),
    /// The index does not make a tree.
    Tree(TreeError),
    /// A path cannot be that of an index entry.
    Index(IndexError),
    /// A file of a kind that is not checked out.
    Mode(FileMode),
    /// An untracked file would be overwritten.
    Overwritten(Vec<u8>),
    /// An untracked file is where a directory has to be.
    Blocks(Vec<u8>),
    /// An untracked file is in a directory that has to go.
    Removed(Vec<u8>),
}

/// The model of a [`CheckoutError`].
#[verifier::ext_equal]
pub enum FaultModel {
    Ref(RefError),
    Object(ObjectError),
    Tree(TreeError),
    Index(IndexError),
    Mode(FileMode),
    Overwritten(Seq<u8>),
    Blocks(Seq<u8>),
    Removed(Seq<u8>),
}

impl View for CheckoutError {
    type V = FaultModel;

    open spec fn view(&self) -> FaultModel {
        match *self {
            CheckoutError::Ref(e) => FaultModel::Ref(e),
            CheckoutError::Object(e) => FaultModel::Object(e),
            CheckoutError::Tree(e) => FaultModel::Tree(e),
            CheckoutError::Index(e) => FaultModel::Index(e),
            CheckoutError::Mode(m) => FaultModel::Mode(m),
            CheckoutError::Overwritten(p) => FaultModel::Overwritten(p@),
            CheckoutError::Blocks(p) => FaultModel::Blocks(p@),
            CheckoutError::Removed(p) => FaultModel::Removed(p@),
        }
    }
}

/// What a refusal on account of an untracked file says.
pub open spec fn untracked_text(e: FaultModel) -> Option<Seq<char>> {
    match e {
        FaultModel::Overwritten(p) => Some(
            "untracked working tree file would be overwritten by checkout: "@ + lossy_text(p),
        ),
        FaultModel::Blocks(p) => Some(
            "untracked working tree file blocks checkout path: "@ + lossy_text(p),
        ),
        FaultModel::Removed(p) => Some(
            "untracked working tree file would be removed by checkout: "@ + lossy_text(p),
        ),
        _ => None,
    }
}

fn with_path(start: &str, path: &[u8]) -> (r: String)
    ensures
        r@ == start@ + lossy_text(path@),
{
    let mut r = string_of(chars_of(start).as_slice());
    r.append(utf8_lossy(path).as_str());
    r
}

impl CheckoutError {
    /// What a refusal on account of an untracked file says.
    pub fn untracked_message(&self) -> (r: Option<String>)
        ensures
            opt_view(r) == untracked_text(self@),
    {
        match self {
            CheckoutError::Overwritten(p) => Some(
                with_path(
                    "untracked working tree file would be overwritten by checkout: ",
                    p.as_slice(),
                ),
            ),
            CheckoutError::Blocks(p) => Some(
                with_path("untracked working tree file blocks checkout path: ", p.as_slice()),
            ),
            CheckoutError::Removed(p) => Some(
                with_path(
                    "untracked working tree file would be removed by checkout: ",
                    p.as_slice(),
                ),
            ),
            _ => None,
        }
    }
}

/// The first of the keys that the set holds.
pub open spec fn first_in(keys: Seq<Seq<u8>>, set: Seq<(Seq<u8>, ())>) -> Option<Seq<u8>>
    decreases keys.len(),
{
    if keys.len() == 0 {
        None
    } else if lookup(set, keys[0]) is Some {
        Some(keys[0])
    } else {
        first_in(keys.drop_first(), set)
    }
}

/// Whether the set holds a path that `k` is below.
pub open spec fn some_above(k: Seq<u8>, set: Seq<(Seq<u8>, ())>) -> bool {
    exists|i: int| 0 <= i < set.len() && below(k, (#[trigger] set[i]).0)
}

/// Whether the set holds a path below `k`.
pub open spec fn some_below(k: Seq<u8>, set: Seq<(Seq<u8>, ())>) -> bool {
    exists|i: int| 0 <= i < set.len() && below((#[trigger] set[i]).0, k)
}

/// What is wrong with the first of the keys that is above or below a path of the set.
pub open spec fn first_entangled(keys: Seq<Seq<u8>>, set: Seq<(Seq<u8>, ())>) -> Option<FaultModel>
    decreases keys.len(),
{
    if keys.len() == 0 {
        None
    } else if some_above(keys[0], set) {
        Some(FaultModel::Removed(key_path(keys[0])))
    } else if some_below(keys[0], set) {
        Some(FaultModel::Blocks(key_path(keys[0])))
    } else {
        first_entangled(keys.drop_first(), set)
    }
}

/// What untracked files keep the new paths from being written: the paths of the working directory
/// that are not among the old ones.
pub open spec fn untracked_fault(
    old_set: Seq<(Seq<u8>, ())>,
    new_set: Seq<(Seq<u8>, ())>,
    work: Seq<(Seq<u8>, ())>,
) -> Option<FaultModel> {
    let untracked = keys_without(work, old_set);
    match first_in(untracked, new_set) {
        Some(k) => Some(FaultModel::Overwritten(key_path(k))),
        None => first_entangled(untracked, new_set),
    }
}

fn holds_above(k: &[u8], set: &ByteMap<()>) -> (r: bool)
    ensures
        r == some_above(k@, set@),
{
    let mut i: usize = 0;
    while i < set.len()
        invariant
            0 <= i <= set@.len(),
            forall|j: int| 0 <= j < i ==> !below(k@, (#[trigger] set@[j]).0),
        decreases set@.len() - i,
    {
        if is_below(k, set.key_at(i).as_slice()) {
            assert(below(k@, set@[i as int].0));
            return true;
        }
        i += 1;
    }
    false
}

fn holds_below(k: &[u8], set: &ByteMap<()>) -> (r: bool)
    ensures
        r == some_below(k@, set@),
{
    let mut i: usize = 0;
    while i < set.len()
        invariant
            0 <= i <= set@.len(),
            forall|j: int| 0 <= j < i ==> !below((#[trigger] set@[j]).0, k@),
        decreases set@.len() - i,
    {
        if is_below(set.key_at(i).as_slice(), k) {
            assert(below(set@[i as int].0, k@));
            return true;
        }
        i += 1;
    }
    false
}

fn ensure_no_untracked_conflict(
    old_set: &ByteMap<()>,
    new_set: &ByteMap<()>,
    work: &ByteMap<()>,
) -> (r: Result<(), CheckoutError>)
    ensures
        (match untracked_fault(old_set@, new_set@, work@) {
            Some(f) => r is Err && r->Err_0@ == f,
            None => r is Ok,
        }),
{
    let untracked = difference(work, old_set);
    let ghost keys = views(untracked@);
    let mut i: usize = 0;
    assert(keys.subrange(0, keys.len() as int) =~= keys);
    while i < untracked.len()
        invariant
            0 <= i <= untracked@.len(),
            keys == views(untracked@),
            keys == keys_without(work@, old_set@),
            first_in(keys, new_set@) == first_in(
                keys.subrange(i as int, keys.len() as int),
                new_set@,
            ),
        decreases untracked@.len() - i,
    {
        proof {
            let rest = keys.subrange(i as int, keys.len() as int);
            assert(rest[0] == untracked@[i as int]@);
            assert(rest.drop_first() =~= keys.subrange(i + 1, keys.len() as int));
        }
        if new_set.contains(untracked[i].as_slice()) {
            return Err(CheckoutError::Overwritten(path_of(untracked[i].as_slice())));
        }
        i += 1;
    }
    let mut k: usize = 0;
    assert(keys.subrange(0, keys.len() as int) =~= keys);
    while k < untracked.len()
        invariant
            0 <= k <= untracked@.len(),
            keys == views(untracked@),
            keys == keys_without(work@, old_set@),
            first_in(keys, new_set@) is None,
            first_entangled(keys, new_set@) == first_entangled(
                keys.subrange(k as int, keys.len() as int),
                new_set@,
            ),
        decreases untracked@.len() - k,
    {
        proof {
            let rest = keys.subrange(k as int, keys.len() as int);
            assert(rest[0] == untracked@[k as int]@);
            assert(rest.drop_first() =~= keys.subrange(k + 1, keys.len() as int));
        }
        if holds_above(untracked[k].as_slice(), new_set) {
            return Err(CheckoutError::Removed(path_of(untracked[k].as_slice())));
        }
        if holds_below(untracked[k].as_slice(), new_set) {
            return Err(CheckoutError::Blocks(path_of(untracked[k].as_slice())));
        }
        k += 1;
    }
    Ok(())
}

/// The directories that a path is in, the innermost first.
pub open spec fn parent_dirs(p: Seq<u8>) -> Seq<Seq<u8>>
    decreases p.len(),
{
    let i = rfind_before(p, 0x2f, p.len() as int);
    if 0 < i < p.len() {
        seq![p.subrange(0, i)] + parent_dirs(p.subrange(0, i))
    } else {
        Seq::empty()
    }
}

/// A file that has to go, and the directories to remove after it, in order, until one is not empty.
#[derive(Debug)]
pub struct Removal {
    pub path: Vec<u8>,
    pub dirs: Vec<Vec<u8>>,
}

impl View for Removal {
    type V = (Seq<u8>, Seq<Seq<u8>>);

    open spec fn view(&self) -> (Seq<u8>, Seq<Seq<u8>>) {
        (self.path@, views(self.dirs@))
    }
}

/// What removing the path of a key takes.
pub open spec fn removal_of(k: Seq<u8>) -> (Seq<u8>, Seq<Seq<u8>>) {
    (key_path(k), parent_dirs(key_path(k)))
}

/// What removing the old paths that are not among the new ones takes, in order.
pub open spec fn removals(
    old_set: Seq<(Seq<u8>, ())>,
    new_set: Seq<(Seq<u8>, ())>,
) -> Seq<(Seq<u8>, Seq<Seq<u8>>)> {
    let keys = keys_without(old_set, new_set);
    Seq::new(keys.len(), |i: int| removal_of(keys[i]))
}

fn prune_dirs(p: &[u8]) -> (r: Vec<Vec<u8>>)
    ensures
        views(r@) == parent_dirs(p@),
{
    let mut out: Vec<Vec<u8>> = Vec::new();
    let mut n: usize = p.len();
    let mut more = true;
    assert(p@.subrange(0, n as int) =~= p@);
    assert(views(out@) + parent_dirs(p@) =~= parent_dirs(p@));
    while more
        invariant
            0 <= n <= p@.len(),
            more ==> parent_dirs(p@) == views(out@) + parent_dirs(p@.subrange(0, n as int)),
            !more ==> parent_dirs(p@) == views(out@),
        decreases n + (if more {
            1nat
        } else {
            0nat
        }),
    {
        let ghost q = p@.subrange(0, n as int);
        let i = last_slash(slice_subrange(p, 0, n));
        match i {
            Some(i) => {
                if i > 0 {
                    let dir = copy_bytes(slice_subrange(p, 0, i));
                    proof {
                        let d = q.subrange(0, i as int);
                        assert(d =~= p@.subrange(0, i as int));
                        lemma_views_push(out@, dir);
                        assert(views(out@) + (seq![d] + parent_dirs(d)) =~= views(out@).push(d)
                            + parent_dirs(d));
                    }
                    out.push(dir);
                    n = i;
                } else {
                    assert(views(out@) + Seq::empty() =~= views(out@));
                    more = false;
                }
            },
            None => {
                assert(views(out@) + Seq::empty() =~= views(out@));
                more = false;
            },
        }
    }
    out
}

fn last_slash(p: &[u8]) -> (r: Option<usize>)
    ensures
        (match r {
            Some(i) => i < p@.len() && i == rfind_before(p@, 0x2f, p@.len() as int),
            None => rfind_before(p@, 0x2f, p@.len() as int) < 0,
        }),
{
    let mut i: usize = p.len();
    while i > 0
        invariant
            0 <= i <= p@.len(),
            rfind_before(p@, 0x2f, p@.len() as int) == rfind_before(p@, 0x2f, i as int),
        decreases i,
    {
        if p[i - 1] == 0x2f {
            return Some(i - 1);
        }
        i -= 1;
    }
    None
}

fn removed_tracked_files(old_set: &ByteMap<()>, new_set: &ByteMap<()>) -> (r: Vec<Removal>)
    ensures
        views(r@) == removals(old_set@, new_set@),
{
    let keys = difference(old_set, new_set);
    let ghost all = removals(old_set@, new_set@);
    let mut out: Vec<Removal> = Vec::new();
    let mut i: usize = 0;
    while i < keys.len()
        invariant
            0 <= i <= keys@.len(),
            views(keys@) == keys_without(old_set@, new_set@),
            all == removals(old_set@, new_set@),
            views(out@) == all.subrange(0, i as int),
        decreases keys@.len() - i,
    {
        let path = path_of(keys[i].as_slice());
        let dirs = prune_dirs(path.as_slice());
        let x = Removal { path, dirs };
        proof {
            assert(views(keys@)[i as int] == keys@[i as int]@);
            assert(x@ == all[i as int]);
            lemma_views_push(out@, x);
        }
        out.push(x);
        i += 1;
        assert(views(out@) =~= all.subrange(0, i as int));
    }
    assert(views(out@) =~= all);
    out
}

/// Writing a file of a tree to a path.
pub open spec fn leaf_action(db: Map<ObjectSha, Seq<u8>>, e: TreeEntry, path: Seq<u8>) -> Result<
    ActionModel,
    FaultModel,
> {
    match blob_in(db, e.object_name) {
        Err(x) => Err(FaultModel::Object(x)),
        Ok(content) => if e.file_mode == FileMode::Gitlink || e.file_mode == FileMode::Directory {
            Err(FaultModel::Mode(e.file_mode))
        } else {
            match index_form(path) {
                Err(x) => Err(FaultModel::Index(x)),
                Ok(entry) => Ok(
                    ActionModel::WriteFile {
                        path,
                        entry,
                        mode: e.file_mode,
                        content,
                        oid: e.object_name,
                    },
                ),
            }
        },
    }
}

/// Writing a node to a path, up to the first file that cannot be written.
pub open spec fn node_actions(db: Map<ObjectSha, Seq<u8>>, n: NodeModel, path: Seq<u8>) -> Result<
    Seq<ActionModel>,
    FaultModel,
>
    decreases n, 0int,
{
    match n {
        NodeModel::Blob(e) => match leaf_action(db, e, path) {
            Err(x) => Err(x),
            Ok(a) => Ok(seq![a]),
        },
        NodeModel::Tree(c) => match child_actions(db, c, c.len() as int, path) {
            Err(x) => Err(x),
            Ok(a) => Ok(seq![ActionModel::MakeDir { path }] + a),
        },
    }
}

/// Writing the first `n` of what a directory holds.
pub open spec fn child_actions(
    db: Map<ObjectSha, Seq<u8>>,
    c: Seq<(Seq<u8>, NodeModel)>,
    n: int,
    path: Seq<u8>,
) -> Result<Seq<ActionModel>, FaultModel>
    decreases c, n,
{
    if n <= 0 || n > c.len() {
        Ok(Seq::empty())
    } else {
        match child_actions(db, c, n - 1, path) {
            Err(x) => Err(x),
            Ok(before) => match node_actions(db, c[n - 1].1, pushed(path, c[n - 1].0)) {
                Err(x) => Err(x),
                Ok(a) => Ok(before + a),
            },
        }
    }
}

proof fn lemma_child_actions_stop(
    db: Map<ObjectSha, Seq<u8>>,
    c: Seq<(Seq<u8>, NodeModel)>,
    n: int,
    m: int,
    path: Seq<u8>,
)
    requires
        0 <= n <= m <= c.len(),
        child_actions(db, c, n, path) is Err,
    ensures
        child_actions(db, c, m, path) == child_actions(db, c, n, path),
    decreases m - n,
{
    if n < m {
        lemma_child_actions_stop(db, c, n, m - 1, path);
    }
}

fn checkout_blob(db: &ObjectDb, e: &TreeEntry, path: Vec<u8>) -> (r: Result<
    WorktreeAction,
    CheckoutError,
>)
    ensures
        both_view(r) == leaf_action(db@, *e, path@),
{
    let content = match read_loose_blob(db, &e.object_name) {
        Ok(c) => c,
        Err(x) => return Err(CheckoutError::Object(x)),
    };
    match e.file_mode {
        FileMode::Gitlink | FileMode::Directory => return Err(CheckoutError::Mode(e.file_mode)),
        _ => {},
    }
    match normalize_entry_path_bytes(path.as_slice()) {
        Err(x) => Err(CheckoutError::Index(x)),
        Ok(entry) => Ok(
            WorktreeAction::WriteFile {
                path,
                entry,
                mode: e.file_mode,
                content,
                oid: e.object_name,
            },
        ),
    }
}

fn checkout_children(
    db: &ObjectDb,
    c: &Vec<(Vec<u8>, TreeNode)>,
    path: &[u8],
    out: &mut Vec<WorktreeAction>,
) -> (r: Result<(), CheckoutError>)
    ensures
        (match r {
            Ok(_) => child_actions(db@, children_view(c@), c@.len() as int, path@) is Ok && views(
                final(out)@,
            ) == views(old(out)@) + child_actions(
                db@,
                children_view(c@),
                c@.len() as int,
                path@,
            )->Ok_0,
            Err(e) => child_actions(db@, children_view(c@), c@.len() as int, path@) == Err::<
                Seq<ActionModel>,
                FaultModel,
            >(e@),
        }),
    decreases c@,
{
    let ghost before = views(out@);
    let ghost s = children_view(c@);
    let mut i: usize = 0;
    assert(before + Seq::<ActionModel>::empty() =~= before);
    while i < c.len()
        invariant
            0 <= i <= c@.len(),
            s == children_view(c@),
            child_actions(db@, s, i as int, path@) is Ok,
            views(out@) == before + child_actions(db@, s, i as int, path@)->Ok_0,
        decreases c@.len() - i,
    {
        let ghost a = child_actions(db@, s, i as int, path@)->Ok_0;
        let ghost now = views(out@);
        let rel = push_path(path, c[i].0.as_slice());
        let ghost rel_bytes = rel@;
        proof {
            lemma_tree_view(c@[i as int].1);
            assert(s[i as int] == (c@[i as int].0@, c@[i as int].1@));
        }
        assert(decreases_to!(c@ => c@[i as int]));
        let r = match &c[i].1 {
            TreeNode::Blob(b) => {
                let e = TreeEntry { file_mode: b.file_mode(), object_name: *b.object_name() };
                match checkout_blob(db, &e, rel) {
                    Ok(x) => {
                        proof {
                            lemma_views_push(out@, x);
                            assert(now.push(x@) =~= now + seq![x@]);
                        }
                        out.push(x);
                        Ok(())
                    },
                    Err(x) => Err(x),
                }
            },
            TreeNode::Tree(d) => {
                let made = WorktreeAction::MakeDir { path: copy_bytes(rel.as_slice()) };
                proof {
                    lemma_views_push(out@, made);
                }
                out.push(made);
                match checkout_children(db, d, rel.as_slice(), out) {
                    Ok(_) => {
                        proof {
                            let b = child_actions(
                                db@,
                                children_view(d@),
                                d@.len() as int,
                                rel_bytes,
                            )->Ok_0;
                            assert(now.push(made@) + b =~= now + (seq![made@] + b));
                        }
                        Ok(())
                    },
                    Err(x) => Err(x),
                }
            },
        };
        match r {
            Ok(_) => {
                proof {
                    let b = node_actions(db@, s[i as int].1, rel_bytes)->Ok_0;
                    assert(views(out@) == now + b);
                    assert(before + a + b =~= before + (a + b));
                }
            },
            Err(x) => {
                proof {
                    lemma_child_actions_stop(db@, s, i + 1, s.len() as int, path@);
                }
                return Err(x);
            },
        }
        i += 1;
    }
    Ok(())
}

impl IndexRootTree {
    /// What it takes to write all files to the working directory and to stage them.
    pub fn to_worktree(&self, db: &ObjectDb) -> (r: Result<Vec<WorktreeAction>, CheckoutError>)
        ensures
            (match r {
                Ok(v) => child_actions(db@, self@, self@.len() as int, Seq::empty()) == Ok::<
                    Seq<ActionModel>,
                    FaultModel,
                >(views(v@)),
                Err(e) => child_actions(db@, self@, self@.len() as int, Seq::empty()) == Err::<
                    Seq<ActionModel>,
                    FaultModel,
                >(e@),
            }),
    {
        let mut out: Vec<WorktreeAction> = Vec::new();
        let root: Vec<u8> = Vec::new();
        assert(root@ =~= Seq::empty());
        match checkout_children(db, &self.children, root.as_slice(), &mut out) {
            Ok(_) => {
                assert(views(out@) =~= child_actions(
                    db@,
                    self@,
                    self@.len() as int,
                    Seq::empty(),
                )->Ok_0);
                Ok(out)
            },
            Err(e) => Err(e),
        }
    }
}

/// The commit that a target leads to, and what `HEAD` points at after it is checked out. `branch`
/// is the content of the branch's reference.
pub open spec fn resolved(
    db: Map<ObjectSha, Seq<u8>>,
    target: TargetModel,
    branch: Option<Seq<char>>,
) -> Result<(ObjectSha, HeadModel), RefError> {
    match target {
        TargetModel::Commit(oid) => Ok((oid, HeadModel::Commit(oid))),
        TargetModel::Branch(name) => match branch {
            None => Err(RefError::NoTarget),
            Some(content) => match ref_in(content) {
                Err(e) => Err(e),
                Ok(oid) => match commit_fault(db, oid) {
                    Some(e) => Err(RefError::Object(e)),
                    None => Ok((oid, HeadModel::Branch(branch_ref(name)))),
                },
            },
        },
    }
}

fn resolve_checkout_target(db: &ObjectDb, target: &CheckoutTarget, branch: Option<&str>) -> (r:
    Result<(ObjectSha, Head), RefError>)
    ensures
        (match r {
            Ok((oid, head)) => resolved(db@, target@, opt_view(branch)) == Ok::<
                (ObjectSha, HeadModel),
                RefError,
            >((oid, head@)),
            Err(e) => resolved(db@, target@, opt_view(branch)) == Err::<
                (ObjectSha, HeadModel),
                RefError,
            >(e),
        }),
{
    match target {
        CheckoutTarget::Commit(oid) => Ok((*oid, Head::TargetCommit(*oid))),
        CheckoutTarget::Branch(name) => match branch {
            None => Err(RefError::NoTarget),
            Some(content) => match read_ref(db, content) {
                Err(e) => Err(e),
                Ok(r) => Ok(
                    (
                        r.commit_id,
                        Head::TargetBranch { branch_ref_path: get_branch_ref_path(name.as_str()) },
                    ),
                ),
            },
        },
    }
}

/// What a checkout does, in this order: the removals, the actions (after which the index holds
/// just what they staged), and then the `HEAD` file gets a new content.
#[derive(Debug)]
pub struct CheckoutPlan {
    pub removals: Vec<Removal>,
    pub actions: Vec<WorktreeAction>,
    pub head: String,
}

/// The model of a [`CheckoutPlan`].
#[verifier::ext_equal]
pub struct CheckoutModel {
    pub removals: Seq<(Seq<u8>, Seq<Seq<u8>>)>,
    pub actions: Seq<ActionModel>,
    pub head: Seq<char>,
}

impl View for CheckoutPlan {
    type V = CheckoutModel;

    open spec fn view(&self) -> CheckoutModel {
        CheckoutModel {
            removals: views(self.removals@),
            actions: views(self.actions@),
            head: self.head@,
        }
    }
}

/// The paths of files.
pub open spec fn leaf_paths(leaves: Seq<(Seq<u8>, TreeEntry)>) -> Seq<Seq<u8>> {
    Seq::new(leaves.len(), |i: int| leaves[i].0)
}

/// The set of the paths of all files in a directory.
pub open spec fn tree_paths(c: Seq<(Seq<u8>, NodeModel)>) -> Seq<(Seq<u8>, ())> {
    path_set(leaf_paths(leaves_from(c, 0, Seq::empty())))
}

/// The set of the paths that an index has.
pub open spec fn index_paths(index: Option<IndexModel>) -> Result<Seq<(Seq<u8>, ())>, TreeError> {
    match index {
        None => Ok(Seq::empty()),
        Some(m) => match tree_of_entries(m.entries, true) {
            Err(e) => Err(e),
            Ok(c) => Ok(tree_paths(c)),
        },
    }
}

/// What has to be done to get from the old paths to a directory.
pub open spec fn switched(
    db: Map<ObjectSha, Seq<u8>>,
    old_set: Seq<(Seq<u8>, ())>,
    work: Seq<(Seq<u8>, ())>,
    c: Seq<(Seq<u8>, NodeModel)>,
    head: HeadModel,
) -> Result<CheckoutModel, FaultModel> {
    match untracked_fault(old_set, tree_paths(c), work) {
        Some(f) => Err(f),
        None => match child_actions(db, c, c.len() as int, Seq::empty()) {
            Err(f) => Err(f),
            Ok(actions) => match head_text(head) {
                Err(e) => Err(FaultModel::Ref(e)),
                Ok(head) => Ok(
                    CheckoutModel { removals: removals(old_set, tree_paths(c)), actions, head },
                ),
            },
        },
    }
}

/// What checking out a target takes. `branch` is the content of the target branch's reference,
/// `index` the index, if there is one, and `work` the files of the working directory.
pub open spec fn checked_out(
    db: Map<ObjectSha, Seq<u8>>,
    target: TargetModel,
    branch: Option<Seq<char>>,
    index: Option<IndexModel>,
    work: Seq<Seq<u8>>,
    depth: nat,
) -> Result<CheckoutModel, FaultModel> {
    match resolved(db, target, branch) {
        Err(e) => Err(FaultModel::Ref(e)),
        Ok((oid, head)) => match commit_fault(db, oid) {
            Some(e) => Err(FaultModel::Object(e)),
            None => match index_paths(index) {
                Err(e) => Err(FaultModel::Tree(e)),
                Ok(old_set) => match commit_at(db, oid) {
                    Err(e) => Err(FaultModel::Object(e)),
                    Ok(commit) => match tree_in(db, commit.tree) {
                        Err(e) => Err(FaultModel::Object(e)),
                        Ok(entries) => match children_in(db, entries, depth) {
                            Err(e) => Err(FaultModel::Object(e)),
                            Ok(c) => switched(db, old_set, path_set(work), c, head),
                        },
                    },
                },
            },
        },
    }
}

fn paths_of_leaves(leaves: Vec<(Vec<u8>, TreeEntry)>) -> (r: Vec<Vec<u8>>)
    ensures
        views(r@) == leaf_paths(leaf_views(leaves@)),
{
    let ghost all = leaf_paths(leaf_views(leaves@));
    let mut out: Vec<Vec<u8>> = Vec::new();
    let mut i: usize = 0;
    while i < leaves.len()
        invariant
            0 <= i <= leaves@.len(),
            all == leaf_paths(leaf_views(leaves@)),
            views(out@) == all.subrange(0, i as int),
        decreases leaves@.len() - i,
    {
        let p = copy_bytes(leaves[i].0.as_slice());
        proof {
            lemma_views_push(out@, p);
        }
        out.push(p);
        i += 1;
        assert(views(out@) =~= all.subrange(0, i as int));
    }
    assert(views(out@) =~= all);
    out
}

fn paths_of_tree(t: &IndexRootTree) -> (r: ByteMap<()>)
    ensures
        r@ == tree_paths(t@),
{
    set_of_paths(&paths_of_leaves(t.blob_paths()))
}

/// Plans a checkout. Nothing is to be written unless it succeeds. `branch` is the content of the
/// target branch's reference, `index` the index, if there is one, and `work` the files and links of
/// the working directory.
pub fn checkout(
    db: &ObjectDb,
    target: &CheckoutTarget,
    branch: Option<&str>,
    index: Option<&IndexFile>,
    work: &Vec<Vec<u8>>,
) -> (r: Result<CheckoutPlan, CheckoutError>)
    ensures
        both_view(r) == checked_out(
            db@,
            target@,
            opt_view(branch),
            opt_view(index),
            views(work@),
            db.count(),
        ),
{
    let (oid, next_head) = match resolve_checkout_target(db, target, branch) {
        Ok(x) => x,
        Err(e) => return Err(CheckoutError::Ref(e)),
    };
    match ensure_commit(db, &oid) {
        Ok(_) => {},
        Err(e) => return Err(CheckoutError::Object(e)),
    }
    let old_set = match index {
        None => ByteMap::new(),
        Some(f) => match IndexRootTree::from_index_file(f) {
            Ok(t) => paths_of_tree(&t),
            Err(e) => return Err(CheckoutError::Tree(e)),
        },
    };
    let commit = match CommitObject::read_loose_commit(db, &oid) {
        Ok(c) => c,
        Err(e) => return Err(CheckoutError::Object(e)),
    };
    let tree = match TreeObject::read_loose_tree(db, &commit.tree) {
        Ok(t) => t,
        Err(e) => return Err(CheckoutError::Object(e)),
    };
    let new_root = match IndexRootTree::from_tree_object(db, &tree) {
        Ok(t) => t,
        Err(e) => return Err(CheckoutError::Object(e)),
    };
    let new_set = paths_of_tree(&new_root);
    let work_set = set_of_paths(work);
    match ensure_no_untracked_conflict(&old_set, &new_set, &work_set) {
        Ok(_) => {},
        Err(e) => return Err(e),
    }
    let actions = match new_root.to_worktree(db) {
        Ok(a) => a,
        Err(e) => return Err(e),
    };
    let head = match next_head.write() {
        Ok(h) => h,
        Err(e) => return Err(CheckoutError::Ref(e)),
    };
    Ok(CheckoutPlan { removals: removed_tracked_files(&old_set, &new_set), actions, head })
}

/// Plans the checkout of a commit, after which `HEAD` is on no branch.
pub fn checkout_commit(
    db: &ObjectDb,
    commit_id: ObjectSha,
    index: Option<&IndexFile>,
    work: &Vec<Vec<u8>>,
) -> (r: Result<CheckoutPlan, CheckoutError>)
    ensures
        both_view(r) == checked_out(
            db@,
            TargetModel::Commit(commit_id),
            None,
            opt_view(index),
            views(work@),
            db.count(),
        ),
{
    checkout(db, &CheckoutTarget::Commit(commit_id), None, index, work)
}

/// Plans the checkout of a branch, after which `HEAD` is on it.
pub fn checkout_branch(
    db: &ObjectDb,
    branch_name: &str,
    branch: Option<&str>,
    index: Option<&IndexFile>,
    work: &Vec<Vec<u8>>,
) -> (r: Result<CheckoutPlan, CheckoutError>)
    ensures
        both_view(r) == checked_out(
            db@,
            TargetModel::Branch(branch_name@),
            opt_view(branch),
            opt_view(index),
            views(work@),
            db.count(),
        ),
{
    let name = string_of(chars_of(branch_name).as_slice());
    checkout(db, &CheckoutTarget::Branch(name), branch, index, work)
}

/// The files that some actions write, each with its path.
pub open spec fn written(actions: Seq<ActionModel>) -> Seq<(Seq<u8>, TreeEntry)>
    decreases actions.len(),
{
    if actions.len() == 0 {
        Seq::empty()
    } else {
        let before = written(actions.drop_last());
        match actions.last() {
            ActionModel::WriteFile { path, mode, oid, .. } => before.push(
                (path, TreeEntry { file_mode: mode, object_name: oid }),
            ),
            _ => before,
        }
    }
}

proof fn lemma_written_concat(a: Seq<ActionModel>, b: Seq<ActionModel>)
    ensures
        written(a + b) == written(a) + written(b),
    decreases b.len(),
{
    if b.len() == 0 {
        assert(a + b =~= a);
        assert(written(a) + written(b) =~= written(a));
    } else {
        assert((a + b).drop_last() =~= a + b.drop_last());
        assert((a + b).last() == b.last());
        lemma_written_concat(a, b.drop_last());
        assert(written(a + b) =~= written(a) + written(b));
    }
}

proof fn lemma_written_one(a: ActionModel)
    ensures
        written(seq![a]) == (match a {
            ActionModel::WriteFile { path, mode, oid, .. } => seq![
                (path, TreeEntry { file_mode: mode, object_name: oid }),
            ],
            _ => Seq::empty(),
        }),
{
    assert(seq![a].drop_last() =~= Seq::empty());
    assert(written(seq![a].drop_last()) =~= Seq::empty());
    assert(written(seq![a]) =~= (match a {
        ActionModel::WriteFile { path, mode, oid, .. } => seq![
            (path, TreeEntry { file_mode: mode, object_name: oid }),
        ],
        _ => Seq::empty(),
    }));
}

proof fn lemma_node_written(db: Map<ObjectSha, Seq<u8>>, n: NodeModel, path: Seq<u8>)
    ensures
        node_actions(db, n, path) matches Ok(a) ==> written(a) == leaves_of(n, path),
    decreases n, 0int,
{
    match n {
        NodeModel::Blob(e) => {
            if let Ok(a) = leaf_action(db, e, path) {
                lemma_written_one(a);
            }
        },
        NodeModel::Tree(c) => {
            lemma_children_written(db, c, c.len() as int, path);
            if let Ok(b) = child_actions(db, c, c.len() as int, path) {
                let made = ActionModel::MakeDir { path };
                lemma_written_one(made);
                lemma_written_concat(seq![made], b);
                assert(leaves_from(c, c.len() as int, path) =~= Seq::empty());
                assert(written(seq![made] + b) =~= leaves_from(c, 0, path));
            }
        },
    }
}

proof fn lemma_children_written(
    db: Map<ObjectSha, Seq<u8>>,
    c: Seq<(Seq<u8>, NodeModel)>,
    n: int,
    path: Seq<u8>,
)
    requires
        0 <= n <= c.len(),
    ensures
        child_actions(db, c, n, path) matches Ok(a) ==> written(a) + leaves_from(c, n, path)
            == leaves_from(c, 0, path),
    decreases c, n,
{
    if n == 0 {
        assert(written(Seq::empty()) + leaves_from(c, 0, path) =~= leaves_from(c, 0, path));
    } else {
        lemma_children_written(db, c, n - 1, path);
        lemma_node_written(db, c[n - 1].1, pushed(path, c[n - 1].0));
        if let Ok(a) = child_actions(db, c, n, path) {
            let before = child_actions(db, c, n - 1, path)->Ok_0;
            let more = node_actions(db, c[n - 1].1, pushed(path, c[n - 1].0))->Ok_0;
            lemma_written_concat(before, more);
            assert(written(before) + (written(more) + leaves_from(c, n, path)) =~= written(before)
                + written(more) + leaves_from(c, n, path));
        }
    }
}

/// A checkout writes just the files of the tree, each as the tree has it.
pub proof fn law_checkout_writes_tree(
    db: Map<ObjectSha, Seq<u8>>,
    old_set: Seq<(Seq<u8>, ())>,
    work: Seq<(Seq<u8>, ())>,
    c: Seq<(Seq<u8>, NodeModel)>,
    head: HeadModel,
)
    ensures
        switched(db, old_set, work, c, head) matches Ok(plan) ==> written(plan.actions)
            == leaves_from(c, 0, Seq::empty()),
{
    lemma_children_written(db, c, c.len() as int, Seq::empty());
    if let Ok(plan) = switched(db, old_set, work, c, head) {
        assert(leaves_from(c, c.len() as int, Seq::empty()) =~= Seq::empty());
        assert(written(plan.actions) + Seq::empty() =~= written(plan.actions));
    }
}

proof fn lemma_written_has(actions: Seq<ActionModel>, i: int)
    requires
        0 <= i < actions.len(),
        actions[i] is WriteFile,
    ensures
        exists|j: int|
            0 <= j < written(actions).len() && (#[trigger] written(actions)[j]).0
                == actions[i]->WriteFile_path,
    decreases actions.len(),
{
    let before = written(actions.drop_last());
    if i == actions.len() - 1 {
        assert(written(actions)[before.len() as int].0 == actions[i]->WriteFile_path);
    } else {
        lemma_written_has(actions.drop_last(), i);
        let j = choose|j: int|
            0 <= j < before.len() && (#[trigger] before[j]).0 == actions[i]->WriteFile_path;
        assert(written(actions)[j] == before[j]);
    }
}

proof fn lemma_untracked_clear(untracked: Seq<Seq<u8>>, set: Seq<(Seq<u8>, ())>, i: int)
    requires
        0 <= i < untracked.len(),
    ensures
        first_in(untracked, set) is None ==> lookup(set, untracked[i]) is None,
        first_entangled(untracked, set) is None ==> !some_above(untracked[i], set) && !some_below(
            untracked[i],
            set,
        ),
    decreases untracked.len(),
{
    if i > 0 {
        assert(untracked.drop_first()[i - 1] == untracked[i]);
        lemma_untracked_clear(untracked.drop_first(), set, i - 1);
    }
}

/// A checkout leaves untracked files alone: it writes no file to the path of one, nor to one above
/// or below it, and it removes none.
pub proof fn law_untracked_untouched(
    db: Map<ObjectSha, Seq<u8>>,
    old_paths: Seq<Seq<u8>>,
    work: Seq<Seq<u8>>,
    c: Seq<(Seq<u8>, NodeModel)>,
    head: HeadModel,
    u: Seq<u8>,
)
    requires
        work.contains(u),
        lookup(path_set(old_paths), path_key(u)) is None,
    ensures
        switched(db, path_set(old_paths), path_set(work), c, head) matches Ok(plan) ==> {
            &&& forall|i: int|
                0 <= i < plan.actions.len() && (#[trigger] plan.actions[i]) is WriteFile ==> {
                    let k = path_key(plan.actions[i]->WriteFile_path);
                    k != path_key(u) && !below(k, path_key(u)) && !below(path_key(u), k)
                }
            &&& forall|i: int|
                0 <= i < plan.removals.len() ==> path_key((#[trigger] plan.removals[i]).0)
                    != path_key(u)
        },
{
    let old_set = path_set(old_paths);
    let k = path_key(u);
    let set = tree_paths(c);
    let leaves = leaves_from(c, 0, Seq::empty());
    lemma_path_set(work);
    lemma_path_set(old_paths);
    lemma_path_set(leaf_paths(leaves));
    if let Ok(plan) = switched(db, old_set, path_set(work), c, head) {
        let at = choose|at: int| 0 <= at < work.len() && work[at] == u;
        assert(path_key(work[at]) == k);
        lemma_lookup_has_key(path_set(work), k);
        lemma_keys_without(path_set(work), old_set);
        let untracked = keys_without(path_set(work), old_set);
        assert(untracked.contains(k));
        let n = choose|n: int| 0 <= n < untracked.len() && untracked[n] == k;
        lemma_untracked_clear(untracked, set, n);
        law_checkout_writes_tree(db, old_set, path_set(work), c, head);
        assert forall|i: int|
            0 <= i < plan.actions.len() && (#[trigger] plan.actions[i]) is WriteFile implies {
            let p = path_key(plan.actions[i]->WriteFile_path);
            p != k && !below(p, k) && !below(k, p)
        } by {
            let p = path_key(plan.actions[i]->WriteFile_path);
            lemma_written_has(plan.actions, i);
            let j = choose|j: int|
                0 <= j < leaves.len() && (#[trigger] leaves[j]).0
                    == plan.actions[i]->WriteFile_path;
            assert(path_key(leaf_paths(leaves)[j]) == p);
            assert(lookup(set, p) is Some);
            lemma_lookup_has_key(set, p);
            let r = choose|r: int| 0 <= r < set.len() && (#[trigger] set[r]).0 == p;
            assert(set[r].0 == p);
        }
        let gone = keys_without(old_set, set);
        lemma_keys_without(old_set, set);
        assert forall|i: int| 0 <= i < plan.removals.len() implies path_key(
            (#[trigger] plan.removals[i]).0,
        ) != k by {
            let g = gone[i];
            assert(gone.contains(g));
            lemma_lookup_has_key(old_set, g);
            let q = choose|q: int| 0 <= q < old_paths.len() && path_key(#[trigger] old_paths[q])
                == g;
            assert(path_key(key_path(g)) =~= g);
        }
    }
}

/// A checkout removes just the paths that were tracked and are not in the tree.
pub proof fn law_removes_only_tracked(
    old_paths: Seq<Seq<u8>>,
    new_set: Seq<(Seq<u8>, ())>,
    p: Seq<u8>,
)
    requires
        !p.contains(0),
        forall|i: int| 0 <= i < old_paths.len() ==> !(#[trigger] old_paths[i]).contains(0),
    ensures
        (exists|i: int|
            0 <= i < removals(path_set(old_paths), new_set).len() && (#[trigger] removals(
                path_set(old_paths),
                new_set,
            )[i]).0 == p) <==> old_paths.contains(p) && lookup(new_set, path_key(p)) is None,
{
    let old_set = path_set(old_paths);
    let gone = keys_without(old_set, new_set);
    let all = removals(old_set, new_set);
    lemma_path_set(old_paths);
    lemma_keys_without(old_set, new_set);
    lemma_key_path(p);
    lemma_lookup_has_key(old_set, path_key(p));
    if exists|i: int| 0 <= i < all.len() && (#[trigger] all[i]).0 == p {
        let i = choose|i: int| 0 <= i < all.len() && (#[trigger] all[i]).0 == p;
        let g = gone[i];
        assert(gone.contains(g));
        lemma_lookup_has_key(old_set, g);
        let q = choose|q: int| 0 <= q < old_paths.len() && path_key(#[trigger] old_paths[q]) == g;
        lemma_key_path(old_paths[q]);
        assert(old_paths[q] == p);
    }
    if old_paths.contains(p) && lookup(new_set, path_key(p)) is None {
        let q = choose|q: int| 0 <= q < old_paths.len() && old_paths[q] == p;
        assert(path_key(old_paths[q]) == path_key(p));
        assert(gone.contains(path_key(p)));
        let i = choose|i: int| 0 <= i < gone.len() && gone[i] == path_key(p);
        assert(all[i].0 == p);
    }
}

} // verus!
