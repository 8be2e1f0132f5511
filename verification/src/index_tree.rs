//! Directories in memory: the index as a tree, trees as they are written, and trees read back.
use crate::byte_map::{ascending, bind, lemma_bind, lemma_rank, lookup, rank, ByteMap};
use crate::bytes::{bytes_lt, copy_bytes, lex_lt, same_bytes};
use crate::commit_object::commit_in;
use crate::index::{Entry, EntryModel, IndexFile};
use crate::object::{
    framed, git_order, hash_raw, kind_of_raw, oid_of_raw, payload_of_raw, tree_entries,
    tree_payload, FileMode, Object, ObjectError, ObjectSha, TreeEntry, TreeObject,
};
use crate::object_db::ObjectDb;
use crate::text::views;
use crate::unix_path::{component_is_name, components, components_of, file_name, parent_components};
use vstd::prelude::*;
use vstd::slice::slice_subrange;

verus! {

/// A file in a tree: what it is, and the blob that holds its content.
#[derive(Clone, Copy, PartialEq, Eq, Debug)]
pub struct BlobLeaf {
    file_mode: FileMode,
    object_name: ObjectSha,
}

impl View for BlobLeaf {
    type V = TreeEntry;

    closed spec fn view(&self) -> TreeEntry {
        TreeEntry { file_mode: self.file_mode, object_name: self.object_name }
    }
}

impl BlobLeaf {
    pub fn file_mode(&self) -> (r: FileMode)
        ensures
            r == self@.file_mode,
    {
        self.file_mode
    }

    pub fn object_name(&self) -> (r: &ObjectSha)
        ensures
            *r == self@.object_name,
    {
        &self.object_name
    }

    pub fn new(file_mode: FileMode, object_name: ObjectSha) -> (r: BlobLeaf)
        ensures
            r@ == (TreeEntry { file_mode, object_name }),
    {
        BlobLeaf { file_mode, object_name }
    }
}

/// A file, or a directory with what it holds, in dictionary order of the names.
pub enum TreeNode {
    Blob(BlobLeaf),
    Tree(Vec<(Vec<u8>, TreeNode)>),
}

/// The model of a [`TreeNode`].
#[verifier::ext_equal]
pub enum NodeModel {
    Blob(TreeEntry),
    Tree(Seq<(Seq<u8>, NodeModel)>),
}

impl View for TreeNode {
    type V = NodeModel;

    open spec fn view(&self) -> NodeModel {
        self.model()
    }
}

impl TreeNode {
    /// The model of the node.
    pub open spec fn model(self) -> NodeModel
        decreases self,
    {
        match self {
            TreeNode::Blob(b) => NodeModel::Blob(b@),
            TreeNode::Tree(c) => NodeModel::Tree(
                Seq::new(
                    c@.len(),
                    |i: int|
                        if 0 <= i < c@.len() {
                            (c@[i].0@, c@[i].1.model())
                        } else {
                            arbitrary()
                        },
                ),
            ),
        }
    }
}

/// The models of what a directory holds.
pub open spec fn children_view(c: Seq<(Vec<u8>, TreeNode)>) -> Seq<(Seq<u8>, NodeModel)> {
    Seq::new(c.len(), |i: int| (c[i].0@, c[i].1@))
}

/// The model of a directory is made of the models of what it holds.
pub proof fn lemma_tree_view(n: TreeNode)
    ensures
        n matches TreeNode::Tree(c) ==> n@ == NodeModel::Tree(children_view(c@)),
{
    if let TreeNode::Tree(c) = n {
        assert(n@->Tree_0 =~= children_view(c@));
    }
}

/// Whether the names of every directory in a tree ascend.
pub open spec fn ordered(n: NodeModel) -> bool
    decreases n,
{
    match n {
        NodeModel::Blob(_) => true,
        NodeModel::Tree(c) => ascending(c) && forall|i: int|
            0 <= i < c.len() ==> ordered((#[trigger] c[i]).1),
    }
}

/// Why a tree cannot be made from the index.
#[derive(Clone, Copy, PartialEq, Eq, Structural, Debug)]
pub enum TreeError {
    /// A path that does not end in a name.
    NoFileName,
    /// A path that goes through a file as if it were a directory.
    FileInTheWay,
}

/// What a directory holds after a file is put below it, at the end of the given directories; these
/// are made where they are not there. Nothing if one of them is a file.
pub open spec fn with_leaf(
    c: Seq<(Seq<u8>, NodeModel)>,
    dirs: Seq<Seq<u8>>,
    name: Seq<u8>,
    leaf: TreeEntry,
) -> Option<Seq<(Seq<u8>, NodeModel)>>
    decreases dirs.len(),
{
    if dirs.len() == 0 {
        Some(bind(c, name, NodeModel::Blob(leaf)))
    } else {
        let inner = match lookup(c, dirs[0]) {
            None => Some(Seq::<(Seq<u8>, NodeModel)>::empty()),
            Some(NodeModel::Tree(d)) => Some(d),
            Some(NodeModel::Blob(_)) => None,
        };
        match inner {
            None => None,
            Some(d) => match with_leaf(d, dirs.drop_first(), name, leaf) {
                None => None,
                Some(e) => Some(bind(c, dirs[0], NodeModel::Tree(e))),
            },
        }
    }
}

/// The file below a directory at the end of the given directories.
pub open spec fn leaf_at(c: Seq<(Seq<u8>, NodeModel)>, dirs: Seq<Seq<u8>>, name: Seq<u8>) -> Option<
    TreeEntry,
>
    decreases dirs.len(),
{
    if dirs.len() == 0 {
        match lookup(c, name) {
            Some(NodeModel::Blob(e)) => Some(e),
            _ => None,
        }
    } else {
        match lookup(c, dirs[0]) {
            Some(NodeModel::Tree(d)) => leaf_at(d, dirs.drop_first(), name),
            _ => None,
        }
    }
}

/// How many of the names come before `k`.
fn rank_of(c: &Vec<(Vec<u8>, TreeNode)>, k: &[u8]) -> (r: usize)
    requires
        ascending(children_view(c@)),
    ensures
        r == rank(children_view(c@), k@),
        r <= c@.len(),
{
    let ghost s = children_view(c@);
    proof {
        lemma_rank(s, k@);
    }
    let mut lo: usize = 0;
    let mut hi: usize = c.len();
    while lo < hi
        invariant
            0 <= lo <= hi <= c@.len(),
            s == children_view(c@),
            lo <= rank(s, k@) <= hi,
            forall|i: int| 0 <= i < rank(s, k@) ==> lex_lt((#[trigger] s[i]).0, k@),
            forall|i: int| rank(s, k@) <= i < s.len() ==> !lex_lt((#[trigger] s[i]).0, k@),
        decreases hi - lo,
    {
        let mid: usize = lo + (hi - lo) / 2;
        assert(s[mid as int].0 == c@[mid as int].0@);
        if bytes_lt(c[mid].0.as_slice(), k) {
            lo = mid + 1;
        } else {
            hi = mid;
        }
    }
    lo
}

/// Puts a file below a directory.
fn insert_blob_into_children_map(
    c: &mut Vec<(Vec<u8>, TreeNode)>,
    dirs: &[Vec<u8>],
    name: Vec<u8>,
    leaf: BlobLeaf,
) -> (r: Result<(), TreeError>)
    requires
        ordered(NodeModel::Tree(children_view(old(c)@))),
    ensures
        ordered(NodeModel::Tree(children_view(final(c)@))),
        (match with_leaf(children_view(old(c)@), views(dirs@), name@, leaf@) {
            Some(s) => r is Ok && children_view(final(c)@) == s,
            None => r == Err::<(), TreeError>(TreeError::FileInTheWay) && children_view(final(c)@)
                == children_view(old(c)@),
        }),
    decreases dirs@.len(),
{
    let ghost s = children_view(c@);
    if dirs.len() == 0 {
        let r: usize = rank_of(c, name.as_slice());
        let ghost k = name@;
        let ghost node = NodeModel::Blob(leaf@);
        proof {
            lemma_bind(s, k, node);
        }
        if r < c.len() && same_bytes(c[r].0.as_slice(), name.as_slice()) {
            c[r] = (name, TreeNode::Blob(leaf));
        } else {
            c.insert(r, (name, TreeNode::Blob(leaf)));
        }
        assert(children_view(c@) =~= bind(s, k, node));
        proof {
            lemma_bind_ordered(s, k, node);
        }
        return Ok(());
    }
    let dir = dirs[0].as_slice();
    let rest = slice_subrange(dirs, 1, dirs.len());
    proof {
        assert(views(dirs@)[0] == dirs@[0]@);
        assert(views(rest@) =~= views(dirs@).drop_first());
    }
    let r: usize = rank_of(c, dir);
    if r < c.len() && same_bytes(c[r].0.as_slice(), dir) {
        assert(s[r as int] == (c@[r as int].0@, c@[r as int].1@));
        let (key, node) = c.remove(r);
        assert(children_view(c@) =~= s.remove(r as int));
        proof {
            lemma_tree_view(node);
        }
        match node {
            TreeNode::Blob(b) => {
                c.insert(r, (key, TreeNode::Blob(b)));
                assert(children_view(c@) =~= s);
                Err(TreeError::FileInTheWay)
            },
            TreeNode::Tree(mut inner) => {
                let ghost d = children_view(inner@);
                assert(ordered(s[r as int].1));
                let x = insert_blob_into_children_map(&mut inner, rest, name, leaf);
                let ghost e = children_view(inner@);
                let back = TreeNode::Tree(inner);
                proof {
                    lemma_tree_view(back);
                }
                c.insert(r, (key, back));
                assert(children_view(c@) =~= s.update(r as int, (dir@, NodeModel::Tree(e))));
                proof {
                    if x is Err {
                        assert(children_view(c@) =~= s);
                    } else {
                        lemma_bind_ordered(s, dir@, NodeModel::Tree(e));
                    }
                }
                x
            },
        }
    } else {
        let mut inner: Vec<(Vec<u8>, TreeNode)> = Vec::new();
        assert(children_view(inner@) =~= Seq::empty());
        match insert_blob_into_children_map(&mut inner, rest, name, leaf) {
            Err(x) => Err(x),
            Ok(_) => {
                let ghost e = children_view(inner@);
                let back = TreeNode::Tree(inner);
                proof {
                    lemma_tree_view(back);
                    lemma_bind_ordered(s, dir@, NodeModel::Tree(e));
                }
                c.insert(r, (copy_bytes(dir), back));
                assert(children_view(c@) =~= s.insert(r as int, (dir@, NodeModel::Tree(e))));
                Ok(())
            },
        }
    }
}

/// Binding a name to an ordered tree keeps a directory ordered.
proof fn lemma_bind_ordered(s: Seq<(Seq<u8>, NodeModel)>, k: Seq<u8>, node: NodeModel)
    requires
        ordered(NodeModel::Tree(s)),
        ordered(node),
    ensures
        ordered(NodeModel::Tree(bind(s, k, node))),
{
    lemma_bind(s, k, node);
    lemma_rank(s, k);
    let t = bind(s, k, node);
    let r = rank(s, k);
    assert forall|i: int| 0 <= i < t.len() implies ordered((#[trigger] t[i]).1) by {
        if t.len() == s.len() {
            if i != r {
                assert(t[i] == s[i]);
            }
        } else if i < r {
            assert(t[i] == s[i]);
        } else if i > r {
            assert(t[i] == s[i - 1]);
        }
    }
}

/// What the root directory holds after the entries of an index are put into it one by one; with
/// `all` those that belong to a conflict too.
pub open spec fn tree_of_entries(entries: Seq<EntryModel>, all: bool) -> Result<
    Seq<(Seq<u8>, NodeModel)>,
    TreeError,
>
    decreases entries.len(),
{
    if entries.len() == 0 {
        Ok(Seq::empty())
    } else {
        match tree_of_entries(entries.drop_last(), all) {
            Err(e) => Err(e),
            Ok(c) => {
                let e = entries.last();
                if !all && e.merge_stage != 0 {
                    Ok(c)
                } else {
                    match file_name(e.path) {
                        None => Err(TreeError::NoFileName),
                        Some(name) => match with_leaf(
                            c,
                            parent_components(e.path),
                            name,
                            TreeEntry { file_mode: e.file_mode, object_name: e.obj_name },
                        ) {
                            None => Err(TreeError::FileInTheWay),
                            Some(d) => Ok(d),
                        },
                    }
                }
            },
        }
    }
}

proof fn lemma_tree_of_entries_stops(entries: Seq<EntryModel>, all: bool, i: int)
    requires
        0 <= i <= entries.len(),
        tree_of_entries(entries.subrange(0, i), all) is Err,
    ensures
        tree_of_entries(entries, all) == tree_of_entries(entries.subrange(0, i), all),
    decreases entries.len() - i,
{
    if i == entries.len() {
        assert(entries.subrange(0, i) =~= entries);
    } else {
        assert(entries.subrange(0, i + 1).drop_last() =~= entries.subrange(0, i));
        lemma_tree_of_entries_stops(entries, all, i + 1);
    }
}

/// Puts one entry of an index below the root directory.
fn insert_entry(c: &mut Vec<(Vec<u8>, TreeNode)>, entry: &Entry) -> (r: Result<(), TreeError>)
    requires
        ordered(NodeModel::Tree(children_view(old(c)@))),
    ensures
        ordered(NodeModel::Tree(children_view(final(c)@))),
        ({
            let e = entry@;
            match file_name(e.path) {
                None => r == Err::<(), TreeError>(TreeError::NoFileName),
                Some(name) => match with_leaf(
                    children_view(old(c)@),
                    parent_components(e.path),
                    name,
                    TreeEntry { file_mode: e.file_mode, object_name: e.obj_name },
                ) {
                    None => r == Err::<(), TreeError>(TreeError::FileInTheWay),
                    Some(d) => r is Ok && children_view(final(c)@) == d,
                },
            }
        }),
{
    let parts = components_of(entry.path());
    let ghost all = views(parts@);
    if parts.len() == 0 {
        return Err(TreeError::NoFileName);
    }
    let last: usize = parts.len() - 1;
    assert(all.last() == parts@[last as int]@);
    if !component_is_name(parts[last].as_slice()) {
        return Err(TreeError::NoFileName);
    }
    let name = copy_bytes(parts[last].as_slice());
    let dirs = slice_subrange(parts.as_slice(), 0, last);
    assert(views(dirs@) =~= all.drop_last());
    insert_blob_into_children_map(
        c,
        dirs,
        name,
        BlobLeaf::new(entry.file_mode(), *entry.obj_name()),
    )
}

/// Puts the entries of an index below a root directory.
fn children_from_index(index: &IndexFile, all: bool) -> (r: Result<
    Vec<(Vec<u8>, TreeNode)>,
    TreeError,
>)
    ensures
        (match r {
            Ok(c) => tree_of_entries(index@.entries, all) == Ok::<
                Seq<(Seq<u8>, NodeModel)>,
                TreeError,
            >(children_view(c@)) && ordered(NodeModel::Tree(children_view(c@))),
            Err(e) => tree_of_entries(index@.entries, all) == Err::<
                Seq<(Seq<u8>, NodeModel)>,
                TreeError,
            >(e),
        }),
{
    let entries = index.entries();
    let ghost es = index@.entries;
    let mut c: Vec<(Vec<u8>, TreeNode)> = Vec::new();
    assert(children_view(c@) =~= Seq::empty());
    let mut i: usize = 0;
    assert(es.subrange(0, 0) =~= Seq::empty());
    while i < entries.len()
        invariant
            0 <= i <= entries@.len(),
            es == views(entries@),
            es == index@.entries,
            ordered(NodeModel::Tree(children_view(c@))),
            tree_of_entries(es.subrange(0, i as int), all) == Ok::<
                Seq<(Seq<u8>, NodeModel)>,
                TreeError,
            >(children_view(c@)),
        decreases entries@.len() - i,
    {
        proof {
            assert(es.subrange(0, i + 1).drop_last() =~= es.subrange(0, i as int));
            assert(es.subrange(0, i + 1).last() == entries@[i as int]@);
        }
        let entry = &entries[i];
        if all || entry.merge_stage() == 0 {
            match insert_entry(&mut c, entry) {
                Ok(_) => {},
                Err(e) => {
                    proof {
                        lemma_tree_of_entries_stops(es, all, i + 1);
                    }
                    return Err(e);
                },
            }
        }
        i += 1;
    }
    assert(es.subrange(0, i as int) =~= es);
    Ok(c)
}

/// What a node becomes in the tree that holds it.
pub open spec fn node_entry(n: NodeModel) -> TreeEntry
    decreases n,
{
    match n {
        NodeModel::Blob(e) => e,
        NodeModel::Tree(c) => TreeEntry {
            file_mode: FileMode::Directory,
            object_name: oid_of_raw(framed("tree"@, tree_payload(git_order(entries_of(c))))),
        },
    }
}

/// The entries of the tree object for a directory.
pub open spec fn entries_of(c: Seq<(Seq<u8>, NodeModel)>) -> Seq<(Seq<u8>, TreeEntry)>
    decreases c,
{
    Seq::new(
        c.len(),
        |i: int|
            if 0 <= i < c.len() {
                (c[i].0, node_entry(c[i].1))
            } else {
                arbitrary()
            },
    )
}

/// The loose form of the tree object for a directory.
pub open spec fn raw_tree(c: Seq<(Seq<u8>, NodeModel)>) -> Seq<u8> {
    framed("tree"@, tree_payload(git_order(entries_of(c))))
}

/// The tree objects of what a directory holds, from the `i`-th name on: those of each directory
/// before that directory's own.
pub open spec fn objects_from(c: Seq<(Seq<u8>, NodeModel)>, i: int) -> Seq<(ObjectSha, Seq<u8>)>
    decreases c, c.len() - i,
{
    if i < 0 || i >= c.len() {
        Seq::empty()
    } else {
        objects_of(c[i].1) + objects_from(c, i + 1)
    }
}

/// The tree objects of a node.
pub open spec fn objects_of(n: NodeModel) -> Seq<(ObjectSha, Seq<u8>)>
    decreases n, 0int,
{
    match n {
        NodeModel::Blob(_) => Seq::empty(),
        NodeModel::Tree(c) => objects_from(c, 0).push((oid_of_raw(raw_tree(c)), raw_tree(c))),
    }
}

/// The objects in a list with their ids.
pub open spec fn raw_objects(v: Seq<(ObjectSha, Vec<u8>)>) -> Seq<(ObjectSha, Seq<u8>)> {
    Seq::new(v.len(), |i: int| (v[i].0, v[i].1@))
}

/// Makes the tree objects of a directory and adds them to a list.
fn write_children(c: &Vec<(Vec<u8>, TreeNode)>, out: &mut Vec<(ObjectSha, Vec<u8>)>) -> (r: ObjectSha)
    requires
        ordered(NodeModel::Tree(children_view(c@))),
    ensures
        r == oid_of_raw(raw_tree(children_view(c@))),
        raw_objects(final(out)@) == raw_objects(old(out)@) + objects_of(
            NodeModel::Tree(children_view(c@)),
        ),
    decreases c@,
{
    let ghost s = children_view(c@);
    let mut entries: ByteMap<TreeEntry> = ByteMap::new();
    let mut i: usize = 0;
    let ghost es = entries_of(s);
    let ghost mut done: Seq<(ObjectSha, Seq<u8>)> = Seq::empty();
    assert(entries@ =~= es.subrange(0, 0));
    assert(raw_objects(out@) + done =~= raw_objects(out@));
    assert(done + objects_from(s, 0) =~= objects_from(s, 0));
    while i < c.len()
        invariant
            0 <= i <= c@.len(),
            s == children_view(c@),
            es == entries_of(s),
            ordered(NodeModel::Tree(s)),
            entries@ == es.subrange(0, i as int),
            raw_objects(out@) == raw_objects(old(out)@) + done,
            done + objects_from(s, i as int) == objects_from(s, 0),
        decreases c@.len() - i,
    {
        assert(s[i as int] == (c@[i as int].0@, c@[i as int].1@));
        assert(decreases_to!(c@ => c@[i as int]));
        let ghost before = out@;
        let entry = c[i].1.write_tree_return_entry(out);
        proof {
            assert(ordered(s[i as int].1));
            let new = objects_of(s[i as int].1);
            assert(raw_objects(old(out)@) + done + new =~= raw_objects(old(out)@) + (done + new));
            assert(done + (new + objects_from(s, i + 1)) =~= (done + new) + objects_from(s, i + 1));
            done = done + new;
            assert forall|k: int| 0 <= k < i implies lex_lt(
                (#[trigger] es.subrange(0, i as int)[k]).0,
                s[i as int].0,
            ) by {
                assert(es.subrange(0, i as int)[k] == es[k]);
                assert(lex_lt(s[k].0, s[i as int].0));
            }
            crate::byte_map::lemma_bind_last(es.subrange(0, i as int), s[i as int].0, entry);
            assert(es.subrange(0, i as int).push((s[i as int].0, entry)) =~= es.subrange(0, i + 1));
        }
        entries.insert(copy_bytes(c[i].0.as_slice()), entry);
        i += 1;
    }
    assert(es.subrange(0, i as int) =~= es);
    assert(done + Seq::empty() =~= done);
    let raw = TreeObject::entries_to_binary(&entries, true);
    let oid = hash_raw(raw.as_slice());
    let ghost before = out@;
    out.push((oid, raw));
    proof {
        assert(raw_objects(out@) =~= raw_objects(before).push((oid, raw@)));
        assert(raw_objects(out@) =~= raw_objects(old(out)@) + done.push((oid, raw@)));
    }
    oid
}

impl TreeNode {
    /// Puts a file below this directory.
    pub fn insert_blob(&mut self, dirs: &[Vec<u8>], name: Vec<u8>, leaf: BlobLeaf) -> (r: Result<
        (),
        TreeError,
    >)
        requires
            ordered(old(self)@),
        ensures
            ordered(final(self)@),
            (match old(self)@ {
                NodeModel::Blob(_) => r == Err::<(), TreeError>(TreeError::FileInTheWay)
                    && final(self)@ == old(self)@,
                NodeModel::Tree(c) => match with_leaf(c, views(dirs@), name@, leaf@) {
                    Some(d) => r is Ok && final(self)@ == NodeModel::Tree(d),
                    None => r == Err::<(), TreeError>(TreeError::FileInTheWay) && final(self)@
                        == old(self)@,
                },
            }),
    {
        proof {
            lemma_tree_view(*self);
        }
        let mut taken = TreeNode::Tree(Vec::new());
        std::mem::swap(&mut taken, self);
        match taken {
            TreeNode::Blob(b) => {
                *self = TreeNode::Blob(b);
                Err(TreeError::FileInTheWay)
            },
            TreeNode::Tree(mut c) => {
                let r = insert_blob_into_children_map(&mut c, dirs, name, leaf);
                *self = TreeNode::Tree(c);
                proof {
                    lemma_tree_view(*self);
                }
                r
            },
        }
    }

    /// What the node becomes in the tree that holds it; the tree objects that it needs are added to
    /// a list.
    pub fn write_tree_return_entry(&self, out: &mut Vec<(ObjectSha, Vec<u8>)>) -> (r: TreeEntry)
        requires
            ordered(self@),
        ensures
            r == node_entry(self@),
            raw_objects(final(out)@) == raw_objects(old(out)@) + objects_of(self@),
        decreases self,
    {
        proof {
            lemma_tree_view(*self);
        }
        match self {
            TreeNode::Blob(b) => {
                assert(raw_objects(out@) + objects_of(self@) =~= raw_objects(out@));
                TreeEntry { file_mode: b.file_mode(), object_name: *b.object_name() }
            },
            TreeNode::Tree(c) => {
                let oid = write_children(c, out);
                TreeEntry { file_mode: FileMode::Directory, object_name: oid }
            },
        }
    }

    /// The index as a tree, without the entries that belong to a conflict.
    pub fn from_index_file(index: &IndexFile) -> (r: Result<TreeNode, TreeError>)
        ensures
            (match r {
                Ok(n) => n@ is Tree && ordered(n@) && tree_of_entries(index@.entries, false) == Ok::<
                    Seq<(Seq<u8>, NodeModel)>,
                    TreeError,
                >(n@->Tree_0),
                Err(e) => tree_of_entries(index@.entries, false) == Err::<
                    Seq<(Seq<u8>, NodeModel)>,
                    TreeError,
                >(e),
            }),
    {
        match children_from_index(index, false) {
            Ok(c) => {
                let n = TreeNode::Tree(c);
                proof {
                    lemma_tree_view(n);
                }
                Ok(n)
            },
            Err(e) => Err(e),
        }
    }
}

/// The node that an entry of a tree stands for, going down at most `depth` directories.
pub open spec fn node_in(db: Map<ObjectSha, Seq<u8>>, e: TreeEntry, depth: nat) -> Result<
    NodeModel,
    ObjectError,
>
    decreases depth, 0nat,
{
    let oid = e.object_name;
    if !db.contains_key(oid) {
        Err(ObjectError::Missing(oid))
    } else {
        let payload = payload_of_raw(db[oid]);
        match kind_of_raw(db[oid]) {
            Err(x) => Err(x),
            Ok(kind) => if kind == "blob"@ {
                Ok(NodeModel::Blob(e))
            } else if kind == "tree"@ {
                match tree_entries(payload, true, Seq::empty()) {
                    Err(x) => Err(x),
                    Ok(entries) => if depth == 0 {
                        Err(ObjectError::Cyclic(oid))
                    } else {
                        match children_in(db, entries, (depth - 1) as nat) {
                            Err(x) => Err(x),
                            Ok(c) => Ok(NodeModel::Tree(c)),
                        }
                    },
                }
            } else if kind == "commit"@ {
                match commit_in(payload, true) {
                    Err(x) => Err(x),
                    Ok(_) => Err(ObjectError::WrongKind),
                }
            } else {
                Err(ObjectError::WrongKind)
            },
        }
    }
}

/// What a directory with the given entries holds.
pub open spec fn children_in(
    db: Map<ObjectSha, Seq<u8>>,
    entries: Seq<(Seq<u8>, TreeEntry)>,
    depth: nat,
) -> Result<Seq<(Seq<u8>, NodeModel)>, ObjectError>
    decreases depth, 1 + entries.len(),
{
    if entries.len() == 0 {
        Ok(Seq::empty())
    } else {
        match children_in(db, entries.drop_last(), depth) {
            Err(x) => Err(x),
            Ok(c) => match node_in(db, entries.last().1, depth) {
                Err(x) => Err(x),
                Ok(n) => Ok(c.push((entries.last().0, n))),
            },
        }
    }
}

proof fn lemma_children_in_stops(
    db: Map<ObjectSha, Seq<u8>>,
    entries: Seq<(Seq<u8>, TreeEntry)>,
    depth: nat,
    i: int,
)
    requires
        0 <= i <= entries.len(),
        children_in(db, entries.subrange(0, i), depth) is Err,
    ensures
        children_in(db, entries, depth) == children_in(db, entries.subrange(0, i), depth),
    decreases entries.len() - i,
{
    if i == entries.len() {
        assert(entries.subrange(0, i) =~= entries);
    } else {
        assert(entries.subrange(0, i + 1).drop_last() =~= entries.subrange(0, i));
        lemma_children_in_stops(db, entries, depth, i + 1);
    }
}

fn read_node(db: &ObjectDb, e: &TreeEntry, depth: usize) -> (r: Result<TreeNode, ObjectError>)
    ensures
        (match r {
            Ok(n) => node_in(db@, *e, depth as nat) == Ok::<NodeModel, ObjectError>(n@) && ordered(
                n@,
            ),
            Err(x) => node_in(db@, *e, depth as nat) == Err::<NodeModel, ObjectError>(x),
        }),
    decreases depth, 0nat,
{
    let oid = e.object_name;
    let raw = match db.get(&oid) {
        Some(raw) => raw,
        None => return Err(ObjectError::Missing(oid)),
    };
    let mut reader: &[u8] = raw.as_slice();
    let kind = match Object::read_object_type(&mut reader) {
        Ok(k) => k,
        Err(x) => return Err(x),
    };
    Object::skip_git_object_size_nul(&mut reader);
    match Object::read_object_content(kind.as_str(), oid, reader) {
        Err(x) => Err(x),
        Ok(Object::Blob(_)) => Ok(TreeNode::Blob(BlobLeaf::new(e.file_mode, oid))),
        Ok(Object::Tree(t)) => {
            if depth == 0 {
                return Err(ObjectError::Cyclic(oid));
            }
            match read_children(db, t.entries(), depth - 1) {
                Ok(c) => {
                    let n = TreeNode::Tree(c);
                    proof {
                        lemma_tree_view(n);
                    }
                    Ok(n)
                },
                Err(x) => Err(x),
            }
        },
        Ok(_) => Err(ObjectError::WrongKind),
    }
}

fn read_children(db: &ObjectDb, entries: &ByteMap<TreeEntry>, depth: usize) -> (r: Result<
    Vec<(Vec<u8>, TreeNode)>,
    ObjectError,
>)
    ensures
        (match r {
            Ok(c) => children_in(db@, entries@, depth as nat) == Ok::<
                Seq<(Seq<u8>, NodeModel)>,
                ObjectError,
            >(children_view(c@)) && ordered(NodeModel::Tree(children_view(c@))),
            Err(x) => children_in(db@, entries@, depth as nat) == Err::<
                Seq<(Seq<u8>, NodeModel)>,
                ObjectError,
            >(x),
        }),
    decreases depth, 1nat,
{
    proof {
        use_type_invariant(entries);
    }
    let mut c: Vec<(Vec<u8>, TreeNode)> = Vec::new();
    let ghost es = entries@;
    let mut i: usize = 0;
    assert(es.subrange(0, 0) =~= Seq::empty());
    assert(children_view(c@) =~= Seq::empty());
    while i < entries.len()
        invariant
            0 <= i <= entries@.len(),
            es == entries@,
            ascending(es),
            c@.len() == i,
            forall|k: int| 0 <= k < i ==> (#[trigger] children_view(c@)[k]).0 == es[k].0,
            forall|k: int| 0 <= k < i ==> ordered((#[trigger] children_view(c@)[k]).1),
            children_in(db@, es.subrange(0, i as int), depth as nat) == Ok::<
                Seq<(Seq<u8>, NodeModel)>,
                ObjectError,
            >(children_view(c@)),
        decreases entries@.len() - i,
    {
        proof {
            assert(es.subrange(0, i + 1).drop_last() =~= es.subrange(0, i as int));
            assert(es.subrange(0, i + 1).last() == es[i as int]);
        }
        match read_node(db, entries.value_at(i), depth) {
            Err(x) => {
                proof {
                    lemma_children_in_stops(db@, es, depth as nat, i + 1);
                }
                return Err(x);
            },
            Ok(n) => {
                let ghost before = c@;
                let name = copy_bytes(entries.key_at(i).as_slice());
                c.push((name, n));
                assert(children_view(c@) =~= children_view(before).push((es[i as int].0, n@)));
            },
        }
        i += 1;
    }
    assert(es.subrange(0, i as int) =~= es);
    proof {
        let v = children_view(c@);
        assert forall|a: int, b: int| 0 <= a < b < v.len() implies lex_lt(
            (#[trigger] v[a]).0,
            (#[trigger] v[b]).0,
        ) by {
            assert(v[a].0 == es[a].0 && v[b].0 == es[b].0);
        }
    }
    Ok(c)
}

/// A whole directory, held in memory.
pub struct IndexRootTree {
    pub children: Vec<(Vec<u8>, TreeNode)>,
}

impl View for IndexRootTree {
    type V = Seq<(Seq<u8>, NodeModel)>;

    open spec fn view(&self) -> Seq<(Seq<u8>, NodeModel)> {
        children_view(self.children@)
    }
}

impl TreeNode {
    /// The directory that a tree object stands for.
    pub fn from_tree_object(db: &ObjectDb, tree: &TreeObject) -> (r: Result<TreeNode, ObjectError>)
        ensures
            (match r {
                Ok(n) => n@ is Tree && ordered(n@) && children_in(db@, tree.names(), db.count())
                    == Ok::<Seq<(Seq<u8>, NodeModel)>, ObjectError>(n@->Tree_0),
                Err(x) => children_in(db@, tree.names(), db.count()) == Err::<
                    Seq<(Seq<u8>, NodeModel)>,
                    ObjectError,
                >(x),
            }),
    {
        match read_children(db, tree.entries(), db.len()) {
            Ok(c) => {
                let n = TreeNode::Tree(c);
                proof {
                    lemma_tree_view(n);
                }
                Ok(n)
            },
            Err(x) => Err(x),
        }
    }
}

/// The files below a path, from the `i`-th name of a directory on: each with its path.
pub open spec fn leaves_from(c: Seq<(Seq<u8>, NodeModel)>, i: int, path: Seq<u8>) -> Seq<
    (Seq<u8>, TreeEntry),
>
    decreases c, c.len() - i,
{
    if i < 0 || i >= c.len() {
        Seq::empty()
    } else {
        leaves_of(c[i].1, crate::unix_path::pushed(path, c[i].0)) + leaves_from(c, i + 1, path)
    }
}

/// The files of a node at a path.
pub open spec fn leaves_of(n: NodeModel, path: Seq<u8>) -> Seq<(Seq<u8>, TreeEntry)>
    decreases n, 0int,
{
    match n {
        NodeModel::Blob(e) => seq![(path, e)],
        NodeModel::Tree(c) => leaves_from(c, 0, path),
    }
}

/// Paths with what is at them.
pub open spec fn leaf_views(v: Seq<(Vec<u8>, TreeEntry)>) -> Seq<(Seq<u8>, TreeEntry)> {
    Seq::new(v.len(), |i: int| (v[i].0@, v[i].1))
}

fn collect_children(
    c: &Vec<(Vec<u8>, TreeNode)>,
    path: &[u8],
    out: &mut Vec<(Vec<u8>, TreeEntry)>,
)
    ensures
        leaf_views(final(out)@) == leaf_views(old(out)@) + leaves_from(
            children_view(c@),
            0,
            path@,
        ),
    decreases c@,
{
    let ghost s = children_view(c@);
    let ghost mut done: Seq<(Seq<u8>, TreeEntry)> = Seq::empty();
    let mut i: usize = 0;
    assert(leaf_views(out@) + done =~= leaf_views(out@));
    assert(done + leaves_from(s, 0, path@) =~= leaves_from(s, 0, path@));
    while i < c.len()
        invariant
            0 <= i <= c@.len(),
            s == children_view(c@),
            leaf_views(out@) == leaf_views(old(out)@) + done,
            done + leaves_from(s, i as int, path@) == leaves_from(s, 0, path@),
        decreases c@.len() - i,
    {
        assert(s[i as int] == (c@[i as int].0@, c@[i as int].1@));
        assert(decreases_to!(c@ => c@[i as int]));
        let at = crate::unix_path::push_path(path, c[i].0.as_slice());
        let ghost new = leaves_of(s[i as int].1, at@);
        c[i].1.collect_blob_paths(at.as_slice(), out);
        proof {
            let rest = leaves_from(s, i + 1, path@);
            assert(leaf_views(old(out)@) + done + new =~= leaf_views(old(out)@) + (done + new));
            assert(done + (new + rest) =~= (done + new) + rest);
            done = done + new;
        }
        i += 1;
    }
    assert(done + Seq::empty() =~= done);
}

impl TreeNode {
    /// Adds the files of the node, which stands at a path, to a list.
    fn collect_blob_paths(&self, path: &[u8], out: &mut Vec<(Vec<u8>, TreeEntry)>)
        ensures
            leaf_views(final(out)@) == leaf_views(old(out)@) + leaves_of(self@, path@),
        decreases self,
    {
        proof {
            lemma_tree_view(*self);
        }
        match self {
            TreeNode::Blob(b) => {
                let ghost before = out@;
                out.push(
                    (
                        copy_bytes(path),
                        TreeEntry { file_mode: b.file_mode(), object_name: *b.object_name() },
                    ),
                );
                assert(leaf_views(out@) =~= leaf_views(before) + leaves_of(self@, path@));
            },
            TreeNode::Tree(c) => {
                collect_children(c, path, out);
            },
        }
    }
}

impl IndexRootTree {
    /// What stands directly below the root.
    pub fn root_children(&self) -> (r: &Vec<(Vec<u8>, TreeNode)>)
        ensures
            children_view(r@) == self@,
    {
        &self.children
    }

    /// Puts a file below the root.
    pub fn insert_blob(&mut self, dirs: &[Vec<u8>], name: Vec<u8>, leaf: BlobLeaf) -> (r: Result<
        (),
        TreeError,
    >)
        requires
            ordered(NodeModel::Tree(old(self)@)),
        ensures
            ordered(NodeModel::Tree(final(self)@)),
            (match with_leaf(old(self)@, views(dirs@), name@, leaf@) {
                Some(d) => r is Ok && final(self)@ == d,
                None => r == Err::<(), TreeError>(TreeError::FileInTheWay) && final(self)@ == old(self)@,
            }),
    {
        insert_blob_into_children_map(&mut self.children, dirs, name, leaf)
    }

    /// The index as a directory, with every entry.
    pub fn from_index_file(index: &IndexFile) -> (r: Result<IndexRootTree, TreeError>)
        ensures
            (match r {
                Ok(t) => ordered(NodeModel::Tree(t@)) && tree_of_entries(index@.entries, true)
                    == Ok::<Seq<(Seq<u8>, NodeModel)>, TreeError>(t@),
                Err(e) => tree_of_entries(index@.entries, true) == Err::<
                    Seq<(Seq<u8>, NodeModel)>,
                    TreeError,
                >(e),
            }),
    {
        match children_from_index(index, true) {
            Ok(children) => Ok(IndexRootTree { children }),
            Err(e) => Err(e),
        }
    }

    /// Makes the tree objects of the directory: their ids and loose forms, the root last, and the
    /// id of the root.
    pub fn write_tree(&self) -> (r: (ObjectSha, Vec<(ObjectSha, Vec<u8>)>))
        requires
            ordered(NodeModel::Tree(self@)),
        ensures
            r.0 == oid_of_raw(raw_tree(self@)),
            raw_objects(r.1@) == objects_of(NodeModel::Tree(self@)),
    {
        let mut out: Vec<(ObjectSha, Vec<u8>)> = Vec::new();
        let oid = write_children(&self.children, &mut out);
        assert(raw_objects(out@) =~= objects_of(NodeModel::Tree(self@)));
        (oid, out)
    }

    /// The directory that a tree object stands for.
    pub fn from_tree_object(db: &ObjectDb, tree: &TreeObject) -> (r: Result<
        IndexRootTree,
        ObjectError,
    >)
        ensures
            (match r {
                Ok(t) => ordered(NodeModel::Tree(t@)) && children_in(db@, tree.names(), db.count())
                    == Ok::<Seq<(Seq<u8>, NodeModel)>, ObjectError>(t@),
                Err(x) => children_in(db@, tree.names(), db.count()) == Err::<
                    Seq<(Seq<u8>, NodeModel)>,
                    ObjectError,
                >(x),
            }),
    {
        match read_children(db, tree.entries(), db.len()) {
            Ok(children) => Ok(IndexRootTree { children }),
            Err(x) => Err(x),
        }
    }

    /// The paths of all files, with what is at them.
    pub fn blob_paths(&self) -> (r: Vec<(Vec<u8>, TreeEntry)>)
        ensures
            leaf_views(r@) == leaves_from(self@, 0, Seq::empty()),
    {
        let mut out: Vec<(Vec<u8>, TreeEntry)> = Vec::new();
        let root: Vec<u8> = Vec::new();
        collect_children(&self.children, root.as_slice(), &mut out);
        assert(leaf_views(out@) =~= leaves_from(self@, 0, Seq::empty()));
        out
    }
}

/// Whether the path of names `p` is `q` or leads to something below it.
pub open spec fn at_or_below(p: Seq<Seq<u8>>, q: Seq<Seq<u8>>) -> bool {
    q.len() <= p.len() && p.subrange(0, q.len() as int) == q
}

/// A file that is put into a directory is found there, and every file that is not below its path
/// stays as it was.
pub proof fn law_leaf_inserted(
    c: Seq<(Seq<u8>, NodeModel)>,
    dirs: Seq<Seq<u8>>,
    name: Seq<u8>,
    leaf: TreeEntry,
)
    requires
        ordered(NodeModel::Tree(c)),
    ensures
        with_leaf(c, dirs, name, leaf) matches Some(d) ==> ordered(NodeModel::Tree(d)) && leaf_at(
            d,
            dirs,
            name,
        ) == Some(leaf) && forall|dirs2: Seq<Seq<u8>>, name2: Seq<u8>|
            !at_or_below(dirs2.push(name2), dirs.push(name)) ==> #[trigger] leaf_at(
                d,
                dirs2,
                name2,
            ) == leaf_at(c, dirs2, name2),
    decreases dirs.len(),
{
    if let Some(d) = with_leaf(c, dirs, name, leaf) {
        if dirs.len() == 0 {
            let node = NodeModel::Blob(leaf);
            lemma_bind(c, name, node);
            lemma_bind_ordered(c, name, node);
            assert forall|dirs2: Seq<Seq<u8>>, name2: Seq<u8>|
                !at_or_below(dirs2.push(name2), dirs.push(name)) implies #[trigger] leaf_at(
                d,
                dirs2,
                name2,
            ) == leaf_at(c, dirs2, name2) by {
                let p = dirs2.push(name2);
                let first = if dirs2.len() == 0 {
                    name2
                } else {
                    dirs2[0]
                };
                assert(p[0] == first);
                if first == name {
                    assert(p.subrange(0, 1) =~= dirs.push(name));
                }
                assert(lookup(d, first) == lookup(c, first));
            }
        } else {
            let inner = match lookup(c, dirs[0]) {
                None => Seq::<(Seq<u8>, NodeModel)>::empty(),
                Some(NodeModel::Tree(x)) => x,
                Some(NodeModel::Blob(_)) => Seq::empty(),
            };
            lemma_lookup_ordered(c, dirs[0]);
            let rest = dirs.drop_first();
            law_leaf_inserted(inner, rest, name, leaf);
            let e = with_leaf(inner, rest, name, leaf)->0;
            lemma_bind(c, dirs[0], NodeModel::Tree(e));
            lemma_bind_ordered(c, dirs[0], NodeModel::Tree(e));
            assert forall|dirs2: Seq<Seq<u8>>, name2: Seq<u8>|
                !at_or_below(dirs2.push(name2), dirs.push(name)) implies #[trigger] leaf_at(
                d,
                dirs2,
                name2,
            ) == leaf_at(c, dirs2, name2) by {
                if dirs2.len() == 0 {
                    if name2 != dirs[0] {
                        assert(lookup(d, name2) == lookup(c, name2));
                    }
                } else if dirs2[0] != dirs[0] {
                    assert(lookup(d, dirs2[0]) == lookup(c, dirs2[0]));
                } else {
                    let rest2 = dirs2.drop_first();
                    assert(!at_or_below(rest2.push(name2), rest.push(name))) by {
                        if at_or_below(rest2.push(name2), rest.push(name)) {
                            let a = dirs2.push(name2);
                            let b = dirs.push(name);
                            assert forall|k: int| 0 <= k < b.len() implies a[k] == b[k] by {
                                if k > 0 {
                                    assert(rest.push(name)[k - 1] == b[k]);
                                    assert(rest2.push(name2)[k - 1] == a[k]);
                                    assert(rest2.push(name2).subrange(0, rest.push(name).len() as int)[k
                                        - 1] == rest2.push(name2)[k - 1]);
                                }
                            }
                            assert(a.subrange(0, b.len() as int) =~= b);
                        }
                    }
                    assert(leaf_at(e, rest2, name2) == leaf_at(inner, rest2, name2));
                    if lookup(c, dirs[0]) is None {
                        lemma_empty_leaf(rest2, name2);
                    }
                }
            }
        }
    }
}

proof fn lemma_empty_leaf(dirs: Seq<Seq<u8>>, name: Seq<u8>)
    ensures
        leaf_at(Seq::empty(), dirs, name) is None,
{
}

/// What a name in an ordered directory stands for is ordered.
proof fn lemma_lookup_ordered(c: Seq<(Seq<u8>, NodeModel)>, k: Seq<u8>)
    requires
        ordered(NodeModel::Tree(c)),
    ensures
        lookup(c, k) matches Some(n) ==> ordered(n),
{
    if lookup(c, k) is Some {
        assert(ordered(c[rank(c, k)].1));
    }
}

/// Whether a later entry takes the place of an earlier one: its path is the same, or leads to a
/// directory of it.
pub open spec fn replaced(entries: Seq<EntryModel>, i: int, all: bool) -> bool {
    exists|k: int|
        i < k < entries.len() && (all || (#[trigger] entries[k]).merge_stage == 0) && at_or_below(
            components(entries[i].path),
            components(entries[k].path),
        )
}

/// Every entry of an index is found in the tree that is made of it, unless a later entry takes its
/// place.
pub proof fn law_index_tree(entries: Seq<EntryModel>, all: bool, i: int)
    requires
        0 <= i < entries.len(),
        all || entries[i].merge_stage == 0,
        tree_of_entries(entries, all) is Ok,
        !replaced(entries, i, all),
    ensures
        ordered(NodeModel::Tree(tree_of_entries(entries, all)->Ok_0)),
        file_name(entries[i].path) matches Some(name) && leaf_at(
            tree_of_entries(entries, all)->Ok_0,
            parent_components(entries[i].path),
            name,
        ) == Some(
            TreeEntry { file_mode: entries[i].file_mode, object_name: entries[i].obj_name },
        ),
    decreases entries.len(),
{
    let t = entries.drop_last();
    lemma_tree_ordered(t, all);
    let c = tree_of_entries(t, all)->Ok_0;
    let e = entries.last();
    if all || e.merge_stage == 0 {
        let name = file_name(e.path)->0;
        let leaf = TreeEntry { file_mode: e.file_mode, object_name: e.obj_name };
        law_leaf_inserted(c, parent_components(e.path), name, leaf);
        if i < t.len() {
            assert(t[i] == entries[i]);
            lemma_not_replaced(entries, i, all);
            law_index_tree(t, all, i);
            let a = parent_components(entries[i].path).push(file_name(entries[i].path)->0);
            let b = parent_components(e.path).push(name);
            assert(a =~= components(entries[i].path));
            assert(b =~= components(e.path));
            assert(entries[entries.len() - 1] == e);
            assert(!at_or_below(a, b));
        }
    } else {
        assert(i < t.len());
        assert(t[i] == entries[i]);
        lemma_not_replaced(entries, i, all);
        law_index_tree(t, all, i);
    }
}

proof fn lemma_not_replaced(entries: Seq<EntryModel>, i: int, all: bool)
    requires
        0 <= i < entries.len() - 1,
        !replaced(entries, i, all),
    ensures
        !replaced(entries.drop_last(), i, all),
{
    let t = entries.drop_last();
    if replaced(t, i, all) {
        let k = choose|k: int|
            i < k < t.len() && (all || (#[trigger] t[k]).merge_stage == 0) && at_or_below(
                components(t[i].path),
                components(t[k].path),
            );
        assert(t[k] == entries[k] && t[i] == entries[i]);
    }
}

/// The tree that is made of an index is in order.
pub proof fn lemma_tree_ordered(entries: Seq<EntryModel>, all: bool)
    ensures
        tree_of_entries(entries, all) matches Ok(c) ==> ordered(NodeModel::Tree(c)),
    decreases entries.len(),
{
    if entries.len() > 0 {
        lemma_tree_ordered(entries.drop_last(), all);
        if let Ok(c) = tree_of_entries(entries.drop_last(), all) {
            let e = entries.last();
            if file_name(e.path) is Some {
                law_leaf_inserted(
                    c,
                    parent_components(e.path),
                    file_name(e.path)->0,
                    TreeEntry { file_mode: e.file_mode, object_name: e.obj_name },
                );
            }
        }
    }
}

/// How many directories lie below each other in a node.
pub open spec fn height(n: NodeModel) -> nat
    decreases n, 0int,
{
    match n {
        NodeModel::Blob(_) => 0,
        NodeModel::Tree(c) => 1 + max_height(c, c.len() as int),
    }
}

/// The greatest height among the first `k` of a directory.
pub open spec fn max_height(c: Seq<(Seq<u8>, NodeModel)>, k: int) -> nat
    decreases c, k,
{
    if k <= 0 || k > c.len() {
        0
    } else {
        let a = max_height(c, k - 1);
        let b = height(c[k - 1].1);
        if a < b {
            b
        } else {
            a
        }
    }
}

/// Whether a store holds all the objects of a node: its tree objects as they are written, and a
/// blob for every file. The names are such as a tree can hold.
pub open spec fn stored(db: Map<ObjectSha, Seq<u8>>, n: NodeModel) -> bool
    decreases n,
{
    match n {
        NodeModel::Blob(e) => e.object_name is SHA1 && db.contains_key(e.object_name) && kind_of_raw(
            db[e.object_name],
        ) == Ok::<Seq<char>, ObjectError>("blob"@),
        NodeModel::Tree(c) => {
            &&& db.contains_key(oid_of_raw(raw_tree(c)))
            &&& db[oid_of_raw(raw_tree(c))] == raw_tree(c)
            &&& forall|i: int| 0 <= i < c.len() ==> stored(db, (#[trigger] c[i]).1)
            &&& forall|i: int, j: int|
                0 <= i < c.len() && 0 <= j < c[i].0.len() ==> #[trigger] c[i].0[j] != 0
        },
    }
}

/// No node of a directory is higher than the greatest height in it.
pub proof fn lemma_max_height(c: Seq<(Seq<u8>, NodeModel)>, k: int, i: int)
    requires
        0 <= i < k <= c.len(),
    ensures
        height(c[i].1) <= max_height(c, k),
    decreases k,
{
    if i < k - 1 {
        lemma_max_height(c, k - 1, i);
    }
}

/// The entries of a directory whose objects are stored can be written as a tree.
pub proof fn lemma_entries_writable(db: Map<ObjectSha, Seq<u8>>, c: Seq<(Seq<u8>, NodeModel)>)
    requires
        ordered(NodeModel::Tree(c)),
        stored(db, NodeModel::Tree(c)),
    ensures
        crate::object::writable_entries(entries_of(c), true),
{
    let es = entries_of(c);
    assert forall|i: int, j: int| 0 <= i < j < es.len() implies lex_lt(
        (#[trigger] es[i]).0,
        (#[trigger] es[j]).0,
    ) by {
        assert(es[i].0 == c[i].0 && es[j].0 == c[j].0);
    }
    assert forall|i: int, j: int| 0 <= i < es.len() && 0 <= j < es[i].0.len() implies #[trigger] es[i].0[j]
        != 0 by {
        assert(es[i].0 == c[i].0);
        assert(c[i].0[j] != 0);
    }
    assert forall|i: int| 0 <= i < es.len() implies ((
    #[trigger] es[i]).1.object_name is SHA1 <==> true) by {
        assert(stored(db, c[i].1));
    }
}

proof fn lemma_children_read_back(
    db: Map<ObjectSha, Seq<u8>>,
    c: Seq<(Seq<u8>, NodeModel)>,
    k: int,
    depth: nat,
)
    requires
        ordered(NodeModel::Tree(c)),
        stored(db, NodeModel::Tree(c)),
        0 <= k <= c.len(),
        max_height(c, c.len() as int) <= depth,
    ensures
        children_in(db, entries_of(c).subrange(0, k), depth) == Ok::<
            Seq<(Seq<u8>, NodeModel)>,
            ObjectError,
        >(c.subrange(0, k)),
    decreases c, k,
{
    let es = entries_of(c).subrange(0, k);
    if k == 0 {
        assert(es =~= Seq::empty());
        assert(c.subrange(0, 0) =~= Seq::empty());
    } else {
        lemma_children_read_back(db, c, k - 1, depth);
        assert(es.drop_last() =~= entries_of(c).subrange(0, k - 1));
        assert(es.last() == (c[k - 1].0, node_entry(c[k - 1].1)));
        lemma_max_height(c, c.len() as int, k - 1);
        assert(ordered(c[k - 1].1));
        assert(stored(db, c[k - 1].1));
        law_node_read_back(db, c[k - 1].1, depth);
        assert(c.subrange(0, k) =~= c.subrange(0, k - 1).push(c[k - 1]));
    }
}

/// A node whose objects are in a store is read back from it by its entry.
pub proof fn law_node_read_back(db: Map<ObjectSha, Seq<u8>>, n: NodeModel, depth: nat)
    requires
        ordered(n),
        stored(db, n),
        height(n) <= depth,
    ensures
        node_in(db, node_entry(n), depth) == Ok::<NodeModel, ObjectError>(n),
    decreases n, 0int,
{
    if let NodeModel::Tree(c) = n {
        let es = entries_of(c);
        lemma_entries_writable(db, c);
        crate::object::law_tree_round_trip(es, true);
        reveal_strlit("tree");
        reveal_strlit("blob");
        assert("tree"@.len() == 4 && "blob"@.len() == 4);
        assert("tree"@[0] == 't' && "blob"@[0] == 'b');
        crate::object::lemma_frame_round_trip("tree"@, tree_payload(git_order(es)));
        lemma_children_read_back(db, c, c.len() as int, (depth - 1) as nat);
        assert(es.subrange(0, c.len() as int) =~= es);
        assert(c.subrange(0, c.len() as int) =~= c);
    }
}

} // verus!
