//! Committing: the tree of the index, the parents that follow from `HEAD`, and where `HEAD` goes.
use crate::bytes::copy_bytes;
use crate::checkout::{
    checked_out, index_paths, law_checkout_writes_tree, written, TargetModel,
};
use crate::commit_object::{
    commit_at, commit_payload, commit_tree, law_commit_round_trip, writable_commit, CommitIdentity,
    CommitModel, CommitObject, IdentityModel,
};
use crate::head::{current, head_in, Head, HeadModel};
use crate::index::{EntryModel, IndexFile, IndexModel};
use crate::index_tree::{
    children_in, height, law_node_read_back, leaves_from, lemma_tree_ordered, node_entry,
    objects_of, raw_objects, stored, tree_of_entries, IndexRootTree, NodeModel, TreeError,
};
use crate::object::{framed, oid_of_raw, payload_of_raw, tree_entries, ObjectError, ObjectSha};
use crate::object_db::ObjectDb;
use crate::outside::zlib_deflated;
use crate::path_set::path_set;
use crate::reference::{
    commit_fault, ensure_commit, has_one_line, law_ref_round_trip, one_line, read_sha1, ref_text,
    sha1_in, RefError, RefUpdate, UpdateModel,
};
use crate::text::{chars_of, opt_view, string_of, trim, trimmed};
use vstd::prelude::*;
use vstd::utf8::encode_utf8;

verus! {

/// Why a commit cannot be made.
#[derive(Clone, Copy, PartialEq, Eq, Debug)]
pub enum CommitError {
    /// The index does not make a tree.
    Tree(TreeError),
    /// `HEAD`, or the reference of its branch, cannot be read.
    Ref(RefError),
    /// The parent is not a commit of the store.
    Parent(ObjectError),
}

/// The last commit of a branch whose reference has this content.
pub open spec fn tip_in(content: Seq<char>) -> Result<ObjectSha, RefError> {
    let line = trim(content);
    if line.len() == 0 {
        Err(RefError::Empty)
    } else if !one_line(line) {
        Err(RefError::MultipleLines)
    } else {
        match sha1_in(line) {
            Some(oid) => Ok(oid),
            None => Err(RefError::NotARef),
        }
    }
}

/// The commit that `HEAD` leads to, if there is one: none on a branch whose reference does not
/// exist. `tip` is the content of that reference.
pub open spec fn parent_of(
    db: Map<ObjectSha, Seq<u8>>,
    head: HeadModel,
    tip: Option<Seq<char>>,
) -> Result<Option<ObjectSha>, CommitError> {
    let found = match head {
        HeadModel::Commit(oid) => Ok(Some(oid)),
        HeadModel::Branch(_) => match tip {
            None => Ok(None),
            Some(content) => match tip_in(content) {
                Err(e) => Err(CommitError::Ref(e)),
                Ok(oid) => Ok(Some(oid)),
            },
        },
    };
    match found {
        Err(e) => Err(e),
        Ok(None) => Ok(None),
        Ok(Some(oid)) => match commit_fault(db, oid) {
            Some(e) => Err(CommitError::Parent(e)),
            None => Ok(Some(oid)),
        },
    }
}

/// The parents of a new commit: the one that `HEAD` leads to, and the one that is being merged.
pub open spec fn parents_with(first: Option<ObjectSha>, merged: Option<ObjectSha>) -> Seq<ObjectSha> {
    (match first {
        Some(oid) => seq![oid],
        None => Seq::empty(),
    }) + (match merged {
        Some(oid) => seq![oid],
        None => Seq::empty(),
    })
}

/// A message with a line feed at its end.
pub open spec fn message_bytes(message: Seq<char>) -> Seq<u8> {
    let b = encode_utf8(message);
    if b.len() > 0 && b.last() == 0x0a {
        b
    } else {
        b.push(0x0a)
    }
}

/// The commit that an index with the given root directory makes.
pub open spec fn new_commit(
    root: NodeModel,
    parents: Seq<ObjectSha>,
    author: IdentityModel,
    committer: IdentityModel,
    message: Seq<char>,
) -> CommitModel {
    CommitModel {
        tree: node_entry(root).object_name,
        parents,
        author,
        committer,
        trailing_headers: Seq::empty(),
        message: message_bytes(message),
    }
}

/// What a new commit consists of.
#[derive(Debug)]
pub struct NewCommit {
    /// The trees, each with its id and its loose form.
    pub trees: Vec<(ObjectSha, Vec<u8>)>,
    /// The id of the commit.
    pub oid: ObjectSha,
    /// The file that stores the commit.
    pub file: Vec<u8>,
    /// The file to write last: the reference of the branch, or `HEAD`.
    pub update: RefUpdate,
}

fn resolve_parents(db: &ObjectDb, head: &Head, tip: Option<&str>) -> (r: Result<
    Option<ObjectSha>,
    CommitError,
>)
    ensures
        r == parent_of(db@, head@, opt_view(tip)),
{
    let oid = match head {
        Head::TargetCommit(oid) => *oid,
        Head::TargetBranch { .. } => match tip {
            None => return Ok(None),
            Some(content) => {
                let cs = chars_of(content);
                let line = trimmed(cs.as_slice());
                if line.len() == 0 {
                    return Err(CommitError::Ref(RefError::Empty));
                }
                if !has_one_line(line) {
                    return Err(CommitError::Ref(RefError::MultipleLines));
                }
                match read_sha1(line) {
                    Some(oid) => oid,
                    None => return Err(CommitError::Ref(RefError::NotARef)),
                }
            },
        },
    };
    match ensure_commit(db, &oid) {
        Ok(_) => Ok(Some(oid)),
        Err(e) => Err(CommitError::Parent(e)),
    }
}

/// Where `HEAD`, or the reference of its branch, goes for a new commit.
pub open spec fn head_update(h: HeadModel, oid: ObjectSha) -> UpdateModel {
    UpdateModel {
        path: (match h {
            HeadModel::Branch(path) => path,
            HeadModel::Commit(_) => "HEAD"@,
        }),
        content: ref_text(oid),
    }
}

/// Makes a commit of the index. `head` is the content of `HEAD`, `tip` that of the reference of its
/// branch, if it exists, and `merged` the commit that is being merged, if one is.
pub fn commit(
    db: &ObjectDb,
    index: &IndexFile,
    head: &str,
    tip: Option<&str>,
    merged: Option<ObjectSha>,
    author: CommitIdentity,
    committer: CommitIdentity,
    message: &str,
) -> (r: Result<NewCommit, CommitError>)
    ensures
        (match tree_of_entries(index@.entries, true) {
            Err(e) => r matches Err(CommitError::Tree(x)) && x == e,
            Ok(c) => match head_in(head@) {
                Err(e) => r matches Err(CommitError::Ref(x)) && x == e,
                Ok(h) => match parent_of(db@, h, opt_view(tip)) {
                    Err(e) => r matches Err(x) && x == e,
                    Ok(first) => {
                        let root = NodeModel::Tree(c);
                        let raw = framed(
                            "commit"@,
                            commit_payload(
                                new_commit(
                                    root,
                                    parents_with(first, merged),
                                    author@,
                                    committer@,
                                    message@,
                                ),
                            ),
                        );
                        r matches Ok(n) && raw_objects(n.trees@) == objects_of(root) && n.oid
                            == oid_of_raw(raw) && n.file@ == zlib_deflated(raw) && n.update@
                            == head_update(h, n.oid)
                    },
                },
            },
        }),
{
    let root = match IndexRootTree::from_index_file(index) {
        Ok(t) => t,
        Err(e) => return Err(CommitError::Tree(e)),
    };
    let (tree, trees) = root.write_tree();
    let h = match Head::read(head) {
        Ok(h) => h,
        Err(e) => return Err(CommitError::Ref(e)),
    };
    let first = match resolve_parents(db, &h, tip) {
        Ok(p) => p,
        Err(e) => return Err(e),
    };
    let mut parents: Vec<ObjectSha> = Vec::new();
    if let Some(oid) = first {
        parents.push(oid);
    }
    if let Some(oid) = merged {
        parents.push(oid);
    }
    assert(parents@ =~= parents_with(first, merged));
    let mut bytes = copy_bytes(message.as_bytes());
    if bytes.len() == 0 || bytes[bytes.len() - 1] != 0x0a {
        bytes.push(0x0a);
    }
    let ghost a = author@;
    let ghost c = committer@;
    let obj = CommitObject::new(tree, parents, author, committer, Vec::new(), bytes);
    assert(obj@ =~= new_commit(
        NodeModel::Tree(root@),
        parents_with(first, merged),
        a,
        c,
        message@,
    ));
    let (oid, file) = commit_tree(&obj);
    let mut content = oid.to_string();
    content.push('\n');
    let path = match h {
        Head::TargetBranch { branch_ref_path } => branch_ref_path,
        Head::TargetCommit(_) => string_of(chars_of("HEAD").as_slice()),
    };
    Ok(NewCommit { trees, oid, file, update: RefUpdate { path, content } })
}

/// After a commit, `HEAD` leads to it.
pub proof fn law_commit_moves_head(db: Map<ObjectSha, Seq<u8>>, h: HeadModel, oid: ObjectSha)
    requires
        oid is SHA1,
        commit_fault(db, oid) is None,
    ensures
        (match h {
            HeadModel::Branch(path) => head_update(h, oid).path == path && current(
                db,
                h,
                Some(head_update(h, oid).content),
            ) == Ok::<ObjectSha, RefError>(oid),
            HeadModel::Commit(_) => head_update(h, oid).path == "HEAD"@ && head_in(
                head_update(h, oid).content,
            ) == Ok::<HeadModel, RefError>(HeadModel::Commit(oid)),
        }),
{
    law_ref_round_trip(oid);
}

/// A commit of an index whose objects are stored is read back as it was made, and checking it out
/// writes just the files of the index's tree.
pub proof fn law_commit_checks_out(
    db: Map<ObjectSha, Seq<u8>>,
    entries: Seq<EntryModel>,
    m: CommitModel,
    oid: ObjectSha,
    index: Option<IndexModel>,
    work: Seq<Seq<u8>>,
    depth: nat,
)
    requires
        tree_of_entries(entries, true) is Ok,
        stored(db, NodeModel::Tree(tree_of_entries(entries, true)->Ok_0)),
        height(NodeModel::Tree(tree_of_entries(entries, true)->Ok_0)) <= depth + 1,
        m.tree == node_entry(NodeModel::Tree(tree_of_entries(entries, true)->Ok_0)).object_name,
        writable_commit(m, oid is SHA1),
        db.contains_key(oid),
        db[oid] == framed("commit"@, commit_payload(m)),
    ensures
        commit_at(db, oid) == Ok::<CommitModel, ObjectError>(m),
        checked_out(db, TargetModel::Commit(oid), None, index, work, depth) matches Ok(plan)
            ==> written(plan.actions) == leaves_from(
            tree_of_entries(entries, true)->Ok_0,
            0,
            Seq::empty(),
        ),
{
    let c = tree_of_entries(entries, true)->Ok_0;
    let n = NodeModel::Tree(c);
    law_commit_round_trip(m, oid is SHA1);
    lemma_tree_ordered(entries, true);
    law_node_read_back(db, n, depth + 1);
    reveal_strlit("tree");
    reveal_strlit("blob");
    assert("tree"@[0] == 't' && "blob"@[0] == 'b');
    let raw = db[m.tree];
    assert(children_in(
        db,
        tree_entries(payload_of_raw(raw), true, Seq::empty())->Ok_0,
        depth,
    ) == Ok::<Seq<(Seq<u8>, NodeModel)>, ObjectError>(c));
    if let Ok(plan) = checked_out(db, TargetModel::Commit(oid), None, index, work, depth) {
        law_checkout_writes_tree(
            db,
            index_paths(index)->Ok_0,
            path_set(work),
            c,
            HeadModel::Commit(oid),
        );
    }
}

} // verus!
