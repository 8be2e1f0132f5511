//! `HEAD`: a branch, or a commit on its own.
use crate::bytes::starts_with;
use crate::index::{ref_path_text, normalized_text};
use crate::object::{lemma_oid, ObjectSha};
use crate::object_db::ObjectDb;
use crate::reference::{
    branch_tip, commit_fault, has_one_line, head_target, law_ref_round_trip, oid_line, one_line,
    read_ref, read_sha1, ref_in, ref_text, sha1_in, write_ref, RefError, RefUpdate, UpdateModel,
};
use crate::symbolic_ref::{
    law_symbolic_round_trip, read_symbolic_ref, symbolic_in, symbolic_text, write_symbolic_ref,
    SymbolicRef,
};
use crate::text::{
    chars_of, chars_start_with, is_space, lemma_trim_again, lemma_trim_padded, lemma_trim_solid,
    opt_view, res_view, string_of, trim, trimmed,
};
use vstd::prelude::*;
use vstd::utf8::encode_utf8;

verus! {

/// What `HEAD` points at. `branch_ref_path` is relative to the repository.
#[derive(Debug)]
pub enum Head {
    TargetBranch { branch_ref_path: String },
    TargetCommit(ObjectSha),
}

/// The model of a [`Head`].
#[verifier::ext_equal]
pub enum HeadModel {
    Branch(Seq<char>),
    Commit(ObjectSha),
}

impl View for Head {
    type V = HeadModel;

    open spec fn view(&self) -> HeadModel {
        match *self {
            Head::TargetBranch { branch_ref_path } => HeadModel::Branch(branch_ref_path@),
            Head::TargetCommit(oid) => HeadModel::Commit(oid),
        }
    }
}

/// What a `HEAD` file with this content points at.
pub open spec fn head_in(content: Seq<char>) -> Result<HeadModel, RefError> {
    let line = trim(content);
    if starts_with(line, "ref:"@) {
        match symbolic_in(content) {
            Ok(name) => Ok(HeadModel::Branch(name)),
            Err(e) => Err(e),
        }
    } else if !one_line(line) {
        Err(RefError::MultipleLines)
    } else {
        match sha1_in(line) {
            Some(oid) => Ok(HeadModel::Commit(oid)),
            None => Err(RefError::NotARef),
        }
    }
}

/// The content of the `HEAD` file that points at this.
pub open spec fn head_text(h: HeadModel) -> Result<Seq<char>, RefError> {
    match h {
        HeadModel::Branch(path) => {
            let name = ref_path_text(encode_utf8(path));
            if name.len() == 0 {
                Err(RefError::Empty)
            } else {
                Ok(symbolic_text(name))
            }
        },
        HeadModel::Commit(oid) => Ok(ref_text(oid)),
    }
}

/// The commit that `HEAD` stands for, when the reference of its branch has the content `tip`.
pub open spec fn current(
    db: Map<ObjectSha, Seq<u8>>,
    h: HeadModel,
    tip: Option<Seq<char>>,
) -> Result<ObjectSha, RefError> {
    match h {
        HeadModel::Branch(_) => match tip {
            None => Err(RefError::NoTarget),
            Some(content) => match ref_in(content) {
                Err(e) => Err(e),
                Ok(oid) => match commit_fault(db, oid) {
                    Some(e) => Err(RefError::Object(e)),
                    None => Ok(oid),
                },
            },
        },
        HeadModel::Commit(oid) => Ok(oid),
    }
}

/// The file to write when `HEAD` moves on to a new commit.
pub open spec fn moved(db: Map<ObjectSha, Seq<u8>>, h: HeadModel, oid: ObjectSha) -> Result<
    UpdateModel,
    RefError,
> {
    match h {
        HeadModel::Branch(path) => match commit_fault(db, oid) {
            Some(e) => Err(RefError::Object(e)),
            None => Ok(UpdateModel { path, content: ref_text(oid) }),
        },
        HeadModel::Commit(_) => Ok(UpdateModel { path: "HEAD"@, content: ref_text(oid) }),
    }
}

impl Head {
    /// Reads a `HEAD` file with the given content.
    pub fn read(content: &str) -> (r: Result<Head, RefError>)
        ensures
            res_view(r) == head_in(content@),
            r matches Ok(Head::TargetCommit(o)) ==> o is SHA1,
    {
        let cs = chars_of(content);
        let line = trimmed(cs.as_slice());
        if chars_start_with(line, "ref:") {
            return match read_symbolic_ref(content) {
                Ok(sym) => Ok(Head::TargetBranch { branch_ref_path: sym.ref_name }),
                Err(e) => Err(e),
            };
        }
        if !has_one_line(line) {
            return Err(RefError::MultipleLines);
        }
        match read_sha1(line) {
            Some(oid) => Ok(Head::TargetCommit(oid)),
            None => Err(RefError::NotARef),
        }
    }

    /// The commit that `HEAD` stands for. `tip` is the content of the branch's reference, if it
    /// exists.
    pub fn current_commit(&self, db: &ObjectDb, tip: Option<&str>) -> (r: Result<
        ObjectSha,
        RefError,
    >)
        ensures
            r == current(db@, self@, opt_view(tip)),
    {
        match self {
            Head::TargetBranch { .. } => match tip {
                None => Err(RefError::NoTarget),
                Some(content) => match read_ref(db, content) {
                    Ok(r) => Ok(r.commit_id),
                    Err(e) => Err(e),
                },
            },
            Head::TargetCommit(oid) => Ok(*oid),
        }
    }

    /// The content to write to the `HEAD` file.
    pub fn write(&self) -> (r: Result<String, RefError>)
        ensures
            res_view(r) == head_text(self@),
    {
        match self {
            Head::TargetBranch { branch_ref_path } => {
                let name = normalized_text(branch_ref_path.as_str().as_bytes());
                if name.as_str().unicode_len() == 0 {
                    Err(RefError::Empty)
                } else {
                    Ok(write_symbolic_ref(&SymbolicRef { ref_name: name }))
                }
            },
            Head::TargetCommit(oid) => {
                let mut s = oid.to_string();
                s.push('\n');
                Ok(s)
            },
        }
    }

    /// The file to write after a new commit: the reference of the branch, or `HEAD` itself.
    pub fn record_new_commit(&self, db: &ObjectDb, new_oid: &ObjectSha) -> (r: Result<
        RefUpdate,
        RefError,
    >)
        ensures
            res_view(r) == moved(db@, self@, *new_oid),
    {
        match self {
            Head::TargetBranch { branch_ref_path } => match write_ref(db, new_oid) {
                Ok(content) => {
                    let path = string_of(chars_of(branch_ref_path.as_str()).as_slice());
                    Ok(RefUpdate { path, content })
                },
                Err(e) => Err(e),
            },
            Head::TargetCommit(_) => {
                let mut content = new_oid.to_string();
                content.push('\n');
                Ok(RefUpdate { path: string_of(chars_of("HEAD").as_slice()), content })
            },
        }
    }
}

/// After `HEAD` moves on, it stands for the new commit: with a branch, its reference was
/// rewritten; without one, the `HEAD` file.
pub proof fn law_head_moves(db: Map<ObjectSha, Seq<u8>>, h: HeadModel, oid: ObjectSha)
    requires
        oid is SHA1,
        commit_fault(db, oid) is None,
    ensures
        moved(db, h, oid) matches Ok(u) && (match h {
            HeadModel::Branch(path) => u.path == path && current(db, h, Some(u.content)) == Ok::<
                ObjectSha,
                RefError,
            >(oid),
            HeadModel::Commit(_) => u.path == "HEAD"@ && head_in(u.content) == Ok::<
                HeadModel,
                RefError,
            >(HeadModel::Commit(oid)),
        }),
{
    crate::reference::law_ref_round_trip(oid);
}

/// A `HEAD` file that names the reference of a branch reads back as being on that branch.
pub proof fn law_branch_head_round_trip(name: Seq<char>)
    requires
        name.len() > 0,
        !is_space(name[0]),
        !is_space(name.last()),
        !name.contains('\n'),
        !name.contains('\\'),
    ensures
        head_in(symbolic_text(name)) == Ok::<HeadModel, RefError>(HeadModel::Branch(name)),
{
    law_symbolic_round_trip(name);
    reveal_strlit("ref: ");
    reveal_strlit("ref:");
    let line = "ref: "@ + name;
    assert(line[0] == 'r');
    assert(line.last() == name.last());
    lemma_trim_solid(line);
    lemma_trim_padded(Seq::empty(), line, seq!['\n']);
    assert(symbolic_text(name) =~= Seq::<char>::empty() + line + seq!['\n']);
    assert(line.subrange(0, 4) =~= "ref:"@);
}

/// A new branch starts at the commit that `HEAD` stands for: this is what its reference reads as.
pub proof fn law_branch_starts_at_head(
    db: Map<ObjectSha, Seq<u8>>,
    head: Seq<char>,
    target: Option<Seq<char>>,
)
    requires
        branch_tip(head, target) is Ok,
        commit_fault(db, branch_tip(head, target)->Ok_0) is None,
        head_in(head) is Ok,
    ensures
        current(db, head_in(head)->Ok_0, target) == branch_tip(head, target),
        ref_in(ref_text(branch_tip(head, target)->Ok_0)) == branch_tip(head, target),
{
    let oid = branch_tip(head, target)->Ok_0;
    lemma_trim_again(head);
    let raw = if head_target(head) is Some {
        target->Some_0
    } else {
        head
    };
    assert(oid_line(raw) == Ok::<ObjectSha, RefError>(oid));
    lemma_oid(oid);
    law_ref_round_trip(oid);
    assert(trim(raw) == trim(ref_text(oid)));
}

} // verus!
