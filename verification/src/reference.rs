//! References: files that hold the id of a commit, and branches made from them.
use crate::bytes::starts_with;
use crate::git_paths::get_branch_ref_path;
use crate::numbers::{hex_of, hex_value};
use crate::object::{
    lemma_oid, lemma_oid_hex_round_trip, oid_from_hex, payload_of, payload_of_kind, ObjectError,
    ObjectSha,
};
use crate::object_db::ObjectDb;
use crate::text::{
    chars_are, chars_of, chars_start_with, is_space, lemma_trim_padded, lines, lines_of, res_view,
    string_of, trim, trimmed,
};
use vstd::prelude::*;
use vstd::slice::slice_subrange;
use vstd::utf8::encode_utf8;

verus! {

/// What a reference holds.
#[derive(Clone, Copy, PartialEq, Eq, Debug)]
pub struct Ref {
    pub commit_id: ObjectSha,
}

/// Why a reference cannot be read or made.
#[derive(Clone, Copy, PartialEq, Eq, Debug)]
pub enum RefError {
    /// A reference to a reference where an id is expected.
    Symbolic,
    /// More than one line.
    MultipleLines,
    /// An id that is not 40 characters long.
    BadLength,
    /// An id that is not hexadecimal.
    NotHex,
    /// A file that should hold an id or a reference and holds neither.
    NotARef,
    /// Nothing at all.
    Empty,
    /// The object that is referred to is not a commit, or is not there.
    Object(ObjectError),
    /// A branch without a name.
    EmptyName,
    /// A branch that exists already.
    Exists,
    /// The reference that is referred to does not exist.
    NoTarget,
    /// A symbolic reference without `ref:`.
    NoPrefix,
}

/// Whether a text has at most one line.
pub open spec fn one_line(s: Seq<char>) -> bool {
    lines(s).len() < 2
}

/// The id that 40 hexadecimal digits write.
pub open spec fn sha1_in(s: Seq<char>) -> Option<ObjectSha> {
    if s.len() == 40 {
        oid_from_hex(s)
    } else {
        None
    }
}

/// The object that a text names. Objects are stored under the small digits of their ids, so that a
/// text with capital ones names none.
pub open spec fn stored_id(s: Seq<char>) -> Option<ObjectSha> {
    match sha1_in(s) {
        Some(oid) => if s == hex_of(oid@) {
            Some(oid)
        } else {
            None
        },
        None => None,
    }
}

/// The id that a reference file with this content holds.
pub open spec fn ref_in(content: Seq<char>) -> Result<ObjectSha, RefError> {
    let line = trim(content);
    if starts_with(line, "ref:"@) {
        Err(RefError::Symbolic)
    } else if !one_line(line) {
        Err(RefError::MultipleLines)
    } else if encode_utf8(line).len() != 40 {
        Err(RefError::BadLength)
    } else {
        match sha1_in(line) {
            Some(oid) => Ok(oid),
            None => Err(RefError::NotHex),
        }
    }
}

/// What keeps an id from being that of a commit in the store.
pub open spec fn commit_fault(db: Map<ObjectSha, Seq<u8>>, oid: ObjectSha) -> Option<ObjectError> {
    if !db.contains_key(oid) {
        Some(ObjectError::Missing(oid))
    } else {
        match payload_of_kind(db[oid], "commit"@) {
            Ok(_) => None,
            Err(e) => Some(e),
        }
    }
}

/// The content of the reference file that holds an id.
pub open spec fn ref_text(oid: ObjectSha) -> Seq<char> {
    hex_of(oid@).push('\n')
}

/// The id that 40 hexadecimal digits write.
pub fn read_sha1(s: &[char]) -> (r: Option<ObjectSha>)
    ensures
        r == sha1_in(s@),
        r matches Some(o) ==> o is SHA1,
{
    if s.len() == 40 {
        let r = ObjectSha::from_hex(string_of(s).as_str());
        proof {
            if let Some(o) = r {
                lemma_oid(o);
            }
        }
        r
    } else {
        None
    }
}

/// The object that a text names.
pub fn read_stored_id(s: &[char]) -> (r: Option<ObjectSha>)
    ensures
        r == stored_id(s@),
        r matches Some(o) ==> o is SHA1,
{
    match read_sha1(s) {
        Some(oid) => {
            let digits = oid.to_string();
            if chars_are(s, digits.as_str()) {
                Some(oid)
            } else {
                None
            }
        },
        None => None,
    }
}

pub(crate) fn has_one_line(s: &[char]) -> (r: bool)
    ensures
        r == one_line(s@),
{
    lines_of(s).len() < 2
}

/// Checks that the store holds a commit under an id.
pub fn ensure_commit(db: &ObjectDb, oid: &ObjectSha) -> (r: Result<(), ObjectError>)
    ensures
        r == (match commit_fault(db@, *oid) {
            Some(e) => Err::<(), ObjectError>(e),
            None => Ok(()),
        }),
{
    match db.get(oid) {
        None => Err(ObjectError::Missing(*oid)),
        Some(raw) => match payload_of(raw.as_slice(), "commit") {
            Ok(_) => Ok(()),
            Err(e) => Err(e),
        },
    }
}

/// Reads a reference file with the given content, which must name a commit.
pub fn read_ref(db: &ObjectDb, content: &str) -> (r: Result<Ref, RefError>)
    ensures
        r == (match ref_in(content@) {
            Err(e) => Err::<Ref, RefError>(e),
            Ok(oid) => match commit_fault(db@, oid) {
                Some(e) => Err(RefError::Object(e)),
                None => Ok(Ref { commit_id: oid }),
            },
        }),
{
    let cs = chars_of(content);
    let line = trimmed(cs.as_slice());
    if chars_start_with(line, "ref:") {
        return Err(RefError::Symbolic);
    }
    if !has_one_line(line) {
        return Err(RefError::MultipleLines);
    }
    if string_of(line).as_str().as_bytes().len() != 40 {
        return Err(RefError::BadLength);
    }
    match read_sha1(line) {
        None => Err(RefError::NotHex),
        Some(oid) => match ensure_commit(db, &oid) {
            Err(e) => Err(RefError::Object(e)),
            Ok(_) => Ok(Ref { commit_id: oid }),
        },
    }
}

pub(crate) fn text_for(oid: &ObjectSha) -> (r: String)
    ensures
        r@ == ref_text(*oid),
{
    let mut s = oid.to_string();
    s.push('\n');
    s
}

/// The content to write to a reference file for an id, which must be that of a commit.
pub fn write_ref(db: &ObjectDb, commit_id: &ObjectSha) -> (r: Result<String, RefError>)
    ensures
        res_view(r) == (match commit_fault(db@, *commit_id) {
            Some(e) => Err::<Seq<char>, RefError>(RefError::Object(e)),
            None => Ok(ref_text(*commit_id)),
        }),
{
    match ensure_commit(db, commit_id) {
        Err(e) => Err(RefError::Object(e)),
        Ok(_) => Ok(text_for(commit_id)),
    }
}

/// What `HEAD` refers to, where its content starts with `ref:`.
pub open spec fn head_target(head: Seq<char>) -> Option<Seq<char>> {
    let line = trim(head);
    if starts_with(line, "ref:"@) {
        Some(trim(line.subrange(4, line.len() as int)))
    } else {
        None
    }
}

/// The id on the only line of a text, which must name an object.
pub open spec fn oid_line(raw: Seq<char>) -> Result<ObjectSha, RefError> {
    let line = trim(raw);
    if !one_line(line) {
        Err(RefError::MultipleLines)
    } else {
        match sha1_in(line) {
            Some(oid) => if stored_id(line) is Some {
                Ok(oid)
            } else {
                Err(RefError::Object(ObjectError::Missing(oid)))
            },
            None => Err(RefError::NotARef),
        }
    }
}

/// The commit that a new branch starts from, when `HEAD` has the content `head` and the reference
/// it names, if it names one, has the content `target`.
pub open spec fn branch_tip(head: Seq<char>, target: Option<Seq<char>>) -> Result<
    ObjectSha,
    RefError,
> {
    match head_target(head) {
        Some(name) => if name.len() == 0 {
            Err(RefError::Empty)
        } else {
            match target {
                Some(raw) => oid_line(raw),
                None => Err(RefError::NoTarget),
            }
        },
        None => oid_line(trim(head)),
    }
}

/// What `HEAD` refers to, where its content starts with `ref:`.
pub fn head_target_of(head: &str) -> (r: Option<String>)
    ensures
        crate::text::opt_view(r) == head_target(head@),
{
    let cs = chars_of(head);
    let line = trimmed(cs.as_slice());
    if chars_start_with(line, "ref:") {
        proof {
            reveal_strlit("ref:");
        }
        let rest = slice_subrange(line, 4, line.len());
        Some(string_of(trimmed(rest)))
    } else {
        None
    }
}

fn parse_oid_line(raw: &str) -> (r: Result<ObjectSha, RefError>)
    ensures
        r == oid_line(raw@),
{
    let cs = chars_of(raw);
    let line = trimmed(cs.as_slice());
    if !has_one_line(line) {
        return Err(RefError::MultipleLines);
    }
    match read_sha1(line) {
        Some(oid) => {
            if read_stored_id(line).is_some() {
                Ok(oid)
            } else {
                Err(RefError::Object(ObjectError::Missing(oid)))
            }
        },
        None => Err(RefError::NotARef),
    }
}

/// A file of the repository and the content to write to it.
#[derive(Debug)]
pub struct RefUpdate {
    pub path: String,
    pub content: String,
}

/// The model of a [`RefUpdate`].
#[verifier::ext_equal]
pub struct UpdateModel {
    pub path: Seq<char>,
    pub content: Seq<char>,
}

impl View for RefUpdate {
    type V = UpdateModel;

    open spec fn view(&self) -> UpdateModel {
        UpdateModel { path: self.path@, content: self.content@ }
    }
}

/// Makes a branch at the commit that `HEAD` leads to: gives the file to create, which must not
/// exist, with its content. `target` is the content of the reference that `HEAD` names.
pub fn branch(db: &ObjectDb, branch_name: &str, exists: bool, head: &str, target: Option<&str>) -> (r:
    Result<RefUpdate, RefError>)
    ensures
        res_view(r) == (if trim(branch_name@).len() == 0 {
            Err::<UpdateModel, RefError>(RefError::EmptyName)
        } else if exists {
            Err(RefError::Exists)
        } else {
            match branch_tip(head@, crate::text::opt_view(target)) {
                Err(e) => Err(e),
                Ok(oid) => match commit_fault(db@, oid) {
                    Some(e) => Err(RefError::Object(e)),
                    None => Ok(
                        UpdateModel {
                            path: crate::git_paths::branch_ref(trim(branch_name@)),
                            content: ref_text(oid),
                        },
                    ),
                },
            }
        }),
{
    let cs = chars_of(branch_name);
    let name = trimmed(cs.as_slice());
    if name.len() == 0 {
        return Err(RefError::EmptyName);
    }
    if exists {
        return Err(RefError::Exists);
    }
    let found = match head_target_of(head) {
        Some(t) => {
            if t.as_str().unicode_len() == 0 {
                return Err(RefError::Empty);
            }
            match target {
                Some(raw) => parse_oid_line(raw),
                None => return Err(RefError::NoTarget),
            }
        },
        None => {
            let h = chars_of(head);
            parse_oid_line(string_of(trimmed(h.as_slice())).as_str())
        },
    };
    let oid = match found {
        Ok(oid) => oid,
        Err(e) => return Err(e),
    };
    match ensure_commit(db, &oid) {
        Err(e) => Err(RefError::Object(e)),
        Ok(_) => Ok(
            RefUpdate {
                path: get_branch_ref_path(string_of(name).as_str()),
                content: text_for(&oid),
            },
        ),
    }
}

/// A reference reads back as the commit that was written to it.
pub proof fn law_ref_round_trip(oid: ObjectSha)
    requires
        oid is SHA1,
    ensures
        ref_in(ref_text(oid)) == Ok::<ObjectSha, RefError>(oid),
        oid_line(ref_text(oid)) == Ok::<ObjectSha, RefError>(oid),
{
    let hex = hex_of(oid@);
    lemma_oid_hex_round_trip(oid);
    reveal_strlit("ref:");
    assert forall|i: int| 0 <= i < hex.len() implies hex_value(#[trigger] hex[i]) is Some
        && !is_space(hex[i]) && hex[i] != '\n' && (hex[i] as u32) < 0x80 by {
    }
    let b = seq!['\n'];
    assert(ref_text(oid) =~= Seq::<char>::empty() + hex + b);
    lemma_oid(oid);
    crate::text::lemma_trim_solid(hex);
    lemma_trim_padded(Seq::empty(), hex, b);
    assert(vstd::utf8::is_ascii_chars(hex));
    crate::text::lemma_encode_ascii(hex);
    assert(trim(ref_text(oid)) == hex);
    assert(hex_value('r') is None);
    assert(hex.subrange(0, 4)[0] == hex[0]);
    crate::bytes::lemma_find_from_is(hex, '\n', 0, hex.len() as int);
}

} // verus!
