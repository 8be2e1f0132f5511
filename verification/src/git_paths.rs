//! Where things are in a repository.
use crate::bytes::copy_bytes;
use crate::index::{ref_path_text, normalized_text};
use crate::text::{chars_of, opt_view, string_of};
use crate::unix_path::{push_path, pushed, relative_to, strip_root};
use vstd::prelude::*;
use vstd::slice::slice_subrange;
use vstd::utf8::encode_utf8;

verus! {

/// Where a repository is: its working directory and its own.
#[derive(Debug)]
pub struct RepoPaths {
    pub worktree: Vec<u8>,
    pub git_abs: Vec<u8>,
}

/// The path of a file relative to the repository, as a reference names it; nothing where the file
/// is not in the repository, or is the repository itself.
pub fn abs_path_to_git_path(worktree: &[u8], git_abs: &[u8], path: &[u8]) -> (r: Option<String>)
    ensures
        opt_view(r) == (match relative_to(git_abs@, pushed(worktree@, path@)) {
            None => None::<Seq<char>>,
            Some(rel) => if ref_path_text(rel).len() == 0 {
                None
            } else {
                Some(ref_path_text(rel))
            },
        }),
{
    let abs = push_path(worktree, path);
    match strip_root(git_abs, abs.as_slice()) {
        None => None,
        Some(rel) => {
            let s = normalized_text(rel);
            if s.as_str().unicode_len() == 0 {
                None
            } else {
                Some(s)
            }
        },
    }
}

/// One text path pushed onto another: an absolute one takes its place.
pub open spec fn text_pushed(dir: Seq<char>, name: Seq<char>) -> Seq<char> {
    if name.len() > 0 && name[0] == '/' {
        name
    } else if dir.len() == 0 || dir.last() == '/' {
        dir + name
    } else {
        dir.push('/') + name
    }
}

/// Pushes one text path onto another.
pub fn push_text(dir: &str, name: &str) -> (r: String)
    ensures
        r@ == text_pushed(dir@, name@),
{
    let d = chars_of(dir);
    let n = chars_of(name);
    if n.len() > 0 && n[0] == '/' {
        return string_of(n.as_slice());
    }
    let mut r = string_of(d.as_slice());
    if d.len() > 0 && d[d.len() - 1] != '/' {
        r.push('/');
    }
    r.append(name);
    r
}

/// The file of a branch, relative to the repository.
pub open spec fn branch_ref(name: Seq<char>) -> Seq<char> {
    text_pushed("refs/heads"@, name)
}

/// The file of a branch, relative to the repository.
pub fn get_branch_ref_path(branch_name: &str) -> (r: String)
    ensures
        r@ == branch_ref(branch_name@),
{
    push_text("refs/heads", branch_name)
}

/// The file of a branch of the repository in `git_dir`.
pub fn branch_ref_path(git_dir: &str, branch_name: &str) -> (r: String)
    ensures
        r@ == text_pushed(text_pushed(git_dir@, "refs/heads"@), branch_name@),
{
    push_text(push_text(git_dir, "refs/heads").as_str(), branch_name)
}

/// The file of a loose object: the first two digits of its id name a directory.
pub fn loose_object_path(git_abs: &str, hex_oid: &str) -> (r: String)
    requires
        hex_oid@.len() >= 3,
        (hex_oid@[0] as u32) < 0x80 && (hex_oid@[1] as u32) < 0x80,
    ensures
        r@ == text_pushed(
            text_pushed(text_pushed(git_abs@, "objects"@), hex_oid@.subrange(0, 2)),
            hex_oid@.subrange(2, hex_oid@.len() as int),
        ),
{
    let cs = chars_of(hex_oid);
    let dir = string_of(slice_subrange(cs.as_slice(), 0, 2));
    let file = string_of(slice_subrange(cs.as_slice(), 2, cs.len()));
    let objects = push_text(git_abs, "objects");
    push_text(push_text(objects.as_str(), dir.as_str()).as_str(), file.as_str())
}

/// The repository whose working directory is `dir`.
pub fn repo_at(dir: &[u8]) -> (r: RepoPaths)
    ensures
        r.worktree@ == dir@,
        r.git_abs@ == pushed(dir@, encode_utf8(".gift"@)),
{
    RepoPaths { worktree: copy_bytes(dir), git_abs: push_path(dir, ".gift".as_bytes()) }
}

/// The repository of conversations that lies in `dir`, beside the directory of its messages.
pub fn chat_repo_at(dir: &[u8]) -> (r: RepoPaths)
    ensures
        r.worktree@ == pushed(dir@, encode_utf8("chat"@)),
        r.git_abs@ == pushed(dir@, encode_utf8(".giftai"@)),
{
    RepoPaths {
        worktree: push_path(dir, "chat".as_bytes()),
        git_abs: push_path(dir, ".giftai".as_bytes()),
    }
}

} // verus!
