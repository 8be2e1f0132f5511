//! What a new repository consists of.
use crate::git_paths::{push_text, text_pushed};
use crate::text::{chars_of, string_of, views};
use vstd::prelude::*;

verus! {

/// What to make for a new repository.
#[derive(Debug)]
pub struct NewRepository {
    /// The directories, each with all that lead to it.
    pub dirs: Vec<String>,
    /// The files that are made empty.
    pub files: Vec<String>,
    /// The file of `HEAD`, and what is written to it.
    pub head: (String, String),
}

/// The directories of a repository, relative to it.
pub open spec fn repository_dirs() -> Seq<Seq<char>> {
    seq![
        "branches"@,
        "hooks"@,
        "info"@,
        "objects/info"@,
        "objects/pack"@,
        "refs/heads"@,
        "refs/tags"@,
    ]
}

/// The files of a repository that are made empty, relative to it.
pub open spec fn repository_files() -> Seq<Seq<char>> {
    seq!["config"@, "description"@, "HEAD"@]
}

/// Paths below a directory.
pub open spec fn all_below(root: Seq<char>, names: Seq<Seq<char>>) -> Seq<Seq<char>> {
    Seq::new(names.len(), |i: int| text_pushed(root, names[i]))
}

fn below(root: &str, names: &[&str]) -> (r: Vec<String>)
    ensures
        r@.len() == names@.len(),
        forall|i: int| 0 <= i < r@.len() ==> (#[trigger] r@[i])@ == text_pushed(root@, names@[i]@),
{
    let mut out: Vec<String> = Vec::new();
    let mut i: usize = 0;
    while i < names.len()
        invariant
            0 <= i <= names@.len(),
            out@.len() == i,
            forall|j: int|
                0 <= j < out@.len() ==> (#[trigger] out@[j])@ == text_pushed(root@, names@[j]@),
        decreases names@.len() - i,
    {
        out.push(push_text(root, names[i]));
        i += 1;
    }
    out
}

/// What to make for a new repository in the directory `root`. It is on the branch `master`, which
/// has no commit yet.
pub fn init(root: &str) -> (r: NewRepository)
    ensures
        views(r.dirs@) == all_below(root@, repository_dirs()),
        views(r.files@) == all_below(root@, repository_files()),
        r.head.0@ == text_pushed(root@, "HEAD"@),
        r.head.1@ == "ref: refs/heads/master\n"@,
{
    let mut names: Vec<&str> = Vec::new();
    names.push("branches");
    names.push("hooks");
    names.push("info");
    names.push("objects/info");
    names.push("objects/pack");
    names.push("refs/heads");
    names.push("refs/tags");
    let dirs = below(root, names.as_slice());
    assert(views(dirs@) =~= all_below(root@, repository_dirs()));
    let mut names: Vec<&str> = Vec::new();
    names.push("config");
    names.push("description");
    names.push("HEAD");
    let files = below(root, names.as_slice());
    assert(views(files@) =~= all_below(root@, repository_files()));
    let head = (
        push_text(root, "HEAD"),
        string_of(chars_of("ref: refs/heads/master\n").as_slice()),
    );
    NewRepository { dirs, files, head }
}

} // verus!
