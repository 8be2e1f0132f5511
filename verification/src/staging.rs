//! Staging: which files of the working directory are staged, and what that does to the index.
use crate::bytes::{copy_bytes, same_bytes};
use crate::ignore::{ignored, IgnoreRules, RulesModel};
use crate::index::{
    add_fault, add_index, index_path_bytes, mode_of_stat, staged_entry, times_fit, with_file,
    FileStat, IndexError, IndexFile, IndexModel,
};
use crate::object::{framed, hash_object, oid_of_raw, ObjectSha};
use crate::path_set::{key_path, path_of, path_set, set_of_paths};
use crate::text::{lemma_views_push, views};
use crate::unix_path::{push_path, pushed, relative_to, strip_root};
use vstd::prelude::*;

verus! {

/// Something in the file system, with its canonical path.
#[derive(Debug)]
pub enum WorkNode {
    /// A file or a symbolic link.
    Leaf { canon: Vec<u8> },
    /// A directory, and the names in it.
    Dir { canon: Vec<u8>, children: Vec<(Vec<u8>, WorkNode)> },
    /// Anything else.
    Other { canon: Vec<u8> },
}

/// The model of a [`WorkNode`].
#[verifier::ext_equal]
pub enum WorkModel {
    Leaf { canon: Seq<u8> },
    Dir { canon: Seq<u8>, children: Seq<(Seq<u8>, WorkModel)> },
    Other { canon: Seq<u8> },
}

impl View for WorkNode {
    type V = WorkModel;

    open spec fn view(&self) -> WorkModel {
        self.model()
    }
}

impl WorkNode {
    /// The model of the node.
    pub open spec fn model(self) -> WorkModel
        decreases self,
    {
        match self {
            WorkNode::Leaf { canon } => WorkModel::Leaf { canon: canon@ },
            WorkNode::Other { canon } => WorkModel::Other { canon: canon@ },
            WorkNode::Dir { canon, children } => WorkModel::Dir {
                canon: canon@,
                children: Seq::new(
                    children@.len(),
                    |i: int|
                        if 0 <= i < children@.len() {
                            (children@[i].0@, children@[i].1.model())
                        } else {
                            arbitrary()
                        },
                ),
            },
        }
    }

    /// The canonical path.
    pub fn canon(&self) -> (r: &[u8])
        ensures
            r@ == canon_of(self@),
    {
        match self {
            WorkNode::Leaf { canon } => canon.as_slice(),
            WorkNode::Dir { canon, .. } => canon.as_slice(),
            WorkNode::Other { canon } => canon.as_slice(),
        }
    }
}

/// The models of what a directory holds.
pub open spec fn work_models(c: Seq<(Vec<u8>, WorkNode)>) -> Seq<(Seq<u8>, WorkModel)> {
    Seq::new(c.len(), |i: int| (c[i].0@, c[i].1@))
}

/// The canonical path of a node.
pub open spec fn canon_of(n: WorkModel) -> Seq<u8> {
    match n {
        WorkModel::Leaf { canon } => canon,
        WorkModel::Dir { canon, .. } => canon,
        WorkModel::Other { canon } => canon,
    }
}

/// Why paths cannot be staged.
#[derive(Debug)]
pub enum StageError {
    /// There is nothing to stage.
    NoPaths,
    /// A directory that is inside the repository.
    DirInRepo(Vec<u8>),
    /// A directory, where directories are not staged.
    NotRecursive(Vec<u8>),
    /// Neither a file, nor a link, nor a directory.
    Unsupported(Vec<u8>),
    /// A file that is inside the repository.
    InRepo(Vec<u8>),
    /// A path outside the working directory.
    NotUnderWorktree(Vec<u8>),
    /// A file that the index cannot hold.
    Index(IndexError),
}

/// The model of a [`StageError`].
#[verifier::ext_equal]
pub enum StageFault {
    NoPaths,
    DirInRepo(Seq<u8>),
    NotRecursive(Seq<u8>),
    Unsupported(Seq<u8>),
    InRepo(Seq<u8>),
    NotUnderWorktree(Seq<u8>),
    Index(IndexError),
}

impl View for StageError {
    type V = StageFault;

    open spec fn view(&self) -> StageFault {
        match *self {
            StageError::NoPaths => StageFault::NoPaths,
            StageError::DirInRepo(p) => StageFault::DirInRepo(p@),
            StageError::NotRecursive(p) => StageFault::NotRecursive(p@),
            StageError::Unsupported(p) => StageFault::Unsupported(p@),
            StageError::InRepo(p) => StageFault::InRepo(p@),
            StageError::NotUnderWorktree(p) => StageFault::NotUnderWorktree(p@),
            StageError::Index(e) => StageFault::Index(e),
        }
    }
}

/// Whether a path is the repository or inside it.
pub open spec fn in_repo(git_abs: Seq<u8>, path: Seq<u8>) -> bool {
    relative_to(git_abs, path) is Some
}

/// Whether a name in a directory is passed over.
pub open spec fn passed_over(git_abs: Seq<u8>, name: Seq<u8>, canon: Seq<u8>) -> bool {
    name == vstd::utf8::encode_utf8(".git"@) || name == vstd::utf8::encode_utf8(".gift"@)
        || in_repo(git_abs, canon)
}

/// The paths of the files and links at and below a path, in the order in which they are met.
pub open spec fn leaves_at(
    path: Seq<u8>,
    n: WorkModel,
    git_abs: Seq<u8>,
    recursive: bool,
) -> Result<Seq<Seq<u8>>, StageFault>
    decreases n, 0int,
{
    match n {
        WorkModel::Leaf { .. } => Ok(seq![path]),
        WorkModel::Other { .. } => Err(StageFault::Unsupported(path)),
        WorkModel::Dir { canon, children } => if in_repo(git_abs, canon) {
            Err(StageFault::DirInRepo(path))
        } else if !recursive {
            Err(StageFault::NotRecursive(path))
        } else {
            leaves_upto(path, children, children.len() as int, git_abs, recursive)
        },
    }
}

/// The paths of the files and links below the first `n` names in a directory.
pub open spec fn leaves_upto(
    path: Seq<u8>,
    children: Seq<(Seq<u8>, WorkModel)>,
    n: int,
    git_abs: Seq<u8>,
    recursive: bool,
) -> Result<Seq<Seq<u8>>, StageFault>
    decreases children, n,
{
    if n <= 0 || n > children.len() {
        Ok(Seq::empty())
    } else {
        let (name, child) = children[n - 1];
        match leaves_upto(path, children, n - 1, git_abs, recursive) {
            Err(e) => Err(e),
            Ok(before) => if passed_over(git_abs, name, canon_of(child)) {
                Ok(before)
            } else {
                match leaves_at(pushed(path, name), child, git_abs, recursive) {
                    Err(e) => Err(e),
                    Ok(more) => Ok(before + more),
                }
            },
        }
    }
}

proof fn lemma_leaves_stop(
    path: Seq<u8>,
    children: Seq<(Seq<u8>, WorkModel)>,
    n: int,
    m: int,
    git_abs: Seq<u8>,
    recursive: bool,
)
    requires
        0 <= n <= m <= children.len(),
        leaves_upto(path, children, n, git_abs, recursive) is Err,
    ensures
        leaves_upto(path, children, m, git_abs, recursive) == leaves_upto(
            path,
            children,
            n,
            git_abs,
            recursive,
        ),
    decreases m - n,
{
    if n < m {
        lemma_leaves_stop(path, children, n, m - 1, git_abs, recursive);
    }
}

/// Whether a name in a directory is passed over.
pub fn is_passed_over(git_abs: &[u8], name: &[u8], canon: &[u8]) -> (r: bool)
    ensures
        r == passed_over(git_abs@, name@, canon@),
{
    same_bytes(name, ".git".as_bytes()) || same_bytes(name, ".gift".as_bytes()) || strip_root(
        git_abs,
        canon,
    ).is_some()
}

fn collect_leaves(
    path: &[u8],
    n: &WorkNode,
    git_abs: &[u8],
    recursive: bool,
    out: &mut Vec<Vec<u8>>,
) -> (r: Result<(), StageError>)
    ensures
        (match r {
            Ok(_) => leaves_at(path@, n@, git_abs@, recursive) is Ok && views(final(out)@) == views(
                old(out)@,
            ) + leaves_at(path@, n@, git_abs@, recursive)->Ok_0,
            Err(e) => leaves_at(path@, n@, git_abs@, recursive) == Err::<
                Seq<Seq<u8>>,
                StageFault,
            >(e@),
        }),
    decreases n,
{
    let ghost before = views(out@);
    match n {
        WorkNode::Leaf { .. } => {
            let p = copy_bytes(path);
            proof {
                lemma_views_push(out@, p);
                assert(before.push(p@) =~= before + seq![p@]);
            }
            out.push(p);
            Ok(())
        },
        WorkNode::Other { .. } => Err(StageError::Unsupported(copy_bytes(path))),
        WorkNode::Dir { canon, children } => {
            if strip_root(git_abs, canon.as_slice()).is_some() {
                return Err(StageError::DirInRepo(copy_bytes(path)));
            }
            if !recursive {
                return Err(StageError::NotRecursive(copy_bytes(path)));
            }
            let ghost c = work_models(children@);
            assert(n@->Dir_children =~= c);
            let mut i: usize = 0;
            assert(before + Seq::<Seq<u8>>::empty() =~= before);
            while i < children.len()
                invariant
                    0 <= i <= children@.len(),
                    c == work_models(children@),
                    n@ == (WorkModel::Dir { canon: canon@, children: c }),
                    recursive,
                    !in_repo(git_abs@, canon@),
                    *n matches WorkNode::Dir { canon: nc, children: nch } && nch == *children,
                    leaves_upto(path@, c, i as int, git_abs@, recursive) is Ok,
                    views(out@) == before + leaves_upto(
                        path@,
                        c,
                        i as int,
                        git_abs@,
                        recursive,
                    )->Ok_0,
                decreases children@.len() - i,
            {
                let name = children[i].0.as_slice();
                let ghost a = leaves_upto(path@, c, i as int, git_abs@, recursive)->Ok_0;
                assert(c[i as int] == (children@[i as int].0@, children@[i as int].1@));
                if !is_passed_over(git_abs, name, children[i].1.canon()) {
                    let below = push_path(path, name);
                    assert(decreases_to!(n => children));
                    assert(decreases_to!(children => children@));
                    assert(decreases_to!(children@ => children@[i as int]));
                    match collect_leaves(
                        below.as_slice(),
                        &children[i].1,
                        git_abs,
                        recursive,
                        out,
                    ) {
                        Ok(_) => {
                            proof {
                                let b = leaves_at(
                                    below@,
                                    c[i as int].1,
                                    git_abs@,
                                    recursive,
                                )->Ok_0;
                                assert(before + a + b =~= before + (a + b));
                            }
                        },
                        Err(e) => {
                            proof {
                                lemma_leaves_stop(
                                    path@,
                                    c,
                                    i + 1,
                                    c.len() as int,
                                    git_abs@,
                                    recursive,
                                );
                            }
                            return Err(e);
                        },
                    }
                }
                i += 1;
            }
            Ok(())
        },
    }
}

/// The paths of the files and links at and below the first `n` of some paths.
pub open spec fn all_leaves(
    roots: Seq<(Seq<u8>, WorkModel)>,
    git_abs: Seq<u8>,
    recursive: bool,
) -> Result<Seq<Seq<u8>>, StageFault>
    decreases roots.len(),
{
    if roots.len() == 0 {
        Ok(Seq::empty())
    } else {
        match all_leaves(roots.drop_last(), git_abs, recursive) {
            Err(e) => Err(e),
            Ok(before) => match leaves_at(roots.last().0, roots.last().1, git_abs, recursive) {
                Err(e) => Err(e),
                Ok(more) => Ok(before + more),
            },
        }
    }
}

proof fn lemma_all_leaves_stop(
    roots: Seq<(Seq<u8>, WorkModel)>,
    git_abs: Seq<u8>,
    recursive: bool,
    i: int,
)
    requires
        0 <= i <= roots.len(),
        all_leaves(roots.subrange(0, i), git_abs, recursive) is Err,
    ensures
        all_leaves(roots, git_abs, recursive) == all_leaves(
            roots.subrange(0, i),
            git_abs,
            recursive,
        ),
    decreases roots.len() - i,
{
    if i == roots.len() {
        assert(roots.subrange(0, i) =~= roots);
    } else {
        assert(roots.subrange(0, i + 1).drop_last() =~= roots.subrange(0, i));
        lemma_all_leaves_stop(roots, git_abs, recursive, i + 1);
    }
}

/// The paths of a set, in its order.
pub open spec fn in_order(paths: Seq<Seq<u8>>) -> Seq<Seq<u8>> {
    let set = path_set(paths);
    Seq::new(set.len(), |i: int| key_path(set[i].0))
}

/// The files to stage for some paths.
pub open spec fn stage_list(
    roots: Seq<(Seq<u8>, WorkModel)>,
    git_abs: Seq<u8>,
    recursive: bool,
) -> Result<Seq<Seq<u8>>, StageFault> {
    if roots.len() == 0 {
        Err(StageFault::NoPaths)
    } else {
        match all_leaves(roots, git_abs, recursive) {
            Err(e) => Err(e),
            Ok(paths) => Ok(in_order(paths)),
        }
    }
}

/// The files and links to stage for some paths, each once and in order of the paths. `roots` says
/// what is at each of the paths.
pub fn leaves_to_stage(roots: &Vec<(Vec<u8>, WorkNode)>, git_abs: &[u8], recursive_dirs: bool) -> (r:
    Result<Vec<Vec<u8>>, StageError>)
    ensures
        (match r {
            Ok(v) => stage_list(work_models(roots@), git_abs@, recursive_dirs) == Ok::<
                Seq<Seq<u8>>,
                StageFault,
            >(views(v@)),
            Err(e) => stage_list(work_models(roots@), git_abs@, recursive_dirs) == Err::<
                Seq<Seq<u8>>,
                StageFault,
            >(e@),
        }),
{
    if roots.len() == 0 {
        return Err(StageError::NoPaths);
    }
    let ghost all = work_models(roots@);
    let mut paths: Vec<Vec<u8>> = Vec::new();
    let mut i: usize = 0;
    assert(all.subrange(0, 0) =~= Seq::empty());
    assert(views(paths@) =~= Seq::empty());
    while i < roots.len()
        invariant
            0 <= i <= roots@.len(),
            roots@.len() > 0,
            all == work_models(roots@),
            all_leaves(all.subrange(0, i as int), git_abs@, recursive_dirs) == Ok::<
                Seq<Seq<u8>>,
                StageFault,
            >(views(paths@)),
        decreases roots@.len() - i,
    {
        proof {
            let upto = all.subrange(0, i + 1);
            assert(upto.drop_last() =~= all.subrange(0, i as int));
            assert(upto.last() == (roots@[i as int].0@, roots@[i as int].1@));
        }
        match collect_leaves(
            roots[i].0.as_slice(),
            &roots[i].1,
            git_abs,
            recursive_dirs,
            &mut paths,
        ) {
            Ok(_) => {},
            Err(e) => {
                proof {
                    lemma_all_leaves_stop(all, git_abs@, recursive_dirs, i + 1);
                }
                return Err(e);
            },
        }
        i += 1;
    }
    assert(all.subrange(0, i as int) =~= all);
    let set = set_of_paths(&paths);
    let ghost goal = in_order(views(paths@));
    let mut out: Vec<Vec<u8>> = Vec::new();
    let mut k: usize = 0;
    while k < set.len()
        invariant
            0 <= k <= set@.len(),
            goal.len() == set@.len(),
            forall|j: int| 0 <= j < goal.len() ==> #[trigger] goal[j] == key_path(set@[j].0),
            views(out@) == goal.subrange(0, k as int),
        decreases set@.len() - k,
    {
        let p = path_of(set.key_at(k).as_slice());
        proof {
            lemma_views_push(out@, p);
        }
        out.push(p);
        k += 1;
        assert(views(out@) =~= goal.subrange(0, k as int));
    }
    assert(views(out@) =~= goal);
    Ok(out)
}

/// A file or link to stage: its path, its canonical path, what the file system says of it, and its
/// content.
#[derive(Debug)]
pub struct StageFile {
    pub path: Vec<u8>,
    pub canon: Vec<u8>,
    pub stat: FileStat,
    pub content: Vec<u8>,
}

/// The model of a [`StageFile`].
#[verifier::ext_equal]
pub struct StageModel {
    pub path: Seq<u8>,
    pub canon: Seq<u8>,
    pub stat: FileStat,
    pub content: Seq<u8>,
}

impl View for StageFile {
    type V = StageModel;

    open spec fn view(&self) -> StageModel {
        StageModel {
            path: self.path@,
            canon: self.canon@,
            stat: self.stat,
            content: self.content@,
        }
    }
}

/// The index, and the loose forms of the blobs to store, after some files are staged.
#[verifier::ext_equal]
pub struct StagedModel {
    pub index: IndexModel,
    pub blobs: Seq<(ObjectSha, Seq<u8>)>,
}

/// What is kept after one more file is staged. A file that is ignored is passed over, unless the
/// index has it already.
pub open spec fn with_staged(
    s: StagedModel,
    git_abs: Seq<u8>,
    rules: RulesModel,
    f: StageModel,
) -> Result<StagedModel, StageFault> {
    if in_repo(git_abs, f.canon) {
        Err(StageFault::InRepo(f.path))
    } else {
        match entry_of(rules.worktree, f.path) {
            Err(e) => Err(StageFault::Index(e)),
            Ok(entry) => if ignored(rules, f.path) && staged_entry(s.index.entries, entry) is None {
                Ok(s)
            } else {
                let raw = framed("blob"@, f.content);
                let oid = oid_of_raw(raw);
                match add_fault(f.stat, entry, oid) {
                    Some(e) => Err(StageFault::Index(e)),
                    None => Ok(
                        StagedModel {
                            index: IndexModel {
                                entries: with_file(s.index.entries, f.stat, entry, oid),
                                ..s.index
                            },
                            blobs: s.blobs.push((oid, raw)),
                        },
                    ),
                }
            },
        }
    }
}

/// The path by which the index knows a file.
pub open spec fn entry_of(worktree: Seq<u8>, path: Seq<u8>) -> Result<Seq<u8>, IndexError> {
    match relative_to(worktree, path) {
        None => Err(IndexError::NotUnderRoot),
        Some(rel) => crate::index::index_form(rel),
    }
}

/// What is kept after all files are staged, up to the first that cannot be.
pub open spec fn staged_files(
    index: IndexModel,
    git_abs: Seq<u8>,
    rules: RulesModel,
    files: Seq<StageModel>,
) -> Result<StagedModel, StageFault>
    decreases files.len(),
{
    if files.len() == 0 {
        Ok(StagedModel { index, blobs: Seq::empty() })
    } else {
        match staged_files(index, git_abs, rules, files.drop_last()) {
            Err(e) => Err(e),
            Ok(s) => with_staged(s, git_abs, rules, files.last()),
        }
    }
}

proof fn lemma_staged_stops(
    index: IndexModel,
    git_abs: Seq<u8>,
    rules: RulesModel,
    files: Seq<StageModel>,
    i: int,
)
    requires
        0 <= i <= files.len(),
        staged_files(index, git_abs, rules, files.subrange(0, i)) is Err,
    ensures
        staged_files(index, git_abs, rules, files) == staged_files(
            index,
            git_abs,
            rules,
            files.subrange(0, i),
        ),
    decreases files.len() - i,
{
    if i == files.len() {
        assert(files.subrange(0, i) =~= files);
    } else {
        assert(files.subrange(0, i + 1).drop_last() =~= files.subrange(0, i));
        lemma_staged_stops(index, git_abs, rules, files, i + 1);
    }
}

/// Whether the index can remember the times of a file, and the file is a regular one or a link.
pub open spec fn stageable(s: FileStat) -> bool {
    times_fit(s) && mode_of_stat(s) is Some
}

fn stage_file(
    index: &mut IndexFile,
    git_abs: &[u8],
    rules: &IgnoreRules,
    f: &StageFile,
    blobs: &mut Vec<(ObjectSha, Vec<u8>)>,
) -> (r: Result<(), StageError>)
    requires
        stageable(f.stat),
    ensures
        (match with_staged(
            StagedModel {
                index: old(index)@,
                blobs: crate::index_tree::raw_objects(old(blobs)@),
            },
            git_abs@,
            rules@,
            f@,
        ) {
            Err(e) => r is Err && r->Err_0@ == e,
            Ok(s) => r is Ok && final(index)@ == s.index && crate::index_tree::raw_objects(
                final(blobs)@,
            ) == s.blobs,
        }),
{
    if strip_root(git_abs, f.canon.as_slice()).is_some() {
        return Err(StageError::InRepo(copy_bytes(f.path.as_slice())));
    }
    let entry = match index_path_bytes(rules.worktree(), f.path.as_slice()) {
        Ok(p) => p,
        Err(e) => return Err(StageError::Index(e)),
    };
    if rules.is_ignored(f.path.as_slice()) && index.get_entry(entry.as_slice()).is_none() {
        return Ok(());
    }
    let (oid, raw) = hash_object(f.content.as_slice());
    let ghost before = crate::index_tree::raw_objects(blobs@);
    match add_index(index, &f.stat, entry, oid) {
        Err(e) => Err(StageError::Index(e)),
        Ok(_) => {
            let ghost raw_bytes = raw@;
            blobs.push((oid, raw));
            assert(crate::index_tree::raw_objects(blobs@) =~= before.push((oid, raw_bytes)));
            Ok(())
        },
    }
}

/// Stages files: brings the index up to date, and gives the blobs to store, each with its id and its
/// loose form.
pub fn stage_paths(
    index: &mut IndexFile,
    git_abs: &[u8],
    rules: &IgnoreRules,
    files: &Vec<StageFile>,
) -> (r: Result<Vec<(ObjectSha, Vec<u8>)>, StageError>)
    requires
        forall|i: int| 0 <= i < files@.len() ==> stageable((#[trigger] files@[i]).stat),
    ensures
        (match staged_files(old(index)@, git_abs@, rules@, views(files@)) {
            Err(e) => r is Err && r->Err_0@ == e,
            Ok(s) => r is Ok && final(index)@ == s.index && crate::index_tree::raw_objects(
                r->Ok_0@,
            ) == s.blobs,
        }),
{
    let ghost start = index@;
    let ghost all = views(files@);
    let mut blobs: Vec<(ObjectSha, Vec<u8>)> = Vec::new();
    let mut i: usize = 0;
    assert(all.subrange(0, 0) =~= Seq::empty());
    assert(crate::index_tree::raw_objects(blobs@) =~= Seq::empty());
    while i < files.len()
        invariant
            0 <= i <= files@.len(),
            all == views(files@),
            start == old(index)@,
            forall|k: int| 0 <= k < files@.len() ==> stageable((#[trigger] files@[k]).stat),
            staged_files(start, git_abs@, rules@, all.subrange(0, i as int)) == Ok::<
                StagedModel,
                StageFault,
            >(
                StagedModel { index: index@, blobs: crate::index_tree::raw_objects(blobs@) },
            ),
        decreases files@.len() - i,
    {
        proof {
            let upto = all.subrange(0, i + 1);
            assert(upto.drop_last() =~= all.subrange(0, i as int));
            assert(upto.last() == files@[i as int]@);
        }
        match stage_file(index, git_abs, rules, &files[i], &mut blobs) {
            Ok(_) => {},
            Err(e) => {
                proof {
                    lemma_staged_stops(start, git_abs@, rules@, all, i + 1);
                }
                return Err(e);
            },
        }
        i += 1;
    }
    assert(all.subrange(0, i as int) =~= all);
    Ok(blobs)
}

/// The path that a given one stands for, seen from a directory.
pub fn stage_candidate(cwd: &[u8], input: &[u8]) -> (r: Vec<u8>)
    ensures
        r@ == pushed(cwd@, input@),
{
    push_path(cwd, input)
}

/// What keeps the first of some canonical paths that is to be refused from being staged.
pub open spec fn input_fault(
    canons: Seq<Seq<u8>>,
    worktree: Seq<u8>,
    git_abs: Seq<u8>,
) -> Option<StageFault>
    decreases canons.len(),
{
    if canons.len() == 0 {
        None
    } else if relative_to(worktree, canons[0]) is None {
        Some(StageFault::NotUnderWorktree(canons[0]))
    } else if in_repo(git_abs, canons[0]) {
        Some(StageFault::InRepo(canons[0]))
    } else {
        input_fault(canons.drop_first(), worktree, git_abs)
    }
}

/// Checks that canonical paths are in the working directory and not in the repository.
pub fn resolve_stage_inputs(canons: &Vec<Vec<u8>>, worktree: &[u8], git_abs: &[u8]) -> (r: Result<
    (),
    StageError,
>)
    ensures
        (match input_fault(views(canons@), worktree@, git_abs@) {
            Some(f) => r is Err && r->Err_0@ == f,
            None => r is Ok,
        }),
{
    let ghost all = views(canons@);
    let mut i: usize = 0;
    assert(all.subrange(0, all.len() as int) =~= all);
    while i < canons.len()
        invariant
            0 <= i <= canons@.len(),
            all == views(canons@),
            input_fault(all, worktree@, git_abs@) == input_fault(
                all.subrange(i as int, all.len() as int),
                worktree@,
                git_abs@,
            ),
        decreases canons@.len() - i,
    {
        proof {
            let rest = all.subrange(i as int, all.len() as int);
            assert(rest[0] == canons@[i as int]@);
            assert(rest.drop_first() =~= all.subrange(i + 1, all.len() as int));
        }
        let p = canons[i].as_slice();
        if strip_root(worktree, p).is_none() {
            return Err(StageError::NotUnderWorktree(copy_bytes(p)));
        }
        if strip_root(git_abs, p).is_some() {
            return Err(StageError::InRepo(copy_bytes(p)));
        }
        i += 1;
    }
    Ok(())
}

} // verus!
