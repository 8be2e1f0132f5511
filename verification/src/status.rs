//! The state of the working directory: what is staged, what is changed, and what is not tracked.
use crate::byte_map::{bind, lookup, ByteMap};
use crate::bytes::{copy_bytes, same_bytes};
use crate::commit_object::{commit_at, CommitObject};
use crate::head::{current, head_in, Head};
use crate::ignore::{ignored, IgnoreRules, RulesModel};
use crate::index::{
    conflicted, entry_of_file, index_form, law_staged_once, normalize_entry_path_bytes,
    staged_entry, with_file, Entry, EntryModel, FileStat, IndexError, IndexFile,
};
use crate::object::{
    framed, hash_object, oid_of_raw, tree_in, FileMode, ObjectError, ObjectSha, TreeEntry,
    TreeObject,
};
use crate::object_db::ObjectDb;
use crate::text::{lemma_views_push, opt_view, views};
use crate::unix_path::{join, joined, push_path, pushed};
use vstd::prelude::*;

verus! {

/// How a file changed.
#[derive(Clone, Copy, PartialEq, Eq, Structural, Debug)]
pub enum ChangeType {
    NewFile,
    Modified,
    Deleted,
    /// A merge left it to be resolved.
    Conflicted,
}

/// A file that changed.
#[derive(Debug)]
pub struct StatusEntry {
    pub path: Vec<u8>,
    pub change_type: ChangeType,
}

impl View for StatusEntry {
    type V = (Seq<u8>, ChangeType);

    open spec fn view(&self) -> (Seq<u8>, ChangeType) {
        (self.path@, self.change_type)
    }
}

/// The state of the working directory.
#[derive(Debug)]
pub struct Status {
    /// What differs between the last commit and the index.
    pub staged: Vec<StatusEntry>,
    /// What differs between the index and the working directory.
    pub unstaged: Vec<StatusEntry>,
    /// Files that the index does not know.
    pub untracked: Vec<Vec<u8>>,
}

/// The files of the last commit: their paths and their blobs.
pub struct HeadTree {
    entries: ByteMap<ObjectSha>,
}

impl View for HeadTree {
    type V = Seq<(Seq<u8>, ObjectSha)>;

    closed spec fn view(&self) -> Seq<(Seq<u8>, ObjectSha)> {
        self.entries@
    }
}

impl HeadTree {
    /// The blob at a path.
    pub fn get_hash(&self, path: &[u8]) -> (r: Option<&ObjectSha>)
        ensures
            (match r {
                Some(o) => lookup(self@, path@) == Some(*o),
                None => lookup(self@, path@) is None,
            }),
    {
        self.entries.get(path)
    }

    /// Whether there is a file at a path.
    pub fn contains_path(&self, path: &[u8]) -> (r: bool)
        ensures
            r == lookup(self@, path@) is Some,
    {
        self.entries.contains(path)
    }

    /// All files.
    pub fn entries(&self) -> (r: &ByteMap<ObjectSha>)
        ensures
            r@ == self@,
    {
        &self.entries
    }
}

/// The files with those added that an entry of a tree stands for: the one at its path, or all
/// below it.
pub open spec fn with_entry_files(
    db: Map<ObjectSha, Seq<u8>>,
    files: Seq<(Seq<u8>, ObjectSha)>,
    e: TreeEntry,
    path: Seq<u8>,
    depth: nat,
) -> Result<Seq<(Seq<u8>, ObjectSha)>, ObjectError>
    decreases depth, 0nat,
{
    if e.file_mode == FileMode::Directory {
        match tree_in(db, e.object_name) {
            Err(x) => Err(x),
            Ok(entries) => if depth == 0 {
                Err(ObjectError::Cyclic(e.object_name))
            } else {
                with_tree_files(db, files, entries, path, (depth - 1) as nat)
            },
        }
    } else {
        Ok(bind(files, path, e.object_name))
    }
}

/// The files with those of a tree added.
pub open spec fn with_tree_files(
    db: Map<ObjectSha, Seq<u8>>,
    files: Seq<(Seq<u8>, ObjectSha)>,
    entries: Seq<(Seq<u8>, TreeEntry)>,
    dir: Seq<u8>,
    depth: nat,
) -> Result<Seq<(Seq<u8>, ObjectSha)>, ObjectError>
    decreases depth, 1 + entries.len(),
{
    if entries.len() == 0 {
        Ok(files)
    } else {
        let (name, e) = entries.last();
        match with_tree_files(db, files, entries.drop_last(), dir, depth) {
            Err(x) => Err(x),
            Ok(before) => with_entry_files(db, before, e, joined(dir, name), depth),
        }
    }
}

/// The files of a tree, by path.
pub open spec fn tree_files(
    db: Map<ObjectSha, Seq<u8>>,
    tree: Seq<(Seq<u8>, TreeEntry)>,
    depth: nat,
) -> Result<Seq<(Seq<u8>, ObjectSha)>, ObjectError> {
    with_tree_files(db, Seq::empty(), tree, Seq::empty(), depth)
}

/// The files of the last commit; nothing if there is none. `head` is the content of `HEAD`, and
/// `tip` that of the reference of its branch.
pub open spec fn head_files(
    db: Map<ObjectSha, Seq<u8>>,
    head: Seq<char>,
    tip: Option<Seq<char>>,
    depth: nat,
) -> Result<Option<Seq<(Seq<u8>, ObjectSha)>>, ObjectError> {
    match head_in(head) {
        Err(_) => Ok(None),
        Ok(h) => match current(db, h, tip) {
            Err(_) => Ok(None),
            Ok(oid) => match commit_at(db, oid) {
                Err(e) => Err(e),
                Ok(c) => match tree_in(db, c.tree) {
                    Err(e) => Err(e),
                    Ok(tree) => match tree_files(db, tree, depth) {
                        Err(e) => Err(e),
                        Ok(f) => Ok(Some(f)),
                    },
                },
            },
        },
    }
}

proof fn lemma_tree_files_stop(
    db: Map<ObjectSha, Seq<u8>>,
    files: Seq<(Seq<u8>, ObjectSha)>,
    entries: Seq<(Seq<u8>, TreeEntry)>,
    dir: Seq<u8>,
    depth: nat,
    i: int,
)
    requires
        0 <= i <= entries.len(),
        with_tree_files(db, files, entries.subrange(0, i), dir, depth) is Err,
    ensures
        with_tree_files(db, files, entries, dir, depth) == with_tree_files(
            db,
            files,
            entries.subrange(0, i),
            dir,
            depth,
        ),
    decreases entries.len() - i,
{
    if i == entries.len() {
        assert(entries.subrange(0, i) =~= entries);
    } else {
        assert(entries.subrange(0, i + 1).drop_last() =~= entries.subrange(0, i));
        lemma_tree_files_stop(db, files, entries, dir, depth, i + 1);
    }
}

fn traverse_entry(
    db: &ObjectDb,
    e: &TreeEntry,
    path: Vec<u8>,
    depth: usize,
    files: &mut ByteMap<ObjectSha>,
) -> (r: Result<(), ObjectError>)
    ensures
        (match with_entry_files(db@, old(files)@, *e, path@, depth as nat) {
            Ok(m) => r is Ok && final(files)@ == m,
            Err(x) => r == Err::<(), ObjectError>(x),
        }),
    decreases depth, 0nat,
{
    if e.file_mode == FileMode::Directory {
        let tree = match TreeObject::read_loose_tree(db, &e.object_name) {
            Ok(t) => t,
            Err(x) => return Err(x),
        };
        if depth == 0 {
            return Err(ObjectError::Cyclic(e.object_name));
        }
        traverse_tree(db, tree.entries(), path.as_slice(), depth - 1, files)
    } else {
        files.insert(path, e.object_name);
        Ok(())
    }
}

fn traverse_tree(
    db: &ObjectDb,
    entries: &ByteMap<TreeEntry>,
    dir: &[u8],
    depth: usize,
    files: &mut ByteMap<ObjectSha>,
) -> (r: Result<(), ObjectError>)
    ensures
        (match with_tree_files(db@, old(files)@, entries@, dir@, depth as nat) {
            Ok(m) => r is Ok && final(files)@ == m,
            Err(x) => r == Err::<(), ObjectError>(x),
        }),
    decreases depth, 1nat,
{
    let ghost before = files@;
    let mut i: usize = 0;
    assert(entries@.subrange(0, 0) =~= Seq::empty());
    while i < entries.len()
        invariant
            0 <= i <= entries@.len(),
            before == old(files)@,
            with_tree_files(db@, before, entries@.subrange(0, i as int), dir@, depth as nat)
                == Ok::<Seq<(Seq<u8>, ObjectSha)>, ObjectError>(files@),
        decreases entries@.len() - i,
    {
        proof {
            let upto = entries@.subrange(0, i + 1);
            assert(upto.drop_last() =~= entries@.subrange(0, i as int));
            assert(upto.last() == entries@[i as int]);
        }
        let path = join(dir, entries.key_at(i).as_slice());
        match traverse_entry(db, entries.value_at(i), path, depth, files) {
            Ok(_) => {},
            Err(x) => {
                proof {
                    lemma_tree_files_stop(db@, before, entries@, dir@, depth as nat, i + 1);
                }
                return Err(x);
            },
        }
        i += 1;
    }
    assert(entries@.subrange(0, i as int) =~= entries@);
    Ok(())
}

/// The files of the last commit; nothing if there is none. `head` is the content of `HEAD`, and
/// `tip` that of the reference of its branch, if it exists.
pub fn load_head_tree(db: &ObjectDb, head: &str, tip: Option<&str>) -> (r: Result<
    Option<HeadTree>,
    ObjectError,
>)
    ensures
        (match r {
            Ok(t) => head_files(db@, head@, opt_view(tip), db.count()) == Ok::<
                Option<Seq<(Seq<u8>, ObjectSha)>>,
                ObjectError,
            >(opt_view(t)),
            Err(e) => head_files(db@, head@, opt_view(tip), db.count()) == Err::<
                Option<Seq<(Seq<u8>, ObjectSha)>>,
                ObjectError,
            >(e),
        }),
{
    let h = match Head::read(head) {
        Ok(h) => h,
        Err(_) => return Ok(None),
    };
    let oid = match h.current_commit(db, tip) {
        Ok(oid) => oid,
        Err(_) => return Ok(None),
    };
    let commit = match CommitObject::read_loose_commit(db, &oid) {
        Ok(c) => c,
        Err(e) => return Err(e),
    };
    let tree = match TreeObject::read_loose_tree(db, &commit.tree) {
        Ok(t) => t,
        Err(e) => return Err(e),
    };
    let mut entries: ByteMap<ObjectSha> = ByteMap::new();
    let root: Vec<u8> = Vec::new();
    match traverse_tree(db, tree.entries(), root.as_slice(), db.len(), &mut entries) {
        Err(e) => Err(e),
        Ok(_) => Ok(Some(HeadTree { entries })),
    }
}

/// What an index entry is against the last commit.
pub open spec fn entry_change(e: EntryModel, head: Option<Seq<(Seq<u8>, ObjectSha)>>) -> Option<
    ChangeType,
> {
    match head {
        None => Some(ChangeType::NewFile),
        Some(h) => match lookup(h, e.path) {
            None => Some(ChangeType::NewFile),
            Some(oid) => if oid != e.obj_name {
                Some(ChangeType::Modified)
            } else {
                None
            },
        },
    }
}

/// The entries that differ from the last commit.
pub open spec fn changed_entries(
    entries: Seq<EntryModel>,
    head: Option<Seq<(Seq<u8>, ObjectSha)>>,
) -> Seq<(Seq<u8>, ChangeType)>
    decreases entries.len(),
{
    if entries.len() == 0 {
        Seq::empty()
    } else {
        let before = changed_entries(entries.drop_last(), head);
        match entry_change(entries.last(), head) {
            Some(c) => before.push((entries.last().path, c)),
            None => before,
        }
    }
}

/// The files of the last commit that the index does not have.
pub open spec fn dropped_files(
    entries: Seq<EntryModel>,
    head: Seq<(Seq<u8>, ObjectSha)>,
) -> Seq<(Seq<u8>, ChangeType)>
    decreases head.len(),
{
    if head.len() == 0 {
        Seq::empty()
    } else {
        let before = dropped_files(entries, head.drop_last());
        let path = head.last().0;
        if staged_entry(entries, path) is None {
            before.push((path, ChangeType::Deleted))
        } else {
            before
        }
    }
}

/// What differs between the last commit and the index.
pub open spec fn staged_changes(
    entries: Seq<EntryModel>,
    head: Option<Seq<(Seq<u8>, ObjectSha)>>,
) -> Seq<(Seq<u8>, ChangeType)> {
    changed_entries(entries, head) + (match head {
        Some(h) => dropped_files(entries, h),
        None => Seq::empty(),
    })
}

/// What differs between the last commit and the index.
pub fn detect_staged_changes(index: &IndexFile, head_tree: &Option<HeadTree>) -> (r: Vec<
    StatusEntry,
>)
    ensures
        views(r@) == staged_changes(index@.entries, opt_view(*head_tree)),
{
    let ghost all = index@.entries;
    let ghost head = opt_view(*head_tree);
    let entries = index.entries();
    let mut staged: Vec<StatusEntry> = Vec::new();
    let mut i: usize = 0;
    assert(all.subrange(0, 0) =~= Seq::empty());
    assert(views(staged@) =~= Seq::empty());
    while i < entries.len()
        invariant
            0 <= i <= entries@.len(),
            all == views(entries@),
            head == opt_view(*head_tree),
            views(staged@) == changed_entries(all.subrange(0, i as int), head),
        decreases entries@.len() - i,
    {
        proof {
            let upto = all.subrange(0, i + 1);
            assert(upto.drop_last() =~= all.subrange(0, i as int));
            assert(upto.last() == entries@[i as int]@);
        }
        let e = &entries[i];
        let change = match head_tree {
            None => Some(ChangeType::NewFile),
            Some(h) => match h.get_hash(e.path()) {
                None => Some(ChangeType::NewFile),
                Some(oid) => {
                    if *oid != *e.obj_name() {
                        Some(ChangeType::Modified)
                    } else {
                        None
                    }
                },
            },
        };
        if let Some(change_type) = change {
            let s = StatusEntry { path: copy_bytes(e.path()), change_type };
            proof {
                lemma_views_push(staged@, s);
            }
            staged.push(s);
        }
        i += 1;
    }
    assert(all.subrange(0, i as int) =~= all);
    let ghost first = views(staged@);
    match head_tree {
        None => {
            assert(first + Seq::empty() =~= first);
        },
        Some(h) => {
            let files = h.entries();
            let mut k: usize = 0;
            assert(files@.subrange(0, 0) =~= Seq::empty());
            assert(first + Seq::empty() =~= first);
            while k < files.len()
                invariant
                    0 <= k <= files@.len(),
                    all == index@.entries,
                    views(staged@) == first + dropped_files(all, files@.subrange(0, k as int)),
                decreases files@.len() - k,
            {
                proof {
                    let upto = files@.subrange(0, k + 1);
                    assert(upto.drop_last() =~= files@.subrange(0, k as int));
                    assert(upto.last() == files@[k as int]);
                }
                let ghost before = dropped_files(all, files@.subrange(0, k as int));
                let path = files.key_at(k).as_slice();
                if index.get_entry(path).is_none() {
                    let s = StatusEntry {
                        path: copy_bytes(path),
                        change_type: ChangeType::Deleted,
                    };
                    proof {
                        lemma_views_push(staged@, s);
                        assert((first + before).push(s@) =~= first + before.push(s@));
                    }
                    staged.push(s);
                }
                k += 1;
            }
            assert(files@.subrange(0, k as int) =~= files@);
        },
    }
    staged
}

/// Whether what the file system says of a file differs from what the index remembers.
pub open spec fn stat_changed(s: FileStat, e: EntryModel) -> bool {
    ||| s.size != e.file_size
    ||| s.mtime_sec != e.mtime_sec
    ||| s.mtime_nsec != e.mtime_nsec
    ||| s.ctime_sec != e.ctime_sec
    ||| s.ctime_nsec != e.ctime_nsec
    ||| s.ino != e.ino
    ||| s.dev != e.dev
}

fn is_stat_changed(s: &FileStat, e: &Entry) -> (r: bool)
    ensures
        r == stat_changed(*s, e@),
{
    s.size != e.file_size() as u64 || s.mtime_sec != e.mtime_sec() as i64 || s.mtime_nsec
        != e.mtime_nsec() as i64 || s.ctime_sec != e.ctime_sec() as i64 || s.ctime_nsec
        != e.ctime_nsec() as i64 || s.ino != e.ino() as u64 || s.dev != e.dev() as u64
}

/// A file or link of the working directory: its path there, what the file system says of it, and
/// its content, where that was read.
#[derive(Debug)]
pub struct WorkFile {
    pub path: Vec<u8>,
    pub stat: FileStat,
    pub content: Option<Vec<u8>>,
}

/// The model of a [`WorkFile`].
#[verifier::ext_equal]
pub struct FileModel {
    pub path: Seq<u8>,
    pub stat: FileStat,
    pub content: Option<Seq<u8>>,
}

impl View for WorkFile {
    type V = FileModel;

    open spec fn view(&self) -> FileModel {
        FileModel { path: self.path@, stat: self.stat, content: opt_view(self.content) }
    }
}

/// Why the state cannot be told.
#[derive(Debug)]
pub enum StatusError {
    /// A path cannot be that of an index entry.
    Index(IndexError),
    /// The content of this file is needed and was not read.
    Unread(Vec<u8>),
}

/// The model of a [`StatusError`].
#[verifier::ext_equal]
pub enum StatusFault {
    Index(IndexError),
    Unread(Seq<u8>),
}

impl View for StatusError {
    type V = StatusFault;

    open spec fn view(&self) -> StatusFault {
        match *self {
            StatusError::Index(e) => StatusFault::Index(e),
            StatusError::Unread(p) => StatusFault::Unread(p@),
        }
    }
}

/// What a scan of the working directory found.
#[verifier::ext_equal]
pub struct ScanModel {
    pub unstaged: Seq<(Seq<u8>, ChangeType)>,
    pub untracked: Seq<Seq<u8>>,
    /// The index paths of the files that the index knows.
    pub seen: Seq<(Seq<u8>, ())>,
}

/// The findings with one more file.
pub open spec fn with_file_seen(
    found: ScanModel,
    entries: Seq<EntryModel>,
    rules: RulesModel,
    f: FileModel,
) -> Result<ScanModel, StatusFault> {
    match index_form(f.path) {
        Err(e) => Err(StatusFault::Index(e)),
        Ok(path) => {
            let seen = bind(found.seen, path, ());
            match staged_entry(entries, path) {
                Some(e) => if !stat_changed(f.stat, e) {
                    Ok(ScanModel { seen, ..found })
                } else {
                    match f.content {
                        None => Err(StatusFault::Unread(f.path)),
                        Some(content) => if oid_of_raw(framed("blob"@, content)) == e.obj_name {
                            Ok(ScanModel { seen, ..found })
                        } else {
                            Ok(
                                ScanModel {
                                    unstaged: found.unstaged.push((f.path, ChangeType::Modified)),
                                    seen,
                                    ..found
                                },
                            )
                        },
                    }
                },
                None => if conflicted(entries, path) {
                    Ok(
                        ScanModel {
                            unstaged: found.unstaged.push((f.path, ChangeType::Conflicted)),
                            seen,
                            ..found
                        },
                    )
                } else if ignored(rules, pushed(rules.worktree, f.path)) {
                    Ok(found)
                } else {
                    Ok(ScanModel { untracked: found.untracked.push(f.path), ..found })
                },
            }
        },
    }
}

/// What a look at the files finds, up to the first that cannot be told.
pub open spec fn scanned(
    entries: Seq<EntryModel>,
    rules: RulesModel,
    files: Seq<FileModel>,
) -> Result<ScanModel, StatusFault>
    decreases files.len(),
{
    if files.len() == 0 {
        Ok(ScanModel { unstaged: Seq::empty(), untracked: Seq::empty(), seen: Seq::empty() })
    } else {
        match scanned(entries, rules, files.drop_last()) {
            Err(e) => Err(e),
            Ok(found) => with_file_seen(found, entries, rules, files.last()),
        }
    }
}

/// The entries whose files are gone: neither seen nor there in another form.
pub open spec fn gone_entries(
    entries: Seq<EntryModel>,
    seen: Seq<(Seq<u8>, ())>,
    existing: Seq<Seq<u8>>,
) -> Seq<(Seq<u8>, ChangeType)>
    decreases entries.len(),
{
    if entries.len() == 0 {
        Seq::empty()
    } else {
        let before = gone_entries(entries.drop_last(), seen, existing);
        let e = entries.last();
        if e.merge_stage == 0 && !existing.contains(e.path) && lookup(seen, e.path) is None {
            before.push((e.path, ChangeType::Deleted))
        } else {
            before
        }
    }
}

/// Whether the content of a file of the working directory is needed to tell its state: the index
/// knows the file, and the file system says other things of it than the index remembers.
pub fn needs_content(index: &IndexFile, path: &[u8], stat: &FileStat) -> (r: bool)
    ensures
        r == (index_form(path@) matches Ok(p) && staged_entry(index@.entries, p) matches Some(e)
            && stat_changed(*stat, e)),
{
    match normalize_entry_path_bytes(path) {
        Err(_) => false,
        Ok(p) => match index.get_entry(p.as_slice()) {
            None => false,
            Some(e) => is_stat_changed(stat, e),
        },
    }
}

fn contains_bytes(list: &Vec<Vec<u8>>, b: &[u8]) -> (r: bool)
    ensures
        r == views(list@).contains(b@),
{
    let ghost all = views(list@);
    let mut i: usize = 0;
    while i < list.len()
        invariant
            0 <= i <= list@.len(),
            all == views(list@),
            forall|k: int| 0 <= k < i ==> #[trigger] all[k] != b@,
        decreases list@.len() - i,
    {
        if same_bytes(list[i].as_slice(), b) {
            assert(all[i as int] == b@);
            return true;
        }
        i += 1;
    }
    false
}

struct Scan {
    unstaged: Vec<StatusEntry>,
    untracked: Vec<Vec<u8>>,
    seen: ByteMap<()>,
}

impl View for Scan {
    type V = ScanModel;

    closed spec fn view(&self) -> ScanModel {
        ScanModel {
            unstaged: views(self.unstaged@),
            untracked: views(self.untracked@),
            seen: self.seen@,
        }
    }
}

impl Scan {
    fn push_unstaged(&mut self, path: &[u8], change_type: ChangeType)
        ensures
            final(self)@ == (ScanModel {
                unstaged: old(self)@.unstaged.push((path@, change_type)),
                ..old(self)@
            }),
    {
        let s = StatusEntry { path: copy_bytes(path), change_type };
        proof {
            lemma_views_push(self.unstaged@, s);
        }
        self.unstaged.push(s);
    }

    fn see(&mut self, index: &IndexFile, rules: &IgnoreRules, f: &WorkFile) -> (r: Result<
        (),
        StatusError,
    >)
        ensures
            (match with_file_seen(old(self)@, index@.entries, rules@, f@) {
                Ok(m) => r is Ok && final(self)@ == m,
                Err(e) => r is Err && r->Err_0@ == e,
            }),
    {
        let path = match normalize_entry_path_bytes(f.path.as_slice()) {
            Ok(p) => p,
            Err(e) => return Err(StatusError::Index(e)),
        };
        match index.get_entry(path.as_slice()) {
            Some(e) => {
                if is_stat_changed(&f.stat, e) {
                    match &f.content {
                        None => return Err(StatusError::Unread(copy_bytes(f.path.as_slice()))),
                        Some(content) => {
                            let (oid, _) = hash_object(content.as_slice());
                            if oid != *e.obj_name() {
                                self.push_unstaged(f.path.as_slice(), ChangeType::Modified);
                            }
                        },
                    }
                }
                self.seen.insert(path, ());
            },
            None => {
                if index.has_conflict_entries(path.as_slice()) {
                    self.push_unstaged(f.path.as_slice(), ChangeType::Conflicted);
                    self.seen.insert(path, ());
                } else {
                    let full = push_path(rules.worktree(), f.path.as_slice());
                    if !rules.is_ignored(full.as_slice()) {
                        let p = copy_bytes(f.path.as_slice());
                        proof {
                            lemma_views_push(self.untracked@, p);
                        }
                        self.untracked.push(p);
                    }
                }
            },
        }
        Ok(())
    }
}

proof fn lemma_scan_stops(
    entries: Seq<EntryModel>,
    rules: RulesModel,
    files: Seq<FileModel>,
    i: int,
)
    requires
        0 <= i <= files.len(),
        scanned(entries, rules, files.subrange(0, i)) is Err,
    ensures
        scanned(entries, rules, files) == scanned(entries, rules, files.subrange(0, i)),
    decreases files.len() - i,
{
    if i == files.len() {
        assert(files.subrange(0, i) =~= files);
    } else {
        assert(files.subrange(0, i + 1).drop_last() =~= files.subrange(0, i));
        lemma_scan_stops(entries, rules, files, i + 1);
    }
}

/// What differs between the index and the working directory, and the files that are not tracked.
/// `files` are all files and links of the working directory, outside the repository, and `existing`
/// the other paths that exist in it.
pub fn scan_worktree(
    index: &IndexFile,
    rules: &IgnoreRules,
    files: &Vec<WorkFile>,
    existing: &Vec<Vec<u8>>,
) -> (r: Result<(Vec<StatusEntry>, Vec<Vec<u8>>), StatusError>)
    ensures
        (match scanned(index@.entries, rules@, views(files@)) {
            Err(e) => r is Err && r->Err_0@ == e,
            Ok(m) => r is Ok && views(r->Ok_0.0@) == m.unstaged + gone_entries(
                index@.entries,
                m.seen,
                views(existing@),
            ) && views(r->Ok_0.1@) == m.untracked,
        }),
{
    let ghost all = views(files@);
    let mut scan = Scan { unstaged: Vec::new(), untracked: Vec::new(), seen: ByteMap::new() };
    let mut i: usize = 0;
    proof {
        assert(all.subrange(0, 0) =~= Seq::empty());
        assert(views(scan.unstaged@) =~= Seq::empty());
        assert(views(scan.untracked@) =~= Seq::empty());
    }
    while i < files.len()
        invariant
            0 <= i <= files@.len(),
            all == views(files@),
            scanned(index@.entries, rules@, all.subrange(0, i as int)) == Ok::<
                ScanModel,
                StatusFault,
            >(scan@),
        decreases files@.len() - i,
    {
        proof {
            let upto = all.subrange(0, i + 1);
            assert(upto.drop_last() =~= all.subrange(0, i as int));
            assert(upto.last() == files@[i as int]@);
        }
        match scan.see(index, rules, &files[i]) {
            Ok(_) => {},
            Err(e) => {
                proof {
                    lemma_scan_stops(index@.entries, rules@, all, i + 1);
                }
                return Err(e);
            },
        }
        i += 1;
    }
    assert(all.subrange(0, i as int) =~= all);
    let ghost first = views(scan.unstaged@);
    let ghost found = scan@;
    let entries = index.entries();
    let ghost ents = index@.entries;
    let mut unstaged = scan.unstaged;
    let seen = scan.seen;
    let mut k: usize = 0;
    assert(ents.subrange(0, 0) =~= Seq::empty());
    assert(first + Seq::empty() =~= first);
    while k < entries.len()
        invariant
            0 <= k <= entries@.len(),
            ents == views(entries@),
            views(unstaged@) == first + gone_entries(
                ents.subrange(0, k as int),
                seen@,
                views(existing@),
            ),
        decreases entries@.len() - k,
    {
        proof {
            let upto = ents.subrange(0, k + 1);
            assert(upto.drop_last() =~= ents.subrange(0, k as int));
            assert(upto.last() == entries@[k as int]@);
        }
        let ghost before = gone_entries(ents.subrange(0, k as int), seen@, views(existing@));
        let e = &entries[k];
        if e.merge_stage() == 0 {
            if !contains_bytes(existing, e.path()) && !seen.contains(e.path()) {
                let s = StatusEntry {
                    path: copy_bytes(e.path()),
                    change_type: ChangeType::Deleted,
                };
                proof {
                    lemma_views_push(unstaged@, s);
                    assert((first + before).push(s@) =~= first + before.push(s@));
                }
                unstaged.push(s);
            }
        }
        k += 1;
    }
    assert(ents.subrange(0, k as int) =~= ents);
    Ok((unstaged, scan.untracked))
}

/// The state of the working directory.
pub fn status(
    index: &IndexFile,
    head_tree: &Option<HeadTree>,
    rules: &IgnoreRules,
    files: &Vec<WorkFile>,
    existing: &Vec<Vec<u8>>,
) -> (r: Result<Status, StatusError>)
    ensures
        (match scanned(index@.entries, rules@, views(files@)) {
            Err(e) => r is Err && r->Err_0@ == e,
            Ok(m) => r is Ok && views(r->Ok_0.staged@) == staged_changes(
                index@.entries,
                opt_view(*head_tree),
            ) && views(r->Ok_0.unstaged@) == m.unstaged + gone_entries(
                index@.entries,
                m.seen,
                views(existing@),
            ) && views(r->Ok_0.untracked@) == m.untracked,
        }),
{
    let staged = detect_staged_changes(index, head_tree);
    match scan_worktree(index, rules, files, existing) {
        Ok((unstaged, untracked)) => Ok(Status { staged, unstaged, untracked }),
        Err(e) => Err(e),
    }
}

/// Whether a file is neither tracked, nor left to be resolved, nor ignored.
pub open spec fn is_untracked(entries: Seq<EntryModel>, rules: RulesModel, f: FileModel) -> bool {
    index_form(f.path) matches Ok(path) && staged_entry(entries, path) is None && !conflicted(
        entries,
        path,
    ) && !ignored(rules, pushed(rules.worktree, f.path))
}

/// The untracked files are told in full: just those that the index does not know and that are not
/// ignored.
pub proof fn law_untracked_exact(
    entries: Seq<EntryModel>,
    rules: RulesModel,
    files: Seq<FileModel>,
    path: Seq<u8>,
)
    ensures
        scanned(entries, rules, files) matches Ok(m) ==> (m.untracked.contains(path) <==> exists|
            i: int,
        |
            0 <= i < files.len() && (#[trigger] files[i]).path == path && is_untracked(
                entries,
                rules,
                files[i],
            )),
    decreases files.len(),
{
    if files.len() > 0 {
        let t = files.drop_last();
        let f = files.last();
        law_untracked_exact(entries, rules, t, path);
        if let Ok(m) = scanned(entries, rules, files) {
            let before = scanned(entries, rules, t)->Ok_0;
            if before.untracked.contains(path) {
                let i = choose|i: int|
                    0 <= i < t.len() && (#[trigger] t[i]).path == path && is_untracked(
                        entries,
                        rules,
                        t[i],
                    );
                assert(files[i] == t[i]);
                let k = choose|k: int| 0 <= k < before.untracked.len() && before.untracked[k] == path;
                assert(m.untracked[k] == path);
            }
            if is_untracked(entries, rules, f) && f.path == path {
                assert(files[files.len() - 1] == f);
                assert(m.untracked[before.untracked.len() as int] == path);
            }
            if m.untracked.contains(path) && !before.untracked.contains(path) {
                let k = choose|k: int| 0 <= k < m.untracked.len() && m.untracked[k] == path;
                if k < before.untracked.len() {
                    assert(before.untracked[k] == path);
                }
                assert(files[files.len() - 1] == f);
            }
            if exists|i: int|
                0 <= i < files.len() && (#[trigger] files[i]).path == path && is_untracked(
                    entries,
                    rules,
                    files[i],
                ) {
                let i = choose|i: int|
                    0 <= i < files.len() && (#[trigger] files[i]).path == path && is_untracked(
                        entries,
                        rules,
                        files[i],
                    );
                if i < t.len() {
                    assert(t[i] == files[i]);
                }
            }
        }
    }
}

/// Whether a file is as the index has it.
pub open spec fn is_unchanged(entries: Seq<EntryModel>, f: FileModel) -> bool {
    index_form(f.path) matches Ok(path) && staged_entry(entries, path) matches Some(e) && (
    !stat_changed(f.stat, e) || (f.content matches Some(c) && oid_of_raw(framed("blob"@, c))
        == e.obj_name))
}

/// Where all files are as the index has them, nothing is changed and nothing is untracked.
pub proof fn law_clean_worktree(
    entries: Seq<EntryModel>,
    rules: RulesModel,
    files: Seq<FileModel>,
)
    requires
        forall|i: int| 0 <= i < files.len() ==> is_unchanged(entries, #[trigger] files[i]),
    ensures
        scanned(entries, rules, files) matches Ok(m) && m.unstaged == Seq::<
            (Seq<u8>, ChangeType),
        >::empty() && m.untracked == Seq::<Seq<u8>>::empty(),
    decreases files.len(),
{
    if files.len() > 0 {
        let t = files.drop_last();
        assert forall|i: int| 0 <= i < t.len() implies is_unchanged(entries, #[trigger] t[i]) by {
            assert(t[i] == files[i]);
        }
        law_clean_worktree(entries, rules, t);
        assert(is_unchanged(entries, files[files.len() - 1]));
    }
}

/// Where the index has just the files of the last commit, nothing is staged.
pub proof fn law_nothing_staged(entries: Seq<EntryModel>, head: Seq<(Seq<u8>, ObjectSha)>)
    requires
        forall|i: int|
            0 <= i < entries.len() ==> lookup(head, (#[trigger] entries[i]).path) == Some(
                entries[i].obj_name,
            ),
        forall|i: int|
            0 <= i < head.len() ==> staged_entry(entries, (#[trigger] head[i]).0) is Some,
    ensures
        staged_changes(entries, Some(head)) == Seq::<(Seq<u8>, ChangeType)>::empty(),
{
    lemma_no_changed(entries, head, entries.len() as int);
    lemma_no_dropped(entries, head, head.len() as int);
    assert(entries.subrange(0, entries.len() as int) =~= entries);
    assert(head.subrange(0, head.len() as int) =~= head);
    assert(staged_changes(entries, Some(head)) =~= Seq::empty());
}

proof fn lemma_no_changed(entries: Seq<EntryModel>, head: Seq<(Seq<u8>, ObjectSha)>, n: int)
    requires
        0 <= n <= entries.len(),
        forall|i: int|
            0 <= i < entries.len() ==> lookup(head, (#[trigger] entries[i]).path) == Some(
                entries[i].obj_name,
            ),
    ensures
        changed_entries(entries.subrange(0, n), Some(head)) == Seq::<
            (Seq<u8>, ChangeType),
        >::empty(),
    decreases n,
{
    if n > 0 {
        lemma_no_changed(entries, head, n - 1);
        assert(entries.subrange(0, n).drop_last() =~= entries.subrange(0, n - 1));
        assert(entries.subrange(0, n).last() == entries[n - 1]);
    }
}

proof fn lemma_no_dropped(entries: Seq<EntryModel>, head: Seq<(Seq<u8>, ObjectSha)>, n: int)
    requires
        0 <= n <= head.len(),
        forall|i: int|
            0 <= i < head.len() ==> staged_entry(entries, (#[trigger] head[i]).0) is Some,
    ensures
        dropped_files(entries, head.subrange(0, n)) == Seq::<(Seq<u8>, ChangeType)>::empty(),
    decreases n,
{
    if n > 0 {
        lemma_no_dropped(entries, head, n - 1);
        assert(head.subrange(0, n).drop_last() =~= head.subrange(0, n - 1));
        assert(head.subrange(0, n).last() == head[n - 1]);
    }
}

/// The entry of a path is one with that path that belongs to no conflict, if there is one.
pub proof fn lemma_staged_entry(s: Seq<EntryModel>, path: Seq<u8>)
    ensures
        match staged_entry(s, path) {
            Some(e) => s.contains(e) && e.path == path && e.merge_stage == 0,
            None => forall|i: int|
                0 <= i < s.len() ==> !((#[trigger] s[i]).path == path && s[i].merge_stage == 0),
        },
    decreases s.len(),
{
    if s.len() > 0 {
        let t = s.drop_first();
        lemma_staged_entry(t, path);
        match staged_entry(s, path) {
            Some(e) => {
                if s[0].path == path && s[0].merge_stage == 0 {
                    assert(s[0] == e);
                } else {
                    let i = choose|i: int| 0 <= i < t.len() && t[i] == e;
                    assert(s[i + 1] == e);
                }
            },
            None => {
                assert forall|i: int| 0 <= i < s.len() implies !((#[trigger] s[i]).path == path
                    && s[i].merge_stage == 0) by {
                    if i > 0 {
                        assert(t[i - 1] == s[i]);
                    }
                }
            },
        }
    }
}

/// A file that was just staged counts as unchanged, whatever the file system says of it, as long as
/// its content is the same.
pub proof fn law_staged_is_unchanged(
    entries: Seq<EntryModel>,
    s: FileStat,
    now: FileStat,
    rel: Seq<u8>,
    path: Seq<u8>,
    content: Seq<u8>,
)
    requires
        index_form(rel) == Ok::<Seq<u8>, IndexError>(path),
    ensures
        is_unchanged(
            with_file(entries, s, path, oid_of_raw(framed("blob"@, content))),
            FileModel { path: rel, stat: now, content: Some(content) },
        ),
{
    let oid = oid_of_raw(framed("blob"@, content));
    let e = entry_of_file(s, path, oid);
    let all = with_file(entries, s, path, oid);
    law_staged_once(entries, s, path, oid);
    all.to_multiset_ensures();
    assert(all.to_multiset().count(e) == 1);
    assert(all.contains(e));
    lemma_staged_entry(all, path);
    let i = choose|i: int| 0 <= i < all.len() && all[i] == e;
    assert(all[i].path == path && all[i].merge_stage == 0);
    let f = staged_entry(all, path)->Some_0;
    assert(all.to_multiset().count(f) > 0);
    assert(f == e);
}

} // verus!
