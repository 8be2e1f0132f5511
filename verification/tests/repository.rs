//! Committing, looking back, switching and comparing.
use gift::checkout::{
    checkout, checkout_branch, checkout_commit, CheckoutError, CheckoutTarget,
};
use gift::commit::{commit, CommitError};
use gift::commit_identity::{
    identities_from_git_env, parse_git_identity_date, DateError, IdentityEnv, IdentityError,
};
use gift::commit_object::{commit_tree, CommitIdentity, CommitObject};
use gift::diff::{
    diff_blobs, diff_bytes, diff_commits, diff_dirs, diff_trees, subtree_at, BlobDiff, BlobSide,
    DiffEntry,
};
use gift::first_parents::walk_first_parents;
use gift::head::Head;
use gift::ignore::IgnoreRules;
use gift::index::{add_index, parse_index_file, write_index_file, FileStat, IndexFile};
use gift::index_tree::{IndexRootTree, TreeError};
use gift::log::{extract_message, log, LogError};
use gift::merge::{record_action, WorktreeAction};
use gift::merge_base::find_merge_base;
use gift::object::{
    hash_object, read_loose_blob, FileMode, ObjectError, ObjectSha, TreeObject,
};
use gift::object_db::ObjectDb;
use gift::reference::{read_ref, RefError};
use gift::staging::{
    is_passed_over, leaves_to_stage, resolve_stage_inputs, stage_candidate, stage_paths,
    StageError, StageFile, WorkNode,
};
use gift::status::{
    detect_staged_changes, load_head_tree, needs_content, status, ChangeType, Status, StatusError,
    WorkFile,
};

fn id() -> CommitIdentity {
    CommitIdentity {
        name: "Gift Test".into(),
        email: "gift@test.local".into(),
        unix_time: 1_700_000_000,
        tz: "+0800".into(),
    }
}

fn stat(content: &[u8]) -> FileStat {
    FileStat {
        ctime_sec: 1,
        ctime_nsec: 2,
        mtime_sec: 3,
        mtime_nsec: 4,
        dev: 5,
        ino: 6,
        mode: 0o100644,
        uid: 7,
        gid: 8,
        size: content.len() as u64,
        is_file: true,
        is_symlink: false,
    }
}

/// A repository in memory.
struct Repo {
    db: ObjectDb,
    index: IndexFile,
    head: String,
    refs: Vec<(String, String)>,
}

impl Repo {
    fn new() -> Repo {
        Repo {
            db: ObjectDb::new(),
            index: IndexFile::empty(2),
            head: "ref: refs/heads/master\n".to_string(),
            refs: Vec::new(),
        }
    }

    fn get(&self, path: &str) -> Option<&str> {
        self.refs.iter().find(|(p, _)| p == path).map(|(_, c)| c.as_str())
    }

    fn set(&mut self, path: &str, content: &str) {
        if path == "HEAD" {
            self.head = content.to_string();
            return;
        }
        self.refs.retain(|(p, _)| p != path);
        self.refs.push((path.to_string(), content.to_string()));
    }

    fn tip(&self) -> Option<&str> {
        match Head::read(&self.head).unwrap() {
            Head::TargetBranch { branch_ref_path } => self.get(&branch_ref_path),
            Head::TargetCommit(_) => None,
        }
    }

    fn add(&mut self, path: &str, content: &str) -> ObjectSha {
        let (oid, raw) = hash_object(content.as_bytes());
        self.db.insert(oid, raw);
        add_index(&mut self.index, &stat(content.as_bytes()), path.as_bytes().to_vec(), oid)
            .unwrap();
        oid
    }

    fn remove(&mut self, path: &str) {
        self.index.remove_entry(path.as_bytes());
    }

    fn commit_as(&mut self, message: &str, who: CommitIdentity, merged: Option<ObjectSha>) -> ObjectSha {
        let committer = who.copy();
        let n = commit(
            &self.db,
            &self.index,
            &self.head,
            self.tip(),
            merged,
            who,
            committer,
            message,
        )
        .unwrap();
        for (oid, raw) in n.trees {
            self.db.insert(oid, raw);
        }
        self.db.insert_compressed(n.oid, &n.file).unwrap();
        self.set(&n.update.path, &n.update.content);
        n.oid
    }

    fn commit(&mut self, message: &str) -> ObjectSha {
        self.commit_as(message, id(), None)
    }
}

fn written(actions: &[WorktreeAction]) -> Vec<(String, String)> {
    actions
        .iter()
        .filter_map(|a| match a {
            WorktreeAction::WriteFile { path, content, .. } => Some((
                String::from_utf8(path.clone()).unwrap(),
                String::from_utf8(content.clone()).unwrap(),
            )),
            _ => None,
        })
        .collect()
}

fn pairs(list: &[(&str, &str)]) -> Vec<(String, String)> {
    list.iter().map(|(a, b)| (a.to_string(), b.to_string())).collect()
}

#[test]
fn commit_on_branch_first_then_second() {
    let mut repo = Repo::new();
    repo.add("track.txt", "v1\n");
    let oid1 = repo.commit("first commit");
    assert_eq!(oid1.to_string(), "3ac3eb486a86f0366735c81ba54e47c56e3db2b7");
    assert_eq!(repo.get("refs/heads/master").unwrap(), format!("{}\n", oid1.to_string()));
    assert_eq!(repo.head, "ref: refs/heads/master\n");
    let p1 = CommitObject::read_loose_commit(&repo.db, &oid1).unwrap();
    assert!(p1.parents.is_empty());
    assert_eq!(p1.message, b"first commit\n");

    repo.add("track.txt", "v2\n");
    let oid2 = repo.commit("second");
    let p2 = CommitObject::read_loose_commit(&repo.db, &oid2).unwrap();
    assert_eq!(p2.parents, vec![oid1]);
    assert_eq!(p2.message, b"second\n");
    let head = Head::read(&repo.head).unwrap();
    assert_eq!(head.current_commit(&repo.db, repo.tip()).unwrap(), oid2);
}

#[test]
fn commit_on_detached_head_updates_oid_and_parent() {
    let mut repo = Repo::new();
    repo.add("only.txt", "a\n");
    let c0 = repo.commit("seed");
    repo.head = format!("{}\n", c0.to_string());
    repo.add("only.txt", "b\n");
    let new = repo.commit("while detached\n");
    assert_eq!(repo.head.trim(), new.to_string());
    let parsed = CommitObject::read_loose_commit(&repo.db, &new).unwrap();
    assert_eq!(parsed.parents, vec![c0]);
    assert_eq!(parsed.message, b"while detached\n");
}

#[test]
fn commit_takes_the_merged_commit_as_second_parent() {
    let mut repo = Repo::new();
    repo.add("a", "1");
    let a = repo.commit("a");
    repo.add("a", "2");
    let b = repo.commit_as("m", id(), Some(a));
    let parsed = CommitObject::read_loose_commit(&repo.db, &b).unwrap();
    assert_eq!(parsed.parents, vec![a, a]);
}

#[test]
fn commit_faults_are_told_apart() {
    let mut repo = Repo::new();
    let (blob, raw) = hash_object(b"x");
    repo.db.insert(blob, raw);
    let hex = format!("{}\n", blob.to_string());
    let run = |head: &str, tip: Option<&str>| {
        commit(&repo.db, &repo.index, head, tip, None, id(), id(), "m").map(|_| ()).unwrap_err()
    };
    let on = "ref: refs/heads/m\n";
    assert_eq!(run("nonsense\n", None), CommitError::Ref(RefError::NotARef));
    assert_eq!(run(on, Some(" \n")), CommitError::Ref(RefError::Empty));
    assert_eq!(run(on, Some("a\nb\n")), CommitError::Ref(RefError::MultipleLines));
    assert_eq!(run(on, Some("abc\n")), CommitError::Ref(RefError::NotARef));
    assert_eq!(run(on, Some(&hex)), CommitError::Parent(ObjectError::WrongKind));
    let gone = ObjectSha::SHA1([1; 20]);
    assert_eq!(
        run(&format!("{}\n", gone.to_string()), None),
        CommitError::Parent(ObjectError::Missing(gone))
    );
    let mut repo = Repo::new();
    repo.add("d", "1");
    repo.add("d/f", "2");
    let r = commit(&repo.db, &repo.index, on, None, None, id(), id(), "m");
    assert_eq!(r.map(|_| ()).unwrap_err(), CommitError::Tree(TreeError::FileInTheWay));
}

#[test]
fn identities_come_from_the_environment() {
    let none = || IdentityEnv { name: None, email: None, date: None };
    let (a, c) = identities_from_git_env(&none(), &none(), 42).unwrap();
    assert_eq!((a.name.as_str(), a.email.as_str()), ("gift", "gift@localhost"));
    assert_eq!((a.unix_time, a.tz.as_str()), (42, "+0000"));
    assert_eq!((c.name.as_str(), c.unix_time), ("gift", 42));
    let author = IdentityEnv {
        name: Some("A".into()),
        email: Some("a@b".into()),
        date: Some(" 100 +0800 ".into()),
    };
    let (a, c) = identities_from_git_env(&author, &none(), 42).unwrap();
    assert_eq!((a.unix_time, a.tz.as_str()), (100, "+0800"));
    assert_eq!((c.name.as_str(), c.unix_time, c.tz.as_str()), ("A", 100, "+0800"));
    let by = IdentityEnv { name: Some("C".into()), email: None, date: None };
    let (_, c) = identities_from_git_env(&author, &by, 42).unwrap();
    assert_eq!((c.name.as_str(), c.email.as_str(), c.unix_time), ("C", "a@b", 42));

    assert_eq!(parse_git_identity_date("-5 Z"), Ok((-5, "Z".to_string())));
    assert_eq!(parse_git_identity_date("  "), Err(DateError::Empty));
    assert_eq!(parse_git_identity_date("x y"), Err(DateError::BadTime));
    assert_eq!(parse_git_identity_date("1"), Err(DateError::NoZone));
    assert_eq!(parse_git_identity_date("1 2 3"), Err(DateError::ExtraFields));
    let bad = || IdentityEnv { name: None, email: None, date: Some("1".into()) };
    assert_eq!(
        identities_from_git_env(&bad(), &none(), 0).unwrap_err(),
        IdentityError::Author(DateError::NoZone)
    );
    assert_eq!(
        identities_from_git_env(&none(), &bad(), 0).unwrap_err(),
        IdentityError::Committer(DateError::NoZone)
    );
}

#[test]
fn test_log_basic() {
    let mut repo = Repo::new();
    repo.add("a.txt", "v1\n");
    let c1 = repo.commit("first commit");
    repo.add("a.txt", "v2\n");
    let c2 = repo.commit("second commit");
    let shown = log(&repo.db, Some(&c2), None).unwrap();
    assert_eq!(
        shown,
        [
            format!("commit {}", c2.to_string()),
            String::new(),
            "    second commit".to_string(),
            String::new(),
            format!("commit {}", c1.to_string()),
            String::new(),
            "    first commit".to_string(),
            String::new(),
        ]
    );
}

#[test]
fn test_log_max_count() {
    let mut repo = Repo::new();
    let mut last = None;
    for i in 1..=3 {
        repo.add("a.txt", &format!("v{i}\n"));
        last = Some(repo.commit(&format!("commit {i}")));
    }
    let shown = log(&repo.db, last.as_ref(), Some(2)).unwrap();
    assert_eq!(shown.len(), 8);
    assert_eq!(shown[2], "    commit 3");
    assert_eq!(shown[6], "    commit 2");
    assert!(log(&repo.db, last.as_ref(), Some(0)).unwrap().is_empty());
}

#[test]
fn test_log_no_commits() {
    let repo = Repo::new();
    let result = log(&repo.db, None, None);
    assert!(result.is_err());
    let err = result.unwrap_err();
    assert!(matches!(err, LogError::NoCommits));
    assert!(err.message().contains("no commits yet"));
}

#[test]
fn log_shows_what_can_be_read() {
    let mut repo = Repo::new();
    repo.add("a", "1");
    let c1 = repo.commit("one");
    repo.add("a", "2");
    let c2 = repo.commit("two");
    let mut db = ObjectDb::new();
    db.insert(c2, repo.db.get(&c2).unwrap().clone());
    match log(&db, Some(&c2), None) {
        Err(LogError::Read { shown, error }) => {
            assert_eq!(shown.len(), 4);
            assert_eq!(error, ObjectError::Missing(c1));
        }
        other => panic!("{other:?}"),
    }
    assert_eq!(extract_message(b"subject\n\n  body\nmore\n\n"), "subject\n\n  body\nmore");
    assert_eq!(extract_message(b" only \n"), "only");
}

#[test]
fn first_parents_are_followed() {
    let mut repo = Repo::new();
    repo.add("a", "1");
    let a = repo.commit("a");
    repo.add("a", "2");
    let b = repo.commit("b");
    let c = walk_first_parents(&repo.db, &b, 9, true);
    let ids: Vec<ObjectSha> = c.commits.iter().map(|(o, _)| *o).collect();
    assert_eq!(ids, [b, a]);
    assert_eq!(c.fault, None);
    let c = walk_first_parents(&repo.db, &b, 1, true);
    assert_eq!(c.fault, Some(ObjectError::Cyclic(a)));
}

#[test]
fn linear_history_ancestor_is_parent() {
    let mut repo = Repo::new();
    repo.add("f.txt", "v1\n");
    let root = repo.commit("root");
    repo.add("f.txt", "v2\n");
    let c1 = repo.commit("c1");
    repo.add("f.txt", "v3\n");
    let c2 = repo.commit("c2");
    assert_eq!(find_merge_base(&repo.db, &c1, &c2), Ok(Some(c1)));
    assert_eq!(find_merge_base(&repo.db, &c2, &c1), Ok(Some(c1)));
    assert_eq!(find_merge_base(&repo.db, &root, &c2), Ok(Some(root)));
}

#[test]
fn forked_history_returns_fork_point() {
    let mut repo = Repo::new();
    repo.add("base.txt", "base\n");
    let base = repo.commit("base");
    repo.add("a.txt", "from a\n");
    let tip_a = repo.commit("tip_a");
    repo.head = format!("{}\n", base.to_string());
    repo.remove("a.txt");
    repo.add("b.txt", "from b\n");
    let tip_b = repo.commit("tip_b");
    assert_eq!(find_merge_base(&repo.db, &tip_a, &tip_b), Ok(Some(base)));
}

#[test]
fn unrelated_histories_returns_none() {
    let mut repo = Repo::new();
    repo.add("f.txt", "first\n");
    let root1 = repo.commit("root1");
    repo.head = "ref: refs/heads/orphan\n".to_string();
    repo.remove("f.txt");
    repo.add("g.txt", "second\n");
    let root2 = repo.commit("root2");
    assert_eq!(find_merge_base(&repo.db, &root1, &root2), Ok(None));
}

#[test]
fn same_commit_returns_itself() {
    let mut repo = Repo::new();
    repo.add("f.txt", "v1\n");
    let c = repo.commit("only");
    assert_eq!(find_merge_base(&repo.db, &c, &c), Ok(Some(c)));
}

fn raw_commit(db: &mut ObjectDb, parents: Vec<ObjectSha>, message: &str) -> ObjectSha {
    let tree = ObjectSha::SHA1([7; 20]);
    let made =
        CommitObject::new(tree, parents, id(), id(), Vec::new(), message.as_bytes().to_vec());
    let (oid, file) = commit_tree(&made);
    db.insert_compressed(oid, &file).unwrap();
    oid
}

#[test]
fn ancestor_wins_over_an_older_one_that_is_nearer() {
    let mut db = ObjectDb::new();
    let old = raw_commit(&mut db, vec![], "old\n");
    let a = raw_commit(&mut db, vec![old], "a\n");
    let b = raw_commit(&mut db, vec![old, a], "b\n");
    assert_eq!(find_merge_base(&db, &a, &b), Ok(Some(a)));
    assert_eq!(find_merge_base(&db, &b, &a), Ok(Some(a)));
}

#[test]
fn histories_meet_before_what_is_missing() {
    let mut db = ObjectDb::new();
    let gone = ObjectSha::SHA1([9; 20]);
    let base = raw_commit(&mut db, vec![], "base\n");
    let a = raw_commit(&mut db, vec![base], "a\n");
    let late = raw_commit(&mut db, vec![base, gone], "late\n");
    assert_eq!(find_merge_base(&db, &a, &late), Ok(Some(base)));
    let early = raw_commit(&mut db, vec![gone, base], "early\n");
    assert_eq!(find_merge_base(&db, &a, &early), Err(ObjectError::Missing(gone)));
    assert_eq!(find_merge_base(&db, &late, &a), Err(ObjectError::Missing(gone)));
}

#[test]
fn all_files_are_new_against_an_empty_tree() {
    let mut repo = Repo::new();
    let one = repo.add("a.txt", "1\n");
    let two = repo.add("d/b.txt", "2\n");
    let c = repo.commit("initial");
    assert_eq!(read_loose_blob(&repo.db, &two), Ok(b"2\n".to_vec()));
    let empty = ObjectSha::SHA1([6; 20]);
    repo.db.insert(empty, b"tree 0\0".to_vec());
    let commit = CommitObject::read_loose_commit(&repo.db, &c).unwrap();
    let none = TreeObject::read_loose_tree(&repo.db, &empty).unwrap();
    let tree = TreeObject::read_loose_tree(&repo.db, &commit.tree).unwrap();
    let found = diff_trees(&repo.db, &none, &tree).unwrap();
    assert_eq!(found.len(), 2);
    for (d, (p, o)) in found.iter().zip([(&b"a.txt"[..], one), (&b"d/b.txt"[..], two)]) {
        match d {
            DiffEntry::Added { path, oid, .. } => assert_eq!((path.as_slice(), *oid), (p, o)),
            other => panic!("{other:?}"),
        }
    }
}

#[test]
fn each_file_that_differs_is_told_of_once() {
    let mut repo = Repo::new();
    for (p, c) in [("d/e/gone", "1\n"), ("d/kept", "2\n"), ("d.x", "3\n"), ("same/f", "4\n")] {
        repo.add(p, c);
    }
    let a = repo.commit("a");
    repo.index.remove_entry(b"d/e/gone");
    repo.add("d.x", "5\n");
    repo.add("d/e/new", "6\n");
    let b = repo.commit("b");
    let found: Vec<String> = diff_commits(&repo.db, &a, &b)
        .unwrap()
        .iter()
        .map(|f| {
            let what = match f.entry {
                DiffEntry::Added { .. } => "added",
                DiffEntry::Deleted { .. } => "deleted",
                DiffEntry::Modified { .. } => "modified",
            };
            format!("{what} {}", String::from_utf8_lossy(f.entry.path()))
        })
        .collect();
    assert_eq!(found, ["deleted d/e/gone", "added d/e/new", "modified d.x"]);
    assert!(diff_commits(&repo.db, &a, &a).unwrap().is_empty());
}

#[test]
fn a_tree_within_itself_is_given_up() {
    let mut db = ObjectDb::new();
    let loops = ObjectSha::SHA1([5; 20]);
    let mut raw = b"tree 27\0".to_vec();
    raw.extend_from_slice(b"40000 d\0");
    raw.extend_from_slice(&[5; 20]);
    db.insert(loops, raw);
    let (empty, empty_raw) = (ObjectSha::SHA1([6; 20]), b"tree 0\0".to_vec());
    db.insert(empty, empty_raw);
    let a = TreeObject::read_loose_tree(&db, &empty).unwrap();
    let b = TreeObject::read_loose_tree(&db, &loops).unwrap();
    assert_eq!(diff_trees(&db, &a, &b).unwrap_err(), ObjectError::Cyclic(loops));
}

fn hunk_lines(diff: &str) -> Vec<String> {
    diff.lines()
        .filter(|l| {
            (l.starts_with('+') || l.starts_with('-') || l.starts_with(' '))
                && !l.starts_with("---")
                && !l.starts_with("+++")
        })
        .map(|l| l.to_string())
        .collect()
}

fn text_of(d: &BlobDiff) -> &str {
    match d {
        BlobDiff::Text(s) => s,
        BlobDiff::Binary => panic!("expected text diff"),
    }
}

#[test]
fn diff_blobs_text_matches_git() {
    let mut repo = Repo::new();
    let old = repo.add("old.txt", "hello\nworld\nfoo\n");
    let new = repo.add("new.txt", "hello\nearth\nfoo\nbar\n");
    let d = diff_blobs(&repo.db, BlobSide::Stored(&old), BlobSide::Stored(&new)).unwrap();
    assert_eq!(hunk_lines(text_of(&d)), [" hello", "-world", "+earth", " foo", "+bar"]);
}

#[test]
fn diff_blobs_binary_detected() {
    let mut repo = Repo::new();
    let old = repo.add("old.bin", "hello\0binary");
    let new = repo.add("new.bin", "world\0binary");
    let d = diff_blobs(&repo.db, BlobSide::Stored(&old), BlobSide::Stored(&new)).unwrap();
    assert!(matches!(d, BlobDiff::Binary));
    assert!(matches!(diff_bytes(b"\xff", b"a"), BlobDiff::Binary));
}

#[test]
fn diff_blobs_worktree_side() {
    let mut repo = Repo::new();
    let old = repo.add("old.txt", "version one\n");
    let d = diff_blobs(&repo.db, BlobSide::Stored(&old), BlobSide::Worktree(b"version two\n"))
        .unwrap();
    assert_eq!(hunk_lines(text_of(&d)), ["-version one", "+version two"]);
    let d = diff_blobs(&repo.db, BlobSide::Empty, BlobSide::Stored(&old)).unwrap();
    assert_eq!(hunk_lines(text_of(&d)), ["+version one"]);
    let gone = ObjectSha::SHA1([9; 20]);
    assert_eq!(
        diff_blobs(&repo.db, BlobSide::Stored(&gone), BlobSide::Empty).unwrap_err(),
        ObjectError::Missing(gone)
    );
}

#[test]
fn diff_commits_matches_git() {
    let mut repo = Repo::new();
    repo.add("a.txt", "line1\nline2\nline3\n");
    repo.add("b.txt", "alpha\nbeta\n");
    repo.add("c.txt", "unchanged\n");
    let c1 = repo.commit("c1");
    repo.add("a.txt", "line1\nLINE2\nline3\n");
    repo.remove("b.txt");
    repo.add("d.txt", "brand new\n");
    let c2 = repo.commit("c2");
    let diffs = diff_commits(&repo.db, &c1, &c2).unwrap();
    let hunks: Vec<String> = diffs.iter().flat_map(|d| hunk_lines(text_of(&d.diff))).collect();
    assert_eq!(
        hunks,
        [" line1", "-line2", "+LINE2", " line3", "-alpha", "-beta", "+brand new"]
    );
    assert!(matches!(diffs[0].entry, DiffEntry::Modified { .. }));
    assert!(matches!(diffs[1].entry, DiffEntry::Deleted { .. }));
    assert!(matches!(diffs[2].entry, DiffEntry::Added { .. }));
    assert!(diff_commits(&repo.db, &c2, &c2).unwrap().is_empty());
    let back = diff_commits(&repo.db, &c2, &c1).unwrap();
    assert!(matches!(back[1].entry, DiffEntry::Added { .. }));
}

#[test]
fn diff_subdir_matches_git() {
    let mut repo = Repo::new();
    repo.add("src/main.rs", "fn main() {}\n");
    repo.add("src/lib.rs", "pub fn hello() {}\n");
    repo.add("README.md", "readme\n");
    let c1 = repo.commit("c1");
    repo.add("src/main.rs", "fn main() { println!(\"hi\"); }\n");
    repo.add("README.md", "readme updated\n");
    let c2 = repo.commit("c2");
    let src = |c: &ObjectSha| {
        let commit = CommitObject::read_loose_commit(&repo.db, c).unwrap();
        let root = TreeObject::read_loose_tree(&repo.db, &commit.tree).unwrap();
        subtree_at(&repo.db, &root, b"src").unwrap().expect("src")
    };
    let diffs = diff_dirs(&repo.db, &src(&c1), &src(&c2)).unwrap();
    assert_eq!(diffs.len(), 1);
    assert_eq!(diffs[0].entry.path(), b"main.rs");
    assert_eq!(
        hunk_lines(text_of(&diffs[0].diff)),
        ["-fn main() {}", "+fn main() { println!(\"hi\"); }"]
    );
}

#[test]
fn subtree_at_missing_returns_none() {
    let mut repo = Repo::new();
    repo.add("file.txt", "hello\n");
    repo.add("d/e/f", "x");
    let head = repo.commit("init");
    let commit = CommitObject::read_loose_commit(&repo.db, &head).unwrap();
    let root = TreeObject::read_loose_tree(&repo.db, &commit.tree).unwrap();
    assert!(subtree_at(&repo.db, &root, b"nonexistent").unwrap().is_none());
    assert!(subtree_at(&repo.db, &root, b"file.txt").unwrap().is_none());
    assert_eq!(subtree_at(&repo.db, &root, b"d/e").unwrap().unwrap().entries().len(), 1);
}

#[test]
fn checkout_commit_detaches_and_restores_worktree_without_symlinks() {
    let mut repo = Repo::new();
    repo.add("a.txt", "v1\n");
    repo.add("old.txt", "old\n");
    let c1 = repo.commit("first");
    repo.add("a.txt", "v2\n");
    repo.remove("old.txt");
    repo.add("new.txt", "new\n");
    repo.commit("second");
    let work = vec![b"a.txt".to_vec(), b"new.txt".to_vec()];
    let plan = checkout_commit(&repo.db, c1, Some(&repo.index), &work).unwrap();
    assert_eq!(written(&plan.actions), pairs(&[("a.txt", "v1\n"), ("old.txt", "old\n")]));
    let gone: Vec<&[u8]> = plan.removals.iter().map(|r| &r.path[..]).collect();
    assert_eq!(gone, [&b"new.txt"[..]]);
    assert_eq!(plan.head.trim(), c1.to_string());

    // The index that follows the actions makes the tree of the commit.
    let mut index = IndexFile::empty(2);
    for a in &plan.actions {
        if let WorktreeAction::WriteFile { entry, content, oid, .. } = a {
            add_index(&mut index, &stat(content), entry.clone(), *oid).unwrap();
        }
    }
    let (tree, _) = IndexRootTree::from_index_file(&index).unwrap().write_tree();
    assert_eq!(tree, CommitObject::read_loose_commit(&repo.db, &c1).unwrap().tree);
}

#[test]
fn nothing_is_staged_after_a_commit_or_a_checkout() {
    let mut repo = Repo::new();
    repo.add("a.txt", "1\n");
    repo.add("d/e/b.txt", "2\n");
    let c1 = repo.commit("one");
    let head = load_head_tree(&repo.db, &repo.head, repo.tip()).unwrap();
    assert!(detect_staged_changes(&repo.index, &head).is_empty());
    repo.add("a.txt", "3\n");
    repo.remove("d/e/b.txt");
    assert_eq!(detect_staged_changes(&repo.index, &head).len(), 2);
    repo.commit("two");
    let plan = checkout_commit(&repo.db, c1, Some(&repo.index), &vec![b"a.txt".to_vec()]).unwrap();
    let mut index = IndexFile::empty(2);
    for a in &plan.actions {
        record_action(&mut index, a, Some(&stat(b"1\n"))).unwrap();
    }
    let head = load_head_tree(&repo.db, &plan.head, None).unwrap();
    assert!(detect_staged_changes(&index, &head).is_empty());
    assert_eq!(index.entries().len(), 2);
}

#[test]
fn checkout_branch_restores_tip_and_keeps_symbolic_head() {
    let mut repo = Repo::new();
    repo.add("branch.txt", "side\n");
    repo.add("common.txt", "side version\n");
    let side = repo.commit("side tip");
    let side_ref = format!("{}\n", side.to_string());
    repo.remove("branch.txt");
    repo.add("common.txt", "main version\n");
    repo.add("main.txt", "main\n");
    repo.commit("main tip");
    let work = vec![b"common.txt".to_vec(), b"main.txt".to_vec()];
    let plan =
        checkout_branch(&repo.db, "side", Some(&side_ref), Some(&repo.index), &work).unwrap();
    assert_eq!(
        written(&plan.actions),
        pairs(&[("branch.txt", "side\n"), ("common.txt", "side version\n")])
    );
    assert_eq!(plan.removals.len(), 1);
    assert_eq!(plan.removals[0].path, b"main.txt");
    assert_eq!(plan.head.trim(), "ref: refs/heads/side");
    assert_eq!(read_ref(&repo.db, &side_ref).map(|r| r.commit_id), Ok(side));
}

#[test]
fn checkout_reports_untracked_file_conflict_before_writing() {
    let mut repo = Repo::new();
    repo.add("conflict.txt", "tracked in target\n");
    repo.add("stable.txt", "target stable\n");
    let target = repo.commit("target");
    repo.remove("conflict.txt");
    repo.add("stable.txt", "current stable\n");
    repo.commit("current");
    let work = vec![b"conflict.txt".to_vec(), b"stable.txt".to_vec()];
    let err = checkout_commit(&repo.db, target, Some(&repo.index), &work).unwrap_err();
    let text = err.untracked_message().unwrap();
    assert!(text.contains("untracked working tree file"), "{text}");
    assert!(matches!(err, CheckoutError::Overwritten(p) if p == b"conflict.txt"));
}

#[test]
fn checkout_faults_are_told_apart() {
    let mut repo = Repo::new();
    repo.add("d/f", "1");
    let c = repo.commit("c");
    let none = Vec::new();
    let run = |t: &CheckoutTarget, b: Option<&str>, w: &Vec<Vec<u8>>| {
        checkout(&repo.db, t, b, None, w).unwrap_err()
    };
    let branch = CheckoutTarget::Branch("x".to_string());
    assert!(matches!(run(&branch, None, &none), CheckoutError::Ref(RefError::NoTarget)));
    let gone = CheckoutTarget::Commit(ObjectSha::SHA1([3; 20]));
    assert!(matches!(run(&gone, None, &none), CheckoutError::Object(_)));
    let to = CheckoutTarget::Commit(c);
    assert!(matches!(
        run(&to, None, &vec![b"d".to_vec()]),
        CheckoutError::Blocks(_) | CheckoutError::Removed(_)
    ));
    assert!(matches!(
        CheckoutTarget::from_str(&c.to_string()),
        CheckoutTarget::Commit(o) if o == c
    ));
    assert!(matches!(
        CheckoutTarget::from_str("main"),
        CheckoutTarget::Branch(b) if b == "main"
    ));
}

/// A working directory in memory, with the state of the file system at its files.
struct Work {
    files: Vec<(String, String, FileStat)>,
}

impl Work {
    fn write(&mut self, path: &str, content: &str, time: i64) {
        self.files.retain(|(p, _, _)| p != path);
        let mut s = stat(content.as_bytes());
        s.mtime_sec = time;
        self.files.push((path.to_string(), content.to_string(), s));
        self.files.sort_by(|a, b| a.0.cmp(&b.0));
    }

    fn remove(&mut self, path: &str) {
        self.files.retain(|(p, _, _)| p != path);
    }

    fn stage(&self, repo: &mut Repo, path: &str) {
        let (_, content, s) = self.files.iter().find(|(p, _, _)| p == path).unwrap();
        let (oid, raw) = hash_object(content.as_bytes());
        repo.db.insert(oid, raw);
        add_index(&mut repo.index, s, path.as_bytes().to_vec(), oid).unwrap();
    }

    fn status(&self, repo: &Repo) -> Status {
        let head = load_head_tree(&repo.db, &repo.head, repo.tip()).unwrap();
        let files: Vec<WorkFile> = self
            .files
            .iter()
            .map(|(p, c, s)| WorkFile {
                path: p.as_bytes().to_vec(),
                stat: *s,
                content: if needs_content(&repo.index, p.as_bytes(), s) {
                    Some(c.as_bytes().to_vec())
                } else {
                    None
                },
            })
            .collect();
        let existing = self.files.iter().map(|(p, _, _)| p.as_bytes().to_vec()).collect();
        let rules = IgnoreRules::load(b"/w", None);
        status(&repo.index, &head, &rules, &files, &existing).unwrap()
    }
}

fn counts(s: &Status) -> (usize, usize, usize) {
    (s.staged.len(), s.unstaged.len(), s.untracked.len())
}

#[test]
fn test_status_basic() {
    let mut repo = Repo::new();
    let mut work = Work { files: vec![] };
    work.write("file.txt", "v1\n", 10);
    work.stage(&mut repo, "file.txt");
    repo.commit("initial");
    work.write("file.txt", "v2\n", 11);
    let s = work.status(&repo);
    assert_eq!(counts(&s), (0, 1, 0));
    assert_eq!(s.unstaged[0].change_type, ChangeType::Modified);
    assert_eq!(s.unstaged[0].path, b"file.txt");
}

#[test]
fn test_load_head_tree_debug() {
    let mut repo = Repo::new();
    repo.add("file1.txt", "content 1\n");
    repo.add("file2.txt", "content 2\n");
    let three = repo.add("subdir/file3.txt", "content 3\n");
    assert!(load_head_tree(&repo.db, &repo.head, None).unwrap().is_none());
    repo.commit("initial commit");
    let tree = load_head_tree(&repo.db, &repo.head, repo.tip()).unwrap().unwrap();
    assert_eq!(tree.entries().len(), 3);
    assert!(tree.contains_path(b"file1.txt"));
    assert!(tree.contains_path(b"file2.txt"));
    assert_eq!(tree.get_hash(b"subdir/file3.txt"), Some(&three));
}

#[test]
fn test_status_functionality() {
    let mut repo = Repo::new();
    let mut work = Work { files: vec![] };
    for f in ["file1.txt", "file2.txt", "subdir/file3.txt"] {
        work.write(f, "initial content\n", 10);
        work.stage(&mut repo, f);
    }
    repo.commit("initial commit");
    assert_eq!(counts(&work.status(&repo)), (0, 0, 0));

    work.write("file1.txt", "modified content\n", 11);
    let s = work.status(&repo);
    assert_eq!(s.unstaged.len(), 1);
    assert_eq!(s.unstaged[0].path, b"file1.txt");
    assert_eq!(s.unstaged[0].change_type, ChangeType::Modified);

    work.stage(&mut repo, "file1.txt");
    let s = work.status(&repo);
    assert_eq!(counts(&s), (1, 0, 0));
    assert_eq!(s.staged[0].path, b"file1.txt");
    assert_eq!(s.staged[0].change_type, ChangeType::Modified);

    work.write("new_file.txt", "new file\n", 12);
    assert_eq!(work.status(&repo).untracked, [b"new_file.txt".to_vec()]);

    work.remove("file2.txt");
    let s = work.status(&repo);
    assert_eq!(s.unstaged.len(), 1);
    assert_eq!(s.unstaged[0].change_type, ChangeType::Deleted);
    assert_eq!(s.unstaged[0].path, b"file2.txt");

    repo.remove("file2.txt");
    let s = work.status(&repo);
    let deleted: Vec<_> =
        s.staged.iter().filter(|e| e.change_type == ChangeType::Deleted).collect();
    assert_eq!(deleted.len(), 1);
    assert_eq!(deleted[0].path, b"file2.txt");

    work.stage(&mut repo, "new_file.txt");
    assert_eq!(counts(&work.status(&repo)), (3, 0, 0));

    work.write("subdir/file4.txt", "new file in subdir\n", 13);
    assert_eq!(work.status(&repo).untracked, [b"subdir/file4.txt".to_vec()]);

    repo.commit("second commit");
    let s = work.status(&repo);
    assert_eq!(counts(&s), (0, 0, 1));
    assert_eq!(s.untracked, [b"subdir/file4.txt".to_vec()]);

    work.remove("subdir/file4.txt");
    assert_eq!(counts(&work.status(&repo)), (0, 0, 0));

    work.write("file1.txt", "third version\n", 14);
    work.write("file2.txt", "new content\n", 15);
    work.write("new_file2.txt", "another new file\n", 16);
    work.stage(&mut repo, "file1.txt");
    let s = work.status(&repo);
    assert_eq!(counts(&s), (1, 0, 2));
    assert_eq!(s.staged[0].path, b"file1.txt");
    assert_eq!(s.staged[0].change_type, ChangeType::Modified);
}

#[test]
fn status_needs_the_content_of_changed_files() {
    let mut repo = Repo::new();
    repo.add("f", "1");
    let mut s = stat(b"1");
    s.ino = 99;
    let file = |content| vec![WorkFile { path: b"f".to_vec(), stat: s, content }];
    let rules = IgnoreRules::load(b"/w", None);
    let all = vec![b"f".to_vec()];
    let r = status(&repo.index, &None, &rules, &file(None), &all);
    assert!(matches!(r, Err(StatusError::Unread(p)) if p == b"f"));
    let r = status(&repo.index, &None, &rules, &file(Some(b"1".to_vec())), &all).unwrap();
    assert_eq!(counts(&r), (1, 0, 0));
    assert_eq!(r.staged[0].change_type, ChangeType::NewFile);
    let bad = vec![WorkFile { path: vec![], stat: s, content: None }];
    assert!(matches!(
        status(&repo.index, &None, &rules, &bad, &all),
        Err(StatusError::Index(_))
    ));
}

#[test]
fn test_gitignore_simple() {
    let rules = IgnoreRules::load(b"/w", Some("ignored.txt\n"));
    let file = |name: &str, content: &str| StageFile {
        path: format!("/w/{name}").into_bytes(),
        canon: format!("/w/{name}").into_bytes(),
        stat: stat(content.as_bytes()),
        content: content.as_bytes().to_vec(),
    };
    let files = vec![
        file(".gitignore", "ignored.txt\n"),
        file("ignored.txt", "should be ignored"),
        file("kept.txt", "should be tracked"),
    ];
    let mut index = IndexFile::empty(2);
    stage_paths(&mut index, b"/w/.git", &rules, &files).unwrap();
    let names: Vec<&[u8]> = index.entries().iter().map(|e| e.path()).collect();
    assert_eq!(names, [&b".gitignore"[..], b"kept.txt"]);
}

#[test]
fn ignore_patterns() {
    let rules = IgnoreRules::load(b"/w", Some("# comment\n\n*.log\nbuild/\ntmp*\nexact\n"));
    assert_eq!(rules.worktree(), b"/w");
    for yes in ["/w/a.log", "/w/d/b.log", "/w/build/x", "/w/tmpfile", "/w/exact"] {
        assert!(rules.is_ignored(yes.as_bytes()), "{yes}");
    }
    for no in ["/w/a.txt", "/v/a.log", "/w/other"] {
        assert!(!rules.is_ignored(no.as_bytes()), "{no}");
    }
}

#[test]
fn stage_paths_roundtrip_index() {
    let rules = IgnoreRules::load(b"/w", None);
    let file = |name: &str, content: &str| StageFile {
        path: format!("/w/{name}").into_bytes(),
        canon: format!("/w/{name}").into_bytes(),
        stat: stat(content.as_bytes()),
        content: content.as_bytes().to_vec(),
    };
    let files = vec![file("top.txt", "hello\n"), file("sub/nested.txt", "x\n")];
    let mut index = IndexFile::empty(2);
    let blobs = stage_paths(&mut index, b"/w/.gift", &rules, &files).unwrap();
    assert_eq!(blobs.len(), 2);
    let idx = parse_index_file(&write_index_file(&index).unwrap()).unwrap();
    assert_eq!(idx.version(), 2);
    let got: Vec<(&[u8], String)> =
        idx.entries().iter().map(|e| (e.path(), e.obj_name().to_string())).collect();
    assert_eq!(
        got,
        [
            (&b"sub/nested.txt"[..], hash_object(b"x\n").0.to_string()),
            (&b"top.txt"[..], "ce013625030ba8dba906f756967f9e9ca394464a".to_string()),
        ]
    );
    let inside = vec![file(".gift/HEAD", "x")];
    assert!(matches!(
        stage_paths(&mut index, b"/w/.gift", &rules, &inside),
        Err(StageError::InRepo(_))
    ));
    let outside = vec![StageFile {
        path: b"/v/x".to_vec(),
        canon: b"/v/x".to_vec(),
        stat: stat(b""),
        content: vec![],
    }];
    assert!(matches!(
        stage_paths(&mut index, b"/w/.gift", &rules, &outside),
        Err(StageError::Index(_))
    ));
}

#[test]
fn files_to_stage_are_found() {
    let leaf = |p: &str| WorkNode::Leaf { canon: p.as_bytes().to_vec() };
    let dir = || WorkNode::Dir {
        canon: b"/w".to_vec(),
        children: vec![
            (b".git".to_vec(), leaf("/w/.git")),
            (b"b".to_vec(), leaf("/w/b")),
            (b"a".to_vec(), leaf("/w/a")),
        ],
    };
    let found = leaves_to_stage(&vec![(b"/w".to_vec(), dir())], b"/w/.gift", true).unwrap();
    assert_eq!(found, [b"/w/a".to_vec(), b"/w/b".to_vec()]);
    assert!(matches!(
        leaves_to_stage(&vec![(b"/w".to_vec(), dir())], b"/w/.gift", false),
        Err(StageError::NotRecursive(_))
    ));
    assert!(matches!(leaves_to_stage(&vec![], b"/g", true), Err(StageError::NoPaths)));
    let other = WorkNode::Other { canon: b"/w/s".to_vec() };
    assert!(matches!(
        leaves_to_stage(&vec![(b"/w/s".to_vec(), other)], b"/g", true),
        Err(StageError::Unsupported(_))
    ));
    let repo = WorkNode::Dir { canon: b"/w/.gift/refs".to_vec(), children: vec![] };
    assert!(matches!(
        leaves_to_stage(&vec![(b"/w/.gift/refs".to_vec(), repo)], b"/w/.gift", true),
        Err(StageError::DirInRepo(_))
    ));
    assert!(is_passed_over(b"/g", b".gift", b"/w/.gift"));
    assert!(!is_passed_over(b"/g", b"x", b"/w/x"));
    assert_eq!(stage_candidate(b"/w", b"x/y"), b"/w/x/y");
    assert!(resolve_stage_inputs(&vec![b"/w/x".to_vec()], b"/w", b"/w/.gift").is_ok());
    assert!(matches!(
        resolve_stage_inputs(&vec![b"/v".to_vec()], b"/w", b"/w/.gift"),
        Err(StageError::NotUnderWorktree(_))
    ));
    assert!(matches!(
        resolve_stage_inputs(&vec![b"/w/.gift/x".to_vec()], b"/w", b"/w/.gift"),
        Err(StageError::InRepo(_))
    ));
    assert_eq!(FileMode::from_metadata(&stat(b"")), Some(FileMode::NExecRegularFile));
}
