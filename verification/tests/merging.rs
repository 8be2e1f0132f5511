//! Merging of trees, contents and histories.
use gift::commit::commit;
use gift::commit_object::{CommitIdentity, CommitObject};
use gift::fetch::FetchedRef;
use gift::get_args::{default_merge_message, report_merge_outcome};
use gift::head::Head;
use gift::index::{add_index, FileStat, IndexFile};
use gift::merge::{
    conflict_paths, merge, merge_apply, merge_bytes, merge_commit, merge_state, merge_trees,
    read_commit_tree, record_action, resolve_to_commit_oid, target_ref, MergeEntry, MergeError,
    MergeOutcome, MergePlan, WorktreeAction,
};
use gift::object::{hash_object, FileMode, ObjectSha};
use gift::object_db::ObjectDb;
use gift::pull::{
    current_branch_name, default_message, merge_remote_tracking, pull, tip_after, tracking_ref,
    PullError,
};

fn id() -> CommitIdentity {
    CommitIdentity {
        name: "Gift Test".into(),
        email: "gift@test.local".into(),
        unix_time: 1_700_000_000,
        tz: "+0800".into(),
    }
}

fn stat(content: &[u8]) -> FileStat {
    FileStat {
        ctime_sec: 1,
        ctime_nsec: 2,
        mtime_sec: 3,
        mtime_nsec: 4,
        dev: 5,
        ino: 6,
        mode: 0o100644,
        uid: 7,
        gid: 8,
        size: content.len() as u64,
        is_file: true,
        is_symlink: false,
    }
}

/// A repository in memory.
struct Repo {
    db: ObjectDb,
    index: IndexFile,
    head: String,
    refs: Vec<(String, String)>,
}

impl Repo {
    fn new() -> Repo {
        Repo {
            db: ObjectDb::new(),
            index: IndexFile::empty(2),
            head: "ref: refs/heads/master\n".to_string(),
            refs: Vec::new(),
        }
    }

    fn get(&self, path: &str) -> Option<&str> {
        self.refs.iter().find(|(p, _)| p == path).map(|(_, c)| c.as_str())
    }

    fn set(&mut self, path: &str, content: &str) {
        if path == "HEAD" {
            self.head = content.to_string();
            return;
        }
        self.refs.retain(|(p, _)| p != path);
        self.refs.push((path.to_string(), content.to_string()));
    }

    fn tip(&self) -> Option<&str> {
        match Head::read(&self.head).unwrap() {
            Head::TargetBranch { branch_ref_path } => self.get(&branch_ref_path),
            Head::TargetCommit(_) => None,
        }
    }

    fn add(&mut self, path: &str, content: &str) -> ObjectSha {
        let (oid, raw) = hash_object(content.as_bytes());
        self.db.insert(oid, raw);
        add_index(&mut self.index, &stat(content.as_bytes()), path.as_bytes().to_vec(), oid)
            .unwrap();
        oid
    }

    fn remove(&mut self, path: &str) {
        self.index.remove_entry(path.as_bytes());
    }

    fn commit_as(&mut self, message: &str, who: CommitIdentity, merged: Option<ObjectSha>) -> ObjectSha {
        let committer = who.copy();
        let n = commit(
            &self.db,
            &self.index,
            &self.head,
            self.tip(),
            merged,
            who,
            committer,
            message,
        )
        .unwrap();
        for (oid, raw) in n.trees {
            self.db.insert(oid, raw);
        }
        self.db.insert_compressed(n.oid, &n.file).unwrap();
        self.set(&n.update.path, &n.update.content);
        n.oid
    }

    fn commit(&mut self, message: &str) -> ObjectSha {
        self.commit_as(message, id(), None)
    }
}

fn find_entry<'a>(entries: &'a [MergeEntry], path: &[&str]) -> Option<&'a MergeEntry> {
    for entry in entries {
        let name = match entry {
            MergeEntry::Take { name, .. }
            | MergeEntry::Delete { name }
            | MergeEntry::Conflict { name, .. }
            | MergeEntry::Subtree { name, .. } => name,
        };
        if name != path[0].as_bytes() {
            continue;
        }
        if path.len() == 1 {
            return Some(entry);
        }
        if let MergeEntry::Subtree { entries, .. } = entry {
            return find_entry(entries, &path[1..]);
        }
        return None;
    }
    None
}

/// Three commits: a base, and two that follow it with other files.
fn three(
    base: &[(&str, &str)],
    ours: &[(&str, &str)],
    theirs: &[(&str, &str)],
) -> (Repo, ObjectSha, ObjectSha, ObjectSha) {
    let mut repo = Repo::new();
    let fill = |repo: &mut Repo, files: &[(&str, &str)]| {
        repo.index = IndexFile::empty(2);
        for (p, c) in files {
            repo.add(p, c);
        }
    };
    fill(&mut repo, base);
    let b = repo.commit("base");
    fill(&mut repo, ours);
    let o = repo.commit("ours");
    repo.head = format!("{}\n", b.to_string());
    fill(&mut repo, theirs);
    let t = repo.commit("theirs");
    (repo, b, o, t)
}

fn trees_merged(x: &(Repo, ObjectSha, ObjectSha, ObjectSha)) -> Vec<MergeEntry> {
    let tree = |c: &ObjectSha| read_commit_tree(&x.0.db, c).unwrap();
    merge_trees(&x.0.db, &tree(&x.1), &tree(&x.2), &tree(&x.3)).unwrap()
}

fn taken(e: Option<&MergeEntry>) -> ObjectSha {
    match e.expect("entry") {
        MergeEntry::Take { oid, .. } => *oid,
        other => panic!("should be taken, got {other:?}"),
    }
}

#[test]
fn two_level_subtree_both_change_different_files() {
    let x = three(
        &[("src/foo.rs", "foo\n"), ("src/bar.rs", "bar\n")],
        &[("src/foo.rs", "foo modified\n"), ("src/bar.rs", "bar\n")],
        &[("src/foo.rs", "foo\n"), ("src/bar.rs", "bar modified\n")],
    );
    let result = trees_merged(&x);
    assert!(matches!(find_entry(&result, &["src"]), Some(MergeEntry::Subtree { .. })));
    assert_eq!(taken(find_entry(&result, &["src", "foo.rs"])), hash_object(b"foo modified\n").0);
    assert_eq!(taken(find_entry(&result, &["src", "bar.rs"])), hash_object(b"bar modified\n").0);
}

#[test]
fn three_level_subtree_recursive_merge() {
    let x = three(
        &[("a/b/x.txt", "x\n"), ("a/b/y.txt", "y\n")],
        &[("a/b/x.txt", "x modified by ours\n"), ("a/b/y.txt", "y\n")],
        &[("a/b/x.txt", "x\n"), ("a/b/y.txt", "y modified by theirs\n")],
    );
    let result = trees_merged(&x);
    assert!(matches!(find_entry(&result, &["a"]), Some(MergeEntry::Subtree { .. })));
    assert!(matches!(find_entry(&result, &["a", "b"]), Some(MergeEntry::Subtree { .. })));
    assert_eq!(
        taken(find_entry(&result, &["a", "b", "x.txt"])),
        hash_object(b"x modified by ours\n").0
    );
    assert_eq!(
        taken(find_entry(&result, &["a", "b", "y.txt"])),
        hash_object(b"y modified by theirs\n").0
    );
}

#[test]
fn nested_dirs_conflict_at_leaf() {
    let x = three(
        &[("lib/core/mod.rs", "v1\n")],
        &[("lib/core/mod.rs", "ours version\n")],
        &[("lib/core/mod.rs", "theirs version\n")],
    );
    let result = trees_merged(&x);
    assert!(matches!(find_entry(&result, &["lib"]), Some(MergeEntry::Subtree { .. })));
    assert!(matches!(find_entry(&result, &["lib", "core"]), Some(MergeEntry::Subtree { .. })));
    match find_entry(&result, &["lib", "core", "mod.rs"]).expect("mod.rs") {
        MergeEntry::Conflict { base, ours, theirs, .. } => {
            assert_eq!(base.map(|s| s.1), Some(hash_object(b"v1\n").0));
            assert_eq!(ours.map(|s| s.1), Some(hash_object(b"ours version\n").0));
            assert_eq!(theirs.map(|s| s.1), Some(hash_object(b"theirs version\n").0));
        }
        other => panic!("{other:?}"),
    }
}

#[test]
fn one_side_adds_subtree_other_modifies_file() {
    let x = three(
        &[("root.txt", "root\n")],
        &[("root.txt", "root\n"), ("extra/helper.rs", "helper\n")],
        &[("root.txt", "root modified\n")],
    );
    let result = trees_merged(&x);
    let extra = *read_commit_tree(&x.0.db, &x.2).unwrap().entries().get(b"extra").unwrap();
    assert_eq!(taken(find_entry(&result, &["extra"])), extra.object_name);
    assert_eq!(taken(find_entry(&result, &["root.txt"])), hash_object(b"root modified\n").0);
}

#[test]
fn deletions_are_merged() {
    let x = three(&[("a", "1"), ("b", "1")], &[("a", "1")], &[("a", "2"), ("b", "1")]);
    let result = trees_merged(&x);
    assert!(matches!(find_entry(&result, &["b"]), Some(MergeEntry::Delete { .. })));
    let x = three(&[("a", "1")], &[], &[("a", "2")]);
    match find_entry(&trees_merged(&x), &["a"]) {
        Some(MergeEntry::Conflict { ours, .. }) => assert!(ours.is_none()),
        other => panic!("{other:?}"),
    }
}

#[test]
fn merging_the_other_way_round_swaps_the_sides() {
    let x = three(
        &[("a", "1"), ("b", "1"), ("d/e", "1")],
        &[("a", "2"), ("b", "1"), ("d/e", "2")],
        &[("a", "3"), ("d/e", "1"), ("d/f", "1")],
    );
    let tree = |c: &ObjectSha| read_commit_tree(&x.0.db, c).unwrap();
    let there = merge_trees(&x.0.db, &tree(&x.1), &tree(&x.2), &tree(&x.3)).unwrap();
    let back = merge_trees(&x.0.db, &tree(&x.1), &tree(&x.3), &tree(&x.2)).unwrap();
    match (find_entry(&there, &["a"]), find_entry(&back, &["a"])) {
        (
            Some(MergeEntry::Conflict { ours, theirs, .. }),
            Some(MergeEntry::Conflict { ours: ours2, theirs: theirs2, .. }),
        ) => {
            assert_eq!(ours, theirs2);
            assert_eq!(theirs, ours2);
        }
        other => panic!("{other:?}"),
    }
    for merged in [&there, &back] {
        assert!(matches!(find_entry(merged, &["b"]), Some(MergeEntry::Delete { .. })));
        assert_eq!(taken(find_entry(merged, &["d", "e"])), hash_object(b"2").0);
        assert_eq!(taken(find_entry(merged, &["d", "f"])), hash_object(b"1").0);
    }
}

#[test]
fn contents_are_merged() {
    let base = b"1\n2\n3\n4\n5\n";
    let ours = b"one\n2\n3\n4\n5\n";
    let theirs = b"1\n2\n3\n4\nfive\n";
    assert_eq!(merge_bytes(base, ours, theirs).unwrap(), b"one\n2\n3\n4\nfive\n");
    let clash = String::from_utf8(merge_bytes(b"a\n", b"b\n", b"c\n").unwrap_err()).unwrap();
    for part in ["<<<<<<<", "b\n", "=======", "c\n", ">>>>>>>"] {
        assert!(clash.contains(part), "{clash}");
    }
    assert_eq!(merge_bytes(b"a", b"b\0", b"c").unwrap_err(), b"b\0");
    assert_eq!(merge_bytes(b"a", b"\xff", b"c").unwrap_err(), b"\xff");
}

#[test]
fn merge_plans_follow_the_histories() {
    let x = three(
        &[("f", "1\n2\n3\n4\n5\n"), ("g", "x")],
        &[("f", "one\n2\n3\n4\n5\n"), ("g", "x")],
        &[("f", "1\n2\n3\n4\nfive\n"), ("d/n", "new")],
    );
    let (repo, b, o, t) = (&x.0, x.1, x.2, x.3);
    assert!(matches!(merge(&repo.db, &o, &b).unwrap(), MergePlan::UpToDate));
    assert!(matches!(merge(&repo.db, &o, &o).unwrap(), MergePlan::UpToDate));
    assert!(matches!(merge(&repo.db, &b, &o).unwrap(), MergePlan::FastForward(_)));
    let actions = match merge(&repo.db, &o, &t).unwrap() {
        MergePlan::ThreeWay(a) => a,
        other => panic!("{other:?}"),
    };
    assert!(conflict_paths(&actions).is_empty());
    let mut merged = None;
    let mut removed = vec![];
    for a in &actions {
        match a {
            WorktreeAction::WriteMerged { path, content, .. } => {
                merged = Some((path.clone(), content.clone()));
            }
            WorktreeAction::Remove { path, .. } => removed.push(path.clone()),
            _ => {}
        }
    }
    assert_eq!(merged, Some((b"f".to_vec(), b"one\n2\n3\n4\nfive\n".to_vec())));
    assert_eq!(removed, [b"g".to_vec()]);

    let mut index = IndexFile::empty(2);
    for a in &actions {
        record_action(&mut index, a, Some(&stat(b"12345"))).unwrap();
    }
    let paths: Vec<&[u8]> = index.entries().iter().map(|e| e.path()).collect();
    assert_eq!(paths, [&b"d/n"[..], b"f"]);
    let made = merge_commit(&index, &o, &t, id(), id(), "Merge\n").unwrap();
    let mut db = ObjectDb::new();
    db.insert_compressed(made.oid, &made.file).unwrap();
    let c = CommitObject::read_loose_commit(&db, &made.oid).unwrap();
    assert_eq!(c.parents, vec![o, t]);
    assert_eq!(c.message, b"Merge\n");
}

#[test]
fn conflicts_are_left_to_be_resolved() {
    let x = three(&[("d/f", "a\n")], &[("d/f", "b\n")], &[("d/f", "c\n")]);
    let entries = trees_merged(&x);
    let actions = merge_apply(&x.0.db, &entries, b"").unwrap();
    assert_eq!(conflict_paths(&actions), [b"d/f".to_vec()]);
    let mut index = IndexFile::empty(2);
    for a in &actions {
        record_action(&mut index, a, None).unwrap();
    }
    let (o, t) = (ObjectSha::SHA1([1; 20]), ObjectSha::SHA1([2; 20]));
    let files = |t: &ObjectSha, a: &Vec<WorktreeAction>| -> Vec<(String, String)> {
        merge_state(t, &o, a, "Merge x\n").into_iter().map(|f| (f.path, f.content)).collect()
    };
    let orig = ("ORIG_HEAD".to_string(), format!("{}\n", o.to_string()));
    assert_eq!(
        files(&t, &actions),
        [
            orig.clone(),
            ("MERGE_HEAD".to_string(), format!("{}\n", t.to_string())),
            ("MERGE_MSG".to_string(), "Merge x\n".to_string()),
        ]
    );
    assert_eq!(files(&t, &Vec::new()), [orig]);
    assert_eq!(files(&o, &actions), []);
    assert!(index.has_conflict_entries(b"d/f"));
    assert!(index.get_entry(b"d/f").is_none());
}

#[test]
fn unrelated_histories_do_not_merge() {
    let mut repo = Repo::new();
    repo.add("a", "1");
    let a = repo.commit("a");
    repo.head = "ref: refs/heads/other\n".to_string();
    let b = repo.commit("b");
    assert_eq!(merge(&repo.db, &a, &b).map(|_| ()), Err(MergeError::Unrelated));
    let gone = ObjectSha::SHA1([1; 20]);
    assert!(matches!(merge(&repo.db, &a, &gone), Err(MergeError::Object(_))));
}

#[test]
fn merge_targets_are_resolved() {
    let hex = "ce013625030ba8dba906f756967f9e9ca394464a";
    let oid = ObjectSha::from_hex(hex).unwrap();
    assert_eq!(target_ref(hex), None);
    assert_eq!(target_ref("feature").as_deref(), Some("refs/heads/feature"));
    assert_eq!(resolve_to_commit_oid(hex, None), Ok(oid));
    assert_eq!(resolve_to_commit_oid("feature", Some(&format!("{hex}\n"))), Ok(oid));
    assert_eq!(resolve_to_commit_oid("feature", None), Err(MergeError::NoBranch));
    assert_eq!(resolve_to_commit_oid("feature", Some("x")), Err(MergeError::BadBranch));
    assert_eq!(default_merge_message(hex), format!("Merge commit '{hex}'\n"));
    assert_eq!(default_merge_message("x"), "Merge branch 'x'\n");
    assert_eq!(
        report_merge_outcome(&MergeOutcome::FastForward(oid)),
        (vec![format!("Fast-forward\n  HEAD -> {hex}")], false)
    );
    assert_eq!(
        report_merge_outcome(&MergeOutcome::Conflict(vec![b"a/b".to_vec()])),
        (
            vec![
                "CONFLICT: automatic merge failed; fix conflicts and then commit.".to_string(),
                "  conflict: a/b".to_string()
            ],
            true
        )
    );
    assert_eq!(report_merge_outcome(&MergeOutcome::AlreadyUpToDate).0, ["Already up to date."]);
    assert_eq!(
        report_merge_outcome(&MergeOutcome::Clean(oid)).0,
        [format!("Merge made by 'resolve' strategy.\n  {hex}")]
    );
}

#[test]
fn merge_remote_tracking_fast_forwards() {
    let mut repo = Repo::new();
    repo.add("a.txt", "1\n");
    let a = repo.commit("A");
    repo.add("a.txt", "2\n");
    let b = repo.commit("B");
    let line = format!("{}\n", b.to_string());
    let (tip, plan) = merge_remote_tracking(&repo.db, &a, Some(&line), None).unwrap();
    assert_eq!(tip, b);
    match plan {
        MergePlan::FastForward(actions) => assert!(matches!(
            &actions[..],
            [WorktreeAction::WriteFile { content, .. }] if content == b"2\n"
        )),
        other => panic!("{other:?}"),
    }
}

#[test]
fn merge_remote_tracking_already_up_to_date() {
    let mut repo = Repo::new();
    repo.add("a.txt", "1\n");
    let a = repo.commit("A");
    let line = format!("{}\n", a.to_string());
    let merged = |tip, local| merge_remote_tracking(&repo.db, &a, tip, local);
    assert!(matches!(merged(Some(&line), None).unwrap().1, MergePlan::UpToDate));
    assert!(matches!(merged(Some("side\n"), Some(&line)).unwrap().1, MergePlan::UpToDate));
    assert_eq!(merged(None, None).map(|_| ()).unwrap_err(), MergeError::NoBranch);
    assert_eq!(merged(Some("?"), None).map(|_| ()).unwrap_err(), MergeError::NoBranch);
    assert_eq!(merged(Some("?"), Some("?")).map(|_| ()).unwrap_err(), MergeError::BadBranch);
}

#[test]
fn a_pull_merges_what_was_fetched() {
    let mut repo = Repo::new();
    repo.add("a.txt", "1\n");
    let a = repo.commit("A");
    repo.add("a.txt", "2\n");
    let b = repo.commit("B");
    let path = tracking_ref("origin", "main");
    let fetched = |name: &str, oid: ObjectSha| FetchedRef {
        remote_name: "refs/heads/main".into(),
        local_name: name.into(),
        sha: oid.to_string(),
    };
    let refs = [fetched(&path, a), fetched(&path, b), fetched("refs/tags/t", a)];
    let old = Some(format!("{}\n", a.to_string()));
    assert_eq!(tip_after(&refs, &path, old.clone()), Some(format!("{}\n", b.to_string())));
    assert_eq!(tip_after(&refs[2..], &path, old.clone()), old);
    let done = pull::<u8>(Ok(&refs), &repo.db, &a, &path, old.clone(), None).unwrap();
    assert_eq!(done.0, b);
    assert!(matches!(done.1, MergePlan::FastForward(_)));
    let done = pull::<u8>(Ok(&refs[2..]), &repo.db, &a, &path, old.clone(), None).unwrap();
    assert!(matches!(done.1, MergePlan::UpToDate));
    let failed = pull::<u8>(Err(7), &repo.db, &a, &path, old, None);
    assert!(matches!(failed, Err(PullError::Fetch(7))));
    let failed = pull::<u8>(Ok(&[]), &repo.db, &a, &path, None, None);
    assert!(matches!(failed, Err(PullError::Merge(MergeError::NoBranch))));
}

#[test]
fn pulling_names_what_it_merges() {
    assert_eq!(tracking_ref("origin", "main"), "refs/remotes/origin/main");
    let text = default_message("origin", "main");
    assert!(text.contains("origin") && text.contains("main"), "{text}");
    let on = Head::TargetBranch { branch_ref_path: "refs\\heads/f/x".into() };
    assert_eq!(current_branch_name(&on).as_deref(), Some("f/x"));
    assert_eq!(current_branch_name(&Head::TargetCommit(ObjectSha::SHA1([0; 20]))), None);
    assert_eq!(FileMode::from_metadata(&stat(b"")), Some(FileMode::NExecRegularFile));
}
