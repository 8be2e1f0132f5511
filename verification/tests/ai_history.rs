//! Conversations as commits.
use gift::ai::history::{commit_summary, graph, line_summary, log, BranchFile, GraphError};
use gift::ai::merge::{first_line, merge, ChatMergeError, ChatPlan};
use gift::ai::messages::{message_filename, Message, Role};
use gift::commit::commit;
use gift::commit_object::CommitIdentity;
use gift::head::Head;
use gift::index::{add_index, FileStat, IndexFile};
use gift::object::{hash_object, ObjectError, ObjectSha};
use gift::object_db::ObjectDb;
use gift::reference::RefError;

fn id() -> CommitIdentity {
    CommitIdentity {
        name: "Gift Test".into(),
        email: "gift@test.local".into(),
        unix_time: 1_700_000_000,
        tz: "+0800".into(),
    }
}

fn stat(content: &[u8]) -> FileStat {
    FileStat {
        ctime_sec: 1,
        ctime_nsec: 2,
        mtime_sec: 3,
        mtime_nsec: 4,
        dev: 5,
        ino: 6,
        mode: 0o100644,
        uid: 7,
        gid: 8,
        size: content.len() as u64,
        is_file: true,
        is_symlink: false,
    }
}

/// A repository in memory.
struct Repo {
    db: ObjectDb,
    index: IndexFile,
    head: String,
    refs: Vec<(String, String)>,
}

impl Repo {
    fn new() -> Repo {
        Repo {
            db: ObjectDb::new(),
            index: IndexFile::empty(2),
            head: "ref: refs/heads/master\n".to_string(),
            refs: Vec::new(),
        }
    }

    fn get(&self, path: &str) -> Option<&str> {
        self.refs.iter().find(|(p, _)| p == path).map(|(_, c)| c.as_str())
    }

    fn set(&mut self, path: &str, content: &str) {
        if path == "HEAD" {
            self.head = content.to_string();
            return;
        }
        self.refs.retain(|(p, _)| p != path);
        self.refs.push((path.to_string(), content.to_string()));
    }

    fn tip(&self) -> Option<&str> {
        match Head::read(&self.head).unwrap() {
            Head::TargetBranch { branch_ref_path } => self.get(&branch_ref_path),
            Head::TargetCommit(_) => None,
        }
    }

    fn add(&mut self, path: &str, content: &str) -> ObjectSha {
        let (oid, raw) = hash_object(content.as_bytes());
        self.db.insert(oid, raw);
        add_index(&mut self.index, &stat(content.as_bytes()), path.as_bytes().to_vec(), oid)
            .unwrap();
        oid
    }

    fn remove(&mut self, path: &str) {
        self.index.remove_entry(path.as_bytes());
    }

    fn commit_as(&mut self, message: &str, who: CommitIdentity, merged: Option<ObjectSha>) -> ObjectSha {
        let committer = who.copy();
        let n = commit(
            &self.db,
            &self.index,
            &self.head,
            self.tip(),
            merged,
            who,
            committer,
            message,
        )
        .unwrap();
        for (oid, raw) in n.trees {
            self.db.insert(oid, raw);
        }
        self.db.insert_compressed(n.oid, &n.file).unwrap();
        self.set(&n.update.path, &n.update.content);
        n.oid
    }

    fn commit(&mut self, message: &str) -> ObjectSha {
        self.commit_as(message, id(), None)
    }
}

impl Repo {
    /// Records a round at a given time.
    fn ask(&mut self, round: u32, question: &str, time: i64) -> ObjectSha {
        self.add(&message_filename(2 * round, Role::User), question);
        self.add(&message_filename(2 * round + 1, Role::Assistant), &format!("re {question}"));
        let mut who = id();
        who.unix_time = time;
        self.commit_as(question, who, None)
    }

    fn files(&self) -> Vec<BranchFile> {
        self.refs
            .iter()
            .map(|(p, c)| BranchFile {
                name: p.strip_prefix("refs/heads/").unwrap().to_string(),
                content: c.clone(),
            })
            .collect()
    }

    fn short(&self, path: &str) -> String {
        self.get(path).unwrap()[..8].to_string()
    }
}

/// A conversation whose branches part after the first round.
fn parted() -> Repo {
    let mut repo = Repo::new();
    repo.add("0001-system.txt", "s");
    repo.ask(1, "q1", 100);
    let base = repo.get("refs/heads/master").unwrap().to_string();
    repo.ask(2, "ours2", 110);
    repo.ask(3, "ours3", 130);
    repo.set("refs/heads/other", &base);
    repo.head = "ref: refs/heads/other\n".to_string();
    repo.index = IndexFile::empty(2);
    repo.add("0001-system.txt", "s");
    repo.add("0002-user.txt", "q1");
    repo.add("0003-assistant.txt", "re q1");
    repo.ask(2, "theirs2", 120);
    repo.head = "ref: refs/heads/master\n".to_string();
    repo
}

#[test]
fn lines_sum_up_messages() {
    assert_eq!(line_summary("\n  a b \nc"), "a b");
    assert_eq!(line_summary(" \n"), "");
    assert_eq!(line_summary(&"x".repeat(41)), format!("{}…", "x".repeat(40)));
    assert_eq!(first_line(b"\n \n x\ny"), "x");
    let (s, n) = commit_summary(b"q\n\nGiftai-context: rounds 1, 2\n");
    assert_eq!(s, "q");
    assert_eq!(n.as_deref(), Some("仅基于第 1, 2 轮"));
    assert_eq!(commit_summary(b""), ("(无摘要)".to_string(), None));
}

#[test]
fn rounds_are_listed() {
    let repo = parted();
    let head = Head::read(&repo.head).unwrap();
    let ms = vec![
        Message::system("s"),
        Message::user("记住一个数字：42"),
        Message::assistant("好的"),
        Message::user("q2"),
    ];
    let shown = log(&repo.db, &ms, Some(&head), repo.tip());
    assert_eq!(
        shown,
        [
            format!("当前节点 {} (master)   共 2 轮", repo.short("refs/heads/master")),
            "轮1  记住一个数字：42  → 好的".to_string(),
            "轮2  q2  → (无回答)".to_string(),
        ]
    );
    assert_eq!(log(&repo.db, &ms, None, None)[0], "当前节点 (未提交)   共 2 轮");
    let none = log(&repo.db, &ms[..1], None, None);
    assert_eq!(none, ["(还没有任何对话轮次,先用 `giftai ask \"...\"` 开始)"]);
}

#[test]
fn the_tree_of_conversations_is_drawn() {
    let repo = parted();
    let shown = graph(&repo.db, &repo.head, &repo.files()).unwrap();
    let root = shown[0].clone();
    assert_eq!(shown.len(), 4);
    assert!(root.starts_with("└── ● 轮1  ") && root.ends_with("  q1"), "{root}");
    assert!(shown[1].starts_with("    ├── ● 轮2  ") && shown[1].ends_with("  ours2"));
    assert_eq!(
        shown[2],
        format!(
            "    │   └── ● 轮3  {}  ours3  [master (当前)]",
            repo.short("refs/heads/master")
        )
    );
    assert_eq!(
        shown[3],
        format!("    └── ● 轮2  {}  theirs2  [other]", repo.short("refs/heads/other"))
    );
    let tip = repo.get("refs/heads/other").unwrap();
    let loose = graph(&repo.db, tip, &repo.files()).unwrap();
    assert!(loose[3].ends_with("  [other, HEAD 游离]"), "{}", loose[3]);
}

#[test]
fn trees_that_cannot_be_drawn() {
    let repo = parted();
    let none = graph(&repo.db, &repo.head, &[]).unwrap();
    assert_eq!(none, ["(还没有任何对话轮次,先用 `giftai ask \"...\"` 开始)"]);
    assert_eq!(graph(&repo.db, "?", &[]), Err(GraphError::Head(RefError::NotARef)));
    let bad = [BranchFile { name: "x".into(), content: "ref: y".into() }];
    assert_eq!(
        graph(&repo.db, &repo.head, &bad),
        Err(GraphError::Branch(RefError::Symbolic))
    );
    let mut part = ObjectDb::new();
    let tip = ObjectSha::from_hex(repo.get("refs/heads/other").unwrap().trim()).unwrap();
    part.insert(tip, repo.db.get(&tip).unwrap().clone());
    let one = [BranchFile { name: "o".into(), content: tip.to_string() }];
    assert!(matches!(
        graph(&part, &repo.head, &one),
        Err(GraphError::Commit(ObjectError::Missing(_)))
    ));
}

#[test]
fn conversations_are_merged_by_time() {
    let repo = parted();
    let their = repo.get("refs/heads/other");
    let plan = merge(&repo.db, &repo.head, repo.tip(), "other", their).unwrap();
    match plan {
        ChatPlan::Join { remove, rounds, theirs, message } => {
            assert_eq!(
                remove,
                [
                    "0004-user.txt",
                    "0005-assistant.txt",
                    "0006-user.txt",
                    "0007-assistant.txt"
                ]
            );
            let users: Vec<(&str, &[u8])> =
                rounds.iter().map(|r| (r.user_file.as_str(), &r.user[..])).collect();
            assert_eq!(
                users,
                [
                    ("0004-user.txt", &b"ours2"[..]),
                    ("0006-user.txt", b"theirs2"),
                    ("0008-user.txt", b"ours3"),
                ]
            );
            assert_eq!(rounds[2].assistant_file, "0009-assistant.txt");
            assert_eq!(rounds[2].assistant, b"re ours3");
            assert_eq!(rounds[1].line, "  轮3 ← other 旧轮2  theirs2");
            assert_eq!(theirs.to_string(), their.unwrap().trim());
            assert_eq!(message, "Merge other into master");
        }
        other => panic!("{other:?}"),
    }
}

#[test]
fn conversations_that_need_no_merging() {
    let mut repo = Repo::new();
    repo.ask(1, "q1", 100);
    let one = repo.get("refs/heads/master").unwrap().to_string();
    repo.ask(2, "q2", 110);
    let two = repo.get("refs/heads/master").unwrap().to_string();
    let run = |ours: &str, theirs: &str| {
        merge(&repo.db, "ref: refs/heads/m\n", Some(ours), "o", Some(theirs)).unwrap()
    };
    assert!(matches!(run(&two, &one), ChatPlan::Contained));
    assert!(matches!(run(&two, &two), ChatPlan::Contained));
    match run(&one, &two) {
        ChatPlan::FastForward(oid) => assert_eq!(oid.to_string(), two.trim()),
        other => panic!("{other:?}"),
    }
}

#[test]
fn conversations_that_cannot_be_merged() {
    let repo = parted();
    let tip = repo.tip().unwrap();
    let their = repo.get("refs/heads/other");
    let run = |head: &str, ours: Option<&str>, name: &str, theirs: Option<&str>| {
        merge(&repo.db, head, ours, name, theirs).map(|_| ()).unwrap_err()
    };
    let on = "ref: refs/heads/master\n";
    assert_eq!(run("?", None, "x", None), ChatMergeError::Head(RefError::NotARef));
    assert_eq!(run(tip, None, "x", None), ChatMergeError::Detached);
    assert_eq!(run(on, Some(tip), "master", their), ChatMergeError::SameBranch);
    assert_eq!(run(on, None, "x", their), ChatMergeError::NoCommit(RefError::NoTarget));
    assert_eq!(run(on, Some(tip), "x", None), ChatMergeError::NoBranch);
    assert_eq!(
        run(on, Some(tip), "x", Some("?")),
        ChatMergeError::BadBranch(RefError::BadLength)
    );

    let mut apart = Repo::new();
    apart.ask(1, "a", 1);
    let a = apart.get("refs/heads/master").unwrap().to_string();
    apart.head = "ref: refs/heads/z\n".into();
    apart.ask(1, "z", 2);
    let z = apart.get("refs/heads/z").unwrap().to_string();
    assert_eq!(
        merge(&apart.db, on, Some(&a), "z", Some(&z)).map(|_| ()).unwrap_err(),
        ChatMergeError::Unrelated
    );
}

#[test]
fn rounds_without_their_files_are_reported() {
    let mut repo = Repo::new();
    repo.ask(1, "q1", 1);
    let base = repo.get("refs/heads/master").unwrap().to_string();
    repo.add("note", "x");
    repo.commit("no round");
    let ours = repo.get("refs/heads/master").unwrap().to_string();
    repo.head = base;
    repo.ask(2, "q2", 3);
    let theirs = repo.head.clone();
    assert_eq!(
        merge(&repo.db, "ref: refs/heads/m\n", Some(&ours), "o", Some(&theirs))
            .map(|_| ())
            .unwrap_err(),
        ChatMergeError::MissingFile { seq: 4, role: Role::User }
    );
}

#[test]
fn lines_that_were_merged_before_are_refused() {
    let mut repo = parted();
    let their = repo.get("refs/heads/other").unwrap().to_string();
    let theirs = ObjectSha::from_hex(their.trim()).unwrap();
    let joined = repo.commit_as("join", id(), Some(theirs));
    let more = repo.ask(9, "more", 900);
    let ours = format!("{}\n", more.to_string());
    repo.head = their;
    let side = repo.ask(8, "side", 800);
    let r = merge(
        &repo.db,
        "ref: refs/heads/m\n",
        Some(&ours),
        "o",
        Some(&format!("{}\n", side.to_string())),
    );
    assert_eq!(r.map(|_| ()).unwrap_err(), ChatMergeError::NotLinear);
    assert_ne!(joined, more);
}
