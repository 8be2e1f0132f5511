//! Cloning, fetching and pushing.
use gift::clone_plan::{
    clone_to_disk, dir_name_from_url, write_loose_object, CheckoutItem, CloneError,
};
use gift::commit::commit;
use gift::commit_object::CommitIdentity;
use gift::deal_pktlines::{read_pkt_line, write_pkt_line, PktError, PktLine};
use gift::fetch::{collect_local_haves, fetch_summary, fetch_to_disk, shortened};
use gift::get_packfile_by_network::{Ref, RefAdvertisement};
use gift::head::Head;
use gift::index::{add_index, FileStat, IndexFile};
use gift::object::{frame, hash_object, hash_raw, ObjectSha};
use gift::object_db::ObjectDb;
use gift::object_graph::{collect_to_send, commit_children, mark_present, tree_children, GraphError};
use gift::oid_list::OidList;
use gift::parse_packfile::{build_pack, parse_pack, Kind};
use gift::push::{
    parse_report_status, push, push_outcome, push_summary, tracking_update, PushError, PushPlan,
    PushRequest, PushResult,
};

fn id() -> CommitIdentity {
    CommitIdentity {
        name: "Gift Test".into(),
        email: "gift@test.local".into(),
        unix_time: 1_700_000_000,
        tz: "+0800".into(),
    }
}

fn stat(content: &[u8]) -> FileStat {
    FileStat {
        ctime_sec: 1,
        ctime_nsec: 2,
        mtime_sec: 3,
        mtime_nsec: 4,
        dev: 5,
        ino: 6,
        mode: 0o100644,
        uid: 7,
        gid: 8,
        size: content.len() as u64,
        is_file: true,
        is_symlink: false,
    }
}

/// A repository in memory.
struct Repo {
    db: ObjectDb,
    index: IndexFile,
    head: String,
    refs: Vec<(String, String)>,
}

impl Repo {
    fn new() -> Repo {
        Repo {
            db: ObjectDb::new(),
            index: IndexFile::empty(2),
            head: "ref: refs/heads/master\n".to_string(),
            refs: Vec::new(),
        }
    }

    fn get(&self, path: &str) -> Option<&str> {
        self.refs.iter().find(|(p, _)| p == path).map(|(_, c)| c.as_str())
    }

    fn set(&mut self, path: &str, content: &str) {
        if path == "HEAD" {
            self.head = content.to_string();
            return;
        }
        self.refs.retain(|(p, _)| p != path);
        self.refs.push((path.to_string(), content.to_string()));
    }

    fn tip(&self) -> Option<&str> {
        match Head::read(&self.head).unwrap() {
            Head::TargetBranch { branch_ref_path } => self.get(&branch_ref_path),
            Head::TargetCommit(_) => None,
        }
    }

    fn add(&mut self, path: &str, content: &str) -> ObjectSha {
        let (oid, raw) = hash_object(content.as_bytes());
        self.db.insert(oid, raw);
        add_index(&mut self.index, &stat(content.as_bytes()), path.as_bytes().to_vec(), oid)
            .unwrap();
        oid
    }

    fn remove(&mut self, path: &str) {
        self.index.remove_entry(path.as_bytes());
    }

    fn commit_as(&mut self, message: &str, who: CommitIdentity, merged: Option<ObjectSha>) -> ObjectSha {
        let committer = who.copy();
        let n = commit(
            &self.db,
            &self.index,
            &self.head,
            self.tip(),
            merged,
            who,
            committer,
            message,
        )
        .unwrap();
        for (oid, raw) in n.trees {
            self.db.insert(oid, raw);
        }
        self.db.insert_compressed(n.oid, &n.file).unwrap();
        self.set(&n.update.path, &n.update.content);
        n.oid
    }

    fn commit(&mut self, message: &str) -> ObjectSha {
        self.commit_as(message, id(), None)
    }
}

fn adv(refs: &[(&str, &str)], head: Option<&str>) -> RefAdvertisement {
    RefAdvertisement {
        refs: refs
            .iter()
            .map(|(n, s)| Ref { sha: s.to_string(), name: n.to_string() })
            .collect(),
        caps: vec![],
        head_target: head.map(str::to_string),
    }
}

/// Two commits, the second with a changed and a new file.
fn two() -> (Repo, ObjectSha, ObjectSha) {
    let mut repo = Repo::new();
    repo.add("a.txt", "hello\n");
    repo.add("d/b.txt", "b\n");
    let a = repo.commit("A");
    repo.add("a.txt", "hello again\n");
    repo.add("c.txt", "c\n");
    let b = repo.commit("B");
    (repo, a, b)
}

fn packed(repo: &Repo, tip: &ObjectSha) -> Vec<(Kind, Vec<u8>)> {
    collect_to_send(&repo.db, tip, &OidList::new()).unwrap()
}

#[test]
fn objects_to_send_match_git_rev_list() {
    let (repo, a, b) = two();
    // A: commit, root, d, two blobs. B adds a commit, a root and two blobs.
    assert_eq!(packed(&repo, &a).len(), 5);
    assert_eq!(packed(&repo, &b).len(), 9);
    let mut present = OidList::new();
    mark_present(&repo.db, &a, &mut present);
    assert_eq!(present.len(), 5);
    let extra = collect_to_send(&repo.db, &b, &present).unwrap();
    let kinds: Vec<Kind> = extra.iter().map(|(k, _)| *k).collect();
    assert_eq!(extra.len(), 4);
    assert_eq!(kinds.iter().filter(|k| **k == Kind::Commit).count(), 1);
    assert_eq!(kinds.iter().filter(|k| **k == Kind::Tree).count(), 1);
    assert_eq!(kinds.iter().filter(|k| **k == Kind::Blob).count(), 2);
    assert!(extra.contains(&(Kind::Blob, b"c\n".to_vec())));
    let gone = ObjectSha::SHA1([5; 20]);
    assert_eq!(
        collect_to_send(&repo.db, &gone, &present).unwrap_err(),
        GraphError::Missing(gone)
    );
}

#[test]
fn built_pack_completes_clone_at_a() {
    let (repo, a, b) = two();
    let mut far = ObjectDb::new();
    for o in parse_pack(&build_pack(&packed(&repo, &a))).unwrap() {
        far.insert_compressed(ObjectSha::SHA1(o.sha), &write_loose_object(&o)).unwrap();
    }
    assert_eq!(far.len(), 5);
    let mut present = OidList::new();
    mark_present(&repo.db, &a, &mut present);
    let pack = build_pack(&collect_to_send(&repo.db, &b, &present).unwrap());
    for o in parse_pack(&pack).unwrap() {
        far.insert_compressed(ObjectSha::SHA1(o.sha), &write_loose_object(&o)).unwrap();
    }
    assert_eq!(far.len(), 9);
    assert_eq!(collect_to_send(&far, &b, &OidList::new()).unwrap().len(), 9);
}

#[test]
fn links_of_objects_are_read() {
    let (tree, parents) = commit_children(b"tree T\nparent P\nparent Q\nauthor x\n\nparent R\n");
    assert_eq!(tree.as_deref(), Some("T"));
    assert_eq!(parents, ["P", "Q"]);
    let id = [7u8; 20];
    let t = [&b"100644 f\0"[..], &id, b"160000 sub\0", &id].concat();
    let kids = tree_children(&t);
    assert_eq!(kids, [(0o100644, ObjectSha::SHA1(id)), (0o160000, ObjectSha::SHA1(id))]);
}

#[test]
fn clone_to_disk_produces_valid_repo() {
    let (repo, _, b) = two();
    let objs = parse_pack(&build_pack(&packed(&repo, &b))).unwrap();
    let hex = b.to_string();
    let remote = adv(
        &[("HEAD", &hex), ("refs/heads/main", &hex), ("refs/tags/v1", &hex)],
        Some("refs/heads/main"),
    );
    let plan = clone_to_disk(&objs, &remote).unwrap();
    assert!(plan.refs.contains(&("refs/heads/main".to_string(), hex.clone()))
        || plan.refs.iter().any(|(p, c)| p == "refs/heads/main" && c.trim() == hex));
    assert_eq!(plan.head.trim(), "ref: refs/heads/main");
    let file = |parts: &[&str]| {
        let parts: Vec<String> = parts.iter().map(|s| s.to_string()).collect();
        plan.items.iter().find_map(|i| match i {
            CheckoutItem::File(p, c, exec) if *p == parts => Some((c.clone(), *exec)),
            _ => None,
        })
    };
    assert_eq!(file(&["a.txt"]), Some((b"hello again\n".to_vec(), false)));
    assert_eq!(file(&["d", "b.txt"]), Some((b"b\n".to_vec(), false)));
    assert_eq!(file(&["nope"]), None);
    let without = adv(&[("refs/heads/main", &"1".repeat(40))], Some("refs/heads/main"));
    assert_eq!(clone_to_disk(&objs, &without).unwrap_err(), CloneError::HeadMissing);
}

#[test]
fn clones_that_cannot_be_laid_out() {
    let id = |kind: &str, data: &[u8]| hash_raw(&frame(kind, data)).to_string();
    let fault = |objs: Vec<(Kind, Vec<u8>)>, head: &str| {
        let objs = parse_pack(&build_pack(&objs)).unwrap();
        clone_to_disk(&objs, &adv(&[("refs/heads/main", head)], Some("refs/heads/main")))
            .unwrap_err()
    };
    let none = || vec![(Kind::Blob, b"b".to_vec())];
    assert_eq!(fault(none(), "abc"), CloneError::IdLength);
    assert_eq!(fault(none(), &"+1".repeat(20)), CloneError::IdNotHex);
    assert_eq!(fault(none(), &"1".repeat(40)), CloneError::HeadMissing);
    assert_eq!(fault(none(), &id("blob", b"b")), CloneError::HeadNotCommit);
    let commit = |text: &[u8]| {
        let mut objs = none();
        objs.push((Kind::Commit, text.to_vec()));
        fault(objs, &id("commit", text))
    };
    assert_eq!(commit(b"\xff"), CloneError::CommitNotUtf8);
    assert_eq!(commit(b"author x\n\nm\n"), CloneError::NoTreeLine);
    let named = |tree: &str| format!("tree {tree}\n\nm\n").into_bytes();
    assert_eq!(commit(&named(&"1".repeat(40))), CloneError::TreeMissing);
    assert_eq!(commit(&named(&id("blob", b"b"))), CloneError::NotATree);
    let tree = |payload: &[u8]| {
        let text = named(&id("tree", payload));
        let head = id("commit", &text);
        fault(vec![(Kind::Tree, payload.to_vec()), (Kind::Commit, text)], &head)
    };
    let entry = |mode: &[u8]| [mode, b" x\0", &[9; 20]].concat();
    assert_eq!(tree(b"100644"), CloneError::TreeNoSpace);
    assert_eq!(tree(&entry(b"\xff")), CloneError::ModeNotUtf8);
    assert_eq!(tree(&entry(b"+100644")), CloneError::ModeNotOctal);
    assert_eq!(tree(&entry(b"100648")), CloneError::ModeNotOctal);
    assert_eq!(tree(b"100644 x"), CloneError::TreeNoNul);
    assert_eq!(tree(b"100644 x\0abc"), CloneError::TreeShortId);
    assert_eq!(tree(&entry(b"100644")), CloneError::BlobMissing);
    assert_eq!(tree(&entry(b"120000")), CloneError::LinkMissing);
}

#[test]
fn directories_are_named_after_urls() {
    assert_eq!(dir_name_from_url("https://h/x/repo.git").as_deref(), Some("repo"));
    assert_eq!(dir_name_from_url("https://h/x/repo/").as_deref(), Some("repo"));
}

#[test]
fn fetch_to_disk_updates_tracking_refs_only() {
    let (repo, _, b) = two();
    let objs = parse_pack(&build_pack(&packed(&repo, &b))).unwrap();
    let hex = b.to_string();
    let remote = adv(
        &[
            ("HEAD", &hex),
            ("refs/heads/main", &hex),
            ("refs/heads/f/x", &hex),
            ("refs/tags/v1", &hex),
            ("refs/tags/v1^{}", &hex),
            ("refs/pull/1/head", &hex),
        ],
        Some("refs/heads/main"),
    );
    let plan = fetch_to_disk("origin", "U", &objs, &remote);
    assert_eq!(plan.objects.len(), 9);
    let names: Vec<&str> = plan.refs.iter().map(|r| r.local_name.as_str()).collect();
    assert_eq!(
        names,
        ["refs/remotes/origin/main", "refs/remotes/origin/f/x", "refs/tags/v1"]
    );
    assert!(plan.refs.iter().all(|r| !r.local_name.starts_with("refs/heads/")));
    assert!(plan.fetch_head.starts_with(&format!("{hex}\t\tbranch 'main' of U\n")));
    assert!(plan.fetch_head.ends_with(&format!("{hex}\t\ttag 'v1' of U\n")));
    let shown = fetch_summary("U", &plan.refs);
    assert!(shown.iter().any(|l| l.contains("refs/heads/main -> refs/remotes/origin/main")));
    assert_eq!(shortened(&hex), &hex[..7]);
    assert_eq!(shortened("éabcdefgh"), "éabcde");
    assert_eq!(shortened("abcdefé"), "abcdef");
    assert_eq!(shortened("ab"), "ab");
}

#[test]
fn haves_are_listed_once() {
    let a = "a".repeat(40);
    let list = vec![format!("{a}\n"), "junk".to_string(), a.clone(), "ref: x".to_string()];
    assert_eq!(collect_local_haves(&list), [a]);
}

fn sent(p: PushPlan) -> PushRequest {
    match p {
        PushPlan::Send(q) => q,
        PushPlan::UpToDate => panic!("nothing to send"),
    }
}

#[test]
fn push_sends_what_is_missing() {
    let (repo, a, b) = two();
    let (ha, hb) = (a.to_string(), b.to_string());
    let tip = format!("{hb}\n");
    let remote = adv(&[("refs/heads/main", &ha)], None);
    let q = sent(push(&repo.db, "main", Some(&tip), &remote, false).unwrap());
    assert_eq!((q.refname.as_str(), &q.old, &q.new), ("refs/heads/main", &ha, &hb));
    let mut cur: &[u8] = &q.body;
    let cmd = format!("{ha} {hb} refs/heads/main\0report-status\n");
    assert_eq!(read_pkt_line(&mut cur).unwrap(), Some(PktLine::Data(cmd.into_bytes())));
    assert_eq!(read_pkt_line(&mut cur).unwrap(), Some(PktLine::Flush));
    assert_eq!(parse_pack(cur).unwrap().len(), 4);

    let fresh = sent(push(&repo.db, "main", Some(&tip), &adv(&[], None), false).unwrap());
    assert_eq!(fresh.old, "0".repeat(40));
    let same = adv(&[("refs/heads/main", &hb)], None);
    assert!(matches!(
        push(&repo.db, "main", Some(&tip), &same, false),
        Ok(PushPlan::UpToDate)
    ));
    let ahead = format!("{ha}\n");
    assert_eq!(
        push(&repo.db, "main", Some(&ahead), &same, false).unwrap_err(),
        PushError::NonFastForward
    );
    assert_eq!(sent(push(&repo.db, "main", Some(&ahead), &same, true).unwrap()).new, ha);
    assert_eq!(
        push(&repo.db, "main", None, &same, false).unwrap_err(),
        PushError::NoBranch
    );
    let capitals = adv(&[("refs/heads/main", &hb.to_uppercase())], None);
    let all = sent(push(&repo.db, "main", Some(&ahead), &capitals, false).unwrap());
    assert_eq!(all.old, hb.to_uppercase());
    assert_eq!(
        push(&repo.db, "main", Some(&ha.to_uppercase()), &same, true).unwrap_err(),
        PushError::BadTip
    );
}

fn report(lines: &[&str]) -> Vec<u8> {
    let mut out = Vec::new();
    for l in lines {
        write_pkt_line(&mut out, &PktLine::Data(l.as_bytes().to_vec())).unwrap();
    }
    write_pkt_line(&mut out, &PktLine::Flush).unwrap();
    out
}

#[test]
fn answers_to_a_push_are_read() {
    let ok = report(&["unpack ok\n", "ok refs/heads/main\n"]);
    let r = parse_report_status(&ok).unwrap();
    assert!(r.unpacked);
    assert_eq!(r.refs, [("refs/heads/main".to_string(), None)]);
    let ng = report(&["unpack ok\n", "ng refs/heads/main stale info\n"]);
    let r = parse_report_status(&ng).unwrap();
    assert_eq!(r.refs[0].1.as_deref(), Some("stale info"));
    assert_eq!(parse_report_status(b"00").unwrap_err(), PktError::TruncatedPrefix);

    let q = PushRequest {
        refname: "refs/heads/main".into(),
        old: "0".repeat(40),
        new: "1".repeat(40),
        body: vec![],
    };
    let done = push_outcome(&q, &ok).unwrap();
    assert_eq!(done.rejected, None);
    let up = tracking_update(&done, "origin", "main").unwrap();
    assert_eq!(up.path, "refs/remotes/origin/main");
    assert_eq!(up.content, format!("{}\n", "1".repeat(40)));
    let refused: PushResult = push_outcome(&q, &ng).unwrap();
    assert_eq!(refused.rejected.as_deref(), Some("stale info"));
    assert!(tracking_update(&refused, "origin", "main").is_none());
    assert_eq!(
        push_outcome(&q, &report(&["unpack index-pack failed\n"])).unwrap_err(),
        PushError::UnpackFailed
    );
    assert!(push_summary("U", "main", &done).iter().any(|l| l.contains("main")));
    assert!(push_summary("U", "main", &refused).iter().any(|l| l.contains("stale info")));
}
