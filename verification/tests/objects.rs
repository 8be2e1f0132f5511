//! Objects, the index and references.
use gift::byte_map::ByteMap;
use gift::commit_object::{commit_tree, CommitIdentity, CommitObject};
use gift::git_paths::{
    abs_path_to_git_path, branch_ref_path, chat_repo_at, get_branch_ref_path, loose_object_path,
    repo_at,
};
use gift::head::Head;
use gift::index::{
    add_index, encode_entry, get_entry_at, index_path_bytes, insert_conflict_entries,
    normalize_entry_path_bytes, parse_index_file, write_index_file, FileStat, IndexError,
    IndexFile,
};
use gift::index_tree::{IndexRootTree, TreeNode};
use gift::layout::init;
use gift::object::{
    frame, hash_object, write_hash_object, FileMode, Object, ObjectError, ObjectSha, TreeEntry,
    TreeObject,
};
use gift::object_db::ObjectDb;
use gift::reference::{branch, read_ref, write_ref, RefError};
use gift::symbolic_ref::{read_symbolic_ref, write_symbolic_ref, SymbolicRef};

fn sha(hex: &str) -> ObjectSha {
    ObjectSha::from_hex(hex).unwrap()
}

fn store(db: &mut ObjectDb, kind: &str, payload: &[u8]) -> ObjectSha {
    let raw = frame(kind, payload);
    let oid = gift::object::hash_raw(&raw);
    db.insert(oid, raw);
    oid
}

fn stat(size: u64) -> FileStat {
    FileStat {
        ctime_sec: 1,
        ctime_nsec: 2,
        mtime_sec: 3,
        mtime_nsec: 4,
        dev: 5,
        ino: 6,
        mode: 0o100644,
        uid: 7,
        gid: 8,
        size,
        is_file: true,
        is_symlink: false,
    }
}

#[test]
fn cmp_init() {
    let plan = init("/r/.gift");
    assert_eq!(
        plan.dirs,
        [
            "/r/.gift/branches",
            "/r/.gift/hooks",
            "/r/.gift/info",
            "/r/.gift/objects/info",
            "/r/.gift/objects/pack",
            "/r/.gift/refs/heads",
            "/r/.gift/refs/tags",
        ]
    );
    assert_eq!(plan.files, ["/r/.gift/config", "/r/.gift/description", "/r/.gift/HEAD"]);
    assert_eq!(plan.head.0, "/r/.gift/HEAD");
    assert_eq!(plan.head.1, "ref: refs/heads/master\n");
    match Head::read(&plan.head.1).unwrap() {
        Head::TargetBranch { branch_ref_path } => {
            assert_eq!(branch_ref_path, "refs/heads/master");
        }
        other => panic!("{other:?}"),
    }
}

#[test]
fn cmp_write_obj() {
    let (oid, raw) = hash_object(b"hello\n");
    assert_eq!(oid.to_string(), "ce013625030ba8dba906f756967f9e9ca394464a");
    assert_eq!(raw, b"blob 6\0hello\n");
    let (oid2, raw2) = hash_object("你好！aa\n".as_bytes());
    assert_eq!(oid2.to_string(), "201439c8d2fbf3ca5541091e8f884effe8fca439");
    let file = write_hash_object(&raw2);
    assert_ne!(file, raw2);
    let mut db = ObjectDb::new();
    db.insert_compressed(oid2, &file).unwrap();
    assert_eq!(db.get(&oid2), Some(&raw2));
    assert_eq!(db.len(), 1);
    assert!(!db.contains(&oid));
    assert_eq!(db.insert_compressed(oid, b"junk"), Err(ObjectError::Corrupt));
    assert_eq!(hash_object(b"").0.to_string(), "e69de29bb2d1d6434b8b29ae775ad8c2e48c5391");
}

const TREE: &str = "91ccd52a998ef3d846c3e6033d3dc42b4bf15f4a";

fn commit_text(parents: &[&str], message: &str) -> Vec<u8> {
    let mut s = format!("tree {TREE}\n");
    for p in parents {
        s.push_str(&format!("parent {p}\n"));
    }
    s.push_str("author Test Author <author@example.com> 1700000000 +0000\n");
    s.push_str("committer Test Committer <committer@example.com> 1700000000 +0000\n\n");
    s.push_str(message);
    s.into_bytes()
}

#[test]
fn read_commit_matches_git_commit_tree() {
    let mut db = ObjectDb::new();
    let text = commit_text(&[], "first commit\n");
    let c1 = store(&mut db, "commit", &text);
    assert_eq!(c1.to_string(), "d3db04726467bdc749723c1751fc5497aa005c7d");
    let parsed1 = CommitObject::read_loose_commit(&db, &c1).unwrap();
    assert_eq!(*parsed1.object_name(), c1);
    assert_eq!(parsed1.parents.len(), 0);
    assert_eq!(parsed1.message, b"first commit\n");
    assert_eq!(parsed1.author.name, "Test Author");
    assert_eq!(parsed1.committer.email, "committer@example.com");
    assert_eq!(&parsed1.to_binary(), db.get(&c1).unwrap());

    let text2 = commit_text(&[&c1.to_string()], "second commit\n");
    let c2 = store(&mut db, "commit", &text2);
    assert_eq!(c2.to_string(), "7eed93dc14d28dcc8139243f3e1d3adc5253da7f");
    let parsed2 = CommitObject::read_loose_commit(&db, &c2).unwrap();
    assert_eq!(parsed2.parents, vec![c1]);
    assert_eq!(&parsed2.to_binary(), db.get(&c2).unwrap());
}

#[test]
fn read_commit_merge_two_parents() {
    let mut db = ObjectDb::new();
    let (p1, p2) = ("1".repeat(40), "2".repeat(40));
    let text = commit_text(&[&p1, &p2], "merge both\n");
    let m = store(&mut db, "commit", &text);
    let parsed = CommitObject::read_loose_commit(&db, &m).unwrap();
    assert_eq!(parsed.parents, vec![sha(&p1), sha(&p2)]);
    assert_eq!(&parsed.to_binary(), db.get(&m).unwrap());
}

#[test]
fn commit_tree_writes_loose_object() {
    let who = |name: &str, email: &str| CommitIdentity {
        name: name.into(),
        email: email.into(),
        unix_time: 1_700_000_001,
        tz: "+0000".into(),
    };
    let commit = CommitObject::new(
        sha(TREE),
        Vec::new(),
        who("A", "a@b.c"),
        who("C", "c@d.e"),
        Vec::new(),
        b"gift commit-tree test\n".to_vec(),
    );
    let (oid, file) = commit_tree(&commit);
    let mut db = ObjectDb::new();
    db.insert_compressed(oid, &file).unwrap();
    let round = CommitObject::read_loose_commit(&db, &oid).unwrap();
    assert_eq!(round.tree, sha(TREE));
    assert_eq!(round.message, commit.message);
    assert_eq!(db.get(&oid).unwrap(), &commit.to_binary());
    assert_eq!(oid, gift::object::hash_raw(&commit.to_binary()));
}

#[test]
fn broken_commits_are_told_apart() {
    let good = String::from_utf8(commit_text(&[], "m\n")).unwrap();
    let read = |s: &str| {
        CommitObject::read_commit(sha(TREE), s.as_bytes(), true).map(|_| ()).unwrap_err()
    };
    let who = "author Test Author <author@example.com> 1700000000 +0000\n";
    assert_eq!(read(""), ObjectError::HeaderEof);
    assert_eq!(read("tree x"), ObjectError::HeaderNoNewline);
    assert_eq!(read("tree x\n\n"), ObjectError::BadIdLength);
    assert_eq!(read(&format!("tree {}\n\n", "g".repeat(40))), ObjectError::BadIdHex);
    assert_eq!(read(&good.replace(who, "")), ObjectError::MissingAuthor);
    assert_eq!(read(&good.replace(who, &who.repeat(2))), ObjectError::DuplicateAuthor);
    assert_eq!(read(&format!("tree {TREE}\n{good}")), ObjectError::DuplicateTree);
    assert_eq!(read(&format!("{who}\n")), ObjectError::MissingTree);
    assert_eq!(read(&format!("tree {TREE}\n{who}\n")), ObjectError::MissingCommitter);
    let id = |s: &str| read(&format!("author {s}\n\n"));
    assert_eq!(id("A"), ObjectError::IdentityNoGt);
    assert_eq!(id("A <a>"), ObjectError::IdentityNoTime);
    assert_eq!(id("A <a> x +0"), ObjectError::IdentityBadTime);
    assert_eq!(id("A <a> 1"), ObjectError::IdentityNoZone);
    assert_eq!(id("A <a> 1 2 3"), ObjectError::IdentityExtra);
    assert_eq!(id("A a> 1 2"), ObjectError::IdentityNoLt);
    let twice = good.replace("committer", "committer C <c> 1 +0\ncommitter");
    assert_eq!(read(&twice), ObjectError::DuplicateCommitter);
    assert!(CommitObject::read_commit(sha(TREE), b"\xff\n\n", true).is_err());
    let db = ObjectDb::new();
    assert_eq!(
        CommitObject::read_loose_commit(&db, &sha(TREE)).map(|_| ()),
        Err(ObjectError::Missing(sha(TREE)))
    );
}

fn tree_db() -> (ObjectDb, ObjectSha) {
    let mut db = ObjectDb::new();
    let mut entry = |mode: &str, name: &str, oid: ObjectSha| {
        [mode.as_bytes(), b" ", name.as_bytes(), b"\0", oid.as_bytes()].concat()
    };
    let bar = hash_object("你好！aa\n".as_bytes()).0;
    let ah = store(&mut db, "tree", &entry("100644", "bar", bar));
    let foo = store(&mut db, "tree", &entry("40000", "啊", ah));
    let root = [
        entry("100644", "a.txt", hash_object(b"hello\n").0),
        entry("40000", "foo", foo),
        entry("120000", "link", hash_object(b"a.txt").0),
        entry("100755", "script.sh", hash_object(b"#!/bin/sh\necho ok\n").0),
    ]
    .concat();
    let oid = store(&mut db, "tree", &root);
    (db, oid)
}

#[test]
fn cmp_read_tree_matches_git_ls_tree() {
    let (db, root) = tree_db();
    assert_eq!(root.to_string(), "81feeb817c963a38712423c396bdc7a1c52c4af5");
    let tree = TreeObject::read_loose_tree(&db, &root).unwrap();
    assert_eq!(*tree.object_name(), root);
    let es = tree.entries();
    assert_eq!(es.len(), 4);
    let get = |n: &str| *es.get(n.as_bytes()).unwrap();
    assert_eq!(get("a.txt").file_mode, FileMode::NExecRegularFile);
    assert_eq!(get("link").file_mode, FileMode::SymbolicLink);
    assert_eq!(get("script.sh").file_mode, FileMode::ExecRegularFile);
    assert_eq!(
        get("foo"),
        TreeEntry {
            file_mode: FileMode::Directory,
            object_name: sha("5565579cc84f59748f6249b491c4b8d623a42b8e"),
        }
    );
    let foo = TreeObject::read_loose_tree(&db, &get("foo").object_name).unwrap();
    let ah = foo.entries().get("啊".as_bytes()).unwrap().object_name;
    assert_eq!(ah.to_string(), "5812f28ea774091a26ab9c2c313f65bf70b4becb");
    let bar = TreeObject::read_loose_tree(&db, &ah).unwrap();
    assert_eq!(
        bar.entries().get(b"bar").unwrap().object_name.to_string(),
        "201439c8d2fbf3ca5541091e8f884effe8fca439"
    );
    assert_eq!(&TreeObject::entries_to_binary(es, true), db.get(&root).unwrap());
}

#[test]
fn directories_stand_where_a_slash_puts_them() {
    let mut es: ByteMap<TreeEntry> = ByteMap::new();
    let dir = TreeEntry { file_mode: FileMode::Directory, object_name: ObjectSha::SHA1([1; 20]) };
    let file = TreeEntry {
        file_mode: FileMode::NExecRegularFile,
        object_name: ObjectSha::SHA1([2; 20]),
    };
    es.insert(b"foo".to_vec(), dir);
    es.insert(b"foo.txt".to_vec(), file);
    let mut wanted = b"tree 65\0100644 foo.txt\0".to_vec();
    wanted.extend_from_slice(&[2; 20]);
    wanted.extend_from_slice(b"40000 foo\0");
    wanted.extend_from_slice(&[1; 20]);
    let raw = TreeObject::entries_to_binary(&es, true);
    assert_eq!(raw, wanted);
    let mut r: &[u8] = &raw[8..];
    let back = TreeObject::read_tree(sha(TREE), &mut r, true).unwrap();
    assert_eq!(back.entries().get(b"foo"), Some(&dir));
    assert_eq!(back.entries().get(b"foo.txt"), Some(&file));
    assert_eq!(back.entries().key_at(0), b"foo");

    let mut index = IndexFile::empty(2);
    for p in [&b"foo/x"[..], b"foo.txt"] {
        add_index(&mut index, &stat(0), p.to_vec(), hash_object(b"").0).unwrap();
    }
    let (root, trees) = IndexRootTree::from_index_file(&index).unwrap().write_tree();
    let raw = &trees.iter().find(|(o, _)| *o == root).unwrap().1;
    assert!(raw.starts_with(b"tree 65\0100644 foo.txt\0"));
    assert!(raw[43..].starts_with(b"40000 foo\0"));
}

#[test]
fn paths_need_not_be_text() {
    let mut index = IndexFile::empty(2);
    add_index(&mut index, &stat(0), b"d/\xffa".to_vec(), hash_object(b"").0).unwrap();
    assert_eq!(index.entries()[0].decode_entry_path(), b"d/\xffa");
    let leaves = IndexRootTree::from_index_file(&index).unwrap().blob_paths();
    assert_eq!(leaves[0].0, b"d/\xffa");
    assert_eq!(index_path_bytes(b"/w", b"/w/d/\xffa").unwrap(), b"d/\xffa");
}

#[test]
fn entries_are_read_back_where_they_stand() {
    for e in sample_index().entries() {
        let one = encode_entry(e).unwrap();
        assert_eq!(one.len(), (63 + e.path().len()).div_ceil(8) * 8);
        let mut buf = b"front".to_vec();
        buf.extend_from_slice(&one);
        buf.extend_from_slice(b"rest");
        let (back, end) = get_entry_at(&buf, 5).unwrap();
        assert_eq!(end, 5 + one.len());
        assert_eq!(encode_entry(&back).unwrap(), one);
        assert_eq!((back.path(), back.file_mode()), (e.path(), e.file_mode()));
    }
}

#[test]
fn the_last_of_many_stagings_counts() {
    let mut index = IndexFile::empty(4);
    for (path, size) in [(&b"b"[..], 1u64), (b"a", 2), (b"b", 3), (b"b", 1 << 32), (b"c", 4)] {
        let r = add_index(&mut index, &stat(size), path.to_vec(), hash_object(&[size as u8]).0);
        assert_eq!(r.is_ok(), size < 1 << 32);
    }
    let found: Vec<(&[u8], u32)> =
        index.entries().iter().map(|e| (e.path(), e.file_size())).collect();
    assert_eq!(found, [(&b"a"[..], 2), (b"b", 3), (b"c", 4)]);
    assert_eq!(index.get_entry(b"b").unwrap().obj_name(), &hash_object(&[3]).0);
    assert_eq!(index.version(), 4);
}

#[test]
fn broken_trees_are_told_apart() {
    let read = |b: &[u8]| {
        let mut r: &[u8] = b;
        TreeObject::read_tree(sha(TREE), &mut r, true).map(|_| ()).unwrap_err()
    };
    assert_eq!(read(b"100645 x\0aaaaaaaaaaaaaaaaaaaa"), ObjectError::BadMode);
    assert_eq!(read(b"100644 x\0aaa"), ObjectError::TruncatedEntry);
    let db = tree_db().0;
    assert_eq!(
        TreeObject::read_loose_tree(&db, &sha(&"9".repeat(40))).map(|_| ()),
        Err(ObjectError::Missing(sha(&"9".repeat(40))))
    );
    let (mut db, root) = tree_db();
    assert!(matches!(
        Object::read_object_content("tree", root, b"").unwrap(),
        Object::Tree(_)
    ));
    assert!(Object::read_object_content("thing", root, b"").is_err());
    let (oid, raw) = hash_object(b"x");
    db.insert(oid, raw);
    assert_eq!(
        TreeObject::read_loose_tree(&db, &oid).map(|_| ()),
        Err(ObjectError::WrongKind)
    );
}

fn sample_index() -> IndexFile {
    let mut index = IndexFile::empty(2);
    let mut add = |path: &str, content: &[u8], mode: u32, link: bool| {
        let mut s = stat(content.len() as u64);
        s.mode = mode;
        s.is_symlink = link;
        s.is_file = !link;
        add_index(&mut index, &s, path.as_bytes().to_vec(), hash_object(content).0).unwrap();
    };
    add("script.sh", b"#!/bin/sh\necho ok\n", 0o100755, false);
    add("a.txt", b"hello\n", 0o100644, false);
    add("foo/啊/bar", "你好！aa\n".as_bytes(), 0o100644, false);
    add("link", b"a.txt", 0o120777, true);
    index
}

#[test]
fn parse_index() {
    let index = sample_index();
    let bytes = write_index_file(&index).unwrap();
    assert_eq!(&bytes[..12], b"DIRC\x00\x00\x00\x02\x00\x00\x00\x04");
    let back = parse_index_file(&bytes).unwrap();
    let paths: Vec<String> = back
        .entries()
        .iter()
        .map(|e| String::from_utf8(e.decode_entry_path()).unwrap())
        .collect();
    assert_eq!(paths, ["a.txt", "foo/啊/bar", "link", "script.sh"]);
    let e = back.get_entry(b"a.txt").unwrap();
    assert_eq!((e.ctime_sec(), e.ctime_nsec(), e.mtime_sec(), e.mtime_nsec()), (1, 2, 3, 4));
    assert_eq!((e.dev(), e.ino(), e.uid(), e.gid(), e.file_size()), (5, 6, 7, 8, 6));
    assert_eq!((e.assume_valid(), e.extended(), e.merge_stage()), (false, false, 0));
    assert_eq!(e.name_length(), 5);
    assert_eq!(e.file_mode(), FileMode::NExecRegularFile);
    assert_eq!(write_index_file(&back).unwrap(), bytes);
}

#[test]
fn from_index_file_matches_parsed_index_entries() {
    let idx = sample_index();
    let root = IndexRootTree::from_index_file(&idx).unwrap();
    let leaves = root.blob_paths();
    assert_eq!(leaves.len(), idx.entries().len());
    for (e, (path, entry)) in idx.entries().iter().zip(&leaves) {
        assert_eq!(e.path(), &path[..]);
        assert_eq!(entry.file_mode, e.file_mode());
        assert_eq!(entry.object_name, *e.obj_name());
    }
}

#[test]
fn from_index_file_write_tree_matches_git_write_tree() {
    let node = TreeNode::from_index_file(&sample_index()).unwrap();
    let mut out = Vec::new();
    let e = node.write_tree_return_entry(&mut out);
    assert_eq!(e.object_name.to_string(), "81feeb817c963a38712423c396bdc7a1c52c4af5");
    assert_eq!(out.len(), 3);
    let (tree, trees) = IndexRootTree::from_index_file(&sample_index()).unwrap().write_tree();
    assert_eq!(tree, e.object_name);
    let mut db = ObjectDb::new();
    for (oid, raw) in trees {
        assert_eq!(gift::object::hash_raw(&raw), oid);
        db.insert(oid, raw);
    }
    let (full, _) = tree_db();
    assert_eq!(full.get(&tree), db.get(&tree));
}

#[test]
fn broken_indexes_are_told_apart() {
    assert_eq!(parse_index_file(b"DI").map(|_| ()), Err(IndexError::Eof));
    let mut bytes = write_index_file(&sample_index()).unwrap();
    bytes[0] = b'X';
    assert_eq!(parse_index_file(&bytes).map(|_| ()), Err(IndexError::BadHeader));
    let mut index = IndexFile::empty(2);
    let oid = hash_object(b"").0;
    let mut add = |size: u64, path: &[u8]| {
        add_index(&mut index, &stat(size), path.to_vec(), oid).unwrap_err()
    };
    assert_eq!(add(1 << 32, b"x"), IndexError::SizeTooLarge);
    assert_eq!(add(0, b""), IndexError::EmptyPath);
    assert_eq!(add(0, b"a\0b"), IndexError::PathHasNul);
    assert_eq!(
        add_index(&mut index, &stat(0), b"x".to_vec(), ObjectSha::SHA256([0; 32])),
        Err(IndexError::NotSha1)
    );
    assert_eq!(normalize_entry_path_bytes(b"/a\\b").unwrap(), b"a/b");
    assert_eq!(index_path_bytes(b"/w", b"/w/d/f").unwrap(), b"d/f");
    assert_eq!(index_path_bytes(b"/w", b"/v/f"), Err(IndexError::NotUnderRoot));
}

#[test]
fn conflicts_take_the_place_of_an_entry() {
    let mut index = sample_index();
    let side = |b: &[u8]| Some((FileMode::NExecRegularFile, hash_object(b).0));
    insert_conflict_entries(&mut index, b"a.txt", side(b"0"), side(b"1"), side(b"2"));
    assert!(index.has_conflict_entries(b"a.txt"));
    assert!(index.get_entry(b"a.txt").is_none());
    let stages: Vec<u8> = index
        .entries()
        .iter()
        .filter(|e| e.path() == b"a.txt")
        .map(|e| e.merge_stage())
        .collect();
    assert_eq!(stages, [1, 2, 3]);
    add_index(&mut index, &stat(1), b"a.txt".to_vec(), hash_object(b"3").0).unwrap();
    assert!(!index.has_conflict_entries(b"a.txt"));
    index.remove_entry(b"a.txt");
    assert_eq!(index.entries().len(), 3);
}

#[test]
fn branch_ref_path_joins_heads() {
    assert_eq!(branch_ref_path(".git", "main"), ".git/refs/heads/main");
    assert_eq!(branch_ref_path(".gift", "main"), ".gift/refs/heads/main");
}

#[test]
fn paths_of_a_repository() {
    assert_eq!(get_branch_ref_path("f/x"), "refs/heads/f/x");
    assert_eq!(
        loose_object_path("/r/.gift", "ce013625030ba8dba906f756967f9e9ca394464a"),
        "/r/.gift/objects/ce/013625030ba8dba906f756967f9e9ca394464a"
    );
    assert_eq!(
        abs_path_to_git_path(b"/w", b"/w/.gift", b".gift/refs/heads/m").as_deref(),
        Some("refs/heads/m")
    );
    assert_eq!(abs_path_to_git_path(b"/w", b"/w/.gift", b"x"), None);
    assert_eq!(repo_at(b"/w").git_abs, b"/w/.gift");
    assert_eq!(chat_repo_at(b"/w").worktree, b"/w/chat");
    assert_eq!(chat_repo_at(b"/w").git_abs, b"/w/.giftai");
}

#[test]
fn read_ref_and_update_ref_match_git() {
    let mut db = ObjectDb::new();
    let c0 = store(&mut db, "commit", &commit_text(&[], "c0\n"));
    let r = read_ref(&db, &format!("{}\n", c0.to_string())).unwrap();
    assert_eq!(r.commit_id, c0);
    let c1 = store(&mut db, "commit", &commit_text(&[&c0.to_string()], "c1\n"));
    let content = write_ref(&db, &c1).unwrap();
    assert_eq!(content, format!("{}\n", c1.to_string()));
    assert_eq!(read_ref(&db, &content).unwrap().commit_id, c1);
}

#[test]
fn update_ref_rejects_non_commit_object() {
    let mut db = ObjectDb::new();
    let tree = store(&mut db, "tree", b"");
    assert_eq!(tree.to_string(), "4b825dc642cb6eb9a060e54bf8d69288fbee4904");
    assert_eq!(write_ref(&db, &tree), Err(RefError::Object(ObjectError::WrongKind)));
}

#[test]
fn read_ref_rejects_symbolic_file() {
    let db = ObjectDb::new();
    assert_eq!(read_ref(&db, "ref: refs/heads/main\n").map(|_| ()), Err(RefError::Symbolic));
    assert_eq!(read_ref(&db, "a\nb").map(|_| ()), Err(RefError::MultipleLines));
    assert_eq!(read_ref(&db, "abc").map(|_| ()), Err(RefError::BadLength));
    assert_eq!(read_ref(&db, &"g".repeat(40)).map(|_| ()), Err(RefError::NotHex));
}

#[test]
fn read_symbolic_ref_matches_git() {
    let s = read_symbolic_ref("ref: refs/heads/main\n").unwrap();
    assert_eq!(s.ref_name, "refs/heads/main");
    assert_eq!(read_symbolic_ref("ref: refs\\heads\\x").unwrap().ref_name, "refs/heads/x");
    assert_eq!(read_symbolic_ref("ref:  ").map(|_| ()), Err(RefError::Empty));
    assert_eq!(read_symbolic_ref("main").map(|_| ()), Err(RefError::NoPrefix));
    assert_eq!(read_symbolic_ref("ref: a\nb").map(|_| ()), Err(RefError::MultipleLines));
}

#[test]
fn write_symbolic_ref_matches_git() {
    let sym = SymbolicRef { ref_name: "refs/heads/foo".into() };
    assert_eq!(write_symbolic_ref(&sym), "ref: refs/heads/foo\n");
    let head = Head::TargetBranch { branch_ref_path: "refs/heads/foo".into() };
    assert_eq!(head.write().unwrap(), "ref: refs/heads/foo\n");
}

#[test]
fn branches_are_made_where_head_is() {
    let mut db = ObjectDb::new();
    let c = store(&mut db, "commit", &commit_text(&[], "c\n"));
    let line = format!("{}\n", c.to_string());
    let head = "ref: refs/heads/master\n";
    let made = branch(&db, " new ", false, head, Some(&line)).unwrap();
    assert_eq!(made.path, "refs/heads/new");
    assert_eq!(made.content, line);
    assert_eq!(branch(&db, "n", false, &line, None).unwrap().content, line);
    assert_eq!(branch(&db, "n", true, head, Some(&line)).map(|_| ()), Err(RefError::Exists));
    assert_eq!(branch(&db, " ", false, head, Some(&line)).map(|_| ()), Err(RefError::EmptyName));
    assert_eq!(branch(&db, "n", false, head, None).map(|_| ()), Err(RefError::NoTarget));
    let capitals = line.to_uppercase();
    assert_eq!(
        branch(&db, "n", false, &capitals, None).map(|_| ()),
        Err(RefError::Object(ObjectError::Missing(c)))
    );
    assert_eq!(Head::read(head).unwrap().current_commit(&db, Some(&made.content)), Ok(c));
    let up = Head::read(head).unwrap().record_new_commit(&db, &c).unwrap();
    assert_eq!((up.path.as_str(), up.content.as_str()), ("refs/heads/master", line.as_str()));
    let up = Head::TargetCommit(c).record_new_commit(&db, &c).unwrap();
    assert_eq!(up.path, "HEAD");
}
