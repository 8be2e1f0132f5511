//! Which files the commit that `HEAD` leads to holds, which directories are found below a tree, and
//! what is compared of two files.
use crate::byte_map::{ascending, has_key, lemma_bind, lookup};
use crate::commit_object::commit_at;
use crate::diff::{content_diff, entry_diff, tree_below, BlobDiffModel, DiffModel};
use crate::diff_laws::lemma_tree_ascends;
use crate::head::{current, head_in, HeadModel};
use crate::merge_laws::{lemma_found_key, lemma_front};
use crate::object::{blob_in, tree_in, FileMode, ObjectError, ObjectSha, TreeEntry};
use crate::outside::patch_text;
use crate::reference::RefError;
use crate::status::{head_files, tree_files, with_entry_files, with_tree_files};
use crate::text::text_of;
use crate::unix_path::joined;
use vstd::prelude::*;

verus! {

/// The id of the file that is found from an entry on along some names, if there is one.
pub open spec fn file_under(
    db: Map<ObjectSha, Seq<u8>>,
    e: Option<TreeEntry>,
    names: Seq<Seq<u8>>,
) -> Option<ObjectSha>
    decreases names.len(),
{
    match e {
        None => None,
        Some(x) => if x.file_mode != FileMode::Directory {
            if names.len() == 0 {
                Some(x.object_name)
            } else {
                None
            }
        } else if names.len() == 0 || tree_in(db, x.object_name) is Err {
            None
        } else {
            file_under(
                db,
                lookup(tree_in(db, x.object_name)->Ok_0, names[0]),
                names.drop_first(),
            )
        },
    }
}

/// The id of the file that is found in a tree along some names, if there is one.
pub open spec fn file_at(
    db: Map<ObjectSha, Seq<u8>>,
    tree: Seq<(Seq<u8>, TreeEntry)>,
    names: Seq<Seq<u8>>,
) -> Option<ObjectSha> {
    if names.len() == 0 {
        None
    } else {
        file_under(db, lookup(tree, names[0]), names.drop_first())
    }
}

/// The path that some names make up below a directory.
pub open spec fn under_dir(dir: Seq<u8>, names: Seq<Seq<u8>>) -> Seq<u8>
    decreases names.len(),
{
    if names.len() == 0 {
        dir
    } else {
        under_dir(joined(dir, names[0]), names.drop_first())
    }
}

/// Whether a path is that of a file in a tree, and has its id.
pub open spec fn is_file_of(
    db: Map<ObjectSha, Seq<u8>>,
    tree: Seq<(Seq<u8>, TreeEntry)>,
    dir: Seq<u8>,
    p: Seq<u8>,
    oid: ObjectSha,
) -> bool {
    exists|names: Seq<Seq<u8>>|
        #![trigger file_at(db, tree, names)]
        file_at(db, tree, names) == Some(oid) && under_dir(dir, names) == p
}

spec fn is_file_under(
    db: Map<ObjectSha, Seq<u8>>,
    e: TreeEntry,
    path: Seq<u8>,
    p: Seq<u8>,
    oid: ObjectSha,
) -> bool {
    exists|names: Seq<Seq<u8>>|
        #![trigger file_under(db, Some(e), names)]
        file_under(db, Some(e), names) == Some(oid) && under_dir(path, names) == p
}

proof fn lemma_entry_files(
    db: Map<ObjectSha, Seq<u8>>,
    files: Seq<(Seq<u8>, ObjectSha)>,
    e: TreeEntry,
    path: Seq<u8>,
    depth: nat,
)
    requires
        ascending(files),
        with_entry_files(db, files, e, path, depth) is Ok,
    ensures
        ({
            let f = with_entry_files(db, files, e, path, depth)->Ok_0;
            &&& ascending(f)
            &&& forall|p: Seq<u8>| lookup(files, p) is Some ==> (#[trigger] lookup(f, p)) is Some
            &&& forall|p: Seq<u8>|
                (#[trigger] lookup(f, p)) is Some && lookup(f, p) != lookup(files, p)
                    ==> is_file_under(db, e, path, p, lookup(f, p)->0)
            &&& forall|l: Seq<Seq<u8>>|
                (#[trigger] file_under(db, Some(e), l)) is Some ==> lookup(
                    f,
                    under_dir(path, l),
                ) is Some
        }),
    decreases depth, 0nat,
{
    let f = with_entry_files(db, files, e, path, depth)->Ok_0;
    let none = Seq::<Seq<u8>>::empty();
    if e.file_mode == FileMode::Directory {
        let t = tree_in(db, e.object_name)->Ok_0;
        lemma_tree_ascends(db, e.object_name);
        lemma_tree_files(db, files, t, path, (depth - 1) as nat);
        assert forall|p: Seq<u8>|
            (#[trigger] lookup(f, p)) is Some && lookup(f, p) != lookup(files, p) implies is_file_under(
            db,
            e,
            path,
            p,
            lookup(f, p)->0,
        ) by {
            let oid = lookup(f, p)->0;
            assert(is_file_of(db, t, path, p, oid));
            let l = choose|l: Seq<Seq<u8>>|
                #![trigger file_at(db, t, l)]
                file_at(db, t, l) == Some(oid) && under_dir(path, l) == p;
            assert(file_under(db, Some(e), l) == file_at(db, t, l));
        }
        assert forall|l: Seq<Seq<u8>>|
            (#[trigger] file_under(db, Some(e), l)) is Some implies lookup(
            f,
            under_dir(path, l),
        ) is Some by {
            assert(file_under(db, Some(e), l) == file_at(db, t, l));
        }
    } else {
        lemma_bind(files, path, e.object_name);
        assert forall|p: Seq<u8>|
            (#[trigger] lookup(f, p)) is Some && lookup(f, p) != lookup(files, p) implies is_file_under(
            db,
            e,
            path,
            p,
            lookup(f, p)->0,
        ) by {
            assert(file_under(db, Some(e), none) == Some(e.object_name));
            assert(under_dir(path, none) == path);
        }
        assert forall|l: Seq<Seq<u8>>|
            (#[trigger] file_under(db, Some(e), l)) is Some implies lookup(
            f,
            under_dir(path, l),
        ) is Some by {
            assert(l =~= none);
        }
    }
}

proof fn lemma_tree_files(
    db: Map<ObjectSha, Seq<u8>>,
    files: Seq<(Seq<u8>, ObjectSha)>,
    entries: Seq<(Seq<u8>, TreeEntry)>,
    dir: Seq<u8>,
    depth: nat,
)
    requires
        ascending(files),
        ascending(entries),
        with_tree_files(db, files, entries, dir, depth) is Ok,
    ensures
        ({
            let f = with_tree_files(db, files, entries, dir, depth)->Ok_0;
            &&& ascending(f)
            &&& forall|p: Seq<u8>| lookup(files, p) is Some ==> (#[trigger] lookup(f, p)) is Some
            &&& forall|p: Seq<u8>|
                (#[trigger] lookup(f, p)) is Some && lookup(f, p) != lookup(files, p) ==> is_file_of(
                    db,
                    entries,
                    dir,
                    p,
                    lookup(f, p)->0,
                )
            &&& forall|l: Seq<Seq<u8>>|
                (#[trigger] file_at(db, entries, l)) is Some ==> lookup(f, under_dir(dir, l)) is Some
        }),
    decreases depth, 1 + entries.len(),
{
    let f = with_tree_files(db, files, entries, dir, depth)->Ok_0;
    if entries.len() == 0 {
        assert forall|l: Seq<Seq<u8>>| (#[trigger] file_at(db, entries, l)) is Some implies lookup(
            f,
            under_dir(dir, l),
        ) is Some by {
            lemma_found_key(entries, l[0]);
        }
    } else {
        let front = entries.drop_last();
        let (name, e) = entries.last();
        let before = with_tree_files(db, files, front, dir, depth)->Ok_0;
        let here = joined(dir, name);
        lemma_front(entries);
        lemma_tree_files(db, files, front, dir, depth);
        lemma_entry_files(db, before, e, here, depth);
        assert forall|p: Seq<u8>|
            (#[trigger] lookup(f, p)) is Some && lookup(f, p) != lookup(files, p) implies is_file_of(
            db,
            entries,
            dir,
            p,
            lookup(f, p)->0,
        ) by {
            let oid = lookup(f, p)->0;
            if lookup(f, p) != lookup(before, p) {
                let l = choose|l: Seq<Seq<u8>>|
                    #![trigger file_under(db, Some(e), l)]
                    file_under(db, Some(e), l) == Some(oid) && under_dir(here, l) == p;
                let names = seq![name] + l;
                assert(names.drop_first() =~= l);
                assert(file_at(db, entries, names) == Some(oid));
                assert(under_dir(dir, names) == p);
            } else {
                assert(is_file_of(db, front, dir, p, oid));
                let l = choose|l: Seq<Seq<u8>>|
                    #![trigger file_at(db, front, l)]
                    file_at(db, front, l) == Some(oid) && under_dir(dir, l) == p;
                lemma_found_key(front, l[0]);
                assert(has_key(front, l[0]));
                assert(file_at(db, entries, l) == Some(oid));
            }
        }
        assert forall|l: Seq<Seq<u8>>| (#[trigger] file_at(db, entries, l)) is Some implies lookup(
            f,
            under_dir(dir, l),
        ) is Some by {
            if l[0] == name {
                assert(file_under(db, Some(e), l.drop_first()) is Some);
            } else {
                lemma_found_key(entries, l[0]);
                assert(has_key(entries, l[0]));
                assert(has_key(front, l[0]));
                assert(file_at(db, front, l) == file_at(db, entries, l));
                assert(lookup(before, under_dir(dir, l)) is Some);
            }
        }
    }
}

/// The files of a tree are all that are found in it along any names: each path has the id of one that
/// makes it up, and none is left out.
pub proof fn law_tree_files(
    db: Map<ObjectSha, Seq<u8>>,
    tree: Seq<(Seq<u8>, TreeEntry)>,
    depth: nat,
    f: Seq<(Seq<u8>, ObjectSha)>,
)
    requires
        ascending(tree),
        tree_files(db, tree, depth) == Ok::<Seq<(Seq<u8>, ObjectSha)>, ObjectError>(f),
    ensures
        ascending(f),
        forall|p: Seq<u8>|
            (#[trigger] lookup(f, p)) is Some ==> is_file_of(
                db,
                tree,
                Seq::empty(),
                p,
                lookup(f, p)->0,
            ),
        forall|names: Seq<Seq<u8>>|
            (#[trigger] file_at(db, tree, names)) is Some ==> lookup(
                f,
                under_dir(Seq::empty(), names),
            ) is Some,
{
    let none = Seq::<(Seq<u8>, ObjectSha)>::empty();
    lemma_tree_files(db, none, tree, Seq::empty(), depth);
    assert forall|p: Seq<u8>| lookup(none, p) is None by {}
}

/// What is staged is held against the files of the commit that `HEAD` leads to; where it leads to
/// none, against nothing.
pub proof fn law_head_files(
    db: Map<ObjectSha, Seq<u8>>,
    head: Seq<char>,
    tip: Option<Seq<char>>,
    depth: nat,
    h: HeadModel,
    oid: ObjectSha,
)
    requires
        head_in(head) == Ok::<HeadModel, RefError>(h),
    ensures
        current(db, h, tip) is Err ==> head_files(db, head, tip, depth) == Ok::<
            Option<Seq<(Seq<u8>, ObjectSha)>>,
            ObjectError,
        >(None),
        current(db, h, tip) == Ok::<ObjectSha, RefError>(oid) ==> (head_files(
            db,
            head,
            tip,
            depth,
        ) matches Ok(r) ==> r is Some && commit_at(db, oid) is Ok && tree_in(
            db,
            commit_at(db, oid)->Ok_0.tree,
        ) is Ok && tree_files(db, tree_in(db, commit_at(db, oid)->Ok_0.tree)->Ok_0, depth) == Ok::<
            Seq<(Seq<u8>, ObjectSha)>,
            ObjectError,
        >(r->0)),
{
}

/// The directory below a tree is found name by name: what the first name leads to is searched for
/// the rest, and nothing is found where a name is not there or is no directory.
pub proof fn law_tree_below(
    db: Map<ObjectSha, Seq<u8>>,
    oid: ObjectSha,
    name: Seq<u8>,
    rest: Seq<Seq<u8>>,
    t: Seq<(Seq<u8>, TreeEntry)>,
)
    requires
        tree_in(db, oid) == Ok::<Seq<(Seq<u8>, TreeEntry)>, ObjectError>(t),
    ensures
        tree_below(db, oid, Seq::empty()) == Ok::<
            Option<(ObjectSha, Seq<(Seq<u8>, TreeEntry)>)>,
            ObjectError,
        >(Some((oid, t))),
        lookup(t, name) is None ==> tree_below(db, oid, seq![name] + rest) == Ok::<
            Option<(ObjectSha, Seq<(Seq<u8>, TreeEntry)>)>,
            ObjectError,
        >(None),
        lookup(t, name) matches Some(e) ==> tree_below(db, oid, seq![name] + rest) == (
        if e.file_mode == FileMode::Directory {
            tree_below(db, e.object_name, rest)
        } else {
            Ok(None)
        }),
{
    let all = seq![name] + rest;
    assert(all.drop_first() =~= rest);
    assert(all[0] == name);
}

/// Two contents are compared as text, the old one first, where both are text and neither holds a
/// zero byte; else they are binary.
pub proof fn law_contents_compared(old_bytes: Seq<u8>, new_bytes: Seq<u8>)
    ensures
        content_diff(old_bytes, new_bytes) is Binary <==> (exists|i: int|
            0 <= i < old_bytes.len() && old_bytes[i] == 0) || (exists|i: int|
            0 <= i < new_bytes.len() && new_bytes[i] == 0) || text_of(old_bytes) is None || text_of(
            new_bytes,
        ) is None,
        content_diff(old_bytes, new_bytes) matches BlobDiffModel::Text(s) ==> s == patch_text(
            text_of(old_bytes)->0,
            text_of(new_bytes)->0,
        ),
{
    if old_bytes.contains(0) {
        let i = choose|i: int| 0 <= i < old_bytes.len() && old_bytes[i] == 0;
        assert(old_bytes[i] == 0);
    }
    if new_bytes.contains(0) {
        let i = choose|i: int| 0 <= i < new_bytes.len() && new_bytes[i] == 0;
        assert(new_bytes[i] == 0);
    }
}

/// A file that was added is compared with nothing before it, one that was deleted with nothing after
/// it, and one that was changed as it was with as it is.
pub proof fn law_entry_compared(db: Map<ObjectSha, Seq<u8>>, d: DiffModel, c: BlobDiffModel)
    requires
        entry_diff(db, d) == Ok::<BlobDiffModel, ObjectError>(c),
    ensures
        d matches DiffModel::Added { oid, .. } ==> blob_in(db, oid) is Ok && c == content_diff(
            Seq::empty(),
            blob_in(db, oid)->Ok_0,
        ),
        d matches DiffModel::Deleted { oid, .. } ==> blob_in(db, oid) is Ok && c == content_diff(
            blob_in(db, oid)->Ok_0,
            Seq::empty(),
        ),
        d matches DiffModel::Modified { old_oid, new_oid, .. } ==> blob_in(db, old_oid) is Ok
            && blob_in(db, new_oid) is Ok && c == content_diff(
            blob_in(db, old_oid)->Ok_0,
            blob_in(db, new_oid)->Ok_0,
        ),
{
}

} // verus!
