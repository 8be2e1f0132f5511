//! What the state of the working directory tells, and that it leaves nothing out.
use crate::byte_map::{ascending, lemma_bind, lookup};
use crate::ignore::{ignored, RulesModel};
use crate::index::{conflicted, index_form, staged_entry, EntryModel, FileStat, IndexError};
use crate::object::{framed, oid_of_raw, ObjectSha};
use crate::picking::{
    lemma_picked_both, lemma_picked_has, lemma_picked_none, lemma_picked_push, picked,
};
use crate::status::{
    changed_entries, dropped_files, gone_entries, lemma_staged_entry, scanned, staged_changes,
    ChangeType, FileModel,
};
use crate::unix_path::pushed;
use vstd::prelude::*;

verus! {

/// Whether the file system says just what an entry remembers: size, times and place.
pub open spec fn as_remembered(s: FileStat, e: EntryModel) -> bool {
    &&& s.size == e.file_size
    &&& s.mtime_sec == e.mtime_sec && s.mtime_nsec == e.mtime_nsec
    &&& s.ctime_sec == e.ctime_sec && s.ctime_nsec == e.ctime_nsec
    &&& s.ino == e.ino && s.dev == e.dev
}

/// What is to be told of a file that the index knows: nothing of one that is as it was, by what the
/// file system says or by its content.
pub open spec fn change_of(entries: Seq<EntryModel>, f: FileModel) -> Option<
    (Seq<u8>, ChangeType),
> {
    match index_form(f.path) {
        Err(_) => None,
        Ok(path) => match staged_entry(entries, path) {
            Some(e) => match f.content {
                Some(c) => if !as_remembered(f.stat, e) && oid_of_raw(framed("blob"@, c))
                    != e.obj_name {
                    Some((f.path, ChangeType::Modified))
                } else {
                    None
                },
                None => None,
            },
            None => if exists|k: int|
                0 <= k < entries.len() && (#[trigger] entries[k]).path == path {
                Some((f.path, ChangeType::Conflicted))
            } else {
                None
            },
        },
    }
}

/// What is to be told of a file that the index does not know: its path, unless it is ignored.
pub open spec fn news_of(
    entries: Seq<EntryModel>,
    rules: RulesModel,
    f: FileModel,
) -> Option<Seq<u8>> {
    match index_form(f.path) {
        Err(_) => None,
        Ok(path) => if (exists|k: int|
            0 <= k < entries.len() && (#[trigger] entries[k]).path == path) || ignored(
            rules,
            pushed(rules.worktree, f.path),
        ) {
            None
        } else {
            Some(f.path)
        },
    }
}

proof fn lemma_known(entries: Seq<EntryModel>, path: Seq<u8>)
    ensures
        staged_entry(entries, path) is Some ==> exists|k: int|
            0 <= k < entries.len() && (#[trigger] entries[k]).path == path,
        staged_entry(entries, path) is None && (exists|k: int|
            0 <= k < entries.len() && (#[trigger] entries[k]).path == path)
            ==> conflicted(entries, path),
{
    lemma_staged_entry(entries, path);
    if let Some(e) = staged_entry(entries, path) {
        let k = choose|k: int| 0 <= k < entries.len() && entries[k] == e;
        assert(entries[k].path == path);
    } else if exists|k: int| 0 <= k < entries.len() && (#[trigger] entries[k]).path == path {
        let k = choose|k: int| 0 <= k < entries.len() && (#[trigger] entries[k]).path == path;
        assert(entries[k].merge_stage != 0);
    }
}

/// The state of each file is told, in order: what changed of those that the index knows, and the
/// paths of the others that are not ignored.
pub proof fn law_files_told(entries: Seq<EntryModel>, rules: RulesModel, files: Seq<FileModel>)
    ensures
        scanned(entries, rules, files) matches Ok(m) ==> picked(
            m.unstaged,
            Seq::new(files.len(), |i: int| change_of(entries, files[i])),
        ) && picked(
            m.untracked,
            Seq::new(files.len(), |i: int| news_of(entries, rules, files[i])),
        ),
    decreases files.len(),
{
    let changes = Seq::new(files.len(), |i: int| change_of(entries, files[i]));
    let news = Seq::new(files.len(), |i: int| news_of(entries, rules, files[i]));
    if files.len() == 0 {
        lemma_picked_none::<(Seq<u8>, ChangeType)>();
        lemma_picked_none::<Seq<u8>>();
        assert(changes =~= Seq::empty());
        assert(news =~= Seq::empty());
    } else if scanned(entries, rules, files) is Ok {
        let t = files.drop_last();
        let f = files.last();
        law_files_told(entries, rules, t);
        let found = scanned(entries, rules, t)->Ok_0;
        let changes_before = Seq::new(t.len(), |i: int| change_of(entries, t[i]));
        let news_before = Seq::new(t.len(), |i: int| news_of(entries, rules, t[i]));
        lemma_picked_push(found.unstaged, changes_before, change_of(entries, f));
        lemma_picked_push(found.untracked, news_before, news_of(entries, rules, f));
        assert(changes =~= changes_before.push(change_of(entries, f)));
        assert(news =~= news_before.push(news_of(entries, rules, f)));
        lemma_known(entries, index_form(f.path)->Ok_0);
    }
}

/// The state can be told just where each file has a path that an index entry can have, and the
/// content of each was read whose entry remembers it otherwise.
pub proof fn law_scan_succeeds(entries: Seq<EntryModel>, rules: RulesModel, files: Seq<FileModel>)
    ensures
        scanned(entries, rules, files) is Ok <==> forall|i: int|
            0 <= i < files.len() ==> {
                let f = #[trigger] files[i];
                &&& index_form(f.path) is Ok
                &&& match staged_entry(entries, index_form(f.path)->Ok_0) {
                    Some(e) => as_remembered(f.stat, e) || f.content is Some,
                    None => true,
                }
            },
    decreases files.len(),
{
    if files.len() > 0 {
        let t = files.drop_last();
        law_scan_succeeds(entries, rules, t);
        assert forall|i: int| 0 <= i < t.len() implies #[trigger] t[i] == files[i] by {}
        assert forall|i: int| 0 <= i < files.len() implies #[trigger] files[i] == if i < t.len() {
            t[i]
        } else {
            files.last()
        } by {}
        let l = files[files.len() - 1];
    }
}

/// A file is told to be modified just where it is: some file of the working directory has that path,
/// the index has an entry for it, the file system says other things of it than the entry remembers,
/// and the blob of its content is not the one of the entry.
pub proof fn law_modified_told(
    entries: Seq<EntryModel>,
    rules: RulesModel,
    files: Seq<FileModel>,
    path: Seq<u8>,
)
    ensures
        scanned(entries, rules, files) matches Ok(m) ==> (m.unstaged.contains(
            (path, ChangeType::Modified),
        ) <==> exists|i: int|
            0 <= i < files.len() && (#[trigger] files[i]).path == path && {
                &&& index_form(path) matches Ok(p)
                &&& staged_entry(entries, p) matches Some(e)
                &&& !as_remembered(files[i].stat, e)
                &&& files[i].content matches Some(c)
                &&& oid_of_raw(framed("blob"@, c)) != e.obj_name
            }),
{
    if let Ok(m) = scanned(entries, rules, files) {
        law_files_told(entries, rules, files);
        let changes = Seq::new(files.len(), |i: int| change_of(entries, files[i]));
        let v = (path, ChangeType::Modified);
        lemma_picked_has(m.unstaged, changes, v);
        if changes.contains(Some(v)) {
            let i = choose|i: int| 0 <= i < changes.len() && changes[i] == Some(v);
            assert(change_of(entries, files[i]) == Some(v));
        }
        if exists|i: int|
            0 <= i < files.len() && (#[trigger] files[i]).path == path && change_of(
                entries,
                files[i],
            ) == Some(v) {
            let i = choose|i: int|
                0 <= i < files.len() && (#[trigger] files[i]).path == path && change_of(
                    entries,
                    files[i],
                ) == Some(v);
            assert(changes[i] == Some(v));
        }
        assert forall|i: int| 0 <= i < files.len() && (#[trigger] files[i]).path == path implies (
        change_of(entries, files[i]) == Some(v) <==> {
            &&& index_form(path) matches Ok(p)
            &&& staged_entry(entries, p) matches Some(e)
            &&& !as_remembered(files[i].stat, e)
            &&& files[i].content matches Some(c)
            &&& oid_of_raw(framed("blob"@, c)) != e.obj_name
        }) by {}
    }
}

proof fn lemma_seen(
    entries: Seq<EntryModel>,
    rules: RulesModel,
    files: Seq<FileModel>,
    path: Seq<u8>,
)
    requires
        staged_entry(entries, path) is Some,
        scanned(entries, rules, files) is Ok,
    ensures
        ascending(scanned(entries, rules, files)->Ok_0.seen),
        lookup(scanned(entries, rules, files)->Ok_0.seen, path) is Some <==> exists|i: int|
            0 <= i < files.len() && index_form((#[trigger] files[i]).path) == Ok::<
                Seq<u8>,
                IndexError,
            >(path),
    decreases files.len(),
{
    if files.len() > 0 {
        let t = files.drop_last();
        let f = files.last();
        lemma_seen(entries, rules, t, path);
        let found = scanned(entries, rules, t)->Ok_0;
        lemma_bind(found.seen, index_form(f.path)->Ok_0, ());
        assert forall|i: int| 0 <= i < t.len() implies #[trigger] t[i] == files[i] by {}
        assert(files[files.len() - 1] == f);
        let there = |s: Seq<FileModel>|
            exists|i: int|
                0 <= i < s.len() && index_form((#[trigger] s[i]).path) == Ok::<
                    Seq<u8>,
                    IndexError,
                >(path);
        assert(there(files) <==> there(t) || index_form(f.path) == Ok::<
            Seq<u8>,
            IndexError,
        >(path)) by {
            if there(t) {
                let i = choose|i: int|
                    0 <= i < t.len() && index_form((#[trigger] t[i]).path) == Ok::<
                        Seq<u8>,
                        IndexError,
                    >(path);
                assert(files[i] == t[i]);
            }
            if there(files) {
                let i = choose|i: int|
                    0 <= i < files.len() && index_form((#[trigger] files[i]).path) == Ok::<
                        Seq<u8>,
                        IndexError,
                    >(path);
                if i < t.len() {
                    assert(files[i] == t[i]);
                }
            }
        }
    }
}

/// What differs between the index and the working directory is told in full: first what changed of
/// the files, then the entries that are gone, those that belong to no conflict and have neither a
/// file nor anything else at their path.
pub proof fn law_unstaged_told(
    entries: Seq<EntryModel>,
    rules: RulesModel,
    files: Seq<FileModel>,
    existing: Seq<Seq<u8>>,
)
    ensures
        scanned(entries, rules, files) matches Ok(m) ==> picked(
            m.unstaged + gone_entries(entries, m.seen, existing),
            Seq::new(files.len(), |i: int| change_of(entries, files[i])) + Seq::new(
                entries.len(),
                |i: int| is_gone(entries[i], files, existing),
            ),
        ),
{
    if let Ok(m) = scanned(entries, rules, files) {
        law_files_told(entries, rules, files);
        assert(entries.subrange(0, entries.len() as int) =~= entries);
        lemma_gone_told(entries, rules, files, existing, entries.len() as int);
        lemma_picked_both(
            m.unstaged,
            Seq::new(files.len(), |i: int| change_of(entries, files[i])),
            gone_entries(entries, m.seen, existing),
            Seq::new(entries.len(), |i: int| is_gone(entries[i], files, existing)),
        );
    }
}

/// What is to be told of an entry whose file is gone.
pub open spec fn is_gone(
    e: EntryModel,
    files: Seq<FileModel>,
    existing: Seq<Seq<u8>>,
) -> Option<(Seq<u8>, ChangeType)> {
    if e.merge_stage == 0 && !existing.contains(e.path) && !(exists|k: int|
        0 <= k < files.len() && index_form((#[trigger] files[k]).path) == Ok::<
            Seq<u8>,
            IndexError,
        >(e.path)) {
        Some((e.path, ChangeType::Deleted))
    } else {
        None
    }
}

proof fn lemma_gone_told(
    entries: Seq<EntryModel>,
    rules: RulesModel,
    files: Seq<FileModel>,
    existing: Seq<Seq<u8>>,
    n: int,
)
    requires
        0 <= n <= entries.len(),
        scanned(entries, rules, files) is Ok,
    ensures
        picked(
            gone_entries(
                entries.subrange(0, n),
                scanned(entries, rules, files)->Ok_0.seen,
                existing,
            ),
            Seq::new(n as nat, |i: int| is_gone(entries[i], files, existing)),
        ),
    decreases n,
{
    let wanted = Seq::new(n as nat, |i: int| is_gone(entries[i], files, existing));
    let seen = scanned(entries, rules, files)->Ok_0.seen;
    if n == 0 {
        lemma_picked_none::<(Seq<u8>, ChangeType)>();
        assert(wanted =~= Seq::empty());
    } else {
        lemma_gone_told(entries, rules, files, existing, n - 1);
        let before = Seq::new((n - 1) as nat, |i: int| is_gone(entries[i], files, existing));
        let e = entries[n - 1];
        assert(entries.subrange(0, n).drop_last() =~= entries.subrange(0, n - 1));
        assert(entries.subrange(0, n).last() == e);
        if e.merge_stage == 0 {
            lemma_staged_entry(entries, e.path);
            lemma_seen(entries, rules, files, e.path);
        }
        lemma_picked_push(
            gone_entries(entries.subrange(0, n - 1), seen, existing),
            before,
            is_gone(e, files, existing),
        );
        assert(wanted =~= before.push(is_gone(e, files, existing)));
    }
}

/// What differs between the last commit and the index is told in full: first the entries that the
/// commit has not or has with another blob, then the files of the commit that have no entry.
pub proof fn law_staged_told(
    entries: Seq<EntryModel>,
    head: Option<Seq<(Seq<u8>, ObjectSha)>>,
)
    ensures
        ({
            let files = match head {
                Some(h) => h,
                None => Seq::empty(),
            };
            picked(
                staged_changes(entries, head),
                Seq::new(entries.len(), |i: int| entry_news(entries[i], files)) + Seq::new(
                    files.len(),
                    |i: int| is_dropped(entries, files[i].0),
                ),
            )
        }),
{
    let files = match head {
        Some(h) => h,
        None => Seq::empty(),
    };
    lemma_changed_told(entries, head);
    lemma_dropped_told(entries, files);
    lemma_picked_both(
        changed_entries(entries, head),
        Seq::new(entries.len(), |i: int| entry_news(entries[i], files)),
        dropped_files(entries, files),
        Seq::new(files.len(), |i: int| is_dropped(entries, files[i].0)),
    );
}

/// What is to be told of an entry against the files of the last commit.
pub open spec fn entry_news(e: EntryModel, files: Seq<(Seq<u8>, ObjectSha)>) -> Option<
    (Seq<u8>, ChangeType),
> {
    if lookup(files, e.path) is None {
        Some((e.path, ChangeType::NewFile))
    } else if lookup(files, e.path) == Some(e.obj_name) {
        None
    } else {
        Some((e.path, ChangeType::Modified))
    }
}

/// What is to be told of a file of the last commit that the index has no more.
pub open spec fn is_dropped(entries: Seq<EntryModel>, path: Seq<u8>) -> Option<
    (Seq<u8>, ChangeType),
> {
    if exists|k: int|
        0 <= k < entries.len() && (#[trigger] entries[k]).path == path && entries[k].merge_stage == 0 {
        None
    } else {
        Some((path, ChangeType::Deleted))
    }
}

proof fn lemma_changed_told(entries: Seq<EntryModel>, head: Option<Seq<(Seq<u8>, ObjectSha)>>)
    ensures
        ({
            let files = match head {
                Some(h) => h,
                None => Seq::empty(),
            };
            picked(
                changed_entries(entries, head),
                Seq::new(entries.len(), |i: int| entry_news(entries[i], files)),
            )
        }),
    decreases entries.len(),
{
    let files = match head {
        Some(h) => h,
        None => Seq::empty(),
    };
    let wanted = Seq::new(entries.len(), |i: int| entry_news(entries[i], files));
    if entries.len() == 0 {
        lemma_picked_none::<(Seq<u8>, ChangeType)>();
        assert(wanted =~= Seq::empty());
    } else {
        let t = entries.drop_last();
        let e = entries.last();
        lemma_changed_told(t, head);
        let before = Seq::new(t.len(), |i: int| entry_news(t[i], files));
        lemma_picked_push(changed_entries(t, head), before, entry_news(e, files));
        assert(wanted =~= before.push(entry_news(e, files)));
    }
}

proof fn lemma_dropped_told(entries: Seq<EntryModel>, files: Seq<(Seq<u8>, ObjectSha)>)
    ensures
        picked(
            dropped_files(entries, files),
            Seq::new(files.len(), |i: int| is_dropped(entries, files[i].0)),
        ),
    decreases files.len(),
{
    let wanted = Seq::new(files.len(), |i: int| is_dropped(entries, files[i].0));
    if files.len() == 0 {
        lemma_picked_none::<(Seq<u8>, ChangeType)>();
        assert(wanted =~= Seq::empty());
    } else {
        let t = files.drop_last();
        let p = files.last().0;
        lemma_dropped_told(entries, t);
        let before = Seq::new(t.len(), |i: int| is_dropped(entries, t[i].0));
        lemma_staged_entry(entries, p);
        if let Some(e) = staged_entry(entries, p) {
            let k = choose|k: int| 0 <= k < entries.len() && entries[k] == e;
            assert(entries[k].path == p);
        }
        lemma_picked_push(dropped_files(entries, t), before, is_dropped(entries, p));
        assert(wanted =~= before.push(is_dropped(entries, p)));
    }
}

} // verus!
