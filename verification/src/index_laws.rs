//! What the index keeps of each path, and how it stands in a file.
use crate::bytes::{be16_at, be32, be32_at};
use crate::index::{
    conflict_entries, conflicted, encoded, entry_at, entry_of_file, entry_words, index_bytes,
    index_form, index_head, in_path_order, law_entry_round_trip, law_sorted, mode_bits,
    mode_of_bits, path_fault, slashed, sorted, staged_entry, times_fit, unrooted, without_path,
    words32, writable_entry, EntryModel, FileStat, IndexModel,
};
use crate::object::{FileMode, ObjectSha};
use crate::outside::sha1_of;
use crate::picking::{lemma_picked_none, lemma_picked_push, lemma_picked_has, picked};
use crate::status::lemma_staged_entry;
use crate::status_laws::as_remembered;
use vstd::prelude::*;

verus! {

/// Removing a path keeps just the entries of other paths, in order.
pub proof fn law_path_removed(s: Seq<EntryModel>, path: Seq<u8>)
    ensures
        picked(
            without_path(s, path),
            Seq::new(
                s.len(),
                |i: int|
                    if s[i].path == path {
                        None
                    } else {
                        Some(s[i])
                    },
            ),
        ),
    decreases s.len(),
{
    let wanted = Seq::new(
        s.len(),
        |i: int|
            if s[i].path == path {
                None
            } else {
                Some(s[i])
            },
    );
    if s.len() == 0 {
        lemma_picked_none::<EntryModel>();
        assert(s =~= Seq::empty());
        assert(wanted =~= Seq::empty());
    } else {
        let t = s.drop_last();
        law_path_removed(t, path);
        let before = Seq::new(
            t.len(),
            |i: int|
                if t[i].path == path {
                    None
                } else {
                    Some(t[i])
                },
        );
        lemma_picked_push(without_path(t, path), before, wanted.last());
        assert(wanted =~= before.push(wanted.last()));
    }
}

proof fn lemma_kept(s: Seq<EntryModel>, path: Seq<u8>, e: EntryModel)
    ensures
        without_path(s, path).contains(e) <==> s.contains(e) && e.path != path,
{
    law_path_removed(s, path);
    let wanted = Seq::new(
        s.len(),
        |i: int|
            if s[i].path == path {
                None
            } else {
                Some(s[i])
            },
    );
    lemma_picked_has(without_path(s, path), wanted, e);
    if wanted.contains(Some(e)) {
        let i = choose|i: int| 0 <= i < wanted.len() && wanted[i] == Some(e);
        assert(s[i] == e);
    }
    if s.contains(e) && e.path != path {
        let i = choose|i: int| 0 <= i < s.len() && s[i] == e;
        assert(wanted[i] == Some(e));
    }
}

/// Whether an entry is that of one side of a conflict at a path.
pub open spec fn is_side(
    e: EntryModel,
    path: Seq<u8>,
    side: Option<(FileMode, ObjectSha)>,
    stage: u8,
) -> bool {
    e.path == path && e.merge_stage == stage && side == Some((e.file_mode, e.obj_name))
}

/// A conflict puts its sides in the place of all entries of a path: the common ancestor at stage 1,
/// ours at stage 2 and theirs at stage 3, each as it is and where there is one. Other paths keep
/// their entries, and all are in order. The path then counts as conflicted, and not as staged.
pub proof fn law_conflict_recorded(
    s: Seq<EntryModel>,
    path: Seq<u8>,
    base: Option<(FileMode, ObjectSha)>,
    ours: Option<(FileMode, ObjectSha)>,
    theirs: Option<(FileMode, ObjectSha)>,
)
    ensures
        ({
            let all = sorted(without_path(s, path) + conflict_entries(path, base, ours, theirs));
            &&& in_path_order(all)
            &&& forall|e: EntryModel|
                #[trigger] all.contains(e) && e.path == path ==> is_side(e, path, base, 1)
                    || is_side(e, path, ours, 2) || is_side(e, path, theirs, 3)
            &&& base is Some ==> exists|e: EntryModel| #[trigger]
                all.contains(e) && is_side(e, path, base, 1)
            &&& ours is Some ==> exists|e: EntryModel| #[trigger]
                all.contains(e) && is_side(e, path, ours, 2)
            &&& theirs is Some ==> exists|e: EntryModel| #[trigger]
                all.contains(e) && is_side(e, path, theirs, 3)
            &&& forall|e: EntryModel|
                e.path != path ==> (#[trigger] all.contains(e) <==> s.contains(e))
            &&& staged_entry(all, path) is None
            &&& conflicted(all, path) <==> base is Some || ours is Some || theirs is Some
            &&& all.len() == without_path(s, path).len() + (if base is Some {
                1int
            } else {
                0
            }) + (if ours is Some {
                1int
            } else {
                0
            }) + (if theirs is Some {
                1int
            } else {
                0
            })
        }),
{
    let kept = without_path(s, path);
    let sides = conflict_entries(path, base, ours, theirs);
    let list = kept + sides;
    let all = sorted(list);
    law_sorted(list);
    list.to_multiset_ensures();
    all.to_multiset_ensures();
    assert forall|e: EntryModel| #[trigger] all.contains(e) <==> kept.contains(e) || sides.contains(
        e,
    ) by {
        assert(all.contains(e) <==> all.to_multiset().count(e) > 0);
        assert(list.contains(e) <==> list.to_multiset().count(e) > 0);
        if kept.contains(e) {
            let k = choose|k: int| 0 <= k < kept.len() && kept[k] == e;
            assert(list[k] == e);
        }
        if sides.contains(e) {
            let k = choose|k: int| 0 <= k < sides.len() && sides[k] == e;
            assert(list[kept.len() + k] == e);
        }
        if list.contains(e) {
            let k = choose|k: int| 0 <= k < list.len() && list[k] == e;
            if k < kept.len() {
                assert(kept[k] == e);
            } else {
                assert(sides[k - kept.len()] == e);
            }
        }
    }
    let b: nat = if base is Some {
        1
    } else {
        0
    };
    let o: nat = if ours is Some {
        1
    } else {
        0
    };
    let t: nat = if theirs is Some {
        1
    } else {
        0
    };
    assert(sides.len() == b + o + t);
    assert forall|e: EntryModel| #[trigger] sides.contains(e) implies e.path == path && (is_side(
        e,
        path,
        base,
        1,
    ) || is_side(e, path, ours, 2) || is_side(e, path, theirs, 3)) by {
        let k = choose|k: int| 0 <= k < sides.len() && sides[k] == e;
        if k < b {
        } else if k < b + o {
        } else {
        }
    }
    assert forall|e: EntryModel| #[trigger]
        all.contains(e) && e.path == path implies is_side(e, path, base, 1) || is_side(
        e,
        path,
        ours,
        2,
    ) || is_side(e, path, theirs, 3) by {
        lemma_kept(s, path, e);
    }
    assert forall|e: EntryModel| e.path != path implies (#[trigger] all.contains(e) <==> s.contains(
        e,
    )) by {
        lemma_kept(s, path, e);
    }
    if base is Some {
        let e = sides[0];
        assert(sides.contains(e));
        assert(all.contains(e) && is_side(e, path, base, 1));
    }
    if ours is Some {
        let e = sides[b as int];
        assert(sides.contains(e));
        assert(all.contains(e) && is_side(e, path, ours, 2));
    }
    if theirs is Some {
        let e = sides[(b + o) as int];
        assert(sides.contains(e));
        assert(all.contains(e) && is_side(e, path, theirs, 3));
    }
    lemma_staged_entry(all, path);
    if conflicted(all, path) {
        let i = choose|i: int|
            0 <= i < all.len() && (#[trigger] all[i]).path == path && all[i].merge_stage != 0;
        assert(all.contains(all[i]));
    }
    if base is Some || ours is Some || theirs is Some {
        let e = sides[0];
        assert(sides.contains(e));
        assert(all.contains(e));
        let i = choose|i: int| 0 <= i < all.len() && all[i] == e;
        assert(all[i].path == path && all[i].merge_stage != 0);
    }
}

/// An entry for a file remembers what the file system says of it, so that the file counts as
/// unchanged until that changes.
pub proof fn law_entry_remembers(s: FileStat, path: Seq<u8>, oid: ObjectSha)
    requires
        times_fit(s),
        s.size <= u32::MAX,
        s.ino <= u32::MAX,
        s.dev <= u32::MAX,
    ensures
        as_remembered(s, entry_of_file(s, path, oid)),
        entry_of_file(s, path, oid).path == path,
        entry_of_file(s, path, oid).obj_name == oid,
        entry_of_file(s, path, oid).merge_stage == 0,
        entry_of_file(s, path, oid).uid == s.uid && entry_of_file(s, path, oid).gid == s.gid,
        s.is_symlink ==> entry_of_file(s, path, oid).file_mode == FileMode::SymbolicLink,
        !s.is_symlink && s.is_file ==> entry_of_file(s, path, oid).file_mode == if s.mode / 0o100 % 2
            == 1 {
            FileMode::ExecRegularFile
        } else {
            FileMode::NExecRegularFile
        },
{
}

/// The modes of entries are the numbers 100644, 100755, 120000 and 160000, in octal.
pub proof fn law_entry_modes()
    ensures
        mode_bits(FileMode::NExecRegularFile) == Some(0o100644u32),
        mode_bits(FileMode::ExecRegularFile) == Some(0o100755u32),
        mode_bits(FileMode::SymbolicLink) == Some(0o120000u32),
        mode_bits(FileMode::Gitlink) == Some(0o160000u32),
        mode_bits(FileMode::Directory) is None,
        forall|b: u32, m: FileMode| #[trigger]
            mode_of_bits(b) == Some(m) <==> #[trigger] mode_bits(m) == Some(b),
{
}

/// A path in the form of the index keeps its bytes, but for slashes at its start and for backslashes,
/// which become slashes.
pub proof fn law_index_form(path: Seq<u8>)
    ensures
        !path.contains(0x5c) && (path.len() == 0 || path[0] != 0x2f) ==> index_form(path) == match
        path_fault(path) {
            Some(e) => Err(e),
            None => Ok(path),
        },
        index_form(seq![0x2fu8] + path) == index_form(path),
        index_form(seq![0x5cu8] + path) == index_form(path),
        index_form(path) matches Ok(p) ==> {
            let n = path.len() - p.len();
            &&& 0 < p.len() <= path.len() && p[0] != 0x2f
            &&& forall|i: int|
                0 <= i < p.len() ==> #[trigger] p[i] == if path[n + i] == 0x5c {
                    0x2f
                } else {
                    path[n + i]
                }
            &&& forall|i: int| 0 <= i < n ==> #[trigger] path[i] == 0x2f || path[i] == 0x5c
        },
{
    let s = slashed(path);
    lemma_unrooted(s);
    if !path.contains(0x5c) && (path.len() == 0 || path[0] != 0x2f) {
        assert forall|i: int| 0 <= i < path.len() implies s[i] == path[i] by {
            assert(path.contains(path[i]));
        }
        assert(s =~= path);
    }
    let a = slashed(seq![0x2fu8] + path);
    assert(a.drop_first() =~= s);
    let b = slashed(seq![0x5cu8] + path);
    assert(b.drop_first() =~= s);
    if let Ok(p) = index_form(path) {
        let n = path.len() - p.len();
        assert forall|i: int| 0 <= i < n implies #[trigger] path[i] == 0x2f || path[i] == 0x5c by {
            assert(s[i] == 0x2f);
        }
        assert forall|i: int| 0 <= i < p.len() implies #[trigger] p[i] == if path[n + i] == 0x5c {
            0x2f
        } else {
            path[n + i]
        } by {
            assert(p[i] == s[n + i]);
        }
    }
}

proof fn lemma_unrooted(s: Seq<u8>)
    ensures
        unrooted(s).len() <= s.len(),
        unrooted(s) == s.subrange(s.len() - unrooted(s).len(), s.len() as int),
        unrooted(s).len() > 0 ==> unrooted(s)[0] != 0x2f,
        forall|i: int| 0 <= i < s.len() - unrooted(s).len() ==> #[trigger] s[i] == 0x2f,
    decreases s.len(),
{
    if s.len() > 0 && s[0] == 0x2f {
        let t = s.drop_first();
        lemma_unrooted(t);
        let u = unrooted(s);
        assert(t.subrange(t.len() - u.len(), t.len() as int) =~= s.subrange(
            s.len() - u.len(),
            s.len() as int,
        ));
        assert forall|i: int| 0 <= i < s.len() - u.len() implies #[trigger] s[i] == 0x2f by {
            if i > 0 {
                assert(t[i - 1] == s[i]);
            }
        }
    } else {
        assert(s.subrange(0, s.len() as int) =~= s);
    }
}

/// Where the parts of a written entry stand: ten numbers of four bytes, the id, the flags, and the
/// path, with zeros behind it.
pub proof fn law_entry_layout(e: EntryModel)
    requires
        writable_entry(e),
    ensures
        encoded(e) matches Ok(one) && {
            &&& be32_at(one, 0) == e.ctime_sec && be32_at(one, 4) == e.ctime_nsec
            &&& be32_at(one, 8) == e.mtime_sec && be32_at(one, 12) == e.mtime_nsec
            &&& be32_at(one, 16) == e.dev && be32_at(one, 20) == e.ino
            &&& Some(be32_at(one, 24)) == mode_bits(e.file_mode)
            &&& be32_at(one, 28) == e.uid && be32_at(one, 32) == e.gid
            &&& be32_at(one, 36) == e.file_size
            &&& one.subrange(40, 60) == e.obj_name@
            &&& be16_at(one, 60) % 0x1000 == e.path.len()
            &&& be16_at(one, 60) / 0x1000 % 4 == e.merge_stage
            &&& one.subrange(62, 62int + e.path.len()) == e.path
            &&& one[62int + e.path.len()] == 0
            &&& one.len() % 8 == 0
        },
{
    let none = Seq::<u8>::empty();
    law_entry_round_trip(none, e, none);
    let one = encoded(e)->Ok_0;
    assert(none + one + none =~= one);
    lemma_entry_parts(e);
    reveal(entry_at);
}

proof fn lemma_entry_parts(e: EntryModel)
    requires
        writable_entry(e),
    ensures
        encoded(e) matches Ok(one) && one.len() >= 63 + e.path.len() && one.subrange(40, 60)
            == e.obj_name@ && one[62int + e.path.len()] == 0,
{
    reveal(encoded);
    crate::object::lemma_oid(e.obj_name);
    let one = encoded(e)->Ok_0;
    let a = words32(entry_words(e, mode_bits(e.file_mode)->0));
    assert(a.len() == 40);
    assert(one.subrange(40, 60) =~= e.obj_name@);
}

/// An index file starts with `DIRC`, its version and the number of its entries, and ends with the
/// SHA-1 digest of all before that.
pub proof fn law_index_frame(index: IndexModel)
    requires
        index.entries.len() <= u32::MAX,
    ensures
        index_bytes(index) matches Ok(bytes) ==> {
            let n = bytes.len() - 20;
            &&& bytes.len() >= 32
            &&& bytes[0] == 0x44 && bytes[1] == 0x49 && bytes[2] == 0x52 && bytes[3] == 0x43
            &&& be32_at(bytes, 4) == index.version
            &&& be32_at(bytes, 8) == index.entries.len()
            &&& bytes.subrange(n, bytes.len() as int) == sha1_of(bytes.subrange(0, n))@
        },
{
    if let Ok(bytes) = index_bytes(index) {
        let body = crate::index::all_encoded(index.entries)->Ok_0;
        let front = index_head(index) + body;
        let n = bytes.len() - 20;
        assert(sha1_of(front)@.len() == 20);
        assert(bytes.subrange(0, n) =~= front);
        assert(bytes.subrange(n, bytes.len() as int) =~= sha1_of(front)@);
        assert(bytes.subrange(4, 8) =~= be32(index.version));
        assert(bytes.subrange(8, 12) =~= be32(index.entries.len() as u32));
        crate::bytes::lemma_be32_round_trip(bytes, 4, index.version);
        crate::bytes::lemma_be32_round_trip(bytes, 8, index.entries.len() as u32);
    }
}

} // verus!
