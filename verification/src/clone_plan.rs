//! What a clone writes: the objects, the references, and the files of the default branch.
use crate::bytes::{
    copy_bytes, ends_with, find_byte, find_from, same_bytes, starts_with,
};
use crate::get_packfile_by_network::{
    id_of_ref, trim_slashes, without_slashes, AdvertModel, RefAdvertisement, RefModel,
};
use crate::head::{head_in, law_branch_head_round_trip, HeadModel};
use crate::numbers::{hex_value, hex_value_of, parse_octal, read_octal};
use crate::object::{framed, write_hash_object};
use crate::outside::{zlib_deflated, zlib_inflated};
use crate::parse_packfile::{find_id, kind_name, Kind, PackedModel, PackedObject};
use crate::picking::{lemma_picked_none, lemma_picked_push, picked};
use crate::reference::RefError;
use crate::text::{
    chars_end_with, chars_of, chars_start_with, is_space, lemma_views_push, lines, lines_of, lossy_text,
    opt_view, same_text, string_of, text_of, text_of_slice, trim, trimmed, utf8_lossy, views,
};
use vstd::prelude::*;
use vstd::slice::slice_subrange;
use vstd::utf8::encode_utf8;

verus! {

/// Why a clone cannot be laid out.
#[derive(Clone, Copy, PartialEq, Eq, Structural, Debug)]
pub enum CloneError {
    TreeMissing,
    NotATree,
    TreeNoSpace,
    ModeNotUtf8,
    ModeNotOctal,
    TreeNoNul,
    TreeShortId,
    LinkMissing,
    BlobMissing,
    /// Directories within each other without end.
    Cyclic,
    IdLength,
    IdNotHex,
    HeadMissing,
    HeadNotCommit,
    CommitNotUtf8,
    NoTreeLine,
}

/// The file that stores an object.
pub fn write_loose_object(obj: &PackedObject) -> (r: Vec<u8>)
    ensures
        r@ == zlib_deflated(framed(kind_name(obj.kind), obj.data@)),
        zlib_inflated(r@) == Some((framed(kind_name(obj.kind), obj.data@), r@.len())),
{
    let raw = crate::object::frame(obj.kind.name(), obj.data.as_slice());
    write_hash_object(raw.as_slice())
}

/// The value of two hexadecimal digits.
pub open spec fn hex_pair(a: u8, b: u8) -> Option<int> {
    match (hex_value(a as char), hex_value(b as char)) {
        (Some(x), Some(y)) => Some(x * 16 + y),
        _ => None,
    }
}

/// The 20 bytes that 40 ASCII characters write in hexadecimal.
pub open spec fn sha_in_hex(h: Seq<char>) -> Result<Seq<u8>, CloneError> {
    let b = encode_utf8(h);
    if b.len() != 40 {
        Err(CloneError::IdLength)
    } else if forall|i: int| 0 <= i < 20 ==> hex_pair(#[trigger] b[2 * i], b[2 * i + 1]) is Some {
        Ok(Seq::new(20, |i: int| hex_pair(b[2 * i], b[2 * i + 1])->0 as u8))
    } else {
        Err(CloneError::IdNotHex)
    }
}

fn hex_to_sha(h: &str) -> (r: Result<Vec<u8>, CloneError>)
    ensures
        crate::text::res_view(r) == sha_in_hex(h@),
{
    let b = h.as_bytes();
    if b.len() != 40 {
        return Err(CloneError::IdLength);
    }
    let mut out: Vec<u8> = Vec::new();
    let mut i: usize = 0;
    while i < 20
        invariant
            0 <= i <= 20,
            b@.len() == 40,
            b@ == encode_utf8(h@),
            out@.len() == i,
            forall|k: int| 0 <= k < i ==> hex_pair(#[trigger] b@[2 * k], b@[2 * k + 1]) is Some,
            forall|k: int|
                0 <= k < i ==> #[trigger] out@[k] == hex_pair(b@[2 * k], b@[2 * k + 1])->0 as u8,
        decreases 20 - i,
    {
        let hi = hex_value_of(b[2 * i] as char);
        let lo = hex_value_of(b[2 * i + 1] as char);
        match (hi, lo) {
            (Some(x), Some(y)) => out.push(x * 16 + y),
            _ => {
                assert(hex_pair(b@[2 * i as int], b@[2 * i as int + 1]) is None);
                return Err(CloneError::IdNotHex);
            },
        }
        i += 1;
    }
    assert(out@ =~= sha_in_hex(h@)->Ok_0);
    Ok(out)
}

/// An entry of a tree, as a clone reads it.
#[verifier::ext_equal]
pub struct RawEntryModel {
    pub mode: u32,
    pub name: Seq<char>,
    pub sha: Seq<u8>,
}

struct RawEntry {
    mode: u32,
    name: String,
    sha: Vec<u8>,
}

impl View for RawEntry {
    type V = RawEntryModel;

    closed spec fn view(&self) -> RawEntryModel {
        RawEntryModel { mode: self.mode, name: self.name@, sha: self.sha@ }
    }
}

/// The entries in a tree's payload from `pos` on.
pub open spec fn raw_entries(tree: Seq<u8>, pos: int) -> Result<Seq<RawEntryModel>, CloneError>
    decreases tree.len() - pos,
    via raw_entries_shrink
{
    if pos < 0 || pos >= tree.len() {
        Ok(Seq::empty())
    } else {
        let sp = find_from(tree, 0x20, pos);
        if sp >= tree.len() {
            Err(CloneError::TreeNoSpace)
        } else {
            match text_of(tree.subrange(pos, sp)) {
                None => Err(CloneError::ModeNotUtf8),
                Some(word) => match parse_octal(word) {
                    None => Err(CloneError::ModeNotOctal),
                    Some(mode) => {
                        let nul = find_from(tree, 0, sp + 1);
                        if nul >= tree.len() {
                            Err(CloneError::TreeNoNul)
                        } else if nul + 21 > tree.len() {
                            Err(CloneError::TreeShortId)
                        } else {
                            match raw_entries(tree, nul + 21) {
                                Err(e) => Err(e),
                                Ok(rest) => Ok(
                                    seq![
                                        RawEntryModel {
                                            mode: mode as u32,
                                            name: lossy_text(tree.subrange(sp + 1, nul)),
                                            sha: tree.subrange(nul + 1, nul + 21),
                                        },
                                    ] + rest,
                                ),
                            }
                        }
                    },
                },
            }
        }
    }
}

#[via_fn]
proof fn raw_entries_shrink(tree: Seq<u8>, pos: int) {
    if 0 <= pos < tree.len() {
        crate::bytes::lemma_find_from(tree, 0x20, pos);
        let sp = find_from(tree, 0x20, pos);
        if sp < tree.len() {
            crate::bytes::lemma_find_from(tree, 0, sp + 1);
        }
    }
}

/// The result of reading entries, with more put in front.
spec fn after_entries(
    front: Seq<RawEntryModel>,
    r: Result<Seq<RawEntryModel>, CloneError>,
) -> Result<Seq<RawEntryModel>, CloneError> {
    match r {
        Ok(es) => Ok(front + es),
        Err(e) => Err(e),
    }
}

fn parse_tree(tree: &[u8]) -> (r: Result<Vec<RawEntry>, CloneError>)
    ensures
        (match r {
            Ok(v) => raw_entries(tree@, 0) == Ok::<Seq<RawEntryModel>, CloneError>(views(v@)),
            Err(e) => raw_entries(tree@, 0) == Err::<Seq<RawEntryModel>, CloneError>(e),
        }),
{
    let mut entries: Vec<RawEntry> = Vec::new();
    let mut pos: usize = 0;
    let ghost all = raw_entries(tree@, 0);
    assert(all == after_entries(views(entries@), all)) by {
        if let Ok(es) = all {
            assert(views(entries@) + es =~= es);
        }
    }
    while pos < tree.len()
        invariant
            0 <= pos <= tree@.len(),
            all == raw_entries(tree@, 0),
            all == after_entries(views(entries@), raw_entries(tree@, pos as int)),
        decreases tree@.len() - pos,
    {
        let sp: usize = find_byte(tree, 0x20, pos);
        if sp >= tree.len() {
            return Err(CloneError::TreeNoSpace);
        }
        let word = match text_of_slice(slice_subrange(tree, pos, sp)) {
            Some(w) => chars_of(w.as_str()),
            None => return Err(CloneError::ModeNotUtf8),
        };
        let mode: u32 = match read_octal(word.as_slice()) {
            Some(m) => m,
            None => return Err(CloneError::ModeNotOctal),
        };
        let nul: usize = find_byte(tree, 0, sp + 1);
        if nul >= tree.len() {
            return Err(CloneError::TreeNoNul);
        }
        if tree.len() - nul < 21 {
            return Err(CloneError::TreeShortId);
        }
        let name = utf8_lossy(slice_subrange(tree, sp + 1, nul));
        let sha = copy_bytes(slice_subrange(tree, nul + 1, nul + 21));
        let ghost before = entries@;
        entries.push(RawEntry { mode, name, sha });
        pos = nul + 21;
        proof {
            lemma_views_push(before, entries@.last());
            if let Ok(es) = raw_entries(tree@, pos as int) {
                assert(views(before) + (seq![entries@.last()@] + es) =~= views(entries@) + es);
            }
        }
    }
    assert(views(entries@) + Seq::empty() =~= views(entries@));
    Ok(entries)
}

/// The tree that the lines of a commit name, from the first on.
pub open spec fn tree_line(ls: Seq<Seq<char>>) -> Result<Seq<u8>, CloneError>
    decreases ls.len(),
{
    if ls.len() == 0 || ls[0].len() == 0 {
        Err(CloneError::NoTreeLine)
    } else if starts_with(ls[0], "tree "@) {
        sha_in_hex(trim(ls[0].subrange(5, ls[0].len() as int)))
    } else {
        tree_line(ls.drop_first())
    }
}

/// The tree that a commit's payload names.
pub open spec fn tree_of_commit(commit: Seq<u8>) -> Result<Seq<u8>, CloneError> {
    match text_of(commit) {
        None => Err(CloneError::CommitNotUtf8),
        Some(text) => tree_line(lines(text)),
    }
}

fn commit_tree_sha(commit: &[u8]) -> (r: Result<Vec<u8>, CloneError>)
    ensures
        crate::text::res_view(r) == tree_of_commit(commit@),
{
    let text = match text_of_slice(commit) {
        Some(t) => chars_of(t.as_str()),
        None => return Err(CloneError::CommitNotUtf8),
    };
    let ls = lines_of(text.as_slice());
    let ghost all = views(ls@);
    proof {
        reveal_strlit("tree ");
        assert(all.subrange(0, all.len() as int) =~= all);
    }
    let mut i: usize = 0;
    while i < ls.len()
        invariant
            0 <= i <= ls@.len(),
            all == views(ls@),
            "tree "@.len() == 5,
            tree_of_commit(commit@) == tree_line(all.subrange(i as int, all.len() as int)),
        decreases ls@.len() - i,
    {
        proof {
            let t = all.subrange(i as int, all.len() as int);
            assert(t[0] == ls@[i as int]@);
            assert(t.drop_first() =~= all.subrange(i + 1, all.len() as int));
        }
        let line = ls[i].as_slice();
        if line.len() == 0 {
            return Err(CloneError::NoTreeLine);
        }
        if chars_start_with(line, "tree ") {
            let word = string_of(trimmed(slice_subrange(line, 5, line.len())));
            return hex_to_sha(word.as_str());
        }
        i += 1;
    }
    Err(CloneError::NoTreeLine)
}

/// One thing to make in the working directory.
#[derive(PartialEq, Eq, Debug)]
pub enum CheckoutItem {
    /// A directory.
    Dir(Vec<String>),
    /// A symbolic link with its target.
    Link(Vec<String>, Vec<u8>),
    /// A file with its content, and whether it is executable.
    File(Vec<String>, Vec<u8>, bool),
}

/// The model of a [`CheckoutItem`]; a path is the names from the working directory down.
#[verifier::ext_equal]
pub enum ItemModel {
    Dir(Seq<Seq<char>>),
    Link(Seq<Seq<char>>, Seq<u8>),
    File(Seq<Seq<char>>, Seq<u8>, bool),
}

impl View for CheckoutItem {
    type V = ItemModel;

    open spec fn view(&self) -> ItemModel {
        match self {
            CheckoutItem::Dir(p) => ItemModel::Dir(views(p@)),
            CheckoutItem::Link(p, t) => ItemModel::Link(views(p@), t@),
            CheckoutItem::File(p, d, x) => ItemModel::File(views(p@), d@, *x),
        }
    }
}

/// The content of the object with the given id.
pub open spec fn content_of(objs: Seq<PackedModel>, sha: Seq<u8>) -> Option<Seq<u8>> {
    let i = find_id(objs, sha, objs.len() as int);
    if i >= 0 {
        Some(objs[i].data)
    } else {
        None
    }
}

/// What the entries of a tree from the first on make below `path`, going down at most `depth`
/// directories.
pub open spec fn items_of_entries(
    objs: Seq<PackedModel>,
    entries: Seq<RawEntryModel>,
    path: Seq<Seq<char>>,
    depth: nat,
) -> Result<Seq<ItemModel>, CloneError>
    decreases depth, 1nat, entries.len(),
{
    if entries.len() == 0 {
        Ok(Seq::empty())
    } else {
        let e = entries[0];
        let at = path.push(e.name);
        let made = if e.mode == 0x4000 {
            if depth == 0 {
                Err(CloneError::Cyclic)
            } else {
                match items_of_tree(objs, e.sha, at, (depth - 1) as nat) {
                    Err(x) => Err(x),
                    Ok(inner) => Ok(seq![ItemModel::Dir(at)] + inner),
                }
            }
        } else if e.mode == 0xe000 {
            Ok(Seq::empty())
        } else if e.mode == 0xa000 {
            match content_of(objs, e.sha) {
                None => Err(CloneError::LinkMissing),
                Some(d) => Ok(seq![ItemModel::Link(at, d)]),
            }
        } else {
            match content_of(objs, e.sha) {
                None => Err(CloneError::BlobMissing),
                Some(d) => Ok(seq![ItemModel::File(at, d, e.mode & 0x49 != 0)]),
            }
        };
        match made {
            Err(x) => Err(x),
            Ok(front) => match items_of_entries(objs, entries.drop_first(), path, depth) {
                Err(x) => Err(x),
                Ok(rest) => Ok(front + rest),
            },
        }
    }
}

/// What a tree makes below `path`.
pub open spec fn items_of_tree(
    objs: Seq<PackedModel>,
    sha: Seq<u8>,
    path: Seq<Seq<char>>,
    depth: nat,
) -> Result<Seq<ItemModel>, CloneError>
    decreases depth, 2nat, 0nat,
{
    let i = find_id(objs, sha, objs.len() as int);
    if i < 0 {
        Err(CloneError::TreeMissing)
    } else if objs[i].kind != Kind::Tree {
        Err(CloneError::NotATree)
    } else {
        match raw_entries(objs[i].data, 0) {
            Err(x) => Err(x),
            Ok(entries) => items_of_entries(objs, entries, path, depth),
        }
    }
}

/// The last object with the given id.
fn find_object<'a>(objs: &'a Vec<PackedObject>, sha: &[u8]) -> (r: Option<&'a PackedObject>)
    ensures
        ({
            let i = find_id(views(objs@), sha@, objs@.len() as int);
            match r {
                Some(o) => 0 <= i < objs@.len() && *o == objs@[i],
                None => i < 0,
            }
        }),
{
    let mut n: usize = objs.len();
    while n > 0
        invariant
            0 <= n <= objs@.len(),
            find_id(views(objs@), sha@, objs@.len() as int) == find_id(
                views(objs@),
                sha@,
                n as int,
            ),
        decreases n,
    {
        if same_bytes(objs[n - 1].sha.as_slice(), sha) {
            return Some(&objs[n - 1]);
        }
        n -= 1;
    }
    None
}

/// A path with one more name.
fn join_name(path: &Vec<String>, name: &String) -> (r: Vec<String>)
    ensures
        views(r@) == views(path@).push(name@),
{
    let mut r: Vec<String> = Vec::new();
    let mut i: usize = 0;
    while i < path.len()
        invariant
            0 <= i <= path@.len(),
            views(r@) == views(path@).subrange(0, i as int),
        decreases path@.len() - i,
    {
        let ghost before = r@;
        r.push(path[i].clone());
        proof {
            lemma_views_push(before, r@.last());
            assert(views(r@) =~= views(path@).subrange(0, i + 1));
        }
        i += 1;
    }
    let ghost before = r@;
    r.push(name.clone());
    proof {
        lemma_views_push(before, r@.last());
        assert(views(before) =~= views(path@));
    }
    r
}

fn checkout_tree(
    objs: &Vec<PackedObject>,
    sha: &[u8],
    path: &Vec<String>,
    depth: usize,
    out: &mut Vec<CheckoutItem>,
) -> (r: Result<(), CloneError>)
    ensures
        (match r {
            Ok(_) => items_of_tree(views(objs@), sha@, views(path@), depth as nat) matches Ok(items)
                && views(final(out)@) == views(old(out)@) + items,
            Err(e) => items_of_tree(views(objs@), sha@, views(path@), depth as nat) == Err::<
                Seq<ItemModel>,
                CloneError,
            >(e),
        }),
    decreases depth,
{
    let ghost models = views(objs@);
    let tree = match find_object(objs, sha) {
        Some(o) => o,
        None => return Err(CloneError::TreeMissing),
    };
    if tree.kind != Kind::Tree {
        return Err(CloneError::NotATree);
    }
    let entries = match parse_tree(tree.data.as_slice()) {
        Ok(v) => v,
        Err(e) => return Err(e),
    };
    let ghost all = views(entries@);
    let ghost whole = items_of_entries(models, all, views(path@), depth as nat);
    assert(items_of_tree(models, sha@, views(path@), depth as nat) == whole);
    let ghost mut done: Seq<ItemModel> = Seq::empty();
    proof {
        assert(all.subrange(0, all.len() as int) =~= all);
        assert(views(out@) + done =~= views(out@));
        if let Ok(items) = whole {
            assert(done + items =~= items);
        }
    }
    let mut i: usize = 0;
    while i < entries.len()
        invariant
            0 <= i <= entries@.len(),
            models == views(objs@),
            all == views(entries@),
            whole == items_of_tree(models, sha@, views(path@), depth as nat),
            whole == after_items(
                done,
                items_of_entries(
                    models,
                    all.subrange(i as int, all.len() as int),
                    views(path@),
                    depth as nat,
                ),
            ),
            views(out@) == views(old(out)@) + done,
        decreases entries@.len() - i,
    {
        let e = &entries[i];
        let ghost rest = all.subrange(i as int, all.len() as int);
        let ghost tail = all.subrange(i + 1, all.len() as int);
        proof {
            assert(rest[0] == entries@[i as int]@);
            assert(rest.drop_first() =~= tail);
        }
        let at = join_name(path, &e.name);
        let ghost at_view = views(at@);
        let ghost before = out@;
        let ghost mut front: Seq<ItemModel> = Seq::empty();
        if e.mode == 0x4000 {
            if depth == 0 {
                return Err(CloneError::Cyclic);
            }
            out.push(CheckoutItem::Dir(join_name(path, &e.name)));
            proof {
                lemma_views_push(before, out@.last());
            }
            let ghost mid = out@;
            match checkout_tree(objs, e.sha.as_slice(), &at, depth - 1, out) {
                Err(x) => return Err(x),
                Ok(_) => {},
            }
            proof {
                let inner = items_of_tree(
                    models,
                    entries@[i as int]@.sha,
                    at_view,
                    (depth - 1) as nat,
                )->Ok_0;
                front = seq![ItemModel::Dir(at_view)] + inner;
                assert(views(out@) =~= views(before) + front);
            }
        } else if e.mode == 0xe000 {
            assert(views(out@) + front =~= views(out@));
        } else {
            let blob = match find_object(objs, e.sha.as_slice()) {
                Some(o) => o,
                None => {
                    if e.mode == 0xa000 {
                        return Err(CloneError::LinkMissing);
                    } else {
                        return Err(CloneError::BlobMissing);
                    }
                },
            };
            let data = copy_bytes(blob.data.as_slice());
            if e.mode == 0xa000 {
                out.push(CheckoutItem::Link(at, data));
            } else {
                out.push(CheckoutItem::File(at, data, e.mode & 0x49 != 0));
            }
            proof {
                lemma_views_push(before, out@.last());
                front = seq![out@.last()@];
                assert(views(out@) =~= views(before) + front);
            }
        }
        proof {
            if let Ok(items) = items_of_entries(models, tail, views(path@), depth as nat) {
                assert(done + (front + items) =~= (done + front) + items);
            }
            assert(views(old(out)@) + done + front =~= views(old(out)@) + (done + front));
            done = done + front;
        }
        i += 1;
    }
    assert(all.subrange(i as int, all.len() as int) =~= Seq::empty());
    assert(done + Seq::empty() =~= done);
    Ok(())
}

/// The result of making items, with more put in front.
spec fn after_items(front: Seq<ItemModel>, r: Result<Seq<ItemModel>, CloneError>) -> Result<
    Seq<ItemModel>,
    CloneError,
> {
    match r {
        Ok(items) => Ok(front + items),
        Err(e) => Err(e),
    }
}

/// What a clone writes besides the objects themselves.
#[derive(Debug)]
pub struct ClonePlan {
    /// The references, each with the content of its file.
    pub refs: Vec<(String, String)>,
    /// The content of `HEAD`.
    pub head: String,
    /// What is made in the working directory, in that order.
    pub items: Vec<CheckoutItem>,
}

/// Whether a reference of the remote becomes one of the clone.
pub open spec fn is_cloned_ref(r: RefModel) -> bool {
    r.name != "HEAD"@ && !ends_with(r.name, "^{}"@)
}

/// The reference files of a clone.
pub open spec fn cloned_refs(refs: Seq<RefModel>) -> Seq<(Seq<char>, Seq<char>)>
    decreases refs.len(),
{
    if refs.len() == 0 {
        Seq::empty()
    } else {
        let front = cloned_refs(refs.drop_last());
        if is_cloned_ref(refs.last()) {
            front.push((refs.last().name, refs.last().sha + seq!['\n']))
        } else {
            front
        }
    }
}

/// The content of `HEAD` in a clone.
pub open spec fn cloned_head(target: Option<Seq<char>>) -> Seq<char> {
    "ref: "@ + (match target {
        Some(t) => t,
        None => "refs/heads/master"@,
    }) + seq!['\n']
}

/// What is made in the working directory of a clone.
pub open spec fn cloned_items(objs: Seq<PackedModel>, adv: AdvertModel) -> Result<
    Seq<ItemModel>,
    CloneError,
> {
    let tip = match adv.head_target {
        Some(t) => id_of_ref(adv.refs, t),
        None => None,
    };
    match tip {
        None => Ok(Seq::empty()),
        Some(h) => match sha_in_hex(h) {
            Err(e) => Err(e),
            Ok(sha) => {
                let i = find_id(objs, sha, objs.len() as int);
                if i < 0 {
                    Err(CloneError::HeadMissing)
                } else if objs[i].kind != Kind::Commit {
                    Err(CloneError::HeadNotCommit)
                } else {
                    match tree_of_commit(objs[i].data) {
                        Err(e) => Err(e),
                        Ok(tree) => items_of_tree(objs, tree, Seq::empty(), objs.len()),
                    }
                }
            },
        },
    }
}

fn plan_refs(adv: &RefAdvertisement) -> (r: Vec<(String, String)>)
    ensures
        views(r@) == cloned_refs(adv@.refs),
{
    let mut r: Vec<(String, String)> = Vec::new();
    let ghost all = adv@.refs;
    let mut i: usize = 0;
    assert(views(r@) =~= Seq::empty());
    while i < adv.refs.len()
        invariant
            0 <= i <= adv.refs@.len(),
            all == views(adv.refs@),
            views(r@) == cloned_refs(all.subrange(0, i as int)),
        decreases adv.refs@.len() - i,
    {
        proof {
            assert(all.subrange(0, i + 1).drop_last() =~= all.subrange(0, i as int));
            assert(all.subrange(0, i + 1).last() == adv.refs@[i as int]@);
        }
        let one = &adv.refs[i];
        if !same_text(one.name.as_str(), "HEAD") && !chars_end_with(
            chars_of(one.name.as_str()).as_slice(),
            "^{}",
        ) {
            let ghost before = r@;
            let mut content = one.sha.clone();
            content.push('\n');
            assert(content@ =~= one.sha@ + seq!['\n']);
            r.push((one.name.clone(), content));
            proof {
                lemma_views_push(before, r@.last());
            }
        }
        i += 1;
    }
    assert(all.subrange(0, i as int) =~= all);
    r
}

/// Lays out a clone of a remote with the given objects.
pub fn clone_to_disk(objs: &Vec<PackedObject>, adv: &RefAdvertisement) -> (r: Result<
    ClonePlan,
    CloneError,
>)
    ensures
        (match r {
            Ok(plan) => {
                &&& views(plan.refs@) == cloned_refs(adv@.refs)
                &&& plan.head@ == cloned_head(adv@.head_target)
                &&& cloned_items(views(objs@), adv@) == Ok::<Seq<ItemModel>, CloneError>(
                    views(plan.items@),
                )
            },
            Err(e) => cloned_items(views(objs@), adv@) == Err::<Seq<ItemModel>, CloneError>(e),
        }),
{
    let refs = plan_refs(adv);
    let mut head = String::from_str("ref: ");
    let tip = match &adv.head_target {
        Some(t) => {
            head.append(t.as_str());
            adv.sha_of(t.as_str())
        },
        None => {
            head.append("refs/heads/master");
            None
        },
    };
    head.push('\n');
    assert(head@ =~= cloned_head(adv@.head_target));
    let mut items: Vec<CheckoutItem> = Vec::new();
    assert(views(items@) =~= Seq::empty());
    if let Some(h) = tip {
        let sha = match hex_to_sha(h) {
            Ok(s) => s,
            Err(e) => return Err(e),
        };
        let commit = match find_object(objs, sha.as_slice()) {
            Some(o) => o,
            None => return Err(CloneError::HeadMissing),
        };
        if commit.kind != Kind::Commit {
            return Err(CloneError::HeadNotCommit);
        }
        let tree = match commit_tree_sha(commit.data.as_slice()) {
            Ok(t) => t,
            Err(e) => return Err(e),
        };
        let root: Vec<String> = Vec::new();
        assert(views(root@) =~= Seq::empty());
        match checkout_tree(objs, tree.as_slice(), &root, objs.len(), &mut items) {
            Ok(_) => {},
            Err(e) => return Err(e),
        }
        proof {
            let made = items_of_tree(views(objs@), tree@, Seq::empty(), objs@.len())->Ok_0;
            assert(Seq::<ItemModel>::empty() + made =~= made);
        }
    }
    Ok(ClonePlan { refs, head, items })
}

/// The last position of a slash or a colon before `upto`; `-1` if there is none.
pub open spec fn last_separator(s: Seq<char>, upto: int) -> int
    decreases upto,
{
    if upto <= 0 {
        -1
    } else if s[upto - 1] == '/' || s[upto - 1] == ':' {
        upto - 1
    } else {
        last_separator(s, upto - 1)
    }
}

/// The directory into which a remote is cloned: the last part of its address, without `.git`;
/// nothing if that is empty.
pub open spec fn dir_of_url(url: Seq<char>) -> Option<Seq<char>> {
    let t = without_slashes(url);
    let last = t.subrange(last_separator(t, t.len() as int) + 1, t.len() as int);
    let name = if ends_with(last, ".git"@) {
        last.subrange(0, last.len() - 4)
    } else {
        last
    };
    if name.len() == 0 {
        None
    } else {
        Some(name)
    }
}

/// The directory into which a remote is cloned.
pub fn dir_name_from_url(url: &str) -> (r: Option<String>)
    ensures
        opt_view(r) == dir_of_url(url@),
{
    proof {
        reveal_strlit(".git");
    }
    let cs = chars_of(url);
    let t = trim_slashes(cs.as_slice());
    let mut n: usize = t.len();
    while n > 0 && t[n - 1] != '/' && t[n - 1] != ':'
        invariant
            0 <= n <= t@.len(),
            last_separator(t@, t@.len() as int) == last_separator(t@, n as int),
        decreases n,
    {
        n -= 1;
    }
    assert(last_separator(t@, n as int) == n - 1);
    let last = slice_subrange(t, n, t.len());
    let name = if chars_end_with(last, ".git") {
        slice_subrange(last, 0, last.len() - 4)
    } else {
        last
    };
    if name.len() == 0 {
        None
    } else {
        Some(string_of(name))
    }
}

/// The entries of the tree that the pack holds under an id.
pub open spec fn packed_tree(objs: Seq<PackedModel>, sha: Seq<u8>) -> Option<Seq<RawEntryModel>> {
    let i = find_id(objs, sha, objs.len() as int);
    if i >= 0 && objs[i].kind == Kind::Tree {
        match raw_entries(objs[i].data, 0) {
            Ok(entries) => Some(entries),
            Err(_) => None,
        }
    } else {
        None
    }
}

/// Whether one of the entries is for the object with the given id.
pub open spec fn has_entry_for(entries: Seq<RawEntryModel>, sha: Seq<u8>) -> bool {
    exists|i: int| 0 <= i < entries.len() && (#[trigger] entries[i]).sha == sha
}

/// Whether these are trees of the pack, each with an entry in the one before it.
pub open spec fn packed_nested(objs: Seq<PackedModel>, s: Seq<Seq<u8>>) -> bool {
    &&& forall|i: int| 0 <= i < s.len() ==> packed_tree(objs, #[trigger] s[i]) is Some
    &&& forall|i: int, j: int|
        0 <= i && j == i + 1 && j < s.len() ==> has_entry_for(
            packed_tree(objs, #[trigger] s[i])->Some_0,
            #[trigger] s[j],
        )
}

proof fn lemma_raw_not_cyclic(tree: Seq<u8>, pos: int)
    ensures
        raw_entries(tree, pos) != Err::<Seq<RawEntryModel>, CloneError>(CloneError::Cyclic),
    decreases tree.len() - pos,
{
    if 0 <= pos < tree.len() {
        crate::bytes::lemma_find_from(tree, 0x20, pos);
        let sp = find_from(tree, 0x20, pos);
        if sp < tree.len() {
            crate::bytes::lemma_find_from(tree, 0, sp + 1);
            let nul = find_from(tree, 0, sp + 1);
            if nul + 21 <= tree.len() {
                lemma_raw_not_cyclic(tree, nul + 21);
            }
        }
    }
}

/// A chain of trees, one more than the depth to which a tree was followed.
proof fn lemma_tree_too_deep(
    objs: Seq<PackedModel>,
    sha: Seq<u8>,
    path: Seq<Seq<char>>,
    depth: nat,
) -> (s: Seq<Seq<u8>>)
    requires
        items_of_tree(objs, sha, path, depth) == Err::<Seq<ItemModel>, CloneError>(
            CloneError::Cyclic,
        ),
    ensures
        packed_nested(objs, s),
        s.len() == depth + 1,
        s[0] == sha,
    decreases depth, 2nat, 0nat,
{
    let i = find_id(objs, sha, objs.len() as int);
    lemma_raw_not_cyclic(objs[i].data, 0);
    let entries = raw_entries(objs[i].data, 0)->Ok_0;
    let t = lemma_entries_too_deep(objs, entries, path, depth);
    let s = seq![sha] + t;
    assert forall|k: int| 0 <= k < s.len() implies packed_tree(objs, #[trigger] s[k]) is Some by {
        if k > 0 {
            assert(s[k] == t[k - 1]);
        }
    }
    assert forall|k: int, j: int| 0 <= k && j == k + 1 && j < s.len() implies has_entry_for(
        packed_tree(objs, #[trigger] s[k])->Some_0,
        #[trigger] s[j],
    ) by {
        assert(s[j] == t[j - 1]);
        if k > 0 {
            assert(s[k] == t[k - 1]);
        }
    }
    s
}

proof fn lemma_entries_too_deep(
    objs: Seq<PackedModel>,
    entries: Seq<RawEntryModel>,
    path: Seq<Seq<char>>,
    depth: nat,
) -> (s: Seq<Seq<u8>>)
    requires
        items_of_entries(objs, entries, path, depth) == Err::<Seq<ItemModel>, CloneError>(
            CloneError::Cyclic,
        ),
    ensures
        packed_nested(objs, s),
        s.len() == depth,
        depth > 0 ==> has_entry_for(entries, s[0]),
    decreases depth, 1nat, entries.len(),
{
    let e = entries[0];
    let at = path.push(e.name);
    if e.mode == 0x4000 && depth == 0 {
        Seq::empty()
    } else if e.mode == 0x4000 && items_of_tree(objs, e.sha, at, (depth - 1) as nat) == Err::<
        Seq<ItemModel>,
        CloneError,
    >(CloneError::Cyclic) {
        lemma_tree_too_deep(objs, e.sha, at, (depth - 1) as nat)
    } else {
        let rest = entries.drop_first();
        let s = lemma_entries_too_deep(objs, rest, path, depth);
        if depth > 0 {
            let i = choose|i: int| 0 <= i < rest.len() && (#[trigger] rest[i]).sha == s[0];
            assert(entries[i + 1] == rest[i]);
        }
        s
    }
}

/// A clone is given up as cyclic only where the pack holds a tree that lies within itself.
pub proof fn law_clone_cycle_is_real(objs: Seq<PackedModel>, sha: Seq<u8>, path: Seq<Seq<char>>)
    requires
        items_of_tree(objs, sha, path, objs.len()) == Err::<Seq<ItemModel>, CloneError>(
            CloneError::Cyclic,
        ),
    ensures
        exists|s: Seq<Seq<u8>>| #[trigger] packed_nested(objs, s) && !s.no_duplicates(),
{
    let s = lemma_tree_too_deep(objs, sha, path, objs.len());
    if s.no_duplicates() {
        let at = Seq::new(s.len(), |k: int| find_id(objs, s[k], objs.len() as int));
        assert forall|k: int| 0 <= k < s.len() implies 0 <= #[trigger] at[k] < objs.len()
            && objs[at[k]].sha@ == s[k] by {
            assert(packed_tree(objs, s[k]) is Some);
            lemma_find_id(objs, s[k], objs.len() as int);
        }
        assert(at.no_duplicates());
        at.unique_seq_to_set();
        vstd::set_lib::lemma_int_range(0, objs.len() as int);
        assert(at.to_set().subset_of(vstd::set_lib::set_int_range(0, objs.len() as int))) by {
            assert forall|x: int| at.to_set().contains(x) implies vstd::set_lib::set_int_range(
                0,
                objs.len() as int,
            ).contains(x) by {
                let k = choose|k: int| 0 <= k < at.len() && at[k] == x;
                assert(0 <= at[k] < objs.len());
            }
        }
        vstd::set_lib::lemma_len_subset(
            at.to_set(),
            vstd::set_lib::set_int_range(0, objs.len() as int),
        );
    }
}

proof fn lemma_find_id(objs: Seq<PackedModel>, sha: Seq<u8>, upto: int)
    requires
        0 <= upto <= objs.len(),
    ensures
        find_id(objs, sha, upto) >= 0 ==> find_id(objs, sha, upto) < upto && objs[find_id(
            objs,
            sha,
            upto,
        )].sha@ == sha,
    decreases upto,
{
    if upto > 0 && objs[upto - 1].sha@ != sha {
        lemma_find_id(objs, sha, upto - 1);
    }
}

/// The references of a clone are those that the remote advertises, in order, each with its id on a
/// line: all but `HEAD` and those whose names end in `^{}`, which repeat a tag.
pub proof fn law_clone_refs(refs: Seq<RefModel>)
    ensures
        picked(
            cloned_refs(refs),
            Seq::new(
                refs.len(),
                |i: int|
                    {
                        let name = refs[i].name;
                        let peeled = name.len() >= 3 && name[name.len() - 3] == '^'
                            && name[name.len() - 2] == '{' && name[name.len() - 1] == '}';
                        if name == "HEAD"@ || peeled {
                            None
                        } else {
                            Some((name, refs[i].sha.push('\n')))
                        }
                    },
            ),
        ),
    decreases refs.len(),
{
    let wanted = Seq::new(
        refs.len(),
        |i: int|
            {
                let name = refs[i].name;
                let peeled = name.len() >= 3 && name[name.len() - 3] == '^' && name[name.len() - 2]
                    == '{' && name[name.len() - 1] == '}';
                if name == "HEAD"@ || peeled {
                    None
                } else {
                    Some((name, refs[i].sha.push('\n')))
                }
            },
    );
    if refs.len() == 0 {
        lemma_picked_none::<(Seq<char>, Seq<char>)>();
        assert(wanted =~= Seq::empty());
    } else {
        let t = refs.drop_last();
        law_clone_refs(t);
        let before = Seq::new(
            t.len(),
            |i: int|
                {
                    let name = t[i].name;
                    let peeled = name.len() >= 3 && name[name.len() - 3] == '^'
                        && name[name.len() - 2] == '{' && name[name.len() - 1] == '}';
                    if name == "HEAD"@ || peeled {
                        None
                    } else {
                        Some((name, t[i].sha.push('\n')))
                    }
                },
        );
        let name = refs.last().name;
        reveal_strlit("^{}");
        if name.len() >= 3 {
            let end = name.subrange(name.len() - 3, name.len() as int);
            assert(end[0] == name[name.len() - 3] && end[1] == name[name.len() - 2] && end[2]
                == name[name.len() - 1]);
            if end[0] == '^' && end[1] == '{' && end[2] == '}' {
                assert(end =~= "^{}"@);
            }
        }
        assert(refs.last().sha + seq!['\n'] =~= refs.last().sha.push('\n'));
        lemma_picked_push(cloned_refs(t), before, wanted.last());
        assert(wanted =~= before.push(wanted.last()));
    }
}

/// The `HEAD` of a clone reads as being on the branch that is that of the remote, or on `master`
/// where the remote names none.
pub proof fn law_clone_head(target: Option<Seq<char>>)
    requires
        target matches Some(t) ==> t.len() > 0 && !is_space(t[0]) && !is_space(t.last())
            && !t.contains('\n') && !t.contains('\\'),
    ensures
        head_in(cloned_head(target)) == Ok::<HeadModel, RefError>(
            HeadModel::Branch(
                match target {
                    Some(t) => t,
                    None => "refs/heads/master"@,
                },
            ),
        ),
{
    let t = match target {
        Some(t) => t,
        None => "refs/heads/master"@,
    };
    reveal_strlit("refs/heads/master");
    assert(t.len() > 0 && !is_space(t[0]) && !is_space(t.last()) && !t.contains('\n')
        && !t.contains('\\'));
    law_branch_head_round_trip(t);
}

} // verus!
