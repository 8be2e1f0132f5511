//! Objects and the objects they refer to: what a remote has, and what it has to be sent.
use crate::bytes::{find_byte, find_from, lemma_find_from, starts_with};
use crate::numbers::{parse_octal, read_octal};
use crate::object::{oid_of, ObjectSha};
use crate::object_db::{lemma_count, ObjectDb};
use crate::oid_list::OidList;
use crate::parse_packfile::{contents, loose_base, read_loose_base, Kind, PackError};
use crate::reference::{read_stored_id, stored_id};
use crate::text::{
    before_blank, chars_of, chars_start_with, lemma_before_blank, lemma_views_push, lines, lines_of,
    lossy_text, opt_view, string_of, text_of, text_of_slice, trim, trimmed, utf8_lossy, views,
};
use vstd::prelude::*;
use vstd::slice::slice_subrange;

verus! {

/// What a commit refers to, as its header lines write it.
#[verifier::ext_equal]
pub struct CommitLinks {
    pub tree: Option<Seq<char>>,
    pub parents: Seq<Seq<char>>,
}

/// What header lines refer to: the last tree they give, and all parents.
pub open spec fn links_in(ls: Seq<Seq<char>>) -> CommitLinks
    decreases ls.len(),
{
    if ls.len() == 0 {
        CommitLinks { tree: None, parents: Seq::empty() }
    } else {
        let before = links_in(ls.drop_last());
        let line = ls.last();
        if starts_with(line, "tree "@) {
            CommitLinks { tree: Some(trim(line.subrange(5, line.len() as int))), ..before }
        } else if starts_with(line, "parent "@) {
            CommitLinks {
                parents: before.parents.push(trim(line.subrange(7, line.len() as int))),
                ..before
            }
        } else {
            before
        }
    }
}

/// What a commit refers to.
pub open spec fn commit_links(payload: Seq<u8>) -> CommitLinks {
    let ls = lines(lossy_text(payload));
    links_in(ls.subrange(0, before_blank(ls)))
}

/// The tree and the parents that a commit refers to, as it writes them.
pub fn commit_children(payload: &[u8]) -> (r: (Option<String>, Vec<String>))
    ensures
        opt_view(r.0) == commit_links(payload@).tree,
        views(r.1@) == commit_links(payload@).parents,
{
    let text = chars_of(utf8_lossy(payload).as_str());
    let ls = lines_of(text.as_slice());
    let ghost all = lines(lossy_text(payload@));
    let mut tree: Option<String> = None;
    let mut parents: Vec<String> = Vec::new();
    let mut i: usize = 0;
    assert(all.subrange(0, 0) =~= Seq::empty());
    assert(views(parents@) =~= Seq::empty());
    while i < ls.len() && ls[i].len() > 0
        invariant
            0 <= i <= ls@.len(),
            all == views(ls@),
            forall|k: int| 0 <= k < i ==> (#[trigger] all[k]).len() > 0,
            opt_view(tree) == links_in(all.subrange(0, i as int)).tree,
            views(parents@) == links_in(all.subrange(0, i as int)).parents,
        decreases ls@.len() - i,
    {
        proof {
            let upto = all.subrange(0, i + 1);
            assert(upto.drop_last() =~= all.subrange(0, i as int));
            assert(upto.last() == ls@[i as int]@);
            reveal_strlit("tree ");
            reveal_strlit("parent ");
        }
        let line = ls[i].as_slice();
        if chars_start_with(line, "tree ") {
            tree = Some(string_of(trimmed(slice_subrange(line, 5, line.len()))));
        } else if chars_start_with(line, "parent ") {
            let p = string_of(trimmed(slice_subrange(line, 7, line.len())));
            proof {
                lemma_views_push(parents@, p);
            }
            parents.push(p);
        }
        i += 1;
    }
    proof {
        lemma_before_blank(all, i as int);
    }
    (tree, parents)
}

/// The mode of a tree entry; 0 where it is no octal number.
pub open spec fn entry_mode(word: Seq<u8>) -> nat {
    match text_of(word) {
        None => 0,
        Some(s) => match parse_octal(s) {
            None => 0,
            Some(m) => m,
        },
    }
}

/// The modes and ids in a tree's payload from `pos` on, up to where it is malformed.
pub open spec fn tree_links(tree: Seq<u8>, pos: int) -> Seq<(nat, ObjectSha)>
    decreases tree.len() - pos,
    via tree_links_shrink
{
    if pos < 0 || pos >= tree.len() {
        Seq::empty()
    } else {
        let sp = find_from(tree, 0x20, pos);
        let nul = find_from(tree, 0, sp + 1);
        if sp >= tree.len() || nul >= tree.len() || nul + 21 > tree.len() {
            Seq::empty()
        } else {
            seq![
                (entry_mode(tree.subrange(pos, sp)), oid_of(tree.subrange(nul + 1, nul + 21))),
            ] + tree_links(tree, nul + 21)
        }
    }
}

#[via_fn]
proof fn tree_links_shrink(tree: Seq<u8>, pos: int) {
    if 0 <= pos < tree.len() {
        lemma_find_from(tree, 0x20, pos);
        let sp = find_from(tree, 0x20, pos);
        if sp < tree.len() {
            lemma_find_from(tree, 0, sp + 1);
        }
    }
}

/// The models of modes and ids.
pub open spec fn link_models(v: Seq<(u32, ObjectSha)>) -> Seq<(nat, ObjectSha)> {
    Seq::new(v.len(), |i: int| (v[i].0 as nat, v[i].1))
}

fn read_mode(word: &[u8]) -> (r: u32)
    ensures
        r == entry_mode(word@),
{
    match text_of_slice(word) {
        None => 0,
        Some(s) => {
            let cs = chars_of(s.as_str());
            match read_octal(cs.as_slice()) {
                None => 0,
                Some(m) => m,
            }
        },
    }
}

/// The modes and ids in a tree's payload, up to where it is malformed.
pub fn tree_children(payload: &[u8]) -> (r: Vec<(u32, ObjectSha)>)
    ensures
        link_models(r@) == tree_links(payload@, 0),
{
    let mut out: Vec<(u32, ObjectSha)> = Vec::new();
    let mut pos: usize = 0;
    assert(link_models(out@) + tree_links(payload@, 0) =~= tree_links(payload@, 0));
    while pos < payload.len()
        invariant
            0 <= pos <= payload@.len(),
            tree_links(payload@, 0) == link_models(out@) + tree_links(payload@, pos as int),
        decreases payload@.len() - pos,
    {
        let ghost before = link_models(out@);
        let sp: usize = find_byte(payload, 0x20, pos);
        if sp >= payload.len() {
            assert(before + Seq::empty() =~= before);
            return out;
        }
        let nul: usize = find_byte(payload, 0, sp + 1);
        if nul >= payload.len() || payload.len() - nul < 21 {
            assert(before + Seq::empty() =~= before);
            return out;
        }
        let mode: u32 = read_mode(slice_subrange(payload, pos, sp));
        let id = slice_subrange(payload, nul + 1, nul + 21);
        let oid = match ObjectSha::from_bytes(id) {
            Some(o) => o,
            None => return out,
        };
        out.push((mode, oid));
        proof {
            let x = (mode as nat, oid);
            let rest = tree_links(payload@, nul + 21);
            assert(link_models(out@) =~= before.push(x));
            assert(before + (seq![x] + rest) =~= before.push(x) + rest);
        }
        pos = nul + 21;
    }
    assert(link_models(out@) + Seq::empty() =~= link_models(out@));
    out
}

/// The mode of a submodule, whose commit is in another repository.
pub const GITLINK_MODE: u32 = 0o160000;

/// The ids behind entries that are not submodules.
pub open spec fn linked_ids(s: Seq<(nat, ObjectSha)>) -> Seq<Option<ObjectSha>>
    decreases s.len(),
{
    if s.len() == 0 {
        Seq::empty()
    } else {
        let before = linked_ids(s.drop_last());
        if s.last().0 == GITLINK_MODE {
            before
        } else {
            before.push(Some(s.last().1))
        }
    }
}

/// The objects that some texts name; nothing for one that is not 40 small hexadecimal digits.
pub open spec fn written_ids(s: Seq<Seq<char>>) -> Seq<Option<ObjectSha>> {
    Seq::new(s.len(), |i: int| stored_id(s[i]))
}

/// The objects that an object refers to directly; nothing for one whose id is malformed.
pub open spec fn children_of(kind: Kind, payload: Seq<u8>) -> Seq<Option<ObjectSha>> {
    match kind {
        Kind::Commit => {
            let l = commit_links(payload);
            (match l.tree {
                Some(t) => seq![stored_id(t)],
                None => Seq::empty(),
            }) + written_ids(l.parents)
        },
        Kind::Tree => linked_ids(tree_links(payload, 0)),
        _ => Seq::empty(),
    }
}

/// Puts the objects that an object refers to on a stack.
pub fn push_children(kind: Kind, payload: &[u8], stack: &mut Vec<Option<ObjectSha>>)
    ensures
        final(stack)@ == old(stack)@ + children_of(kind, payload@),
{
    let ghost before = stack@;
    match kind {
        Kind::Commit => {
            let (tree, parents) = commit_children(payload);
            let ghost first = children_of(kind, payload@).subrange(
                0,
                (if tree is Some {
                    1int
                } else {
                    0
                }),
            );
            if let Some(t) = tree {
                stack.push(read_stored_id(chars_of(t.as_str()).as_slice()));
            }
            assert(stack@ =~= before + first);
            let ghost texts = views(parents@);
            let mut i: usize = 0;
            while i < parents.len()
                invariant
                    0 <= i <= parents@.len(),
                    texts == views(parents@),
                    stack@ == before + first + written_ids(texts).subrange(0, i as int),
                decreases parents@.len() - i,
            {
                stack.push(read_stored_id(chars_of(parents[i].as_str()).as_slice()));
                assert(texts[i as int] == parents@[i as int]@);
                i += 1;
                assert(stack@ =~= before + first + written_ids(texts).subrange(0, i as int));
            }
            assert(stack@ =~= before + children_of(kind, payload@));
        },
        Kind::Tree => {
            let links = tree_children(payload);
            let ghost all = link_models(links@);
            let mut i: usize = 0;
            assert(all.subrange(0, 0) =~= Seq::empty());
            assert(stack@ =~= before + linked_ids(all.subrange(0, 0)));
            while i < links.len()
                invariant
                    0 <= i <= links@.len(),
                    all == link_models(links@),
                    stack@ == before + linked_ids(all.subrange(0, i as int)),
                decreases links@.len() - i,
            {
                let ghost now = linked_ids(all.subrange(0, i as int));
                proof {
                    let upto = all.subrange(0, i + 1);
                    assert(upto.drop_last() =~= all.subrange(0, i as int));
                    assert(upto.last() == (links@[i as int].0 as nat, links@[i as int].1));
                }
                if links[i].0 != GITLINK_MODE {
                    stack.push(Some(links[i].1));
                    assert(stack@ =~= before + now.push(Some(links@[i as int].1)));
                }
                i += 1;
            }
            assert(all.subrange(0, i as int) =~= all);
        },
        _ => {
            assert(stack@ =~= before + Seq::empty());
        },
    }
}

/// The id of no object.
pub open spec fn is_zero(oid: ObjectSha) -> bool {
    oid is SHA1 && forall|i: int| 0 <= i < oid@.len() ==> oid@[i] == 0
}

/// Whether an id is that of no object.
pub fn oid_is_zero(oid: &ObjectSha) -> (r: bool)
    ensures
        r == is_zero(*oid),
{
    match oid {
        ObjectSha::SHA256(_) => false,
        ObjectSha::SHA1(_) => {
            let b = oid.as_bytes();
            let mut i: usize = 0;
            while i < b.len()
                invariant
                    0 <= i <= b@.len(),
                    b@ == oid@,
                    forall|k: int| 0 <= k < i ==> b@[k] == 0,
                decreases b@.len() - i,
            {
                if b[i] != 0 {
                    return false;
                }
                i += 1;
            }
            true
        },
    }
}

/// The objects that an object of the store refers to; none where it cannot be taken apart.
pub open spec fn links_of(db: Map<ObjectSha, Seq<u8>>, oid: ObjectSha) -> Seq<Option<ObjectSha>> {
    match loose_base(db[oid]) {
        Ok((kind, payload)) => children_of(kind, payload),
        Err(_) => Seq::empty(),
    }
}

/// Whether an id stands for an object of the store.
pub open spec fn here(db: Map<ObjectSha, Seq<u8>>, oid: ObjectSha) -> bool {
    db.contains_key(oid) && !is_zero(oid)
}

/// Whether `p` leads from an object to another, all of them in the store and outside `but`, from
/// each to one that it refers to.
pub open spec fn is_chain(
    db: Map<ObjectSha, Seq<u8>>,
    but: Seq<ObjectSha>,
    p: Seq<ObjectSha>,
    from: ObjectSha,
    to: ObjectSha,
) -> bool {
    &&& p.len() > 0
    &&& p[0] == from
    &&& p.last() == to
    &&& forall|i: int| 0 <= i < p.len() ==> here(db, #[trigger] p[i]) && !but.contains(p[i])
    &&& forall|i: int|
        0 <= i < p.len() - 1 ==> links_of(db, #[trigger] p[i]).contains(Some(p[i + 1]))
}

/// Whether an object can be reached from another without going through `but`.
pub open spec fn reaches(
    db: Map<ObjectSha, Seq<u8>>,
    but: Seq<ObjectSha>,
    from: ObjectSha,
    to: ObjectSha,
) -> bool {
    exists|p: Seq<ObjectSha>| is_chain(db, but, p, from, to)
}

/// Whether a list holds, with every object, all objects of the store that it refers to.
pub open spec fn closed_list(db: Map<ObjectSha, Seq<u8>>, s: Seq<ObjectSha>) -> bool {
    forall|o: ObjectSha, c: ObjectSha|
        s.contains(o) && #[trigger] links_of(db, o).contains(Some(c)) && here(db, c) ==> s.contains(c)
}

proof fn lemma_reach_step(
    db: Map<ObjectSha, Seq<u8>>,
    but: Seq<ObjectSha>,
    from: ObjectSha,
    mid: ObjectSha,
    to: ObjectSha,
)
    requires
        reaches(db, but, from, mid),
        links_of(db, mid).contains(Some(to)),
        here(db, to),
        !but.contains(to),
    ensures
        reaches(db, but, from, to),
{
    let p = choose|p: Seq<ObjectSha>| is_chain(db, but, p, from, mid);
    let q = p.push(to);
    assert forall|i: int| 0 <= i < q.len() implies here(db, #[trigger] q[i]) && !but.contains(
        q[i],
    ) by {
        if i < p.len() {
            assert(q[i] == p[i]);
        }
    }
    assert forall|i: int| 0 <= i < q.len() - 1 implies links_of(db, #[trigger] q[i]).contains(
        Some(q[i + 1]),
    ) by {
        if i < p.len() - 1 {
            assert(q[i] == p[i] && q[i + 1] == p[i + 1]);
        } else {
            assert(q[i] == p.last());
        }
    }
    assert(is_chain(db, but, q, from, to));
}

proof fn lemma_closed_chain(
    db: Map<ObjectSha, Seq<u8>>,
    s: Seq<ObjectSha>,
    p: Seq<ObjectSha>,
    i: int,
)
    requires
        closed_list(db, s),
        p.len() > 0,
        s.contains(p[0]),
        is_chain(db, Seq::empty(), p, p[0], p.last()),
        0 <= i < p.len(),
    ensures
        s.contains(p[i]),
    decreases i,
{
    if i > 0 {
        lemma_closed_chain(db, s, p, i - 1);
        assert(links_of(db, p[i - 1]).contains(Some(p[i - 1 + 1])));
        assert(here(db, p[i]));
    }
}

/// Adds to a list all objects of the store that can be reached from one.
pub fn mark_present(db: &ObjectDb, root: &ObjectSha, present: &mut OidList)
    requires
        closed_list(db@, old(present)@),
        old(present)@.no_duplicates(),
        forall|i: int| 0 <= i < old(present)@.len() ==> db@.contains_key(#[trigger] old(present)@[i]),
    ensures
        closed_list(db@, final(present)@),
        final(present)@.no_duplicates(),
        forall|i: int|
            0 <= i < final(present)@.len() ==> db@.contains_key(#[trigger] final(present)@[i]),
        forall|o: ObjectSha| #[trigger]
            final(present)@.contains(o) <==> old(present)@.contains(o) || reaches(
                db@,
                Seq::empty(),
                *root,
                o,
            ),
{
    let ghost none = Seq::<ObjectSha>::empty();
    let ghost start = present@;
    let mut stack: Vec<Option<ObjectSha>> = Vec::new();
    stack.push(Some(*root));
    proof {
        assert(stack@.contains(Some(*root))) by {
            assert(stack@[0] == Some(*root));
        }
        lemma_count(db, present@);
        if here(db@, *root) {
            assert(is_chain(db@, none, seq![*root], *root, *root));
        }
        assert forall|o: ObjectSha, c: ObjectSha|
            present@.contains(o) && #[trigger] links_of(db@, o).contains(Some(c)) && here(
                db@,
                c,
            ) implies present@.contains(c) || stack@.contains(Some(c)) by {}
        assert forall|i: int| 0 <= i < stack@.len() implies match #[trigger] stack@[i] {
            Some(o) => here(db@, o) ==> reaches(db@, none, *root, o),
            None => true,
        } by {}
    }
    while stack.len() > 0
        invariant
            none == Seq::<ObjectSha>::empty(),
            present@.no_duplicates(),
            present@.len() <= db.count(),
            forall|i: int| 0 <= i < present@.len() ==> db@.contains_key(#[trigger] present@[i]),
            forall|o: ObjectSha| start.contains(o) ==> #[trigger] present@.contains(o),
            forall|o: ObjectSha| #[trigger]
                present@.contains(o) ==> start.contains(o) || reaches(db@, none, *root, o),
            forall|o: ObjectSha, c: ObjectSha|
                present@.contains(o) && #[trigger] links_of(db@, o).contains(Some(c)) && here(
                    db@,
                    c,
                ) ==> present@.contains(c) || stack@.contains(Some(c)),
            forall|i: int|
                0 <= i < stack@.len() ==> match #[trigger] stack@[i] {
                    Some(o) => here(db@, o) ==> reaches(db@, none, *root, o),
                    None => true,
                },
            here(db@, *root) ==> present@.contains(*root) || stack@.contains(Some(*root)),
        decreases db.count() - present@.len(), stack@.len(),
    {
        let ghost before = stack@;
        let ghost was = present@;
        let id = match stack.pop() {
            Some(x) => x,
            None => None,
        };
        proof {
            assert(before[before.len() - 1] == id);
            assert forall|x: Option<ObjectSha>| before.contains(x) && x != id implies #[trigger] stack@.contains(
                x,
            ) by {
                let i = choose|i: int| 0 <= i < before.len() && before[i] == x;
                assert(stack@[i] == x);
            }
            assert forall|i: int| 0 <= i < stack@.len() implies match #[trigger] stack@[i] {
                Some(o) => here(db@, o) ==> reaches(db@, none, *root, o),
                None => true,
            } by {
                assert(stack@[i] == before[i]);
            }
        }
        let oid = match id {
            Some(o) => o,
            None => {
                continue ;
            },
        };
        if oid_is_zero(&oid) || present.contains(&oid) {
            continue ;
        }
        let raw = match db.get(&oid) {
            Some(raw) => raw,
            None => {
                continue ;
            },
        };
        present.add(oid);
        let ghost popped = stack@;
        proof {
            assert(reaches(db@, none, *root, oid));
            assert(present@[was.len() as int] == oid);
            assert forall|o: ObjectSha| #[trigger] present@.contains(o) <==> was.contains(o) || o
                == oid by {
                if was.contains(o) {
                    let i = choose|i: int| 0 <= i < was.len() && was[i] == o;
                    assert(present@[i] == o);
                }
                if present@.contains(o) && o != oid {
                    let i = choose|i: int| 0 <= i < present@.len() && present@[i] == o;
                    assert(was[i] == o);
                }
            }
            assert(present@.no_duplicates());
            lemma_count(db, present@);
        }
        match read_loose_base(raw.as_slice()) {
            Ok((kind, payload)) => {
                push_children(kind, payload.as_slice(), &mut stack);
            },
            Err(_) => {
                assert(stack@ =~= popped + links_of(db@, oid));
            },
        }
        proof {
            let kids = links_of(db@, oid);
            assert(stack@ == popped + kids);
            assert forall|x: Option<ObjectSha>| popped.contains(x) || kids.contains(x) implies #[trigger] stack@.contains(
                x,
            ) by {
                if popped.contains(x) {
                    let i = choose|i: int| 0 <= i < popped.len() && popped[i] == x;
                    assert(stack@[i] == x);
                } else {
                    let i = choose|i: int| 0 <= i < kids.len() && kids[i] == x;
                    assert(stack@[popped.len() + i] == x);
                }
            }
            assert forall|o: ObjectSha, c: ObjectSha|
                present@.contains(o) && #[trigger] links_of(db@, o).contains(Some(c)) && here(
                    db@,
                    c,
                ) implies present@.contains(c) || stack@.contains(Some(c)) by {
                if o == oid {
                    assert(stack@.contains(Some(c)));
                } else {
                    assert(was.contains(o));
                    if !was.contains(c) && c != oid {
                        assert(before.contains(Some(c)));
                        assert(popped.contains(Some(c)));
                    }
                }
            }
            assert forall|i: int| 0 <= i < stack@.len() implies match #[trigger] stack@[i] {
                Some(o) => here(db@, o) ==> reaches(db@, none, *root, o),
                None => true,
            } by {
                if i < popped.len() {
                    assert(stack@[i] == popped[i]);
                } else {
                    let x = kids[i - popped.len()];
                    assert(stack@[i] == x);
                    if let Some(o) = x {
                        assert(kids.contains(Some(o)));
                        if here(db@, o) {
                            lemma_reach_step(db@, none, *root, oid, o);
                        }
                    }
                }
            }
        }
    }
    proof {
        assert(stack@.len() == 0);
        assert forall|o: ObjectSha| #[trigger] present@.contains(o) <==> start.contains(o)
            || reaches(db@, none, *root, o) by {
            if reaches(db@, none, *root, o) {
                let p = choose|p: Seq<ObjectSha>| is_chain(db@, none, p, *root, o);
                assert(here(db@, p[0]));
                assert(present@.contains(*root));
                lemma_closed_chain(db@, present@, p, p.len() - 1);
            }
        }
    }
}

/// Why what has to be sent cannot be gathered.
#[derive(Clone, Copy, PartialEq, Eq, Debug)]
pub enum GraphError {
    /// A text that is not the id of an object, in 40 small hexadecimal digits.
    BadId,
    /// The store does not hold this object.
    Missing(ObjectSha),
    /// An object cannot be taken apart.
    Unreadable(PackError),
}

/// The kind and the content of an object of the store.
pub open spec fn object_in(db: Map<ObjectSha, Seq<u8>>, oid: ObjectSha) -> Result<
    (Kind, Seq<u8>),
    GraphError,
> {
    if !db.contains_key(oid) {
        Err(GraphError::Missing(oid))
    } else {
        match loose_base(db[oid]) {
            Ok(x) => Ok(x),
            Err(e) => Err(GraphError::Unreadable(e)),
        }
    }
}

/// Where a gathering of objects has got to: the ids that are still to be looked at, the last one
/// first, and the objects that were gathered.
#[verifier::ext_equal]
pub struct Gathering {
    pub stack: Seq<Option<ObjectSha>>,
    pub out: Seq<ObjectSha>,
}

/// The gathering after the next id was looked at: one that stands for no object, or is among the
/// objects `but` or gathered already, is passed over.
pub open spec fn gather_step(
    db: Map<ObjectSha, Seq<u8>>,
    but: Seq<ObjectSha>,
    g: Gathering,
) -> Result<Gathering, GraphError> {
    let rest = g.stack.drop_last();
    match g.stack.last() {
        None => Err(GraphError::BadId),
        Some(oid) => if is_zero(oid) || but.contains(oid) || g.out.contains(oid) {
            Ok(Gathering { stack: rest, ..g })
        } else {
            match object_in(db, oid) {
                Err(e) => Err(e),
                Ok((kind, payload)) => Ok(
                    Gathering {
                        stack: rest + children_of(kind, payload),
                        out: g.out.push(oid),
                    },
                ),
            }
        },
    }
}

/// The gathering from an object after `k` ids were looked at.
pub open spec fn gathered(
    db: Map<ObjectSha, Seq<u8>>,
    but: Seq<ObjectSha>,
    from: ObjectSha,
    k: nat,
) -> Result<Gathering, GraphError>
    decreases k,
{
    if k == 0 {
        Ok(Gathering { stack: seq![Some(from)], out: Seq::empty() })
    } else {
        match gathered(db, but, from, (k - 1) as nat) {
            Err(e) => Err(e),
            Ok(g) => if g.stack.len() == 0 {
                Ok(g)
            } else {
                gather_step(db, but, g)
            },
        }
    }
}

/// Whether gathering from an object ends with these objects, or with this error.
pub open spec fn gathers(
    db: Map<ObjectSha, Seq<u8>>,
    but: Seq<ObjectSha>,
    from: ObjectSha,
    r: Result<Seq<ObjectSha>, GraphError>,
) -> bool {
    exists|k: nat|
        match #[trigger] gathered(db, but, from, k) {
            Ok(g) => g.stack.len() == 0 && r == Ok::<Seq<ObjectSha>, GraphError>(g.out),
            Err(e) => r == Err::<Seq<ObjectSha>, GraphError>(e),
        }
}

proof fn lemma_gathered_stays(
    db: Map<ObjectSha, Seq<u8>>,
    but: Seq<ObjectSha>,
    from: ObjectSha,
    j: nat,
    k: nat,
)
    requires
        j <= k,
        gathered(db, but, from, j) matches Ok(g) ==> g.stack.len() == 0,
    ensures
        gathered(db, but, from, k) == gathered(db, but, from, j),
    decreases k,
{
    if j < k {
        lemma_gathered_stays(db, but, from, j, (k - 1) as nat);
    }
}

/// Gathering from an object ends in one way only.
pub proof fn law_gathers_unique(
    db: Map<ObjectSha, Seq<u8>>,
    but: Seq<ObjectSha>,
    from: ObjectSha,
    a: Result<Seq<ObjectSha>, GraphError>,
    b: Result<Seq<ObjectSha>, GraphError>,
)
    requires
        gathers(db, but, from, a),
        gathers(db, but, from, b),
    ensures
        a == b,
{
    let j = choose|k: nat|
        match #[trigger] gathered(db, but, from, k) {
            Ok(g) => g.stack.len() == 0 && a == Ok::<Seq<ObjectSha>, GraphError>(g.out),
            Err(e) => a == Err::<Seq<ObjectSha>, GraphError>(e),
        };
    let k = choose|k: nat|
        match #[trigger] gathered(db, but, from, k) {
            Ok(g) => g.stack.len() == 0 && b == Ok::<Seq<ObjectSha>, GraphError>(g.out),
            Err(e) => b == Err::<Seq<ObjectSha>, GraphError>(e),
        };
    if j <= k {
        lemma_gathered_stays(db, but, from, j, k);
    } else {
        lemma_gathered_stays(db, but, from, k, j);
    }
}

/// What always holds of a gathering: every object in it can be reached, nothing is gathered twice,
/// and what a gathered object refers to is accounted for.
spec fn sound_gathering(
    db: Map<ObjectSha, Seq<u8>>,
    but: Seq<ObjectSha>,
    from: ObjectSha,
    g: Gathering,
) -> bool {
    &&& g.out.no_duplicates()
    &&& forall|i: int| 0 <= i < g.out.len() ==> object_in(db, #[trigger] g.out[i]) is Ok
    &&& forall|o: ObjectSha| #[trigger] g.out.contains(o) ==> reaches(db, but, from, o)
    &&& forall|o: ObjectSha, x: Option<ObjectSha>|
        g.out.contains(o) && #[trigger] links_of(db, o).contains(x) ==> g.stack.contains(x)
            || settled(but, g.out, x)
    &&& forall|i: int|
        0 <= i < g.stack.len() ==> match #[trigger] g.stack[i] {
            Some(o) => here(db, o) && !but.contains(o) ==> reaches(db, but, from, o),
            None => true,
        }
    &&& g.stack.contains(Some(from)) || settled(but, g.out, Some(from))
}

/// Whether an id needs no further look.
spec fn settled(but: Seq<ObjectSha>, out: Seq<ObjectSha>, x: Option<ObjectSha>) -> bool {
    x matches Some(o) && (is_zero(o) || but.contains(o) || out.contains(o))
}

proof fn lemma_gather_step(
    db: Map<ObjectSha, Seq<u8>>,
    but: Seq<ObjectSha>,
    from: ObjectSha,
    g: Gathering,
)
    requires
        sound_gathering(db, but, from, g),
        g.stack.len() > 0,
    ensures
        gather_step(db, but, g) matches Ok(h) ==> sound_gathering(db, but, from, h),
{
    if let Ok(h) = gather_step(db, but, g) {
        let rest = g.stack.drop_last();
        let oid = g.stack.last()->Some_0;
        assert(g.stack[g.stack.len() - 1] == Some(oid));
        assert forall|x: Option<ObjectSha>| g.stack.contains(x) && x != Some(oid) implies #[trigger] rest.contains(
            x,
        ) by {
            let i = choose|i: int| 0 <= i < g.stack.len() && g.stack[i] == x;
            assert(rest[i] == x);
        }
        assert forall|i: int| 0 <= i < rest.len() implies match #[trigger] rest[i] {
            Some(o) => here(db, o) && !but.contains(o) ==> reaches(db, but, from, o),
            None => true,
        } by {
            assert(rest[i] == g.stack[i]);
        }
        if is_zero(oid) || but.contains(oid) || g.out.contains(oid) {
            assert(settled(but, g.out, Some(oid)));
        } else {
            let kids = links_of(db, oid);
            assert(h.stack == rest + kids);
            assert(reaches(db, but, from, oid));
            assert(h.out[g.out.len() as int] == oid);
            assert forall|o: ObjectSha| #[trigger] h.out.contains(o) <==> g.out.contains(o) || o
                == oid by {
                if g.out.contains(o) {
                    let i = choose|i: int| 0 <= i < g.out.len() && g.out[i] == o;
                    assert(h.out[i] == o);
                }
                if h.out.contains(o) && o != oid {
                    let i = choose|i: int| 0 <= i < h.out.len() && h.out[i] == o;
                    assert(g.out[i] == o);
                }
            }
            assert forall|x: Option<ObjectSha>| rest.contains(x) || kids.contains(x) implies #[trigger] h.stack.contains(
                x,
            ) by {
                if rest.contains(x) {
                    let i = choose|i: int| 0 <= i < rest.len() && rest[i] == x;
                    assert(h.stack[i] == x);
                } else {
                    let i = choose|i: int| 0 <= i < kids.len() && kids[i] == x;
                    assert(h.stack[rest.len() + i] == x);
                }
            }
            assert forall|o: ObjectSha, x: Option<ObjectSha>|
                h.out.contains(o) && #[trigger] links_of(db, o).contains(x) implies h.stack.contains(
                x,
            ) || settled(but, h.out, x) by {
                if o == oid {
                    assert(h.stack.contains(x));
                } else {
                    assert(g.out.contains(o));
                    if g.stack.contains(x) {
                        if x != Some(oid) {
                            assert(rest.contains(x));
                        }
                    }
                }
            }
            assert forall|i: int| 0 <= i < h.stack.len() implies match #[trigger] h.stack[i] {
                Some(o) => here(db, o) && !but.contains(o) ==> reaches(db, but, from, o),
                None => true,
            } by {
                if i < rest.len() {
                    assert(h.stack[i] == rest[i]);
                } else {
                    let x = kids[i - rest.len()];
                    assert(h.stack[i] == x);
                    if let Some(o) = x {
                        assert(kids.contains(Some(o)));
                        if here(db, o) && !but.contains(o) {
                            lemma_reach_step(db, but, from, oid, o);
                        }
                    }
                }
            }
            assert forall|i: int| 0 <= i < h.out.len() implies object_in(
                db,
                #[trigger] h.out[i],
            ) is Ok by {
                if i < g.out.len() {
                    assert(h.out[i] == g.out[i]);
                }
            }
        }
    }
}

proof fn lemma_gathered_sound(
    db: Map<ObjectSha, Seq<u8>>,
    but: Seq<ObjectSha>,
    from: ObjectSha,
    k: nat,
)
    ensures
        gathered(db, but, from, k) matches Ok(g) ==> sound_gathering(db, but, from, g),
    decreases k,
{
    if k == 0 {
        let g = Gathering { stack: seq![Some(from)], out: Seq::empty() };
        assert(g.stack[0] == Some(from));
        if here(db, from) && !but.contains(from) {
            assert(is_chain(db, but, seq![from], from, from));
        }
        assert forall|i: int| 0 <= i < g.stack.len() implies match #[trigger] g.stack[i] {
            Some(o) => here(db, o) && !but.contains(o) ==> reaches(db, but, from, o),
            None => true,
        } by {}
    } else {
        lemma_gathered_sound(db, but, from, (k - 1) as nat);
        if let Ok(g) = gathered(db, but, from, (k - 1) as nat) {
            if g.stack.len() > 0 {
                lemma_gather_step(db, but, from, g);
            }
        }
    }
}

proof fn lemma_chain_gathered(
    db: Map<ObjectSha, Seq<u8>>,
    but: Seq<ObjectSha>,
    from: ObjectSha,
    g: Gathering,
    p: Seq<ObjectSha>,
    i: int,
)
    requires
        sound_gathering(db, but, from, g),
        g.stack.len() == 0,
        p.len() > 0,
        is_chain(db, but, p, from, p.last()),
        0 <= i < p.len(),
    ensures
        g.out.contains(p[i]),
    decreases i,
{
    assert(here(db, p[i]) && !but.contains(p[i]));
    if i == 0 {
        assert(settled(but, g.out, Some(from)));
    } else {
        lemma_chain_gathered(db, but, from, g, p, i - 1);
        assert(links_of(db, p[i - 1]).contains(Some(p[i - 1 + 1])));
        assert(settled(but, g.out, Some(p[i])));
    }
}

/// What is gathered from an object is just what can be reached from it without going through the
/// objects to leave out, each once.
pub proof fn law_gathers_reachable(
    db: Map<ObjectSha, Seq<u8>>,
    but: Seq<ObjectSha>,
    from: ObjectSha,
    out: Seq<ObjectSha>,
)
    requires
        gathers(db, but, from, Ok(out)),
    ensures
        out.no_duplicates(),
        forall|o: ObjectSha| #[trigger] out.contains(o) <==> reaches(db, but, from, o),
{
    let k = choose|k: nat|
        match #[trigger] gathered(db, but, from, k) {
            Ok(g) => g.stack.len() == 0 && Ok::<Seq<ObjectSha>, GraphError>(out) == Ok::<
                Seq<ObjectSha>,
                GraphError,
            >(g.out),
            Err(e) => Ok::<Seq<ObjectSha>, GraphError>(out) == Err::<
                Seq<ObjectSha>,
                GraphError,
            >(e),
        };
    lemma_gathered_sound(db, but, from, k);
    let g = gathered(db, but, from, k)->Ok_0;
    assert forall|o: ObjectSha| #[trigger] out.contains(o) <==> reaches(db, but, from, o) by {
        if reaches(db, but, from, o) {
            let p = choose|p: Seq<ObjectSha>| is_chain(db, but, p, from, o);
            lemma_chain_gathered(db, but, from, g, p, p.len() - 1);
        }
    }
}

/// Whoever has the objects to leave out, with all that they refer to, and gets what is gathered, has
/// all objects that can be reached.
pub proof fn law_gathered_completes(
    db: Map<ObjectSha, Seq<u8>>,
    but: Seq<ObjectSha>,
    from: ObjectSha,
    out: Seq<ObjectSha>,
    o: ObjectSha,
)
    requires
        gathers(db, but, from, Ok(out)),
        closed_list(db, but),
        reaches(db, Seq::empty(), from, o),
    ensures
        out.contains(o) || but.contains(o),
{
    law_gathers_reachable(db, but, from, out);
    let p = choose|p: Seq<ObjectSha>| is_chain(db, Seq::empty(), p, from, o);
    lemma_chain_split(db, but, from, p, p.len() - 1);
}

proof fn lemma_chain_split(
    db: Map<ObjectSha, Seq<u8>>,
    but: Seq<ObjectSha>,
    from: ObjectSha,
    p: Seq<ObjectSha>,
    i: int,
)
    requires
        closed_list(db, but),
        p.len() > 0,
        is_chain(db, Seq::empty(), p, from, p.last()),
        0 <= i < p.len(),
    ensures
        but.contains(p[i]) || reaches(db, but, from, p[i]),
    decreases i,
{
    assert(here(db, p[i]));
    if i == 0 {
        if !but.contains(from) {
            assert(is_chain(db, but, seq![from], from, from));
        }
    } else {
        lemma_chain_split(db, but, from, p, i - 1);
        assert(links_of(db, p[i - 1]).contains(Some(p[i - 1 + 1])));
        if !but.contains(p[i - 1]) && !but.contains(p[i]) {
            lemma_reach_step(db, but, from, p[i - 1], p[i]);
        }
    }
}

/// The kinds and contents of objects of the store.
pub open spec fn objects_in(db: Map<ObjectSha, Seq<u8>>, s: Seq<ObjectSha>) -> Seq<(Kind, Seq<u8>)> {
    Seq::new(s.len(), |i: int| object_in(db, s[i])->Ok_0)
}

/// Gathers what has to be sent for an object to someone who has the objects `present`: the kinds
/// and contents.
pub fn collect_to_send(db: &ObjectDb, new: &ObjectSha, present: &OidList) -> (r: Result<
    Vec<(Kind, Vec<u8>)>,
    GraphError,
>)
    ensures
        (match r {
            Ok(v) => exists|out: Seq<ObjectSha>| #[trigger]
                gathers(db@, present@, *new, Ok(out)) && contents(v@) == objects_in(db@, out),
            Err(e) => gathers(db@, present@, *new, Err(e)),
        }),
{
    let mut queued = OidList::new();
    let mut out: Vec<(Kind, Vec<u8>)> = Vec::new();
    let mut stack: Vec<Option<ObjectSha>> = Vec::new();
    stack.push(Some(*new));
    let ghost mut k: nat = 0;
    assert(stack@ =~= seq![Some(*new)]);
    assert(contents(out@) =~= objects_in(db@, queued@));
    while stack.len() > 0
        invariant
            gathered(db@, present@, *new, k) == Ok::<Gathering, GraphError>(
                Gathering { stack: stack@, out: queued@ },
            ),
            contents(out@) == objects_in(db@, queued@),
            queued@.len() <= db.count(),
        decreases db.count() - queued@.len(), stack@.len(),
    {
        let ghost g = Gathering { stack: stack@, out: queued@ };
        let id = match stack.pop() {
            Some(x) => x,
            None => None,
        };
        proof {
            assert(stack@ =~= g.stack.drop_last());
            assert(id == g.stack.last());
            k = k + 1;
            assert(gathered(db@, present@, *new, k) == gather_step(db@, present@, g));
        }
        let oid = match id {
            Some(o) => o,
            None => return Err(GraphError::BadId),
        };
        if oid_is_zero(&oid) || present.contains(&oid) || queued.contains(&oid) {
            continue ;
        }
        let raw = match db.get(&oid) {
            Some(raw) => raw,
            None => return Err(GraphError::Missing(oid)),
        };
        match read_loose_base(raw.as_slice()) {
            Err(e) => return Err(GraphError::Unreadable(e)),
            Ok((kind, payload)) => {
                push_children(kind, payload.as_slice(), &mut stack);
                let ghost was = contents(out@);
                let ghost bytes = payload@;
                queued.add(oid);
                out.push((kind, payload));
                proof {
                    assert(contents(out@) =~= was.push((kind, bytes)));
                    assert(contents(out@) =~= objects_in(db@, queued@));
                    lemma_gathered_sound(db@, present@, *new, k);
                    let h = Gathering { stack: stack@, out: queued@ };
                    assert(sound_gathering(db@, present@, *new, h));
                    assert forall|i: int| 0 <= i < queued@.len() implies db@.contains_key(
                        #[trigger] queued@[i],
                    ) by {
                        assert(object_in(db@, h.out[i]) is Ok);
                    }
                    lemma_count(db, queued@);
                }
            },
        }
    }
    proof {
        assert(gathers(db@, present@, *new, Ok(queued@)));
    }
    Ok(out)
}

} // verus!
