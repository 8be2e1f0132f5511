//! What objects refer to: of a commit its tree and all its parents, of a tree all its entries.
use crate::bytes::{find_from, lemma_find_from_is, starts_with};
use crate::clone_plan::{
    content_of, items_of_entries, items_of_tree, packed_tree, raw_entries, CloneError, ItemModel,
    RawEntryModel,
};
use crate::commit_object::{header_lines, identity_text, CommitModel};
use crate::numbers::{hex_of, parse_octal};
use crate::object::{lemma_oid, lemma_oid_hex_round_trip, oid_of, ObjectSha};
use crate::object_graph::{children_of, entry_mode, linked_ids, links_in, tree_links, written_ids};
use crate::parse_packfile::{Kind, PackedModel};
use crate::picking::{lemma_picked_none, lemma_picked_push, picked};
use crate::reference::stored_id;
use crate::text::{before_blank, is_space, lemma_trim_solid, lines, lossy_text, text_of, trim};
use crate::walks::{leads, lemma_way};
use vstd::prelude::*;

verus! {

/// A row of a tree: a mode, a name and an id.
#[verifier::ext_equal]
pub struct TreeRow {
    pub mode: Seq<u8>,
    pub name: Seq<u8>,
    pub id: Seq<u8>,
}

/// Whether a row can be told apart from what is around it.
pub open spec fn is_row(r: TreeRow) -> bool {
    !r.mode.contains(0x20) && !r.name.contains(0) && r.id.len() == 20
}

/// How a row stands in a tree: the mode, a space, the name, a NUL, and the id.
pub open spec fn row_bytes(r: TreeRow) -> Seq<u8> {
    r.mode + seq![0x20u8] + r.name + seq![0u8] + r.id
}

/// How rows stand in a tree.
pub open spec fn rows_bytes(rows: Seq<TreeRow>) -> Seq<u8>
    decreases rows.len(),
{
    if rows.len() == 0 {
        Seq::empty()
    } else {
        row_bytes(rows[0]) + rows_bytes(rows.drop_first())
    }
}

proof fn lemma_row(front: Seq<u8>, r: TreeRow, rest: Seq<u8>)
    requires
        is_row(r),
    ensures
        ({
            let s = front + row_bytes(r) + rest;
            let pos = front.len() as int;
            let sp = pos + r.mode.len();
            let nul = sp + 1 + r.name.len();
            &&& find_from(s, 0x20, pos) == sp
            &&& find_from(s, 0, sp + 1) == nul
            &&& nul + 21 == pos + row_bytes(r).len() <= s.len()
            &&& pos < s.len()
            &&& s.subrange(pos, sp) == r.mode
            &&& s.subrange(sp + 1, nul) == r.name
            &&& s.subrange(nul + 1, nul + 21) == r.id
        }),
{
    let s = front + row_bytes(r) + rest;
    let pos = front.len() as int;
    let sp = pos + r.mode.len();
    let nul = sp + 1 + r.name.len();
    assert forall|i: int| pos <= i < sp implies s[i] != 0x20 by {
        assert(s[i] == r.mode[i - pos]);
        assert(r.mode.contains(r.mode[i - pos]));
    }
    assert(s[sp] == 0x20);
    lemma_find_from_is(s, 0x20u8, pos, sp);
    assert forall|i: int| sp + 1 <= i < nul implies s[i] != 0 by {
        assert(s[i] == r.name[i - sp - 1]);
        assert(r.name.contains(r.name[i - sp - 1]));
    }
    assert(s[nul] == 0);
    lemma_find_from_is(s, 0u8, sp + 1, nul);
    assert(s.subrange(pos, sp) =~= r.mode);
    assert(s.subrange(sp + 1, nul) =~= r.name);
    assert(s.subrange(nul + 1, nul + 21) =~= r.id);
}

proof fn lemma_links_rows(front: Seq<u8>, rows: Seq<TreeRow>)
    requires
        forall|i: int| 0 <= i < rows.len() ==> is_row(#[trigger] rows[i]),
    ensures
        tree_links(front + rows_bytes(rows), front.len() as int) == Seq::new(
            rows.len(),
            |i: int| (entry_mode(rows[i].mode), oid_of(rows[i].id)),
        ),
    decreases rows.len(),
{
    let s = front + rows_bytes(rows);
    let all = Seq::new(rows.len(), |i: int| (entry_mode(rows[i].mode), oid_of(rows[i].id)));
    if rows.len() == 0 {
        assert(all =~= Seq::empty());
    } else {
        let r = rows[0];
        let t = rows.drop_first();
        assert forall|i: int| 0 <= i < t.len() implies is_row(#[trigger] t[i]) by {
            assert(t[i] == rows[i + 1]);
        }
        lemma_row(front, r, rows_bytes(t));
        assert(s =~= front + row_bytes(r) + rows_bytes(t));
        let next = front + row_bytes(r);
        lemma_links_rows(next, t);
        assert(s =~= next + rows_bytes(t));
        assert(all =~= seq![all[0]] + Seq::new(
            t.len(),
            |i: int| (entry_mode(t[i].mode), oid_of(t[i].id)),
        ));
    }
}

/// A tree refers to the object of each of its rows, in order.
pub proof fn law_tree_links(rows: Seq<TreeRow>)
    requires
        forall|i: int| 0 <= i < rows.len() ==> is_row(#[trigger] rows[i]),
    ensures
        tree_links(rows_bytes(rows), 0) == Seq::new(
            rows.len(),
            |i: int| (entry_mode(rows[i].mode), oid_of(rows[i].id)),
        ),
{
    lemma_links_rows(Seq::empty(), rows);
    assert(Seq::<u8>::empty() + rows_bytes(rows) =~= rows_bytes(rows));
}

/// What is followed from a tree are the objects of all its entries but those of submodules, whose
/// mode is 160000 in octal.
pub proof fn law_linked_ids(s: Seq<(nat, ObjectSha)>)
    ensures
        picked(
            linked_ids(s),
            Seq::new(
                s.len(),
                |i: int|
                    if s[i].0 == 0o160000 {
                        None
                    } else {
                        Some(Some(s[i].1))
                    },
            ),
        ),
    decreases s.len(),
{
    let wanted = Seq::new(
        s.len(),
        |i: int|
            if s[i].0 == 0o160000 {
                None
            } else {
                Some(Some(s[i].1))
            },
    );
    if s.len() == 0 {
        lemma_picked_none::<Option<ObjectSha>>();
        assert(wanted =~= Seq::empty());
    } else {
        let t = s.drop_last();
        law_linked_ids(t);
        let before = Seq::new(
            t.len(),
            |i: int|
                if t[i].0 == 0o160000 {
                    None
                } else {
                    Some(Some(t[i].1))
                },
        );
        lemma_picked_push(linked_ids(t), before, wanted.last());
        assert(wanted =~= before.push(wanted.last()));
    }
}

spec fn plain_line(s: Seq<char>) -> bool {
    !starts_with(s, "tree "@) && !starts_with(s, "parent "@)
}

proof fn lemma_links_plain(a: Seq<Seq<char>>, b: Seq<Seq<char>>)
    requires
        forall|i: int| 0 <= i < b.len() ==> plain_line(#[trigger] b[i]),
    ensures
        links_in(a + b) == links_in(a),
    decreases b.len(),
{
    if b.len() == 0 {
        assert(a + b =~= a);
    } else {
        let t = b.drop_last();
        assert forall|i: int| 0 <= i < t.len() implies plain_line(#[trigger] t[i]) by {
            assert(t[i] == b[i]);
        }
        lemma_links_plain(a, t);
        assert((a + b).drop_last() =~= a + t);
        assert(plain_line(b[b.len() - 1]));
    }
}

proof fn lemma_hex_solid(oid: ObjectSha)
    ensures
        trim(hex_of(oid@)) == hex_of(oid@),
        oid is SHA1 ==> stored_id(hex_of(oid@)) == Some(oid),
{
    let h = hex_of(oid@);
    lemma_oid_hex_round_trip(oid);
    lemma_oid(oid);
    assert forall|i: int| 0 <= i < h.len() implies !is_space(h[i]) by {}
    lemma_trim_solid(h);
}

proof fn lemma_links_parents(a: Seq<Seq<char>>, ps: Seq<ObjectSha>)
    ensures
        ({
            let ls = ps.map_values(|p: ObjectSha| "parent "@ + hex_of(p@));
            &&& links_in(a + ls).tree == links_in(a).tree
            &&& links_in(a + ls).parents == links_in(a).parents + ps.map_values(
                |p: ObjectSha| hex_of(p@),
            )
        }),
    decreases ps.len(),
{
    let ls = ps.map_values(|p: ObjectSha| "parent "@ + hex_of(p@));
    let hs = ps.map_values(|p: ObjectSha| hex_of(p@));
    if ps.len() == 0 {
        assert(a + ls =~= a);
        assert(links_in(a).parents + hs =~= links_in(a).parents);
    } else {
        let t = ps.drop_last();
        lemma_links_parents(a, t);
        let lt = t.map_values(|p: ObjectSha| "parent "@ + hex_of(p@));
        assert((a + ls).drop_last() =~= a + lt);
        let h = hex_of(ps.last()@);
        let line = "parent "@ + h;
        assert((a + ls).last() == line);
        reveal_strlit("parent ");
        reveal_strlit("tree ");
        assert(line.subrange(0, 7) =~= "parent "@);
        assert(line.subrange(7, line.len() as int) =~= h);
        assert(!starts_with(line, "tree "@)) by {
            assert(line.subrange(0, 5)[0] == 'p');
        }
        lemma_hex_solid(ps.last());
        assert(links_in(a).parents + hs =~= (links_in(a).parents + t.map_values(
            |p: ObjectSha| hex_of(p@),
        )).push(h));
    }
}

/// A commit refers to its tree and to every one of its parents, in order.
pub proof fn law_commit_links(payload: Seq<u8>, c: CommitModel)
    requires
        ({
            let ls = lines(lossy_text(payload));
            ls.subrange(0, before_blank(ls)) == header_lines(c)
        }),
        c.tree is SHA1,
        forall|i: int| 0 <= i < c.parents.len() ==> (#[trigger] c.parents[i]) is SHA1,
        forall|i: int|
            0 <= i < c.trailing_headers.len() ==> !starts_with(
                #[trigger] c.trailing_headers[i],
                "tree "@,
            ) && !starts_with(c.trailing_headers[i], "parent "@),
    ensures
        children_of(Kind::Commit, payload) == seq![Some(c.tree)] + c.parents.map_values(
            |p: ObjectSha| Some(p),
        ),
{
    let first = seq!["tree "@ + hex_of(c.tree@)];
    let parents = c.parents.map_values(|p: ObjectSha| "parent "@ + hex_of(p@));
    let tail = seq![
        "author "@ + identity_text(c.author),
        "committer "@ + identity_text(c.committer),
    ] + c.trailing_headers;
    assert(header_lines(c) =~= first + parents + tail);
    reveal_strlit("tree ");
    reveal_strlit("parent ");
    reveal_strlit("author ");
    reveal_strlit("committer ");
    let h = hex_of(c.tree@);
    let line = "tree "@ + h;
    assert(line.subrange(0, 5) =~= "tree "@);
    assert(line.subrange(5, line.len() as int) =~= h);
    lemma_hex_solid(c.tree);
    assert(first.drop_last() =~= Seq::empty());
    assert(first.last() == line);
    let none = Seq::<Seq<char>>::empty();
    assert(links_in(none).parents.len() == 0);
    assert(links_in(first).tree == Some(h) && links_in(first).parents =~= Seq::empty());
    lemma_links_parents(first, c.parents);
    assert forall|i: int| 0 <= i < tail.len() implies plain_line(#[trigger] tail[i]) by {
        if i < 2 {
            let l = tail[i];
            assert(l[0] == 'a' || l[0] == 'c');
            if l.len() >= 5 {
                assert(l.subrange(0, 5)[0] == l[0]);
            }
            if l.len() >= 7 {
                assert(l.subrange(0, 7)[0] == l[0]);
            }
        } else {
            assert(tail[i] == c.trailing_headers[i - 2]);
        }
    }
    lemma_links_plain(first + parents, tail);
    let hs = c.parents.map_values(|p: ObjectSha| hex_of(p@));
    assert(links_in(header_lines(c)).parents =~= hs);
    assert(written_ids(hs) =~= c.parents.map_values(|p: ObjectSha| Some(p))) by {
        assert forall|i: int| 0 <= i < hs.len() implies stored_id(hs[i]) == Some(c.parents[i]) by {
            assert(c.parents[i] is SHA1);
            lemma_hex_solid(c.parents[i]);
        }
    }
}

spec fn raw_row(r: TreeRow) -> RawEntryModel {
    RawEntryModel {
        mode: parse_octal(text_of(r.mode)->Some_0)->Some_0 as u32,
        name: lossy_text(r.name),
        sha: r.id,
    }
}

proof fn lemma_raw_rows(front: Seq<u8>, rows: Seq<TreeRow>)
    requires
        forall|i: int|
            0 <= i < rows.len() ==> is_row(#[trigger] rows[i]) && text_of(rows[i].mode) is Some
                && parse_octal(text_of(rows[i].mode)->Some_0) is Some,
    ensures
        raw_entries(front + rows_bytes(rows), front.len() as int) == Ok::<
            Seq<RawEntryModel>,
            CloneError,
        >(Seq::new(rows.len(), |i: int| raw_row(rows[i]))),
    decreases rows.len(),
{
    let s = front + rows_bytes(rows);
    let all = Seq::new(rows.len(), |i: int| raw_row(rows[i]));
    if rows.len() == 0 {
        assert(all =~= Seq::empty());
    } else {
        let r = rows[0];
        let t = rows.drop_first();
        assert forall|i: int| 0 <= i < t.len() implies is_row(#[trigger] t[i]) && text_of(
            t[i].mode,
        ) is Some && parse_octal(text_of(t[i].mode)->Some_0) is Some by {
            assert(t[i] == rows[i + 1]);
        }
        lemma_row(front, r, rows_bytes(t));
        assert(s =~= front + row_bytes(r) + rows_bytes(t));
        let next = front + row_bytes(r);
        lemma_raw_rows(next, t);
        assert(s =~= next + rows_bytes(t));
        assert(all =~= seq![raw_row(r)] + Seq::new(t.len(), |i: int| raw_row(t[i])));
    }
}

/// A clone reads each row of a tree, in order: its mode, its name and its id.
pub proof fn law_raw_entries(rows: Seq<TreeRow>)
    requires
        forall|i: int|
            0 <= i < rows.len() ==> is_row(#[trigger] rows[i]) && text_of(rows[i].mode) is Some
                && parse_octal(text_of(rows[i].mode)->Some_0) is Some,
    ensures
        raw_entries(rows_bytes(rows), 0) matches Ok(es) && es.len() == rows.len() && forall|i: int|
            0 <= i < es.len() ==> (#[trigger] es[i]).sha == rows[i].id && es[i].name == lossy_text(
                rows[i].name,
            ) && Some(es[i].mode as nat) == parse_octal(text_of(rows[i].mode)->Some_0),
{
    lemma_raw_rows(Seq::empty(), rows);
    assert(Seq::<u8>::empty() + rows_bytes(rows) =~= rows_bytes(rows));
}

/// What is found in the trees of a pack along a way: at each step, which entry is taken.
pub open spec fn packed_at(
    objs: Seq<PackedModel>,
    entries: Seq<RawEntryModel>,
    way: Seq<int>,
) -> Option<RawEntryModel>
    decreases way.len(),
{
    if way.len() == 0 || !(0 <= way[0] < entries.len()) {
        None
    } else if way.len() == 1 {
        Some(entries[way[0]])
    } else if entries[way[0]].mode == 0o40000 {
        match packed_tree(objs, entries[way[0]].sha) {
            Some(inner) => packed_at(objs, inner, way.drop_first()),
            None => None,
        }
    } else {
        None
    }
}

/// The names along a way.
pub open spec fn packed_names(
    objs: Seq<PackedModel>,
    entries: Seq<RawEntryModel>,
    way: Seq<int>,
) -> Seq<Seq<char>>
    decreases way.len(),
{
    if way.len() == 0 {
        Seq::empty()
    } else {
        seq![entries[way[0]].name] + packed_names(
            objs,
            packed_tree(objs, entries[way[0]].sha)->Some_0,
            way.drop_first(),
        )
    }
}

/// Whether an item is what an entry is: a directory, a link with its target, or a file with its
/// content, executable where one of the bits 111 in octal is set.
pub open spec fn makes(
    objs: Seq<PackedModel>,
    e: RawEntryModel,
    at: Seq<Seq<char>>,
    item: ItemModel,
) -> bool {
    match item {
        ItemModel::Dir(path) => path == at && e.mode == 0o40000,
        ItemModel::Link(path, target) => path == at && e.mode == 0o120000 && content_of(objs, e.sha)
            == Some(target),
        ItemModel::File(path, content, exec) => {
            &&& path == at
            &&& e.mode != 0o40000 && e.mode != 0o120000 && e.mode != 0o160000
            &&& content_of(objs, e.sha) == Some(content)
            &&& exec == (e.mode & 0o111 != 0)
        },
    }
}

spec fn items_right(objs: Seq<PackedModel>, entries: Seq<RawEntryModel>, path: Seq<Seq<char>>, from: int) -> spec_fn(
    Seq<int>,
    ItemModel,
) -> bool {
    |way: Seq<int>, item: ItemModel|
        way.len() > 0 && from <= way[0] && packed_at(objs, entries, way) is Some && makes(
            objs,
            packed_at(objs, entries, way)->Some_0,
            path + packed_names(objs, entries, way),
            item,
        )
}

spec fn items_must(objs: Seq<PackedModel>, entries: Seq<RawEntryModel>, from: int) -> spec_fn(
    Seq<int>,
) -> bool {
    |way: Seq<int>|
        way.len() > 0 && from <= way[0] && packed_at(objs, entries, way) is Some && packed_at(
            objs,
            entries,
            way,
        )->Some_0.mode != 0o160000
}

proof fn lemma_packed_step(
    objs: Seq<PackedModel>,
    entries: Seq<RawEntryModel>,
    inner: Seq<RawEntryModel>,
    from: int,
    l: Seq<int>,
)
    requires
        0 <= from < entries.len(),
        entries[from].mode == 0o40000,
        packed_tree(objs, entries[from].sha) == Some(inner),
        l.len() > 0,
    ensures
        packed_at(objs, entries, seq![from] + l) == packed_at(objs, inner, l),
        packed_names(objs, entries, seq![from] + l) == seq![entries[from].name] + packed_names(
            objs,
            inner,
            l,
        ),
{
    lemma_way(from, l);
}

proof fn lemma_items(
    objs: Seq<PackedModel>,
    entries: Seq<RawEntryModel>,
    from: int,
    path: Seq<Seq<char>>,
    depth: nat,
) -> (at: Seq<Seq<int>>)
    requires
        0 <= from <= entries.len(),
        items_of_entries(objs, entries.subrange(from, entries.len() as int), path, depth) is Ok,
    ensures
        leads(
            at,
            items_of_entries(
                objs,
                entries.subrange(from, entries.len() as int),
                path,
                depth,
            )->Ok_0,
            items_right(objs, entries, path, from),
            items_must(objs, entries, from),
        ),
    decreases depth, entries.len() - from,
{
    let left = entries.subrange(from, entries.len() as int);
    let all = items_of_entries(objs, left, path, depth)->Ok_0;
    let right = items_right(objs, entries, path, from);
    let must = items_must(objs, entries, from);
    if from == entries.len() {
        Seq::empty()
    } else {
        let e = left[0];
        let rest = entries.subrange(from + 1, entries.len() as int);
        assert(left.drop_first() =~= rest);
        let after = lemma_items(objs, entries, from + 1, path, depth);
        let behind = items_of_entries(objs, rest, path, depth)->Ok_0;
        let place = path.push(e.name);
        let here = seq![from];
        assert(here.drop_first() =~= Seq::empty());
        assert(packed_names(objs, entries, here) =~= seq![e.name]) by {
            let inner = packed_tree(objs, entries[from].sha)->Some_0;
            assert(packed_names(objs, inner, here.drop_first()) =~= Seq::empty());
        }
        assert(path + packed_names(objs, entries, here) =~= place);
        assert(packed_at(objs, entries, here) == Some(e));
        let (ways, front): (Seq<Seq<int>>, Seq<ItemModel>) = if e.mode == 0o40000 {
            let inner = packed_tree(objs, e.sha)->Some_0;
            let less = (depth - 1) as nat;
            let whole = items_of_tree(objs, e.sha, place, less);
            assert(whole is Ok);
            assert(packed_tree(objs, e.sha) is Some);
            assert(whole == items_of_entries(objs, inner, place, less));
            assert(inner.subrange(0, inner.len() as int) =~= inner);
            let deep = lemma_items(objs, inner, 0, place, less);
            let made = items_of_entries(objs, inner, place, less)->Ok_0;
            let ways = seq![here] + Seq::new(deep.len(), |i: int| seq![from] + deep[i]);
            let front = seq![ItemModel::Dir(place)] + made;
            assert forall|i: int| 1 <= i < ways.len() implies #[trigger] ways[i] == seq![from]
                + deep[i - 1] && ways[i][0] == from && ways[i].drop_first() == deep[i - 1]
                && ways[i].len() > 1 by {
                lemma_way(from, deep[i - 1]);
                assert(items_right(objs, inner, place, 0)(deep[i - 1], made[i - 1]));
            }
            assert forall|i: int| 0 <= i < ways.len() implies right(#[trigger] ways[i], front[i]) by {
                if i > 0 {
                    let l = deep[i - 1];
                    assert(items_right(objs, inner, place, 0)(l, made[i - 1]));
                    lemma_packed_step(objs, entries, inner, from, l);
                    assert(ways[i] == seq![from] + l);
                    lemma_way(from, l);
                    assert(path + packed_names(objs, entries, ways[i]) =~= place + packed_names(
                        objs,
                        inner,
                        l,
                    ));
                }
            }
            assert(ways.no_duplicates()) by {
                assert forall|i: int, j: int|
                    0 <= i < ways.len() && 0 <= j < ways.len() && i != j implies ways[i]
                    != ways[j] by {
                    if i > 0 && j > 0 {
                        assert(ways[i].drop_first() == deep[i - 1] && ways[j].drop_first()
                            == deep[j - 1]);
                    } else if i > 0 {
                        assert(ways[i].len() > 1);
                    } else {
                        assert(ways[j].len() > 1);
                    }
                }
            }
            assert forall|l: Seq<int>| #[trigger] must(l) && l[0] == from implies ways.contains(l) by {
                if l.len() == 1 {
                    assert(l =~= here);
                    assert(ways[0] == l);
                } else {
                    let r = l.drop_first();
                    assert(l =~= seq![from] + r);
                    lemma_packed_step(objs, entries, inner, from, r);
                    assert(r.len() > 0 && 0 <= r[0]);
                    assert(items_must(objs, inner, 0)(r));
                    let k = choose|k: int| 0 <= k < deep.len() && deep[k] == r;
                    assert(ways[k + 1] == l);
                }
            }
            (ways, front)
        } else if e.mode == 0o160000 {
            assert forall|l: Seq<int>| #[trigger] must(l) && l[0] == from implies false by {
                if l.len() == 1 {
                    assert(l =~= here);
                }
            }
            (Seq::empty(), Seq::empty())
        } else {
            let d = content_of(objs, e.sha)->Some_0;
            let item = if e.mode == 0o120000 {
                ItemModel::Link(place, d)
            } else {
                ItemModel::File(place, d, e.mode & 0x49 != 0)
            };
            let ways = seq![here];
            assert forall|l: Seq<int>| #[trigger] must(l) && l[0] == from implies ways.contains(l) by {
                if l.len() == 1 {
                    assert(l =~= here);
                    assert(ways[0] == l);
                }
            }
            assert(right(here, item));
            (ways, seq![item])
        };
        assert(all =~= front + behind);
        let at = ways + after;
        let n = ways.len() as int;
        assert forall|i: int| 0 <= i < ways.len() implies (#[trigger] ways[i]).len() > 0
            && ways[i][0] == from by {
            assert(right(ways[i], front[i]));
        }
        assert forall|i: int| 0 <= i < after.len() implies (#[trigger] after[i]).len() > 0
            && after[i][0] > from && right(after[i], behind[i]) by {
            assert(items_right(objs, entries, path, from + 1)(after[i], behind[i]));
        }
        assert(at.no_duplicates()) by {
            assert forall|i: int, j: int|
                0 <= i < at.len() && 0 <= j < at.len() && i != j implies at[i] != at[j] by {
                if i < n && j < n {
                    assert(ways[i] != ways[j]);
                } else if i >= n && j >= n {
                    assert(after[i - n] != after[j - n]);
                } else if i < n {
                    assert(ways[i][0] != after[j - n][0]);
                } else {
                    assert(ways[j][0] != after[i - n][0]);
                }
            }
        }
        assert forall|i: int| 0 <= i < at.len() implies right(#[trigger] at[i], all[i]) by {
            if i < n {
                assert(at[i] == ways[i]);
            } else {
                assert(at[i] == after[i - n]);
            }
        }
        assert forall|l: Seq<int>| #[trigger] must(l) implies at.contains(l) by {
            if l[0] == from {
                let k = choose|k: int| 0 <= k < ways.len() && ways[k] == l;
                assert(at[k] == l);
            } else {
                assert(items_must(objs, entries, from + 1)(l));
                let k = choose|k: int| 0 <= k < after.len() && after[k] == l;
                assert(at[n + k] == l);
            }
        }
        at
    }
}

/// Whether the items are what the trees of a pack hold: `at` are the ways to what each is for, none
/// twice, and nothing is left out but submodules.
pub open spec fn makes_all(
    objs: Seq<PackedModel>,
    entries: Seq<RawEntryModel>,
    path: Seq<Seq<char>>,
    items: Seq<ItemModel>,
    at: Seq<Seq<int>>,
) -> bool {
    &&& at.len() == items.len()
    &&& at.no_duplicates()
    &&& forall|i: int|
        0 <= i < at.len() ==> packed_at(objs, entries, #[trigger] at[i]) is Some && makes(
            objs,
            packed_at(objs, entries, at[i])->Some_0,
            path + packed_names(objs, entries, at[i]),
            items[i],
        )
    &&& forall|way: Seq<int>|
        (#[trigger] packed_at(objs, entries, way)) is Some && packed_at(
            objs,
            entries,
            way,
        )->Some_0.mode != 0o160000 ==> at.contains(way)
}

/// A clone makes everything that a tree of the pack holds, directory by directory: each directory,
/// link and file once, and nothing else.
pub proof fn law_clone_makes_all(
    objs: Seq<PackedModel>,
    id: Seq<u8>,
    path: Seq<Seq<char>>,
    depth: nat,
)
    requires
        items_of_tree(objs, id, path, depth) is Ok,
    ensures
        packed_tree(objs, id) is Some,
        exists|at: Seq<Seq<int>>| #[trigger]
            makes_all(
                objs,
                packed_tree(objs, id)->Some_0,
                path,
                items_of_tree(objs, id, path, depth)->Ok_0,
                at,
            ),
{
    let entries = packed_tree(objs, id)->Some_0;
    let items = items_of_tree(objs, id, path, depth)->Ok_0;
    assert(entries.subrange(0, entries.len() as int) =~= entries);
    let at = lemma_items(objs, entries, 0, path, depth);
    assert forall|i: int| 0 <= i < at.len() implies packed_at(
        objs,
        entries,
        #[trigger] at[i],
    ) is Some && makes(
        objs,
        packed_at(objs, entries, at[i])->Some_0,
        path + packed_names(objs, entries, at[i]),
        items[i],
    ) by {
        assert(items_right(objs, entries, path, 0)(at[i], items[i]));
    }
    assert forall|way: Seq<int>|
        (#[trigger] packed_at(objs, entries, way)) is Some && packed_at(
            objs,
            entries,
            way,
        )->Some_0.mode != 0o160000 implies at.contains(way) by {
        assert(items_must(objs, entries, 0)(way));
    }
    assert(makes_all(objs, entries, path, items, at));
}

} // verus!
