//! What a merge does to each path, and that no change is lost in it.
use crate::byte_map::{ascending, has_key, lemma_lookup_at, lookup};
use crate::bytes::{lemma_lex_irreflexive, lex_lt};
use crate::diff_laws::{lemma_tree_ascends, path_below};
use crate::index::{index_form, IndexError};
use crate::merge::{
    actions_upto, all_names, conflict_action, conflicts_in, decided, entry_actions,
    law_names_complete, merged, side_of, side_tree, take_actions, tree_actions, trees_actions,
    write_action, ActionModel, MergeModel, Side,
};
use crate::object::{blob_in, framed, oid_of_raw, tree_in, FileMode, ObjectError, ObjectSha, TreeEntry};
use crate::outside::merged_text;
use crate::picking::{lemma_picked_none, lemma_picked_push, picked};
use crate::text::text_of;
use crate::unix_path::pushed;
use crate::walks::{leads, lemma_leads_here, lemma_leads_in, lemma_leads_on, lemma_way};
use vstd::prelude::*;
use vstd::utf8::encode_utf8;

verus! {

/// What a tree has under a name.
pub open spec fn side_at_name(t: Seq<(Seq<u8>, TreeEntry)>, name: Seq<u8>) -> Side {
    match lookup(t, name) {
        Some(e) => Some((e.file_mode, e.object_name)),
        None => None,
    }
}

/// What the tree that a side names has under a name.
pub open spec fn side_step(db: Map<ObjectSha, Seq<u8>>, s: Side, name: Seq<u8>) -> Side {
    match s {
        Some((_, oid)) => match tree_in(db, oid) {
            Ok(t) => side_at_name(t, name),
            Err(_) => None,
        },
        None => None,
    }
}

/// What is found from a side on along some names.
pub open spec fn side_below(db: Map<ObjectSha, Seq<u8>>, s: Side, names: Seq<Seq<u8>>) -> Side
    decreases names.len(),
{
    if names.len() == 0 {
        s
    } else {
        side_below(db, side_step(db, s, names[0]), names.drop_first())
    }
}

/// What is found in a tree along some names.
pub open spec fn side_in(
    db: Map<ObjectSha, Seq<u8>>,
    t: Seq<(Seq<u8>, TreeEntry)>,
    names: Seq<Seq<u8>>,
) -> Side {
    side_below(db, side_at_name(t, names[0]), names.drop_first())
}

/// Whether a side is a directory.
pub open spec fn dir_side(s: Side) -> bool {
    match s {
        Some((mode, _)) => mode == FileMode::Directory,
        None => false,
    }
}

/// Whether the three sides are all different.
pub open spec fn all_differ(b: Side, o: Side, t: Side) -> bool {
    b != o && o != t && t != b
}

/// The side that is right where two are the same: the one that changed, if any did.
pub open spec fn the_changed(b: Side, o: Side, t: Side) -> Side {
    if o == b {
        t
    } else {
        o
    }
}

/// The bytes of a side.
pub open spec fn bytes_of_side(db: Map<ObjectSha, Seq<u8>>, s: Side) -> Seq<u8> {
    match s {
        Some((_, oid)) => blob_in(db, oid)->Ok_0,
        None => Seq::empty(),
    }
}

/// Whether a side is nothing or a file that can be read.
pub open spec fn file_side(db: Map<ObjectSha, Seq<u8>>, s: Side) -> bool {
    match s {
        Some((_, oid)) => blob_in(db, oid) is Ok,
        None => true,
    }
}

/// Whether bytes are text that is merged line by line.
pub open spec fn mergeable(bytes: Seq<u8>) -> bool {
    !bytes.contains(0) && text_of(bytes) is Some
}

/// The clean result of merging the texts of three sides.
pub open spec fn clean_merge(db: Map<ObjectSha, Seq<u8>>, b: Side, o: Side, t: Side) -> Result<
    Seq<u8>,
    Seq<char>,
> {
    match merged_text(
        text_of(bytes_of_side(db, b))->Some_0,
        text_of(bytes_of_side(db, o))->Some_0,
        text_of(bytes_of_side(db, t))->Some_0,
    ) {
        Ok(m) => Ok(encode_utf8(m)),
        Err(m) => Err(m),
    }
}

/// Whether an action writes what a side is.
pub open spec fn writes(
    db: Map<ObjectSha, Seq<u8>>,
    s: Side,
    at: Seq<u8>,
    a: ActionModel,
) -> bool {
    match a {
        ActionModel::MakeDir { path } => path == at && dir_side(s),
        ActionModel::WriteFile { path, entry, mode, content, oid } => {
            &&& path == at
            &&& index_form(at) == Ok::<Seq<u8>, IndexError>(entry)
            &&& s == Some((mode, oid))
            &&& mode != FileMode::Directory
            &&& blob_in(db, oid) == Ok::<Seq<u8>, ObjectError>(content)
        },
        _ => false,
    }
}

/// Whether an action is right for a path at which the sides are these. Where two of them are the
/// same, what changed is written, or the path is removed where it was removed on a side. Where all
/// three differ, directories on both sides are gone into, and all else is either a clean merge of
/// the three contents or a conflict that carries the three sides.
pub open spec fn right_action(
    db: Map<ObjectSha, Seq<u8>>,
    b: Side,
    o: Side,
    t: Side,
    at: Seq<u8>,
    a: ActionModel,
) -> bool {
    let x = bytes_of_side(db, b);
    let y = bytes_of_side(db, o);
    let z = bytes_of_side(db, t);
    let texts = mergeable(x) && mergeable(y) && mergeable(z);
    let m = merged_text(text_of(x)->Some_0, text_of(y)->Some_0, text_of(z)->Some_0);
    match a {
        ActionModel::MakeDir { path } => if all_differ(b, o, t) {
            path == at && dir_side(o) && dir_side(t)
        } else {
            writes(db, the_changed(b, o, t), at, a)
        },
        ActionModel::WriteFile { .. } => !all_differ(b, o, t) && writes(
            db,
            the_changed(b, o, t),
            at,
            a,
        ),
        ActionModel::Remove { path, entry } => {
            &&& path == at
            &&& index_form(at) == Ok::<Seq<u8>, IndexError>(entry)
            &&& o is None && t is None || o is None && t == b || t is None && o == b
        },
        ActionModel::WriteMerged { path, entry, content, oid, raw } => {
            &&& all_differ(b, o, t) && !(dir_side(o) && dir_side(t))
            &&& path == at
            &&& index_form(at) == Ok::<Seq<u8>, IndexError>(entry)
            &&& file_side(db, b) && file_side(db, o) && file_side(db, t)
            &&& texts && m is Ok && content == encode_utf8(m->Ok_0)
            &&& raw == framed("blob"@, content)
            &&& oid == oid_of_raw(raw)
        },
        ActionModel::WriteConflict { path, entry, content, base, ours, theirs } => {
            &&& all_differ(b, o, t) && !(dir_side(o) && dir_side(t))
            &&& path == at
            &&& index_form(at) == Ok::<Seq<u8>, IndexError>(entry)
            &&& file_side(db, b) && file_side(db, o) && file_side(db, t)
            &&& base == b && ours == o && theirs == t
            &&& if texts {
                m is Err && content == encode_utf8(m->Err_0)
            } else {
                content == y
            }
        },
    }
}

/// Whether every directory on the way is there on both sides and differs on all three, so that it is
/// gone into.
pub open spec fn gone_into(
    db: Map<ObjectSha, Seq<u8>>,
    b: Side,
    o: Side,
    t: Side,
    names: Seq<Seq<u8>>,
) -> bool
    decreases names.len(),
{
    names.len() > 0 ==> all_differ(b, o, t) && dir_side(o) && dir_side(t) && gone_into(
        db,
        side_step(db, b, names[0]),
        side_step(db, o, names[0]),
        side_step(db, t, names[0]),
        names.drop_first(),
    )
}

/// Whether something has to be done at the end of a way: the three sides differ there, or there is
/// something to write, or something was removed in a directory that was gone into.
pub open spec fn to_do(
    db: Map<ObjectSha, Seq<u8>>,
    b: Side,
    o: Side,
    t: Side,
    names: Seq<Seq<u8>>,
) -> bool {
    let x = side_below(db, b, names);
    let y = side_below(db, o, names);
    let z = side_below(db, t, names);
    all_differ(x, y, z) || the_changed(x, y, z) is Some || x is Some && gone_into(
        db,
        b,
        o,
        t,
        names,
    )
}

proof fn lemma_blob_is_no_tree(db: Map<ObjectSha, Seq<u8>>, oid: ObjectSha)
    ensures
        blob_in(db, oid) is Ok ==> tree_in(db, oid) is Err,
{
    reveal_strlit("blob");
    reveal_strlit("tree");
    assert("blob"@[0] != "tree"@[0]);
}

proof fn lemma_nothing_below(db: Map<ObjectSha, Seq<u8>>, s: Side, l: Seq<Seq<u8>>)
    requires
        file_side(db, s),
    ensures
        l.len() > 0 ==> side_below(db, s, l) is None,
    decreases l.len(),
{
    if l.len() > 0 {
        if let Some((_, oid)) = s {
            lemma_blob_is_no_tree(db, oid);
        }
        let n = side_step(db, s, l[0]);
        assert(n is None);
        if l.len() > 1 {
            lemma_nothing_below(db, n, l.drop_first());
        }
        assert(side_below(db, n, l.drop_first()) is None);
    }
}

proof fn lemma_same_below(
    db: Map<ObjectSha, Seq<u8>>,
    b: Side,
    o: Side,
    t: Side,
    l: Seq<Seq<u8>>,
)
    requires
        !all_differ(b, o, t),
    ensures
        !all_differ(side_below(db, b, l), side_below(db, o, l), side_below(db, t, l)),
        the_changed(side_below(db, b, l), side_below(db, o, l), side_below(db, t, l)) == side_below(
            db,
            the_changed(b, o, t),
            l,
        ),
{
}

spec fn take_right(db: Map<ObjectSha, Seq<u8>>, s: Side, path: Seq<u8>) -> spec_fn(
    Seq<Seq<u8>>,
    ActionModel,
) -> bool {
    |l: Seq<Seq<u8>>, a: ActionModel| writes(db, side_below(db, s, l), path_below(path, l), a)
}

spec fn take_must(db: Map<ObjectSha, Seq<u8>>, s: Side) -> spec_fn(Seq<Seq<u8>>) -> bool {
    |l: Seq<Seq<u8>>| side_below(db, s, l) is Some
}

spec fn tree_right(
    db: Map<ObjectSha, Seq<u8>>,
    entries: Seq<(Seq<u8>, TreeEntry)>,
    path: Seq<u8>,
) -> spec_fn(Seq<Seq<u8>>, ActionModel) -> bool {
    |l: Seq<Seq<u8>>, a: ActionModel|
        l.len() > 0 && has_key(entries, l[0]) && writes(
            db,
            side_in(db, entries, l),
            path_below(path, l),
            a,
        )
}

spec fn tree_must(db: Map<ObjectSha, Seq<u8>>, entries: Seq<(Seq<u8>, TreeEntry)>) -> spec_fn(
    Seq<Seq<u8>>,
) -> bool {
    |l: Seq<Seq<u8>>| l.len() > 0 && side_in(db, entries, l) is Some
}

proof fn lemma_take(
    db: Map<ObjectSha, Seq<u8>>,
    mode: FileMode,
    oid: ObjectSha,
    path: Seq<u8>,
    depth: nat,
) -> (at: Seq<Seq<Seq<u8>>>)
    requires
        take_actions(db, mode, oid, path, depth) is Ok,
    ensures
        leads(
            at,
            take_actions(db, mode, oid, path, depth)->Ok_0,
            take_right(db, Some((mode, oid)), path),
            take_must(db, Some((mode, oid))),
        ),
    decreases depth, 0nat,
{
    let s = Some((mode, oid));
    let right = take_right(db, s, path);
    let must = take_must(db, s);
    let none = Seq::<Seq<u8>>::empty();
    assert(path_below(path, none) == path);
    assert(side_below(db, s, none) == s);
    if mode == FileMode::Directory {
        let entries = tree_in(db, oid)->Ok_0;
        let less = (depth - 1) as nat;
        lemma_tree_ascends(db, oid);
        let here = lemma_tree(db, entries, path, less);
        let then = tree_actions(db, entries, path, less)->Ok_0;
        let top = ActionModel::MakeDir { path };
        assert forall|l: Seq<Seq<u8>>| l.len() > 0 implies #[trigger] side_below(db, s, l)
            == side_in(db, entries, l) by {}
        assert forall|i: int| 0 <= i < here.len() implies (#[trigger] here[i]).len() > 0 && right(
            here[i],
            then[i],
        ) by {
            assert(tree_right(db, entries, path)(here[i], then[i]));
        }
        assert forall|l: Seq<Seq<u8>>| l.len() > 0 && #[trigger] must(l) implies here.contains(l) by {
            assert(tree_must(db, entries)(l));
        }
        lemma_leads_in(top, here, then, right, must)
    } else {
        let a = write_action(db, mode, oid, path)->Ok_0;
        assert forall|l: Seq<Seq<u8>>| #[trigger] must(l) implies l.len() == 0 by {
            lemma_nothing_below(db, s, l);
        }
        lemma_leads_here(a, right, must)
    }
}

/// What an ordered list has without its last pair.
pub proof fn lemma_front<V>(s: Seq<(Seq<u8>, V)>)
    requires
        ascending(s),
        s.len() > 0,
    ensures
        ascending(s.drop_last()),
        forall|k: Seq<u8>| #[trigger]
            has_key(s.drop_last(), k) ==> k != s.last().0 && lookup(s.drop_last(), k) == lookup(s, k)
                && has_key(s, k),
        forall|k: Seq<u8>| #[trigger]
            has_key(s, k) && k != s.last().0 ==> has_key(s.drop_last(), k),
        lookup(s, s.last().0) == Some(s.last().1),
        has_key(s, s.last().0),
{
    let t = s.drop_last();
    assert(ascending(t)) by {
        assert forall|i: int, j: int| 0 <= i < j < t.len() implies lex_lt(
            #[trigger] t[i].0,
            #[trigger] t[j].0,
        ) by {
            assert(s[i] == t[i] && s[j] == t[j]);
        }
    }
    assert forall|k: Seq<u8>| #[trigger] has_key(t, k) implies k != s.last().0 && lookup(t, k)
        == lookup(s, k) && has_key(s, k) by {
        let i = choose|i: int| 0 <= i < t.len() && (#[trigger] t[i]).0 == k;
        assert(s[i] == t[i]);
        assert(lex_lt(s[i].0, s[s.len() - 1].0));
        lemma_lex_irreflexive(k);
        lemma_lookup_at(s, i);
        lemma_lookup_at(t, i);
    }
    assert forall|k: Seq<u8>| #[trigger] has_key(s, k) && k != s.last().0 implies has_key(t, k) by {
        let i = choose|i: int| 0 <= i < s.len() && (#[trigger] s[i]).0 == k;
        assert(s[i] == t[i]);
    }
    lemma_lookup_at(s, s.len() - 1);
    assert(s[s.len() - 1].0 == s.last().0);
}

/// What is found under a key has it.
pub proof fn lemma_found_key<V>(s: Seq<(Seq<u8>, V)>, k: Seq<u8>)
    ensures
        lookup(s, k) is Some ==> has_key(s, k),
{
    if lookup(s, k) is Some {
        assert(s[crate::byte_map::rank(s, k)].0 == k);
    }
}

proof fn lemma_none_below(db: Map<ObjectSha, Seq<u8>>, l: Seq<Seq<u8>>)
    ensures
        side_below(db, None, l) is None,
{
    lemma_nothing_below(db, None, l);
}

proof fn lemma_tree(
    db: Map<ObjectSha, Seq<u8>>,
    entries: Seq<(Seq<u8>, TreeEntry)>,
    path: Seq<u8>,
    depth: nat,
) -> (at: Seq<Seq<Seq<u8>>>)
    requires
        tree_actions(db, entries, path, depth) is Ok,
        ascending(entries),
    ensures
        leads(
            at,
            tree_actions(db, entries, path, depth)->Ok_0,
            tree_right(db, entries, path),
            tree_must(db, entries),
        ),
    decreases depth, 1 + entries.len(),
{
    let right = tree_right(db, entries, path);
    let must = tree_must(db, entries);
    if entries.len() == 0 {
        let at = Seq::<Seq<Seq<u8>>>::empty();
        assert forall|l: Seq<Seq<u8>>| #[trigger] must(l) implies at.contains(l) by {
            lemma_found_key(entries, l[0]);
            lemma_none_below(db, l.drop_first());
        }
        at
    } else {
        let front = entries.drop_last();
        let (k, e) = entries.last();
        lemma_front(entries);
        let before = lemma_tree(db, front, path, depth);
        let first = tree_actions(db, front, path, depth)->Ok_0;
        let here = lemma_take(db, e.file_mode, e.object_name, pushed(path, k), depth);
        let then = take_actions(db, e.file_mode, e.object_name, pushed(path, k), depth)->Ok_0;
        let s = Some((e.file_mode, e.object_name));
        assert forall|i: int| 0 <= i < before.len() implies right(#[trigger] before[i], first[i]) && (
        before[i]).len() > 0 && before[i][0] != k by {
            assert(tree_right(db, front, path)(before[i], first[i]));
            assert(has_key(front, before[i][0]));
        }
        assert forall|i: int| 0 <= i < here.len() implies right(
            seq![k] + #[trigger] here[i],
            then[i],
        ) by {
            lemma_way(k, here[i]);
            assert(take_right(db, s, pushed(path, k))(here[i], then[i]));
        }
        assert forall|l: Seq<Seq<u8>>| #[trigger] must(l) implies l.len() > 0 && if l[0] == k {
            here.contains(l.drop_first())
        } else {
            before.contains(l)
        } by {
            if l[0] == k {
                assert(take_must(db, s)(l.drop_first()));
            } else {
                lemma_found_key(entries, l[0]);
                lemma_none_below(db, l.drop_first());
                assert(has_key(entries, l[0]));
                assert(has_key(front, l[0]));
                assert(tree_must(db, front)(l));
            }
        }
        lemma_leads_on(before, first, k, here, then, right, must)
    }
}

spec fn plan_right(
    db: Map<ObjectSha, Seq<u8>>,
    b: Side,
    o: Side,
    t: Side,
    path: Seq<u8>,
) -> spec_fn(Seq<Seq<u8>>, ActionModel) -> bool {
    |l: Seq<Seq<u8>>, a: ActionModel|
        right_action(
            db,
            side_below(db, b, l),
            side_below(db, o, l),
            side_below(db, t, l),
            path_below(path, l),
            a,
        )
}

spec fn plan_must(db: Map<ObjectSha, Seq<u8>>, b: Side, o: Side, t: Side) -> spec_fn(
    Seq<Seq<u8>>,
) -> bool {
    |l: Seq<Seq<u8>>| to_do(db, b, o, t, l)
}

spec fn names_right(
    db: Map<ObjectSha, Seq<u8>>,
    base: Seq<(Seq<u8>, TreeEntry)>,
    ours: Seq<(Seq<u8>, TreeEntry)>,
    theirs: Seq<(Seq<u8>, TreeEntry)>,
    names: Seq<(Seq<u8>, ())>,
    path: Seq<u8>,
) -> spec_fn(Seq<Seq<u8>>, ActionModel) -> bool {
    |l: Seq<Seq<u8>>, a: ActionModel|
        l.len() > 0 && has_key(names, l[0]) && right_action(
            db,
            side_in(db, base, l),
            side_in(db, ours, l),
            side_in(db, theirs, l),
            path_below(path, l),
            a,
        )
}

spec fn names_must(
    db: Map<ObjectSha, Seq<u8>>,
    base: Seq<(Seq<u8>, TreeEntry)>,
    ours: Seq<(Seq<u8>, TreeEntry)>,
    theirs: Seq<(Seq<u8>, TreeEntry)>,
    names: Seq<(Seq<u8>, ())>,
) -> spec_fn(Seq<Seq<u8>>) -> bool {
    |l: Seq<Seq<u8>>|
        l.len() > 0 && has_key(names, l[0]) && to_do(
            db,
            side_at_name(base, l[0]),
            side_at_name(ours, l[0]),
            side_at_name(theirs, l[0]),
            l.drop_first(),
        )
}

proof fn lemma_upto(
    db: Map<ObjectSha, Seq<u8>>,
    v: Seq<MergeModel>,
    w: Seq<MergeModel>,
    n: int,
    prefix: Seq<u8>,
    depth: nat,
)
    requires
        n <= v.len(),
        n <= w.len(),
        forall|i: int| 0 <= i < n ==> #[trigger] v[i] == w[i],
    ensures
        actions_upto(db, v, n, prefix, depth) == actions_upto(db, w, n, prefix, depth),
    decreases n,
{
    if n > 0 {
        lemma_upto(db, v, w, n - 1, prefix, depth);
        assert(v[n - 1] == w[n - 1]);
    }
}

proof fn lemma_entry(
    db: Map<ObjectSha, Seq<u8>>,
    name: Seq<u8>,
    b: Side,
    o: Side,
    t: Side,
    deep: nat,
    prefix: Seq<u8>,
    depth: nat,
) -> (at: Seq<Seq<Seq<u8>>>)
    requires
        decided(db, name, b, o, t, deep) is Ok,
        entry_actions(db, decided(db, name, b, o, t, deep)->Ok_0, prefix, depth) is Ok,
    ensures
        leads(
            at,
            entry_actions(db, decided(db, name, b, o, t, deep)->Ok_0, prefix, depth)->Ok_0,
            plan_right(db, b, o, t, pushed(prefix, name)),
            plan_must(db, b, o, t),
        ),
    decreases deep, 0nat,
{
    let path = pushed(prefix, name);
    let m = decided(db, name, b, o, t, deep)->Ok_0;
    let acts = entry_actions(db, m, prefix, depth)->Ok_0;
    let right = plan_right(db, b, o, t, path);
    let must = plan_must(db, b, o, t);
    let none = Seq::<Seq<u8>>::empty();
    assert(path_below(path, none) == path);
    assert(side_below(db, b, none) == b && side_below(db, o, none) == o && side_below(db, t, none)
        == t);
    if !all_differ(b, o, t) {
        let s = the_changed(b, o, t);
        if let Some((mode, oid)) = s {
            let at = lemma_take(db, mode, oid, path, depth);
            assert forall|i: int| 0 <= i < at.len() implies right(#[trigger] at[i], acts[i]) by {
                assert(take_right(db, s, path)(at[i], acts[i]));
                lemma_same_below(db, b, o, t, at[i]);
            }
            assert forall|l: Seq<Seq<u8>>| #[trigger] must(l) implies at.contains(l) by {
                lemma_same_below(db, b, o, t, l);
                if l.len() == 0 {
                    assert(l =~= none);
                }
                assert(take_must(db, s)(l));
            }
            at
        } else {
            let entry = index_form(path)->Ok_0;
            let top = ActionModel::Remove { path, entry };
            assert forall|l: Seq<Seq<u8>>| #[trigger] must(l) implies l.len() == 0 by {
                lemma_same_below(db, b, o, t, l);
                lemma_none_below(db, l);
            }
            assert(acts =~= seq![top]);
            lemma_leads_here(top, right, must)
        }
    } else if dir_side(o) && dir_side(t) {
        let bt = side_tree(db, b)->Ok_0;
        let ot = side_tree(db, o)->Ok_0;
        let tt = side_tree(db, t)->Ok_0;
        let names = all_names(bt, ot, tt);
        let less = (deep - 1) as nat;
        let v = merged(db, bt, ot, tt, names, less)->Ok_0;
        law_names_complete(bt, ot, tt);
        let here = lemma_names(db, bt, ot, tt, names, less, path, depth);
        let then = actions_upto(db, v, v.len() as int, path, depth)->Ok_0;
        let top = ActionModel::MakeDir { path };
        assert forall|k: Seq<u8>| #[trigger] side_step(db, b, k) == side_at_name(bt, k) by {}
        assert forall|k: Seq<u8>| #[trigger] side_step(db, o, k) == side_at_name(ot, k) by {}
        assert forall|k: Seq<u8>| #[trigger] side_step(db, t, k) == side_at_name(tt, k) by {}
        assert forall|i: int| 0 <= i < here.len() implies (#[trigger] here[i]).len() > 0 && right(
            here[i],
            then[i],
        ) by {
            assert(names_right(db, bt, ot, tt, names, path)(here[i], then[i]));
            let k = here[i][0];
            assert(side_step(db, b, k) == side_at_name(bt, k));
            assert(side_step(db, o, k) == side_at_name(ot, k));
            assert(side_step(db, t, k) == side_at_name(tt, k));
        }
        assert forall|l: Seq<Seq<u8>>| l.len() > 0 && #[trigger] must(l) implies here.contains(l) by {
            let k = l[0];
            let r = l.drop_first();
            assert(side_step(db, b, k) == side_at_name(bt, k));
            assert(side_step(db, o, k) == side_at_name(ot, k));
            assert(side_step(db, t, k) == side_at_name(tt, k));
            lemma_found_key(bt, k);
            lemma_found_key(ot, k);
            lemma_found_key(tt, k);
            lemma_none_below(db, r);
            assert(has_key(names, k));
            assert(names_must(db, bt, ot, tt, names)(l));
        }
        lemma_leads_in(top, here, then, right, must)
    } else {
        let top = conflict_action(db, path, b, o, t)->Ok_0;
        assert forall|l: Seq<Seq<u8>>| #[trigger] must(l) implies l.len() == 0 by {
            lemma_nothing_below(db, b, l);
            lemma_nothing_below(db, o, l);
            lemma_nothing_below(db, t, l);
        }
        assert(acts =~= seq![top]);
        lemma_leads_here(top, right, must)
    }
}

proof fn lemma_names(
    db: Map<ObjectSha, Seq<u8>>,
    base: Seq<(Seq<u8>, TreeEntry)>,
    ours: Seq<(Seq<u8>, TreeEntry)>,
    theirs: Seq<(Seq<u8>, TreeEntry)>,
    names: Seq<(Seq<u8>, ())>,
    deep: nat,
    prefix: Seq<u8>,
    depth: nat,
) -> (at: Seq<Seq<Seq<u8>>>)
    requires
        ascending(names),
        merged(db, base, ours, theirs, names, deep) is Ok,
        ({
            let v = merged(db, base, ours, theirs, names, deep)->Ok_0;
            actions_upto(db, v, v.len() as int, prefix, depth) is Ok
        }),
    ensures
        ({
            let v = merged(db, base, ours, theirs, names, deep)->Ok_0;
            leads(
                at,
                actions_upto(db, v, v.len() as int, prefix, depth)->Ok_0,
                names_right(db, base, ours, theirs, names, prefix),
                names_must(db, base, ours, theirs, names),
            )
        }),
    decreases deep, 1 + names.len(),
{
    let right = names_right(db, base, ours, theirs, names, prefix);
    let must = names_must(db, base, ours, theirs, names);
    if names.len() == 0 {
        Seq::empty()
    } else {
        let front = names.drop_last();
        let k = names.last().0;
        let b = side_at_name(base, k);
        let o = side_at_name(ours, k);
        let t = side_at_name(theirs, k);
        assert(b == side_of(lookup(base, k)));
        assert(o == side_of(lookup(ours, k)));
        assert(t == side_of(lookup(theirs, k)));
        lemma_front(names);
        let v = merged(db, base, ours, theirs, names, deep)->Ok_0;
        let w = merged(db, base, ours, theirs, front, deep)->Ok_0;
        let m = decided(db, k, b, o, t, deep)->Ok_0;
        assert(v == w.push(m));
        let n = w.len() as int;
        lemma_upto(db, v, w, n, prefix, depth);
        assert(v[n] == m);
        let before = lemma_names(db, base, ours, theirs, front, deep, prefix, depth);
        let first = actions_upto(db, w, n, prefix, depth)->Ok_0;
        let here = lemma_entry(db, k, b, o, t, deep, prefix, depth);
        let then = entry_actions(db, m, prefix, depth)->Ok_0;
        assert forall|i: int| 0 <= i < before.len() implies right(#[trigger] before[i], first[i]) && (
        before[i]).len() > 0 && before[i][0] != k by {
            assert(names_right(db, base, ours, theirs, front, prefix)(before[i], first[i]));
            assert(has_key(front, before[i][0]));
        }
        assert forall|i: int| 0 <= i < here.len() implies right(
            seq![k] + #[trigger] here[i],
            then[i],
        ) by {
            lemma_way(k, here[i]);
            assert(plan_right(db, b, o, t, pushed(prefix, k))(here[i], then[i]));
        }
        assert forall|l: Seq<Seq<u8>>| #[trigger] must(l) implies l.len() > 0 && if l[0] == k {
            here.contains(l.drop_first())
        } else {
            before.contains(l)
        } by {
            if l[0] == k {
                assert(plan_must(db, b, o, t)(l.drop_first()));
            } else {
                assert(has_key(front, l[0]));
                assert(names_must(db, base, ours, theirs, front)(l));
            }
        }
        lemma_leads_on(before, first, k, here, then, right, must)
    }
}

/// Whether the actions of a merge of three trees are right: `at` are the ways to the paths at which
/// something is done, one for each action and none twice, and nothing is left out.
pub open spec fn right_plan(
    db: Map<ObjectSha, Seq<u8>>,
    base: Seq<(Seq<u8>, TreeEntry)>,
    ours: Seq<(Seq<u8>, TreeEntry)>,
    theirs: Seq<(Seq<u8>, TreeEntry)>,
    acts: Seq<ActionModel>,
    at: Seq<Seq<Seq<u8>>>,
) -> bool {
    &&& at.len() == acts.len()
    &&& at.no_duplicates()
    &&& forall|i: int|
        0 <= i < acts.len() ==> (#[trigger] at[i]).len() > 0 && right_action(
            db,
            side_in(db, base, at[i]),
            side_in(db, ours, at[i]),
            side_in(db, theirs, at[i]),
            path_below(Seq::empty(), at[i]),
            acts[i],
        )
    &&& forall|l: Seq<Seq<u8>>|
        l.len() > 0 && #[trigger] to_do(
            db,
            side_at_name(base, l[0]),
            side_at_name(ours, l[0]),
            side_at_name(theirs, l[0]),
            l.drop_first(),
        ) ==> at.contains(l)
}

/// A merge does what is right at each path, once, and leaves none out.
pub proof fn law_merge_plan(
    db: Map<ObjectSha, Seq<u8>>,
    base: Seq<(Seq<u8>, TreeEntry)>,
    ours: Seq<(Seq<u8>, TreeEntry)>,
    theirs: Seq<(Seq<u8>, TreeEntry)>,
    depth: nat,
)
    requires
        trees_actions(db, base, ours, theirs, depth) is Ok,
    ensures
        exists|at: Seq<Seq<Seq<u8>>>| #[trigger]
            right_plan(
                db,
                base,
                ours,
                theirs,
                trees_actions(db, base, ours, theirs, depth)->Ok_0,
                at,
            ),
{
    let acts = trees_actions(db, base, ours, theirs, depth)->Ok_0;
    let names = all_names(base, ours, theirs);
    law_names_complete(base, ours, theirs);
    let at = lemma_names(db, base, ours, theirs, names, depth, Seq::empty(), depth);
    assert forall|i: int| 0 <= i < acts.len() implies (#[trigger] at[i]).len() > 0 && right_action(
        db,
        side_in(db, base, at[i]),
        side_in(db, ours, at[i]),
        side_in(db, theirs, at[i]),
        path_below(Seq::empty(), at[i]),
        acts[i],
    ) by {
        assert(names_right(db, base, ours, theirs, names, Seq::empty())(at[i], acts[i]));
    }
    assert forall|l: Seq<Seq<u8>>|
        l.len() > 0 && #[trigger] to_do(
            db,
            side_at_name(base, l[0]),
            side_at_name(ours, l[0]),
            side_at_name(theirs, l[0]),
            l.drop_first(),
        ) implies at.contains(l) by {
        let k = l[0];
        lemma_found_key(base, k);
        lemma_found_key(ours, k);
        lemma_found_key(theirs, k);
        lemma_none_below(db, l.drop_first());
        assert(has_key(names, k));
        assert(names_must(db, base, ours, theirs, names)(l));
    }
    assert(right_plan(db, base, ours, theirs, acts, at));
}

/// No change is lost in a merge. At every path at which the three sides are all different and not
/// both directories, where a side may also be that there is nothing, either a conflict is written
/// that carries just those three sides, or the clean result of merging the three texts. And a path is
/// removed only where a side has it no more, and the other has it no more either or has it as the
/// common ancestor does.
pub proof fn law_no_change_lost(
    db: Map<ObjectSha, Seq<u8>>,
    base: Seq<(Seq<u8>, TreeEntry)>,
    ours: Seq<(Seq<u8>, TreeEntry)>,
    theirs: Seq<(Seq<u8>, TreeEntry)>,
    depth: nat,
    l: Seq<Seq<u8>>,
)
    requires
        trees_actions(db, base, ours, theirs, depth) is Ok,
        l.len() > 0,
    ensures
        ({
            let acts = trees_actions(db, base, ours, theirs, depth)->Ok_0;
            let at = path_below(Seq::empty(), l);
            let b = side_in(db, base, l);
            let o = side_in(db, ours, l);
            let t = side_in(db, theirs, l);
            b != o && o != t && t != b && !(dir_side(o) && dir_side(t)) ==> exists|i: int|
                0 <= i < acts.len() && match #[trigger] acts[i] {
                    ActionModel::WriteConflict { path, base, ours, theirs, .. } => path == at
                        && base == b && ours == o && theirs == t,
                    ActionModel::WriteMerged { path, content, .. } => path == at && Ok::<
                        Seq<u8>,
                        Seq<char>,
                    >(content) == clean_merge(db, b, o, t),
                    _ => false,
                }
        }),
        forall|i: int|
            0 <= i < trees_actions(db, base, ours, theirs, depth)->Ok_0.len() ==> (
            #[trigger] trees_actions(db, base, ours, theirs, depth)->Ok_0[i] matches ActionModel::Remove {
                path,
                ..
            } ==> exists|r: Seq<Seq<u8>>|
                path == path_below(Seq::empty(), r) && {
                    let b = #[trigger] side_in(db, base, r);
                    let o = side_in(db, ours, r);
                    let t = side_in(db, theirs, r);
                    o is None && t is None || o is None && t == b || t is None && o == b
                }),
{
    let acts = trees_actions(db, base, ours, theirs, depth)->Ok_0;
    law_merge_plan(db, base, ours, theirs, depth);
    let at = choose|at: Seq<Seq<Seq<u8>>>| #[trigger] right_plan(db, base, ours, theirs, acts, at);
    let b = side_in(db, base, l);
    let o = side_in(db, ours, l);
    let t = side_in(db, theirs, l);
    if all_differ(b, o, t) && !(dir_side(o) && dir_side(t)) {
        assert(to_do(
            db,
            side_at_name(base, l[0]),
            side_at_name(ours, l[0]),
            side_at_name(theirs, l[0]),
            l.drop_first(),
        ));
        let i = choose|i: int| 0 <= i < at.len() && at[i] == l;
        assert(right_action(db, b, o, t, path_below(Seq::empty(), l), acts[i]));
    }
    assert forall|i: int| 0 <= i < acts.len() implies (#[trigger] acts[i] matches ActionModel::Remove {
        path,
        ..
    } ==> exists|r: Seq<Seq<u8>>|
        path == path_below(Seq::empty(), r) && {
            let b = #[trigger] side_in(db, base, r);
            let o = side_in(db, ours, r);
            let t = side_in(db, theirs, r);
            o is None && t is None || o is None && t == b || t is None && o == b
        }) by {
        let r = at[i];
        assert(right_action(
            db,
            side_in(db, base, r),
            side_in(db, ours, r),
            side_in(db, theirs, r),
            path_below(Seq::empty(), r),
            acts[i],
        ));
    }
}

/// The paths that are left to be resolved are those at which a conflict is written, in order.
pub proof fn law_conflicts_told(acts: Seq<ActionModel>)
    ensures
        picked(
            conflicts_in(acts),
            Seq::new(
                acts.len(),
                |i: int|
                    match acts[i] {
                        ActionModel::WriteConflict { path, .. } => Some(path),
                        _ => None,
                    },
            ),
        ),
    decreases acts.len(),
{
    let wanted = Seq::new(
        acts.len(),
        |i: int|
            match acts[i] {
                ActionModel::WriteConflict { path, .. } => Some(path),
                _ => None,
            },
    );
    if acts.len() == 0 {
        lemma_picked_none::<Seq<u8>>();
        assert(wanted =~= Seq::empty());
    } else {
        let t = acts.drop_last();
        law_conflicts_told(t);
        let before = Seq::new(
            t.len(),
            |i: int|
                match t[i] {
                    ActionModel::WriteConflict { path, .. } => Some(path),
                    _ => None,
                },
        );
        lemma_picked_push(conflicts_in(t), before, wanted.last());
        assert(wanted =~= before.push(wanted.last()));
    }
}

} // verus!
