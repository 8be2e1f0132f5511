//! Paths of a Unix file system, as byte strings: their components, names and prefixes.
use crate::bytes::{append_bytes, copy_bytes, find_byte, find_from, lemma_find_from, same_bytes};
use crate::text::{lemma_views_push, views};
use vstd::prelude::*;
use vstd::slice::slice_subrange;

verus! {

/// Where the components from position `i` on stand; empty parts and `.` are none.
pub open spec fn spans_from(s: Seq<u8>, i: int) -> Seq<(int, int)>
    decreases s.len() + 1 - i,
    via spans_from_shrink
{
    if i < 0 || i >= s.len() {
        Seq::empty()
    } else {
        let j = find_from(s, 0x2f, i);
        let rest = spans_from(s, j + 1);
        if j == i || (j == i + 1 && s[i] == 0x2e) {
            rest
        } else {
            seq![(i, j)] + rest
        }
    }
}

#[via_fn]
proof fn spans_from_shrink(s: Seq<u8>, i: int) {
    if 0 <= i < s.len() {
        lemma_find_from(s, 0x2f, i);
    }
}

/// Where the components of a path stand: the root, if the path starts with a slash; a `.` only at
/// the very start; and every other part that slashes separate.
pub open spec fn spans(s: Seq<u8>) -> Seq<(int, int)> {
    if s.len() > 0 && s[0] == 0x2f {
        seq![(0int, 1int)] + spans_from(s, 1)
    } else if s.len() > 0 && s[0] == 0x2e && (s.len() == 1 || s[1] == 0x2f) {
        seq![(0int, 1int)] + spans_from(s, 2)
    } else {
        spans_from(s, 0)
    }
}

/// The components of a path.
pub open spec fn components(s: Seq<u8>) -> Seq<Seq<u8>> {
    Seq::new(spans(s).len(), |i: int| s.subrange(spans(s)[i].0, spans(s)[i].1))
}

/// Whether a component is a name, and not the root, `.` or `..`.
pub open spec fn is_name(c: Seq<u8>) -> bool {
    c != seq![0x2fu8] && c != seq![0x2eu8] && c != seq![0x2eu8, 0x2eu8]
}

/// The name of the file that a path leads to: its last component, if that is a name.
pub open spec fn file_name(s: Seq<u8>) -> Option<Seq<u8>> {
    let c = components(s);
    if c.len() > 0 && is_name(c.last()) {
        Some(c.last())
    } else {
        None
    }
}

/// The components of the directory that holds the file that a path leads to.
pub open spec fn parent_components(s: Seq<u8>) -> Seq<Seq<u8>> {
    let c = components(s);
    if c.len() > 0 {
        c.drop_last()
    } else {
        c
    }
}

/// What is left of `s` below `root`: the components of `root` must be the first ones of `s`.
pub open spec fn relative_to(root: Seq<u8>, s: Seq<u8>) -> Option<Seq<u8>> {
    let a = components(root);
    let b = components(s);
    if a.len() <= b.len() && b.subrange(0, a.len() as int) == a {
        if a.len() == b.len() {
            Some(Seq::empty())
        } else {
            Some(s.subrange(spans(s)[a.len() as int].0, spans(s).last().1))
        }
    } else {
        None
    }
}

/// Components stand in order and within the path.
pub proof fn lemma_spans_from(s: Seq<u8>, i: int)
    requires
        0 <= i,
    ensures
        forall|k: int|
            0 <= k < spans_from(s, i).len() ==> i <= (#[trigger] spans_from(s, i)[k]).0
                < spans_from(s, i)[k].1 <= s.len(),
        forall|k: int, l: int|
            0 <= k < l < spans_from(s, i).len() ==> (#[trigger] spans_from(s, i)[k]).1 <= (
            #[trigger] spans_from(s, i)[l]).0,
    decreases s.len() + 1 - i,
{
    if i < s.len() {
        lemma_find_from(s, 0x2f, i);
        let j = find_from(s, 0x2f, i);
        let rest = spans_from(s, j + 1);
        lemma_spans_from(s, j + 1);
        let all = spans_from(s, i);
        if !(j == i || (j == i + 1 && s[i] == 0x2e)) {
            assert forall|k: int| 0 <= k < all.len() implies i <= (#[trigger] all[k]).0 < all[k].1
                <= s.len() by {
                if k > 0 {
                    assert(all[k] == rest[k - 1]);
                }
            }
            assert forall|k: int, l: int| 0 <= k < l < all.len() implies (#[trigger] all[k]).1 <= (
            #[trigger] all[l]).0 by {
                assert(all[l] == rest[l - 1]);
                if k > 0 {
                    assert(all[k] == rest[k - 1]);
                }
            }
        }
    }
}

pub proof fn lemma_spans(s: Seq<u8>)
    ensures
        forall|k: int|
            0 <= k < spans(s).len() ==> 0 <= (#[trigger] spans(s)[k]).0 < spans(s)[k].1 <= s.len(),
        forall|k: int, l: int|
            0 <= k < l < spans(s).len() ==> (#[trigger] spans(s)[k]).1 <= (#[trigger] spans(
                s,
            )[l]).0,
{
    lemma_spans_from(s, 0);
    lemma_spans_from(s, 1);
    lemma_spans_from(s, 2);
    let all = spans(s);
    if s.len() > 0 && (s[0] == 0x2f || (s[0] == 0x2e && (s.len() == 1 || s[1] == 0x2f))) {
        let rest = if s[0] == 0x2f {
            spans_from(s, 1)
        } else {
            spans_from(s, 2)
        };
        assert forall|k: int| 0 <= k < all.len() implies 0 <= (#[trigger] all[k]).0 < all[k].1
            <= s.len() by {
            if k > 0 {
                assert(all[k] == rest[k - 1]);
            }
        }
        assert forall|k: int, l: int| 0 <= k < l < all.len() implies (#[trigger] all[k]).1 <= (
        #[trigger] all[l]).0 by {
            assert(all[l] == rest[l - 1]);
            if k > 0 {
                assert(all[k] == rest[k - 1]);
            }
        }
    }
}

/// The spans as numbers.
pub open spec fn span_ints(v: Seq<(usize, usize)>) -> Seq<(int, int)> {
    Seq::new(v.len(), |i: int| (v[i].0 as int, v[i].1 as int))
}

/// Finds where the components of a path stand.
pub fn find_spans(s: &[u8]) -> (r: Vec<(usize, usize)>)
    ensures
        span_ints(r@) == spans(s@),
{
    let mut r: Vec<(usize, usize)> = Vec::new();
    let mut i: usize = 0;
    if s.len() > 0 && s[0] == 0x2f {
        r.push((0, 1));
        i = 1;
        assert(span_ints(r@) =~= seq![(0int, 1int)]);
    } else if s.len() > 0 && s[0] == 0x2e && (s.len() == 1 || s[1] == 0x2f) {
        r.push((0, 1));
        i = if s.len() == 1 {
            1
        } else {
            2
        };
        assert(span_ints(r@) =~= seq![(0int, 1int)]);
        assert(spans_from(s@, 2) == spans_from(s@, i as int));
    } else {
        assert(span_ints(r@) =~= Seq::empty());
        assert(span_ints(r@) + spans_from(s@, 0) =~= spans_from(s@, 0));
    }
    while i < s.len()
        invariant
            0 <= i <= s.len(),
            span_ints(r@) + spans_from(s@, i as int) == spans(s@),
        decreases s.len() - i,
    {
        let j: usize = find_byte(s, 0x2f, i);
        let ghost before = r@;
        let ghost next = j + 1;
        if !(j == i || (j == i + 1 && s[i] == 0x2e)) {
            r.push((i, j));
            assert(span_ints(r@) =~= span_ints(before).push((i as int, j as int)));
            assert(span_ints(before) + (seq![(i as int, j as int)] + spans_from(s@, j + 1))
                =~= span_ints(r@) + spans_from(s@, j + 1));
        }
        if j < s.len() {
            i = j + 1;
        } else {
            i = j;
            assert(spans_from(s@, next) =~= spans_from(s@, i as int));
        }
    }
    assert(span_ints(r@) + spans_from(s@, i as int) =~= span_ints(r@));
    r
}

/// The components of a path.
pub fn components_of(s: &[u8]) -> (r: Vec<Vec<u8>>)
    ensures
        views(r@) == components(s@),
{
    let sp = find_spans(s);
    proof {
        lemma_spans(s@);
    }
    let mut r: Vec<Vec<u8>> = Vec::new();
    let mut i: usize = 0;
    while i < sp.len()
        invariant
            0 <= i <= sp@.len(),
            span_ints(sp@) == spans(s@),
            views(r@) == components(s@).subrange(0, i as int),
            forall|k: int|
                0 <= k < spans(s@).len() ==> 0 <= (#[trigger] spans(s@)[k]).0 < spans(s@)[k].1
                    <= s@.len(),
        decreases sp@.len() - i,
    {
        assert(spans(s@)[i as int] == (sp@[i as int].0 as int, sp@[i as int].1 as int));
        let ghost before = r@;
        let c = copy_bytes(slice_subrange(s, sp[i].0, sp[i].1));
        r.push(c);
        proof {
            lemma_views_push(before, c);
            assert(views(r@) =~= components(s@).subrange(0, i + 1));
        }
        i += 1;
    }
    assert(components(s@).subrange(0, i as int) =~= components(s@));
    r
}

/// Whether a component is a name.
pub fn component_is_name(c: &[u8]) -> (r: bool)
    ensures
        r == is_name(c@),
{
    proof {
        assert(seq![0x2fu8][0] == 0x2f);
        assert(seq![0x2eu8][0] == 0x2e);
        assert(seq![0x2eu8, 0x2eu8][0] == 0x2e && seq![0x2eu8, 0x2eu8][1] == 0x2e);
        if c@.len() == 1 && (c@[0] == 0x2f || c@[0] == 0x2e) {
            assert(c@ =~= seq![0x2fu8] || c@ =~= seq![0x2eu8]);
        }
        if c@.len() == 2 && c@[0] == 0x2e && c@[1] == 0x2e {
            assert(c@ =~= seq![0x2eu8, 0x2eu8]);
        }
    }
    !(c.len() == 1 && (c[0] == 0x2f || c[0] == 0x2e)) && !(c.len() == 2 && c[0] == 0x2e && c[1]
        == 0x2e)
}

/// What is left of `s` below `root`.
pub fn strip_root<'a>(root: &[u8], s: &'a [u8]) -> (r: Option<&'a [u8]>)
    ensures
        crate::text::opt_view(r) == relative_to(root@, s@),
{
    let a = components_of(root);
    let b = components_of(s);
    let sp = find_spans(s);
    proof {
        lemma_spans(s@);
    }
    if a.len() > b.len() {
        return None;
    }
    let mut i: usize = 0;
    while i < a.len()
        invariant
            0 <= i <= a@.len() <= b@.len(),
            views(a@) == components(root@),
            views(b@) == components(s@),
            forall|k: int|
                0 <= k < i ==> components(root@)[k] == #[trigger] components(s@)[k],
        decreases a@.len() - i,
    {
        assert(components(root@)[i as int] == a@[i as int]@);
        assert(components(s@)[i as int] == b@[i as int]@);
        if !same_bytes(a[i].as_slice(), b[i].as_slice()) {
            proof {
                let p = components(s@).subrange(0, a@.len() as int);
                assert(p[i as int] == components(s@)[i as int]);
            }
            return None;
        }
        i += 1;
    }
    assert(components(s@).subrange(0, a@.len() as int) =~= components(root@));
    if a.len() == b.len() {
        let e = slice_subrange(s, 0, 0);
        assert(e@ =~= Seq::empty());
        return Some(e);
    }
    let n: usize = sp.len();
    proof {
        assert(sp@.len() == b@.len());
        assert(spans(s@)[a@.len() as int] == (
            sp@[a@.len() as int].0 as int,
            sp@[a@.len() as int].1 as int,
        ));
        assert(spans(s@)[n - 1] == (sp@[n - 1].0 as int, sp@[n - 1].1 as int));
        if a@.len() < n - 1 {
            assert(spans(s@)[a@.len() as int].1 <= spans(s@)[n - 1].0);
        }
    }
    Some(slice_subrange(s, sp[a.len()].0, sp[n - 1].1))
}

/// The path of a name in a directory, with a slash between them; the directory at the root has no
/// path of its own.
pub open spec fn joined(dir: Seq<u8>, name: Seq<u8>) -> Seq<u8> {
    if dir.len() == 0 {
        name
    } else {
        dir + seq![0x2fu8] + name
    }
}

/// A name below a directory.
pub fn join(dir: &[u8], name: &[u8]) -> (r: Vec<u8>)
    ensures
        r@ == joined(dir@, name@),
{
    let mut r = copy_bytes(dir);
    if dir.len() > 0 {
        r.push(0x2f);
    }
    append_bytes(&mut r, name);
    assert(r@ =~= joined(dir@, name@));
    r
}

/// One path pushed onto another: an absolute one takes its place.
pub open spec fn pushed(dir: Seq<u8>, name: Seq<u8>) -> Seq<u8> {
    if name.len() > 0 && name[0] == 0x2f {
        name
    } else if dir.len() == 0 || dir.last() == 0x2f {
        dir + name
    } else {
        dir.push(0x2f) + name
    }
}

/// One path pushed onto another: an absolute one takes its place.
pub fn push_path(dir: &[u8], name: &[u8]) -> (r: Vec<u8>)
    ensures
        r@ == pushed(dir@, name@),
{
    if name.len() > 0 && name[0] == 0x2f {
        return copy_bytes(name);
    }
    let mut r = copy_bytes(dir);
    if dir.len() > 0 && dir[dir.len() - 1] != 0x2f {
        r.push(0x2f);
    }
    append_bytes(&mut r, name);
    assert(r@ =~= pushed(dir@, name@));
    r
}

} // verus!
