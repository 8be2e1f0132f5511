//! Sets of paths, ordered name by name: what is in a directory stands together.
use crate::byte_map::{ascending, bind, has_key, lemma_bind, lookup, ByteMap};
use crate::bytes::{bytes_start_with, starts_with};
use crate::text::{lemma_views_push, views};
use vstd::prelude::*;

verus! {

/// The key by which a path is ordered: a slash comes before every other byte.
pub open spec fn path_key(p: Seq<u8>) -> Seq<u8> {
    Seq::new(
        p.len(),
        |i: int|
            if p[i] == 0x2f {
                0u8
            } else {
                p[i]
            },
    )
}

/// The path with a given key.
pub open spec fn key_path(k: Seq<u8>) -> Seq<u8> {
    Seq::new(
        k.len(),
        |i: int|
            if k[i] == 0 {
                0x2fu8
            } else {
                k[i]
            },
    )
}

/// The keys of the paths, each once, in order.
pub open spec fn path_set(paths: Seq<Seq<u8>>) -> Seq<(Seq<u8>, ())>
    decreases paths.len(),
{
    if paths.len() == 0 {
        Seq::empty()
    } else {
        bind(path_set(paths.drop_last()), path_key(paths.last()), ())
    }
}

/// The key of a path.
pub fn key_of(p: &[u8]) -> (r: Vec<u8>)
    ensures
        r@ == path_key(p@),
{
    let mut r: Vec<u8> = Vec::new();
    let mut i: usize = 0;
    while i < p.len()
        invariant
            0 <= i <= p@.len(),
            r@ == path_key(p@).subrange(0, i as int),
        decreases p@.len() - i,
    {
        r.push(
            if p[i] == 0x2f {
                0
            } else {
                p[i]
            },
        );
        i += 1;
        assert(r@ =~= path_key(p@).subrange(0, i as int));
    }
    assert(r@ =~= path_key(p@));
    r
}

/// The path with a given key.
pub fn path_of(k: &[u8]) -> (r: Vec<u8>)
    ensures
        r@ == key_path(k@),
{
    let mut r: Vec<u8> = Vec::new();
    let mut i: usize = 0;
    while i < k.len()
        invariant
            0 <= i <= k@.len(),
            r@ == key_path(k@).subrange(0, i as int),
        decreases k@.len() - i,
    {
        r.push(
            if k[i] == 0 {
                0x2f
            } else {
                k[i]
            },
        );
        i += 1;
        assert(r@ =~= key_path(k@).subrange(0, i as int));
    }
    assert(r@ =~= key_path(k@));
    r
}

/// A path without zero bytes is the path of its key.
pub proof fn lemma_key_path(p: Seq<u8>)
    requires
        !p.contains(0),
    ensures
        key_path(path_key(p)) == p,
{
    assert forall|i: int| 0 <= i < p.len() implies key_path(path_key(p))[i] == p[i] by {
        assert(p.contains(p[i]));
    }
    assert(key_path(path_key(p)) =~= p);
}

/// A set of paths holds the keys of just these paths.
pub proof fn lemma_path_set(paths: Seq<Seq<u8>>)
    ensures
        ascending(path_set(paths)),
        forall|k: Seq<u8>| #[trigger]
            lookup(path_set(paths), k) is Some <==> exists|i: int|
                0 <= i < paths.len() && path_key(#[trigger] paths[i]) == k,
    decreases paths.len(),
{
    if paths.len() == 0 {
        assert forall|k: Seq<u8>| #[trigger] lookup(path_set(paths), k) is None by {
            assert(path_set(paths).len() == 0);
        }
    } else {
        let t = paths.drop_last();
        let last = path_key(paths.last());
        lemma_path_set(t);
        lemma_bind(path_set(t), last, ());
        assert forall|k: Seq<u8>| #[trigger]
            lookup(path_set(paths), k) is Some <==> exists|i: int|
                0 <= i < paths.len() && path_key(#[trigger] paths[i]) == k by {
            if k == last {
                assert(path_key(paths[paths.len() - 1]) == k);
            } else {
                assert(lookup(path_set(paths), k) == lookup(path_set(t), k));
                if lookup(path_set(t), k) is Some {
                    let i = choose|i: int| 0 <= i < t.len() && path_key(#[trigger] t[i]) == k;
                    assert(path_key(paths[i]) == k);
                }
                if exists|i: int| 0 <= i < paths.len() && path_key(#[trigger] paths[i]) == k {
                    let i = choose|i: int|
                        0 <= i < paths.len() && path_key(#[trigger] paths[i]) == k;
                    assert(path_key(t[i]) == k);
                }
            }
        }
    }
}

/// Makes a set of paths.
pub fn set_of_paths(paths: &Vec<Vec<u8>>) -> (r: ByteMap<()>)
    ensures
        r@ == path_set(views(paths@)),
{
    let ghost all = views(paths@);
    let mut set: ByteMap<()> = ByteMap::new();
    let mut i: usize = 0;
    assert(all.subrange(0, 0) =~= Seq::empty());
    while i < paths.len()
        invariant
            0 <= i <= paths@.len(),
            all == views(paths@),
            set@ == path_set(all.subrange(0, i as int)),
        decreases paths@.len() - i,
    {
        proof {
            let upto = all.subrange(0, i + 1);
            assert(upto.drop_last() =~= all.subrange(0, i as int));
            assert(upto.last() == paths@[i as int]@);
        }
        set.insert(key_of(paths[i].as_slice()), ());
        i += 1;
    }
    assert(all.subrange(0, i as int) =~= all);
    set
}

/// The keys of `s` that are not in `t`, in order.
pub open spec fn keys_without(s: Seq<(Seq<u8>, ())>, t: Seq<(Seq<u8>, ())>) -> Seq<Seq<u8>>
    decreases s.len(),
{
    if s.len() == 0 {
        Seq::empty()
    } else {
        let before = keys_without(s.drop_last(), t);
        if lookup(t, s.last().0) is Some {
            before
        } else {
            before.push(s.last().0)
        }
    }
}

/// The keys of `s` that are not in `t`, in order.
pub fn difference(s: &ByteMap<()>, t: &ByteMap<()>) -> (r: Vec<Vec<u8>>)
    ensures
        views(r@) == keys_without(s@, t@),
{
    let mut out: Vec<Vec<u8>> = Vec::new();
    let mut i: usize = 0;
    assert(s@.subrange(0, 0) =~= Seq::empty());
    assert(views(out@) =~= Seq::empty());
    while i < s.len()
        invariant
            0 <= i <= s@.len(),
            views(out@) == keys_without(s@.subrange(0, i as int), t@),
        decreases s@.len() - i,
    {
        proof {
            let upto = s@.subrange(0, i + 1);
            assert(upto.drop_last() =~= s@.subrange(0, i as int));
            assert(upto.last() == s@[i as int]);
        }
        if !t.contains(s.key_at(i).as_slice()) {
            let k = crate::bytes::copy_bytes(s.key_at(i).as_slice());
            proof {
                lemma_views_push(out@, k);
            }
            out.push(k);
        }
        i += 1;
    }
    assert(s@.subrange(0, i as int) =~= s@);
    out
}

/// `keys_without` holds the keys of the one that are not in the other, and no others.
pub proof fn lemma_keys_without(s: Seq<(Seq<u8>, ())>, t: Seq<(Seq<u8>, ())>)
    ensures
        forall|k: Seq<u8>| #[trigger]
            keys_without(s, t).contains(k) <==> has_key(s, k) && lookup(t, k) is None,
    decreases s.len(),
{
    if s.len() > 0 {
        let u = s.drop_last();
        lemma_keys_without(u, t);
        let before = keys_without(u, t);
        let all = keys_without(s, t);
        assert forall|k: Seq<u8>| #[trigger]
            all.contains(k) <==> has_key(s, k) && lookup(t, k) is None by {
            if before.contains(k) {
                let i = choose|i: int| 0 <= i < before.len() && before[i] == k;
                assert(all[i] == k);
                let j = choose|j: int| 0 <= j < u.len() && (#[trigger] u[j]).0 == k;
                assert(s[j].0 == k);
            }
            if k == s.last().0 {
                assert(s[s.len() - 1].0 == k);
                if lookup(t, k) is None {
                    assert(all[before.len() as int] == k);
                }
            } else {
                if has_key(s, k) {
                    let j = choose|j: int| 0 <= j < s.len() && (#[trigger] s[j]).0 == k;
                    assert(u[j].0 == k);
                }
                if all.contains(k) {
                    let i = choose|i: int| 0 <= i < all.len() && all[i] == k;
                    assert(before[i] == k);
                }
            }
        }
    } else {
        assert forall|k: Seq<u8>| !(#[trigger] keys_without(s, t).contains(k)) && !has_key(
            s,
            k,
        ) by {
            assert(keys_without(s, t).len() == 0);
        }
    }
}

/// Whether the path of key `k` is below that of key `dir`, and not the same.
pub open spec fn below(k: Seq<u8>, dir: Seq<u8>) -> bool {
    k != dir && (dir.len() == 0 || starts_with(k, dir.push(0)))
}

/// Whether the path of one key is below that of another.
pub fn is_below(k: &[u8], dir: &[u8]) -> (r: bool)
    ensures
        r == below(k@, dir@),
{
    if dir.len() == 0 {
        assert(dir@ =~= Seq::empty());
        let r = k.len() > 0;
        assert(!r ==> k@ =~= dir@);
        return r;
    }
    let ghost d = dir@.push(0);
    if k.len() <= dir.len() || !bytes_start_with(k, dir) || k[dir.len()] != 0 {
        assert(!starts_with(k@, d)) by {
            if starts_with(k@, d) {
                assert(k@.subrange(0, dir@.len() as int) =~= k@.subrange(
                    0,
                    d.len() as int,
                ).subrange(0, dir@.len() as int));
                assert(d.subrange(0, dir@.len() as int) =~= dir@);
                assert(k@.subrange(0, d.len() as int)[dir@.len() as int] == k@[dir@.len() as int]);
            }
        }
        false
    } else {
        assert(k@.subrange(0, d.len() as int) =~= d);
        true
    }
}

} // verus!
