//! What paths are made of: the names between their slashes.
use crate::bytes::lemma_find_from_is;
use crate::unix_path::{
    components, file_name, joined, parent_components, pushed, relative_to, spans, spans_from,
};
use vstd::prelude::*;

verus! {

/// Whether these bytes can stand between slashes as a name of their own.
pub open spec fn is_part(name: Seq<u8>) -> bool {
    name.len() > 0 && name != seq![0x2eu8] && !name.contains(0x2f)
}

/// Whether all of these can.
pub open spec fn all_parts(names: Seq<Seq<u8>>) -> bool {
    forall|i: int| 0 <= i < names.len() ==> is_part(#[trigger] names[i])
}

/// The names with slashes between them.
pub open spec fn slashed(names: Seq<Seq<u8>>) -> Seq<u8>
    decreases names.len(),
{
    if names.len() == 0 {
        Seq::empty()
    } else if names.len() == 1 {
        names[0]
    } else {
        names[0].push(0x2f) + slashed(names.drop_first())
    }
}

proof fn lemma_names_found(s: Seq<u8>, i: int, names: Seq<Seq<u8>>)
    requires
        0 <= i <= s.len(),
        all_parts(names),
        s.subrange(i, s.len() as int) == slashed(names),
    ensures
        spans_from(s, i).len() == names.len(),
        forall|k: int|
            0 <= k < names.len() ==> s.subrange(
                (#[trigger] spans_from(s, i)[k]).0,
                spans_from(s, i)[k].1,
            ) == names[k],
        names.len() > 0 ==> spans_from(s, i)[0].0 == i && spans_from(s, i).last().1 == s.len(),
    decreases names.len(),
{
    let t = s.subrange(i, s.len() as int);
    if names.len() == 0 {
        assert(t.len() == s.len() - i);
    } else {
        let a = names[0];
        assert(is_part(a));
        let j = i + a.len();
        assert(t.len() == s.len() - i);
        assert(t.len() >= a.len());
        assert forall|k: int| i <= k < j implies s[k] != 0x2f by {
            assert(t[k - i] == s[k]);
            assert(t[k - i] == a[k - i]);
            assert(a.contains(a[k - i]));
        }
        if names.len() > 1 {
            assert(t[a.len() as int] == 0x2f);
            assert(s[j] == 0x2f);
        }
        lemma_find_from_is(s, 0x2f, i, j);
        assert(s.subrange(i, j) =~= a) by {
            assert forall|k: int| 0 <= k < a.len() implies s.subrange(i, j)[k] == a[k] by {
                assert(t[k] == s[i + k]);
            }
        }
        if j == i + 1 && s[i] == 0x2e {
            assert(a =~= seq![0x2eu8]) by {
                assert(s.subrange(i, j)[0] == s[i]);
            }
        }
        let rest = names.drop_first();
        assert forall|k: int| 0 <= k < rest.len() implies is_part(#[trigger] rest[k]) by {
            assert(rest[k] == names[k + 1]);
        }
        if names.len() > 1 {
            assert(s.subrange(j + 1, s.len() as int) =~= slashed(rest)) by {
                assert forall|k: int| 0 <= k < slashed(rest).len() implies s.subrange(
                    j + 1,
                    s.len() as int,
                )[k] == slashed(rest)[k] by {
                    assert(t[a.len() + 1 + k] == s[j + 1 + k]);
                }
            }
            lemma_names_found(s, j + 1, rest);
        } else {
            assert(j == s.len());
            assert(spans_from(s, j + 1).len() == 0);
        }
        let all = spans_from(s, i);
        assert(all == seq![(i, j)] + spans_from(s, j + 1));
        assert forall|k: int| 0 <= k < names.len() implies s.subrange(
            (#[trigger] all[k]).0,
            all[k].1,
        ) == names[k] by {
            if k > 0 {
                assert(all[k] == spans_from(s, j + 1)[k - 1]);
                assert(rest[k - 1] == names[k]);
            }
        }
    }
}

proof fn lemma_slashed_start(names: Seq<Seq<u8>>)
    requires
        all_parts(names),
        names.len() > 0,
    ensures
        slashed(names).len() > 0,
        slashed(names)[0] != 0x2f,
        slashed(names)[0] == 0x2e ==> slashed(names).len() > 1 && slashed(names)[1] != 0x2f,
{
    let a = names[0];
    assert(is_part(a));
    let s = slashed(names);
    assert(s[0] == a[0]);
    assert(a.contains(a[0]));
    if a[0] == 0x2e {
        if a.len() == 1 {
            assert(a =~= seq![0x2eu8]);
        }
        assert(s[1] == a[1]);
        assert(a.contains(a[1]));
    }
}

proof fn lemma_spans_slashed(names: Seq<Seq<u8>>)
    requires
        all_parts(names),
    ensures
        spans(slashed(names)) == spans_from(slashed(names), 0),
        components(slashed(names)) == names,
        names.len() > 0 ==> spans(slashed(names))[0].0 == 0 && spans(slashed(names)).last().1
            == slashed(names).len(),
{
    let s = slashed(names);
    assert(s.subrange(0, s.len() as int) =~= s);
    lemma_names_found(s, 0, names);
    if names.len() > 0 {
        lemma_slashed_start(names);
    }
    let c = components(s);
    assert forall|k: int| 0 <= k < names.len() implies c[k] == names[k] by {
        assert(spans(s)[k] == spans_from(s, 0)[k]);
    }
    assert(c =~= names);
}

/// The components of a path are the names between its slashes; the slash at the beginning of one
/// that starts at the root is a component too.
pub proof fn law_components(names: Seq<Seq<u8>>)
    requires
        all_parts(names),
    ensures
        components(slashed(names)) == names,
        components(seq![0x2fu8] + slashed(names)) == seq![seq![0x2fu8]] + names,
{
    lemma_spans_slashed(names);
    let s = seq![0x2fu8] + slashed(names);
    assert(s.subrange(1, s.len() as int) =~= slashed(names));
    lemma_names_found(s, 1, names);
    let c = components(s);
    let wanted = seq![seq![0x2fu8]] + names;
    let sp = spans(s);
    assert(sp == seq![(0int, 1int)] + spans_from(s, 1));
    assert forall|k: int| 0 <= k < wanted.len() implies c[k] == wanted[k] by {
        if k == 0 {
            assert(s.subrange(0, 1) =~= seq![0x2fu8]);
        } else {
            assert(sp[k] == spans_from(s, 1)[k - 1]);
        }
    }
    assert(c =~= wanted);
}

/// A path ends in the name of a file and has what is before it as its directories.
pub proof fn law_file_name(names: Seq<Seq<u8>>)
    requires
        all_parts(names),
        names.len() > 0,
        names.last() != seq![0x2eu8, 0x2eu8],
    ensures
        file_name(slashed(names)) == Some(names.last()),
        parent_components(slashed(names)) == names.drop_last(),
{
    lemma_spans_slashed(names);
    assert(is_part(names[names.len() - 1]));
    if names.last() == seq![0x2fu8] {
        assert(names.last().contains(names.last()[0]));
    }
}

proof fn lemma_slashed_both(a: Seq<Seq<u8>>, b: Seq<Seq<u8>>)
    requires
        a.len() > 0,
        b.len() > 0,
    ensures
        slashed(a + b) == slashed(a).push(0x2f) + slashed(b),
    decreases a.len(),
{
    let all = a + b;
    if a.len() == 1 {
        assert(all.drop_first() =~= b);
        assert(all[0] == a[0]);
    } else {
        let t = a.drop_first();
        lemma_slashed_both(t, b);
        assert(all.drop_first() =~= t + b);
        assert(all[0] == a[0]);
        assert(slashed(all) =~= slashed(a).push(0x2f) + slashed(b));
    }
}

/// What is put behind a directory is what is left of it in front of that directory; a path that is
/// not below a directory has nothing left.
pub proof fn law_relative(dir: Seq<Seq<u8>>, rest: Seq<Seq<u8>>, other: Seq<Seq<u8>>)
    requires
        all_parts(dir),
        all_parts(rest),
        all_parts(other),
        dir.len() > 0,
        rest.len() > 0,
    ensures
        pushed(slashed(dir), slashed(rest)) == slashed(dir + rest),
        joined(slashed(dir), slashed(rest)) == slashed(dir + rest),
        relative_to(slashed(dir), slashed(dir + rest)) == Some(slashed(rest)),
        relative_to(slashed(dir), slashed(dir)) == Some(Seq::<u8>::empty()),
        relative_to(slashed(dir), slashed(other)) is Some <==> other.len() >= dir.len()
            && other.subrange(0, dir.len() as int) == dir,
{
    let all = dir + rest;
    assert forall|k: int| 0 <= k < all.len() implies is_part(#[trigger] all[k]) by {
        if k < dir.len() {
            assert(all[k] == dir[k]);
        } else {
            assert(all[k] == rest[k - dir.len()]);
        }
    }
    lemma_spans_slashed(dir);
    lemma_spans_slashed(all);
    lemma_spans_slashed(other);
    lemma_slashed_both(dir, rest);
    lemma_slashed_start(rest);
    lemma_slashed_start(dir);
    lemma_slash_end(dir);
    let s = slashed(all);
    let n = slashed(dir).len() as int;
    assert(pushed(slashed(dir), slashed(rest)) =~= s);
    assert(joined(slashed(dir), slashed(rest)) =~= s);
    assert(all.subrange(0, dir.len() as int) =~= dir);
    assert(dir.subrange(0, dir.len() as int) =~= dir);
    lemma_span_behind(dir, rest);
    assert(s.subrange(n + 1, s.len() as int) =~= slashed(rest));
}

proof fn lemma_slash_end(names: Seq<Seq<u8>>)
    requires
        all_parts(names),
        names.len() > 0,
    ensures
        slashed(names).len() > 0,
        slashed(names).last() != 0x2f,
    decreases names.len(),
{
    let a = names[0];
    assert(is_part(a));
    if names.len() == 1 {
        assert(a.contains(a.last()));
    } else {
        let t = names.drop_first();
        assert forall|k: int| 0 <= k < t.len() implies is_part(#[trigger] t[k]) by {
            assert(t[k] == names[k + 1]);
        }
        lemma_slash_end(t);
    }
}

proof fn lemma_span_behind(dir: Seq<Seq<u8>>, rest: Seq<Seq<u8>>)
    requires
        all_parts(dir + rest),
        dir.len() > 0,
        rest.len() > 0,
    ensures
        spans(slashed(dir + rest))[dir.len() as int].0 == slashed(dir).len() + 1,
{
    lemma_spans_slashed(dir + rest);
    lemma_slashed_both(dir, rest);
    let s = slashed(dir + rest);
    assert(s.subrange(0, s.len() as int) =~= s);
    lemma_span_at(s, 0, dir, rest);
}

proof fn lemma_span_at(s: Seq<u8>, i: int, dir: Seq<Seq<u8>>, rest: Seq<Seq<u8>>)
    requires
        0 <= i <= s.len(),
        all_parts(dir + rest),
        dir.len() > 0,
        rest.len() > 0,
        s.subrange(i, s.len() as int) == slashed(dir + rest),
    ensures
        spans_from(s, i).len() == dir.len() + rest.len(),
        spans_from(s, i)[dir.len() as int].0 == i + slashed(dir).len() + 1,
    decreases dir.len(),
{
    let names = dir + rest;
    let t = s.subrange(i, s.len() as int);
    lemma_names_found(s, i, names);
    let a = names[0];
    assert(a == dir[0]);
    assert(is_part(a));
    let j = i + a.len();
    let after = names.drop_first();
    assert(t.len() == s.len() - i);
    assert(t[a.len() as int] == 0x2f);
    assert(s[j] == 0x2f);
    assert forall|k: int| i <= k < j implies s[k] != 0x2f by {
        assert(t[k - i] == s[k]);
        assert(t[k - i] == a[k - i]);
        assert(a.contains(a[k - i]));
    }
    lemma_find_from_is(s, 0x2f, i, j);
    if j == i + 1 && s[i] == 0x2e {
        assert(t[0] == s[i] && t[0] == a[0]);
        assert(a =~= seq![0x2eu8]);
    }
    assert(spans_from(s, i) == seq![(i, j)] + spans_from(s, j + 1));
    assert(s.subrange(j + 1, s.len() as int) =~= slashed(after)) by {
        assert forall|k: int| 0 <= k < slashed(after).len() implies s.subrange(
            j + 1,
            s.len() as int,
        )[k] == slashed(after)[k] by {
            assert(t[a.len() + 1 + k] == s[j + 1 + k]);
        }
    }
    assert forall|k: int| 0 <= k < after.len() implies is_part(#[trigger] after[k]) by {
        assert(after[k] == names[k + 1]);
    }
    if dir.len() == 1 {
        assert(after =~= rest);
        lemma_names_found(s, j + 1, rest);
        assert(spans_from(s, i)[1] == spans_from(s, j + 1)[0]);
    } else {
        let d = dir.drop_first();
        assert(after =~= d + rest);
        lemma_span_at(s, j + 1, d, rest);
        assert(spans_from(s, i)[dir.len() as int] == spans_from(s, j + 1)[d.len() as int]);
        assert(slashed(dir).len() == a.len() + 1 + slashed(d).len());
    }
}

} // verus!
