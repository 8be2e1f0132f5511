//! What trimming and splitting keep of a text, and which files `.gitignore` names.
use crate::bytes::{contains_run, find_from, lemma_find_from, lemma_find_from_is, starts_with};
use crate::ignore::{ignored, names_file, patterns_in, text_or_empty, RulesModel};
use crate::picking::{lemma_picked_none, lemma_picked_push, picked};
use crate::text::{
    first_solid, is_space, lemma_trim_all_space, lemma_word_len_is, lines, split, strip_cr, trim, trim_end, trim_start,
    words,
};
use crate::unix_path::{file_name, relative_to};
use vstd::prelude::*;

verus! {

/// Whether all of these characters are white space.
pub open spec fn all_space(s: Seq<char>) -> bool {
    forall|i: int| 0 <= i < s.len() ==> is_space(#[trigger] s[i])
}

/// Trimming the start takes off the white space there and no more.
pub proof fn law_trim_start(s: Seq<char>)
    ensures
        exists|a: Seq<char>| s == a + trim_start(s) && #[trigger] all_space(a),
        trim_start(s).len() > 0 ==> !is_space(trim_start(s)[0]),
    decreases s.len(),
{
    if s.len() > 0 && is_space(s[0]) {
        let t = s.drop_first();
        law_trim_start(t);
        let a = choose|a: Seq<char>| t == a + trim_start(t) && #[trigger] all_space(a);
        let b = seq![s[0]] + a;
        assert forall|i: int| 0 <= i < b.len() implies is_space(#[trigger] b[i]) by {
            if i > 0 {
                assert(b[i] == a[i - 1]);
            }
        }
        assert(all_space(b));
        assert(s =~= seq![s[0]] + t);
        assert(s =~= b + trim_start(s));
    } else {
        let a = Seq::<char>::empty();
        assert(all_space(a));
        assert(s =~= a + trim_start(s));
    }
}

/// Trimming the end takes off the white space there and no more.
pub proof fn law_trim_end(s: Seq<char>)
    ensures
        exists|b: Seq<char>| s == trim_end(s) + b && #[trigger] all_space(b),
        trim_end(s).len() > 0 ==> !is_space(trim_end(s).last()),
    decreases s.len(),
{
    if s.len() > 0 && is_space(s.last()) {
        let t = s.drop_last();
        law_trim_end(t);
        let b = choose|b: Seq<char>| t == trim_end(t) + b && #[trigger] all_space(b);
        let c = b.push(s.last());
        assert forall|i: int| 0 <= i < c.len() implies is_space(#[trigger] c[i]) by {
            if i < b.len() {
                assert(c[i] == b[i]);
            }
        }
        assert(all_space(c));
        assert(s =~= t.push(s.last()));
        assert(s =~= trim_end(s) + c);
    } else {
        let b = Seq::<char>::empty();
        assert(all_space(b));
        assert(s =~= trim_end(s) + b);
    }
}

/// Trimming takes off the white space on both sides and no more.
pub proof fn law_trim(s: Seq<char>)
    ensures
        exists|a: Seq<char>, b: Seq<char>|
            s == a + trim(s) + b && #[trigger] all_space(a) && #[trigger] all_space(b),
        trim(s).len() > 0 ==> !is_space(trim(s)[0]) && !is_space(trim(s).last()),
{
    law_trim_start(s);
    let t = trim_start(s);
    law_trim_end(t);
    let a = choose|a: Seq<char>| s == a + t && #[trigger] all_space(a);
    let b = choose|b: Seq<char>| t == trim_end(t) + b && #[trigger] all_space(b);
    assert(s =~= a + trim(s) + b);
    assert(all_space(a) && all_space(b));
    if trim(s).len() > 0 {
        assert(t[0] == trim(s)[0]);
    }
}

/// The parts with `c` between them.
pub open spec fn glued(parts: Seq<Seq<char>>, c: char) -> Seq<char>
    decreases parts.len(),
{
    if parts.len() == 0 {
        Seq::empty()
    } else if parts.len() == 1 {
        parts[0]
    } else {
        parts[0].push(c) + glued(parts.drop_first(), c)
    }
}

/// A text is split into at least one part; no part holds the separator, and with it between them
/// the parts make up the text.
pub proof fn law_split(s: Seq<char>, c: char)
    ensures
        split(s, c).len() > 0,
        glued(split(s, c), c) == s,
        forall|k: int| 0 <= k < split(s, c).len() ==> !(#[trigger] split(s, c)[k]).contains(c),
    decreases s.len(),
{
    lemma_find_from(s, c, 0);
    let i = find_from(s, c, 0);
    if i < s.len() {
        let rest = s.subrange(i + 1, s.len() as int);
        law_split(rest, c);
        let all = split(s, c);
        let front = s.subrange(0, i);
        assert(all =~= seq![front] + split(rest, c));
        assert(all.drop_first() =~= split(rest, c));
        assert(s =~= front.push(c) + rest);
        assert forall|k: int| 0 <= k < all.len() implies !(#[trigger] all[k]).contains(c) by {
            if k > 0 {
                assert(all[k] == split(rest, c)[k - 1]);
            } else {
                assert(forall|j: int| 0 <= j < front.len() ==> front[j] == s[j]);
            }
        }
    }
}

/// Lines one behind the other, each with its end: a carriage return where there is one, and a line
/// feed.
pub open spec fn ended(ls: Seq<Seq<char>>, crs: Seq<bool>) -> Seq<char>
    decreases ls.len(),
{
    if ls.len() == 0 {
        Seq::empty()
    } else {
        (if crs[0] {
            ls[0].push('\r').push('\n')
        } else {
            ls[0].push('\n')
        }) + ended(ls.drop_first(), crs.drop_first())
    }
}

/// The lines of a text are read without their ends; a last line may lack its end.
pub proof fn law_lines(ls: Seq<Seq<char>>, crs: Seq<bool>, tail: Seq<char>)
    requires
        crs.len() == ls.len(),
        forall|k: int| 0 <= k < ls.len() ==> !(#[trigger] ls[k]).contains('\n'),
        forall|k: int|
            0 <= k < ls.len() && (#[trigger] ls[k]).len() > 0 && ls[k].last() == '\r'
                ==> crs[k],
        !tail.contains('\n'),
    ensures
        lines(ended(ls, crs) + tail) == (if tail.len() > 0 {
            ls.push(tail)
        } else {
            ls
        }),
    decreases ls.len(),
{
    let s = ended(ls, crs) + tail;
    if ls.len() == 0 {
        assert(s =~= tail);
        assert forall|i: int| 0 <= i < s.len() implies s[i] != '\n' by {
            assert(tail.contains(tail[i]));
        }
        lemma_find_from_is(s, '\n', 0, s.len() as int);
        if tail.len() > 0 {
            assert(seq![s] =~= ls.push(tail));
        } else {
            assert(lines(s) =~= ls);
        }
    } else {
        let rest = ls.drop_first();
        let more_crs = crs.drop_first();
        assert forall|k: int| 0 <= k < rest.len() implies !(#[trigger] rest[k]).contains('\n') by {
            assert(rest[k] == ls[k + 1]);
        }
        assert forall|k: int|
            0 <= k < rest.len() && (#[trigger] rest[k]).len() > 0 && rest[k].last()
                == '\r' implies more_crs[k] by {
            assert(rest[k] == ls[k + 1]);
        }
        law_lines(rest, more_crs, tail);
        let one = if crs[0] {
            ls[0].push('\r')
        } else {
            ls[0]
        };
        let n = one.len() as int;
        let more = ended(rest, more_crs) + tail;
        assert(s =~= one.push('\n') + more);
        assert forall|i: int| 0 <= i < n implies s[i] != '\n' by {
            if i < ls[0].len() {
                assert(s[i] == ls[0][i]);
                assert(ls[0].contains(ls[0][i]));
            } else {
                assert(s[i] == '\r');
            }
        }
        assert(s[n] == '\n');
        lemma_find_from_is(s, '\n', 0, n);
        assert(s.subrange(0, n) =~= one);
        assert(s.subrange(n + 1, s.len() as int) =~= more);
        assert(strip_cr(one) =~= ls[0]) by {
            if crs[0] {
                assert(one.drop_last() =~= ls[0]);
            }
        }
        assert(lines(s) == seq![ls[0]] + lines(more));
        if tail.len() > 0 {
            assert(seq![ls[0]] + rest.push(tail) =~= ls.push(tail));
        } else {
            assert(seq![ls[0]] + rest =~= ls);
        }
    }
}

/// White space holds no word.
pub proof fn law_no_words(s: Seq<char>)
    requires
        all_space(s),
    ensures
        words(s) == Seq::<Seq<char>>::empty(),
{
    lemma_trim_all_space(s);
}

proof fn lemma_start_after(a: Seq<char>, s: Seq<char>)
    requires
        all_space(a),
        s.len() > 0,
        !is_space(s[0]),
    ensures
        trim_start(a + s) == s,
    decreases a.len(),
{
    let t = a + s;
    if a.len() == 0 {
        assert(t =~= s);
    } else {
        let b = a.drop_first();
        assert forall|i: int| 0 <= i < b.len() implies is_space(#[trigger] b[i]) by {
            assert(b[i] == a[i + 1]);
        }
        lemma_start_after(b, s);
        assert(t[0] == a[0]);
        assert(t.drop_first() =~= b + s);
    }
}

/// The words of a text are what stands between its white space, in order.
pub proof fn law_words(a: Seq<char>, w: Seq<char>, rest: Seq<char>)
    requires
        all_space(a),
        w.len() > 0,
        forall|i: int| 0 <= i < w.len() ==> !is_space(#[trigger] w[i]),
        rest.len() > 0 ==> is_space(rest[0]),
    ensures
        words(a + w + rest) == seq![w] + words(rest),
{
    let t = w + rest;
    assert(t[0] == w[0]);
    lemma_start_after(a, t);
    assert(a + w + rest =~= a + t);
    assert forall|i: int| 0 <= i < w.len() implies !is_space(#[trigger] t[i]) by {
        assert(t[i] == w[i]);
    }
    if rest.len() > 0 {
        assert(t[w.len() as int] == rest[0]);
    }
    lemma_word_len_is(t, w.len() as int);
    assert(t.subrange(0, w.len() as int) =~= w);
    assert(t.subrange(w.len() as int, t.len() as int) =~= rest);
}

proof fn lemma_solid(s: Seq<char>)
    requires
        !all_space(s),
    ensures
        trim(s).len() > 0,
{
    law_trim(s);
    if trim(s).len() == 0 {
        let (a, b) = choose|a: Seq<char>, b: Seq<char>|
            s == a + trim(s) + b && #[trigger] all_space(a) && #[trigger] all_space(b);
        assert forall|i: int| 0 <= i < s.len() implies is_space(#[trigger] s[i]) by {
            if i < a.len() {
                assert(s[i] == a[i]);
            } else {
                assert(s[i] == b[i - a.len()]);
            }
        }
        assert(all_space(s));
    }
}

/// The first line that is not blank is the first of which trimming leaves something.
pub proof fn law_first_solid(ls: Seq<Seq<char>>, k: int)
    requires
        0 <= k <= ls.len(),
        forall|i: int| 0 <= i < k ==> all_space(#[trigger] ls[i]),
        k < ls.len() ==> !all_space(ls[k]),
    ensures
        first_solid(ls) == (if k < ls.len() {
            Some(trim(ls[k]))
        } else {
            None::<Seq<char>>
        }),
    decreases k,
{
    if k > 0 {
        lemma_trim_all_space(ls[0]);
        let t = ls.drop_first();
        assert forall|i: int| 0 <= i < k - 1 implies all_space(#[trigger] t[i]) by {
            assert(t[i] == ls[i + 1]);
        }
        law_first_solid(t, k - 1);
    } else if k < ls.len() {
        lemma_solid(ls[0]);
    }
}

/// The pattern of a line of `.gitignore`, if it is one: not blank, and no comment.
pub open spec fn pattern_of(line: Seq<char>) -> Option<Seq<char>> {
    if all_space(line) || trim(line)[0] == '#' {
        None
    } else {
        Some(trim(line))
    }
}

/// The patterns of `.gitignore` are those of all its lines, in order.
pub proof fn law_patterns_told(ls: Seq<Seq<char>>)
    ensures
        picked(patterns_in(ls), Seq::new(ls.len(), |i: int| pattern_of(ls[i]))),
    decreases ls.len(),
{
    let wanted = Seq::new(ls.len(), |i: int| pattern_of(ls[i]));
    if ls.len() == 0 {
        lemma_picked_none::<Seq<char>>();
        assert(wanted =~= Seq::empty());
    } else {
        let t = ls.drop_last();
        law_patterns_told(t);
        let before = Seq::new(t.len(), |i: int| pattern_of(t[i]));
        let l = ls[ls.len() - 1];
        lemma_picked_push(patterns_in(t), before, pattern_of(l));
        assert(wanted =~= before.push(pattern_of(l)));
        if all_space(l) {
            lemma_trim_all_space(l);
        } else {
            lemma_solid(l);
        }
    }
}

/// Whether `part` stands in `s` from `at` on.
pub open spec fn stands_from(s: Seq<char>, part: Seq<char>, at: int) -> bool {
    0 <= at <= s.len() - part.len() && s.subrange(at, at + part.len()) == part
}

/// Whether a pattern names a file: the path holds it, or the name is it; it is `*` before the end of
/// the name, or behind the start of it; or it is the path with a slash at the end.
pub open spec fn is_named(p: Seq<char>, rel: Seq<char>, name: Seq<char>) -> bool {
    let n = p.len() - 1;
    ||| exists|at: int| stands_from(rel, p, at)
    ||| name == p
    ||| n > 0 && p[0] == '*' && stands_from(name, p.subrange(1, n + 1), name.len() - n)
    ||| n > 0 && p[n] == '*' && stands_from(name, p.subrange(0, n), 0)
    ||| n >= 0 && p == rel.push('/')
}

proof fn lemma_named(p: Seq<char>, rel: Seq<char>, name: Seq<char>)
    ensures
        names_file(p, rel, name) == is_named(p, rel, name),
{
    let n = p.len() - 1;
    if n >= 0 {
        assert(p.drop_last() =~= p.subrange(0, n));
        assert(p =~= p.drop_last().push(p.last()));
        assert(rel.push('/').drop_last() =~= rel);
    }
    if contains_run(rel, p) {
        let i = choose|i: int|
            0 <= i && i + p.len() <= rel.len() && #[trigger] rel.subrange(i, i + p.len()) == p;
        assert(stands_from(rel, p, i));
    }
    if exists|at: int| stands_from(rel, p, at) {
        let at = choose|at: int| stands_from(rel, p, at);
        assert(rel.subrange(at, at + p.len()) == p);
        assert(contains_run(rel, p));
    }
    if rel == p || starts_with(rel, p) {
        assert(rel.subrange(0, p.len() as int) =~= p);
        assert(stands_from(rel, p, 0));
    }
}

/// A file below the worktree is ignored just where some pattern names it, and no other file is.
pub proof fn law_ignored(rules: RulesModel, file_path: Seq<u8>)
    ensures
        ignored(rules, file_path) <==> exists|k: int|
            0 <= k < rules.patterns.len() && relative_to(rules.worktree, file_path) is Some
                && is_named(
                #[trigger] rules.patterns[k],
                text_or_empty(relative_to(rules.worktree, file_path)),
                text_or_empty(file_name(file_path)),
            ),
{
    let rel = text_or_empty(relative_to(rules.worktree, file_path));
    let name = text_or_empty(file_name(file_path));
    assert forall|k: int| 0 <= k < rules.patterns.len() implies names_file(
        #[trigger] rules.patterns[k],
        rel,
        name,
    ) == is_named(rules.patterns[k], rel, name) by {
        lemma_named(rules.patterns[k], rel, name);
    }
}

} // verus!
