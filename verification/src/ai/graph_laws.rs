//! What the tree of conversations shows: every commit once, as deep as its line of rounds is long.
use crate::ai::history::{
    children, children_of, places, row_of, rows_of, tree_places, GraphRow, Place, RowModel,
};
use crate::ai::reachable::{law_spread_reaches_all, spreads_to};
use crate::object::ObjectSha;
use crate::sorting::{in_order, law_in_order};
use vstd::prelude::*;

verus! {

/// Whether no two rows are of one commit.
pub open spec fn distinct_rows(rows: Seq<RowModel>) -> bool {
    forall|i: int, j: int|
        0 <= i < rows.len() && 0 <= j < rows.len() && i != j ==> (#[trigger] rows[i]).oid != (
        #[trigger] rows[j]).oid
}

/// Whether some rows lead from a root to their last, each the first parent of the next.
pub open spec fn is_line(rows: Seq<RowModel>, p: Seq<int>) -> bool {
    &&& p.len() > 0
    &&& forall|i: int| 0 <= i < p.len() ==> 0 <= #[trigger] p[i] < rows.len()
    &&& rows[p[0]].parent is None
    &&& forall|i: int|
        0 < i < p.len() ==> rows[#[trigger] p[i]].parent == Some(rows[p[i - 1]].oid)
}

/// The parent that the rows behind a line have.
spec fn end_of(rows: Seq<RowModel>, q: Seq<int>) -> Option<ObjectSha> {
    if q.len() == 0 {
        None
    } else {
        Some(rows[q.last()].oid)
    }
}

proof fn lemma_children(rows: Seq<RowModel>, parent: Option<ObjectSha>, n: int)
    requires
        0 <= n <= rows.len(),
    ensures
        forall|i: int|
            0 <= i < children(rows, parent, n).len() ==> 0 <= #[trigger] children(
                rows,
                parent,
                n,
            )[i] < n && rows[children(rows, parent, n)[i]].parent == parent,
        forall|k: int|
            0 <= k < n && (#[trigger] rows[k]).parent == parent ==> children(
                rows,
                parent,
                n,
            ).contains(k),
        forall|i: int, j: int|
            0 <= i < j < children(rows, parent, n).len() ==> #[trigger] children(
                rows,
                parent,
                n,
            )[i] < #[trigger] children(rows, parent, n)[j],
    decreases n,
{
    if n > 0 {
        lemma_children(rows, parent, n - 1);
        let before = children(rows, parent, n - 1);
        let now = children(rows, parent, n);
        assert forall|k: int| 0 <= k < n && (#[trigger] rows[k]).parent == parent implies now.contains(
            k,
        ) by {
            if k < n - 1 {
                assert(before.contains(k));
                let i = choose|i: int| 0 <= i < before.len() && before[i] == k;
                assert(now[i] == k);
            } else {
                assert(now[before.len() as int] == k);
            }
        }
    }
}

proof fn lemma_line_grows(rows: Seq<RowModel>, q: Seq<int>, k: int)
    requires
        q.len() == 0 || is_line(rows, q),
        0 <= k < rows.len(),
        rows[k].parent == end_of(rows, q),
    ensures
        is_line(rows, q.push(k)),
{
    let p = q.push(k);
    assert forall|i: int| 0 <= i < p.len() implies 0 <= #[trigger] p[i] < rows.len() by {
        if i < q.len() {
            assert(p[i] == q[i]);
        }
    }
    assert forall|i: int| 0 < i < p.len() implies rows[#[trigger] p[i]].parent == Some(
        rows[p[i - 1]].oid,
    ) by {
        if i < q.len() {
            assert(p[i] == q[i] && p[i - 1] == q[i - 1]);
        }
    }
    if q.len() > 0 {
        assert(p[0] == q[0]);
    }
}

/// Two lines to one row are the same.
proof fn lemma_one_line(rows: Seq<RowModel>, p: Seq<int>, q: Seq<int>)
    requires
        distinct_rows(rows),
        is_line(rows, p),
        is_line(rows, q),
        p.last() == q.last(),
    ensures
        p == q,
    decreases p.len(),
{
    assert(p[p.len() - 1] == q[q.len() - 1]);
    if p.len() == 1 || q.len() == 1 {
        if p.len() > 1 {
            assert(rows[p[p.len() - 1]].parent == Some(rows[p[p.len() - 1 - 1]].oid));
        }
        if q.len() > 1 {
            assert(rows[q[q.len() - 1]].parent == Some(rows[q[q.len() - 1 - 1]].oid));
        }
        assert(p =~= q);
    } else {
        let a = p.drop_last();
        let b = q.drop_last();
        assert(rows[p[p.len() - 1]].parent == Some(rows[p[p.len() - 1 - 1]].oid));
        assert(rows[q[q.len() - 1]].parent == Some(rows[q[q.len() - 1 - 1]].oid));
        assert(a.last() == p[p.len() - 2] && b.last() == q[q.len() - 2]);
        assert(rows[a.last()].oid == rows[b.last()].oid);
        assert(is_line(rows, a)) by {
            assert forall|i: int| 0 <= i < a.len() implies 0 <= #[trigger] a[i] < rows.len() by {
                assert(a[i] == p[i]);
            }
            assert forall|i: int| 0 < i < a.len() implies rows[#[trigger] a[i]].parent == Some(
                rows[a[i - 1]].oid,
            ) by {
                assert(a[i] == p[i] && a[i - 1] == p[i - 1]);
            }
        }
        assert(is_line(rows, b)) by {
            assert forall|i: int| 0 <= i < b.len() implies 0 <= #[trigger] b[i] < rows.len() by {
                assert(b[i] == q[i]);
            }
            assert forall|i: int| 0 < i < b.len() implies rows[#[trigger] b[i]].parent == Some(
                rows[b[i - 1]].oid,
            ) by {
                assert(b[i] == q[i] && b[i - 1] == q[i - 1]);
            }
        }
        lemma_one_line(rows, a, b);
        assert(p =~= a.push(p.last()));
        assert(q =~= b.push(q.last()));
    }
}

/// A line is no longer than there are rows.
proof fn lemma_line_len(rows: Seq<RowModel>, p: Seq<int>)
    requires
        distinct_rows(rows),
        is_line(rows, p),
    ensures
        p.len() <= rows.len(),
{
    assert forall|i: int, j: int| 0 <= i < j < p.len() implies p[i] != p[j] by {
        if p[i] == p[j] {
            let a = p.subrange(0, i + 1);
            let b = p.subrange(0, j + 1);
            lemma_line_front(rows, p, i + 1);
            lemma_line_front(rows, p, j + 1);
            lemma_one_line(rows, a, b);
        }
    }
    assert(p.no_duplicates());
    p.unique_seq_to_set();
    let all = vstd::set_lib::set_int_range(0, rows.len() as int);
    vstd::set_lib::lemma_int_range(0, rows.len() as int);
    assert(p.to_set().subset_of(all)) by {
        assert forall|x: int| p.to_set().contains(x) implies all.contains(x) by {
            let i = choose|i: int| 0 <= i < p.len() && p[i] == x;
            assert(0 <= p[i] < rows.len());
        }
    }
    vstd::set_lib::lemma_len_subset(p.to_set(), all);
}

proof fn lemma_line_front(rows: Seq<RowModel>, p: Seq<int>, n: int)
    requires
        is_line(rows, p),
        0 < n <= p.len(),
    ensures
        is_line(rows, p.subrange(0, n)),
{
    let a = p.subrange(0, n);
    assert forall|i: int| 0 <= i < a.len() implies 0 <= #[trigger] a[i] < rows.len() by {
        assert(a[i] == p[i]);
    }
    assert forall|i: int| 0 < i < a.len() implies rows[#[trigger] a[i]].parent == Some(
        rows[a[i - 1]].oid,
    ) by {
        assert(a[i] == p[i] && a[i - 1] == p[i - 1]);
    }
}

/// Whether a place stands at the end of a line that begins with the rows of `q` and goes on with
/// one of a list from the `i`-th on.
spec fn fits(rows: Seq<RowModel>, q: Seq<int>, list: Seq<int>, i: int, p: Place) -> bool {
    exists|line: Seq<int>|
        {
            &&& #[trigger] is_line(rows, line)
            &&& line.last() == p.at
            &&& line.len() == p.round
            &&& line.len() > q.len()
            &&& line.subrange(0, q.len() as int) == q
            &&& list.subrange(i, list.len() as int).contains(line[q.len() as int])
        }
}

/// Every place stands at the end of a line, as deep as that is long.
proof fn lemma_places_fit(
    rows: Seq<RowModel>,
    q: Seq<int>,
    i: int,
    prefix: Seq<char>,
    left: nat,
    j: int,
)
    requires
        q.len() == 0 || is_line(rows, q),
        0 <= i,
        0 <= j < places(
            rows,
            children_of(rows, end_of(rows, q)),
            i,
            prefix,
            q.len() + 1,
            left,
        ).len(),
    ensures
        fits(
            rows,
            q,
            children_of(rows, end_of(rows, q)),
            i,
            places(rows, children_of(rows, end_of(rows, q)), i, prefix, q.len() + 1, left)[j],
        ),
    decreases left, children_of(rows, end_of(rows, q)).len() - i,
{
    let list = children_of(rows, end_of(rows, q));
    let ps = places(rows, list, i, prefix, q.len() + 1, left);
    lemma_children(rows, end_of(rows, q), rows.len() as int);
    let at = list[i];
    let last = i + 1 == list.len();
    let inner = crate::ai::history::below_prefix(prefix, last);
    let here = Place { at, prefix, last, round: q.len() + 1 };
    let r = q.push(at);
    lemma_line_grows(rows, q, at);
    let below = places(
        rows,
        children_of(rows, Some(rows[at].oid)),
        0,
        inner,
        q.len() + 2,
        (left - 1) as nat,
    );
    let after = places(rows, list, i + 1, prefix, q.len() + 1, left);
    assert(ps == seq![here] + below + after);
    let rest = list.subrange(i, list.len() as int);
    assert(rest[0] == at);
    if j == 0 {
        assert(r.subrange(0, q.len() as int) =~= q);
        assert(is_line(rows, r) && r.last() == ps[j].at);
    } else if j < 1 + below.len() {
        assert(ps[j] == below[j - 1]);
        assert(end_of(rows, r) == Some(rows[at].oid));
        lemma_places_fit(rows, r, 0, inner, (left - 1) as nat, j - 1);
        let line = choose|line: Seq<int>|
            {
                &&& #[trigger] is_line(rows, line)
                &&& line.last() == ps[j].at
                &&& line.len() == ps[j].round
                &&& line.len() > r.len()
                &&& line.subrange(0, r.len() as int) == r
                &&& children_of(rows, end_of(rows, r)).subrange(
                    0,
                    children_of(rows, end_of(rows, r)).len() as int,
                ).contains(line[r.len() as int])
            };
        assert(line.subrange(0, q.len() as int) =~= q) by {
            assert forall|x: int| 0 <= x < q.len() implies line[x] == q[x] by {
                assert(line.subrange(0, r.len() as int)[x] == r[x]);
            }
        }
        assert(line.subrange(0, r.len() as int)[q.len() as int] == at);
        assert(line[q.len() as int] == at);
    } else {
        assert(ps[j] == after[j - 1 - below.len()]);
        lemma_places_fit(rows, q, i + 1, prefix, left, j - 1 - below.len());
        let rest2 = list.subrange(i + 1, list.len() as int);
        let line = choose|line: Seq<int>|
            {
                &&& #[trigger] is_line(rows, line)
                &&& line.last() == ps[j].at
                &&& line.len() == ps[j].round
                &&& line.len() > q.len()
                &&& line.subrange(0, q.len() as int) == q
                &&& rest2.contains(line[q.len() as int])
            };
        let x = choose|x: int| 0 <= x < rest2.len() && rest2[x] == line[q.len() as int];
        assert(rest[x + 1] == line[q.len() as int]);
    }
}

/// No row stands in two places.
proof fn lemma_places_distinct(
    rows: Seq<RowModel>,
    q: Seq<int>,
    i: int,
    prefix: Seq<char>,
    left: nat,
    a: int,
    b: int,
)
    requires
        distinct_rows(rows),
        q.len() == 0 || is_line(rows, q),
        0 <= i,
        0 <= a < b < places(
            rows,
            children_of(rows, end_of(rows, q)),
            i,
            prefix,
            q.len() + 1,
            left,
        ).len(),
    ensures
        places(rows, children_of(rows, end_of(rows, q)), i, prefix, q.len() + 1, left)[a].at
            != places(rows, children_of(rows, end_of(rows, q)), i, prefix, q.len() + 1, left)[b].at,
    decreases left, children_of(rows, end_of(rows, q)).len() - i,
{
    let list = children_of(rows, end_of(rows, q));
    let ps = places(rows, list, i, prefix, q.len() + 1, left);
    lemma_children(rows, end_of(rows, q), rows.len() as int);
    let at = list[i];
    let last = i + 1 == list.len();
    let inner = crate::ai::history::below_prefix(prefix, last);
    let here = Place { at, prefix, last, round: q.len() + 1 };
    let r = q.push(at);
    lemma_line_grows(rows, q, at);
    let below = places(
        rows,
        children_of(rows, Some(rows[at].oid)),
        0,
        inner,
        q.len() + 2,
        (left - 1) as nat,
    );
    let after = places(rows, list, i + 1, prefix, q.len() + 1, left);
    assert(ps == seq![here] + below + after);
    assert(end_of(rows, r) == Some(rows[at].oid));
    if 0 < a && b < 1 + below.len() {
        assert(ps[a] == below[a - 1] && ps[b] == below[b - 1]);
        lemma_places_distinct(rows, r, 0, inner, (left - 1) as nat, a - 1, b - 1);
    } else if a >= 1 + below.len() {
        assert(ps[a] == after[a - 1 - below.len()] && ps[b] == after[b - 1 - below.len()]);
        lemma_places_distinct(
            rows,
            q,
            i + 1,
            prefix,
            left,
            a - 1 - below.len(),
            b - 1 - below.len(),
        );
    } else if ps[a].at == ps[b].at {
        // The place `a` stands at the end of a line through `at`.
        let la = if a == 0 {
            r
        } else {
            assert(ps[a] == below[a - 1]);
            lemma_places_fit(rows, r, 0, inner, (left - 1) as nat, a - 1);
            choose|line: Seq<int>|
                {
                    &&& #[trigger] is_line(rows, line)
                    &&& line.last() == ps[a].at
                    &&& line.len() == ps[a].round
                    &&& line.len() > r.len()
                    &&& line.subrange(0, r.len() as int) == r
                    &&& children_of(rows, end_of(rows, r)).subrange(
                        0,
                        children_of(rows, end_of(rows, r)).len() as int,
                    ).contains(line[r.len() as int])
                }
        };
        assert(is_line(rows, la) && la.last() == ps[a].at && la.subrange(0, r.len() as int) =~= r);
        assert(la.subrange(0, r.len() as int)[q.len() as int] == at);
        assert(la[q.len() as int] == at);
        if b < 1 + below.len() {
            assert(ps[b] == below[b - 1]);
            lemma_places_fit(rows, r, 0, inner, (left - 1) as nat, b - 1);
            let lb = choose|line: Seq<int>|
                {
                    &&& #[trigger] is_line(rows, line)
                    &&& line.last() == ps[b].at
                    &&& line.len() == ps[b].round
                    &&& line.len() > r.len()
                    &&& line.subrange(0, r.len() as int) == r
                    &&& children_of(rows, end_of(rows, r)).subrange(
                        0,
                        children_of(rows, end_of(rows, r)).len() as int,
                    ).contains(line[r.len() as int])
                };
            lemma_one_line(rows, la, lb);
        } else {
            assert(ps[b] == after[b - 1 - below.len()]);
            lemma_places_fit(rows, q, i + 1, prefix, left, b - 1 - below.len());
            let rest2 = list.subrange(i + 1, list.len() as int);
            let lb = choose|line: Seq<int>|
                {
                    &&& #[trigger] is_line(rows, line)
                    &&& line.last() == ps[b].at
                    &&& line.len() == ps[b].round
                    &&& line.len() > q.len()
                    &&& line.subrange(0, q.len() as int) == q
                    &&& rest2.contains(line[q.len() as int])
                };
            lemma_one_line(rows, la, lb);
            let x = choose|x: int| 0 <= x < rest2.len() && rest2[x] == at;
            assert(list[i + 1 + x] == at);
            assert(list[i] < list[i + 1 + x]);
        }
    }
}

/// Whether a row stands somewhere, as deep as given.
spec fn stands(ps: Seq<Place>, at: int, round: nat) -> bool {
    exists|j: int| 0 <= j < ps.len() && (#[trigger] ps[j]).at == at && ps[j].round == round
}

/// Where a line goes on through the list, its end stands among the places.
proof fn lemma_line_stands(
    rows: Seq<RowModel>,
    p: Seq<int>,
    n: int,
    i: int,
    prefix: Seq<char>,
    left: nat,
)
    requires
        is_line(rows, p),
        0 <= n < p.len(),
        left >= p.len() - n,
        0 <= i,
        children_of(rows, end_of(rows, p.subrange(0, n))).subrange(
            i,
            children_of(rows, end_of(rows, p.subrange(0, n))).len() as int,
        ).contains(p[n]),
        i <= children_of(rows, end_of(rows, p.subrange(0, n))).len(),
    ensures
        stands(
            places(
                rows,
                children_of(rows, end_of(rows, p.subrange(0, n))),
                i,
                prefix,
                (n + 1) as nat,
                left,
            ),
            p.last(),
            p.len(),
        ),
    decreases left, children_of(rows, end_of(rows, p.subrange(0, n))).len() - i,
{
    let q = p.subrange(0, n);
    let list = children_of(rows, end_of(rows, q));
    let rest = list.subrange(i, list.len() as int);
    let x = choose|x: int| 0 <= x < rest.len() && rest[x] == p[n];
    let ps = places(rows, list, i, prefix, (n + 1) as nat, left);
    let at = list[i];
    let last = i + 1 == list.len();
    let inner = crate::ai::history::below_prefix(prefix, last);
    let here = Place { at, prefix, last, round: (n + 1) as nat };
    let kids = children_of(rows, Some(rows[at].oid));
    let below = places(rows, kids, 0, inner, (n + 2) as nat, (left - 1) as nat);
    let after = places(rows, list, i + 1, prefix, (n + 1) as nat, left);
    assert(ps == seq![here] + below + after);
    if x == 0 {
        assert(at == p[n]);
        if n + 1 == p.len() {
            assert(ps[0] == here);
        } else {
            let r = p.subrange(0, n + 1);
            assert(r.last() == at);
            assert(end_of(rows, r) == Some(rows[at].oid));
            assert(rows[p[n + 1]].parent == Some(rows[p[n + 1 - 1]].oid));
            lemma_children(rows, Some(rows[at].oid), rows.len() as int);
            assert(kids.contains(p[n + 1]));
            assert(kids.subrange(0, kids.len() as int) =~= kids);
            lemma_line_stands(rows, p, n + 1, 0, inner, (left - 1) as nat);
            let j = choose|j: int|
                0 <= j < below.len() && (#[trigger] below[j]).at == p.last() && below[j].round
                    == p.len();
            assert(ps[j + 1] == below[j]);
        }
    } else {
        let rest2 = list.subrange(i + 1, list.len() as int);
        assert(rest2[x - 1] == p[n]);
        lemma_line_stands(rows, p, n, i + 1, prefix, left);
        let j = choose|j: int|
            0 <= j < after.len() && (#[trigger] after[j]).at == p.last() && after[j].round
                == p.len();
        assert(ps[j + 1 + below.len()] == after[j]);
    }
}

/// The tree shows every row that a line from a root leads to, as deep as the line is long.
pub proof fn law_tree_is_complete(rows: Seq<RowModel>, p: Seq<int>)
    requires
        distinct_rows(rows),
        is_line(rows, p),
    ensures
        exists|j: int|
            0 <= j < tree_places(rows).len() && (#[trigger] tree_places(rows)[j]).at == p.last()
                && tree_places(rows)[j].round == p.len(),
{
    lemma_line_len(rows, p);
    let list = children_of(rows, None);
    assert(p.subrange(0, 0).len() == 0);
    lemma_children(rows, None, rows.len() as int);
    assert(list.contains(p[0]));
    assert(list.subrange(0, list.len() as int) =~= list);
    lemma_line_stands(rows, p, 0, 0, Seq::empty(), rows.len());
    assert(stands(tree_places(rows), p.last(), p.len()));
}

/// The tree shows nothing else: every place stands at the end of a line from a root, as deep as the
/// line is long, and no row is shown twice.
pub proof fn law_tree_is_sound(rows: Seq<RowModel>, a: int, b: int)
    requires
        distinct_rows(rows),
        0 <= a < b < tree_places(rows).len(),
    ensures
        tree_places(rows)[a].at != tree_places(rows)[b].at,
        exists|line: Seq<int>| #[trigger]
            is_line(rows, line) && line.last() == tree_places(rows)[a].at && line.len()
                == tree_places(rows)[a].round,
        exists|line: Seq<int>| #[trigger]
            is_line(rows, line) && line.last() == tree_places(rows)[b].at && line.len()
                == tree_places(rows)[b].round,
{
    let q = Seq::<int>::empty();
    assert(end_of(rows, q) is None);
    lemma_places_distinct(rows, q, 0, Seq::empty(), rows.len(), a, b);
    lemma_places_fit(rows, q, 0, Seq::empty(), rows.len(), a);
    lemma_places_fit(rows, q, 0, Seq::empty(), rows.len(), b);
}

/// No two rows of the tree are of one commit.
pub proof fn law_rows_distinct(
    db: Map<ObjectSha, Seq<u8>>,
    tips: Seq<ObjectSha>,
    found: Seq<ObjectSha>,
)
    requires
        spreads_to(db, tips, Ok(found)),
    ensures
        distinct_rows(in_order::<GraphRow>(rows_of(db, found))),
{
    law_spread_reaches_all(db, tips, found);
    let s = rows_of(db, found);
    let r = in_order::<GraphRow>(s);
    law_in_order::<GraphRow>(s);
    s.to_multiset_ensures();
    r.to_multiset_ensures();
    assert(s.no_duplicates()) by {
        assert forall|i: int, j: int| 0 <= i < s.len() && 0 <= j < s.len() && i != j implies s[i]
            != s[j] by {
            assert(found[i] != found[j]);
        }
    }
    s.lemma_multiset_has_no_duplicates();
    r.lemma_multiset_has_no_duplicates_conv();
    assert forall|i: int, j: int| 0 <= i < r.len() && 0 <= j < r.len() && i != j implies (
    #[trigger] r[i]).oid != (#[trigger] r[j]).oid by {
        assert(r[i] != r[j]);
        assert(r.contains(r[i]) && r.contains(r[j]));
        assert(s.to_multiset().contains(r[i]) && s.to_multiset().contains(r[j]));
        assert(s.contains(r[i]) && s.contains(r[j]));
        let x = choose|x: int| 0 <= x < s.len() && s[x] == r[i];
        let y = choose|y: int| 0 <= y < s.len() && s[y] == r[j];
        assert(row_of(db, found[x]) == r[i] && row_of(db, found[y]) == r[j]);
        assert(r[i].oid == found[x] && r[j].oid == found[y]);
        if found[x] == found[y] {
            assert(r[i] == r[j]);
        }
    }
}

} // verus!
