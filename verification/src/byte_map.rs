//! A map from byte strings to values, kept in dictionary order of its keys.
use crate::bytes::{
    bytes_lt, copy_bytes, lemma_lex_asymmetric, lemma_lex_irreflexive, lemma_lex_total,
    lemma_lex_transitive, lex_lt, same_bytes,
};
use vstd::prelude::*;

verus! {

/// Whether the keys of the pairs strictly ascend in dictionary order.
pub open spec fn ascending<V>(s: Seq<(Seq<u8>, V)>) -> bool {
    forall|i: int, j: int| 0 <= i < j < s.len() ==> lex_lt(#[trigger] s[i].0, #[trigger] s[j].0)
}

/// How many of the keys come before `k`, when the keys ascend.
pub open spec fn rank<V>(s: Seq<(Seq<u8>, V)>, k: Seq<u8>) -> int
    decreases s.len(),
{
    if s.len() == 0 || !lex_lt(s[0].0, k) {
        0
    } else {
        1 + rank(s.drop_first(), k)
    }
}

/// Whether some pair has the key `k`.
pub open spec fn has_key<V>(s: Seq<(Seq<u8>, V)>, k: Seq<u8>) -> bool {
    exists|i: int| 0 <= i < s.len() && (#[trigger] s[i]).0 == k
}

/// The value of key `k`.
pub open spec fn lookup<V>(s: Seq<(Seq<u8>, V)>, k: Seq<u8>) -> Option<V> {
    let r = rank(s, k);
    if 0 <= r < s.len() && s[r].0 == k {
        Some(s[r].1)
    } else {
        None
    }
}

/// The pairs with `k` bound to `v`, in place of what it was bound to before.
pub open spec fn bind<V>(s: Seq<(Seq<u8>, V)>, k: Seq<u8>, v: V) -> Seq<(Seq<u8>, V)> {
    let r = rank(s, k);
    if 0 <= r < s.len() && s[r].0 == k {
        s.update(r, (k, v))
    } else {
        s.insert(r, (k, v))
    }
}

/// The pairs without the one for `k`.
pub open spec fn unbind<V>(s: Seq<(Seq<u8>, V)>, k: Seq<u8>) -> Seq<(Seq<u8>, V)> {
    let r = rank(s, k);
    if 0 <= r < s.len() && s[r].0 == k {
        s.remove(r)
    } else {
        s
    }
}

/// `rank` parts the ascending keys into those before `k` and the others.
pub proof fn lemma_rank<V>(s: Seq<(Seq<u8>, V)>, k: Seq<u8>)
    requires
        ascending(s),
    ensures
        0 <= rank(s, k) <= s.len(),
        forall|i: int| 0 <= i < rank(s, k) ==> lex_lt((#[trigger] s[i]).0, k),
        forall|i: int| rank(s, k) <= i < s.len() ==> !lex_lt((#[trigger] s[i]).0, k),
    decreases s.len(),
{
    if s.len() > 0 {
        let t = s.drop_first();
        assert forall|i: int, j: int| 0 <= i < j < t.len() implies lex_lt(
            #[trigger] t[i].0,
            #[trigger] t[j].0,
        ) by {
            assert(t[i] == s[i + 1] && t[j] == s[j + 1]);
        }
        if lex_lt(s[0].0, k) {
            lemma_rank(t, k);
            assert forall|i: int| 0 <= i < rank(s, k) implies lex_lt((#[trigger] s[i]).0, k) by {
                if i > 0 {
                    assert(s[i] == t[i - 1]);
                }
            }
            assert forall|i: int| rank(s, k) <= i < s.len() implies !lex_lt(
                (#[trigger] s[i]).0,
                k,
            ) by {
                assert(s[i] == t[i - 1]);
            }
        } else {
            assert forall|i: int| 0 <= i < s.len() implies !lex_lt((#[trigger] s[i]).0, k) by {
                if i > 0 && lex_lt(s[i].0, k) {
                    lemma_lex_transitive(s[0].0, s[i].0, k);
                }
            }
        }
    }
}

/// `rank` is pinned down by what `lemma_rank` says of it.
pub proof fn lemma_rank_is<V>(s: Seq<(Seq<u8>, V)>, k: Seq<u8>, r: int)
    requires
        0 <= r <= s.len(),
        forall|i: int| 0 <= i < r ==> lex_lt((#[trigger] s[i]).0, k),
        r < s.len() ==> !lex_lt(s[r].0, k),
    ensures
        rank(s, k) == r,
    decreases r,
{
    if r > 0 {
        let t = s.drop_first();
        assert forall|i: int| 0 <= i < r - 1 implies lex_lt((#[trigger] t[i]).0, k) by {
            assert(t[i] == s[i + 1]);
        }
        assert(lex_lt(s[0].0, k));
        lemma_rank_is(t, k, r - 1);
    }
}

/// A key that some pair has is the one at its rank.
pub proof fn lemma_lookup_at<V>(s: Seq<(Seq<u8>, V)>, i: int)
    requires
        ascending(s),
        0 <= i < s.len(),
    ensures
        rank(s, s[i].0) == i,
        lookup(s, s[i].0) == Some(s[i].1),
{
    lemma_lex_irreflexive(s[i].0);
    lemma_rank_is(s, s[i].0, i);
}

/// A key is bound where some pair has it.
pub proof fn lemma_lookup_has_key<V>(s: Seq<(Seq<u8>, V)>, k: Seq<u8>)
    requires
        ascending(s),
    ensures
        lookup(s, k) is Some <==> has_key(s, k),
{
    if has_key(s, k) {
        let i = choose|i: int| 0 <= i < s.len() && (#[trigger] s[i]).0 == k;
        lemma_lookup_at(s, i);
    }
    if lookup(s, k) is Some {
        assert(s[rank(s, k)].0 == k);
    }
}

/// Binding a key keeps the order, binds that key, and leaves every other as it was.
pub proof fn lemma_bind<V>(s: Seq<(Seq<u8>, V)>, k: Seq<u8>, v: V)
    requires
        ascending(s),
    ensures
        ascending(bind(s, k, v)),
        lookup(bind(s, k, v), k) == Some(v),
        forall|q: Seq<u8>| q != k ==> #[trigger] lookup(bind(s, k, v), q) == lookup(s, q),
{
    let r = rank(s, k);
    let t = bind(s, k, v);
    lemma_rank(s, k);
    if r < s.len() && s[r].0 != k {
        lemma_lex_total(s[r].0, k);
    }
    assert forall|i: int, j: int| 0 <= i < j < t.len() implies lex_lt(
        #[trigger] t[i].0,
        #[trigger] t[j].0,
    ) by {
        if t.len() == s.len() {
            assert(t[i].0 == s[i].0 && t[j].0 == s[j].0);
        } else {
            if i < r && j == r {
                assert(t[i] == s[i]);
            } else if i == r {
                assert(t[j] == s[j - 1]);
                if j - 1 > r {
                    lemma_lex_transitive(k, s[r].0, s[j - 1].0);
                }
            } else if i < r && j > r {
                assert(t[i] == s[i] && t[j] == s[j - 1]);
            } else if i > r {
                assert(t[i] == s[i - 1] && t[j] == s[j - 1]);
            } else {
                assert(t[i] == s[i] && t[j] == s[j]);
            }
        }
    }
    assert(t[r] == (k, v));
    lemma_lookup_at(t, r);
    assert forall|q: Seq<u8>| q != k implies #[trigger] lookup(t, q) == lookup(s, q) by {
        lemma_lookup_has_key(s, q);
        lemma_lookup_has_key(t, q);
        if has_key(s, q) {
            let i = choose|i: int| 0 <= i < s.len() && (#[trigger] s[i]).0 == q;
            lemma_lookup_at(s, i);
            let j = if t.len() == s.len() || i < r {
                i
            } else {
                i + 1
            };
            assert(t[j] == s[i]);
            lemma_lookup_at(t, j);
        } else if has_key(t, q) {
            let j = choose|j: int| 0 <= j < t.len() && (#[trigger] t[j]).0 == q;
            let i = if t.len() == s.len() || j < r {
                j
            } else {
                j - 1
            };
            assert(t[j] == s[i]);
            assert(has_key(s, q));
        }
    }
}

/// Removing a key keeps the order, unbinds that key, and leaves every other as it was.
pub proof fn lemma_unbind<V>(s: Seq<(Seq<u8>, V)>, k: Seq<u8>)
    requires
        ascending(s),
    ensures
        ascending(unbind(s, k)),
        lookup(unbind(s, k), k) is None,
        forall|q: Seq<u8>| q != k ==> #[trigger] lookup(unbind(s, k), q) == lookup(s, q),
{
    let r = rank(s, k);
    let t = unbind(s, k);
    lemma_rank(s, k);
    if r < s.len() && s[r].0 == k {
        assert forall|i: int, j: int| 0 <= i < j < t.len() implies lex_lt(
            #[trigger] t[i].0,
            #[trigger] t[j].0,
        ) by {
            let i2 = if i < r {
                i
            } else {
                i + 1
            };
            let j2 = if j < r {
                j
            } else {
                j + 1
            };
            assert(t[i] == s[i2] && t[j] == s[j2]);
        }
        lemma_lookup_has_key(t, k);
        if has_key(t, k) {
            let i = choose|i: int| 0 <= i < t.len() && (#[trigger] t[i]).0 == k;
            let i2 = if i < r {
                i
            } else {
                i + 1
            };
            assert(t[i] == s[i2]);
            lemma_lookup_at(s, i2);
        }
        assert forall|q: Seq<u8>| q != k implies #[trigger] lookup(t, q) == lookup(s, q) by {
            lemma_lookup_has_key(s, q);
            lemma_lookup_has_key(t, q);
            if has_key(s, q) {
                let i = choose|i: int| 0 <= i < s.len() && (#[trigger] s[i]).0 == q;
                lemma_lookup_at(s, i);
                let j = if i < r {
                    i
                } else {
                    i - 1
                };
                assert(t[j] == s[i]);
                lemma_lookup_at(t, j);
            } else if has_key(t, q) {
                let j = choose|j: int| 0 <= j < t.len() && (#[trigger] t[j]).0 == q;
                let i = if j < r {
                    j
                } else {
                    j + 1
                };
                assert(t[j] == s[i]);
                assert(has_key(s, q));
            }
        }
    }
}

/// Binding a key beyond all others appends it.
pub proof fn lemma_bind_last<V>(s: Seq<(Seq<u8>, V)>, k: Seq<u8>, v: V)
    requires
        forall|i: int| 0 <= i < s.len() ==> lex_lt((#[trigger] s[i]).0, k),
    ensures
        bind(s, k, v) == s.push((k, v)),
{
    lemma_rank_is(s, k, s.len() as int);
    assert(bind(s, k, v) =~= s.push((k, v)));
}

/// A map whose keys are byte strings.
pub struct ByteMap<V> {
    entries: Vec<(Vec<u8>, V)>,
}

impl<V> View for ByteMap<V> {
    type V = Seq<(Seq<u8>, V)>;

    closed spec fn view(&self) -> Seq<(Seq<u8>, V)> {
        Seq::new(self.entries@.len(), |i: int| (self.entries@[i].0@, self.entries@[i].1))
    }
}

impl<V> ByteMap<V> {
    /// The keys of a map ascend.
    #[verifier::type_invariant]
    pub open spec fn in_order(self) -> bool {
        ascending(self@)
    }

    /// A map with no keys.
    pub fn new() -> (r: Self)
        ensures
            r@ == Seq::<(Seq<u8>, V)>::empty(),
    {
        let r = ByteMap { entries: Vec::new() };
        assert(r@ =~= Seq::empty());
        r
    }

    /// The number of keys.
    pub fn len(&self) -> (r: usize)
        ensures
            r == self@.len(),
    {
        self.entries.len()
    }

    /// The key at position `i`.
    pub fn key_at(&self, i: usize) -> (r: &Vec<u8>)
        requires
            i < self@.len(),
        ensures
            r@ == self@[i as int].0,
    {
        &self.entries[i].0
    }

    /// The value at position `i`.
    pub fn value_at(&self, i: usize) -> (r: &V)
        requires
            i < self@.len(),
        ensures
            *r == self@[i as int].1,
    {
        &self.entries[i].1
    }

    /// How many keys come before `k`.
    fn rank_of(&self, k: &[u8]) -> (r: usize)
        ensures
            r == rank(self@, k@),
            r <= self@.len(),
    {
        proof {
            use_type_invariant(&*self);
            lemma_rank(self@, k@);
        }
        let mut lo: usize = 0;
        let mut hi: usize = self.entries.len();
        while lo < hi
            invariant
                0 <= lo <= hi <= self@.len(),
                self@.len() == self.entries@.len(),
                lo <= rank(self@, k@) <= hi,
                forall|i: int| 0 <= i < rank(self@, k@) ==> lex_lt((#[trigger] self@[i]).0, k@),
                forall|i: int|
                    rank(self@, k@) <= i < self@.len() ==> !lex_lt((#[trigger] self@[i]).0, k@),
            decreases hi - lo,
        {
            let mid: usize = lo + (hi - lo) / 2;
            assert(self@[mid as int].0 == self.entries@[mid as int].0@);
            if bytes_lt(self.entries[mid].0.as_slice(), k) {
                lo = mid + 1;
            } else {
                hi = mid;
            }
        }
        lo
    }

    /// The value of key `k`.
    pub fn get(&self, k: &[u8]) -> (r: Option<&V>)
        ensures
            (match r {
                Some(v) => lookup(self@, k@) == Some(*v),
                None => lookup(self@, k@) is None,
            }),
    {
        let r: usize = self.rank_of(k);
        if r < self.entries.len() && same_bytes(self.entries[r].0.as_slice(), k) {
            Some(&self.entries[r].1)
        } else {
            None
        }
    }

    /// Whether the key `k` is bound.
    pub fn contains(&self, k: &[u8]) -> (r: bool)
        ensures
            r == lookup(self@, k@) is Some,
    {
        self.get(k).is_some()
    }

    /// Binds `k` to `v`.
    pub fn insert(&mut self, k: Vec<u8>, v: V)
        ensures
            final(self)@ == bind(old(self)@, k@, v),
    {
        proof {
            use_type_invariant(&*self);
            lemma_bind(self@, k@, v);
        }
        let r: usize = self.rank_of(k.as_slice());
        let same = r < self.entries.len() && same_bytes(self.entries[r].0.as_slice(), k.as_slice());
        let mut entries: Vec<(Vec<u8>, V)> = Vec::new();
        let ghost before = self@;
        let ghost kk = k@;
        std::mem::swap(&mut entries, &mut self.entries);
        if same {
            entries[r] = (k, v);
        } else {
            entries.insert(r, (k, v));
        }
        let ghost now = Seq::new(entries@.len(), |i: int| (entries@[i].0@, entries@[i].1));
        assert(now =~= bind(before, kk, v));
        self.entries = entries;
    }

    /// Removes the key `k`.
    pub fn remove(&mut self, k: &[u8])
        ensures
            final(self)@ == unbind(old(self)@, k@),
    {
        proof {
            use_type_invariant(&*self);
            lemma_unbind(self@, k@);
        }
        let r: usize = self.rank_of(k);
        let same = r < self.entries.len() && same_bytes(self.entries[r].0.as_slice(), k);
        let mut entries: Vec<(Vec<u8>, V)> = Vec::new();
        let ghost before = self@;
        std::mem::swap(&mut entries, &mut self.entries);
        if same {
            entries.remove(r);
        }
        let ghost now = Seq::new(entries@.len(), |i: int| (entries@[i].0@, entries@[i].1));
        assert(now =~= unbind(before, k@));
        self.entries = entries;
    }
}

/// The names in `acc` and the keys of `m`, each once, in order.
pub open spec fn with_names<V>(acc: Seq<(Seq<u8>, ())>, m: Seq<(Seq<u8>, V)>) -> Seq<(Seq<u8>, ())>
    decreases m.len(),
{
    if m.len() == 0 {
        acc
    } else {
        bind(with_names(acc, m.drop_last()), m.last().0, ())
    }
}

/// `with_names` holds the names of both, and no others.
pub proof fn lemma_with_names<V>(acc: Seq<(Seq<u8>, ())>, m: Seq<(Seq<u8>, V)>)
    requires
        ascending(acc),
    ensures
        ascending(with_names(acc, m)),
        forall|k: Seq<u8>| #[trigger]
            has_key(with_names(acc, m), k) <==> has_key(acc, k) || has_key(m, k),
    decreases m.len(),
{
    if m.len() > 0 {
        let t = m.drop_last();
        let before = with_names(acc, t);
        let all = with_names(acc, m);
        lemma_with_names(acc, t);
        lemma_bind(before, m.last().0, ());
        assert forall|k: Seq<u8>| #[trigger]
            has_key(all, k) <==> has_key(acc, k) || has_key(m, k) by {
            lemma_lookup_has_key(all, k);
            lemma_lookup_has_key(before, k);
            if has_key(t, k) {
                let i = choose|i: int| 0 <= i < t.len() && (#[trigger] t[i]).0 == k;
                assert(m[i].0 == k);
            }
            if has_key(m, k) && k != m.last().0 {
                let i = choose|i: int| 0 <= i < m.len() && (#[trigger] m[i]).0 == k;
                assert(t[i].0 == k);
            }
            if k == m.last().0 {
                assert(m[m.len() - 1].0 == k);
            }
        }
    }
}

/// Adds the keys of a map to a set of names.
pub fn add_names<V>(names: &mut ByteMap<()>, m: &ByteMap<V>)
    ensures
        final(names)@ == with_names(old(names)@, m@),
{
    let ghost before = names@;
    let mut i: usize = 0;
    assert(m@.subrange(0, 0) =~= Seq::empty());
    while i < m.len()
        invariant
            0 <= i <= m@.len(),
            names@ == with_names(before, m@.subrange(0, i as int)),
        decreases m@.len() - i,
    {
        let k = copy_bytes(m.key_at(i).as_slice());
        proof {
            let t = m@.subrange(0, i + 1);
            assert(t.drop_last() =~= m@.subrange(0, i as int));
            assert(t.last() == m@[i as int]);
        }
        names.insert(k, ());
        i += 1;
    }
    assert(m@.subrange(0, i as int) =~= m@);
}

/// Ascending names are determined by which they are.
pub proof fn lemma_same_names(s: Seq<(Seq<u8>, ())>, t: Seq<(Seq<u8>, ())>)
    requires
        ascending(s),
        ascending(t),
        forall|k: Seq<u8>| #[trigger] has_key(s, k) <==> has_key(t, k),
    ensures
        s == t,
    decreases s.len(),
{
    if s.len() == 0 {
        if t.len() > 0 {
            assert(t[0].0 == t[0].0);
            assert(has_key(t, t[0].0));
            assert(has_key(s, t[0].0));
        }
        assert(s =~= t);
    } else {
        assert(s[0].0 == s[0].0);
        assert(has_key(s, s[0].0));
        let j = choose|j: int| 0 <= j < t.len() && (#[trigger] t[j]).0 == s[0].0;
        assert(t[0].0 == t[0].0);
        assert(has_key(t, t[0].0));
        assert(has_key(s, t[0].0));
        let i = choose|i: int| 0 <= i < s.len() && (#[trigger] s[i]).0 == t[0].0;
        if j > 0 {
            assert(lex_lt(t[0].0, t[j].0));
            if i > 0 {
                lemma_lex_asymmetric(s[0].0, s[i].0);
            } else {
                lemma_lex_irreflexive(s[0].0);
            }
        }
        let u = s.drop_first();
        let v = t.drop_first();
        assert(ascending(u)) by {
            assert forall|a: int, b: int| 0 <= a < b < u.len() implies lex_lt(
                #[trigger] u[a].0,
                #[trigger] u[b].0,
            ) by {
                assert(u[a] == s[a + 1] && u[b] == s[b + 1]);
            }
        }
        assert(ascending(v)) by {
            assert forall|a: int, b: int| 0 <= a < b < v.len() implies lex_lt(
                #[trigger] v[a].0,
                #[trigger] v[b].0,
            ) by {
                assert(v[a] == t[a + 1] && v[b] == t[b + 1]);
            }
        }
        assert forall|k: Seq<u8>| #[trigger] has_key(u, k) <==> has_key(v, k) by {
            if has_key(u, k) {
                let a = choose|a: int| 0 <= a < u.len() && (#[trigger] u[a]).0 == k;
                assert(s[a + 1].0 == k);
                assert(lex_lt(s[0].0, s[a + 1].0));
                lemma_lex_irreflexive(k);
                assert(has_key(s, k));
                let b = choose|b: int| 0 <= b < t.len() && (#[trigger] t[b]).0 == k;
                assert(v[b - 1].0 == k);
            }
            if has_key(v, k) {
                let a = choose|a: int| 0 <= a < v.len() && (#[trigger] v[a]).0 == k;
                assert(t[a + 1].0 == k);
                assert(lex_lt(t[0].0, t[a + 1].0));
                lemma_lex_irreflexive(k);
                assert(has_key(t, k));
                assert(has_key(s, k));
                let b = choose|b: int| 0 <= b < s.len() && (#[trigger] s[b]).0 == k;
                assert(u[b - 1].0 == k);
            }
        }
        lemma_same_names(u, v);
        assert forall|a: int| 0 <= a < s.len() implies s[a] == t[a] by {
            if a > 0 {
                assert(s[a] == u[a - 1] && t[a] == v[a - 1]);
            }
        }
        assert(s =~= t);
    }
}

/// Ascending pairs are determined by what each key is bound to.
pub proof fn lemma_same_lookup<V>(s: Seq<(Seq<u8>, V)>, t: Seq<(Seq<u8>, V)>)
    requires
        ascending(s),
        ascending(t),
        forall|k: Seq<u8>| #[trigger] lookup(s, k) == lookup(t, k),
    ensures
        s == t,
{
    let a = Seq::new(s.len(), |i: int| (s[i].0, ()));
    let b = Seq::new(t.len(), |i: int| (t[i].0, ()));
    assert forall|k: Seq<u8>| #[trigger] has_key(a, k) <==> has_key(b, k) by {
        lemma_lookup_has_key(s, k);
        lemma_lookup_has_key(t, k);
        assert(lookup(s, k) == lookup(t, k));
        if has_key(a, k) {
            let i = choose|i: int| 0 <= i < a.len() && (#[trigger] a[i]).0 == k;
            assert(s[i].0 == k);
            let j = choose|j: int| 0 <= j < t.len() && (#[trigger] t[j]).0 == k;
            assert(b[j].0 == k);
        }
        if has_key(b, k) {
            let j = choose|j: int| 0 <= j < b.len() && (#[trigger] b[j]).0 == k;
            assert(t[j].0 == k);
            let i = choose|i: int| 0 <= i < s.len() && (#[trigger] s[i]).0 == k;
            assert(a[i].0 == k);
        }
    }
    lemma_same_names(a, b);
    assert forall|i: int| 0 <= i < s.len() implies s[i] == t[i] by {
        assert(a[i] == b[i]);
        lemma_lookup_at(s, i);
        lemma_lookup_at(t, i);
    }
    assert(s =~= t);
}

/// The pairs after each of some was bound in turn.
pub open spec fn all_bound<V>(s: Seq<(Seq<u8>, V)>) -> Seq<(Seq<u8>, V)>
    decreases s.len(),
{
    if s.len() == 0 {
        s
    } else {
        bind(all_bound(s.drop_last()), s.last().0, s.last().1)
    }
}

proof fn lemma_all_bound<V>(s: Seq<(Seq<u8>, V)>)
    requires
        forall|i: int, j: int| 0 <= i < j < s.len() ==> #[trigger] s[i].0 != #[trigger] s[j].0,
    ensures
        ascending(all_bound(s)),
        forall|i: int|
            0 <= i < s.len() ==> lookup(all_bound(s), (#[trigger] s[i]).0) == Some(s[i].1),
        forall|k: Seq<u8>| #[trigger] lookup(all_bound(s), k) is Some ==> has_key(s, k),
    decreases s.len(),
{
    if s.len() > 0 {
        let front = s.drop_last();
        assert forall|i: int, j: int| 0 <= i < j < front.len() implies #[trigger] front[i].0
            != #[trigger] front[j].0 by {
            assert(s[i].0 != s[j].0);
        }
        lemma_all_bound(front);
        lemma_bind(all_bound(front), s.last().0, s.last().1);
        assert forall|i: int| 0 <= i < s.len() implies lookup(all_bound(s), (#[trigger] s[i]).0)
            == Some(s[i].1) by {
            if i < front.len() {
                assert(s[i].0 != s[s.len() - 1].0);
                assert(front[i] == s[i]);
            }
        }
        assert forall|k: Seq<u8>| #[trigger] lookup(all_bound(s), k) is Some implies has_key(
            s,
            k,
        ) by {
            if k == s.last().0 {
                assert(s[s.len() - 1].0 == k);
            } else {
                assert(lookup(all_bound(front), k) is Some);
                let i = choose|i: int| 0 <= i < front.len() && (#[trigger] front[i]).0 == k;
                assert(s[i].0 == k);
            }
        }
    }
}

/// Binding ascending pairs in any turn gives those pairs.
pub proof fn lemma_all_bound_is<V>(list: Seq<(Seq<u8>, V)>, s: Seq<(Seq<u8>, V)>)
    requires
        ascending(s),
        list.to_multiset() == s.to_multiset(),
    ensures
        all_bound(list) == s,
{
    broadcast use vstd::seq_lib::group_to_multiset_ensures;

    assert(s.no_duplicates()) by {
        assert forall|i: int, j: int| 0 <= i < j < s.len() implies s[i] != s[j] by {
            assert(lex_lt(s[i].0, s[j].0));
            lemma_lex_irreflexive(s[i].0);
        }
    }
    s.lemma_multiset_has_no_duplicates();
    list.lemma_multiset_has_no_duplicates_conv();
    list.to_multiset_ensures();
    s.to_multiset_ensures();
    assert forall|x: (Seq<u8>, V)|
        list.contains(x) <==> #[trigger] s.to_multiset().count(x) > 0 by {
        assert(list.to_multiset().count(x) == s.to_multiset().count(x));
    }
    assert forall|x: (Seq<u8>, V)| #[trigger] list.contains(x) implies s.contains(x) by {
        assert(s.to_multiset().count(x) > 0);
    }
    assert forall|x: (Seq<u8>, V)| #[trigger] s.contains(x) implies list.contains(x) by {
        assert(s.to_multiset().count(x) > 0);
    }
    assert forall|i: int, j: int| 0 <= i < j < list.len() implies #[trigger] list[i].0
        != #[trigger] list[j].0 by {
        assert(list.contains(list[i]) && list.contains(list[j]));
        let a = choose|a: int| 0 <= a < s.len() && s[a] == list[i];
        let b = choose|b: int| 0 <= b < s.len() && s[b] == list[j];
        lemma_lookup_at(s, a);
        lemma_lookup_at(s, b);
    }
    lemma_all_bound(list);
    assert forall|k: Seq<u8>| #[trigger] lookup(all_bound(list), k) == lookup(s, k) by {
        lemma_lookup_has_key(s, k);
        if has_key(s, k) {
            let a = choose|a: int| 0 <= a < s.len() && (#[trigger] s[a]).0 == k;
            lemma_lookup_at(s, a);
            assert(s.contains(s[a]));
            let i = choose|i: int| 0 <= i < list.len() && list[i] == s[a];
            assert(lookup(all_bound(list), list[i].0) == Some(list[i].1));
        } else if lookup(all_bound(list), k) is Some {
            let i = choose|i: int| 0 <= i < list.len() && (#[trigger] list[i]).0 == k;
            assert(list.contains(list[i]));
            let a = choose|a: int| 0 <= a < s.len() && s[a] == list[i];
            assert(s[a].0 == k);
        }
    }
    lemma_same_lookup(all_bound(list), s);
}

} // verus!
