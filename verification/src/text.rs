//! Text as a sequence of characters: trimming, splitting, decimal and hexadecimal numbers.
use crate::bytes::{
    contains_run, ends_with, find_from, lemma_find_from_is, lemma_rfind_before_is, rfind_before,
    same_bytes, starts_with,
};
use vstd::prelude::*;
use vstd::slice::slice_subrange;
use vstd::utf8::{decode_utf8, encode_utf8, encode_utf8_decode_utf8, valid_utf8};

verus! {

/// `String::push`: appends the character to the end.
pub assume_specification[ String::push ](s: &mut String, c: char)
    ensures
        final(s)@ == old(s)@.push(c),
;

/// `String::from_utf8`: the text whose UTF-8 encoding the bytes are; nothing if they are none.
#[verifier::external_body]
pub(crate) fn utf8_text(bytes: Vec<u8>) -> (r: Option<String>)
    ensures
        r is Some <==> valid_utf8(bytes@),
        r matches Some(s) ==> s@ == decode_utf8(bytes@),
{
    String::from_utf8(bytes).ok()
}

/// What `String::from_utf8_lossy` makes of `bytes`.
pub uninterp spec fn lossy_text(bytes: Seq<u8>) -> Seq<char>;

/// `String::from_utf8_lossy`: valid UTF-8 is decoded; elsewhere the result is only named.
#[verifier::external_body]
pub(crate) fn utf8_lossy(bytes: &[u8]) -> (r: String)
    ensures
        r@ == lossy_text(bytes@),
        valid_utf8(bytes@) ==> r@ == decode_utf8(bytes@),
{
    String::from_utf8_lossy(bytes).into_owned()
}

/// The text in `bytes`, or nothing where they are not UTF-8.
pub open spec fn text_of(bytes: Seq<u8>) -> Option<Seq<char>> {
    if valid_utf8(bytes) {
        Some(decode_utf8(bytes))
    } else {
        None
    }
}

/// The UTF-8 bytes of a text decode to the text.
pub proof fn lemma_text_round_trip(s: Seq<char>)
    ensures
        text_of(encode_utf8(s)) == Some(s),
{
    vstd::utf8::encode_utf8_valid_utf8(s);
    encode_utf8_decode_utf8(s);
}

/// The UTF-8 bytes of two texts put together are their bytes put together.
pub proof fn lemma_encode_concat(a: Seq<char>, b: Seq<char>)
    ensures
        encode_utf8(a + b) == encode_utf8(a) + encode_utf8(b),
    decreases a.len(),
{
    if a.len() == 0 {
        assert(a + b =~= b);
        assert(encode_utf8(a) =~= Seq::<u8>::empty());
        assert(encode_utf8(a) + encode_utf8(b) =~= encode_utf8(b));
    } else {
        assert((a + b).drop_first() =~= a.drop_first() + b);
        lemma_encode_concat(a.drop_first(), b);
        assert(encode_utf8(a + b) =~= encode_utf8(a) + encode_utf8(b));
    }
}

/// Two texts with the same UTF-8 bytes are the same text.
pub proof fn lemma_encode_injective(a: Seq<char>, b: Seq<char>)
    requires
        encode_utf8(a) == encode_utf8(b),
    ensures
        a == b,
{
    encode_utf8_decode_utf8(a);
    encode_utf8_decode_utf8(b);
}

/// The text of a byte slice, or nothing where it is not UTF-8.
pub fn text_of_slice(bytes: &[u8]) -> (r: Option<String>)
    ensures
        text_of(bytes@) == (match r {
            Some(s) => Some(s@),
            None => None,
        }),
{
    utf8_text(crate::bytes::copy_bytes(bytes))
}

/// The characters of a text.
pub fn chars_of(s: &str) -> (r: Vec<char>)
    ensures
        r@ == s@,
{
    let mut r: Vec<char> = Vec::new();
    for c in it: s.chars()
        invariant
            r@ == it.seq().subrange(0, it.index() as int),
            it.seq() == s@,
    {
        r.push(c);
        assert(r@ =~= it.seq().subrange(0, it.index() + 1));
    }
    assert(r@ =~= s@);
    r
}

/// The text made of the given characters.
pub fn string_of(cs: &[char]) -> (r: String)
    ensures
        r@ == cs@,
{
    let mut r = String::new();
    let mut i: usize = 0;
    while i < cs.len()
        invariant
            0 <= i <= cs@.len(),
            r@ == cs@.subrange(0, i as int),
        decreases cs@.len() - i,
    {
        r.push(cs[i]);
        i += 1;
        assert(r@ =~= cs@.subrange(0, i as int));
    }
    assert(r@ =~= cs@);
    r
}

/// Whether two texts are equal.
pub fn same_text(a: &str, b: &str) -> (r: bool)
    ensures
        r == (a@ == b@),
{
    let r = same_bytes(a.as_bytes(), b.as_bytes());
    proof {
        if r {
            lemma_encode_injective(a@, b@);
        }
    }
    r
}

/// Whether two character slices are equal.
pub fn same_chars(a: &[char], b: &[char]) -> (r: bool)
    ensures
        r == (a@ == b@),
{
    if a.len() != b.len() {
        return false;
    }
    let mut i: usize = 0;
    while i < a.len()
        invariant
            0 <= i <= a@.len(),
            a@.len() == b@.len(),
            forall|j: int| 0 <= j < i ==> a@[j] == b@[j],
        decreases a@.len() - i,
    {
        if a[i] != b[i] {
            return false;
        }
        i += 1;
    }
    assert(a@ =~= b@);
    true
}

/// Whether the characters of `s` are those of the text `t`.
pub fn chars_are(s: &[char], t: &str) -> (r: bool)
    ensures
        r == (s@ == t@),
{
    same_chars(s, chars_of(t).as_slice())
}

/// Whether `s` starts with the text `p`.
pub fn chars_start_with(s: &[char], p: &str) -> (r: bool)
    ensures
        r == starts_with(s@, p@),
{
    let p = chars_of(p);
    if p.len() > s.len() {
        return false;
    }
    same_chars(slice_subrange(s, 0, p.len()), p.as_slice())
}

/// Whether `s` ends with the text `p`.
pub fn chars_end_with(s: &[char], p: &str) -> (r: bool)
    ensures
        r == ends_with(s@, p@),
{
    let p = chars_of(p);
    if p.len() > s.len() {
        return false;
    }
    same_chars(slice_subrange(s, s.len() - p.len(), s.len()), p.as_slice())
}

/// Whether `p` occurs in `s`.
pub fn chars_contain(s: &[char], p: &[char]) -> (r: bool)
    ensures
        r == contains_run(s@, p@),
{
    if p.len() > s.len() {
        return false;
    }
    let last: usize = s.len() - p.len();
    let mut i: usize = 0;
    while i <= last
        invariant
            0 <= i <= last + 1,
            last == s.len() - p.len(),
            forall|j: int| 0 <= j < i ==> #[trigger] s@.subrange(j, j + p@.len()) != p@,
        decreases last + 1 - i,
    {
        if same_chars(slice_subrange(s, i, i + p.len()), p) {
            return true;
        }
        if i == last {
            return false;
        }
        i += 1;
    }
    false
}

/// The first position of `c` at or after `from`, or the length of `s`.
pub fn find_char(s: &[char], c: char, from: usize) -> (r: usize)
    requires
        from <= s@.len(),
    ensures
        r == find_from(s@, c, from as int),
        from <= r <= s@.len(),
        r < s@.len() ==> s@[r as int] == c,
{
    let mut i: usize = from;
    while i < s.len() && s[i] != c
        invariant
            from <= i <= s@.len(),
            forall|j: int| from <= j < i ==> s@[j] != c,
        decreases s@.len() - i,
    {
        i += 1;
    }
    proof {
        lemma_find_from_is(s@, c, from as int, i as int);
    }
    i
}

/// The last position of `c` in `s`, if there is one.
pub fn rfind_char(s: &[char], c: char) -> (r: Option<usize>)
    ensures
        r matches Some(i) ==> i == rfind_before(s@, c, s@.len() as int) && i < s.len(),
        r is None ==> rfind_before(s@, c, s@.len() as int) == -1,
{
    let mut i: usize = s.len();
    while i > 0
        invariant
            0 <= i <= s@.len(),
            forall|j: int| i <= j < s@.len() ==> s@[j] != c,
        decreases i,
    {
        i -= 1;
        if s[i] == c {
            proof {
                lemma_rfind_before_is(s@, c, s@.len() as int, i as int);
            }
            return Some(i);
        }
    }
    proof {
        if s@.len() > 0 {
            lemma_rfind_before_is(s@, c, s@.len() as int, -1);
        }
    }
    None
}

/// The characters with the Unicode property `White_Space`.
pub open spec fn is_space(c: char) -> bool {
    let n = c as u32;
    ||| 0x09 <= n <= 0x0d
    ||| n == 0x20
    ||| n == 0x85
    ||| n == 0xa0
    ||| n == 0x1680
    ||| 0x2000 <= n <= 0x200a
    ||| n == 0x2028
    ||| n == 0x2029
    ||| n == 0x202f
    ||| n == 0x205f
    ||| n == 0x3000
}

/// Whether `c` is white space.
pub fn char_is_space(c: char) -> (r: bool)
    ensures
        r == is_space(c),
{
    let n: u32 = c as u32;
    (0x09 <= n && n <= 0x0d) || n == 0x20 || n == 0x85 || n == 0xa0 || n == 0x1680 || (0x2000 <= n
        && n <= 0x200a) || n == 0x2028 || n == 0x2029 || n == 0x202f || n == 0x205f || n == 0x3000
}

/// `s` without its leading white space.
pub open spec fn trim_start(s: Seq<char>) -> Seq<char>
    decreases s.len(),
{
    if s.len() > 0 && is_space(s[0]) {
        trim_start(s.drop_first())
    } else {
        s
    }
}

/// `s` without its trailing white space.
pub open spec fn trim_end(s: Seq<char>) -> Seq<char>
    decreases s.len(),
{
    if s.len() > 0 && is_space(s.last()) {
        trim_end(s.drop_last())
    } else {
        s
    }
}

/// `s` without white space at either end.
pub open spec fn trim(s: Seq<char>) -> Seq<char> {
    trim_end(trim_start(s))
}

/// The slice without its leading white space.
pub fn trimmed_start(s: &[char]) -> (r: &[char])
    ensures
        r@ == trim_start(s@),
{
    let mut i: usize = 0;
    assert(s@.subrange(0, s@.len() as int) =~= s@);
    while i < s.len() && char_is_space(s[i])
        invariant
            0 <= i <= s@.len(),
            trim_start(s@) == trim_start(s@.subrange(i as int, s@.len() as int)),
        decreases s@.len() - i,
    {
        assert(s@.subrange(i as int, s@.len() as int).drop_first() =~= s@.subrange(
            i + 1,
            s@.len() as int,
        ));
        i += 1;
    }
    slice_subrange(s, i, s.len())
}

/// The slice without its trailing white space.
pub fn trimmed_end(s: &[char]) -> (r: &[char])
    ensures
        r@ == trim_end(s@),
{
    let mut n: usize = s.len();
    assert(s@.subrange(0, s@.len() as int) =~= s@);
    while n > 0 && char_is_space(s[n - 1])
        invariant
            0 <= n <= s@.len(),
            trim_end(s@) == trim_end(s@.subrange(0, n as int)),
        decreases n,
    {
        assert(s@.subrange(0, n as int).drop_last() =~= s@.subrange(0, n - 1));
        n -= 1;
    }
    slice_subrange(s, 0, n)
}

/// The slice without white space at either end.
pub fn trimmed(s: &[char]) -> (r: &[char])
    ensures
        r@ == trim(s@),
{
    trimmed_end(trimmed_start(s))
}

/// The parts of `s` between the separators `c`; one more part than there are separators.
pub open spec fn split(s: Seq<char>, c: char) -> Seq<Seq<char>>
    decreases s.len(),
{
    let i = find_from(s, c, 0);
    if 0 <= i < s.len() {
        seq![s.subrange(0, i)] + split(s.subrange(i + 1, s.len() as int), c)
    } else {
        seq![s]
    }
}

/// A line without the carriage return that may end it.
pub open spec fn strip_cr(s: Seq<char>) -> Seq<char> {
    if s.len() > 0 && s.last() == '\r' {
        s.drop_last()
    } else {
        s
    }
}

/// The lines of `s`: each ends at a line feed or at the end of a text that does not end in one,
/// and is given without its line feed and without a carriage return right before it.
pub open spec fn lines(s: Seq<char>) -> Seq<Seq<char>>
    decreases s.len(),
{
    if s.len() == 0 {
        Seq::empty()
    } else {
        let i = find_from(s, '\n', 0);
        if 0 <= i < s.len() {
            seq![strip_cr(s.subrange(0, i))] + lines(s.subrange(i + 1, s.len() as int))
        } else {
            seq![s]
        }
    }
}

/// The views of the items of a sequence.
pub open spec fn views<T: View>(s: Seq<T>) -> Seq<T::V> {
    Seq::new(s.len(), |i: int| s[i]@)
}

pub proof fn lemma_views_push<T: View>(s: Seq<T>, x: T)
    ensures
        views(s.push(x)) == views(s).push(x@),
{
    assert(views(s.push(x)) =~= views(s).push(x@));
}

/// The view of an optional value.
pub open spec fn opt_view<T: View>(o: Option<T>) -> Option<T::V> {
    match o {
        Some(x) => Some(x@),
        None => None,
    }
}

/// The view of a result whose error is its own view.
pub open spec fn res_view<T: View, E>(r: Result<T, E>) -> Result<T::V, E> {
    match r {
        Ok(x) => Ok(x@),
        Err(e) => Err(e),
    }
}

/// The view of a result whose error has a view of its own.
pub open spec fn both_view<T: View, E: View>(r: Result<T, E>) -> Result<T::V, E::V> {
    match r {
        Ok(x) => Ok(x@),
        Err(e) => Err(e@),
    }
}

/// The slice's lines.
pub fn lines_of(s: &[char]) -> (r: Vec<Vec<char>>)
    ensures
        views(r@) == lines(s@),
{
    let mut r: Vec<Vec<char>> = Vec::new();
    let mut start: usize = 0;
    assert(s@.subrange(0, s@.len() as int) =~= s@);
    assert(views(r@) =~= Seq::empty());
    assert(views(r@) + lines(s@) =~= lines(s@));
    while start < s.len()
        invariant
            0 <= start <= s@.len(),
            lines(s@) == views(r@) + lines(s@.subrange(start as int, s@.len() as int)),
        decreases s@.len() - start,
    {
        let rest = slice_subrange(s, start, s.len());
        let i: usize = find_char(rest, '\n', 0);
        let ghost before = r@;
        if i < rest.len() {
            let end: usize = if i > 0 && rest[i - 1] == '\r' {
                i - 1
            } else {
                i
            };
            let line = slice_subrange(rest, 0, end);
            assert(line@ =~= strip_cr(rest@.subrange(0, i as int)));
            let ghost tail = rest@.subrange(i + 1, rest@.len() as int);
            assert(tail =~= s@.subrange(start + i + 1, s@.len() as int));
            r.push(vstd::slice::slice_to_vec(line));
            start = start + i + 1;
            proof {
                lemma_views_push(before, r@.last());
                assert(views(before) + (seq![line@] + lines(tail)) =~= views(r@) + lines(tail));
            }
        } else {
            r.push(vstd::slice::slice_to_vec(rest));
            start = s.len();
            proof {
                lemma_views_push(before, r@.last());
                assert(s@.subrange(start as int, s@.len() as int) =~= Seq::empty());
                assert(views(before) + seq![rest@] =~= views(r@) + lines(Seq::empty()));
            }
        }
    }
    assert(s@.subrange(start as int, s@.len() as int) =~= Seq::empty());
    assert(views(r@) + lines(Seq::empty()) =~= views(r@));
    r
}

/// The slice's parts between the separators `c`.
pub fn split_chars(s: &[char], c: char) -> (r: Vec<Vec<char>>)
    ensures
        views(r@) == split(s@, c),
{
    let mut r: Vec<Vec<char>> = Vec::new();
    let mut start: usize = 0;
    assert(s@.subrange(0, s@.len() as int) =~= s@);
    assert(views(r@) + split(s@, c) =~= split(s@, c));
    loop
        invariant
            0 <= start <= s@.len(),
            split(s@, c) == views(r@) + split(s@.subrange(start as int, s@.len() as int), c),
        decreases s@.len() - start,
    {
        let rest = slice_subrange(s, start, s.len());
        let i: usize = find_char(rest, c, 0);
        let ghost before = r@;
        if i < rest.len() {
            let part = slice_subrange(rest, 0, i);
            let ghost tail = rest@.subrange(i + 1, rest@.len() as int);
            assert(tail =~= s@.subrange(start + i + 1, s@.len() as int));
            r.push(vstd::slice::slice_to_vec(part));
            start = start + i + 1;
            proof {
                lemma_views_push(before, r@.last());
                assert(views(before) + (seq![part@] + split(tail, c)) =~= views(r@) + split(tail, c));
            }
        } else {
            r.push(vstd::slice::slice_to_vec(rest));
            proof {
                lemma_views_push(before, r@.last());
                assert(views(before) + seq![rest@] =~= views(r@));
            }
            return r;
        }
    }
}

/// An ASCII character that a text does not hold does not occur among its UTF-8 bytes.
pub proof fn lemma_encode_free(s: Seq<char>, c: char)
    requires
        (c as u32) < 0x80,
        forall|i: int| 0 <= i < s.len() ==> s[i] != c,
    ensures
        forall|i: int| 0 <= i < encode_utf8(s).len() ==> encode_utf8(s)[i] != c as u8,
    decreases s.len(),
{
    if s.len() > 0 {
        let t = s.drop_first();
        lemma_encode_free(t, c);
        let v = s[0] as u32;
        let w = c as u32;
        vstd::utf8::char_is_scalar(s[0]);
        vstd::utf8::char_u32_cast(s[0], v);
        assert(v != w);
        assert((c as u8) == w) by {
            assert(w as u8 == w);
        }
        let e = vstd::utf8::encode_scalar(v);
        assert(v < 0x80 ==> (v & 0x7F) as u8 == v as u8) by (bit_vector);
        assert(0xC0 | ((v >> 6) & 0x1F) as u8 >= 0x80) by (bit_vector);
        assert(0xE0 | ((v >> 12) & 0x0F) as u8 >= 0x80) by (bit_vector);
        assert(0xF0 | ((v >> 18) & 0x7) as u8 >= 0x80) by (bit_vector);
        assert(0x80 | (v & 0x3F) as u8 >= 0x80) by (bit_vector);
        assert(0x80 | ((v >> 6) & 0x3F) as u8 >= 0x80) by (bit_vector);
        assert(0x80 | ((v >> 12) & 0x3F) as u8 >= 0x80) by (bit_vector);
        assert forall|i: int| 0 <= i < encode_utf8(s).len() implies encode_utf8(s)[i]
            != c as u8 by {
            if i < e.len() {
                assert(encode_utf8(s)[i] == e[i]);
                if v < 0x80 {
                    assert(e[i] as u32 == v);
                } else {
                    assert(e[i] >= 0x80);
                }
            } else {
                assert(encode_utf8(s)[i] == encode_utf8(t)[i - e.len()]);
            }
        }
    }
}

/// An ASCII text as bytes.
pub proof fn lemma_encode_ascii(s: Seq<char>)
    requires
        vstd::utf8::is_ascii_chars(s),
    ensures
        encode_utf8(s) == Seq::new(s.len(), |i: int| s[i] as u8),
{
    vstd::utf8::is_ascii_chars_encode_utf8(s);
    assert(encode_utf8(s) =~= Seq::new(s.len(), |i: int| s[i] as u8));
}

/// White space around a text without any at its ends is trimmed away.
pub proof fn lemma_trim_padded(a: Seq<char>, s: Seq<char>, b: Seq<char>)
    requires
        forall|i: int| 0 <= i < a.len() ==> is_space(#[trigger] a[i]),
        forall|i: int| 0 <= i < b.len() ==> is_space(#[trigger] b[i]),
        trim(s) == s,
    ensures
        trim(a + s + b) == s,
        trim_end(s + b) == s,
    decreases a.len() + b.len(),
{
    lemma_trim_start_shorter(s);
    lemma_trim_end_shorter(trim_start(s));
    assert(trim_start(s) == s) by {
        if s.len() > 0 && is_space(s[0]) {
            lemma_trim_start_shorter(s.drop_first());
        }
    }
    if b.len() > 0 {
        let t = b.drop_last();
        assert((s + b).drop_last() =~= s + t);
        assert((s + b).last() == b.last());
        lemma_trim_padded(Seq::empty(), s, t);
    } else {
        assert(s + b =~= s);
    }
    if a.len() > 0 {
        let u = a.drop_first();
        assert((a + s + b).drop_first() =~= u + s + b);
        assert((a + s + b)[0] == a[0]);
        lemma_trim_padded(u, s, b);
    } else {
        assert(a + s + b =~= s + b);
        if s.len() == 0 {
            assert(s + b =~= b);
            lemma_trim_all_space(b);
            assert(s =~= Seq::empty());
        } else {
            assert((s + b)[0] == s[0]);
        }
    }
}

/// Trimming white space alone leaves nothing.
pub proof fn lemma_trim_all_space(b: Seq<char>)
    requires
        forall|i: int| 0 <= i < b.len() ==> is_space(#[trigger] b[i]),
    ensures
        trim_start(b) == Seq::<char>::empty(),
        trim(b) == Seq::<char>::empty(),
    decreases b.len(),
{
    if b.len() > 0 {
        lemma_trim_all_space(b.drop_first());
    } else {
        assert(b =~= Seq::empty());
    }
}

pub proof fn lemma_trim_start_shorter(s: Seq<char>)
    ensures
        trim_start(s).len() <= s.len(),
        trim_start(s).len() > 0 ==> !is_space(trim_start(s)[0]),
    decreases s.len(),
{
    if s.len() > 0 && is_space(s[0]) {
        lemma_trim_start_shorter(s.drop_first());
    }
}

pub proof fn lemma_trim_end_shorter(s: Seq<char>)
    ensures
        trim_end(s).len() <= s.len(),
        trim_end(s).len() > 0 ==> !is_space(trim_end(s).last()),
    decreases s.len(),
{
    if s.len() > 0 && is_space(s.last()) {
        lemma_trim_end_shorter(s.drop_last());
    }
}

/// Trimming the end leaves the beginning as it is.
proof fn lemma_trim_end_prefix(s: Seq<char>)
    ensures
        trim_end(s).len() <= s.len(),
        trim_end(s) == s.subrange(0, trim_end(s).len() as int),
    decreases s.len(),
{
    if s.len() > 0 && is_space(s.last()) {
        lemma_trim_end_prefix(s.drop_last());
    }
}

/// A trimmed text is its own trimming.
pub proof fn lemma_trim_again(s: Seq<char>)
    ensures
        trim(trim(s)) == trim(s),
{
    let t = trim_start(s);
    lemma_trim_start_shorter(s);
    lemma_trim_end_shorter(t);
    lemma_trim_end_prefix(t);
    if trim(s).len() > 0 {
        lemma_trim_solid(trim(s));
    }
}

/// A text without white space is its own trimming.
pub proof fn lemma_trim_solid(s: Seq<char>)
    requires
        s.len() > 0 ==> !is_space(s[0]) && !is_space(s.last()),
    ensures
        trim(s) == s,
        trim_end(s) == s,
{
}

/// The fields of `s` that white space separates.
pub open spec fn words(s: Seq<char>) -> Seq<Seq<char>>
    decreases s.len(),
    via words_shrink
{
    let t = trim_start(s);
    if t.len() == 0 {
        Seq::empty()
    } else {
        let n = word_len(t);
        seq![t.subrange(0, n)] + words(t.subrange(n, t.len() as int))
    }
}

/// The length of the run without white space that `s` starts with.
pub open spec fn word_len(s: Seq<char>) -> int
    decreases s.len(),
{
    if s.len() > 0 && !is_space(s[0]) {
        1 + word_len(s.drop_first())
    } else {
        0
    }
}

#[via_fn]
proof fn words_shrink(s: Seq<char>) {
    let t = trim_start(s);
    lemma_trim_start_shorter(s);
    lemma_word_len(t);
}

pub proof fn lemma_word_len(s: Seq<char>)
    ensures
        0 <= word_len(s) <= s.len(),
        s.len() > 0 && !is_space(s[0]) ==> word_len(s) > 0,
        forall|i: int| 0 <= i < word_len(s) ==> !is_space(#[trigger] s[i]),
        word_len(s) < s.len() ==> is_space(s[word_len(s)]),
    decreases s.len(),
{
    if s.len() > 0 && !is_space(s[0]) {
        let t = s.drop_first();
        lemma_word_len(t);
        assert forall|i: int| 0 <= i < word_len(s) implies !is_space(#[trigger] s[i]) by {
            if i > 0 {
                assert(s[i] == t[i - 1]);
            }
        }
    }
}

pub proof fn lemma_word_len_is(s: Seq<char>, n: int)
    requires
        0 <= n <= s.len(),
        forall|i: int| 0 <= i < n ==> !is_space(#[trigger] s[i]),
        n < s.len() ==> is_space(s[n]),
    ensures
        word_len(s) == n,
    decreases n,
{
    if n > 0 {
        let t = s.drop_first();
        assert forall|i: int| 0 <= i < n - 1 implies !is_space(#[trigger] t[i]) by {
            assert(t[i] == s[i + 1]);
        }
        assert(!is_space(s[0]));
        lemma_word_len_is(t, n - 1);
    }
}

/// The slice's fields that white space separates.
pub fn words_of(s: &[char]) -> (r: Vec<Vec<char>>)
    ensures
        views(r@) == words(s@),
{
    let mut r: Vec<Vec<char>> = Vec::new();
    let mut rest = s;
    assert(views(r@) + words(s@) =~= words(s@));
    loop
        invariant
            words(s@) == views(r@) + words(rest@),
        decreases rest@.len(),
    {
        let t = trimmed_start(rest);
        proof {
            lemma_trim_start_shorter(rest@);
        }
        if t.len() == 0 {
            assert(views(r@) + Seq::empty() =~= views(r@));
            return r;
        }
        let mut n: usize = 0;
        while n < t.len() && !char_is_space(t[n])
            invariant
                0 <= n <= t@.len(),
                forall|i: int| 0 <= i < n ==> !is_space(#[trigger] t@[i]),
            decreases t@.len() - n,
        {
            n += 1;
        }
        proof {
            lemma_word_len_is(t@, n as int);
            lemma_word_len(t@);
        }
        let ghost before = r@;
        let word = slice_subrange(t, 0, n);
        r.push(vstd::slice::slice_to_vec(word));
        let next = slice_subrange(t, n, t.len());
        proof {
            lemma_views_push(before, r@.last());
            assert(views(before) + (seq![word@] + words(next@)) =~= views(r@) + words(next@));
        }
        rest = next;
    }
}

/// How many of the lines come before the first empty one.
pub open spec fn before_blank(ls: Seq<Seq<char>>) -> int
    decreases ls.len(),
{
    if ls.len() == 0 || ls[0].len() == 0 {
        0
    } else {
        1 + before_blank(ls.drop_first())
    }
}

/// The number of lines before the first empty one is pinned down by what it counts.
pub proof fn lemma_before_blank(ls: Seq<Seq<char>>, n: int)
    requires
        0 <= n <= ls.len(),
        forall|i: int| 0 <= i < n ==> (#[trigger] ls[i]).len() > 0,
        n < ls.len() ==> ls[n].len() == 0,
    ensures
        before_blank(ls) == n,
    decreases n,
{
    if n > 0 {
        assert(ls[0].len() > 0);
        let t = ls.drop_first();
        assert forall|i: int| 0 <= i < n - 1 implies (#[trigger] t[i]).len() > 0 by {
            assert(t[i] == ls[i + 1]);
        }
        lemma_before_blank(t, n - 1);
    }
}

/// The lines with a line feed between any two.
pub open spec fn joined_lines(ls: Seq<Seq<char>>) -> Seq<char>
    decreases ls.len(),
{
    if ls.len() == 0 {
        Seq::empty()
    } else if ls.len() == 1 {
        ls[0]
    } else {
        joined_lines(ls.drop_last()).push('\n') + ls.last()
    }
}

/// Puts a line feed between any two lines.
pub fn join_lines(ls: &[Vec<char>]) -> (r: Vec<char>)
    ensures
        r@ == joined_lines(views(ls@)),
{
    let ghost all = views(ls@);
    let mut out: Vec<char> = Vec::new();
    let mut i: usize = 0;
    assert(all.subrange(0, 0) =~= Seq::empty());
    assert(out@ =~= Seq::empty());
    while i < ls.len()
        invariant
            0 <= i <= ls@.len(),
            all == views(ls@),
            out@ == joined_lines(all.subrange(0, i as int)),
        decreases ls@.len() - i,
    {
        let ghost upto = all.subrange(0, i + 1);
        proof {
            assert(upto.drop_last() =~= all.subrange(0, i as int));
            assert(upto.last() == ls@[i as int]@);
        }
        if i > 0 {
            out.push('\n');
        }
        let ghost start = out@;
        let mut k: usize = 0;
        while k < ls[i as usize].len()
            invariant
                0 <= i < ls@.len(),
                0 <= k <= ls@[i as int]@.len(),
                out@ == start + ls@[i as int]@.subrange(0, k as int),
            decreases ls@[i as int]@.len() - k,
        {
            out.push(ls[i][k]);
            k += 1;
            assert(out@ =~= start + ls@[i as int]@.subrange(0, k as int));
        }
        assert(out@ =~= start + ls@[i as int]@);
        assert(start + ls@[i as int]@ =~= joined_lines(upto));
        i += 1;
    }
    assert(all.subrange(0, i as int) =~= all);
    out
}

/// The first of the lines that is not empty once the white space around it is gone.
pub open spec fn first_solid(ls: Seq<Seq<char>>) -> Option<Seq<char>>
    decreases ls.len(),
{
    if ls.len() == 0 {
        None
    } else if trim(ls[0]).len() > 0 {
        Some(trim(ls[0]))
    } else {
        first_solid(ls.drop_first())
    }
}

/// The first line of a text that is not blank, without the white space around it.
pub fn first_solid_line(s: &[char]) -> (r: Option<Vec<char>>)
    ensures
        opt_view(r) == first_solid(lines(s@)),
{
    let ls = lines_of(s);
    let ghost all = lines(s@);
    let mut i: usize = 0;
    assert(all.subrange(0, all.len() as int) =~= all);
    while i < ls.len()
        invariant
            0 <= i <= ls@.len(),
            all == views(ls@),
            all == lines(s@),
            first_solid(all) == first_solid(all.subrange(i as int, all.len() as int)),
        decreases ls@.len() - i,
    {
        proof {
            let rest = all.subrange(i as int, all.len() as int);
            assert(rest[0] == ls@[i as int]@);
            assert(rest.drop_first() =~= all.subrange(i + 1, all.len() as int));
        }
        let t = trimmed(ls[i].as_slice());
        if t.len() > 0 {
            return Some(copy_chars(t));
        }
        i += 1;
    }
    None
}

/// A copy of some characters.
pub fn copy_chars(s: &[char]) -> (r: Vec<char>)
    ensures
        r@ == s@,
{
    let mut r: Vec<char> = Vec::new();
    let mut i: usize = 0;
    while i < s.len()
        invariant
            0 <= i <= s@.len(),
            r@ == s@.subrange(0, i as int),
        decreases s@.len() - i,
    {
        r.push(s[i]);
        i += 1;
        assert(r@ =~= s@.subrange(0, i as int));
    }
    assert(r@ =~= s@);
    r
}

} // verus!
