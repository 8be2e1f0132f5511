//! Decimal and hexadecimal numbers in text.
use crate::text::chars_of;
use vstd::prelude::*;
use vstd::slice::slice_subrange;

verus! {

/// The decimal digits of `n`, without leading zeros.
pub open spec fn dec(n: nat) -> Seq<char>
    decreases n,
{
    if n < 10 {
        seq![digit(n)]
    } else {
        dec(n / 10).push(digit(n % 10))
    }
}

/// The decimal digit of a number below ten.
pub open spec fn digit(n: nat) -> char {
    (0x30 + n) as char
}

/// The decimal form of an integer, with a minus sign where it is negative.
pub open spec fn dec_int(i: int) -> Seq<char> {
    if i < 0 {
        seq!['-'] + dec((-i) as nat)
    } else {
        dec(i as nat)
    }
}

/// Whether `c` is a decimal digit.
pub open spec fn is_digit(c: char) -> bool {
    '0' <= c && c <= '9'
}

/// The value of a string of decimal digits.
pub open spec fn dec_value(s: Seq<char>) -> nat
    decreases s.len(),
{
    if s.len() == 0 {
        0
    } else {
        dec_value(s.drop_last()) * 10 + (s.last() as nat - 0x30) as nat
    }
}

/// Whether `s` is one or more decimal digits.
pub open spec fn all_digits(s: Seq<char>) -> bool {
    s.len() > 0 && forall|i: int| 0 <= i < s.len() ==> is_digit(#[trigger] s[i])
}

/// The number that the digits of `s` write, if `s` is one or more digits and the number is at
/// most `max`.
pub open spec fn digits_upto(s: Seq<char>, max: nat) -> Option<nat> {
    if all_digits(s) && dec_value(s) <= max {
        Some(dec_value(s))
    } else {
        None
    }
}

/// The unsigned number in `s`: digits, with or without a plus sign before them.
pub open spec fn parse_unsigned(s: Seq<char>, max: nat) -> Option<nat> {
    if s.len() > 0 && s[0] == '+' {
        digits_upto(s.subrange(1, s.len() as int), max)
    } else {
        digits_upto(s, max)
    }
}

/// The signed 64-bit number in `s`: digits, with or without a sign before them.
pub open spec fn parse_signed64(s: Seq<char>) -> Option<int> {
    if s.len() > 0 && s[0] == '-' {
        match digits_upto(s.subrange(1, s.len() as int), 0x8000_0000_0000_0000) {
            Some(n) => Some(-(n as int)),
            None => None,
        }
    } else {
        match parse_unsigned(s, 0x7fff_ffff_ffff_ffff) {
            Some(n) => Some(n as int),
            None => None,
        }
    }
}

/// The digits of a number are digits and write that number.
pub proof fn lemma_dec_round_trip(n: nat)
    ensures
        all_digits(dec(n)),
        dec_value(dec(n)) == n,
    decreases n,
{
    reveal_with_fuel(dec_value, 2);
    if n < 10 {
        assert(dec(n).drop_last() =~= Seq::empty());
    } else {
        lemma_dec_round_trip(n / 10);
        assert(dec(n).drop_last() =~= dec(n / 10));
    }
}

/// A signed number written in decimal reads back as itself.
pub proof fn lemma_signed_round_trip(i: int)
    requires
        i64::MIN <= i <= i64::MAX,
    ensures
        parse_signed64(dec_int(i)) == Some(i),
{
    if i < 0 {
        let d = dec((-i) as nat);
        lemma_dec_round_trip((-i) as nat);
        assert(dec_int(i).subrange(1, dec_int(i).len() as int) =~= d);
    } else {
        lemma_dec_round_trip(i as nat);
        assert(is_digit(dec(i as nat)[0]));
    }
}

/// The value of a longer digit string is at least that of its beginning.
proof fn lemma_dec_value_monotone(s: Seq<char>, i: int)
    requires
        0 <= i <= s.len(),
    ensures
        dec_value(s.subrange(0, i)) <= dec_value(s),
    decreases s.len() - i,
{
    if i == s.len() {
        assert(s.subrange(0, i) =~= s);
    } else {
        lemma_dec_value_monotone(s, i + 1);
        assert(s.subrange(0, i + 1).drop_last() =~= s.subrange(0, i));
    }
}

/// Appends the decimal form of `n`.
pub fn push_dec(out: &mut String, n: u64)
    ensures
        final(out)@ == old(out)@ + dec(n as nat),
    decreases n,
{
    if n >= 10 {
        push_dec(out, n / 10);
    }
    let d: u8 = 0x30 + (n % 10) as u8;
    out.push(d as char);
    assert(out@ =~= old(out)@ + dec(n as nat));
}

/// The decimal form of `n`.
pub fn dec_string(n: u64) -> (r: String)
    ensures
        r@ == dec(n as nat),
{
    let mut r = String::new();
    push_dec(&mut r, n);
    assert(r@ =~= dec(n as nat));
    r
}

/// Appends the decimal form of a signed number.
pub fn push_dec_int(out: &mut String, i: i64)
    ensures
        final(out)@ == old(out)@ + dec_int(i as int),
{
    if i < 0 {
        out.push('-');
        if i == i64::MIN {
            push_dec(out, 0x8000_0000_0000_0000);
        } else {
            push_dec(out, (-i) as u64);
        }
        assert(out@ =~= old(out)@ + dec_int(i as int));
    } else {
        push_dec(out, i as u64);
    }
}

/// The number that a string of digits writes, if it is at most `max`.
pub fn parse_digits(s: &[char], max: u64) -> (r: Option<u64>)
    ensures
        (match r {
            Some(n) => digits_upto(s@, max as nat) == Some(n as nat),
            None => digits_upto(s@, max as nat) is None,
        }),
{
    if s.len() == 0 {
        return None;
    }
    let mut n: u64 = 0;
    let mut i: usize = 0;
    assert(s@.subrange(0, 0) =~= Seq::empty());
    while i < s.len()
        invariant
            0 <= i <= s@.len(),
            forall|j: int| 0 <= j < i ==> is_digit(#[trigger] s@[j]),
            n == dec_value(s@.subrange(0, i as int)),
            n <= max,
        decreases s@.len() - i,
    {
        let c = s[i];
        if !('0' <= c && c <= '9') {
            return None;
        }
        let d: u64 = (c as u32 - 0x30) as u64;
        proof {
            assert(s@.subrange(0, i + 1).drop_last() =~= s@.subrange(0, i as int));
            lemma_dec_value_monotone(s@, i + 1);
        }
        if n > max / 10 || d > max - n * 10 {
            return None;
        }
        n = n * 10 + d;
        i += 1;
    }
    assert(s@.subrange(0, s@.len() as int) =~= s@);
    Some(n)
}

/// Reads an unsigned decimal number that is at most `max`.
pub fn read_unsigned(s: &[char], max: u64) -> (r: Option<u64>)
    ensures
        (match r {
            Some(n) => parse_unsigned(s@, max as nat) == Some(n as nat) && n <= max,
            None => parse_unsigned(s@, max as nat) is None,
        }),
{
    if s.len() > 0 && s[0] == '+' {
        parse_digits(slice_subrange(s, 1, s.len()), max)
    } else {
        parse_digits(s, max)
    }
}

/// Reads a signed decimal number.
pub fn read_signed64(s: &[char]) -> (r: Option<i64>)
    ensures
        (match r {
            Some(n) => parse_signed64(s@) == Some(n as int),
            None => parse_signed64(s@) is None,
        }),
{
    if s.len() > 0 && s[0] == '-' {
        match parse_digits(slice_subrange(s, 1, s.len()), 0x8000_0000_0000_0000) {
            Some(n) => {
                if n == 0x8000_0000_0000_0000 {
                    Some(i64::MIN)
                } else {
                    Some(-(n as i64))
                }
            },
            None => None,
        }
    } else {
        match read_unsigned(s, 0x7fff_ffff_ffff_ffff) {
            Some(n) => Some(n as i64),
            None => None,
        }
    }
}

/// The value of a string of octal digits.
pub open spec fn oct_value(s: Seq<char>) -> nat
    decreases s.len(),
{
    if s.len() == 0 {
        0
    } else {
        oct_value(s.drop_last()) * 8 + (s.last() as nat - 0x30) as nat
    }
}

/// Whether `s` is one or more octal digits.
pub open spec fn all_octal(s: Seq<char>) -> bool {
    s.len() > 0 && forall|i: int| 0 <= i < s.len() ==> '0' <= #[trigger] s[i] && s[i] <= '7'
}

/// The 32-bit number that the octal digits of `s` write.
pub open spec fn parse_octal(s: Seq<char>) -> Option<nat> {
    if all_octal(s) && oct_value(s) <= u32::MAX {
        Some(oct_value(s))
    } else {
        None
    }
}

proof fn lemma_oct_value_monotone(s: Seq<char>, i: int)
    requires
        0 <= i <= s.len(),
    ensures
        oct_value(s.subrange(0, i)) <= oct_value(s),
    decreases s.len() - i,
{
    if i == s.len() {
        assert(s.subrange(0, i) =~= s);
    } else {
        lemma_oct_value_monotone(s, i + 1);
        assert(s.subrange(0, i + 1).drop_last() =~= s.subrange(0, i));
    }
}

/// Reads an octal number of 32 bits.
pub fn read_octal(s: &[char]) -> (r: Option<u32>)
    ensures
        (match r {
            Some(n) => parse_octal(s@) == Some(n as nat),
            None => parse_octal(s@) is None,
        }),
{
    if s.len() == 0 {
        return None;
    }
    let mut n: u64 = 0;
    let mut i: usize = 0;
    assert(s@.subrange(0, 0) =~= Seq::empty());
    while i < s.len()
        invariant
            0 <= i <= s@.len(),
            forall|j: int| 0 <= j < i ==> '0' <= #[trigger] s@[j] && s@[j] <= '7',
            n == oct_value(s@.subrange(0, i as int)),
            n <= u32::MAX,
        decreases s@.len() - i,
    {
        let c = s[i];
        if !('0' <= c && c <= '7') {
            return None;
        }
        let d: u64 = (c as u32 - 0x30) as u64;
        proof {
            assert(s@.subrange(0, i + 1).drop_last() =~= s@.subrange(0, i as int));
            lemma_oct_value_monotone(s@, i + 1);
        }
        n = n * 8 + d;
        if n > u32::MAX as u64 {
            return None;
        }
        i += 1;
    }
    assert(s@.subrange(0, s@.len() as int) =~= s@);
    Some(n as u32)
}

/// The lower-case hexadecimal digit of a number below sixteen.
pub open spec fn hex_digit(n: int) -> char {
    if n < 10 {
        (0x30 + n) as char
    } else {
        (0x57 + n) as char
    }
}

/// The value of a hexadecimal digit of either case.
pub open spec fn hex_value(c: char) -> Option<int> {
    if '0' <= c && c <= '9' {
        Some(c as int - 0x30)
    } else if 'a' <= c && c <= 'f' {
        Some(c as int - 0x57)
    } else if 'A' <= c && c <= 'F' {
        Some(c as int - 0x37)
    } else {
        None
    }
}

/// Each byte as two lower-case hexadecimal digits.
pub open spec fn hex_of(b: Seq<u8>) -> Seq<char> {
    Seq::new(
        2 * b.len(),
        |i: int|
            if i % 2 == 0 {
                hex_digit(b[i / 2] as int / 16)
            } else {
                hex_digit(b[i / 2] as int % 16)
            },
    )
}

/// The bytes that pairs of hexadecimal digits write; nothing for any other text.
pub open spec fn unhex(s: Seq<char>) -> Option<Seq<u8>> {
    if s.len() % 2 == 0 && forall|i: int|
        0 <= i < s.len() ==> hex_value(#[trigger] s[i]) is Some {
        Some(
            Seq::new(
                (s.len() / 2) as nat,
                |i: int| (hex_value(s[2 * i])->0 * 16 + hex_value(s[2 * i + 1])->0) as u8,
            ),
        )
    } else {
        None
    }
}

/// Bytes written in hexadecimal read back as themselves.
pub proof fn lemma_hex_round_trip(b: Seq<u8>)
    ensures
        unhex(hex_of(b)) == Some(b),
{
    let s = hex_of(b);
    assert forall|i: int| 0 <= i < s.len() implies hex_value(#[trigger] s[i]) is Some by {
        let x = b[i / 2] as int;
        assert(0 <= x / 16 < 16);
        assert(0 <= x % 16 < 16);
    }
    let t = unhex(s)->0;
    assert forall|i: int| 0 <= i < b.len() implies t[i] == b[i] by {
        let x = b[i] as int;
        assert((2 * i) / 2 == i && (2 * i + 1) / 2 == i);
        assert((2 * i) % 2 == 0 && (2 * i + 1) % 2 == 1);
        assert(hex_value(s[2 * i])->0 == x / 16);
        assert(hex_value(s[2 * i + 1])->0 == x % 16);
    }
    assert(t =~= b);
}

/// The lower-case hexadecimal digit of a number below sixteen.
pub fn hex_digit_of(n: u8) -> (r: char)
    requires
        n < 16,
    ensures
        r == hex_digit(n as int),
{
    if n < 10 {
        (0x30 + n) as char
    } else {
        (0x57 + n) as char
    }
}

/// The value of a hexadecimal digit.
pub fn hex_value_of(c: char) -> (r: Option<u8>)
    ensures
        (match r {
            Some(n) => hex_value(c) == Some(n as int) && n < 16,
            None => hex_value(c) is None,
        }),
{
    if '0' <= c && c <= '9' {
        Some((c as u32 - 0x30) as u8)
    } else if 'a' <= c && c <= 'f' {
        Some((c as u32 - 0x57) as u8)
    } else if 'A' <= c && c <= 'F' {
        Some((c as u32 - 0x37) as u8)
    } else {
        None
    }
}

/// Writes bytes in hexadecimal.
pub fn hex_string(b: &[u8]) -> (r: String)
    ensures
        r@ == hex_of(b@),
{
    let mut r = String::new();
    let mut i: usize = 0;
    while i < b.len()
        invariant
            0 <= i <= b@.len(),
            r@ == hex_of(b@.subrange(0, i as int)),
        decreases b@.len() - i,
    {
        r.push(hex_digit_of(b[i] / 16));
        r.push(hex_digit_of(b[i] % 16));
        proof {
            let x = hex_of(b@.subrange(0, i as int));
            let y = hex_of(b@.subrange(0, i + 1));
            assert(y[2 * i] == hex_digit(b@[i as int] as int / 16)) by {
                assert((2 * i) / 2 == i && (2 * i) % 2 == 0);
            }
            assert(y[2 * i + 1] == hex_digit(b@[i as int] as int % 16)) by {
                assert((2 * i + 1) / 2 == i && (2 * i + 1) % 2 == 1);
            }
            assert forall|j: int| 0 <= j < 2 * i implies x[j] == y[j] by {
                assert(0 <= j / 2 < i);
            }
            assert(r@ =~= y);
        }
        i += 1;
    }
    assert(b@.subrange(0, i as int) =~= b@);
    r
}

/// Reads pairs of hexadecimal digits.
pub fn hex_bytes(s: &[char]) -> (r: Option<Vec<u8>>)
    ensures
        crate::text::opt_view(r) == unhex(s@),
{
    if s.len() % 2 != 0 {
        return None;
    }
    let mut r: Vec<u8> = Vec::new();
    let n: usize = s.len() / 2;
    let mut i: usize = 0;
    while i < n
        invariant
            0 <= i <= n,
            2 * n == s.len(),
            r@.len() == i,
            forall|j: int| 0 <= j < 2 * i ==> hex_value(#[trigger] s@[j]) is Some,
            forall|j: int|
                0 <= j < i ==> #[trigger] r@[j] == (hex_value(s@[2 * j])->0 * 16 + hex_value(
                    s@[2 * j + 1],
                )->0) as u8,
        decreases n - i,
    {
        let hi = hex_value_of(s[2 * i]);
        let lo = hex_value_of(s[2 * i + 1]);
        match (hi, lo) {
            (Some(h), Some(l)) => {
                r.push(h * 16 + l);
            },
            _ => {
                return None;
            },
        }
        i += 1;
    }
    assert(r@ =~= unhex(s@)->0);
    Some(r)
}

/// Reads the hexadecimal digits of a text.
pub fn hex_decode(s: &str) -> (r: Option<Vec<u8>>)
    ensures
        crate::text::opt_view(r) == unhex(s@),
{
    hex_bytes(chars_of(s).as_slice())
}

} // verus!
