//! The framing of the wire protocol: lines with their length in front.
use crate::bytes::{append_bytes, copy_bytes};
use crate::numbers::{hex_digit, hex_digit_of, hex_value, hex_value_of};
use crate::text::{lemma_views_push, text_of_slice, views};
use vstd::prelude::*;
use vstd::slice::slice_subrange;
use vstd::utf8::valid_utf8;

verus! {

/// One line of the wire protocol.
#[derive(PartialEq, Eq, Debug)]
pub enum PktLine {
    /// A line with a payload, without the length in front of it.
    Data(Vec<u8>),
    /// The line `0000`.
    Flush,
    /// The line `0001`.
    Delim,
}

/// The model of a [`PktLine`].
#[verifier::ext_equal]
pub enum PktModel {
    Data(Seq<u8>),
    Flush,
    Delim,
}

impl View for PktLine {
    type V = PktModel;

    open spec fn view(&self) -> PktModel {
        match self {
            PktLine::Data(p) => PktModel::Data(p@),
            PktLine::Flush => PktModel::Flush,
            PktLine::Delim => PktModel::Delim,
        }
    }
}

/// Why a line cannot be read or written.
#[derive(Clone, Copy, PartialEq, Eq, Structural, Debug)]
pub enum PktError {
    /// The input ends within a length.
    TruncatedPrefix,
    /// A length that is not text.
    PrefixNotText,
    /// A length that is not a hexadecimal number.
    PrefixNotHex,
    /// The length 3, which no line has.
    ReservedLength,
    /// The input ends within a payload.
    TruncatedPayload,
    /// A payload that is too long for one line.
    PayloadTooLarge,
}

/// The longest payload of a line.
pub const MAX_PKTLINE_DATA: usize = 65516;

/// The value of hexadecimal digits, given as ASCII bytes; nothing if one of them is no digit.
pub open spec fn hex_number(s: Seq<u8>) -> Option<int>
    decreases s.len(),
{
    if s.len() == 0 {
        Some(0)
    } else {
        match (hex_number(s.drop_last()), hex_value(s.last() as char)) {
            (Some(n), Some(d)) => Some(n * 16 + d),
            _ => None,
        }
    }
}

/// The line at the start of the input and the number of bytes that it takes up; nothing at the end
/// of the input.
pub open spec fn pkt_at(s: Seq<u8>) -> Result<Option<(PktModel, int)>, PktError> {
    if s.len() == 0 {
        Ok(None)
    } else if s.len() < 4 {
        Err(PktError::TruncatedPrefix)
    } else if !valid_utf8(s.subrange(0, 4)) {
        Err(PktError::PrefixNotText)
    } else {
        match hex_number(s.subrange(0, 4)) {
            None => Err(PktError::PrefixNotHex),
            Some(n) => if n == 0 || n == 2 {
                Ok(Some((PktModel::Flush, 4)))
            } else if n == 1 {
                Ok(Some((PktModel::Delim, 4)))
            } else if n == 3 {
                Err(PktError::ReservedLength)
            } else if n > s.len() {
                Err(PktError::TruncatedPayload)
            } else {
                Ok(Some((PktModel::Data(s.subrange(4, n)), n)))
            },
        }
    }
}

/// What is left of the input after a line was read from it, or could not be read.
pub open spec fn pkt_rest(s: Seq<u8>) -> Seq<u8> {
    match pkt_at(s) {
        Ok(None) => s,
        Ok(Some((_, n))) => s.subrange(n, s.len() as int),
        Err(PktError::TruncatedPrefix) => Seq::empty(),
        Err(PktError::TruncatedPayload) => Seq::empty(),
        Err(_) => s.subrange(4, s.len() as int),
    }
}

/// All the lines in the input.
pub open spec fn pkts_in(s: Seq<u8>) -> Result<Seq<PktModel>, PktError>
    decreases s.len(),
    via pkts_in_shrink
{
    match pkt_at(s) {
        Err(e) => Err(e),
        Ok(None) => Ok(Seq::empty()),
        Ok(Some((line, n))) => match pkts_in(s.subrange(n, s.len() as int)) {
            Err(e) => Err(e),
            Ok(lines) => Ok(seq![line] + lines),
        },
    }
}

/// A line that was read takes up at least four bytes, and no more than there are.
pub proof fn lemma_pkt_at(s: Seq<u8>)
    ensures
        pkt_at(s) matches Ok(Some((line, n))) ==> 4 <= n <= s.len(),
{
    if s.len() >= 4 {
        lemma_hex_number(s.subrange(0, 4));
    }
}

#[via_fn]
proof fn pkts_in_shrink(s: Seq<u8>) {
    lemma_pkt_at(s);
}

proof fn lemma_hex_number(s: Seq<u8>)
    ensures
        hex_number(s) matches Some(n) ==> 0 <= n,
        hex_number(s) matches Some(n) ==> (s.len() == 4 ==> n < 0x1_0000),
    decreases s.len(),
{
    if s.len() > 0 {
        lemma_hex_number(s.drop_last());
        reveal_with_fuel(hex_number, 6);
    }
}

/// Reads four hexadecimal digits.
fn read_hex_number(s: &[u8]) -> (r: Option<usize>)
    requires
        s@.len() == 4,
    ensures
        (match r {
            Some(n) => hex_number(s@) == Some(n as int),
            None => hex_number(s@) is None,
        }),
{
    let mut n: usize = 0;
    let mut k: usize = 0;
    assert(s@.subrange(0, 0) =~= Seq::empty());
    while k < 4
        invariant
            s@.len() == 4,
            0 <= k <= 4,
            hex_number(s@.subrange(0, k as int)) == Some(n as int),
            n < (if k == 0 {
                1int
            } else if k == 1 {
                0x10
            } else if k == 2 {
                0x100
            } else if k == 3 {
                0x1000
            } else {
                0x1_0000
            }),
        decreases 4 - k,
    {
        assert(s@.subrange(0, k + 1).drop_last() =~= s@.subrange(0, k as int));
        match hex_value_of(s[k] as char) {
            Some(d) => {
                n = n * 16 + d as usize;
            },
            None => {
                proof {
                    lemma_hex_number_prefix(s@, k + 1);
                }
                return None;
            },
        }
        k += 1;
    }
    assert(s@.subrange(0, 4) =~= s@);
    Some(n)
}

/// Digits with a beginning that is none are none.
proof fn lemma_hex_number_prefix(s: Seq<u8>, k: int)
    requires
        0 <= k <= s.len(),
        hex_number(s.subrange(0, k)) is None,
    ensures
        hex_number(s) is None,
    decreases s.len() - k,
{
    if k < s.len() {
        assert(s.subrange(0, k + 1).drop_last() =~= s.subrange(0, k));
        lemma_hex_number_prefix(s, k + 1);
    } else {
        assert(s.subrange(0, k) =~= s);
    }
}

/// Reads the next line, if the input is not at its end.
pub fn read_pkt_line(reader: &mut &[u8]) -> (r: Result<Option<PktLine>, PktError>)
    ensures
        (match r {
            Ok(Some(line)) => pkt_at((*old(reader))@) matches Ok(Some((m, _))) && m == line@,
            Ok(None) => pkt_at((*old(reader))@) == Ok::<Option<(PktModel, int)>, PktError>(None),
            Err(e) => pkt_at((*old(reader))@) == Err::<Option<(PktModel, int)>, PktError>(e),
        }),
        (*final(reader))@ == pkt_rest((*old(reader))@),
{
    let s = *reader;
    if s.len() == 0 {
        return Ok(None);
    }
    if s.len() < 4 {
        *reader = slice_subrange(s, s.len(), s.len());
        assert((*reader)@ =~= Seq::empty());
        return Err(PktError::TruncatedPrefix);
    }
    let prefix = slice_subrange(s, 0, 4);
    *reader = slice_subrange(s, 4, s.len());
    if text_of_slice(prefix).is_none() {
        return Err(PktError::PrefixNotText);
    }
    let n: usize = match read_hex_number(prefix) {
        Some(n) => n,
        None => return Err(PktError::PrefixNotHex),
    };
    if n == 0 || n == 2 {
        return Ok(Some(PktLine::Flush));
    }
    if n == 1 {
        return Ok(Some(PktLine::Delim));
    }
    if n == 3 {
        return Err(PktError::ReservedLength);
    }
    if n > s.len() {
        *reader = slice_subrange(s, s.len(), s.len());
        assert((*reader)@ =~= Seq::empty());
        return Err(PktError::TruncatedPayload);
    }
    *reader = slice_subrange(s, n, s.len());
    Ok(Some(PktLine::Data(copy_bytes(slice_subrange(s, 4, n)))))
}

/// What is left of the input after all its lines were read, or up to the first that could not be.
pub open spec fn pkts_rest(s: Seq<u8>) -> Seq<u8>
    decreases s.len(),
    via pkts_rest_shrink
{
    match pkt_at(s) {
        Ok(Some((_, n))) => pkts_rest(s.subrange(n, s.len() as int)),
        _ => pkt_rest(s),
    }
}

#[via_fn]
proof fn pkts_rest_shrink(s: Seq<u8>) {
    lemma_pkt_at(s);
}

/// Reads all the lines in the input.
pub fn read_all(reader: &mut &[u8]) -> (r: Result<Vec<PktLine>, PktError>)
    ensures
        (match r {
            Ok(v) => pkts_in((*old(reader))@) == Ok::<Seq<PktModel>, PktError>(views(v@)),
            Err(e) => pkts_in((*old(reader))@) == Err::<Seq<PktModel>, PktError>(e),
        }),
        (*final(reader))@ == pkts_rest((*old(reader))@),
        r is Ok ==> (*final(reader))@.len() == 0,
{
    let mut lines: Vec<PktLine> = Vec::new();
    let ghost all = pkts_in((*reader)@);
    assert(all == after_lines(views(lines@), all)) by {
        if let Ok(ls) = all {
            assert(views(lines@) + ls =~= ls);
        }
    }
    loop
        invariant
            all == pkts_in((*old(reader))@),
            all == after_lines(views(lines@), pkts_in((*reader)@)),
            pkts_rest((*reader)@) == pkts_rest((*old(reader))@),
        decreases (*reader)@.len(),
    {
        proof {
            lemma_pkt_at((*reader)@);
        }
        let ghost s = (*reader)@;
        match read_pkt_line(reader) {
            Err(e) => return Err(e),
            Ok(None) => {
                assert(views(lines@) + Seq::empty() =~= views(lines@));
                return Ok(lines);
            },
            Ok(Some(line)) => {
                let ghost before = lines@;
                lines.push(line);
                proof {
                    lemma_views_push(before, line);
                    if let Ok(ls) = pkts_in((*reader)@) {
                        assert(views(before) + (seq![line@] + ls) =~= views(lines@) + ls);
                    }
                }
            },
        }
    }
}

/// The result of reading lines, with more lines put in front.
spec fn after_lines(front: Seq<PktModel>, r: Result<Seq<PktModel>, PktError>) -> Result<
    Seq<PktModel>,
    PktError,
> {
    match r {
        Ok(ls) => Ok(front + ls),
        Err(e) => Err(e),
    }
}

/// Four lower-case hexadecimal digits, in ASCII.
pub open spec fn hex4(n: int) -> Seq<u8> {
    seq![
        hex_digit(n / 0x1000 % 16) as u8,
        hex_digit(n / 0x100 % 16) as u8,
        hex_digit(n / 0x10 % 16) as u8,
        hex_digit(n % 16) as u8,
    ]
}

/// A line as it goes over the wire: its length, which counts itself, and its payload.
pub open spec fn pkt_bytes(line: PktModel) -> Seq<u8> {
    match line {
        PktModel::Flush => hex4(0),
        PktModel::Delim => hex4(1),
        PktModel::Data(p) => hex4(p.len() as int + 4) + p,
    }
}

/// Lines as they go over the wire, one after another.
pub open spec fn pkts_bytes(lines: Seq<PktModel>) -> Seq<u8>
    decreases lines.len(),
{
    if lines.len() == 0 {
        Seq::empty()
    } else {
        pkts_bytes(lines.drop_last()) + pkt_bytes(lines.last())
    }
}

/// Whether a line is short enough to be sent.
pub open spec fn fits(line: PktModel) -> bool {
    line matches PktModel::Data(p) ==> p.len() <= MAX_PKTLINE_DATA
}

fn push_hex4(w: &mut Vec<u8>, n: usize)
    requires
        n < 0x1_0000,
    ensures
        final(w)@ == old(w)@ + hex4(n as int),
{
    w.push(hex_digit_of((n / 0x1000 % 16) as u8) as u32 as u8);
    w.push(hex_digit_of((n / 0x100 % 16) as u8) as u32 as u8);
    w.push(hex_digit_of((n / 0x10 % 16) as u8) as u32 as u8);
    w.push(hex_digit_of((n % 16) as u8) as u32 as u8);
    assert(w@ =~= old(w)@ + hex4(n as int));
}

/// Writes a line.
pub fn write_pkt_line(w: &mut Vec<u8>, line: &PktLine) -> (r: Result<(), PktError>)
    ensures
        (match r {
            Ok(_) => fits(line@) && final(w)@ == old(w)@ + pkt_bytes(line@),
            Err(e) => !fits(line@) && e == PktError::PayloadTooLarge && final(w)@ == old(w)@,
        }),
{
    match line {
        PktLine::Flush => {
            push_hex4(w, 0);
            Ok(())
        },
        PktLine::Delim => {
            push_hex4(w, 1);
            Ok(())
        },
        PktLine::Data(payload) => {
            if payload.len() > MAX_PKTLINE_DATA {
                return Err(PktError::PayloadTooLarge);
            }
            push_hex4(w, payload.len() + 4);
            append_bytes(w, payload.as_slice());
            assert(w@ =~= old(w)@ + pkt_bytes(line@));
            Ok(())
        },
    }
}

/// Four hexadecimal digits are read back as the number that they write.
proof fn lemma_hex4(n: int)
    requires
        0 <= n < 0x1_0000,
    ensures
        hex_number(hex4(n)) == Some(n),
        valid_utf8(hex4(n)),
        hex4(n)[0] != 0x2b,
{
    let h = hex4(n);
    let cs = seq![
        hex_digit(n / 0x1000 % 16),
        hex_digit(n / 0x100 % 16),
        hex_digit(n / 0x10 % 16),
        hex_digit(n % 16),
    ];
    assert(vstd::utf8::is_ascii_chars(cs));
    crate::text::lemma_encode_ascii(cs);
    assert(h =~= vstd::utf8::encode_utf8(cs));
    vstd::utf8::encode_utf8_valid_utf8(cs);
    let h3 = h.drop_last();
    let h2 = h3.drop_last();
    let h1 = h2.drop_last();
    let h0 = h1.drop_last();
    assert(h0 =~= Seq::empty());
    assert(h3.last() == h[2] && h2.last() == h[1] && h1.last() == h[0]);
    assert(hex_value(h[0] as char) == Some(n / 0x1000 % 16));
    assert(hex_value(h[1] as char) == Some(n / 0x100 % 16));
    assert(hex_value(h[2] as char) == Some(n / 0x10 % 16));
    assert(hex_value(h[3] as char) == Some(n % 16));
    assert(hex_number(h0) == Some(0int));
    assert(hex_number(h1) == Some(n / 0x1000 % 16));
    let a = n / 0x1000 % 16;
    let b = n / 0x100 % 16;
    let c = n / 0x10 % 16;
    let d = n % 16;
    assert(hex_number(h2) == Some(a * 16 + b));
    assert(hex_number(h3) == Some((a * 16 + b) * 16 + c));
    assert(hex_number(h) == Some(((a * 16 + b) * 16 + c) * 16 + d));
    assert(n / 0x1000 < 16);
    assert(n / 0x100 == n / 0x1000 * 16 + b);
    assert(n / 0x10 == n / 0x100 * 16 + c);
    assert(n == n / 0x10 * 16 + d);
}

/// A line that is written is read back, whatever follows it.
pub proof fn law_pkt_round_trip(line: PktModel, rest: Seq<u8>)
    requires
        fits(line),
    ensures
        pkt_at(pkt_bytes(line) + rest) == Ok::<Option<(PktModel, int)>, PktError>(
            Some((line, pkt_bytes(line).len() as int)),
        ),
        pkt_rest(pkt_bytes(line) + rest) == rest,
{
    let s = pkt_bytes(line) + rest;
    let n = match line {
        PktModel::Flush => 0int,
        PktModel::Delim => 1int,
        PktModel::Data(p) => p.len() as int + 4,
    };
    lemma_hex4(n);
    assert(s.subrange(0, 4) =~= hex4(n));
    if let PktModel::Data(p) = line {
        assert(s.subrange(4, n) =~= p);
    }
    assert(s.subrange(pkt_bytes(line).len() as int, s.len() as int) =~= rest);
}

proof fn lemma_pkts_suffix(lines: Seq<PktModel>, i: int, rest: Seq<u8>)
    requires
        0 <= i <= lines.len(),
        forall|k: int| 0 <= k < lines.len() ==> fits(#[trigger] lines[k]),
    ensures
        pkts_in(pkts_bytes(lines.subrange(0, i)) + rest) == after_lines(
            lines.subrange(0, i),
            pkts_in(rest),
        ),
    decreases i,
{
    if i == 0 {
        assert(pkts_bytes(lines.subrange(0, 0)) + rest =~= rest);
        if let Ok(ls) = pkts_in(rest) {
            assert(lines.subrange(0, 0) + ls =~= ls);
        }
    } else {
        let line = lines[i - 1];
        let one = pkt_bytes(line);
        assert(lines.subrange(0, i).drop_last() =~= lines.subrange(0, i - 1));
        assert(lines.subrange(0, i).last() == line);
        assert(pkts_bytes(lines.subrange(0, i)) + rest =~= pkts_bytes(lines.subrange(0, i - 1)) + (
        one + rest));
        lemma_pkts_suffix(lines, i - 1, one + rest);
        law_pkt_round_trip(line, rest);
        assert((one + rest).subrange(one.len() as int, (one + rest).len() as int) =~= rest);
        if let Ok(ls) = pkts_in(rest) {
            assert(lines.subrange(0, i - 1) + (seq![line] + ls) =~= lines.subrange(0, i) + ls);
        }
    }
}

/// Lines that are written one after another are read back in that order.
pub proof fn law_pkts_round_trip(lines: Seq<PktModel>)
    requires
        forall|k: int| 0 <= k < lines.len() ==> fits(#[trigger] lines[k]),
    ensures
        pkts_in(pkts_bytes(lines)) == Ok::<Seq<PktModel>, PktError>(lines),
{
    lemma_pkts_suffix(lines, lines.len() as int, Seq::empty());
    assert(lines.subrange(0, lines.len() as int) =~= lines);
    assert(pkts_bytes(lines) + Seq::empty() =~= pkts_bytes(lines));
    assert(lines + Seq::empty() =~= lines);
}

/// Whether the length at the start of the input is written as this library writes lengths: as four
/// lower-case digits, of a line that it would write.
pub open spec fn usual_prefix(s: Seq<u8>) -> bool {
    s.len() >= 4 && exists|n: int|
        0 <= n <= MAX_PKTLINE_DATA + 4 && n != 2 && s.subrange(0, 4) == #[trigger] hex4(n)
}

/// A line that was read from input in the usual form is written back as it stood there.
pub proof fn law_pkt_rewrite(s: Seq<u8>)
    requires
        usual_prefix(s),
    ensures
        pkt_at(s) matches Ok(Some((line, n))) ==> pkt_bytes(line) == s.subrange(0, n),
{
    let n = choose|n: int|
        0 <= n <= MAX_PKTLINE_DATA + 4 && n != 2 && s.subrange(0, 4) == #[trigger] hex4(n);
    lemma_hex4(n);
    if let Ok(Some((line, m))) = pkt_at(s) {
        if n >= 4 {
            assert(hex4(n) + s.subrange(4, n) =~= s.subrange(0, n));
        }
    }
}

} // verus!
