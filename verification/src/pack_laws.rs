//! How the parts of a pack are written down: numbers, deltas and entries.
use crate::bytes::be32_at;
use crate::object::{framed, oid_of, ObjectSha};
use crate::outside::{sha1_of, zlib_inflated};
use crate::parse_packfile::{
    copy_argument, delta_applied, delta_commands, distance, distance_rest, find_id, find_offset,
    groups, kind_name, loose_base, pack_entry, pack_in, pack_objects, packed, pow2_7, pow256,
    type_and_size, varint, Kind, PackError, PackedModel,
};
use vstd::arithmetic::power2::{
    lemma2_to64, lemma2_to64_rest, lemma_pow2_adds, lemma_pow2_pos, lemma_pow2_strictly_increases,
    pow2,
};
use vstd::bits::lemma_u64_shl_is_mul;
use vstd::prelude::*;

verus! {

/// Whether just the last byte of a number is below 128.
pub open spec fn marked(g: Seq<u8>) -> bool {
    &&& g.len() > 0
    &&& g.last() < 128
    &&& forall|i: int| 0 <= i < g.len() - 1 ==> #[trigger] g[i] >= 128
}

/// The number that bytes give, seven bits each, the least significant first.
pub open spec fn number_of(g: Seq<u8>) -> nat
    decreases g.len(),
{
    if g.len() == 0 {
        0
    } else {
        (g[0] % 128) as nat + 128 * number_of(g.drop_first())
    }
}

/// Whether `g` stands at `pos` in `s`.
pub open spec fn stands_at(s: Seq<u8>, pos: int, g: Seq<u8>) -> bool {
    0 <= pos && pos + g.len() <= s.len() && s.subrange(pos, pos + g.len()) == g
}

proof fn lemma_stands_parts(s: Seq<u8>, pos: int, a: Seq<u8>, b: Seq<u8>)
    requires
        stands_at(s, pos, a + b),
    ensures
        stands_at(s, pos, a),
        stands_at(s, pos + a.len(), b),
{
    let ab = a + b;
    assert forall|k: int| 0 <= k < ab.len() implies s[pos + k] == #[trigger] ab[k] by {
        assert(s[pos + k] == s.subrange(pos, pos + ab.len())[k]);
    }
    assert(s.subrange(pos, pos + a.len()) =~= a) by {
        assert forall|k: int| 0 <= k < a.len() implies s[pos + k] == a[k] by {
            assert(ab[k] == a[k]);
        }
    }
    assert(s.subrange(pos + a.len(), pos + a.len() + b.len()) =~= b) by {
        assert forall|k: int| 0 <= k < b.len() implies s[pos + a.len() + k] == b[k] by {
            assert(ab[a.len() + k] == b[k]);
        }
    }
}

proof fn lemma_stands_first(s: Seq<u8>, pos: int, g: Seq<u8>)
    requires
        stands_at(s, pos, g),
        g.len() > 0,
    ensures
        s[pos] == g[0],
        stands_at(s, pos + 1, g.drop_first()),
{
    assert(g =~= seq![g[0]] + g.drop_first());
    lemma_stands_parts(s, pos, seq![g[0]], g.drop_first());
    assert(s.subrange(pos, pos + 1)[0] == g[0]);
}

/// A number that is written in groups of seven bits, the least significant first and all but the
/// last marked, is read as that number, in any of its forms, on top of the bits below.
proof fn lemma_number_read(s: Seq<u8>, pos: int, g: Seq<u8>, acc: u64, shift: int)
    requires
        stands_at(s, pos, g),
        marked(g),
        0 <= shift,
        shift + 7 * (g.len() - 1) < 64,
        acc < pow2(shift as nat),
        acc + number_of(g) * pow2(shift as nat) <= u64::MAX,
    ensures
        varint(s, pos, acc, shift) == Ok::<(u64, int), PackError>(
            ((acc + number_of(g) * pow2(shift as nat)) as u64, (pos + g.len()) as int),
        ),
    decreases g.len(),
{
    lemma_stands_first(s, pos, g);
    let rest = g.drop_first();
    let b = (g[0] % 128) as u64;
    let sh = shift as u64;
    let p = pow2(shift as nat);
    let r = number_of(rest);
    let n = number_of(g);
    assert(n == b + 128 * r);
    assert(n * p == b * p + 128 * (r * p)) by (nonlinear_arith)
        requires
            n == b + 128 * r,
    ;
    assert(r * p >= 0) by (nonlinear_arith);
    assert(b * p >= 0) by (nonlinear_arith);
    lemma_u64_shl_is_mul(b, sh);
    lemma_pow2_pos(shift as nat);
    assert(1 * p <= u64::MAX) by {
        lemma2_to64_rest();
        if shift < 63 {
            lemma_pow2_strictly_increases(shift as nat, 63);
        }
        lemma2_to64();
    }
    lemma_u64_shl_is_mul(1, sh);
    assert((acc | (b << sh)) == acc + (b << sh)) by (bit_vector)
        requires
            sh < 64,
            acc < (1u64 << sh),
    ;
    let v = acc | (b << sh);
    assert(v == acc + b * p);
    if g.len() == 1 {
        assert(g[0] == g.last());
        assert(rest =~= Seq::empty());
        assert(r == 0);
        assert(r * p == 0);
    } else {
        assert(g[0] >= 128);
        assert(rest.last() == g.last());
        assert forall|i: int| 0 <= i < rest.len() - 1 implies #[trigger] rest[i] >= 128 by {
            assert(rest[i] == g[i + 1]);
        }
        lemma_pow2_adds(shift as nat, 7);
        lemma2_to64();
        let q = pow2((shift + 7) as nat);
        assert(q == p * 128);
        assert(r * q == 128 * (r * p)) by (nonlinear_arith)
            requires
                q == p * 128,
        ;
        assert(v < q) by (nonlinear_arith)
            requires
                v == acc + b * p,
                acc < p,
                b <= 127,
                q == p * 128,
        ;
        lemma_number_read(s, pos + 1, rest, v, shift + 7);
    }
}

/// A number is read as what it gives, wherever it stands, and with it where it ends.
pub proof fn law_number_read(front: Seq<u8>, g: Seq<u8>, rest: Seq<u8>)
    requires
        marked(g),
        g.len() <= 10,
        number_of(g) <= u64::MAX,
    ensures
        varint(front + g + rest, front.len() as int, 0, 0) == Ok::<(u64, int), PackError>(
            (number_of(g) as u64, (front.len() + g.len()) as int),
        ),
{
    let s = front + g + rest;
    assert(s.subrange(front.len() as int, (front.len() + g.len()) as int) =~= g);
    lemma2_to64();
    assert(number_of(g) * 1 == number_of(g));
    lemma_number_read(s, front.len() as int, g, 0, 0);
}

/// A number that is written gives that number back.
pub proof fn law_number_written(n: nat)
    ensures
        marked(groups(n)),
        number_of(groups(n)) == n,
    decreases n,
{
    let g = groups(n);
    if n < 128 {
        assert(g.drop_first() =~= Seq::empty());
        assert(number_of(g.drop_first()) == 0);
    } else {
        let t = groups(n / 128);
        law_number_written(n / 128);
        assert(g.drop_first() =~= t);
        assert(g.last() == t.last());
        assert forall|i: int| 0 <= i < g.len() - 1 implies #[trigger] g[i] >= 128 by {
            if i > 0 {
                assert(g[i] == t[i - 1]);
            }
        }
    }
}

/// A piece of what a delta makes: a run of the base, or bytes of its own. Of the seven bytes that
/// say where a run starts and how long it is, those are there that are `given`; the others are zero.
/// A length of zero stands for 65536.
#[verifier::ext_equal]
pub enum Piece {
    Run { at: nat, len: nat, given: Seq<bool> },
    Own(Seq<u8>),
}

/// The seven bytes of a run: four of where it starts and three of its length, each the least
/// significant first.
pub open spec fn run_bytes(at: nat, len: nat) -> Seq<u8> {
    seq![
        (at % 256) as u8,
        (at / 0x100 % 256) as u8,
        (at / 0x1_0000 % 256) as u8,
        (at / 0x100_0000 % 256) as u8,
        (len % 256) as u8,
        (len / 0x100 % 256) as u8,
        (len / 0x1_0000 % 256) as u8,
    ]
}

/// The value of a bit.
pub open spec fn bit(b: bool, value: int) -> int {
    if b {
        value
    } else {
        0
    }
}

/// The bytes that are given, from the `i`th on.
pub open spec fn given_bytes(given: Seq<bool>, bytes: Seq<u8>, i: int) -> Seq<u8>
    decreases 7 - i,
{
    if i >= 7 || i < 0 {
        Seq::empty()
    } else if given[i] {
        seq![bytes[i]] + given_bytes(given, bytes, i + 1)
    } else {
        given_bytes(given, bytes, i + 1)
    }
}

/// How a piece is written down.
pub open spec fn piece_bytes(p: Piece) -> Seq<u8> {
    match p {
        Piece::Run { at, len, given } => seq![
            (128 + bit(given[0], 1) + bit(given[1], 2) + bit(given[2], 4) + bit(given[3], 8) + bit(
                given[4],
                16,
            ) + bit(given[5], 32) + bit(given[6], 64)) as u8,
        ] + given_bytes(given, run_bytes(at, len), 0),
        Piece::Own(bytes) => seq![bytes.len() as u8] + bytes,
    }
}

/// Whether a piece can be written down.
pub open spec fn is_piece(p: Piece) -> bool {
    match p {
        Piece::Run { at, len, given } => at < 0x1_0000_0000 && len < 0x100_0000 && given.len() == 7
            && forall|i: int| 0 <= i < 7 && !#[trigger] given[i] ==> run_bytes(at, len)[i] == 0,
        Piece::Own(bytes) => 1 <= bytes.len() <= 127,
    }
}

/// How long a run of a given length is.
pub open spec fn run_len(len: nat) -> nat {
    if len == 0 {
        0x1_0000
    } else {
        len
    }
}

/// Whether the base has what a piece takes from it.
pub open spec fn within(base: Seq<u8>, p: Piece) -> bool {
    match p {
        Piece::Run { at, len, given } => at + run_len(len) <= base.len(),
        Piece::Own(_) => true,
    }
}

/// What a piece is.
pub open spec fn piece_of(base: Seq<u8>, p: Piece) -> Seq<u8> {
    match p {
        Piece::Run { at, len, given } => base.subrange(at as int, (at + run_len(len)) as int),
        Piece::Own(bytes) => bytes,
    }
}

/// The pieces one after another.
pub open spec fn made_of(base: Seq<u8>, pieces: Seq<Piece>) -> Seq<u8>
    decreases pieces.len(),
{
    if pieces.len() == 0 {
        Seq::empty()
    } else {
        piece_of(base, pieces[0]) + made_of(base, pieces.drop_first())
    }
}

/// How pieces are written down.
pub open spec fn pieces_bytes(pieces: Seq<Piece>) -> Seq<u8>
    decreases pieces.len(),
{
    if pieces.len() == 0 {
        Seq::empty()
    } else {
        piece_bytes(pieces[0]) + pieces_bytes(pieces.drop_first())
    }
}

spec fn argument(bytes: Seq<u8>, first: int, count: int, i: int) -> int
    decreases count - i,
{
    if i >= count {
        0
    } else {
        bytes[first + i] * pow256(i) + argument(bytes, first, count, i + 1)
    }
}

proof fn lemma_command_bits(given: Seq<bool>, cmd: u8)
    requires
        given.len() == 7,
        cmd == 128 + bit(given[0], 1) + bit(given[1], 2) + bit(given[2], 4) + bit(given[3], 8) + bit(
            given[4],
            16,
        ) + bit(given[5], 32) + bit(given[6], 64),
    ensures
        forall|i: int| 0 <= i < 7 ==> (#[trigger] given[i] <==> (cmd as int / pow2_7(i)) % 2 == 1),
{
    assert forall|i: int| 0 <= i < 7 implies (#[trigger] given[i] <==> (cmd as int / pow2_7(i)) % 2
        == 1) by {
        if i == 0 {
        } else if i == 1 {
        } else if i == 2 {
        } else if i == 3 {
        } else if i == 4 {
        } else if i == 5 {
        } else {
        }
    }
}

/// The given bytes of an argument, from the `i`th on.
spec fn argument_bytes(given: Seq<bool>, bytes: Seq<u8>, first: int, count: int, i: int) -> Seq<u8>
    decreases count - i,
{
    if i >= count {
        Seq::empty()
    } else if given[first + i] {
        seq![bytes[first + i]] + argument_bytes(given, bytes, first, count, i + 1)
    } else {
        argument_bytes(given, bytes, first, count, i + 1)
    }
}

proof fn lemma_argument_read(
    s: Seq<u8>,
    pos: int,
    cmd: u8,
    given: Seq<bool>,
    bytes: Seq<u8>,
    first: int,
    count: int,
    i: int,
    acc: int,
)
    requires
        0 <= i <= count <= 4,
        0 <= first,
        first + count <= 7,
        given.len() == 7,
        bytes.len() == 7,
        forall|k: int| 0 <= k < 7 && !#[trigger] given[k] ==> bytes[k] == 0,
        forall|k: int| 0 <= k < 7 ==> (#[trigger] given[k] <==> (cmd as int / pow2_7(k)) % 2 == 1),
        stands_at(s, pos, argument_bytes(given, bytes, first, count, i)),
    ensures
        copy_argument(s, pos, cmd, first, count, i, acc) == Ok::<(int, int), PackError>(
            (
                acc + argument(bytes, first, count, i),
                (pos + argument_bytes(given, bytes, first, count, i).len()) as int,
            ),
        ),
    decreases count - i,
{
    if i < count {
        let g = argument_bytes(given, bytes, first, count, i);
        let t = argument_bytes(given, bytes, first, count, i + 1);
        if given[first + i] {
            assert(g =~= seq![bytes[first + i]] + t);
            lemma_stands_first(s, pos, g);
            assert(g.drop_first() =~= t);
            lemma_argument_read(
                s,
                pos + 1,
                cmd,
                given,
                bytes,
                first,
                count,
                i + 1,
                acc + s[pos] * pow256(i),
            );
        } else {
            assert(bytes[first + i] * pow256(i) == 0);
            lemma_argument_read(s, pos, cmd, given, bytes, first, count, i + 1, acc);
        }
    }
}

proof fn lemma_given_parts(given: Seq<bool>, bytes: Seq<u8>)
    requires
        given.len() == 7,
        bytes.len() == 7,
    ensures
        given_bytes(given, bytes, 0) == argument_bytes(given, bytes, 0, 4, 0) + argument_bytes(
            given,
            bytes,
            4,
            3,
            0,
        ),
{
    reveal_with_fuel(given_bytes, 8);
    reveal_with_fuel(argument_bytes, 5);
    assert(given_bytes(given, bytes, 4) =~= argument_bytes(given, bytes, 4, 3, 0));
    assert(given_bytes(given, bytes, 3) =~= argument_bytes(given, bytes, 0, 4, 3) + given_bytes(
        given,
        bytes,
        4,
    ));
    assert(given_bytes(given, bytes, 2) =~= argument_bytes(given, bytes, 0, 4, 2) + given_bytes(
        given,
        bytes,
        4,
    ));
    assert(given_bytes(given, bytes, 1) =~= argument_bytes(given, bytes, 0, 4, 1) + given_bytes(
        given,
        bytes,
        4,
    ));
    assert(given_bytes(given, bytes, 0) =~= argument_bytes(given, bytes, 0, 4, 0) + given_bytes(
        given,
        bytes,
        4,
    ));
}

/// One command does what its piece says.
proof fn lemma_piece_read(base: Seq<u8>, delta: Seq<u8>, pos: int, p: Piece, out: Seq<u8>)
    requires
        is_piece(p),
        stands_at(delta, pos, piece_bytes(p)),
    ensures
        piece_bytes(p).len() > 0,
        delta_commands(base, delta, pos, out) == if within(base, p) {
            delta_commands(base, delta, pos + piece_bytes(p).len(), out + piece_of(base, p))
        } else {
            Err(PackError::DeltaCopyRange)
        },
{
    let g = piece_bytes(p);
    lemma_stands_first(delta, pos, g);
    match p {
        Piece::Own(bytes) => {
            assert(g.drop_first() =~= bytes);
            assert(delta.subrange(pos + 1, pos + 1 + bytes.len()) =~= bytes);
        },
        Piece::Run { at, len, given } => {
            let bytes = run_bytes(at, len);
            let cmd = g[0];
            lemma_command_bits(given, cmd);
            lemma_given_parts(given, bytes);
            let a = argument_bytes(given, bytes, 0, 4, 0);
            let b = argument_bytes(given, bytes, 4, 3, 0);
            assert(g.drop_first() =~= a + b);
            lemma_stands_parts(delta, pos + 1, a, b);
            lemma_argument_read(delta, pos + 1, cmd, given, bytes, 0, 4, 0, 0);
            lemma_argument_read(delta, pos + 1 + a.len(), cmd, given, bytes, 4, 3, 0, 0);
            reveal_with_fuel(argument, 5);
            assert(argument(bytes, 0, 4, 0) == at);
            assert(argument(bytes, 4, 3, 0) == len);
        },
    }
}

proof fn lemma_pieces_read(base: Seq<u8>, delta: Seq<u8>, pos: int, pieces: Seq<Piece>, out: Seq<u8>)
    requires
        forall|i: int| 0 <= i < pieces.len() ==> is_piece(#[trigger] pieces[i]),
        forall|i: int| 0 <= i < pieces.len() ==> within(base, #[trigger] pieces[i]),
        stands_at(delta, pos, pieces_bytes(pieces)),
    ensures
        delta_commands(base, delta, pos, out) == delta_commands(
            base,
            delta,
            pos + pieces_bytes(pieces).len(),
            out + made_of(base, pieces),
        ),
    decreases pieces.len(),
{
    if pieces.len() == 0 {
        assert(out + made_of(base, pieces) =~= out);
    } else {
        let p = pieces[0];
        let t = pieces.drop_first();
        lemma_stands_parts(delta, pos, piece_bytes(p), pieces_bytes(t));
        lemma_piece_read(base, delta, pos, p, out);
        assert forall|i: int| 0 <= i < t.len() implies is_piece(#[trigger] t[i]) by {
            assert(t[i] == pieces[i + 1]);
        }
        assert forall|i: int| 0 <= i < t.len() implies within(base, #[trigger] t[i]) by {
            assert(t[i] == pieces[i + 1]);
        }
        lemma_pieces_read(base, delta, pos + piece_bytes(p).len(), t, out + piece_of(base, p));
        assert(out + piece_of(base, p) + made_of(base, t) =~= out + made_of(base, pieces));
    }
}

proof fn lemma_delta_sizes(base: Seq<u8>, a: Seq<u8>, b: Seq<u8>, tail: Seq<u8>)
    requires
        marked(a) && a.len() <= 10 && number_of(a) <= u64::MAX,
        marked(b) && b.len() <= 10 && number_of(b) <= u64::MAX,
    ensures
        delta_applied(base, a + b + tail) == if number_of(a) != base.len() {
            Err(PackError::DeltaBaseSize)
        } else {
            match delta_commands(base, a + b + tail, (a.len() + b.len()) as int, Seq::empty()) {
                Err(e) => Err(e),
                Ok(out) => if out.len() == number_of(b) {
                    Ok(out)
                } else {
                    Err(PackError::DeltaTargetSize)
                },
            }
        },
{
    assert(Seq::<u8>::empty() + a + (b + tail) =~= a + b + tail);
    law_number_read(Seq::empty(), a, b + tail);
    law_number_read(a, b, tail);
}

proof fn lemma_delta_upto(
    base: Seq<u8>,
    a: Seq<u8>,
    b: Seq<u8>,
    pieces: Seq<Piece>,
    tail: Seq<u8>,
)
    requires
        forall|i: int| 0 <= i < pieces.len() ==> is_piece(#[trigger] pieces[i]),
        forall|i: int| 0 <= i < pieces.len() ==> within(base, #[trigger] pieces[i]),
    ensures
        delta_commands(
            base,
            a + b + (pieces_bytes(pieces) + tail),
            (a.len() + b.len()) as int,
            Seq::empty(),
        ) == delta_commands(
            base,
            a + b + (pieces_bytes(pieces) + tail),
            (a.len() + b.len() + pieces_bytes(pieces).len()) as int,
            made_of(base, pieces),
        ),
{
    let c = pieces_bytes(pieces);
    let delta = a + b + (c + tail);
    let pos = (a.len() + b.len()) as int;
    assert(delta.subrange(pos, pos + c.len()) =~= c);
    lemma_pieces_read(base, delta, pos, pieces, Seq::empty());
    assert(Seq::<u8>::empty() + made_of(base, pieces) =~= made_of(base, pieces));
}

/// A delta makes what its pieces are, one after another: runs of the base from where they start, and
/// bytes of its own. `a` and `b` give the sizes of the base and of what is made.
pub proof fn law_delta_makes(base: Seq<u8>, a: Seq<u8>, b: Seq<u8>, pieces: Seq<Piece>)
    requires
        marked(a) && a.len() <= 10 && number_of(a) == base.len() <= u64::MAX,
        marked(b) && b.len() <= 10 && number_of(b) == made_of(base, pieces).len() <= u64::MAX,
        forall|i: int| 0 <= i < pieces.len() ==> is_piece(#[trigger] pieces[i]),
        forall|i: int| 0 <= i < pieces.len() ==> within(base, #[trigger] pieces[i]),
    ensures
        delta_applied(base, a + b + pieces_bytes(pieces)) == Ok::<Seq<u8>, PackError>(
            made_of(base, pieces),
        ),
{
    let c = pieces_bytes(pieces);
    assert(c + Seq::<u8>::empty() =~= c);
    lemma_delta_sizes(base, a, b, c);
    lemma_delta_upto(base, a, b, pieces, Seq::empty());
}

/// A delta for a base of another size is refused, as is one that makes more or less than it says,
/// one that takes what the base has not, and one with an empty command.
#[verifier::rlimit(40)]
pub proof fn law_delta_refused(
    base: Seq<u8>,
    a: Seq<u8>,
    b: Seq<u8>,
    pieces: Seq<Piece>,
    p: Piece,
    rest: Seq<u8>,
)
    requires
        marked(a) && a.len() <= 10 && number_of(a) <= u64::MAX,
        marked(b) && b.len() <= 10 && number_of(b) <= u64::MAX,
        forall|i: int| 0 <= i < pieces.len() ==> is_piece(#[trigger] pieces[i]),
        forall|i: int| 0 <= i < pieces.len() ==> within(base, #[trigger] pieces[i]),
        is_piece(p),
    ensures
        number_of(a) != base.len() ==> delta_applied(base, a + b + rest) == Err::<
            Seq<u8>,
            PackError,
        >(PackError::DeltaBaseSize),
        number_of(a) == base.len() ==> {
            &&& number_of(b) != made_of(base, pieces).len() ==> delta_applied(
                base,
                a + b + pieces_bytes(pieces),
            ) == Err::<Seq<u8>, PackError>(PackError::DeltaTargetSize)
            &&& !within(base, p) ==> delta_applied(
                base,
                a + b + (pieces_bytes(pieces) + (piece_bytes(p) + rest)),
            ) == Err::<Seq<u8>, PackError>(PackError::DeltaCopyRange)
            &&& delta_applied(base, a + b + (pieces_bytes(pieces) + (seq![0u8] + rest))) == Err::<
                Seq<u8>,
                PackError,
            >(PackError::DeltaZeroCommand)
        },
{
    let c = pieces_bytes(pieces);
    lemma_delta_sizes(base, a, b, rest);
    if number_of(a) == base.len() {
        let end = (a.len() + b.len() + c.len()) as int;
        let made = made_of(base, pieces);
        assert(number_of(b) != made.len() ==> delta_applied(base, a + b + c) == Err::<
            Seq<u8>,
            PackError,
        >(PackError::DeltaTargetSize)) by {
            assert(c + Seq::<u8>::empty() =~= c);
            lemma_delta_sizes(base, a, b, c);
            lemma_delta_upto(base, a, b, pieces, Seq::empty());
        }
        let g = piece_bytes(p);
        let two = a + b + (c + (g + rest));
        assert(!within(base, p) ==> delta_applied(base, two) == Err::<Seq<u8>, PackError>(
            PackError::DeltaCopyRange,
        )) by {
            lemma_delta_sizes(base, a, b, c + (g + rest));
            lemma_delta_upto(base, a, b, pieces, g + rest);
            assert(two.subrange(end, end + g.len()) =~= g);
            lemma_piece_read(base, two, end, p, made);
        }
        let three = a + b + (c + (seq![0u8] + rest));
        assert(delta_applied(base, three) == Err::<Seq<u8>, PackError>(
            PackError::DeltaZeroCommand,
        )) by {
            lemma_delta_sizes(base, a, b, c + (seq![0u8] + rest));
            lemma_delta_upto(base, a, b, pieces, seq![0u8] + rest);
            assert(three[end] == 0);
        }
    }
}

/// The distance that bytes give, seven bits each, the most significant first; every byte but the
/// first counts one more of what comes before it, so that no distance has two forms.
pub open spec fn distance_of(g: Seq<u8>) -> nat
    decreases g.len(),
{
    if g.len() == 0 {
        0
    } else if g.len() == 1 {
        (g[0] % 128) as nat
    } else {
        (distance_of(g.drop_last()) + 1) * 128 + (g.last() % 128) as nat
    }
}

proof fn lemma_distance_grows(g: Seq<u8>, i: int)
    requires
        1 <= i <= g.len(),
    ensures
        distance_of(g.subrange(0, i)) <= distance_of(g),
        i < g.len() ==> (distance_of(g.subrange(0, i)) + 1) * 128 <= distance_of(g),
    decreases g.len() - i,
{
    if i < g.len() {
        let h = g.subrange(0, i + 1);
        assert(h.drop_last() =~= g.subrange(0, i));
        lemma_distance_grows(g, i + 1);
    } else {
        assert(g.subrange(0, i) =~= g);
    }
}

proof fn lemma_distance_rest(s: Seq<u8>, pos: int, g: Seq<u8>, i: int)
    requires
        stands_at(s, pos, g),
        marked(g),
        1 <= i < g.len(),
        distance_of(g) <= u64::MAX,
    ensures
        distance_rest(s, pos + i, distance_of(g.subrange(0, i)) as u64) == Ok::<
            (u64, int),
            PackError,
        >((distance_of(g) as u64, (pos + g.len()) as int)),
    decreases g.len() - i,
{
    let acc = distance_of(g.subrange(0, i));
    let h = g.subrange(0, i + 1);
    lemma_distance_grows(g, i);
    lemma_distance_grows(g, i + 1);
    assert(h.drop_last() =~= g.subrange(0, i));
    assert(s[pos + i] == s.subrange(pos, pos + g.len())[i]);
    let x = (acc + 1) as u64;
    let b = (g[i] % 128) as u64;
    assert((x << 7u64) | b == x * 128 + b) by (bit_vector)
        requires
            x * 128 + b <= 0xffff_ffff_ffff_ffff,
            b < 128,
    ;
    assert(distance_of(h) == (acc + 1) * 128 + b);
    if i + 1 == g.len() {
        assert(h =~= g);
        assert(g[i] == g.last());
    } else {
        assert(g[i] >= 128);
        lemma_distance_rest(s, pos, g, i + 1);
    }
}

/// A distance is read as what it gives, wherever it stands, and with it where it ends.
pub proof fn law_distance_read(front: Seq<u8>, g: Seq<u8>, rest: Seq<u8>)
    requires
        marked(g),
        distance_of(g) <= u64::MAX,
    ensures
        distance(front + g + rest, front.len() as int) == Ok::<(u64, int), PackError>(
            (distance_of(g) as u64, (front.len() + g.len()) as int),
        ),
{
    let s = front + g + rest;
    let pos = front.len() as int;
    assert(s.subrange(pos, pos + g.len()) =~= g);
    assert(s[pos] == g[0]);
    if g.len() == 1 {
        assert(g[0] == g.last());
    } else {
        assert(g[0] >= 128);
        assert(g.subrange(0, 1).len() == 1);
        lemma_distance_rest(s, pos, g, 1);
    }
}

/// An entry of a pack for a whole object: a head that gives the kind in the three bits below the
/// mark, and the deflated content.
pub proof fn law_whole_entry(
    data: Seq<u8>,
    pos: int,
    head: Seq<u8>,
    content: Seq<u8>,
    used: nat,
    objs: Seq<PackedModel>,
    offsets: Seq<int>,
    store: Option<Map<ObjectSha, Seq<u8>>>,
)
    requires
        stands_at(data, pos, head),
        marked(head) && head.len() <= 9,
        1 <= head[0] / 16 % 8 <= 4,
        zlib_inflated(data.subrange(pos + head.len(), data.len() as int)) == Some((content, used)),
    ensures
        pack_entry(data, pos, objs, offsets, store) == Ok::<(Kind, Seq<u8>, int), PackError>(
            (
                if head[0] / 16 % 8 == 1 {
                    Kind::Commit
                } else if head[0] / 16 % 8 == 2 {
                    Kind::Tree
                } else if head[0] / 16 % 8 == 3 {
                    Kind::Blob
                } else {
                    Kind::Tag
                },
                content,
                pos + head.len() + used,
            ),
        ),
{
    lemma_head_read(data, pos, head);
}

proof fn lemma_number_small(g: Seq<u8>)
    ensures
        number_of(g) < pow2(7 * g.len()),
    decreases g.len(),
{
    lemma2_to64();
    if g.len() > 0 {
        lemma_number_small(g.drop_first());
        lemma_pow2_adds(7 * (g.len() - 1) as nat, 7);
        assert(7 * (g.len() - 1) + 7 == 7 * g.len());
    }
}

proof fn lemma_head_read(data: Seq<u8>, pos: int, head: Seq<u8>)
    requires
        stands_at(data, pos, head),
        marked(head) && head.len() <= 9,
    ensures
        type_and_size(data, pos) matches Ok((t, _, p)) && t == head[0] / 16 % 8 && p == pos
            + head.len(),
{
    lemma_stands_first(data, pos, head);
    if head.len() == 1 {
        assert(head[0] == head.last());
    } else {
        assert(head[0] >= 128);
        let t = head.drop_first();
        assert(t.last() == head.last());
        assert forall|i: int| 0 <= i < t.len() - 1 implies #[trigger] t[i] >= 128 by {
            assert(t[i] == head[i + 1]);
        }
        lemma2_to64();
        lemma2_to64_rest();
        lemma_number_small(t);
        if 7 * t.len() < 56 {
            lemma_pow2_strictly_increases(7 * t.len(), 56);
        }
        lemma_number_read(data, pos + 1, t, (head[0] % 16) as u64, 4);
    }
}

/// An entry of a pack that is a delta against an object earlier in the pack: a head with the number
/// 6, the distance back to where that object starts, and the deflated delta. The object is of the
/// kind of its base.
pub proof fn law_offset_entry(
    data: Seq<u8>,
    pos: int,
    head: Seq<u8>,
    back: Seq<u8>,
    delta: Seq<u8>,
    used: nat,
    objs: Seq<PackedModel>,
    offsets: Seq<int>,
    store: Option<Map<ObjectSha, Seq<u8>>>,
    i: int,
)
    requires
        stands_at(data, pos, head + back),
        marked(head) && head.len() <= 9 && head[0] / 16 % 8 == 6,
        marked(back) && distance_of(back) <= u64::MAX,
        zlib_inflated(data.subrange(pos + head.len() + back.len(), data.len() as int)) == Some(
            (delta, used),
        ),
        0 <= i < offsets.len() == objs.len(),
        forall|j: int, k: int| 0 <= j < k < offsets.len() ==> offsets[j] < offsets[k],
        0 <= offsets[i] == pos - distance_of(back),
    ensures
        pack_entry(data, pos, objs, offsets, store) == match delta_applied(objs[i].data, delta) {
            Ok(content) => Ok(
                (objs[i].kind, content, pos + head.len() + back.len() + used),
            ),
            Err(e) => Err(e),
        },
{
    lemma_stands_parts(data, pos, head, back);
    lemma_head_read(data, pos, head);
    let q = pos + head.len();
    let front = data.subrange(0, q);
    let rest = data.subrange(q + back.len(), data.len() as int);
    assert(front + back + rest =~= data) by {
        assert forall|k: int| 0 <= k < back.len() implies data[q + k] == back[k] by {
            assert(data[q + k] == data.subrange(q, q + back.len())[k]);
        }
    }
    law_distance_read(front, back, rest);
    lemma_offset_found(offsets, i, offsets.len() as int);
}

proof fn lemma_offset_found(offsets: Seq<int>, i: int, upto: int)
    requires
        0 <= i < upto <= offsets.len(),
        forall|j: int, k: int| 0 <= j < k < offsets.len() ==> offsets[j] < offsets[k],
    ensures
        find_offset(offsets, offsets[i], upto) == i,
    decreases upto,
{
    if i < upto - 1 {
        assert(offsets[i] < offsets[upto - 1]);
        lemma_offset_found(offsets, i, upto - 1);
    }
}

proof fn lemma_id_found(objs: Seq<PackedModel>, sha: Seq<u8>, upto: int)
    requires
        0 <= upto <= objs.len(),
    ensures
        ({
            let i = find_id(objs, sha, upto);
            if i >= 0 {
                i < upto && objs[i].sha@ == sha
            } else {
                forall|k: int| 0 <= k < upto ==> (#[trigger] objs[k]).sha@ != sha
            }
        }),
    decreases upto,
{
    if upto > 0 && objs[upto - 1].sha@ != sha {
        lemma_id_found(objs, sha, upto - 1);
    }
}

/// An entry of a pack that is a delta against an object by its id: a head with the number 7, the id,
/// and the deflated delta. The base is an object of the pack with that id, or else one of the store.
pub proof fn law_id_entry(
    data: Seq<u8>,
    pos: int,
    head: Seq<u8>,
    id: Seq<u8>,
    delta: Seq<u8>,
    used: nat,
    objs: Seq<PackedModel>,
    offsets: Seq<int>,
    store: Option<Map<ObjectSha, Seq<u8>>>,
)
    requires
        stands_at(data, pos, head + id),
        marked(head) && head.len() <= 9 && head[0] / 16 % 8 == 7,
        id.len() == 20,
        zlib_inflated(data.subrange(pos + head.len() + 20, data.len() as int)) == Some(
            (delta, used),
        ),
    ensures
        ({
            let r = pack_entry(data, pos, objs, offsets, store);
            let end = pos + head.len() + 20 + used;
            if exists|k: int| 0 <= k < objs.len() && (#[trigger] objs[k]).sha@ == id {
                exists|k: int|
                    0 <= k < objs.len() && (#[trigger] objs[k]).sha@ == id && r == match delta_applied(
                        objs[k].data,
                        delta,
                    ) {
                        Ok(content) => Ok((objs[k].kind, content, end)),
                        Err(e) => Err(e),
                    }
            } else {
                match store {
                    None => r == Err::<(Kind, Seq<u8>, int), PackError>(PackError::BaseNotInPack),
                    Some(m) => if !m.contains_key(oid_of(id)) {
                        r == Err::<(Kind, Seq<u8>, int), PackError>(
                            PackError::BaseMissing(oid_of(id)),
                        )
                    } else {
                        r == match loose_base(m[oid_of(id)]) {
                            Ok((kind, base)) => match delta_applied(base, delta) {
                                Ok(content) => Ok((kind, content, end)),
                                Err(e) => Err(e),
                            },
                            Err(e) => Err(e),
                        }
                    },
                }
            }
        }),
{
    lemma_stands_parts(data, pos, head, id);
    lemma_head_read(data, pos, head);
    lemma_id_found(objs, id, objs.len() as int);
    let q = pos + head.len();
    assert(data.subrange(q, q + 20) =~= id);
    let i = find_id(objs, id, objs.len() as int);
    if i >= 0 {
        assert(objs[i].sha@ == id);
    }
}

/// The objects of a pack are as many as its head says; each comes of the entry that starts where the
/// one before it ends, with those before it at hand, and is kept under the id of its kind and
/// content.
pub proof fn law_pack_entries(data: Seq<u8>, store: Option<Map<ObjectSha, Seq<u8>>>)
    ensures
        pack_in(data, store) matches Ok(objs) ==> objs.len() == be32_at(data, 8) && exists|
            starts: Seq<int>,
        |
            #[trigger] starts.len() == objs.len() + 1 && starts[0] == 12 && forall|k: int|
                0 <= k < objs.len() ==> {
                    let o = #[trigger] objs[k];
                    &&& o.sha == sha1_of(framed(kind_name(o.kind), o.data))
                    &&& pack_entry(
                        data,
                        starts[k],
                        objs.subrange(0, k),
                        starts.subrange(0, k),
                        store,
                    ) == Ok::<(Kind, Seq<u8>, int), PackError>((o.kind, o.data, starts[k + 1]))
                },
{
    if let Ok(objs) = pack_in(data, store) {
        let n = be32_at(data, 8) as nat;
        lemma_entries_from(data, 12, n, Seq::empty(), Seq::empty(), store);
        let starts = choose|starts: Seq<int>|
            entries_from(data, objs, starts, 0, store) && starts.len() == objs.len() + 1
                && starts.subrange(0, 1) == Seq::<int>::empty().push(12int);
        assert(starts.subrange(0, 1)[0] == starts[0]);
        assert(starts.len() == objs.len() + 1);
    }
}

spec fn entries_from(
    data: Seq<u8>,
    objs: Seq<PackedModel>,
    starts: Seq<int>,
    from: int,
    store: Option<Map<ObjectSha, Seq<u8>>>,
) -> bool {
    forall|k: int|
        from <= k < objs.len() ==> {
            let o = #[trigger] objs[k];
            &&& o.sha == sha1_of(framed(kind_name(o.kind), o.data))
            &&& pack_entry(data, starts[k], objs.subrange(0, k), starts.subrange(0, k), store)
                == Ok::<(Kind, Seq<u8>, int), PackError>((o.kind, o.data, starts[k + 1]))
        }
}

proof fn lemma_entries_from(
    data: Seq<u8>,
    pos: int,
    left: nat,
    objs: Seq<PackedModel>,
    offsets: Seq<int>,
    store: Option<Map<ObjectSha, Seq<u8>>>,
)
    requires
        objs.len() == offsets.len(),
        pack_objects(data, pos, left, objs, offsets, store) is Ok,
    ensures
        ({
            let all = pack_objects(data, pos, left, objs, offsets, store)->Ok_0;
            &&& all.len() == objs.len() + left
            &&& all.subrange(0, objs.len() as int) == objs
            &&& exists|starts: Seq<int>|
                #[trigger] entries_from(data, all, starts, objs.len() as int, store)
                    && starts.len() == all.len() + 1 && starts.subrange(
                    0,
                    objs.len() + 1int,
                ) == offsets.push(pos)
        }),
    decreases left,
{
    let all = pack_objects(data, pos, left, objs, offsets, store)->Ok_0;
    let n = objs.len() as int;
    if left == 0 {
        let starts = offsets.push(pos);
        assert(entries_from(data, all, starts, n, store));
        assert(starts.subrange(0, n + 1) =~= starts);
        assert(all.subrange(0, n) =~= objs);
    } else {
        let (kind, content, p) = pack_entry(data, pos, objs, offsets, store)->Ok_0;
        let more = objs.push(packed(kind, content));
        let so_far = offsets.push(pos);
        lemma_entries_from(data, p, (left - 1) as nat, more, so_far, store);
        let starts = choose|starts: Seq<int>|
            #[trigger] entries_from(data, all, starts, n + 1, store) && starts.len() == all.len()
                + 1 && starts.subrange(0, n + 2) == so_far.push(p);
        assert(all.subrange(0, n) =~= objs) by {
            assert(all.subrange(0, n) =~= all.subrange(0, n + 1).subrange(0, n));
            assert(more.subrange(0, n) =~= objs);
        }
        assert(all[n] == all.subrange(0, n + 1)[n]);
        let known = so_far.push(p);
        assert forall|k: int| 0 <= k < known.len() implies starts[k] == #[trigger] known[k] by {
            assert(starts.subrange(0, n + 2)[k] == starts[k]);
        }
        assert(starts.subrange(0, n + 1) =~= so_far);
        assert(starts.subrange(0, n) =~= offsets);
        assert(known[n] == pos && known[n + 1] == p);
        assert(entries_from(data, all, starts, n, store)) by {
            assert forall|k: int| n <= k < all.len() implies {
                let o = #[trigger] all[k];
                &&& o.sha == sha1_of(framed(kind_name(o.kind), o.data))
                &&& pack_entry(data, starts[k], all.subrange(0, k), starts.subrange(0, k), store)
                    == Ok::<(Kind, Seq<u8>, int), PackError>((o.kind, o.data, starts[k + 1]))
            } by {
                if k == n {
                    assert(all[k] == packed(kind, content));
                }
            }
        }
    }
}

} // verus!
