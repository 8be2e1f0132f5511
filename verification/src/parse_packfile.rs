//! Packfiles: many objects in one stream, some of them as deltas against others.
use crate::bytes::{
    append_bytes, be32, be32_at, copy_bytes, find_byte, find_from, lemma_be32_round_trip,
    push_be32, read_be32, same_bytes,
};
use crate::numbers::{hex_of, hex_string};
use crate::object::{array20, frame, framed, lemma_oid, oid_of, ObjectSha};
use crate::object_db::ObjectDb;
use crate::outside::{
    sha1_digest, sha1_of, zlib_deflate, zlib_deflated, zlib_inflate, zlib_inflated,
};
use crate::text::{lemma_views_push, views};
use vstd::prelude::*;
use vstd::slice::slice_subrange;

verus! {

/// The kinds of object that a pack can hold.
#[derive(Clone, Copy, PartialEq, Eq, Structural, Debug)]
pub enum Kind {
    Commit,
    Tree,
    Blob,
    Tag,
}

/// The name of a kind, as it stands in the loose form.
pub open spec fn kind_name(k: Kind) -> Seq<char> {
    match k {
        Kind::Commit => "commit"@,
        Kind::Tree => "tree"@,
        Kind::Blob => "blob"@,
        Kind::Tag => "tag"@,
    }
}

/// The kind that a pack gives by a number.
pub open spec fn kind_of_type(t: int) -> Option<Kind> {
    if t == 1 {
        Some(Kind::Commit)
    } else if t == 2 {
        Some(Kind::Tree)
    } else if t == 3 {
        Some(Kind::Blob)
    } else if t == 4 {
        Some(Kind::Tag)
    } else {
        None
    }
}

/// The number by which a pack gives a kind.
pub open spec fn type_of_kind(k: Kind) -> int {
    match k {
        Kind::Commit => 1,
        Kind::Tree => 2,
        Kind::Blob => 3,
        Kind::Tag => 4,
    }
}

impl Kind {
    fn from_type(t: u8) -> (r: Option<Kind>)
        ensures
            r == kind_of_type(t as int),
    {
        match t {
            1 => Some(Kind::Commit),
            2 => Some(Kind::Tree),
            3 => Some(Kind::Blob),
            4 => Some(Kind::Tag),
            _ => None,
        }
    }

    fn to_type(self) -> (r: u8)
        ensures
            r == type_of_kind(self),
            1 <= r <= 4,
    {
        match self {
            Kind::Commit => 1,
            Kind::Tree => 2,
            Kind::Blob => 3,
            Kind::Tag => 4,
        }
    }

    /// The name of the kind.
    pub fn name(self) -> (r: &'static str)
        ensures
            r@ == kind_name(self),
    {
        match self {
            Kind::Commit => "commit",
            Kind::Tree => "tree",
            Kind::Blob => "blob",
            Kind::Tag => "tag",
        }
    }
}

/// An object out of a pack.
#[derive(PartialEq, Eq, Debug)]
pub struct PackedObject {
    /// The id of the object.
    pub sha: [u8; 20],
    /// The kind of the object; of a delta, that of its base.
    pub kind: Kind,
    /// The whole content.
    pub data: Vec<u8>,
}

/// The model of a [`PackedObject`].
#[verifier::ext_equal]
pub struct PackedModel {
    pub sha: [u8; 20],
    pub kind: Kind,
    pub data: Seq<u8>,
}

impl View for PackedObject {
    type V = PackedModel;

    open spec fn view(&self) -> PackedModel {
        PackedModel { sha: self.sha, kind: self.kind, data: self.data@ }
    }
}

/// The object of a kind with a content: its id follows from both.
pub open spec fn packed(kind: Kind, data: Seq<u8>) -> PackedModel {
    PackedModel { sha: sha1_of(framed(kind_name(kind), data)), kind, data }
}

impl PackedObject {
    /// The id in hexadecimal.
    pub fn hex(&self) -> (r: String)
        ensures
            r@ == hex_of(self.sha@),
    {
        hex(self.sha.as_slice())
    }
}

/// Bytes in hexadecimal.
pub fn hex(b: &[u8]) -> (r: String)
    ensures
        r@ == hex_of(b@),
{
    hex_string(b)
}

/// Why a pack cannot be read.
#[derive(Clone, Copy, PartialEq, Eq, Debug)]
pub enum PackError {
    TooShort,
    BadMagic,
    BadVersion(u32),
    /// The pack, or a delta, ends where more is needed.
    Eof,
    /// A number of variable length that takes more bits than there are.
    NumberTooLong,
    /// No valid zlib stream where one is needed.
    Zlib,
    UnknownType(u8),
    /// A delta against something before the start of the pack.
    OffsetOutOfRange,
    /// A delta against an offset at which no object starts.
    OffsetBaseMissing,
    /// A delta against an object that the pack does not hold, with no store to look in.
    BaseNotInPack,
    /// A delta against an object that neither the pack nor the store holds.
    BaseMissing(ObjectSha),
    /// A stored object without a space after its kind.
    LooseNoSpace,
    /// A stored object without a NUL after its size.
    LooseNoNul,
    /// A stored object of no known kind.
    LooseBadKind,
    DeltaBaseSize,
    DeltaCopyRange,
    DeltaInsertRange,
    DeltaZeroCommand,
    DeltaTargetSize,
    /// The digest at the end is not that of what comes before it.
    BadChecksum,
}

/// The number of variable length whose next group of seven bits stands at `pos`, least
/// significant group first; `acc` holds the bits below `shift`. With it comes the position after
/// the number.
pub open spec fn varint(s: Seq<u8>, pos: int, acc: u64, shift: int) -> Result<(u64, int), PackError>
    decreases s.len() - pos,
{
    if pos < 0 || pos >= s.len() {
        Err(PackError::Eof)
    } else if shift >= 64 {
        Err(PackError::NumberTooLong)
    } else {
        let v = acc | (((s[pos] % 128) as u64) << (shift as u64));
        if s[pos] < 128 {
            Ok((v, pos + 1))
        } else {
            varint(s, pos + 1, v, shift + 7)
        }
    }
}

/// The head of a pack entry: the kind of entry, the size that it declares, and the position after
/// the head.
pub open spec fn type_and_size(s: Seq<u8>, pos: int) -> Result<(u8, u64, int), PackError> {
    if pos < 0 || pos >= s.len() {
        Err(PackError::Eof)
    } else {
        let typ = (s[pos] / 16) % 8;
        let low = (s[pos] % 16) as u64;
        if s[pos] < 128 {
            Ok((typ, low, pos + 1))
        } else {
            match varint(s, pos + 1, low, 4) {
                Ok((size, p)) => Ok((typ, size, p)),
                Err(e) => Err(e),
            }
        }
    }
}

/// The rest of a distance back into the pack, most significant group first.
pub open spec fn distance_rest(s: Seq<u8>, pos: int, acc: u64) -> Result<(u64, int), PackError>
    decreases s.len() - pos,
{
    if pos < 0 || pos >= s.len() {
        Err(PackError::Eof)
    } else if acc == u64::MAX {
        Err(PackError::NumberTooLong)
    } else {
        let v = (((acc + 1) as u64) << 7u64) | ((s[pos] % 128) as u64);
        if s[pos] < 128 {
            Ok((v, pos + 1))
        } else {
            distance_rest(s, pos + 1, v)
        }
    }
}

/// A distance back into the pack, and the position after it.
pub open spec fn distance(s: Seq<u8>, pos: int) -> Result<(u64, int), PackError> {
    if pos < 0 || pos >= s.len() {
        Err(PackError::Eof)
    } else if s[pos] < 128 {
        Ok((s[pos] as u64, pos + 1))
    } else {
        distance_rest(s, pos + 1, (s[pos] % 128) as u64)
    }
}

/// 256 to the power `i`, for the four powers that a delta uses.
pub open spec fn pow256(i: int) -> int {
    if i == 0 {
        1
    } else if i == 1 {
        0x100
    } else if i == 2 {
        0x1_0000
    } else {
        0x100_0000
    }
}

/// Two to the power `i`, for the bits of a delta command.
pub open spec fn pow2_7(i: int) -> int {
    if i == 0 {
        1
    } else if i == 1 {
        2
    } else if i == 2 {
        4
    } else if i == 3 {
        8
    } else if i == 4 {
        16
    } else if i == 5 {
        32
    } else {
        64
    }
}

/// The argument of a copy command: its bytes `i` up to `count`, least significant first, of which
/// those are there whose bit, counted from `first`, is set in `cmd`.
pub open spec fn copy_argument(
    s: Seq<u8>,
    pos: int,
    cmd: u8,
    first: int,
    count: int,
    i: int,
    acc: int,
) -> Result<(int, int), PackError>
    decreases count - i,
{
    if i >= count {
        Ok((acc, pos))
    } else if (cmd as int / pow2_7(first + i)) % 2 == 1 {
        if pos >= s.len() {
            Err(PackError::Eof)
        } else {
            copy_argument(s, pos + 1, cmd, first, count, i + 1, acc + s[pos] * pow256(i))
        }
    } else {
        copy_argument(s, pos, cmd, first, count, i + 1, acc)
    }
}

/// What the delta commands from `pos` on add to `out`.
pub open spec fn delta_commands(base: Seq<u8>, delta: Seq<u8>, pos: int, out: Seq<u8>) -> Result<
    Seq<u8>,
    PackError,
>
    decreases delta.len() - pos,
    via delta_commands_shrink
{
    if pos < 0 || pos >= delta.len() {
        Ok(out)
    } else {
        let cmd = delta[pos];
        if cmd >= 128 {
            match copy_argument(delta, pos + 1, cmd, 0, 4, 0, 0) {
                Err(e) => Err(e),
                Ok((offset, p)) => match copy_argument(delta, p, cmd, 4, 3, 0, 0) {
                    Err(e) => Err(e),
                    Ok((n, q)) => {
                        let size = if n == 0 {
                            0x1_0000
                        } else {
                            n
                        };
                        if offset + size > base.len() {
                            Err(PackError::DeltaCopyRange)
                        } else {
                            delta_commands(
                                base,
                                delta,
                                q,
                                out + base.subrange(offset, offset + size),
                            )
                        }
                    },
                },
            }
        } else if cmd != 0 {
            if pos + 1 + cmd > delta.len() {
                Err(PackError::DeltaInsertRange)
            } else {
                delta_commands(
                    base,
                    delta,
                    pos + 1 + cmd,
                    out + delta.subrange(pos + 1, pos + 1 + cmd),
                )
            }
        } else {
            Err(PackError::DeltaZeroCommand)
        }
    }
}

#[via_fn]
proof fn delta_commands_shrink(base: Seq<u8>, delta: Seq<u8>, pos: int, out: Seq<u8>) {
    if 0 <= pos < delta.len() {
        let cmd = delta[pos];
        if let Ok((offset, p)) = copy_argument(delta, pos + 1, cmd, 0, 4, 0, 0) {
            lemma_copy_argument(delta, pos + 1, cmd, 0, 4, 0, 0);
            if let Ok((n, q)) = copy_argument(delta, p, cmd, 4, 3, 0, 0) {
                lemma_copy_argument(delta, p, cmd, 4, 3, 0, 0);
            }
        }
    }
}

/// Arguments are read forwards and within bounds.
proof fn lemma_copy_argument(
    s: Seq<u8>,
    pos: int,
    cmd: u8,
    first: int,
    count: int,
    i: int,
    acc: int,
)
    requires
        0 <= pos,
        0 <= i,
        0 <= acc,
    ensures
        copy_argument(s, pos, cmd, first, count, i, acc) matches Ok((v, p)) ==> pos <= p && acc
            <= v && (pos <= s.len() ==> p <= s.len()),
    decreases count - i,
{
    if i < count {
        if (cmd as int / pow2_7(first + i)) % 2 == 1 {
            if pos < s.len() {
                assert(0 <= s[pos] * pow256(i)) by (nonlinear_arith)
                    requires
                        0 <= s[pos],
                        pow256(i) > 0,
                ;
                lemma_copy_argument(s, pos + 1, cmd, first, count, i + 1, acc + s[pos] * pow256(i));
            }
        } else {
            lemma_copy_argument(s, pos, cmd, first, count, i + 1, acc);
        }
    }
}

/// What a delta makes of its base.
pub open spec fn delta_applied(base: Seq<u8>, delta: Seq<u8>) -> Result<Seq<u8>, PackError> {
    match varint(delta, 0, 0, 0) {
        Err(e) => Err(e),
        Ok((base_size, p)) => if base_size != base.len() {
            Err(PackError::DeltaBaseSize)
        } else {
            match varint(delta, p, 0, 0) {
                Err(e) => Err(e),
                Ok((target_size, q)) => match delta_commands(base, delta, q, Seq::empty()) {
                    Err(e) => Err(e),
                    Ok(out) => if out.len() != target_size {
                        Err(PackError::DeltaTargetSize)
                    } else {
                        Ok(out)
                    },
                },
            }
        },
    }
}

fn read_varint(s: &[u8], pos: usize, acc0: u64, shift0: u64) -> (r: Result<(u64, usize), PackError>)
    requires
        pos <= s@.len(),
        shift0 < 64,
    ensures
        (match r {
            Ok((v, p)) => varint(s@, pos as int, acc0, shift0 as int) == Ok::<
                (u64, int),
                PackError,
            >((v, p as int)) && pos < p <= s@.len(),
            Err(e) => varint(s@, pos as int, acc0, shift0 as int) == Err::<(u64, int), PackError>(
                e,
            ),
        }),
{
    let mut p: usize = pos;
    let mut acc: u64 = acc0;
    let mut shift: u64 = shift0;
    loop
        invariant
            pos <= p <= s@.len(),
            shift < 71,
            varint(s@, pos as int, acc0, shift0 as int) == varint(s@, p as int, acc, shift as int),
        decreases s@.len() - p,
    {
        if p >= s.len() {
            return Err(PackError::Eof);
        }
        if shift >= 64 {
            return Err(PackError::NumberTooLong);
        }
        let b = s[p];
        acc = acc | (((b % 128) as u64) << shift);
        p += 1;
        if b < 128 {
            return Ok((acc, p));
        }
        shift += 7;
    }
}

fn read_type_and_size(s: &[u8], pos: usize) -> (r: Result<(u8, u64, usize), PackError>)
    requires
        pos <= s@.len(),
    ensures
        (match r {
            Ok((t, n, p)) => type_and_size(s@, pos as int) == Ok::<(u8, u64, int), PackError>(
                (t, n, p as int),
            ) && pos < p <= s@.len(),
            Err(e) => type_and_size(s@, pos as int) == Err::<(u8, u64, int), PackError>(e),
        }),
{
    if pos >= s.len() {
        return Err(PackError::Eof);
    }
    let b = s[pos];
    let typ: u8 = (b / 16) % 8;
    let low: u64 = (b % 16) as u64;
    if b < 128 {
        return Ok((typ, low, pos + 1));
    }
    match read_varint(s, pos + 1, low, 4) {
        Ok((size, p)) => Ok((typ, size, p)),
        Err(e) => Err(e),
    }
}

fn read_ofs_offset(s: &[u8], pos: usize) -> (r: Result<(u64, usize), PackError>)
    requires
        pos <= s@.len(),
    ensures
        (match r {
            Ok((v, p)) => distance(s@, pos as int) == Ok::<(u64, int), PackError>((v, p as int))
                && pos < p <= s@.len(),
            Err(e) => distance(s@, pos as int) == Err::<(u64, int), PackError>(e),
        }),
{
    if pos >= s.len() {
        return Err(PackError::Eof);
    }
    let b0 = s[pos];
    if b0 < 128 {
        return Ok((b0 as u64, pos + 1));
    }
    let mut acc: u64 = (b0 % 128) as u64;
    let mut p: usize = pos + 1;
    loop
        invariant
            pos < p <= s@.len(),
            distance(s@, pos as int) == distance_rest(s@, p as int, acc),
        decreases s@.len() - p,
    {
        if p >= s.len() {
            return Err(PackError::Eof);
        }
        if acc == u64::MAX {
            return Err(PackError::NumberTooLong);
        }
        let b = s[p];
        acc = ((acc + 1) << 7u64) | ((b % 128) as u64);
        p += 1;
        if b < 128 {
            return Ok((acc, p));
        }
    }
}

/// One bit of a delta command.
fn bit_set(cmd: u8, i: u8) -> (r: bool)
    requires
        i < 7,
    ensures
        r == ((cmd as int / pow2_7(i as int)) % 2 == 1),
{
    let d: u8 = match i {
        0 => 1,
        1 => 2,
        2 => 4,
        3 => 8,
        4 => 16,
        5 => 32,
        _ => 64,
    };
    (cmd / d) % 2 == 1
}

fn read_copy_argument(s: &[u8], pos: usize, cmd: u8, first: u8, count: u8) -> (r: Result<
    (u64, usize),
    PackError,
>)
    requires
        pos <= s@.len(),
        first + count <= 7,
        count <= 4,
    ensures
        (match r {
            Ok((v, p)) => copy_argument(s@, pos as int, cmd, first as int, count as int, 0, 0)
                == Ok::<(int, int), PackError>((v as int, p as int)) && pos <= p <= s@.len() && v
                < 0x1_0000_0000,
            Err(e) => copy_argument(s@, pos as int, cmd, first as int, count as int, 0, 0) == Err::<
                (int, int),
                PackError,
            >(e),
        }),
{
    let mut acc: u64 = 0;
    let mut p: usize = pos;
    let mut i: u8 = 0;
    while i < count
        invariant
            0 <= i <= count <= 4,
            first + count <= 7,
            pos <= p <= s@.len(),
            acc < (if i == 0 {
                1int
            } else if i == 4 {
                0x1_0000_0000
            } else {
                pow256(i as int)
            }),
            copy_argument(s@, pos as int, cmd, first as int, count as int, 0, 0) == copy_argument(
                s@,
                p as int,
                cmd,
                first as int,
                count as int,
                i as int,
                acc as int,
            ),
        decreases count - i,
    {
        if bit_set(cmd, first + i) {
            if p >= s.len() {
                return Err(PackError::Eof);
            }
            let w: u64 = match i {
                0 => 1,
                1 => 0x100,
                2 => 0x1_0000,
                _ => 0x100_0000,
            };
            let b: u64 = s[p] as u64;
            assert(b * w <= 255 * w) by (nonlinear_arith)
                requires
                    b <= 255,
            ;
            assert(w == pow256(i as int));
            acc = acc + b * w;
            p += 1;
        }
        i += 1;
    }
    Ok((acc, p))
}

/// Rebuilds an object from its base and a delta.
fn apply_delta(base: &[u8], delta: &[u8]) -> (r: Result<Vec<u8>, PackError>)
    ensures
        crate::text::res_view(r) == delta_applied(base@, delta@),
{
    let (base_size, p) = match read_varint(delta, 0, 0, 0) {
        Ok(x) => x,
        Err(e) => return Err(e),
    };
    if base_size != base.len() as u64 {
        return Err(PackError::DeltaBaseSize);
    }
    let (target_size, q) = match read_varint(delta, p, 0, 0) {
        Ok(x) => x,
        Err(e) => return Err(e),
    };
    let mut out: Vec<u8> = Vec::new();
    let mut pos: usize = q;
    while pos < delta.len()
        invariant
            0 <= pos <= delta@.len(),
            delta_commands(base@, delta@, q as int, Seq::empty()) == delta_commands(
                base@,
                delta@,
                pos as int,
                out@,
            ),
            varint(delta@, 0, 0, 0) == Ok::<(u64, int), PackError>((base_size, p as int)),
            base_size == base@.len(),
            varint(delta@, p as int, 0, 0) == Ok::<(u64, int), PackError>((target_size, q as int)),
        decreases delta@.len() - pos,
    {
        let cmd = delta[pos];
        if cmd >= 128 {
            let (offset, p1) = match read_copy_argument(delta, pos + 1, cmd, 0, 4) {
                Ok(x) => x,
                Err(e) => return Err(e),
            };
            let (n, p2) = match read_copy_argument(delta, p1, cmd, 4, 3) {
                Ok(x) => x,
                Err(e) => return Err(e),
            };
            let size: u64 = if n == 0 {
                0x1_0000
            } else {
                n
            };
            if offset + size > base.len() as u64 {
                return Err(PackError::DeltaCopyRange);
            }
            append_bytes(
                &mut out,
                slice_subrange(base, offset as usize, (offset + size) as usize),
            );
            pos = p2;
        } else if cmd != 0 {
            let n: usize = cmd as usize;
            if n > delta.len() - pos - 1 {
                return Err(PackError::DeltaInsertRange);
            }
            append_bytes(&mut out, slice_subrange(delta, pos + 1, pos + 1 + n));
            pos = pos + 1 + n;
        } else {
            return Err(PackError::DeltaZeroCommand);
        }
    }
    if out.len() as u64 != target_size {
        return Err(PackError::DeltaTargetSize);
    }
    Ok(out)
}

/// The kind and the content in the loose form of an object.
pub open spec fn loose_base(raw: Seq<u8>) -> Result<(Kind, Seq<u8>), PackError> {
    let sp = find_from(raw, 0x20, 0);
    let nul = find_from(raw, 0, 0);
    if sp >= raw.len() {
        Err(PackError::LooseNoSpace)
    } else if nul >= raw.len() {
        Err(PackError::LooseNoNul)
    } else {
        let word = raw.subrange(0, sp);
        let content = raw.subrange(nul + 1, raw.len() as int);
        if word == vstd::utf8::encode_utf8("commit"@) {
            Ok((Kind::Commit, content))
        } else if word == vstd::utf8::encode_utf8("tree"@) {
            Ok((Kind::Tree, content))
        } else if word == vstd::utf8::encode_utf8("blob"@) {
            Ok((Kind::Blob, content))
        } else if word == vstd::utf8::encode_utf8("tag"@) {
            Ok((Kind::Tag, content))
        } else {
            Err(PackError::LooseBadKind)
        }
    }
}

/// Takes the loose form of an object apart.
pub fn read_loose_base(raw: &[u8]) -> (r: Result<(Kind, Vec<u8>), PackError>)
    ensures
        (match r {
            Ok((k, d)) => loose_base(raw@) == Ok::<(Kind, Seq<u8>), PackError>((k, d@)),
            Err(e) => loose_base(raw@) == Err::<(Kind, Seq<u8>), PackError>(e),
        }),
{
    let sp: usize = find_byte(raw, 0x20, 0);
    if sp >= raw.len() {
        return Err(PackError::LooseNoSpace);
    }
    let nul: usize = find_byte(raw, 0, 0);
    if nul >= raw.len() {
        return Err(PackError::LooseNoNul);
    }
    let word = slice_subrange(raw, 0, sp);
    let kind = if same_bytes(word, "commit".as_bytes()) {
        Kind::Commit
    } else if same_bytes(word, "tree".as_bytes()) {
        Kind::Tree
    } else if same_bytes(word, "blob".as_bytes()) {
        Kind::Blob
    } else if same_bytes(word, "tag".as_bytes()) {
        Kind::Tag
    } else {
        return Err(PackError::LooseBadKind);
    };
    Ok((kind, copy_bytes(slice_subrange(raw, nul + 1, raw.len()))))
}

/// The last object with the given id; `-1` if there is none.
pub open spec fn find_id(objs: Seq<PackedModel>, sha: Seq<u8>, upto: int) -> int
    decreases upto,
{
    if upto <= 0 {
        -1
    } else if objs[upto - 1].sha@ == sha {
        upto - 1
    } else {
        find_id(objs, sha, upto - 1)
    }
}

/// The object at the given offset in the pack; `-1` if there is none.
pub open spec fn find_offset(offsets: Seq<int>, offset: int, upto: int) -> int
    decreases upto,
{
    if upto <= 0 {
        -1
    } else if offsets[upto - 1] == offset {
        upto - 1
    } else {
        find_offset(offsets, offset, upto - 1)
    }
}

/// The entry of a pack at `pos`: the kind and the content of the object that it stands for, and
/// the position after it. `objs` are the objects before it and `offsets` where they start; a delta
/// may also be against an object of the store, where there is one.
pub open spec fn pack_entry(
    data: Seq<u8>,
    pos: int,
    objs: Seq<PackedModel>,
    offsets: Seq<int>,
    store: Option<Map<ObjectSha, Seq<u8>>>,
) -> Result<(Kind, Seq<u8>, int), PackError> {
    let end = data.len() as int;
    match type_and_size(data, pos) {
        Err(e) => Err(e),
        Ok((typ, size, p)) => if 1 <= typ <= 4 {
            match zlib_inflated(data.subrange(p, end)) {
                None => Err(PackError::Zlib),
                Some((content, used)) => Ok((kind_of_type(typ as int)->0, content, p + used)),
            }
        } else if typ == 6 {
            match distance(data, p) {
                Err(e) => Err(e),
                Ok((back, q)) => if back > pos {
                    Err(PackError::OffsetOutOfRange)
                } else {
                    match zlib_inflated(data.subrange(q, end)) {
                        None => Err(PackError::Zlib),
                        Some((delta, used)) => {
                            let i = find_offset(offsets, pos - back, offsets.len() as int);
                            if i < 0 {
                                Err(PackError::OffsetBaseMissing)
                            } else {
                                match delta_applied(objs[i].data, delta) {
                                    Err(e) => Err(e),
                                    Ok(content) => Ok((objs[i].kind, content, q + used)),
                                }
                            }
                        },
                    }
                },
            }
        } else if typ == 7 {
            if p + 20 > end {
                Err(PackError::Eof)
            } else {
                let sha = data.subrange(p, p + 20);
                match zlib_inflated(data.subrange(p + 20, end)) {
                    None => Err(PackError::Zlib),
                    Some((delta, used)) => match delta_base(objs, sha, store) {
                        Err(e) => Err(e),
                        Ok((kind, base)) => match delta_applied(base, delta) {
                            Err(e) => Err(e),
                            Ok(content) => Ok((kind, content, p + 20 + used)),
                        },
                    },
                }
            }
        } else {
            Err(PackError::UnknownType(typ))
        },
    }
}

/// The object that a delta names by its id: one of the pack, or else one of the store.
pub open spec fn delta_base(
    objs: Seq<PackedModel>,
    sha: Seq<u8>,
    store: Option<Map<ObjectSha, Seq<u8>>>,
) -> Result<(Kind, Seq<u8>), PackError> {
    let i = find_id(objs, sha, objs.len() as int);
    if i >= 0 {
        Ok((objs[i].kind, objs[i].data))
    } else {
        match store {
            None => Err(PackError::BaseNotInPack),
            Some(m) => if m.contains_key(oid_of(sha)) {
                loose_base(m[oid_of(sha)])
            } else {
                Err(PackError::BaseMissing(oid_of(sha)))
            },
        }
    }
}

/// The objects of a pack, of which `left` are still to be read from `pos` on.
pub open spec fn pack_objects(
    data: Seq<u8>,
    pos: int,
    left: nat,
    objs: Seq<PackedModel>,
    offsets: Seq<int>,
    store: Option<Map<ObjectSha, Seq<u8>>>,
) -> Result<Seq<PackedModel>, PackError>
    decreases left,
{
    if left == 0 {
        Ok(objs)
    } else {
        match pack_entry(data, pos, objs, offsets, store) {
            Err(e) => Err(e),
            Ok((kind, content, p)) => pack_objects(
                data,
                p,
                (left - 1) as nat,
                objs.push(packed(kind, content)),
                offsets.push(pos),
                store,
            ),
        }
    }
}

/// The objects of a whole pack: a head with the number of objects, their entries, and the SHA-1
/// digest of all that.
pub open spec fn pack_in(data: Seq<u8>, store: Option<Map<ObjectSha, Seq<u8>>>) -> Result<
    Seq<PackedModel>,
    PackError,
> {
    if data.len() < 32 {
        Err(PackError::TooShort)
    } else if data.subrange(0, 4) != seq![0x50u8, 0x41, 0x43, 0x4b] {
        Err(PackError::BadMagic)
    } else if be32_at(data, 4) != 2 {
        Err(PackError::BadVersion(be32_at(data, 4)))
    } else {
        match pack_objects(data, 12, be32_at(data, 8) as nat, Seq::empty(), Seq::empty(), store) {
            Err(e) => Err(e),
            Ok(objs) => if sha1_of(data.subrange(0, data.len() - 20))@ != data.subrange(
                data.len() - 20,
                data.len() as int,
            ) {
                Err(PackError::BadChecksum)
            } else {
                Ok(objs)
            },
        }
    }
}

fn id_of_content(kind: Kind, content: &[u8]) -> (r: [u8; 20])
    ensures
        r == packed(kind, content@).sha,
{
    let raw = frame(kind.name(), content);
    sha1_digest(raw.as_slice())
}

/// The last object with the given id.
fn last_with_id(objs: &Vec<PackedObject>, sha: &[u8]) -> (r: Option<usize>)
    ensures
        (match r {
            Some(i) => find_id(views(objs@), sha@, objs@.len() as int) == i && i < objs@.len(),
            None => find_id(views(objs@), sha@, objs@.len() as int) < 0,
        }),
{
    let mut n: usize = objs.len();
    while n > 0
        invariant
            0 <= n <= objs@.len(),
            find_id(views(objs@), sha@, objs@.len() as int) == find_id(
                views(objs@),
                sha@,
                n as int,
            ),
        decreases n,
    {
        if same_bytes(objs[n - 1].sha.as_slice(), sha) {
            return Some(n - 1);
        }
        n -= 1;
    }
    None
}

/// Offsets that ascend, as numbers.
spec fn offset_ints(offsets: Seq<usize>) -> Seq<int> {
    Seq::new(offsets.len(), |i: int| offsets[i] as int)
}

proof fn lemma_find_offset(offsets: Seq<int>, offset: int, upto: int, at: int)
    requires
        0 <= upto <= offsets.len(),
        -1 <= at < upto || upto == 0 && at == -1,
        at >= 0 ==> offsets[at] == offset,
        forall|i: int| at < i < upto ==> offsets[i] != offset,
    ensures
        find_offset(offsets, offset, upto) == at,
    decreases upto,
{
    if upto > 0 && at < upto - 1 {
        lemma_find_offset(offsets, offset, upto - 1, at);
    }
}

/// The object that starts at the given offset.
fn index_of_offset(offsets: &Vec<usize>, offset: usize) -> (r: Option<usize>)
    requires
        forall|i: int, j: int| 0 <= i < j < offsets@.len() ==> offsets@[i] < offsets@[j],
    ensures
        (match r {
            Some(i) => find_offset(
                offset_ints(offsets@),
                offset as int,
                offsets@.len() as int,
            ) == i && i < offsets@.len(),
            None => find_offset(offset_ints(offsets@), offset as int, offsets@.len() as int) < 0,
        }),
{
    let mut lo: usize = 0;
    let mut hi: usize = offsets.len();
    while lo < hi
        invariant
            0 <= lo <= hi <= offsets@.len(),
            forall|i: int, j: int| 0 <= i < j < offsets@.len() ==> offsets@[i] < offsets@[j],
            forall|i: int| 0 <= i < lo ==> offsets@[i] < offset,
            forall|i: int| hi <= i < offsets@.len() ==> offsets@[i] > offset,
        decreases hi - lo,
    {
        let mid: usize = lo + (hi - lo) / 2;
        if offsets[mid] == offset {
            proof {
                lemma_find_offset(
                    offset_ints(offsets@),
                    offset as int,
                    offsets@.len() as int,
                    mid as int,
                );
            }
            return Some(mid);
        } else if offsets[mid] < offset {
            lo = mid + 1;
        } else {
            hi = mid;
        }
    }
    proof {
        lemma_find_offset(offset_ints(offsets@), offset as int, offsets@.len() as int, -1);
    }
    None
}

/// The model of the store that a pack may lean on.
pub open spec fn store_view(store: Option<&ObjectDb>) -> Option<Map<ObjectSha, Seq<u8>>> {
    match store {
        Some(db) => Some(db@),
        None => None,
    }
}

/// Reads one entry of a pack.
fn read_entry(
    data: &[u8],
    pos: usize,
    objs: &Vec<PackedObject>,
    offsets: &Vec<usize>,
    store: Option<&ObjectDb>,
) -> (r: Result<(Kind, Vec<u8>, usize), PackError>)
    requires
        pos <= data@.len(),
        objs@.len() == offsets@.len(),
        forall|i: int, j: int| 0 <= i < j < offsets@.len() ==> offsets@[i] < offsets@[j],
    ensures
        (match r {
            Ok((k, c, p)) => pack_entry(
                data@,
                pos as int,
                views(objs@),
                offset_ints(offsets@),
                store_view(store),
            ) == Ok::<(Kind, Seq<u8>, int), PackError>((k, c@, p as int)) && pos < p
                <= data@.len(),
            Err(e) => pack_entry(
                data@,
                pos as int,
                views(objs@),
                offset_ints(offsets@),
                store_view(store),
            ) == Err::<(Kind, Seq<u8>, int), PackError>(e),
        }),
{
    let (typ, _size, p) = match read_type_and_size(data, pos) {
        Ok(x) => x,
        Err(e) => return Err(e),
    };
    if 1 <= typ && typ <= 4 {
        match (Kind::from_type(typ), zlib_inflate(slice_subrange(data, p, data.len()))) {
            (Some(kind), Some((content, used))) => Ok((kind, content, p + used)),
            _ => Err(PackError::Zlib),
        }
    } else if typ == 6 {
        let (back, q) = match read_ofs_offset(data, p) {
            Ok(x) => x,
            Err(e) => return Err(e),
        };
        if back > pos as u64 {
            return Err(PackError::OffsetOutOfRange);
        }
        let (delta, used) = match zlib_inflate(slice_subrange(data, q, data.len())) {
            Some(x) => x,
            None => return Err(PackError::Zlib),
        };
        let i: usize = match index_of_offset(offsets, pos - back as usize) {
            Some(i) => i,
            None => return Err(PackError::OffsetBaseMissing),
        };
        match apply_delta(objs[i].data.as_slice(), delta.as_slice()) {
            Ok(content) => Ok((objs[i].kind, content, q + used)),
            Err(e) => Err(e),
        }
    } else if typ == 7 {
        if data.len() - p < 20 {
            return Err(PackError::Eof);
        }
        let sha = slice_subrange(data, p, p + 20);
        let (delta, used) = match zlib_inflate(slice_subrange(data, p + 20, data.len())) {
            Some(x) => x,
            None => return Err(PackError::Zlib),
        };
        let based = match last_with_id(objs, sha) {
            Some(i) => match apply_delta(objs[i].data.as_slice(), delta.as_slice()) {
                Ok(content) => Ok((objs[i].kind, content)),
                Err(e) => Err(e),
            },
            None => match store {
                None => Err(PackError::BaseNotInPack),
                Some(db) => {
                    let oid = ObjectSha::SHA1(array20(sha));
                    proof {
                        lemma_oid(oid);
                    }
                    match db.get(&oid) {
                        None => Err(PackError::BaseMissing(oid)),
                        Some(raw) => match read_loose_base(raw.as_slice()) {
                            Err(e) => Err(e),
                            Ok((kind, base)) => match apply_delta(
                                base.as_slice(),
                                delta.as_slice(),
                            ) {
                                Ok(content) => Ok((kind, content)),
                                Err(e) => Err(e),
                            },
                        },
                    }
                },
            },
        };
        match based {
            Ok((kind, content)) => Ok((kind, content, p + 20 + used)),
            Err(e) => Err(e),
        }
    } else {
        Err(PackError::UnknownType(typ))
    }
}

fn parse_pack_inner(data: &[u8], store: Option<&ObjectDb>) -> (r: Result<
    Vec<PackedObject>,
    PackError,
>)
    ensures
        (match r {
            Ok(v) => pack_in(data@, store_view(store)) == Ok::<Seq<PackedModel>, PackError>(
                views(v@),
            ),
            Err(e) => pack_in(data@, store_view(store)) == Err::<Seq<PackedModel>, PackError>(e),
        }),
{
    if data.len() < 32 {
        return Err(PackError::TooShort);
    }
    if data[0] != 0x50 || data[1] != 0x41 || data[2] != 0x43 || data[3] != 0x4b {
        proof {
            let m = seq![0x50u8, 0x41, 0x43, 0x4b];
            let d = data@.subrange(0, 4);
            assert(d[0] == data@[0] && d[1] == data@[1] && d[2] == data@[2] && d[3] == data@[3]);
            assert(m[0] == 0x50 && m[1] == 0x41 && m[2] == 0x43 && m[3] == 0x4b);
        }
        return Err(PackError::BadMagic);
    }
    assert(data@.subrange(0, 4) =~= seq![0x50u8, 0x41, 0x43, 0x4b]);
    let version: u32 = read_be32(data, 4);
    if version != 2 {
        return Err(PackError::BadVersion(version));
    }
    let count: u32 = read_be32(data, 8);
    let mut objects: Vec<PackedObject> = Vec::new();
    let mut offsets: Vec<usize> = Vec::new();
    let mut pos: usize = 12;
    let mut done: u32 = 0;
    assert(views(objects@) =~= Seq::empty());
    assert(offset_ints(offsets@) =~= Seq::empty());
    while done < count
        invariant
            0 <= done <= count,
            pos <= data@.len(),
            objects@.len() == offsets@.len(),
            forall|i: int, j: int| 0 <= i < j < offsets@.len() ==> offsets@[i] < offsets@[j],
            forall|i: int| 0 <= i < offsets@.len() ==> offsets@[i] < pos,
            data@.len() >= 32,
            data@.subrange(0, 4) == seq![0x50u8, 0x41, 0x43, 0x4b],
            be32_at(data@, 4) == 2,
            count == be32_at(data@, 8),
            pack_objects(data@, 12, count as nat, Seq::empty(), Seq::empty(), store_view(store))
                == pack_objects(
                data@,
                pos as int,
                (count - done) as nat,
                views(objects@),
                offset_ints(offsets@),
                store_view(store),
            ),
        decreases count - done,
    {
        match read_entry(data, pos, &objects, &offsets, store) {
            Err(e) => return Err(e),
            Ok((kind, content, p)) => {
                let sha = id_of_content(kind, content.as_slice());
                let ghost objs = objects@;
                let ghost offs = offsets@;
                objects.push(PackedObject { sha, kind, data: content });
                offsets.push(pos);
                proof {
                    lemma_views_push(objs, objects@.last());
                    assert(offset_ints(offsets@) =~= offset_ints(offs).push(pos as int));
                }
                pos = p;
            },
        }
        done += 1;
    }
    let n: usize = data.len() - 20;
    let digest = sha1_digest(slice_subrange(data, 0, n));
    if !same_bytes(digest.as_slice(), slice_subrange(data, n, data.len())) {
        return Err(PackError::BadChecksum);
    }
    Ok(objects)
}

/// Reads a pack in which every delta is against an object of the pack.
pub fn parse_pack(data: &[u8]) -> (r: Result<Vec<PackedObject>, PackError>)
    ensures
        (match r {
            Ok(v) => pack_in(data@, None) == Ok::<Seq<PackedModel>, PackError>(views(v@)),
            Err(e) => pack_in(data@, None) == Err::<Seq<PackedModel>, PackError>(e),
        }),
{
    parse_pack_inner(data, None)
}

/// Reads a pack in which a delta may also be against an object of the store.
pub fn parse_pack_thin(data: &[u8], store: &ObjectDb) -> (r: Result<Vec<PackedObject>, PackError>)
    ensures
        (match r {
            Ok(v) => pack_in(data@, Some(store@)) == Ok::<Seq<PackedModel>, PackError>(views(v@)),
            Err(e) => pack_in(data@, Some(store@)) == Err::<Seq<PackedModel>, PackError>(e),
        }),
{
    parse_pack_inner(data, Some(store))
}

/// A number in groups of seven bits, least significant first; all but the last are marked.
pub open spec fn groups(n: nat) -> Seq<u8>
    decreases n,
{
    if n < 128 {
        seq![n as u8]
    } else {
        seq![(n % 128 + 128) as u8] + groups(n / 128)
    }
}

/// The head of a pack entry for an object of the given kind and size.
pub open spec fn entry_head(kind: Kind, size: nat) -> Seq<u8> {
    let low = type_of_kind(kind) * 16 + (size % 16) as int;
    if size < 16 {
        seq![low as u8]
    } else {
        seq![(low + 128) as u8] + groups(size / 16)
    }
}

/// The pack entry for an object.
pub open spec fn entry_bytes(o: (Kind, Seq<u8>)) -> Seq<u8> {
    entry_head(o.0, o.1.len()) + zlib_deflated(o.1)
}

/// The pack entries for some objects.
pub open spec fn entries_bytes(objs: Seq<(Kind, Seq<u8>)>) -> Seq<u8>
    decreases objs.len(),
{
    if objs.len() == 0 {
        Seq::empty()
    } else {
        entries_bytes(objs.drop_last()) + entry_bytes(objs.last())
    }
}

/// A pack without the digest at its end.
pub open spec fn pack_body(objs: Seq<(Kind, Seq<u8>)>) -> Seq<u8> {
    seq![0x50u8, 0x41, 0x43, 0x4b] + be32(2) + be32(objs.len() as u32) + entries_bytes(objs)
}

/// A pack of whole objects.
pub open spec fn pack_bytes(objs: Seq<(Kind, Seq<u8>)>) -> Seq<u8> {
    pack_body(objs) + sha1_of(pack_body(objs))@
}

/// Whether what was deflated from `content` inflates to it again, whatever follows.
pub open spec fn inflates_back(content: Seq<u8>) -> bool {
    forall|rest: Seq<u8>|
        #[trigger] zlib_inflated(zlib_deflated(content) + rest) == Some(
            (content, zlib_deflated(content).len()),
        )
}

spec fn pow128(m: nat) -> nat
    decreases m,
{
    if m == 0 {
        1
    } else {
        128 * pow128((m - 1) as nat)
    }
}

proof fn lemma_groups(n: nat)
    ensures
        groups(n).len() > 0,
    decreases n,
{
    if n >= 128 {
        lemma_groups(n / 128);
    }
}

/// A number in groups is read to its end, if it is not too long.
proof fn lemma_groups_read(s: Seq<u8>, pos: int, n: nat, acc: u64, shift: int, m: nat)
    requires
        0 <= pos,
        pos + groups(n).len() <= s.len(),
        s.subrange(pos, pos + groups(n).len()) == groups(n),
        n < pow128(m),
        m > 0,
        0 <= shift,
        shift + 7 * (m - 1) < 64,
    ensures
        varint(s, pos, acc, shift) matches Ok((_, p)) && p == pos + groups(n).len(),
    decreases n,
{
    let g = groups(n);
    lemma_groups(n);
    assert(s[pos] == s.subrange(pos, pos + g.len())[0]);
    if n >= 128 {
        let t = groups(n / 128);
        assert(s.subrange(pos + 1, pos + 1 + t.len()) =~= t) by {
            assert forall|k: int| 0 <= k < t.len() implies s[pos + 1 + k] == t[k] by {
                assert(s[pos + 1 + k] == s.subrange(pos, pos + g.len())[1 + k]);
            }
        }
        assert(m > 1) by {
            if m == 1 {
                reveal_with_fuel(pow128, 2);
            }
        }
        let v = acc | (((s[pos] % 128) as u64) << (shift as u64));
        lemma_groups_read(s, pos + 1, n / 128, v, shift + 7, (m - 1) as nat);
    }
}

/// The head of an entry is read back.
proof fn lemma_entry_head(s: Seq<u8>, pos: int, kind: Kind, size: nat)
    requires
        0 <= pos,
        size <= u64::MAX,
        pos + entry_head(kind, size).len() <= s.len(),
        s.subrange(pos, pos + entry_head(kind, size).len()) == entry_head(kind, size),
    ensures
        type_and_size(s, pos) matches Ok((t, _, p)) && t == type_of_kind(kind) && p == pos
            + entry_head(kind, size).len(),
        entry_head(kind, size).len() > 0,
{
    let h = entry_head(kind, size);
    assert(s[pos] == s.subrange(pos, pos + h.len())[0]);
    if size >= 16 {
        let t = groups(size / 16);
        assert(s.subrange(pos + 1, pos + 1 + t.len()) =~= t) by {
            assert forall|k: int| 0 <= k < t.len() implies s[pos + 1 + k] == t[k] by {
                assert(s[pos + 1 + k] == s.subrange(pos, pos + h.len())[1 + k]);
            }
        }
        reveal_with_fuel(pow128, 10);
        let low = (s[pos] % 16) as u64;
        lemma_groups_read(s, pos + 1, size / 16, low, 4, 9);
    }
}

/// The objects of a list, as they come out of a pack.
pub open spec fn packed_all(objs: Seq<(Kind, Seq<u8>)>) -> Seq<PackedModel> {
    Seq::new(objs.len(), |i: int| packed(objs[i].0, objs[i].1))
}

spec fn start_of(objs: Seq<(Kind, Seq<u8>)>, k: int) -> int {
    12int + entries_bytes(objs.subrange(0, k)).len()
}

proof fn lemma_entries_prefix(objs: Seq<(Kind, Seq<u8>)>, k: int)
    requires
        0 <= k < objs.len(),
    ensures
        start_of(objs, k) + entry_bytes(objs[k]).len() == start_of(objs, k + 1),
        start_of(objs, k + 1) <= 12 + entries_bytes(objs).len(),
        entries_bytes(objs).subrange(start_of(objs, k) - 12, start_of(objs, k + 1) - 12)
            == entry_bytes(objs[k]),
    decreases objs.len() - k,
{
    let a = objs.subrange(0, k);
    let b = objs.subrange(0, k + 1);
    assert(b.drop_last() =~= a);
    assert(b.last() == objs[k]);
    lemma_entries_monotone(objs, k + 1);
    let all = entries_bytes(objs);
    let front = entries_bytes(b);
    assert(all.subrange(0, front.len() as int) == front);
    assert(all.subrange(start_of(objs, k) - 12, start_of(objs, k + 1) - 12) =~= front.subrange(
        entries_bytes(a).len() as int,
        front.len() as int,
    ));
    assert(front.subrange(entries_bytes(a).len() as int, front.len() as int) =~= entry_bytes(
        objs[k],
    ));
}

proof fn lemma_entries_monotone(objs: Seq<(Kind, Seq<u8>)>, k: int)
    requires
        0 <= k <= objs.len(),
    ensures
        entries_bytes(objs.subrange(0, k)).len() <= entries_bytes(objs).len(),
        entries_bytes(objs).subrange(0, entries_bytes(objs.subrange(0, k)).len() as int)
            == entries_bytes(objs.subrange(0, k)),
    decreases objs.len() - k,
{
    if k == objs.len() {
        assert(objs.subrange(0, k) =~= objs);
        assert(entries_bytes(objs).subrange(0, entries_bytes(objs).len() as int) =~= entries_bytes(
            objs,
        ));
    } else {
        let a = entries_bytes(objs.subrange(0, k));
        let b = entries_bytes(objs.subrange(0, k + 1));
        assert(objs.subrange(0, k + 1).drop_last() =~= objs.subrange(0, k));
        lemma_entries_monotone(objs, k + 1);
        assert(b.subrange(0, a.len() as int) =~= a);
        assert(entries_bytes(objs).subrange(0, a.len() as int) =~= entries_bytes(objs).subrange(
            0,
            b.len() as int,
        ).subrange(0, a.len() as int));
    }
}

/// Where an entry stands in a pack.
proof fn lemma_entry_at(objs: Seq<(Kind, Seq<u8>)>, k: int)
    requires
        0 <= k < objs.len(),
    ensures
        ({
            let data = pack_bytes(objs);
            let pos = start_of(objs, k);
            let head = entry_head(objs[k].0, objs[k].1.len());
            let z = zlib_deflated(objs[k].1);
            let p = pos + head.len();
            &&& 12 <= pos
            &&& p + z.len() == start_of(objs, k + 1)
            &&& p + z.len() <= data.len()
            &&& data.subrange(pos, p) == head
            &&& data.subrange(p, data.len() as int) == z + data.subrange(
                p + z.len(),
                data.len() as int,
            )
        }),
{
    let data = pack_bytes(objs);
    let pos = start_of(objs, k);
    let head = entry_head(objs[k].0, objs[k].1.len());
    let z = zlib_deflated(objs[k].1);
    let p = pos + head.len();
    let one = entry_bytes(objs[k]);
    let all = entries_bytes(objs);
    lemma_entries_prefix(objs, k);
    let front = seq![0x50u8, 0x41, 0x43, 0x4b] + be32(2) + be32(objs.len() as u32);
    assert(front.len() == 12);
    let digest = sha1_of(pack_body(objs))@;
    assert(data =~= front + all + digest);
    assert(data.subrange(pos, pos + one.len()) =~= all.subrange(pos - 12, pos - 12 + one.len()));
    assert(data.subrange(pos, pos + one.len()) == one);
    assert(data.subrange(pos, p) =~= one.subrange(0, head.len() as int));
    assert(one.subrange(0, head.len() as int) =~= head);
    assert(data.subrange(p, p + z.len()) =~= one.subrange(head.len() as int, one.len() as int));
    assert(one.subrange(head.len() as int, one.len() as int) =~= z);
    assert(data.subrange(p, data.len() as int) =~= data.subrange(p, p + z.len()) + data.subrange(
        p + z.len(),
        data.len() as int,
    ));
}

proof fn lemma_pack_rest(objs: Seq<(Kind, Seq<u8>)>, k: int, offsets: Seq<int>)
    requires
        0 <= k <= objs.len(),
        objs.len() <= u32::MAX,
        forall|i: int| 0 <= i < objs.len() ==> inflates_back((#[trigger] objs[i]).1),
        forall|i: int| 0 <= i < objs.len() ==> (#[trigger] objs[i]).1.len() <= u64::MAX,
    ensures
        pack_objects(
            pack_bytes(objs),
            start_of(objs, k),
            (objs.len() - k) as nat,
            packed_all(objs.subrange(0, k)),
            offsets,
            None,
        ) == Ok::<Seq<PackedModel>, PackError>(packed_all(objs)),
    decreases objs.len() - k,
{
    let data = pack_bytes(objs);
    let end = data.len() as int;
    if k == objs.len() {
        assert(objs.subrange(0, k) =~= objs);
    } else {
        let pos = start_of(objs, k);
        let (kind, content) = objs[k];
        let head = entry_head(kind, content.len());
        let z = zlib_deflated(content);
        lemma_entry_at(objs, k);
        lemma_entry_head(data, pos, kind, content.len());
        let p = pos + head.len();
        let rest = data.subrange(p + z.len(), end);
        assert(inflates_back(content));
        assert(zlib_inflated(z + rest) == Some((content, z.len())));
        let objs_k = packed_all(objs.subrange(0, k));
        assert(packed_all(objs.subrange(0, k + 1)) =~= objs_k.push(packed(kind, content)));
        lemma_pack_rest(objs, k + 1, offsets.push(pos));
    }
}

/// A pack that is built from whole objects is read as those objects, each under its id.
pub proof fn law_pack_round_trip(objs: Seq<(Kind, Seq<u8>)>)
    requires
        objs.len() <= u32::MAX,
        forall|i: int| 0 <= i < objs.len() ==> (#[trigger] objs[i]).1.len() <= u64::MAX,
        forall|i: int| 0 <= i < objs.len() ==> inflates_back((#[trigger] objs[i]).1),
    ensures
        pack_in(pack_bytes(objs), None) == Ok::<Seq<PackedModel>, PackError>(packed_all(objs)),
{
    let data = pack_bytes(objs);
    let body = pack_body(objs);
    let digest = sha1_of(body)@;
    assert(digest.len() == 20);
    assert(data.subrange(0, 4) =~= seq![0x50u8, 0x41, 0x43, 0x4b]);
    assert(data.subrange(4, 8) =~= be32(2));
    lemma_be32_round_trip(data, 4, 2);
    assert(data.subrange(8, 12) =~= be32(objs.len() as u32));
    lemma_be32_round_trip(data, 8, objs.len() as u32);
    assert(objs.subrange(0, 0) =~= Seq::empty());
    assert(packed_all(objs.subrange(0, 0)) =~= Seq::empty());
    lemma_pack_rest(objs, 0, Seq::empty());
    assert(data.subrange(0, data.len() - 20) =~= body);
    assert(data.subrange(data.len() - 20, data.len() as int) =~= digest);
}

/// The kinds and contents in a list.
pub open spec fn contents(objs: Seq<(Kind, Vec<u8>)>) -> Seq<(Kind, Seq<u8>)> {
    Seq::new(objs.len(), |i: int| (objs[i].0, objs[i].1@))
}

/// Appends the head of a pack entry.
fn push_entry_head(out: &mut Vec<u8>, kind: Kind, size: u64)
    ensures
        final(out)@ == old(out)@ + entry_head(kind, size as nat),
{
    let low: u8 = kind.to_type() * 16 + (size % 16) as u8;
    if size < 16 {
        out.push(low);
        assert(out@ =~= old(out)@ + entry_head(kind, size as nat));
    } else {
        out.push(low + 128);
        let mut n: u64 = size / 16;
        let ghost goal = old(out)@ + entry_head(kind, size as nat);
        assert(out@ + groups(n as nat) =~= goal);
        while n >= 128
            invariant
                out@ + groups(n as nat) == goal,
            decreases n,
        {
            let ghost before = out@;
            out.push((n % 128 + 128) as u8);
            assert(before + groups(n as nat) =~= out@ + groups((n / 128) as nat));
            n = n / 128;
        }
        out.push(n as u8);
        assert(out@ =~= goal);
    }
}

/// Builds a pack of whole objects; reading it gives those objects back.
pub fn build_pack(objs: &Vec<(Kind, Vec<u8>)>) -> (r: Vec<u8>)
    requires
        objs@.len() <= u32::MAX,
    ensures
        r@ == pack_bytes(contents(objs@)),
        pack_in(r@, None) == Ok::<Seq<PackedModel>, PackError>(packed_all(contents(objs@))),
{
    let mut out: Vec<u8> = Vec::new();
    out.push(0x50);
    out.push(0x41);
    out.push(0x43);
    out.push(0x4b);
    push_be32(&mut out, 2);
    push_be32(&mut out, objs.len() as u32);
    let ghost all = contents(objs@);
    let ghost head = seq![0x50u8, 0x41, 0x43, 0x4b] + be32(2) + be32(all.len() as u32);
    assert(out@ =~= head + entries_bytes(all.subrange(0, 0)));
    let mut i: usize = 0;
    while i < objs.len()
        invariant
            0 <= i <= objs@.len(),
            all == contents(objs@),
            out@ == head + entries_bytes(all.subrange(0, i as int)),
            forall|k: int| 0 <= k < i ==> inflates_back((#[trigger] all[k]).1),
            forall|k: int| 0 <= k < i ==> (#[trigger] all[k]).1.len() <= u64::MAX,
        decreases objs@.len() - i,
    {
        let ghost before = out@;
        push_entry_head(&mut out, objs[i].0, objs[i].1.len() as u64);
        let z = zlib_deflate(objs[i].1.as_slice());
        append_bytes(&mut out, z.as_slice());
        proof {
            assert(all[i as int] == (objs@[i as int].0, objs@[i as int].1@));
            assert(inflates_back(all[i as int].1));
            let t = all.subrange(0, i + 1);
            assert(t.drop_last() =~= all.subrange(0, i as int));
            assert(t.last() == all[i as int]);
            assert(out@ =~= head + entries_bytes(t));
        }
        i += 1;
    }
    assert(all.subrange(0, i as int) =~= all);
    assert(out@ =~= pack_body(all));
    let digest = sha1_digest(out.as_slice());
    append_bytes(&mut out, digest.as_slice());
    proof {
        law_pack_round_trip(all);
    }
    out
}

} // verus!
