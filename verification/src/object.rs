//! Object ids, loose-object framing, and trees.
use crate::byte_map::{
    all_bound, ascending, bind, lemma_all_bound_is, lemma_bind, lemma_lookup_at, ByteMap,
};
use crate::bytes::{
    append_bytes, bytes_lt, copy_bytes, find_byte, find_from, lemma_find_from_is,
    lemma_lex_asymmetric, lemma_lex_irreflexive, lemma_lex_total, lemma_lex_transitive, lex_lt,
    same_bytes,
};
use crate::numbers::{dec, hex_decode, hex_of, hex_string, push_dec, unhex};
use crate::object_db::ObjectDb;
use crate::outside::{sha1_digest, sha1_of, zlib_deflate, zlib_deflated, zlib_inflated};
use crate::sorting::{in_order, law_in_order, sort, Ordered};
use crate::text::{
    chars_are, chars_of, lemma_encode_ascii, lemma_text_round_trip, lemma_trim_padded,
    lemma_views_push, res_view, same_text, text_of, text_of_slice, trim, trimmed, views,
};
use vstd::prelude::*;
use vstd::slice::slice_subrange;
use vstd::utf8::encode_utf8;

verus! {

/// What a tree or index entry is.
#[derive(Clone, Copy, PartialEq, Eq, Structural, Debug)]
pub enum FileMode {
    /// An executable file, `100755`.
    ExecRegularFile,
    /// A file that is not executable, `100644`.
    NExecRegularFile,
    /// A symbolic link, `120000`.
    SymbolicLink,
    /// A commit of another repository, `160000`.
    Gitlink,
    /// A directory, `40000`.
    Directory,
}

/// The name of an object: the digest of its framed content.
#[derive(Clone, Copy, Eq, Debug)]
pub enum ObjectSha {
    SHA1([u8; 20]),
    SHA256([u8; 32]),
}

/// Two arrays with the same bytes are the same array.
pub proof fn lemma_array20(a: [u8; 20], b: [u8; 20])
    requires
        a@ == b@,
    ensures
        a == b,
{
    assert(a =~= b);
}

proof fn lemma_array32(a: [u8; 32], b: [u8; 32])
    requires
        a@ == b@,
    ensures
        a == b,
{
    assert(a =~= b);
}

impl View for ObjectSha {
    type V = Seq<u8>;

    /// The bytes of the id.
    open spec fn view(&self) -> Seq<u8> {
        match self {
            ObjectSha::SHA1(h) => h@,
            ObjectSha::SHA256(h) => h@,
        }
    }
}

/// The object id with the given 20 or 32 bytes.
pub open spec fn oid_of(s: Seq<u8>) -> ObjectSha {
    choose|o: ObjectSha| o@ == s
}

/// An object id is determined by its bytes.
pub proof fn lemma_oid(o: ObjectSha)
    ensures
        oid_of(o@) == o,
        o@.len() == 20 || o@.len() == 32,
        o is SHA1 <==> o@.len() == 20,
{
    let p = oid_of(o@);
    assert(p@ == o@);
    match (p, o) {
        (ObjectSha::SHA1(a), ObjectSha::SHA1(b)) => {
            lemma_array20(a, b);
        },
        (ObjectSha::SHA256(a), ObjectSha::SHA256(b)) => {
            lemma_array32(a, b);
        },
        (ObjectSha::SHA1(a), ObjectSha::SHA256(b)) => {
            assert(a@.len() == 20 && b@.len() == 32);
        },
        (ObjectSha::SHA256(a), ObjectSha::SHA1(b)) => {
            assert(a@.len() == 32 && b@.len() == 20);
        },
    }
}

impl PartialEq for ObjectSha {
    fn eq(&self, other: &ObjectSha) -> (r: bool) {
        let r = same_bytes(self.as_bytes(), other.as_bytes());
        proof {
            lemma_oid(*self);
            lemma_oid(*other);
        }
        r
    }
}

impl vstd::std_specs::cmp::PartialEqSpecImpl for ObjectSha {
    open spec fn obeys_eq_spec() -> bool {
        true
    }

    open spec fn eq_spec(&self, other: &ObjectSha) -> bool {
        *self == *other
    }
}

impl ObjectSha {
    /// The bytes of the id.
    pub fn as_bytes(&self) -> (r: &[u8])
        ensures
            r@ == self@,
    {
        match self {
            ObjectSha::SHA1(h) => h.as_slice(),
            ObjectSha::SHA256(h) => h.as_slice(),
        }
    }

    /// The id in hexadecimal.
    pub fn to_string(&self) -> (r: String)
        ensures
            r@ == hex_of(self@),
    {
        hex_string(self.as_bytes())
    }

    /// The id whose bytes are `b`, where those are 20 or 32 in number.
    pub fn from_bytes(b: &[u8]) -> (r: Option<ObjectSha>)
        ensures
            (match r {
                Some(o) => o == oid_of(b@) && o@ == b@,
                None => b@.len() != 20 && b@.len() != 32,
            }),
    {
        if b.len() == 20 {
            let o = ObjectSha::SHA1(array20(b));
            proof {
                lemma_oid(o);
            }
            Some(o)
        } else if b.len() == 32 {
            let mut a = [0u8;32];
            let mut i: usize = 0;
            while i < 32
                invariant
                    0 <= i <= 32,
                    b@.len() == 32,
                    forall|j: int| 0 <= j < i ==> a@[j] == b@[j],
                decreases 32 - i,
            {
                a[i] = b[i];
                i += 1;
            }
            assert(a@ =~= b@);
            let o = ObjectSha::SHA256(a);
            proof {
                lemma_oid(o);
            }
            Some(o)
        } else {
            None
        }
    }

    /// The id that a text gives in hexadecimal.
    pub fn from_hex(s: &str) -> (r: Option<ObjectSha>)
        ensures
            r == oid_from_hex(s@),
            r matches Some(o) ==> unhex(s@) == Some(o@),
    {
        match hex_decode(s) {
            Some(b) => ObjectSha::from_bytes(b.as_slice()),
            None => None,
        }
    }
}

/// The id that `s` writes in hexadecimal, if it writes 20 or 32 bytes.
pub open spec fn oid_from_hex(s: Seq<char>) -> Option<ObjectSha> {
    match unhex(s) {
        Some(b) => if b.len() == 20 || b.len() == 32 {
            Some(oid_of(b))
        } else {
            None
        },
        None => None,
    }
}

/// An id written in hexadecimal reads back as itself.
pub proof fn lemma_oid_hex_round_trip(o: ObjectSha)
    ensures
        oid_from_hex(hex_of(o@)) == Some(o),
{
    crate::numbers::lemma_hex_round_trip(o@);
    lemma_oid(o);
}

/// The first 20 bytes of a slice as an array.
pub fn array20(b: &[u8]) -> (a: [u8; 20])
    requires
        b@.len() == 20,
    ensures
        a@ == b@,
{
    let mut a = [0u8;20];
    let mut i: usize = 0;
    while i < 20
        invariant
            0 <= i <= 20,
            b@.len() == 20,
            forall|j: int| 0 <= j < i ==> a@[j] == b@[j],
        decreases 20 - i,
    {
        a[i] = b[i];
        i += 1;
    }
    assert(a@ =~= b@);
    a
}

/// Why an object cannot be read.
#[derive(Clone, Copy, PartialEq, Eq, Debug)]
pub enum ObjectError {
    /// The store does not hold this object.
    Missing(ObjectSha),
    /// The chain of trees or commits down to this object is longer than the store is large.
    Cyclic(ObjectSha),
    /// The compressed form is no zlib stream.
    Corrupt,
    /// Text that is not UTF-8.
    NotUtf8,
    /// An object of another kind than asked for.
    WrongKind,
    /// A tree named by an id that is not a SHA-1 digest.
    NotSha1,
    /// A tree entry whose mode is none of the known ones.
    BadMode,
    /// A tree entry that ends too early.
    TruncatedEntry,
    /// A commit that ends within its headers.
    HeaderEof,
    /// A last header line without its line feed.
    HeaderNoNewline,
    /// An object id of the wrong length.
    BadIdLength,
    /// An object id that is not hexadecimal.
    BadIdHex,
    /// An identity without `>`.
    IdentityNoGt,
    /// An identity without a time.
    IdentityNoTime,
    /// An identity whose time is no number.
    IdentityBadTime,
    /// An identity without a time zone.
    IdentityNoZone,
    /// An identity with more fields than it can have.
    IdentityExtra,
    /// An identity without `<`.
    IdentityNoLt,
    DuplicateTree,
    DuplicateAuthor,
    DuplicateCommitter,
    MissingTree,
    MissingAuthor,
    MissingCommitter,
}

/// The loose form of an object before compression: kind, space, size in decimal, NUL, payload.
pub open spec fn framed(kind: Seq<char>, payload: Seq<u8>) -> Seq<u8> {
    encode_utf8(kind) + seq![0x20u8] + encode_utf8(dec(payload.len())) + seq![0u8] + payload
}

/// The id of an object with the given loose form.
pub open spec fn oid_of_raw(raw: Seq<u8>) -> ObjectSha {
    ObjectSha::SHA1(sha1_of(raw))
}

/// Frames a payload as an object of the given kind.
pub fn frame(kind: &str, payload: &[u8]) -> (r: Vec<u8>)
    ensures
        r@ == framed(kind@, payload@),
{
    let mut r: Vec<u8> = Vec::new();
    append_bytes(&mut r, kind.as_bytes());
    r.push(0x20);
    let mut size = String::new();
    push_dec(&mut size, payload.len() as u64);
    assert(size@ =~= dec(payload@.len()));
    append_bytes(&mut r, size.as_str().as_bytes());
    r.push(0);
    append_bytes(&mut r, payload);
    assert(r@ =~= framed(kind@, payload@));
    r
}

/// The id of the object with the given loose form.
pub fn hash_raw(raw: &[u8]) -> (r: ObjectSha)
    ensures
        r == oid_of_raw(raw@),
{
    ObjectSha::SHA1(sha1_digest(raw))
}

/// The id and the loose form of a blob with the given content (a file's bytes, or the target of a
/// symbolic link).
pub fn hash_object(content: &[u8]) -> (r: (ObjectSha, Vec<u8>))
    ensures
        r.1@ == framed("blob"@, content@),
        r.0 == oid_of_raw(r.1@),
{
    let raw = frame("blob", content);
    (hash_raw(raw.as_slice()), raw)
}

/// The file content that stores an object whose loose form is `content`: a zlib stream that
/// inflates to it.
pub fn write_hash_object(content: &[u8]) -> (r: Vec<u8>)
    ensures
        r@ == zlib_deflated(content@),
        zlib_inflated(r@) == Some((content@, r@.len())),
{
    let r = zlib_deflate(content);
    assert(r@ + Seq::empty() =~= r@);
    r
}

/// What stands in `s` up to and with the first `x`; all of `s` if there is none.
pub open spec fn upto_with(s: Seq<u8>, x: u8) -> Seq<u8> {
    let i = find_from(s, x, 0);
    if i < s.len() {
        s.subrange(0, i + 1)
    } else {
        s
    }
}

/// What follows the first `x` in `s`; nothing if there is none.
pub open spec fn after(s: Seq<u8>, x: u8) -> Seq<u8> {
    let i = find_from(s, x, 0);
    if i < s.len() {
        s.subrange(i + 1, s.len() as int)
    } else {
        Seq::empty()
    }
}

pub proof fn lemma_after_shorter(s: Seq<u8>, x: u8)
    ensures
        after(s, x).len() <= s.len(),
        s.len() > 0 ==> after(s, x).len() < s.len(),
{
    crate::bytes::lemma_find_from(s, x, 0);
}

/// `s` without its last byte.
pub open spec fn popped(s: Seq<u8>) -> Seq<u8> {
    if s.len() > 0 {
        s.drop_last()
    } else {
        s
    }
}

/// Takes what stands up to and with the first `x` from the front of the input.
fn take_until<'a>(reader: &mut &'a [u8], x: u8) -> (r: &'a [u8])
    ensures
        r@ == upto_with((*old(reader))@, x),
        (*final(reader))@ == after((*old(reader))@, x),
{
    let s = *reader;
    let i: usize = find_byte(s, x, 0);
    if i < s.len() {
        *reader = slice_subrange(s, i + 1, s.len());
        slice_subrange(s, 0, i + 1)
    } else {
        *reader = slice_subrange(s, s.len(), s.len());
        assert((*reader)@ =~= Seq::empty());
        s
    }
}

/// The slice without its last byte.
fn without_last(s: &[u8]) -> (r: &[u8])
    ensures
        r@ == popped(s@),
{
    if s.len() > 0 {
        slice_subrange(s, 0, s.len() - 1)
    } else {
        s
    }
}

/// The kind that a loose form starts with.
pub open spec fn kind_of_raw(raw: Seq<u8>) -> Result<Seq<char>, ObjectError> {
    match text_of(popped(upto_with(raw, 0x20))) {
        Some(k) => Ok(k),
        None => Err(ObjectError::NotUtf8),
    }
}

/// The payload of a loose form: what follows the kind and the size.
pub open spec fn payload_of_raw(raw: Seq<u8>) -> Seq<u8> {
    after(after(raw, 0x20), 0)
}

/// The payload of a loose form that must be of the given kind.
pub open spec fn payload_of_kind(raw: Seq<u8>, kind: Seq<char>) -> Result<Seq<u8>, ObjectError> {
    match kind_of_raw(raw) {
        Ok(k) => if k == kind {
            Ok(payload_of_raw(raw))
        } else {
            Err(ObjectError::WrongKind)
        },
        Err(e) => Err(e),
    }
}

/// Whether an ASCII word holds neither a space nor a NUL.
pub open spec fn plain_word(kind: Seq<char>) -> bool {
    &&& vstd::utf8::is_ascii_chars(kind)
    &&& forall|i: int| 0 <= i < kind.len() ==> kind[i] != ' ' && kind[i] != '\0'
}

/// What was framed is read back: the kind and the payload.
pub proof fn lemma_frame_round_trip(kind: Seq<char>, payload: Seq<u8>)
    requires
        plain_word(kind),
    ensures
        kind_of_raw(framed(kind, payload)) == Ok::<Seq<char>, ObjectError>(kind),
        payload_of_raw(framed(kind, payload)) == payload,
        payload_of_kind(framed(kind, payload), kind) == Ok::<Seq<u8>, ObjectError>(payload),
{
    let raw = framed(kind, payload);
    let k = encode_utf8(kind);
    let n = encode_utf8(dec(payload.len()));
    lemma_encode_ascii(kind);
    crate::numbers::lemma_dec_round_trip(payload.len());
    assert forall|i: int| 0 <= i < dec(payload.len()).len() implies '\0' <= #[trigger] dec(
        payload.len(),
    )[i] <= '\u{7f}' by {
        assert(crate::numbers::is_digit(dec(payload.len())[i]));
    }
    lemma_encode_ascii(dec(payload.len()));
    assert forall|i: int| 0 <= i < k.len() implies raw[i] != 0x20 by {
        assert(raw[i] == k[i] && kind[i] != ' ');
        vstd::utf8::char_u32_cast(kind[i], kind[i] as u32);
    }
    assert(raw[k.len() as int] == 0x20);
    lemma_find_from_is(raw, 0x20, 0, k.len() as int);
    assert(popped(upto_with(raw, 0x20)) =~= k);
    lemma_text_round_trip(kind);
    let rest = after(raw, 0x20);
    assert(rest =~= n + seq![0u8] + payload);
    assert forall|i: int| 0 <= i < n.len() implies rest[i] != 0 by {
        assert(rest[i] == n[i]);
        assert(crate::numbers::is_digit(dec(payload.len())[i]));
    }
    lemma_find_from_is(rest, 0, 0, n.len() as int);
    assert(after(rest, 0) =~= payload);
}

/// The kinds of object.
pub enum Object {
    Blob(BlobObject),
    Tree(TreeObject),
    Commit(crate::commit_object::CommitObject),
    Tag,
}

/// A blob; its payload is read on its own.
pub struct BlobObject;

impl Object {
    /// Reads the kind at the start of a loose form, and the space after it.
    pub fn read_object_type(reader: &mut &[u8]) -> (r: Result<String, ObjectError>)
        ensures
            res_view(r) == kind_of_raw((*old(reader))@),
            (*final(reader))@ == after((*old(reader))@, 0x20),
    {
        let word = take_until(reader, 0x20);
        match text_of_slice(without_last(word)) {
            Some(k) => Ok(k),
            None => Err(ObjectError::NotUtf8),
        }
    }

    /// Skips the size that follows the kind, and the NUL after it.
    pub fn skip_git_object_size_nul(reader: &mut &[u8])
        ensures
            (*final(reader))@ == after((*old(reader))@, 0),
    {
        let _ = take_until(reader, 0);
    }

    /// Reads the kind at the start of a loose form and fails unless it is the expected one.
    pub fn ensure_loose_object_kind(reader: &mut &[u8], expected_kind: &str) -> (r: Result<
        (),
        ObjectError,
    >)
        ensures
            r == (match kind_of_raw((*old(reader))@) {
                Ok(k) => if k == expected_kind@ {
                    Ok(())
                } else {
                    Err(ObjectError::WrongKind)
                },
                Err(e) => Err(e),
            }),
            (*final(reader))@ == after((*old(reader))@, 0x20),
    {
        match Object::read_object_type(reader) {
            Ok(k) => if same_text(k.as_str(), expected_kind) {
                Ok(())
            } else {
                Err(ObjectError::WrongKind)
            },
            Err(e) => Err(e),
        }
    }
}

/// What an object of a kind is read as: trees and commits in full, blobs without their payload.
pub open spec fn content_fault(kind: Seq<char>, payload: Seq<u8>) -> Option<ObjectError> {
    if kind == "blob"@ {
        None
    } else if kind == "tree"@ {
        match tree_entries(payload, true, Seq::empty()) {
            Ok(_) => None,
            Err(e) => Some(e),
        }
    } else if kind == "commit"@ {
        match crate::commit_object::commit_in(payload, true) {
            Ok(_) => None,
            Err(e) => Some(e),
        }
    } else {
        Some(ObjectError::WrongKind)
    }
}

impl Object {
    /// Reads the payload of an object of the given kind.
    pub fn read_object_content(obj_type: &str, oid: ObjectSha, payload: &[u8]) -> (r: Result<
        Object,
        ObjectError,
    >)
        ensures
            (match r {
                Ok(Object::Blob(_)) => obj_type@ == "blob"@,
                Ok(Object::Tree(t)) => obj_type@ != "blob"@ && obj_type@ == "tree"@ && t.id() == oid
                    && tree_entries(payload@, true, Seq::empty()) == Ok::<
                    Seq<(Seq<u8>, TreeEntry)>,
                    ObjectError,
                >(t.names()),
                Ok(Object::Commit(c)) => obj_type@ != "blob"@ && obj_type@ != "tree"@ && obj_type@
                    == "commit"@ && c.object_name == oid && crate::commit_object::commit_in(
                    payload@,
                    true,
                ) == Ok::<crate::commit_object::CommitModel, ObjectError>(c@),
                Ok(Object::Tag) => false,
                Err(e) => content_fault(obj_type@, payload@) == Some(e),
            }),
    {
        if same_text(obj_type, "blob") {
            Ok(Object::Blob(BlobObject))
        } else if same_text(obj_type, "tree") {
            let mut reader: &[u8] = payload;
            match TreeObject::read_tree(oid, &mut reader, true) {
                Ok(t) => Ok(Object::Tree(t)),
                Err(e) => Err(e),
            }
        } else if same_text(obj_type, "commit") {
            match crate::commit_object::CommitObject::read_commit(oid, payload, true) {
                Ok(c) => Ok(Object::Commit(c)),
                Err(e) => Err(e),
            }
        } else {
            Err(ObjectError::WrongKind)
        }
    }
}

/// The payload of a loose form that must be of the given kind.
pub fn payload_of<'a>(raw: &'a [u8], kind: &str) -> (r: Result<&'a [u8], ObjectError>)
    ensures
        res_view(r) == payload_of_kind(raw@, kind@),
{
    let mut reader: &[u8] = raw;
    match Object::ensure_loose_object_kind(&mut reader, kind) {
        Ok(_) => {
            Object::skip_git_object_size_nul(&mut reader);
            Ok(reader)
        },
        Err(e) => Err(e),
    }
}

impl BlobObject {
    /// The payload of a blob's loose form.
    pub fn read_blob_payload(raw: &[u8]) -> (r: Result<Vec<u8>, ObjectError>)
        ensures
            res_view(r) == payload_of_kind(raw@, "blob"@),
    {
        match payload_of(raw, "blob") {
            Ok(p) => Ok(copy_bytes(p)),
            Err(e) => Err(e),
        }
    }
}

/// The mode of a tree entry as text.
pub open spec fn mode_word(m: FileMode) -> Seq<char> {
    match m {
        FileMode::ExecRegularFile => "100755"@,
        FileMode::NExecRegularFile => "100644"@,
        FileMode::SymbolicLink => "120000"@,
        FileMode::Gitlink => "160000"@,
        FileMode::Directory => "40000"@,
    }
}

/// The mode that a word names.
pub open spec fn mode_of_word(w: Seq<char>) -> Option<FileMode> {
    if w == "100755"@ {
        Some(FileMode::ExecRegularFile)
    } else if w == "100644"@ {
        Some(FileMode::NExecRegularFile)
    } else if w == "120000"@ {
        Some(FileMode::SymbolicLink)
    } else if w == "160000"@ {
        Some(FileMode::Gitlink)
    } else if w == "40000"@ {
        Some(FileMode::Directory)
    } else {
        None
    }
}

/// The word of a mode names that mode; it is ASCII without space or NUL.
pub proof fn lemma_mode_word(m: FileMode)
    ensures
        mode_of_word(mode_word(m)) == Some(m),
        plain_word(mode_word(m)),
        trim(mode_word(m)) == mode_word(m),
        mode_word(m).len() > 0,
{
    reveal_strlit("100755");
    reveal_strlit("100644");
    reveal_strlit("120000");
    reveal_strlit("160000");
    reveal_strlit("40000");
    assert("100755"@[5] == '5' && "100644"@[5] == '4');
    assert("120000"@[1] == '2' && "160000"@[1] == '6');
    assert("100755"@[1] == '0' && "100644"@[1] == '0');
    assert("40000"@.len() == 5 && "100755"@.len() == 6 && "100644"@.len() == 6);
    assert("120000"@.len() == 6 && "160000"@.len() == 6);
    match m {
        FileMode::ExecRegularFile => {},
        FileMode::NExecRegularFile => {
            assert("100644"@ != "100755"@);
        },
        FileMode::SymbolicLink => {
            assert("120000"@ != "100755"@ && "120000"@ != "100644"@);
        },
        FileMode::Gitlink => {
            assert("160000"@ != "100755"@ && "160000"@ != "100644"@ && "160000"@ != "120000"@);
        },
        FileMode::Directory => {},
    }
}

fn mode_text(m: FileMode) -> (r: &'static str)
    ensures
        r@ == mode_word(m),
{
    match m {
        FileMode::ExecRegularFile => "100755",
        FileMode::NExecRegularFile => "100644",
        FileMode::SymbolicLink => "120000",
        FileMode::Gitlink => "160000",
        FileMode::Directory => "40000",
    }
}

fn mode_from_word(w: &[char]) -> (r: Option<FileMode>)
    ensures
        r == mode_of_word(w@),
{
    if chars_are(w, "100755") {
        Some(FileMode::ExecRegularFile)
    } else if chars_are(w, "100644") {
        Some(FileMode::NExecRegularFile)
    } else if chars_are(w, "120000") {
        Some(FileMode::SymbolicLink)
    } else if chars_are(w, "160000") {
        Some(FileMode::Gitlink)
    } else if chars_are(w, "40000") {
        Some(FileMode::Directory)
    } else {
        None
    }
}

/// What a name in a tree stands for.
#[derive(Clone, Copy, PartialEq, Eq, Debug)]
pub struct TreeEntry {
    pub file_mode: FileMode,
    pub object_name: ObjectSha,
}

/// The number of bytes in an id of the given kind.
pub open spec fn id_len(is_sha1: bool) -> int {
    if is_sha1 {
        20
    } else {
        32
    }
}

/// The entry at the start of a tree's payload, and what follows it; nothing at the end.
pub open spec fn first_entry(s: Seq<u8>, is_sha1: bool) -> Result<
    Option<((Seq<u8>, TreeEntry), Seq<u8>)>,
    ObjectError,
> {
    if s.len() == 0 {
        Ok(None)
    } else {
        match text_of(upto_with(s, 0x20)) {
            None => Err(ObjectError::NotUtf8),
            Some(word) => match mode_of_word(trim(word)) {
                None => Err(ObjectError::BadMode),
                Some(file_mode) => {
                    let rest = after(s, 0x20);
                    let tail = after(rest, 0);
                    let n = id_len(is_sha1);
                    if tail.len() < n {
                        Err(ObjectError::TruncatedEntry)
                    } else {
                        let name = popped(upto_with(rest, 0));
                        let object_name = oid_of(tail.subrange(0, n));
                        Ok(
                            Some(
                                (
                                    (name, (TreeEntry { file_mode, object_name })),
                                    tail.subrange(n, tail.len() as int),
                                ),
                            ),
                        )
                    }
                },
            },
        }
    }
}

/// An entry as it stands in a tree's payload.
pub open spec fn entry_binary(name: Seq<u8>, e: TreeEntry) -> Seq<u8> {
    encode_utf8(mode_word(e.file_mode)) + seq![0x20u8] + name + seq![0u8] + e.object_name@
}

impl TreeEntry {
    /// Reads the entry at the start of the input, if the input is not at its end.
    pub fn read_entry(reader: &mut &[u8], is_sha1: bool) -> (r: Result<
        Option<(Vec<u8>, TreeEntry)>,
        ObjectError,
    >)
        ensures
            (match r {
                Ok(Some((name, e))) => first_entry((*old(reader))@, is_sha1) == Ok::<
                    Option<((Seq<u8>, TreeEntry), Seq<u8>)>,
                    ObjectError,
                >(Some(((name@, e), (*final(reader))@))) && (*final(reader))@.len() < (*old(reader))@.len(),
                Ok(None) => first_entry((*old(reader))@, is_sha1) == Ok::<
                    Option<((Seq<u8>, TreeEntry), Seq<u8>)>,
                    ObjectError,
                >(None) && *final(reader) == *old(reader),
                Err(x) => first_entry((*old(reader))@, is_sha1) == Err::<
                    Option<((Seq<u8>, TreeEntry), Seq<u8>)>,
                    ObjectError,
                >(x),
            }),
    {
        let all = *reader;
        proof {
            lemma_after_shorter(all@, 0x20);
            lemma_after_shorter(after(all@, 0x20), 0);
        }
        if all.len() == 0 {
            return Ok(None);
        }
        let mode_buf = take_until(reader, 0x20);
        let word = match text_of_slice(mode_buf) {
            Some(w) => chars_of(w.as_str()),
            None => return Err(ObjectError::NotUtf8),
        };
        let file_mode = match mode_from_word(trimmed(word.as_slice())) {
            Some(m) => m,
            None => return Err(ObjectError::BadMode),
        };
        let name_buf = take_until(reader, 0);
        let name = copy_bytes(without_last(name_buf));
        let tail = *reader;
        let n: usize = if is_sha1 {
            20
        } else {
            32
        };
        if tail.len() < n {
            return Err(ObjectError::TruncatedEntry);
        }
        match ObjectSha::from_bytes(slice_subrange(tail, 0, n)) {
            Some(object_name) => {
                *reader = slice_subrange(tail, n, tail.len());
                Ok(Some((name, TreeEntry { file_mode, object_name })))
            },
            None => Err(ObjectError::TruncatedEntry),
        }
    }

    /// The entry as it stands in a tree's payload.
    pub fn to_binary(&self, file_name: &[u8]) -> (r: Vec<u8>)
        ensures
            r@ == entry_binary(file_name@, *self),
    {
        let mut r: Vec<u8> = Vec::new();
        append_bytes(&mut r, mode_text(self.file_mode).as_bytes());
        r.push(0x20);
        append_bytes(&mut r, file_name);
        r.push(0);
        append_bytes(&mut r, self.object_name.as_bytes());
        assert(r@ =~= entry_binary(file_name@, *self));
        r
    }
}

/// The entries in a tree's payload, added to those in `acc`.
pub open spec fn tree_entries(s: Seq<u8>, is_sha1: bool, acc: Seq<(Seq<u8>, TreeEntry)>) -> Result<
    Seq<(Seq<u8>, TreeEntry)>,
    ObjectError,
>
    decreases s.len(),
{
    match first_entry(s, is_sha1) {
        Err(e) => Err(e),
        Ok(None) => Ok(acc),
        Ok(Some(((name, entry), rest))) => if rest.len() < s.len() {
            tree_entries(rest, is_sha1, bind(acc, name, entry))
        } else {
            Ok(acc)
        },
    }
}

/// What decides where an entry stands in a tree: its name, with a slash behind that of a directory.
pub open spec fn git_key(name: Seq<u8>, e: TreeEntry) -> Seq<u8> {
    if e.file_mode == FileMode::Directory {
        name.push(0x2f)
    } else {
        name
    }
}

/// An entry with its name.
#[derive(Debug)]
pub struct NamedEntry {
    pub name: Vec<u8>,
    pub entry: TreeEntry,
}

impl View for NamedEntry {
    type V = (Seq<u8>, TreeEntry);

    open spec fn view(&self) -> (Seq<u8>, TreeEntry) {
        (self.name@, self.entry)
    }
}

impl NamedEntry {
    /// What decides where the entry stands in a tree.
    pub fn key(&self) -> (r: Vec<u8>)
        ensures
            r@ == git_key(self@.0, self@.1),
    {
        let mut r = copy_bytes(self.name.as_slice());
        if self.entry.file_mode == FileMode::Directory {
            r.push(0x2f);
        }
        r
    }
}

impl Ordered for NamedEntry {
    open spec fn precedes(a: (Seq<u8>, TreeEntry), b: (Seq<u8>, TreeEntry)) -> bool {
        lex_lt(git_key(a.0, a.1), git_key(b.0, b.1))
    }

    proof fn lemma_order(
        a: (Seq<u8>, TreeEntry),
        b: (Seq<u8>, TreeEntry),
        c: (Seq<u8>, TreeEntry),
    ) {
        let x = git_key(a.0, a.1);
        let y = git_key(b.0, b.1);
        let z = git_key(c.0, c.1);
        if lex_lt(x, y) {
            lemma_lex_asymmetric(x, y);
        }
        if !lex_lt(x, y) && !lex_lt(y, z) && lex_lt(x, z) {
            lemma_lex_total(y, z);
            if y != z {
                lemma_lex_transitive(x, z, y);
            }
        }
    }

    fn comes_before(&self, other: &Self) -> (r: bool) {
        bytes_lt(self.key().as_slice(), other.key().as_slice())
    }
}

/// The entries in the order in which a tree holds them: the same ones, by their keys.
pub open spec fn git_order(entries: Seq<(Seq<u8>, TreeEntry)>) -> Seq<(Seq<u8>, TreeEntry)> {
    in_order::<NamedEntry>(entries)
}

/// A tree's payload: its entries, one behind the other.
pub open spec fn tree_payload(entries: Seq<(Seq<u8>, TreeEntry)>) -> Seq<u8>
    decreases entries.len(),
{
    if entries.len() == 0 {
        Seq::empty()
    } else {
        tree_payload(entries.drop_last()) + entry_binary(entries.last().0, entries.last().1)
    }
}

/// A directory: names in dictionary order, each with its entry.
pub struct TreeObject {
    object_name: ObjectSha,
    entries: ByteMap<TreeEntry>,
}

impl TreeObject {
    /// The id of the tree.
    pub closed spec fn id(&self) -> ObjectSha {
        self.object_name
    }

    /// The entries of the tree.
    pub closed spec fn names(&self) -> Seq<(Seq<u8>, TreeEntry)> {
        self.entries@
    }

    /// The id of the tree.
    pub fn object_name(&self) -> (r: &ObjectSha)
        ensures
            *r == self.id(),
    {
        &self.object_name
    }

    /// The entries of the tree.
    pub fn entries(&self) -> (r: &ByteMap<TreeEntry>)
        ensures
            r@ == self.names(),
            ascending(r@),
    {
        proof {
            use_type_invariant(&self.entries);
        }
        &self.entries
    }

    /// Reads a tree's payload.
    pub fn read_tree(object_name: ObjectSha, reader: &mut &[u8], is_sha1: bool) -> (r: Result<
        TreeObject,
        ObjectError,
    >)
        ensures
            (match r {
                Ok(t) => t.id() == object_name && tree_entries(
                    (*old(reader))@,
                    is_sha1,
                    Seq::empty(),
                ) == Ok::<Seq<(Seq<u8>, TreeEntry)>, ObjectError>(t.names()) && (*final(reader))@.len() == 0,
                Err(e) => tree_entries((*old(reader))@, is_sha1, Seq::empty()) == Err::<
                    Seq<(Seq<u8>, TreeEntry)>,
                    ObjectError,
                >(e),
            }),
    {
        let mut entries: ByteMap<TreeEntry> = ByteMap::new();
        loop
            invariant
                tree_entries((*old(reader))@, is_sha1, Seq::empty()) == tree_entries(
                    (*reader)@,
                    is_sha1,
                    entries@,
                ),
            decreases (*reader)@.len(),
        {
            match TreeEntry::read_entry(reader, is_sha1) {
                Err(e) => return Err(e),
                Ok(None) => return Ok(TreeObject { object_name, entries }),
                Ok(Some((name, entry))) => {
                    entries.insert(name, entry);
                },
            }
        }
    }

    /// The loose form of a tree with the given entries, which stand there in the order of their
    /// keys.
    pub fn entries_to_binary(entries: &ByteMap<TreeEntry>, _is_sha1: bool) -> (r: Vec<u8>)
        ensures
            r@ == framed("tree"@, tree_payload(git_order(entries@))),
    {
        let mut named: Vec<NamedEntry> = Vec::new();
        let mut k: usize = 0;
        while k < entries.len()
            invariant
                0 <= k <= entries@.len(),
                views(named@) == entries@.subrange(0, k as int),
            decreases entries@.len() - k,
        {
            let one = NamedEntry {
                name: copy_bytes(entries.key_at(k).as_slice()),
                entry: *entries.value_at(k),
            };
            let ghost before = named@;
            named.push(one);
            proof {
                lemma_views_push(before, one);
                assert(entries@.subrange(0, k + 1) =~= entries@.subrange(0, k as int).push(one@));
            }
            k += 1;
        }
        assert(entries@.subrange(0, k as int) =~= entries@);
        let sorted = sort(named);
        let ghost es = git_order(entries@);
        let mut payload: Vec<u8> = Vec::new();
        let mut i: usize = 0;
        while i < sorted.len()
            invariant
                0 <= i <= sorted@.len(),
                es == views(sorted@),
                payload@ == tree_payload(es.subrange(0, i as int)),
            decreases sorted@.len() - i,
        {
            let one = sorted[i].entry.to_binary(sorted[i].name.as_slice());
            append_bytes(&mut payload, one.as_slice());
            proof {
                let t = es.subrange(0, i + 1);
                assert(t.drop_last() =~= es.subrange(0, i as int));
                assert(t.last() == sorted@[i as int]@);
            }
            i += 1;
        }
        assert(es.subrange(0, i as int) =~= es);
        frame("tree", payload.as_slice())
    }

    /// Reads a tree from the store.
    pub fn read_loose_tree(db: &ObjectDb, oid: &ObjectSha) -> (r: Result<TreeObject, ObjectError>)
        ensures
            (match r {
                Ok(t) => t.id() == *oid && tree_in(db@, *oid) == Ok::<
                    Seq<(Seq<u8>, TreeEntry)>,
                    ObjectError,
                >(t.names()),
                Err(e) => tree_in(db@, *oid) == Err::<Seq<(Seq<u8>, TreeEntry)>, ObjectError>(e),
            }),
    {
        let raw = match db.get(oid) {
            Some(raw) => raw,
            None => return Err(ObjectError::Missing(*oid)),
        };
        let mut reader: &[u8] = match payload_of(raw.as_slice(), "tree") {
            Ok(p) => p,
            Err(e) => return Err(e),
        };
        match oid {
            ObjectSha::SHA1(_) => TreeObject::read_tree(*oid, &mut reader, true),
            ObjectSha::SHA256(_) => Err(ObjectError::NotSha1),
        }
    }
}

/// The entries of the tree that the store holds under an id.
pub open spec fn tree_in(db: Map<ObjectSha, Seq<u8>>, oid: ObjectSha) -> Result<
    Seq<(Seq<u8>, TreeEntry)>,
    ObjectError,
> {
    if !db.contains_key(oid) {
        Err(ObjectError::Missing(oid))
    } else {
        match payload_of_kind(db[oid], "tree"@) {
            Err(e) => Err(e),
            Ok(p) => if oid is SHA1 {
                tree_entries(p, true, Seq::empty())
            } else {
                Err(ObjectError::NotSha1)
            },
        }
    }
}

/// Entries that are read are in dictionary order of their names.
pub proof fn lemma_entries_ascend(s: Seq<u8>, is_sha1: bool, acc: Seq<(Seq<u8>, TreeEntry)>)
    requires
        ascending(acc),
    ensures
        tree_entries(s, is_sha1, acc) matches Ok(t) ==> ascending(t),
    decreases s.len(),
{
    if let Ok(Some(((name, entry), rest))) = first_entry(s, is_sha1) {
        if rest.len() < s.len() {
            lemma_bind(acc, name, entry);
            lemma_entries_ascend(rest, is_sha1, bind(acc, name, entry));
        }
    }
}

/// The payload of the blob that the store holds under an id.
pub open spec fn blob_in(db: Map<ObjectSha, Seq<u8>>, oid: ObjectSha) -> Result<
    Seq<u8>,
    ObjectError,
> {
    if !db.contains_key(oid) {
        Err(ObjectError::Missing(oid))
    } else {
        payload_of_kind(db[oid], "blob"@)
    }
}

/// Content that is stored under its id is read back from there.
pub proof fn law_blob_round_trip(db: Map<ObjectSha, Seq<u8>>, content: Seq<u8>)
    ensures
        blob_in(
            db.insert(oid_of_raw(framed("blob"@, content)), framed("blob"@, content)),
            oid_of_raw(framed("blob"@, content)),
        ) == Ok::<Seq<u8>, ObjectError>(content),
{
    reveal_strlit("blob");
    lemma_frame_round_trip("blob"@, content);
}

/// Reads a blob's payload from the store.
pub fn read_loose_blob(db: &ObjectDb, oid: &ObjectSha) -> (r: Result<Vec<u8>, ObjectError>)
    ensures
        res_view(r) == blob_in(db@, *oid),
{
    match db.get(oid) {
        Some(raw) => BlobObject::read_blob_payload(raw.as_slice()),
        None => Err(ObjectError::Missing(*oid)),
    }
}

/// One entry, written and followed by anything, is read back.
proof fn lemma_entry_round_trip(name: Seq<u8>, e: TreeEntry, rest: Seq<u8>, is_sha1: bool)
    requires
        forall|i: int| 0 <= i < name.len() ==> name[i] != 0,
        e.object_name is SHA1 <==> is_sha1,
    ensures
        first_entry(entry_binary(name, e) + rest, is_sha1) == Ok::<
            Option<((Seq<u8>, TreeEntry), Seq<u8>)>,
            ObjectError,
        >(Some(((name, e), rest))),
{
    let s = entry_binary(name, e) + rest;
    let w = mode_word(e.file_mode);
    let m = encode_utf8(w);
    let o = e.object_name@;
    lemma_mode_word(e.file_mode);
    lemma_encode_ascii(w);
    lemma_oid(e.object_name);
    assert forall|i: int| 0 <= i < m.len() implies s[i] != 0x20 by {
        assert(s[i] == m[i] && w[i] != ' ');
        vstd::utf8::char_u32_cast(w[i], w[i] as u32);
    }
    assert(s[m.len() as int] == 0x20);
    lemma_find_from_is(s, 0x20, 0, m.len() as int);
    let space = seq![' '];
    lemma_encode_ascii(space);
    crate::text::lemma_encode_concat(w, space);
    assert(upto_with(s, 0x20) =~= m + seq![0x20u8]);
    assert(encode_utf8(space) =~= seq![0x20u8]);
    lemma_text_round_trip(w + space);
    lemma_trim_padded(Seq::empty(), w, space);
    assert(Seq::<char>::empty() + w + space =~= w + space);
    let tail = after(s, 0x20);
    assert(tail =~= name + seq![0u8] + o + rest);
    assert forall|i: int| 0 <= i < name.len() implies tail[i] != 0 by {
        assert(tail[i] == name[i]);
    }
    assert(tail[name.len() as int] == 0);
    lemma_find_from_is(tail, 0, 0, name.len() as int);
    assert(popped(upto_with(tail, 0)) =~= name);
    let t = after(tail, 0);
    assert(t =~= o + rest);
    assert(t.subrange(0, o.len() as int) =~= o);
    assert(t.subrange(o.len() as int, t.len() as int) =~= rest);
}

/// Whether the entries are such as a tree can hold: names in order, without NUL, and ids of the
/// given kind.
pub open spec fn writable_entries(entries: Seq<(Seq<u8>, TreeEntry)>, is_sha1: bool) -> bool {
    &&& ascending(entries)
    &&& forall|i: int, j: int|
        0 <= i < entries.len() && 0 <= j < entries[i].0.len() ==> #[trigger] entries[i].0[j] != 0
    &&& forall|i: int|
        0 <= i < entries.len() ==> ((#[trigger] entries[i]).1.object_name is SHA1 <==> is_sha1)
}

proof fn lemma_tree_suffix(entries: Seq<(Seq<u8>, TreeEntry)>, is_sha1: bool, rest: Seq<u8>)
    requires
        forall|i: int, j: int|
            0 <= i < entries.len() && 0 <= j < entries[i].0.len() ==> #[trigger] entries[i].0[j]
                != 0,
        forall|i: int|
            0 <= i < entries.len() ==> ((#[trigger] entries[i]).1.object_name is SHA1 <==> is_sha1),
    ensures
        tree_entries(tree_payload(entries) + rest, is_sha1, Seq::empty()) == tree_entries(
            rest,
            is_sha1,
            all_bound(entries),
        ),
    decreases entries.len(),
{
    if entries.len() == 0 {
        assert(entries =~= Seq::empty());
        assert(tree_payload(entries) + rest =~= rest);
    } else {
        let head = entries.drop_last();
        let (name, e) = entries.last();
        let one = entry_binary(name, e);
        assert(tree_payload(entries) + rest =~= tree_payload(head) + (one + rest));
        assert forall|i: int, j: int|
            0 <= i < head.len() && 0 <= j < head[i].0.len() implies #[trigger] head[i].0[j] != 0 by {
            assert(entries[i].0[j] != 0);
        }
        lemma_tree_suffix(head, is_sha1, one + rest);
        assert forall|j: int| 0 <= j < name.len() implies name[j] != 0 by {
            assert(entries[entries.len() - 1].0[j] != 0);
        }
        assert((entries[entries.len() - 1]).1.object_name is SHA1 <==> is_sha1);
        lemma_entry_round_trip(name, e, rest, is_sha1);
        assert((one + rest).len() > rest.len());
    }
}

/// The order of a tree keeps every entry and sorts them by their keys, each behind all that have a
/// lesser one.
pub proof fn law_git_order(entries: Seq<(Seq<u8>, TreeEntry)>)
    requires
        ascending(entries),
        forall|i: int, j: int|
            0 <= i < entries.len() && 0 <= j < entries[i].0.len() ==> #[trigger] entries[i].0[j]
                != 0x2f,
    ensures
        git_order(entries).to_multiset() == entries.to_multiset(),
        forall|i: int, j: int|
            0 <= i < j < entries.len() ==> lex_lt(
                git_key((#[trigger] git_order(entries)[i]).0, git_order(entries)[i].1),
                git_key((#[trigger] git_order(entries)[j]).0, git_order(entries)[j].1),
            ),
{
    broadcast use vstd::seq_lib::group_to_multiset_ensures;

    let r = git_order(entries);
    law_in_order::<NamedEntry>(entries);
    assert(entries.no_duplicates()) by {
        assert forall|i: int, j: int| 0 <= i < j < entries.len() implies entries[i] != entries[j] by {
            assert(lex_lt(entries[i].0, entries[j].0));
            lemma_lex_irreflexive(entries[i].0);
        }
    }
    entries.lemma_multiset_has_no_duplicates();
    r.lemma_multiset_has_no_duplicates_conv();
    assert forall|i: int, j: int| 0 <= i < j < entries.len() implies lex_lt(
        git_key((#[trigger] r[i]).0, r[i].1),
        git_key((#[trigger] r[j]).0, r[j].1),
    ) by {
        let x = git_key(r[i].0, r[i].1);
        let y = git_key(r[j].0, r[j].1);
        assert(!NamedEntry::precedes(r[j], r[i]));
        lemma_lex_total(x, y);
        if x == y {
            assert(r.contains(r[i]) && r.contains(r[j]));
            assert(entries.to_multiset().count(r[i]) > 0 && entries.to_multiset().count(r[j]) > 0);
            let a = choose|a: int| 0 <= a < entries.len() && entries[a] == r[i];
            let b = choose|b: int| 0 <= b < entries.len() && entries[b] == r[j];
            assert(entries[a].0 == entries[b].0) by {
                if r[i].1.file_mode == FileMode::Directory {
                    if r[j].1.file_mode == FileMode::Directory {
                        assert(r[i].0 =~= x.drop_last());
                        assert(r[j].0 =~= y.drop_last());
                    } else {
                        assert(entries[b].0[x.len() - 1] == 0x2f);
                    }
                } else if r[j].1.file_mode == FileMode::Directory {
                    assert(entries[a].0[x.len() - 1] == 0x2f);
                }
            }
            lemma_lookup_at(entries, a);
            lemma_lookup_at(entries, b);
        }
    }
}

/// A tree that is written and read again has the same entries.
pub proof fn law_tree_round_trip(entries: Seq<(Seq<u8>, TreeEntry)>, is_sha1: bool)
    requires
        writable_entries(entries, is_sha1),
    ensures
        tree_entries(tree_payload(git_order(entries)), is_sha1, Seq::empty()) == Ok::<
            Seq<(Seq<u8>, TreeEntry)>,
            ObjectError,
        >(entries),
        payload_of_kind(framed("tree"@, tree_payload(git_order(entries))), "tree"@) == Ok::<
            Seq<u8>,
            ObjectError,
        >(tree_payload(git_order(entries))),
{
    broadcast use vstd::seq_lib::group_to_multiset_ensures;

    let es = git_order(entries);
    law_in_order::<NamedEntry>(entries);
    assert forall|i: int| 0 <= i < es.len() implies entries.contains(#[trigger] es[i]) by {
        assert(es.contains(es[i]));
        assert(entries.to_multiset().count(es[i]) > 0);
    }
    assert forall|i: int, j: int|
        0 <= i < es.len() && 0 <= j < es[i].0.len() implies #[trigger] es[i].0[j] != 0 by {
        assert(entries.contains(es[i]));
        let k = choose|k: int| 0 <= k < entries.len() && entries[k] == es[i];
        assert(entries[k].0[j] != 0);
    }
    assert forall|i: int| 0 <= i < es.len() implies ((#[trigger] es[i]).1.object_name is SHA1
        <==> is_sha1) by {
        assert(entries.contains(es[i]));
        let k = choose|k: int| 0 <= k < entries.len() && entries[k] == es[i];
        assert(entries[k].1.object_name is SHA1 <==> is_sha1);
    }
    lemma_tree_suffix(es, is_sha1, Seq::empty());
    lemma_all_bound_is(es, entries);
    assert(tree_payload(es) + Seq::empty() =~= tree_payload(es));
    reveal_strlit("tree");
    lemma_frame_round_trip("tree"@, tree_payload(es));
}

} // verus!
