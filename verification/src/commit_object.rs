//! Commits: identities, headers, and the text form of a commit.
use crate::bytes::{
    append_bytes, copy_bytes, find_byte, find_from, lemma_find_from_is, lemma_rfind_before_is,
    rfind_before, starts_with,
};
use crate::numbers::{
    dec_int, hex_bytes, hex_of, lemma_hex_round_trip, lemma_signed_round_trip, parse_signed64,
    push_dec_int, read_signed64, unhex,
};
use crate::object::{
    frame, framed, hash_raw, lemma_oid, oid_of, oid_of_raw, payload_of, payload_of_kind,
    write_hash_object, ObjectError, ObjectSha,
};
use crate::object_db::ObjectDb;
use crate::outside::{zlib_deflated, zlib_inflated};
use crate::text::{
    chars_of, chars_start_with, is_space, lemma_encode_free, lemma_text_round_trip,
    lemma_trim_padded, lemma_trim_solid, lemma_views_push, lemma_word_len_is, rfind_char, string_of,
    text_of, text_of_slice, trim, trim_end, trim_start, trimmed, trimmed_end, views, words,
    words_of,
};
use vstd::prelude::*;
use vstd::slice::slice_subrange;
use vstd::utf8::encode_utf8;

verus! {

/// Who made a change, and when.
#[derive(PartialEq, Eq, Debug)]
pub struct CommitIdentity {
    pub name: String,
    pub email: String,
    pub unix_time: i64,
    pub tz: String,
}

/// The model of a [`CommitIdentity`].
#[verifier::ext_equal]
pub struct IdentityModel {
    pub name: Seq<char>,
    pub email: Seq<char>,
    pub unix_time: int,
    pub tz: Seq<char>,
}

impl View for CommitIdentity {
    type V = IdentityModel;

    open spec fn view(&self) -> IdentityModel {
        IdentityModel {
            name: self.name@,
            email: self.email@,
            unix_time: self.unix_time as int,
            tz: self.tz@,
        }
    }
}

impl CommitIdentity {
    /// A copy of the identity.
    pub fn copy(&self) -> (r: CommitIdentity)
        ensures
            r@ == self@,
    {
        CommitIdentity {
            name: self.name.clone(),
            email: self.email.clone(),
            unix_time: self.unix_time,
            tz: self.tz.clone(),
        }
    }
}

/// A commit: a tree, parents, who made it, further headers and the message.
#[derive(PartialEq, Eq, Debug)]
pub struct CommitObject {
    /// The id under which the commit was read; all zeros for one that was not read.
    pub object_name: ObjectSha,
    pub tree: ObjectSha,
    pub parents: Vec<ObjectSha>,
    pub author: CommitIdentity,
    pub committer: CommitIdentity,
    /// The header lines after author and committer, without their line feeds.
    pub trailing_headers: Vec<String>,
    pub message: Vec<u8>,
}

/// The model of a [`CommitObject`], but for the id under which it is known.
#[verifier::ext_equal]
pub struct CommitModel {
    pub tree: ObjectSha,
    pub parents: Seq<ObjectSha>,
    pub author: IdentityModel,
    pub committer: IdentityModel,
    pub trailing_headers: Seq<Seq<char>>,
    pub message: Seq<u8>,
}

impl View for CommitObject {
    type V = CommitModel;

    open spec fn view(&self) -> CommitModel {
        CommitModel {
            tree: self.tree,
            parents: self.parents@,
            author: self.author@,
            committer: self.committer@,
            trailing_headers: views(self.trailing_headers@),
            message: self.message@,
        }
    }
}

/// One header line of a commit.
#[verifier::ext_equal]
pub enum HeaderModel {
    Tree(ObjectSha),
    Parent(ObjectSha),
    Author(IdentityModel),
    Committer(IdentityModel),
    Other(Seq<char>),
}

enum ParsedHeader {
    Tree(ObjectSha),
    Parent(ObjectSha),
    Author(CommitIdentity),
    Committer(CommitIdentity),
    Other(String),
}

impl View for ParsedHeader {
    type V = HeaderModel;

    closed spec fn view(&self) -> HeaderModel {
        match self {
            ParsedHeader::Tree(o) => HeaderModel::Tree(*o),
            ParsedHeader::Parent(o) => HeaderModel::Parent(*o),
            ParsedHeader::Author(a) => HeaderModel::Author(a@),
            ParsedHeader::Committer(c) => HeaderModel::Committer(c@),
            ParsedHeader::Other(s) => HeaderModel::Other(s@),
        }
    }
}

/// What follows the prefix `p` in `s`.
pub open spec fn past(s: Seq<char>, p: Seq<char>) -> Seq<char> {
    s.subrange(p.len() as int, s.len() as int)
}

/// The id that a word of the right length writes in hexadecimal.
pub open spec fn id_in_hex(word: Seq<char>, is_sha1: bool) -> Result<ObjectSha, ObjectError> {
    if encode_utf8(word).len() != (if is_sha1 {
        40int
    } else {
        64int
    }) {
        Err(ObjectError::BadIdLength)
    } else {
        match unhex(word) {
            Some(b) => Ok(oid_of(b)),
            None => Err(ObjectError::BadIdHex),
        }
    }
}

/// The identity that a line gives: name, mail address in angle brackets, time and time zone.
pub open spec fn identity_in(s: Seq<char>) -> Result<IdentityModel, ObjectError> {
    let gt = rfind_before(s, '>', s.len() as int);
    if gt < 0 {
        Err(ObjectError::IdentityNoGt)
    } else {
        let fields = words(s.subrange(gt + 1, s.len() as int));
        let who = trim_end(s.subrange(0, gt));
        let lt = rfind_before(who, '<', who.len() as int);
        if fields.len() == 0 {
            Err(ObjectError::IdentityNoTime)
        } else if parse_signed64(fields[0]) is None {
            Err(ObjectError::IdentityBadTime)
        } else if fields.len() == 1 {
            Err(ObjectError::IdentityNoZone)
        } else if fields.len() > 2 {
            Err(ObjectError::IdentityExtra)
        } else if lt < 0 {
            Err(ObjectError::IdentityNoLt)
        } else {
            Ok(
                IdentityModel {
                    name: trim(who.subrange(0, lt)),
                    email: trim(who.subrange(lt + 1, who.len() as int)),
                    unix_time: parse_signed64(fields[0])->0,
                    tz: fields[1],
                },
            )
        }
    }
}

/// What a header line says.
pub open spec fn header_in(line: Seq<char>, is_sha1: bool) -> Result<HeaderModel, ObjectError> {
    if starts_with(line, "tree "@) {
        match id_in_hex(trim(past(line, "tree "@)), is_sha1) {
            Ok(o) => Ok(HeaderModel::Tree(o)),
            Err(e) => Err(e),
        }
    } else if starts_with(line, "parent "@) {
        match id_in_hex(trim(past(line, "parent "@)), is_sha1) {
            Ok(o) => Ok(HeaderModel::Parent(o)),
            Err(e) => Err(e),
        }
    } else if starts_with(line, "author "@) {
        match identity_in(past(line, "author "@)) {
            Ok(a) => Ok(HeaderModel::Author(a)),
            Err(e) => Err(e),
        }
    } else if starts_with(line, "committer "@) {
        match identity_in(past(line, "committer "@)) {
            Ok(c) => Ok(HeaderModel::Committer(c)),
            Err(e) => Err(e),
        }
    } else {
        Ok(HeaderModel::Other(line))
    }
}

/// The header lines up to the first empty one, and the bytes that follow that.
pub open spec fn headers_in(s: Seq<u8>, is_sha1: bool) -> Result<
    (Seq<HeaderModel>, Seq<u8>),
    ObjectError,
>
    decreases s.len(),
{
    let i = find_from(s, 0x0a, 0);
    if s.len() == 0 {
        Err(ObjectError::HeaderEof)
    } else if i < 0 || i >= s.len() {
        Err(ObjectError::HeaderNoNewline)
    } else {
        let rest = s.subrange(i + 1, s.len() as int);
        if i == 0 {
            Ok((Seq::empty(), rest))
        } else {
            match text_of(s.subrange(0, i)) {
                None => Err(ObjectError::NotUtf8),
                Some(line) => match header_in(line, is_sha1) {
                    Err(e) => Err(e),
                    Ok(h) => match headers_in(rest, is_sha1) {
                        Err(e) => Err(e),
                        Ok((hs, message)) => Ok((seq![h] + hs, message)),
                    },
                },
            }
        }
    }
}

/// What the header lines of a commit have given so far.
#[verifier::ext_equal]
pub struct HeaderFields {
    pub tree: Option<ObjectSha>,
    pub parents: Seq<ObjectSha>,
    pub author: Option<IdentityModel>,
    pub committer: Option<IdentityModel>,
    pub trailing_headers: Seq<Seq<char>>,
}

/// The fields before any line.
pub open spec fn no_fields() -> HeaderFields {
    HeaderFields {
        tree: None,
        parents: Seq::empty(),
        author: None,
        committer: None,
        trailing_headers: Seq::empty(),
    }
}

/// The fields after one more line; tree, author and committer may be given only once.
pub open spec fn with_header(f: HeaderFields, h: HeaderModel) -> Result<HeaderFields, ObjectError> {
    match h {
        HeaderModel::Tree(o) => if f.tree is Some {
            Err(ObjectError::DuplicateTree)
        } else {
            Ok(HeaderFields { tree: Some(o), ..f })
        },
        HeaderModel::Parent(o) => Ok(HeaderFields { parents: f.parents.push(o), ..f }),
        HeaderModel::Author(a) => if f.author is Some {
            Err(ObjectError::DuplicateAuthor)
        } else {
            Ok(HeaderFields { author: Some(a), ..f })
        },
        HeaderModel::Committer(c) => if f.committer is Some {
            Err(ObjectError::DuplicateCommitter)
        } else {
            Ok(HeaderFields { committer: Some(c), ..f })
        },
        HeaderModel::Other(s) => Ok(
            HeaderFields { trailing_headers: f.trailing_headers.push(s), ..f },
        ),
    }
}

/// The fields after all the lines.
pub open spec fn with_headers(f: HeaderFields, hs: Seq<HeaderModel>) -> Result<
    HeaderFields,
    ObjectError,
>
    decreases hs.len(),
{
    if hs.len() == 0 {
        Ok(f)
    } else {
        match with_header(f, hs[0]) {
            Err(e) => Err(e),
            Ok(g) => with_headers(g, hs.drop_first()),
        }
    }
}

/// The commit that a payload holds.
pub open spec fn commit_in(s: Seq<u8>, is_sha1: bool) -> Result<CommitModel, ObjectError> {
    match headers_in(s, is_sha1) {
        Err(e) => Err(e),
        Ok((hs, message)) => match with_headers(no_fields(), hs) {
            Err(e) => Err(e),
            Ok(f) => if f.tree is None {
                Err(ObjectError::MissingTree)
            } else if f.author is None {
                Err(ObjectError::MissingAuthor)
            } else if f.committer is None {
                Err(ObjectError::MissingCommitter)
            } else {
                Ok(
                    CommitModel {
                        tree: f.tree->0,
                        parents: f.parents,
                        author: f.author->0,
                        committer: f.committer->0,
                        trailing_headers: f.trailing_headers,
                        message,
                    },
                )
            },
        },
    }
}

/// The commit that the store holds under an id.
pub open spec fn commit_at(db: Map<ObjectSha, Seq<u8>>, oid: ObjectSha) -> Result<
    CommitModel,
    ObjectError,
> {
    if !db.contains_key(oid) {
        Err(ObjectError::Missing(oid))
    } else {
        match payload_of_kind(db[oid], "commit"@) {
            Err(e) => Err(e),
            Ok(p) => commit_in(p, oid is SHA1),
        }
    }
}

impl ParsedHeader {
    fn parse_oid_hex(word: &[char], is_sha1: bool) -> (r: Result<ObjectSha, ObjectError>)
        ensures
            r == id_in_hex(word@, is_sha1),
    {
        let expected: usize = if is_sha1 {
            40
        } else {
            64
        };
        let text = string_of(word);
        if text.as_str().as_bytes().len() != expected {
            return Err(ObjectError::BadIdLength);
        }
        match hex_bytes(word) {
            Some(b) => {
                proof {
                    lemma_hex_is_ascii(word@);
                }
                match ObjectSha::from_bytes(b.as_slice()) {
                    Some(o) => Ok(o),
                    None => Err(ObjectError::BadIdHex),
                }
            },
            None => Err(ObjectError::BadIdHex),
        }
    }

    fn parse_identity(s: &[char]) -> (r: Result<CommitIdentity, ObjectError>)
        ensures
            crate::text::res_view(r) == identity_in(s@),
    {
        let gt: usize = match rfind_char(s, '>') {
            Some(i) => i,
            None => return Err(ObjectError::IdentityNoGt),
        };
        let who = trimmed_end(slice_subrange(s, 0, gt));
        let fields = words_of(slice_subrange(s, gt + 1, s.len()));
        if fields.len() == 0 {
            return Err(ObjectError::IdentityNoTime);
        }
        assert(views(fields@)[0] == fields@[0]@);
        let unix_time: i64 = match read_signed64(fields[0].as_slice()) {
            Some(t) => t,
            None => return Err(ObjectError::IdentityBadTime),
        };
        if fields.len() == 1 {
            return Err(ObjectError::IdentityNoZone);
        }
        if fields.len() > 2 {
            return Err(ObjectError::IdentityExtra);
        }
        assert(views(fields@)[1] == fields@[1]@);
        let lt: usize = match rfind_char(who, '<') {
            Some(i) => i,
            None => return Err(ObjectError::IdentityNoLt),
        };
        Ok(
            CommitIdentity {
                name: string_of(trimmed(slice_subrange(who, 0, lt))),
                email: string_of(trimmed(slice_subrange(who, lt + 1, who.len()))),
                unix_time,
                tz: string_of(fields[1].as_slice()),
            },
        )
    }

    fn parse_header_line(line: &[char], is_sha1: bool) -> (r: Result<ParsedHeader, ObjectError>)
        ensures
            crate::text::res_view(r) == header_in(line@, is_sha1),
    {
        proof {
            reveal_strlit("tree ");
            reveal_strlit("parent ");
            reveal_strlit("author ");
            reveal_strlit("committer ");
        }
        if chars_start_with(line, "tree ") {
            match Self::parse_oid_hex(trimmed(slice_subrange(line, 5, line.len())), is_sha1) {
                Ok(o) => Ok(ParsedHeader::Tree(o)),
                Err(e) => Err(e),
            }
        } else if chars_start_with(line, "parent ") {
            match Self::parse_oid_hex(trimmed(slice_subrange(line, 7, line.len())), is_sha1) {
                Ok(o) => Ok(ParsedHeader::Parent(o)),
                Err(e) => Err(e),
            }
        } else if chars_start_with(line, "author ") {
            match Self::parse_identity(slice_subrange(line, 7, line.len())) {
                Ok(a) => Ok(ParsedHeader::Author(a)),
                Err(e) => Err(e),
            }
        } else if chars_start_with(line, "committer ") {
            match Self::parse_identity(slice_subrange(line, 10, line.len())) {
                Ok(c) => Ok(ParsedHeader::Committer(c)),
                Err(e) => Err(e),
            }
        } else {
            Ok(ParsedHeader::Other(string_of(line)))
        }
    }
}

/// Hexadecimal digits take one byte each.
proof fn lemma_hex_is_ascii(s: Seq<char>)
    requires
        unhex(s) is Some,
    ensures
        encode_utf8(s).len() == s.len(),
        unhex(s)->0.len() * 2 == s.len(),
{
    assert forall|i: int| 0 <= i < s.len() implies '\0' <= #[trigger] s[i] <= '\u{7f}' by {
        assert(crate::numbers::hex_value(s[i]) is Some);
    }
    crate::text::lemma_encode_ascii(s);
}

/// The name, the address, the time and the zone of an identity, as a header line gives them.
pub open spec fn identity_text(id: IdentityModel) -> Seq<char> {
    id.name + seq![' ', '<'] + id.email + seq!['>', ' '] + dec_int(id.unix_time) + seq![' '] + id.tz
}

/// A commit's header lines.
pub open spec fn header_lines(c: CommitModel) -> Seq<Seq<char>> {
    seq!["tree "@ + hex_of(c.tree@)] + c.parents.map_values(
        |p: ObjectSha| "parent "@ + hex_of(p@),
    ) + seq![
        "author "@ + identity_text(c.author),
        "committer "@ + identity_text(c.committer),
    ] + c.trailing_headers
}

/// The lines in UTF-8, each with a line feed.
pub open spec fn joined_lines(lines: Seq<Seq<char>>) -> Seq<u8>
    decreases lines.len(),
{
    if lines.len() == 0 {
        Seq::empty()
    } else {
        joined_lines(lines.drop_last()) + encode_utf8(lines.last()) + seq![0x0au8]
    }
}

/// A commit's payload: its header lines, an empty line, and the message.
pub open spec fn commit_payload(c: CommitModel) -> Seq<u8> {
    joined_lines(header_lines(c)) + seq![0x0au8] + c.message
}

/// Appends one header line.
fn push_line(out: &mut Vec<u8>, line: &str, Ghost(before): Ghost<Seq<Seq<char>>>)
    requires
        old(out)@ == joined_lines(before),
    ensures
        final(out)@ == joined_lines(before.push(line@)),
{
    append_bytes(out, line.as_bytes());
    out.push(0x0a);
    assert(before.push(line@).drop_last() =~= before);
    assert(out@ =~= joined_lines(before.push(line@)));
}

/// A header line with an object id.
fn id_line(prefix: &str, o: &ObjectSha) -> (r: String)
    ensures
        r@ == prefix@ + hex_of(o@),
{
    let mut r = String::from_str(prefix);
    r.append(o.to_string().as_str());
    r
}

/// A header line with an identity.
fn format_identity_line(prefix: &str, id: &CommitIdentity) -> (r: String)
    ensures
        r@ == prefix@ + identity_text(id@),
{
    let mut r = String::from_str(prefix);
    r.append(id.name.as_str());
    r.push(' ');
    r.push('<');
    r.append(id.email.as_str());
    r.push('>');
    r.push(' ');
    push_dec_int(&mut r, id.unix_time);
    r.push(' ');
    r.append(id.tz.as_str());
    assert(r@ =~= prefix@ + identity_text(id@));
    r
}

impl CommitObject {
    /// The id under which the commit was read.
    pub fn object_name(&self) -> (r: &ObjectSha)
        ensures
            *r == self.object_name,
    {
        &self.object_name
    }

    /// A commit that is yet to be written; its id is all zeros.
    pub fn new(
        tree: ObjectSha,
        parents: Vec<ObjectSha>,
        author: CommitIdentity,
        committer: CommitIdentity,
        trailing_headers: Vec<String>,
        message: Vec<u8>,
    ) -> (r: CommitObject)
        ensures
            r.object_name is SHA1,
            r.object_name@ == Seq::new(20, |i: int| 0u8),
            r@ == (CommitModel {
                tree,
                parents: parents@,
                author: author@,
                committer: committer@,
                trailing_headers: views(trailing_headers@),
                message: message@,
            }),
    {
        let zeros = [0u8;20];
        assert(zeros@ =~= Seq::new(20, |i: int| 0u8));
        CommitObject {
            object_name: ObjectSha::SHA1(zeros),
            tree,
            parents,
            author,
            committer,
            trailing_headers,
            message,
        }
    }

    /// Reads a commit's payload.
    pub fn read_commit(object_name: ObjectSha, payload: &[u8], is_sha1: bool) -> (r: Result<
        CommitObject,
        ObjectError,
    >)
        ensures
            crate::text::res_view(r) == commit_in(payload@, is_sha1),
            r matches Ok(c) ==> c.object_name == object_name,
    {
        let mut headers: Vec<ParsedHeader> = Vec::new();
        let mut start: usize = 0;
        assert(payload@.subrange(0, payload@.len() as int) =~= payload@);
        let ghost all = headers_in(payload@, is_sha1);
        assert(all == lines_then(views(headers@), headers_in(payload@, is_sha1))) by {
            if let Ok((hs, m)) = all {
                assert(views(headers@) + hs =~= hs);
            }
        }
        loop
            invariant_except_break
                all == lines_then(
                    views(headers@),
                    headers_in(payload@.subrange(start as int, payload@.len() as int), is_sha1),
                ),
            invariant
                0 <= start <= payload@.len(),
                all == headers_in(payload@, is_sha1),
            ensures
                0 <= start <= payload@.len(),
                all == Ok::<(Seq<HeaderModel>, Seq<u8>), ObjectError>(
                    (views(headers@), payload@.subrange(start as int, payload@.len() as int)),
                ),
            decreases payload@.len() - start,
        {
            let rest = slice_subrange(payload, start, payload.len());
            if rest.len() == 0 {
                return Err(ObjectError::HeaderEof);
            }
            let i: usize = find_byte(rest, 0x0a, 0);
            if i == rest.len() {
                return Err(ObjectError::HeaderNoNewline);
            }
            let ghost tail = rest@.subrange(i + 1, rest@.len() as int);
            assert(tail =~= payload@.subrange(start + i + 1, payload@.len() as int));
            start = start + i + 1;
            if i == 0 {
                assert(views(headers@) + Seq::empty() =~= views(headers@));
                break;
            }
            let line = match text_of_slice(slice_subrange(rest, 0, i)) {
                Some(l) => chars_of(l.as_str()),
                None => return Err(ObjectError::NotUtf8),
            };
            match ParsedHeader::parse_header_line(line.as_slice(), is_sha1) {
                Ok(h) => {
                    let ghost before = headers@;
                    headers.push(h);
                    proof {
                        lemma_views_push(before, h);
                        if let Ok((hs, m)) = headers_in(tail, is_sha1) {
                            assert(views(before) + (seq![h@] + hs) =~= views(headers@) + hs);
                        }
                    }
                },
                Err(e) => return Err(e),
            }
        }
        let message = copy_bytes(slice_subrange(payload, start, payload.len()));

        let mut tree: Option<ObjectSha> = None;
        let mut parents: Vec<ObjectSha> = Vec::new();
        let mut author: Option<CommitIdentity> = None;
        let mut committer: Option<CommitIdentity> = None;
        let mut trailing_headers: Vec<String> = Vec::new();
        let ghost hs = views(headers@);
        let ghost result = with_headers(no_fields(), hs);
        let mut k: usize = 0;
        assert(hs.subrange(0, hs.len() as int) =~= hs);
        assert(parents@ =~= Seq::empty());
        assert(views(trailing_headers@) =~= Seq::empty());
        while k < headers.len()
            invariant
                0 <= k <= headers@.len(),
                hs == views(headers@),
                result == with_headers(
                    HeaderFields {
                        tree,
                        parents: parents@,
                        author: crate::text::opt_view(author),
                        committer: crate::text::opt_view(committer),
                        trailing_headers: views(trailing_headers@),
                    },
                    hs.subrange(k as int, hs.len() as int),
                ),
                all == Ok::<(Seq<HeaderModel>, Seq<u8>), ObjectError>((hs, message@)),
                all == headers_in(payload@, is_sha1),
                result == with_headers(no_fields(), hs),
            decreases headers@.len() - k,
        {
            proof {
                assert(hs.subrange(k as int, hs.len() as int)[0] == headers@[k as int]@);
                assert(hs.subrange(k as int, hs.len() as int).drop_first() =~= hs.subrange(
                    k + 1,
                    hs.len() as int,
                ));
            }
            match &headers[k] {
                ParsedHeader::Tree(o) => {
                    if tree.is_some() {
                        return Err(ObjectError::DuplicateTree);
                    }
                    tree = Some(*o);
                },
                ParsedHeader::Parent(o) => {
                    parents.push(*o);
                },
                ParsedHeader::Author(a) => {
                    if author.is_some() {
                        return Err(ObjectError::DuplicateAuthor);
                    }
                    author = Some(a.copy());
                },
                ParsedHeader::Committer(c) => {
                    if committer.is_some() {
                        return Err(ObjectError::DuplicateCommitter);
                    }
                    committer = Some(c.copy());
                },
                ParsedHeader::Other(s) => {
                    let ghost before = trailing_headers@;
                    trailing_headers.push(s.clone());
                    proof {
                        lemma_views_push(before, trailing_headers@.last());
                    }
                },
            }
            k += 1;
        }
        assert(hs.subrange(k as int, hs.len() as int) =~= Seq::empty());
        let tree = match tree {
            Some(t) => t,
            None => return Err(ObjectError::MissingTree),
        };
        let author = match author {
            Some(a) => a,
            None => return Err(ObjectError::MissingAuthor),
        };
        let committer = match committer {
            Some(c) => c,
            None => return Err(ObjectError::MissingCommitter),
        };
        Ok(
            CommitObject {
                object_name,
                tree,
                parents,
                author,
                committer,
                trailing_headers,
                message,
            },
        )
    }

    /// The loose form of the commit, with its kind and size in front.
    pub fn to_binary(&self) -> (r: Vec<u8>)
        ensures
            r@ == framed("commit"@, commit_payload(self@)),
    {
        let mut body: Vec<u8> = Vec::new();
        let ghost lines = header_lines(self@);
        let ghost mut done: Seq<Seq<char>> = Seq::empty();
        push_line(&mut body, id_line("tree ", &self.tree).as_str(), Ghost(done));
        proof {
            done = done.push("tree "@ + hex_of(self.tree@));
            assert(done =~= lines.subrange(0, 1));
        }
        let mut i: usize = 0;
        while i < self.parents.len()
            invariant
                0 <= i <= self.parents@.len(),
                lines == header_lines(self@),
                done == lines.subrange(0, 1 + i),
                body@ == joined_lines(done),
            decreases self.parents@.len() - i,
        {
            push_line(&mut body, id_line("parent ", &self.parents[i]).as_str(), Ghost(done));
            proof {
                done = done.push("parent "@ + hex_of(self.parents@[i as int]@));
                assert(done =~= lines.subrange(0, 2 + i));
            }
            i += 1;
        }
        push_line(&mut body, format_identity_line("author ", &self.author).as_str(), Ghost(done));
        proof {
            done = done.push("author "@ + identity_text(self.author@));
        }
        push_line(
            &mut body,
            format_identity_line("committer ", &self.committer).as_str(),
            Ghost(done),
        );
        proof {
            done = done.push("committer "@ + identity_text(self.committer@));
            assert(done =~= lines.subrange(0, 3int + self.parents@.len()));
        }
        let mut j: usize = 0;
        while j < self.trailing_headers.len()
            invariant
                0 <= j <= self.trailing_headers@.len(),
                lines == header_lines(self@),
                done == lines.subrange(0, 3int + self.parents@.len() + j),
                body@ == joined_lines(done),
            decreases self.trailing_headers@.len() - j,
        {
            push_line(&mut body, self.trailing_headers[j].as_str(), Ghost(done));
            proof {
                done = done.push(self.trailing_headers@[j as int]@);
                assert(done =~= lines.subrange(0, 4int + self.parents@.len() + j));
            }
            j += 1;
        }
        assert(done =~= lines);
        body.push(0x0a);
        append_bytes(&mut body, self.message.as_slice());
        assert(body@ =~= commit_payload(self@));
        frame("commit", body.as_slice())
    }

    /// Reads a commit from the store.
    pub fn read_loose_commit(db: &ObjectDb, oid: &ObjectSha) -> (r: Result<
        CommitObject,
        ObjectError,
    >)
        ensures
            crate::text::res_view(r) == commit_at(db@, *oid),
            r matches Ok(c) ==> c.object_name == *oid,
    {
        let raw = match db.get(oid) {
            Some(raw) => raw,
            None => return Err(ObjectError::Missing(*oid)),
        };
        let payload = match payload_of(raw.as_slice(), "commit") {
            Ok(p) => p,
            Err(e) => return Err(e),
        };
        let is_sha1 = match oid {
            ObjectSha::SHA1(_) => true,
            ObjectSha::SHA256(_) => false,
        };
        CommitObject::read_commit(*oid, payload, is_sha1)
    }
}

/// The result of reading headers, with more lines put in front.
spec fn lines_then(
    front: Seq<HeaderModel>,
    r: Result<(Seq<HeaderModel>, Seq<u8>), ObjectError>,
) -> Result<(Seq<HeaderModel>, Seq<u8>), ObjectError> {
    match r {
        Ok((hs, m)) => Ok((front + hs, m)),
        Err(e) => Err(e),
    }
}

/// The id of a commit and the file that stores it.
pub fn commit_tree(commit: &CommitObject) -> (r: (ObjectSha, Vec<u8>))
    ensures
        r.0 == oid_of_raw(framed("commit"@, commit_payload(commit@))),
        r.1@ == zlib_deflated(framed("commit"@, commit_payload(commit@))),
        zlib_inflated(r.1@) == Some((framed("commit"@, commit_payload(commit@)), r.1@.len())),
{
    let raw = commit.to_binary();
    (hash_raw(raw.as_slice()), write_hash_object(raw.as_slice()))
}

/// Whether an identity is such as a header line can carry without loss: no line feed in it, no
/// white space at either end of the name and of the address, no `<` in the address, and a time
/// zone of one word without `>`.
pub open spec fn carries(id: IdentityModel) -> bool {
    &&& i64::MIN <= id.unix_time <= i64::MAX
    &&& trim(id.name) == id.name
    &&& trim(id.email) == id.email
    &&& !id.name.contains('\n')
    &&& !id.email.contains('\n')
    &&& !id.email.contains('<')
    &&& id.tz.len() > 0
    &&& !id.tz.contains('>')
    &&& forall|i: int| 0 <= i < id.tz.len() ==> !is_space(#[trigger] id.tz[i])
}

/// Whether a line is such as a further header can be: not empty, without line feed, and not taken
/// for one of the headers that a commit always has.
pub open spec fn further_header(line: Seq<char>) -> bool {
    &&& line.len() > 0
    &&& !line.contains('\n')
    &&& !starts_with(line, "tree "@)
    &&& !starts_with(line, "parent "@)
    &&& !starts_with(line, "author "@)
    &&& !starts_with(line, "committer "@)
}

/// Whether a commit is such as its text form can carry without loss.
pub open spec fn writable_commit(c: CommitModel, is_sha1: bool) -> bool {
    &&& c.tree is SHA1 <==> is_sha1
    &&& forall|i: int| 0 <= i < c.parents.len() ==> ((#[trigger] c.parents[i]) is SHA1 <==> is_sha1)
    &&& carries(c.author)
    &&& carries(c.committer)
    &&& forall|i: int|
        0 <= i < c.trailing_headers.len() ==> further_header(#[trigger] c.trailing_headers[i])
}

/// The digits of a number hold no white space, no line feed and no `>`.
proof fn lemma_dec_int_solid(i: int)
    ensures
        dec_int(i).len() > 0,
        forall|k: int|
            0 <= k < dec_int(i).len() ==> !is_space(#[trigger] dec_int(i)[k]) && dec_int(i)[k]
                != '>' && dec_int(i)[k] != '\n',
{
    let n = (if i < 0 {
        -i
    } else {
        i
    }) as nat;
    let d = crate::numbers::dec(n);
    crate::numbers::lemma_dec_round_trip(n);
    assert forall|k: int| 0 <= k < dec_int(i).len() implies !is_space(#[trigger] dec_int(i)[k])
        && dec_int(i)[k] != '>' && dec_int(i)[k] != '\n' by {
        if i < 0 {
            if k > 0 {
                assert(dec_int(i)[k] == d[k - 1]);
                assert(crate::numbers::is_digit(d[k - 1]));
            }
        } else {
            assert(crate::numbers::is_digit(d[k]));
        }
    }
}

/// An identity is read back from the text that it was written as.
proof fn lemma_identity_round_trip(id: IdentityModel)
    requires
        carries(id),
    ensures
        identity_in(identity_text(id)) == Ok::<IdentityModel, ObjectError>(id),
{
    let s = identity_text(id);
    let t = dec_int(id.unix_time);
    let gt = id.name.len() as int + 2 + id.email.len();
    lemma_dec_int_solid(id.unix_time);
    assert(s[gt] == '>');
    let tail = s.subrange(gt + 1, s.len() as int);
    assert(tail =~= seq![' '] + t + seq![' '] + id.tz);
    assert forall|i: int| gt < i < s.len() implies s[i] != '>' by {
        let j = i - gt - 1;
        assert(s[i] == tail[j]);
        if 1 <= j < 1 + t.len() {
            assert(tail[j] == t[j - 1]);
        } else if j > 1 + t.len() {
            assert(tail[j] == id.tz[j - 2 - t.len()]);
        }
    }
    lemma_rfind_before_is(s, '>', s.len() as int, gt);
    // the two fields
    let u = t + seq![' '] + id.tz;
    assert(tail.drop_first() =~= u);
    assert(u[0] == t[0] && !is_space(t[0]));
    assert(trim_start(tail) == trim_start(u));
    assert(trim_start(u) == u);
    assert forall|i: int| 0 <= i < t.len() implies !is_space(#[trigger] u[i]) by {
        assert(u[i] == t[i]);
    }
    assert(u[t.len() as int] == ' ');
    lemma_word_len_is(u, t.len() as int);
    assert(u.subrange(0, t.len() as int) =~= t);
    let v = u.subrange(t.len() as int, u.len() as int);
    assert(v =~= seq![' '] + id.tz);
    assert(v.drop_first() =~= id.tz);
    assert(trim_start(v) == trim_start(id.tz));
    assert(!is_space(id.tz[0]));
    assert(trim_start(id.tz) == id.tz);
    lemma_word_len_is(id.tz, id.tz.len() as int);
    assert(id.tz.subrange(0, id.tz.len() as int) =~= id.tz);
    let e = id.tz.subrange(id.tz.len() as int, id.tz.len() as int);
    assert(e =~= Seq::empty());
    assert(trim_start(e) == e);
    assert(words(e) =~= Seq::<Seq<char>>::empty());
    assert(words(v) =~= seq![id.tz]);
    assert(words(tail) =~= seq![t, id.tz]);
    lemma_signed_round_trip(id.unix_time);
    // name and address
    let a = id.name + seq![' ', '<'];
    let who0 = s.subrange(0, gt);
    assert(who0 =~= a + id.email);
    assert(trim_end(who0) == who0) by {
        if id.email.len() > 0 {
            crate::text::lemma_trim_end_shorter(trim_start(id.email));
            assert(who0.last() == id.email.last());
        } else {
            assert(who0.last() == '<');
        }
    }
    let lt = id.name.len() as int + 1;
    assert(who0[lt] == '<');
    assert forall|i: int| lt < i < who0.len() implies who0[i] != '<' by {
        assert(who0[i] == id.email[i - lt - 1]);
    }
    lemma_rfind_before_is(who0, '<', who0.len() as int, lt);
    assert(who0.subrange(0, lt) =~= Seq::<char>::empty() + id.name + seq![' ']);
    lemma_trim_padded(Seq::empty(), id.name, seq![' ']);
    assert(who0.subrange(lt + 1, who0.len() as int) =~= id.email);
}

/// The hexadecimal form of an id is read back from a header line.
proof fn lemma_id_round_trip(o: ObjectSha, is_sha1: bool)
    requires
        o is SHA1 <==> is_sha1,
    ensures
        id_in_hex(trim(hex_of(o@)), is_sha1) == Ok::<ObjectSha, ObjectError>(o),
        !hex_of(o@).contains('\n'),
{
    let h = hex_of(o@);
    lemma_oid(o);
    lemma_hex_round_trip(o@);
    lemma_hex_is_ascii(h);
    assert forall|i: int| 0 <= i < h.len() implies !is_space(#[trigger] h[i]) && h[i] != '\n' by {
        assert(crate::numbers::hex_value(h[i]) is Some);
    }
    lemma_trim_solid(h);
}

/// What each header line of a commit says.
spec fn header_models(c: CommitModel) -> Seq<HeaderModel> {
    seq![HeaderModel::Tree(c.tree)] + c.parents.map_values(|p: ObjectSha| HeaderModel::Parent(p))
        + seq![HeaderModel::Author(c.author), HeaderModel::Committer(c.committer)]
        + c.trailing_headers.map_values(|s: Seq<char>| HeaderModel::Other(s))
}

#[verifier::spinoff_prover]
#[verifier::rlimit(50)]
proof fn lemma_header_lines(c: CommitModel, is_sha1: bool, i: int)
    requires
        writable_commit(c, is_sha1),
        0 <= i < header_lines(c).len(),
    ensures
        header_lines(c).len() == header_models(c).len(),
        header_in(header_lines(c)[i], is_sha1) == Ok::<HeaderModel, ObjectError>(
            header_models(c)[i],
        ),
        header_lines(c)[i].len() > 0,
        !header_lines(c)[i].contains('\n'),
{
    reveal_strlit("tree ");
    reveal_strlit("parent ");
    reveal_strlit("author ");
    reveal_strlit("committer ");
    let line = header_lines(c)[i];
    let n = c.parents.len();
    if i == 0 {
        lemma_id_round_trip(c.tree, is_sha1);
        assert(line =~= "tree "@ + hex_of(c.tree@));
        assert(line.subrange(0, 5) =~= "tree "@);
        assert(past(line, "tree "@) =~= hex_of(c.tree@));
        lemma_no_newline("tree "@, hex_of(c.tree@));
    } else if i <= n {
        let p = c.parents[i - 1];
        lemma_id_round_trip(p, is_sha1);
        assert(line =~= "parent "@ + hex_of(p@));
        assert(line.subrange(0, 7) =~= "parent "@);
        assert(past(line, "parent "@) =~= hex_of(p@));
        assert(!starts_with(line, "tree "@)) by {
            assert(line.subrange(0, 5)[0] == 'p');
        }
        lemma_no_newline("parent "@, hex_of(p@));
    } else if i == n + 1 {
        lemma_identity_round_trip(c.author);
        assert(line =~= "author "@ + identity_text(c.author));
        assert(line.subrange(0, 7) =~= "author "@);
        assert(past(line, "author "@) =~= identity_text(c.author));
        assert(!starts_with(line, "tree "@)) by {
            assert(line.subrange(0, 5)[0] == 'a');
        }
        assert(!starts_with(line, "parent "@)) by {
            assert(line.subrange(0, 7)[0] == 'a');
        }
        lemma_identity_no_newline(c.author);
        lemma_no_newline("author "@, identity_text(c.author));
    } else if i == n + 2 {
        lemma_identity_round_trip(c.committer);
        assert(line =~= "committer "@ + identity_text(c.committer));
        assert(line.subrange(0, 10) =~= "committer "@);
        assert(past(line, "committer "@) =~= identity_text(c.committer));
        assert(!starts_with(line, "tree "@)) by {
            assert(line.subrange(0, 5)[0] == 'c');
        }
        assert(!starts_with(line, "parent "@)) by {
            assert(line.subrange(0, 7)[0] == 'c');
        }
        assert(!starts_with(line, "author "@)) by {
            assert(line.subrange(0, 7)[0] == 'c');
        }
        lemma_identity_no_newline(c.committer);
        lemma_no_newline("committer "@, identity_text(c.committer));
    } else {
        assert(line == c.trailing_headers[i - n - 3]);
        assert(further_header(line));
    }
}

proof fn lemma_no_newline(a: Seq<char>, b: Seq<char>)
    requires
        !a.contains('\n'),
        !b.contains('\n'),
    ensures
        !(a + b).contains('\n'),
{
    if (a + b).contains('\n') {
        let i = choose|i: int| 0 <= i < (a + b).len() && (a + b)[i] == '\n';
        if i < a.len() {
            assert(a[i] == '\n');
        } else {
            assert(b[i - a.len()] == '\n');
        }
    }
}

proof fn lemma_identity_no_newline(id: IdentityModel)
    requires
        carries(id),
    ensures
        !identity_text(id).contains('\n'),
{
    lemma_dec_int_solid(id.unix_time);
    assert(!id.tz.contains('\n')) by {
        if id.tz.contains('\n') {
            let i = choose|i: int| 0 <= i < id.tz.len() && id.tz[i] == '\n';
            assert(is_space(id.tz[i]));
        }
    }
    lemma_no_newline(id.name, seq![' ', '<']);
    lemma_no_newline(id.name + seq![' ', '<'], id.email);
    lemma_no_newline(id.name + seq![' ', '<'] + id.email, seq!['>', ' ']);
    lemma_no_newline(
        id.name + seq![' ', '<'] + id.email + seq!['>', ' '],
        dec_int(id.unix_time),
    );
    lemma_no_newline(
        id.name + seq![' ', '<'] + id.email + seq!['>', ' '] + dec_int(id.unix_time),
        seq![' '],
    );
    lemma_no_newline(
        id.name + seq![' ', '<'] + id.email + seq!['>', ' '] + dec_int(id.unix_time) + seq![' '],
        id.tz,
    );
}

/// Header lines that were joined are taken apart again.
proof fn lemma_joined_lines(lines: Seq<Seq<char>>, hs: Seq<HeaderModel>, is_sha1: bool, i: int, rest: Seq<u8>)
    requires
        0 <= i <= lines.len(),
        lines.len() == hs.len(),
        forall|k: int|
            0 <= k < lines.len() ==> (#[trigger] lines[k]).len() > 0 && !lines[k].contains('\n')
                && header_in(lines[k], is_sha1) == Ok::<HeaderModel, ObjectError>(hs[k]),
    ensures
        headers_in(joined_lines(lines.subrange(0, i)) + rest, is_sha1) == lines_then(
            hs.subrange(0, i),
            headers_in(rest, is_sha1),
        ),
    decreases i,
{
    if i == 0 {
        assert(joined_lines(lines.subrange(0, 0)) + rest =~= rest);
        if let Ok((ts, m)) = headers_in(rest, is_sha1) {
            assert(hs.subrange(0, 0) + ts =~= ts);
        }
    } else {
        let line = lines[i - 1];
        let e = encode_utf8(line);
        let one = e + seq![0x0au8];
        let front = lines.subrange(0, i - 1);
        assert(lines.subrange(0, i).drop_last() =~= front);
        assert(lines.subrange(0, i).last() == line);
        assert(joined_lines(lines.subrange(0, i)) + rest =~= joined_lines(front) + (one + rest));
        lemma_joined_lines(lines, hs, is_sha1, i - 1, one + rest);
        let s = one + rest;
        lemma_encode_free(line, '\n');
        assert(e.len() > 0) by {
            lemma_text_round_trip(line);
            if e.len() == 0 {
                assert(e =~= Seq::empty());
            }
        }
        assert forall|k: int| 0 <= k < e.len() implies s[k] != 0x0a by {
            assert(s[k] == e[k]);
        }
        assert(s[e.len() as int] == 0x0a);
        lemma_find_from_is(s, 0x0a, 0, e.len() as int);
        assert(s.subrange(0, e.len() as int) =~= e);
        assert(s.subrange(e.len() as int + 1, s.len() as int) =~= rest);
        lemma_text_round_trip(line);
        if let Ok((ts, m)) = headers_in(rest, is_sha1) {
            assert(hs.subrange(0, i - 1) + (seq![hs[i - 1]] + ts) =~= hs.subrange(0, i) + ts);
        }
    }
}

/// The fields that the first `k` header lines of a commit give.
spec fn fields_after(c: CommitModel, k: int) -> HeaderFields {
    let n = c.parents.len() as int;
    HeaderFields {
        tree: if k > 0 {
            Some(c.tree)
        } else {
            None
        },
        parents: if k <= 1 {
            Seq::empty()
        } else if k <= n + 1 {
            c.parents.subrange(0, k - 1)
        } else {
            c.parents
        },
        author: if k > n + 1 {
            Some(c.author)
        } else {
            None
        },
        committer: if k > n + 2 {
            Some(c.committer)
        } else {
            None
        },
        trailing_headers: if k <= n + 3 {
            Seq::empty()
        } else {
            c.trailing_headers.subrange(0, k - n - 3)
        },
    }
}

proof fn lemma_fields(c: CommitModel, k: int)
    requires
        0 <= k <= header_models(c).len(),
    ensures
        with_headers(
            fields_after(c, k),
            header_models(c).subrange(k, header_models(c).len() as int),
        ) == Ok::<HeaderFields, ObjectError>(fields_after(c, header_models(c).len() as int)),
    decreases header_models(c).len() - k,
{
    let hs = header_models(c);
    let rest = hs.subrange(k, hs.len() as int);
    if k < hs.len() {
        let n = c.parents.len();
        let f = fields_after(c, k);
        let g = fields_after(c, k + 1);
        assert(rest[0] == hs[k]);
        assert(rest.drop_first() =~= hs.subrange(k + 1, hs.len() as int));
        if 1 <= k <= n {
            assert(hs[k] == HeaderModel::Parent(c.parents[k - 1]));
            assert(f.parents.push(c.parents[k - 1]) =~= g.parents);
        } else if k >= n + 3 {
            assert(hs[k] == HeaderModel::Other(c.trailing_headers[k - n - 3]));
            assert(f.trailing_headers.push(c.trailing_headers[k - n - 3]) =~= g.trailing_headers);
        } else if k == n + 1 {
            assert(f.parents =~= g.parents);
        }
        assert(with_header(f, hs[k]) == Ok::<HeaderFields, ObjectError>(g));
        lemma_fields(c, k + 1);
    }
}

/// A commit that is written and read again is the same commit.
pub proof fn law_commit_round_trip(c: CommitModel, is_sha1: bool)
    requires
        writable_commit(c, is_sha1),
    ensures
        commit_in(commit_payload(c), is_sha1) == Ok::<CommitModel, ObjectError>(c),
        payload_of_kind(framed("commit"@, commit_payload(c)), "commit"@) == Ok::<
            Seq<u8>,
            ObjectError,
        >(commit_payload(c)),
{
    let lines = header_lines(c);
    let hs = header_models(c);
    lemma_header_lines(c, is_sha1, 0);
    assert forall|k: int| 0 <= k < lines.len() implies (#[trigger] lines[k]).len() > 0
        && !lines[k].contains('\n') && header_in(lines[k], is_sha1) == Ok::<
        HeaderModel,
        ObjectError,
    >(hs[k]) by {
        lemma_header_lines(c, is_sha1, k);
    }
    let rest = seq![0x0au8] + c.message;
    lemma_joined_lines(lines, hs, is_sha1, lines.len() as int, rest);
    assert(lines.subrange(0, lines.len() as int) =~= lines);
    assert(hs.subrange(0, hs.len() as int) =~= hs);
    assert(commit_payload(c) =~= joined_lines(lines) + rest);
    assert(rest[0] == 0x0a);
    assert(rest.subrange(1, rest.len() as int) =~= c.message);
    assert(hs + Seq::empty() =~= hs);
    lemma_fields(c, 0);
    assert(fields_after(c, 0) =~= no_fields());
    let f = fields_after(c, hs.len() as int);
    assert(f.parents =~= c.parents);
    assert(f.trailing_headers =~= c.trailing_headers);
    reveal_strlit("commit");
    crate::object::lemma_frame_round_trip("commit"@, commit_payload(c));
}

} // verus!
