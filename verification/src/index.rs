//! The index: what the next commit will hold, with the state of each file when it was staged.
use crate::bytes::{
    append_bytes, be16, be16_at, be32, be32_at, bytes_lt, copy_bytes, find_byte,
    lemma_be16_round_trip, lemma_be32_round_trip, lemma_lex_asymmetric, lemma_lex_total,
    lemma_parts, lemma_lex_transitive, lex_lt, push_be16, push_be32, read_be16, read_be32,
    same_bytes,
};
use crate::object::{array20, lemma_oid, oid_of, FileMode, ObjectSha};
use crate::outside::{sha1_digest, sha1_of};
use crate::text::{chars_of, lemma_views_push, lossy_text, res_view, string_of, utf8_lossy, views};
use crate::unix_path::{relative_to, strip_root};
use vstd::prelude::*;
use vstd::slice::slice_subrange;

verus! {

/// A staged file.
#[derive(Debug)]
pub struct Entry {
    ctime_sec: u32,
    ctime_nsec: u32,
    mtime_sec: u32,
    mtime_nsec: u32,
    dev: u32,
    ino: u32,
    file_mode: FileMode,
    uid: u32,
    gid: u32,
    file_size: u32,
    obj_name: ObjectSha,
    assume_valid: bool,
    extended: bool,
    merge_stage: u8,
    name_length: u16,
    path: Vec<u8>,
}

/// The model of an [`Entry`].
#[verifier::ext_equal]
pub struct EntryModel {
    /// When the file was last changed in any way.
    pub ctime_sec: u32,
    pub ctime_nsec: u32,
    /// When the content of the file was last changed.
    pub mtime_sec: u32,
    pub mtime_nsec: u32,
    pub dev: u32,
    pub ino: u32,
    pub file_mode: FileMode,
    pub uid: u32,
    pub gid: u32,
    pub file_size: u32,
    pub obj_name: ObjectSha,
    pub assume_valid: bool,
    pub extended: bool,
    /// 0 for a file as it is; in a conflict 1 for the common ancestor, 2 for ours, 3 for theirs.
    pub merge_stage: u8,
    /// The length of the path.
    pub name_length: u16,
    pub path: Seq<u8>,
}

impl View for Entry {
    type V = EntryModel;

    closed spec fn view(&self) -> EntryModel {
        EntryModel {
            ctime_sec: self.ctime_sec,
            ctime_nsec: self.ctime_nsec,
            mtime_sec: self.mtime_sec,
            mtime_nsec: self.mtime_nsec,
            dev: self.dev,
            ino: self.ino,
            file_mode: self.file_mode,
            uid: self.uid,
            gid: self.gid,
            file_size: self.file_size,
            obj_name: self.obj_name,
            assume_valid: self.assume_valid,
            extended: self.extended,
            merge_stage: self.merge_stage,
            name_length: self.name_length,
            path: self.path@,
        }
    }
}

impl Entry {
    pub fn ctime_sec(&self) -> (r: u32)
        ensures
            r == self@.ctime_sec,
    {
        self.ctime_sec
    }

    pub fn ctime_nsec(&self) -> (r: u32)
        ensures
            r == self@.ctime_nsec,
    {
        self.ctime_nsec
    }

    pub fn mtime_sec(&self) -> (r: u32)
        ensures
            r == self@.mtime_sec,
    {
        self.mtime_sec
    }

    pub fn mtime_nsec(&self) -> (r: u32)
        ensures
            r == self@.mtime_nsec,
    {
        self.mtime_nsec
    }

    pub fn dev(&self) -> (r: u32)
        ensures
            r == self@.dev,
    {
        self.dev
    }

    pub fn ino(&self) -> (r: u32)
        ensures
            r == self@.ino,
    {
        self.ino
    }

    pub fn file_mode(&self) -> (r: FileMode)
        ensures
            r == self@.file_mode,
    {
        self.file_mode
    }

    pub fn uid(&self) -> (r: u32)
        ensures
            r == self@.uid,
    {
        self.uid
    }

    pub fn gid(&self) -> (r: u32)
        ensures
            r == self@.gid,
    {
        self.gid
    }

    pub fn file_size(&self) -> (r: u32)
        ensures
            r == self@.file_size,
    {
        self.file_size
    }

    pub fn obj_name(&self) -> (r: &ObjectSha)
        ensures
            *r == self@.obj_name,
    {
        &self.obj_name
    }

    pub fn assume_valid(&self) -> (r: bool)
        ensures
            r == self@.assume_valid,
    {
        self.assume_valid
    }

    pub fn extended(&self) -> (r: bool)
        ensures
            r == self@.extended,
    {
        self.extended
    }

    pub fn merge_stage(&self) -> (r: u8)
        ensures
            r == self@.merge_stage,
    {
        self.merge_stage
    }

    pub fn name_length(&self) -> (r: u16)
        ensures
            r == self@.name_length,
    {
        self.name_length
    }

    /// The path below the working directory.
    pub fn path(&self) -> (r: &[u8])
        ensures
            r@ == self@.path,
    {
        self.path.as_slice()
    }

    /// The path below the working directory, as bytes that need not be text.
    pub fn decode_entry_path(&self) -> (r: Vec<u8>)
        ensures
            r@ == self@.path,
    {
        copy_bytes(self.path.as_slice())
    }
}

/// The staged files, in dictionary order of their paths.
#[derive(Debug)]
pub struct IndexFile {
    version: u32,
    entries: Vec<Entry>,
}

/// The model of an [`IndexFile`].
#[verifier::ext_equal]
pub struct IndexModel {
    pub version: u32,
    pub entries: Seq<EntryModel>,
}

impl View for IndexFile {
    type V = IndexModel;

    closed spec fn view(&self) -> IndexModel {
        IndexModel { version: self.version, entries: views(self.entries@) }
    }
}

/// Why an index cannot be read, written or changed.
#[derive(Clone, Copy, PartialEq, Eq, Structural, Debug)]
pub enum IndexError {
    /// The file ends where more is needed.
    Eof,
    /// The file does not start as an index does.
    BadHeader,
    /// A mode that no entry can have.
    BadMode,
    /// An id that is not a SHA-1 digest.
    NotSha1,
    /// A path whose length is not the one that its entry gives.
    LengthMismatch,
    /// A file too large for an entry.
    SizeTooLarge,
    EmptyPath,
    PathHasNul,
    PathTooLong,
    /// A path that is not below the working directory.
    NotUnderRoot,
}

/// The mode of an entry as a number.
pub open spec fn mode_bits(m: FileMode) -> Option<u32> {
    match m {
        FileMode::NExecRegularFile => Some(0x81a4u32),
        FileMode::ExecRegularFile => Some(0x81edu32),
        FileMode::SymbolicLink => Some(0xa000u32),
        FileMode::Gitlink => Some(0xe000u32),
        FileMode::Directory => None,
    }
}

/// The mode that a number gives.
pub open spec fn mode_of_bits(b: u32) -> Option<FileMode> {
    if b == 0x81a4 {
        Some(FileMode::NExecRegularFile)
    } else if b == 0x81ed {
        Some(FileMode::ExecRegularFile)
    } else if b == 0xa000 {
        Some(FileMode::SymbolicLink)
    } else if b == 0xe000 {
        Some(FileMode::Gitlink)
    } else {
        None
    }
}

/// What the file system says of a file.
#[derive(Clone, Copy, PartialEq, Eq, Structural, Debug)]
pub struct FileStat {
    pub ctime_sec: i64,
    pub ctime_nsec: i64,
    pub mtime_sec: i64,
    pub mtime_nsec: i64,
    pub dev: u64,
    pub ino: u64,
    pub mode: u32,
    pub uid: u32,
    pub gid: u32,
    pub size: u64,
    pub is_file: bool,
    pub is_symlink: bool,
}

/// The mode of a file that is a symbolic link or a regular file.
pub open spec fn mode_of_stat(s: FileStat) -> Option<FileMode> {
    if s.is_symlink {
        Some(FileMode::SymbolicLink)
    } else if s.is_file {
        if s.mode / 64 % 2 == 1 {
            Some(FileMode::ExecRegularFile)
        } else {
            Some(FileMode::NExecRegularFile)
        }
    } else {
        None
    }
}

impl FileMode {
    fn from_index_binary(binary: u32) -> (r: Option<FileMode>)
        ensures
            r == mode_of_bits(binary),
    {
        match binary {
            0x81a4 => Some(FileMode::NExecRegularFile),
            0x81ed => Some(FileMode::ExecRegularFile),
            0xa000 => Some(FileMode::SymbolicLink),
            0xe000 => Some(FileMode::Gitlink),
            _ => None,
        }
    }

    fn to_index_binary(self) -> (r: Option<u32>)
        ensures
            r == mode_bits(self),
    {
        match self {
            FileMode::NExecRegularFile => Some(0x81a4),
            FileMode::ExecRegularFile => Some(0x81ed),
            FileMode::SymbolicLink => Some(0xa000),
            FileMode::Gitlink => Some(0xe000),
            FileMode::Directory => None,
        }
    }

    /// The mode of a file; nothing for what is neither a regular file nor a symbolic link.
    pub fn from_metadata(stat: &FileStat) -> (r: Option<FileMode>)
        ensures
            r == mode_of_stat(*stat),
    {
        if stat.is_symlink {
            Some(FileMode::SymbolicLink)
        } else if stat.is_file {
            if stat.mode / 64 % 2 == 1 {
                Some(FileMode::ExecRegularFile)
            } else {
                Some(FileMode::NExecRegularFile)
            }
        } else {
            None
        }
    }
}

/// The flags of an entry: the length of its path, its stage, and two marks.
pub open spec fn entry_flags(e: EntryModel) -> u16 {
    ((if e.name_length > 0xfff {
        0xfffint
    } else {
        e.name_length as int
    }) + (e.merge_stage % 4) * 0x1000 + (if e.extended {
        0x4000int
    } else {
        0
    }) + (if e.assume_valid {
        0x8000int
    } else {
        0
    })) as u16
}

/// How many zero bytes fill an entry up to a multiple of eight.
pub open spec fn padding(n: int) -> int {
    (8 - n % 8) % 8
}

/// Numbers one after another, four bytes each.
pub open spec fn words32(ws: Seq<u32>) -> Seq<u8> {
    Seq::new(4 * ws.len(), |i: int| be32(ws[i / 4])[i % 4])
}

/// The numbers with which an entry starts.
pub open spec fn entry_words(e: EntryModel, mode: u32) -> Seq<u32> {
    seq![
        e.ctime_sec,
        e.ctime_nsec,
        e.mtime_sec,
        e.mtime_nsec,
        e.dev,
        e.ino,
        mode,
        e.uid,
        e.gid,
        e.file_size,
    ]
}

/// An entry as it stands in an index file.
#[verifier::opaque]
pub open spec fn encoded(e: EntryModel) -> Result<Seq<u8>, IndexError> {
    if !(e.obj_name is SHA1) {
        Err(IndexError::NotSha1)
    } else if e.path.len() != e.name_length {
        Err(IndexError::LengthMismatch)
    } else {
        match mode_bits(e.file_mode) {
            None => Err(IndexError::BadMode),
            Some(mode) => Ok(
                words32(entry_words(e, mode)) + e.obj_name@ + be16(entry_flags(e)) + e.path + seq![0u8] + Seq::new(
                    padding(63int + e.path.len()) as nat,
                    |i: int| 0u8,
                ),
            ),
        }
    }
}

/// The entry at `pos` in an index file, and the position after it.
#[verifier::opaque]
pub open spec fn entry_at(s: Seq<u8>, pos: int) -> Result<(EntryModel, int), IndexError> {
    if s.len() < pos + 28 {
        Err(IndexError::Eof)
    } else {
        match mode_of_bits(be32_at(s, pos + 24)) {
            None => Err(IndexError::BadMode),
            Some(file_mode) => if s.len() < pos + 62 {
                Err(IndexError::Eof)
            } else {
                let flags = be16_at(s, pos + 60);
                let n = (flags % 0x1000) as int;
                let end = pos + 63 + n + padding(63 + n);
                if s.len() < end {
                    Err(IndexError::Eof)
                } else {
                    Ok(
                        (
                            EntryModel {
                                ctime_sec: be32_at(s, pos),
                                ctime_nsec: be32_at(s, pos + 4),
                                mtime_sec: be32_at(s, pos + 8),
                                mtime_nsec: be32_at(s, pos + 12),
                                dev: be32_at(s, pos + 16),
                                ino: be32_at(s, pos + 20),
                                file_mode,
                                uid: be32_at(s, pos + 28),
                                gid: be32_at(s, pos + 32),
                                file_size: be32_at(s, pos + 36),
                                obj_name: oid_of(s.subrange(pos + 40, pos + 60)),
                                assume_valid: flags >= 0x8000,
                                extended: flags / 0x4000 % 2 == 1,
                                merge_stage: (flags / 0x1000 % 4) as u8,
                                name_length: flags % 0x1000,
                                path: s.subrange(pos + 62, pos + 62 + n),
                            },
                            end,
                        ),
                    )
                }
            },
        }
    }
}

/// The entries of an index file, of which `left` are still to be read from `pos` on.
pub open spec fn entries_at(s: Seq<u8>, pos: int, left: nat) -> Result<Seq<EntryModel>, IndexError>
    decreases left,
{
    if left == 0 {
        Ok(Seq::empty())
    } else {
        match entry_at(s, pos) {
            Err(e) => Err(e),
            Ok((entry, p)) => match entries_at(s, p, (left - 1) as nat) {
                Err(e) => Err(e),
                Ok(rest) => Ok(seq![entry] + rest),
            },
        }
    }
}

/// The index in a file.
pub open spec fn index_in(s: Seq<u8>) -> Result<IndexModel, IndexError> {
    if s.len() < 4 {
        Err(IndexError::Eof)
    } else if s.subrange(0, 4) != seq![0x44u8, 0x49, 0x52, 0x43] {
        Err(IndexError::BadHeader)
    } else if s.len() < 12 {
        Err(IndexError::Eof)
    } else {
        match entries_at(s, 12, be32_at(s, 8) as nat) {
            Err(e) => Err(e),
            Ok(entries) => Ok(IndexModel { version: be32_at(s, 4), entries }),
        }
    }
}

/// Reads the entry at `pos` in an index file.
pub fn get_entry_at(s: &[u8], pos: usize) -> (r: Result<(Entry, usize), IndexError>)
    requires
        pos <= s@.len(),
    ensures
        (match r {
            Ok((e, p)) => entry_at(s@, pos as int) == Ok::<(EntryModel, int), IndexError>(
                (e@, p as int),
            ) && pos < p <= s@.len(),
            Err(x) => entry_at(s@, pos as int) == Err::<(EntryModel, int), IndexError>(x),
        }),
{
    proof {
        reveal(entry_at);
    }
    let room: usize = s.len() - pos;
    if room < 28 {
        return Err(IndexError::Eof);
    }
    let file_mode = match FileMode::from_index_binary(read_be32(s, pos + 24)) {
        Some(m) => m,
        None => return Err(IndexError::BadMode),
    };
    if room < 62 {
        return Err(IndexError::Eof);
    }
    let flags: u16 = read_be16(s, pos + 60);
    let name_length: u16 = flags % 0x1000;
    let n: usize = name_length as usize;
    let pad: usize = (8 - (63 + n) % 8) % 8;
    if room < 63 + n + pad {
        return Err(IndexError::Eof);
    }
    let obj_name = ObjectSha::SHA1(array20(slice_subrange(s, pos + 40, pos + 60)));
    proof {
        lemma_oid(obj_name);
    }
    let entry = Entry {
        ctime_sec: read_be32(s, pos),
        ctime_nsec: read_be32(s, pos + 4),
        mtime_sec: read_be32(s, pos + 8),
        mtime_nsec: read_be32(s, pos + 12),
        dev: read_be32(s, pos + 16),
        ino: read_be32(s, pos + 20),
        file_mode,
        uid: read_be32(s, pos + 28),
        gid: read_be32(s, pos + 32),
        file_size: read_be32(s, pos + 36),
        obj_name,
        assume_valid: flags >= 0x8000,
        extended: flags / 0x4000 % 2 == 1,
        merge_stage: (flags / 0x1000 % 4) as u8,
        name_length,
        path: copy_bytes(slice_subrange(s, pos + 62, pos + 62 + n)),
    };
    Ok((entry, pos + 63 + n + pad))
}

/// The result of reading entries, with more put in front.
spec fn after_entries(front: Seq<EntryModel>, r: Result<Seq<EntryModel>, IndexError>) -> Result<
    Seq<EntryModel>,
    IndexError,
> {
    match r {
        Ok(es) => Ok(front + es),
        Err(e) => Err(e),
    }
}

/// Reads an index file.
pub fn parse_index_file(content: &[u8]) -> (r: Result<IndexFile, IndexError>)
    ensures
        res_view(r) == index_in(content@),
{
    if content.len() < 4 {
        return Err(IndexError::Eof);
    }
    if content[0] != 0x44 || content[1] != 0x49 || content[2] != 0x52 || content[3] != 0x43 {
        proof {
            let m = seq![0x44u8, 0x49, 0x52, 0x43];
            let d = content@.subrange(0, 4);
            assert(d[0] == content@[0] && d[1] == content@[1] && d[2] == content@[2] && d[3]
                == content@[3]);
            assert(m[0] == 0x44 && m[1] == 0x49 && m[2] == 0x52 && m[3] == 0x43);
        }
        return Err(IndexError::BadHeader);
    }
    assert(content@.subrange(0, 4) =~= seq![0x44u8, 0x49, 0x52, 0x43]);
    if content.len() < 12 {
        return Err(IndexError::Eof);
    }
    let version: u32 = read_be32(content, 4);
    let count: u32 = read_be32(content, 8);
    let mut entries: Vec<Entry> = Vec::new();
    let mut pos: usize = 12;
    let mut done: u32 = 0;
    let ghost all = entries_at(content@, 12, count as nat);
    assert(all == after_entries(views(entries@), all)) by {
        if let Ok(es) = all {
            assert(views(entries@) + es =~= es);
        }
    }
    while done < count
        invariant
            0 <= done <= count,
            pos <= content@.len(),
            content@.len() >= 12,
            content@.subrange(0, 4) == seq![0x44u8, 0x49, 0x52, 0x43],
            count == be32_at(content@, 8),
            version == be32_at(content@, 4),
            all == entries_at(content@, 12, count as nat),
            all == after_entries(
                views(entries@),
                entries_at(content@, pos as int, (count - done) as nat),
            ),
        decreases count - done,
    {
        match get_entry_at(content, pos) {
            Err(e) => return Err(e),
            Ok((entry, p)) => {
                let ghost before = entries@;
                entries.push(entry);
                proof {
                    lemma_views_push(before, entry);
                    if let Ok(es) = entries_at(content@, p as int, (count - done - 1) as nat) {
                        assert(views(before) + (seq![entry@] + es) =~= views(entries@) + es);
                    }
                }
                pos = p;
            },
        }
        done += 1;
    }
    assert(views(entries@) + Seq::empty() =~= views(entries@));
    Ok(IndexFile { version, entries })
}

proof fn lemma_words_push(ws: Seq<u32>, w: u32)
    ensures
        words32(ws.push(w)) == words32(ws) + be32(w),
{
    let a = words32(ws.push(w));
    let b = words32(ws) + be32(w);
    assert forall|i: int| 0 <= i < a.len() implies a[i] == b[i] by {
        if i < 4 * ws.len() {
            assert(i / 4 < ws.len());
        } else {
            assert(i / 4 == ws.len() && i % 4 == i - 4 * ws.len());
        }
    }
    assert(a =~= b);
}

/// A number among others is read back.
proof fn lemma_word_at(s: Seq<u8>, pos: int, ws: Seq<u32>, k: int)
    requires
        0 <= pos,
        0 <= k < ws.len(),
        pos + 4 * ws.len() <= s.len(),
        s.subrange(pos, pos + 4 * ws.len()) == words32(ws),
    ensures
        be32_at(s, pos + 4 * k) == ws[k],
{
    let w = words32(ws);
    let t = s.subrange(pos + 4 * k, pos + 4 * k + 4);
    assert forall|i: int| 0 <= i < 4 implies t[i] == be32(ws[k])[i] by {
        assert(t[i] == s.subrange(pos, pos + 4 * ws.len())[4 * k + i]);
        assert((4 * k + i) / 4 == k && (4 * k + i) % 4 == i);
    }
    assert(t =~= be32(ws[k]));
    lemma_be32_round_trip(s, pos + 4 * k, ws[k]);
}

fn write_words(ws: &Vec<u32>) -> (r: Vec<u8>)
    ensures
        r@ == words32(ws@),
{
    let mut r: Vec<u8> = Vec::new();
    let mut i: usize = 0;
    assert(r@ =~= words32(ws@.subrange(0, 0)));
    while i < ws.len()
        invariant
            0 <= i <= ws@.len(),
            r@ == words32(ws@.subrange(0, i as int)),
        decreases ws@.len() - i,
    {
        push_be32(&mut r, ws[i]);
        proof {
            lemma_words_push(ws@.subrange(0, i as int), ws@[i as int]);
            assert(ws@.subrange(0, i as int).push(ws@[i as int]) =~= ws@.subrange(0, i + 1));
        }
        i += 1;
    }
    assert(ws@.subrange(0, i as int) =~= ws@);
    r
}

/// Writes an entry as it stands in an index file.
pub fn encode_entry(entry: &Entry) -> (r: Result<Vec<u8>, IndexError>)
    ensures
        res_view(r) == encoded(entry@),
{
    proof {
        reveal(encoded);
    }
    match entry.obj_name {
        ObjectSha::SHA1(_) => {},
        ObjectSha::SHA256(_) => return Err(IndexError::NotSha1),
    }
    if entry.path.len() != entry.name_length as usize {
        return Err(IndexError::LengthMismatch);
    }
    let mode: u32 = match entry.file_mode.to_index_binary() {
        Some(m) => m,
        None => return Err(IndexError::BadMode),
    };
    let length: u16 = if entry.name_length > 0xfff {
        0xfff
    } else {
        entry.name_length
    };
    let mut flags: u16 = length + (entry.merge_stage % 4) as u16 * 0x1000;
    if entry.extended {
        flags = flags + 0x4000;
    }
    if entry.assume_valid {
        flags = flags + 0x8000;
    }
    assert(flags == entry_flags(entry@));
    let ws: Vec<u32> = vec![
        entry.ctime_sec,
        entry.ctime_nsec,
        entry.mtime_sec,
        entry.mtime_nsec,
        entry.dev,
        entry.ino,
        mode,
        entry.uid,
        entry.gid,
        entry.file_size,
    ];
    assert(ws@ =~= entry_words(entry@, mode));
    let mut chunk = write_words(&ws);
    append_bytes(&mut chunk, entry.obj_name.as_bytes());
    push_be16(&mut chunk, flags);
    append_bytes(&mut chunk, entry.path.as_slice());
    chunk.push(0);
    proof {
        lemma_oid(entry.obj_name);
    }
    let ghost body = chunk@;
    let pad: usize = (8 - chunk.len() % 8) % 8;
    assert(body.len() == 63 + entry.path@.len());
    let mut k: usize = 0;
    while k < pad
        invariant
            0 <= k <= pad,
            chunk@ == body + Seq::new(k as nat, |i: int| 0u8),
        decreases pad - k,
    {
        chunk.push(0);
        k += 1;
        assert(chunk@ =~= body + Seq::new(k as nat, |i: int| 0u8));
    }
    let ghost whole = encoded(entry@)->Ok_0;
    assert(chunk@ =~= whole);
    Ok(chunk)
}

/// The entries as they stand in an index file; the first error if one cannot be written.
pub open spec fn all_encoded(entries: Seq<EntryModel>) -> Result<Seq<u8>, IndexError>
    decreases entries.len(),
{
    if entries.len() == 0 {
        Ok(Seq::empty())
    } else {
        match all_encoded(entries.drop_last()) {
            Err(e) => Err(e),
            Ok(front) => match encoded(entries.last()) {
                Err(e) => Err(e),
                Ok(one) => Ok(front + one),
            },
        }
    }
}

/// The head of an index file.
pub open spec fn index_head(index: IndexModel) -> Seq<u8> {
    seq![0x44u8, 0x49, 0x52, 0x43] + be32(index.version) + be32(index.entries.len() as u32)
}

/// An index file: head, entries, and the SHA-1 digest of both.
pub open spec fn index_bytes(index: IndexModel) -> Result<Seq<u8>, IndexError> {
    match all_encoded(index.entries) {
        Err(e) => Err(e),
        Ok(body) => Ok(index_head(index) + body + sha1_of(index_head(index) + body)@),
    }
}

/// An entry that cannot be written keeps all later ones from being written.
proof fn lemma_all_encoded_stops(entries: Seq<EntryModel>, i: int)
    requires
        0 <= i <= entries.len(),
        all_encoded(entries.subrange(0, i)) is Err,
    ensures
        all_encoded(entries) == all_encoded(entries.subrange(0, i)),
    decreases entries.len() - i,
{
    if i == entries.len() {
        assert(entries.subrange(0, i) =~= entries);
    } else {
        assert(entries.subrange(0, i + 1).drop_last() =~= entries.subrange(0, i));
        lemma_all_encoded_stops(entries, i + 1);
    }
}

/// The content of the file that holds an index.
pub fn write_index_file(index: &IndexFile) -> (r: Result<Vec<u8>, IndexError>)
    requires
        index@.entries.len() <= u32::MAX,
    ensures
        res_view(r) == index_bytes(index@),
{
    let mut buf: Vec<u8> = Vec::new();
    buf.push(0x44);
    buf.push(0x49);
    buf.push(0x52);
    buf.push(0x43);
    push_be32(&mut buf, index.version);
    push_be32(&mut buf, index.entries.len() as u32);
    let ghost head = index_head(index@);
    let ghost all = index@.entries;
    assert(buf@ =~= head);
    let mut i: usize = 0;
    let ghost mut body: Seq<u8> = Seq::empty();
    assert(all.subrange(0, 0) =~= Seq::empty());
    assert(buf@ =~= head + body);
    while i < index.entries.len()
        invariant
            0 <= i <= index.entries@.len(),
            all == views(index.entries@),
            all == index@.entries,
            head == index_head(index@),
            all_encoded(all.subrange(0, i as int)) == Ok::<Seq<u8>, IndexError>(body),
            buf@ == head + body,
        decreases index.entries@.len() - i,
    {
        proof {
            assert(all.subrange(0, i + 1).drop_last() =~= all.subrange(0, i as int));
            assert(all.subrange(0, i + 1).last() == index.entries@[i as int]@);
        }
        match encode_entry(&index.entries[i]) {
            Err(e) => {
                proof {
                    lemma_all_encoded_stops(all, i + 1);
                }
                return Err(e);
            },
            Ok(one) => {
                append_bytes(&mut buf, one.as_slice());
                proof {
                    assert(head + body + one@ =~= head + (body + one@));
                    body = body + one@;
                }
            },
        }
        i += 1;
    }
    assert(all.subrange(0, i as int) =~= all);
    let digest = sha1_digest(buf.as_slice());
    append_bytes(&mut buf, digest.as_slice());
    Ok(buf)
}

/// Whether an entry is such as an index file can carry without loss.
pub open spec fn writable_entry(e: EntryModel) -> bool {
    &&& e.obj_name is SHA1
    &&& e.path.len() == e.name_length
    &&& e.name_length <= 0xfff
    &&& e.merge_stage < 4
    &&& mode_bits(e.file_mode) is Some
}

/// Where the parts of a written entry stand.
proof fn lemma_entry_layout(s: Seq<u8>, pos: int, e: EntryModel)
    requires
        writable_entry(e),
        0 <= pos,
        encoded(e) matches Ok(one) && pos + one.len() <= s.len() && s.subrange(
            pos,
            pos + one.len(),
        ) == one,
    ensures
        encoded(e)->Ok_0.len() == 63 + e.path.len() + padding(63int + e.path.len()),
        s.subrange(pos, pos + 40) == words32(entry_words(e, mode_bits(e.file_mode)->0)),
        s.subrange(pos + 40, pos + 60) == e.obj_name@,
        s.subrange(pos + 60, pos + 62) == be16(entry_flags(e)),
        s.subrange(pos + 62, pos + 62 + e.path.len()) == e.path,
{
    reveal(encoded);
    lemma_oid(e.obj_name);
    let one = encoded(e)->Ok_0;
    let w = words32(entry_words(e, mode_bits(e.file_mode)->0));
    let o = e.obj_name@;
    let f = be16(entry_flags(e));
    let z = seq![0u8];
    let pad = Seq::new(padding(63int + e.path.len()) as nat, |i: int| 0u8);
    assert(w.len() == 40 && o.len() == 20 && f.len() == 2 && z.len() == 1);
    assert(one == w + o + f + e.path + z + pad);
    lemma_parts(s, pos, w + o + f + e.path + z, pad);
    lemma_parts(s, pos, w + o + f + e.path, z);
    lemma_parts(s, pos, w + o + f, e.path);
    lemma_parts(s, pos, w + o, f);
    lemma_parts(s, pos, w, o);
}

/// The flags of an entry give back what they were made of.
proof fn lemma_flags(e: EntryModel)
    requires
        writable_entry(e),
    ensures
        entry_flags(e) % 0x1000 == e.name_length,
        entry_flags(e) / 0x1000 % 4 == e.merge_stage,
        entry_flags(e) / 0x4000 % 2 == 1 <==> e.extended,
        entry_flags(e) >= 0x8000 <==> e.assume_valid,
{
    assert(e.merge_stage % 4 == e.merge_stage);
}

/// An entry that is written is read back, wherever it stands.
proof fn lemma_entry_round_trip(s: Seq<u8>, pos: int, e: EntryModel)
    requires
        writable_entry(e),
        0 <= pos,
        encoded(e) matches Ok(one) && pos + one.len() <= s.len() && s.subrange(
            pos,
            pos + one.len(),
        ) == one,
    ensures
        entry_at(s, pos) == Ok::<(EntryModel, int), IndexError>(
            (e, pos + encoded(e)->Ok_0.len()),
        ),
{
    lemma_entry_layout(s, pos, e);
    lemma_flags(e);
    lemma_oid(e.obj_name);
    let ws = entry_words(e, mode_bits(e.file_mode)->0);
    lemma_word_at(s, pos, ws, 0);
    lemma_word_at(s, pos, ws, 1);
    lemma_word_at(s, pos, ws, 2);
    lemma_word_at(s, pos, ws, 3);
    lemma_word_at(s, pos, ws, 4);
    lemma_word_at(s, pos, ws, 5);
    lemma_word_at(s, pos, ws, 6);
    lemma_word_at(s, pos, ws, 7);
    lemma_word_at(s, pos, ws, 8);
    lemma_word_at(s, pos, ws, 9);
    lemma_be16_round_trip(s, pos + 60, entry_flags(e));
    reveal(entry_at);
}

/// An entry takes up the least multiple of eight bytes that holds it with a zero byte behind its
/// path, and is read back in every field from wherever it was written, up to its end.
pub proof fn law_entry_round_trip(front: Seq<u8>, e: EntryModel, rest: Seq<u8>)
    requires
        writable_entry(e),
    ensures
        encoded(e) matches Ok(one) && {
            &&& one.len() % 8 == 0
            &&& 63 + e.path.len() <= one.len() < 63 + e.path.len() + 8
            &&& entry_at(front + one + rest, front.len() as int) == Ok::<
                (EntryModel, int),
                IndexError,
            >((e, (front.len() + one.len()) as int))
        },
{
    assert(encoded(e) is Ok) by {
        reveal(encoded);
    }
    let one = encoded(e)->Ok_0;
    let s = front + one + rest;
    let n = front.len() as int;
    assert(s.subrange(n, n + one.len()) =~= one);
    lemma_entry_round_trip(s, n, e);
    lemma_oid(e.obj_name);
    assert(one.len() == 63 + e.path.len() + padding(63int + e.path.len())) by {
        reveal(encoded);
    }
}

proof fn lemma_entries_round_trip(s: Seq<u8>, pos: int, entries: Seq<EntryModel>, i: int)
    requires
        0 <= pos,
        0 <= i <= entries.len(),
        forall|k: int| 0 <= k < entries.len() ==> writable_entry(#[trigger] entries[k]),
        all_encoded(entries) matches Ok(body) && pos + body.len() <= s.len() && s.subrange(
            pos,
            pos + body.len(),
        ) == body,
    ensures
        all_encoded(entries.subrange(0, i)) is Ok,
        entries_at(
            s,
            pos + all_encoded(entries.subrange(0, i))->Ok_0.len(),
            (entries.len() - i) as nat,
        ) == Ok::<Seq<EntryModel>, IndexError>(entries.subrange(i, entries.len() as int)),
    decreases entries.len() - i,
{
    let body = all_encoded(entries)->Ok_0;
    if i == entries.len() {
        assert(entries.subrange(0, i) =~= entries);
        assert(entries.subrange(i, entries.len() as int) =~= Seq::empty());
    } else {
        let b = entries.subrange(0, i + 1);
        let a = entries.subrange(0, i);
        assert(b.drop_last() =~= a);
        assert(b.last() == entries[i]);
        lemma_entries_round_trip(s, pos, entries, i + 1);
        let front = all_encoded(a)->Ok_0;
        let one = encoded(entries[i])->Ok_0;
        lemma_all_encoded_prefix(entries, i + 1);
        let upto = all_encoded(b)->Ok_0;
        assert(upto == front + one);
        let p = pos + front.len();
        assert(s.subrange(p, p + one.len()) =~= one) by {
            assert forall|k: int| 0 <= k < one.len() implies s[p + k] == one[k] by {
                assert(s[p + k] == s.subrange(pos, pos + body.len())[front.len() + k]);
                assert(body[front.len() + k] == body.subrange(0, upto.len() as int)[front.len()
                    + k]);
            }
        }
        lemma_entry_round_trip(s, p, entries[i]);
        assert(entries.subrange(i, entries.len() as int) =~= seq![entries[i]] + entries.subrange(
            i + 1,
            entries.len() as int,
        ));
    }
}

proof fn lemma_all_encoded_prefix(entries: Seq<EntryModel>, i: int)
    requires
        0 <= i <= entries.len(),
        all_encoded(entries) is Ok,
    ensures
        all_encoded(entries.subrange(0, i)) is Ok,
        all_encoded(entries.subrange(0, i))->Ok_0.len() <= all_encoded(entries)->Ok_0.len(),
        all_encoded(entries)->Ok_0.subrange(
            0,
            all_encoded(entries.subrange(0, i))->Ok_0.len() as int,
        ) == all_encoded(entries.subrange(0, i))->Ok_0,
    decreases entries.len() - i,
{
    let body = all_encoded(entries)->Ok_0;
    if i == entries.len() {
        assert(entries.subrange(0, i) =~= entries);
        assert(body.subrange(0, body.len() as int) =~= body);
    } else {
        lemma_all_encoded_prefix(entries, i + 1);
        assert(entries.subrange(0, i + 1).drop_last() =~= entries.subrange(0, i));
        let a = all_encoded(entries.subrange(0, i))->Ok_0;
        let b = all_encoded(entries.subrange(0, i + 1))->Ok_0;
        assert(b.subrange(0, a.len() as int) =~= a);
        assert(body.subrange(0, a.len() as int) =~= body.subrange(0, b.len() as int).subrange(
            0,
            a.len() as int,
        ));
    }
}

/// Entries that can be carried without loss can be written.
proof fn lemma_writable_encoded(entries: Seq<EntryModel>)
    requires
        forall|k: int| 0 <= k < entries.len() ==> writable_entry(#[trigger] entries[k]),
    ensures
        all_encoded(entries) is Ok,
    decreases entries.len(),
{
    reveal(encoded);
    if entries.len() > 0 {
        assert(writable_entry(entries[entries.len() - 1]));
        lemma_writable_encoded(entries.drop_last());
    }
}

/// An index that is written and read again is the same index.
pub proof fn law_index_round_trip(index: IndexModel)
    requires
        index.entries.len() <= u32::MAX,
        forall|k: int| 0 <= k < index.entries.len() ==> writable_entry(#[trigger] index.entries[k]),
    ensures
        index_bytes(index) matches Ok(bytes) && index_in(bytes) == Ok::<IndexModel, IndexError>(
            index,
        ),
{
    lemma_writable_encoded(index.entries);
    let body = all_encoded(index.entries)->Ok_0;
    let head = index_head(index);
    let s = index_bytes(index)->Ok_0;
    assert(head.len() == 12);
    let magic = seq![0x44u8, 0x49, 0x52, 0x43];
    let v = be32(index.version);
    let c = be32(index.entries.len() as u32);
    let digest = sha1_of(head + body)@;
    assert(s.subrange(0, s.len() as int) =~= head + body + digest);
    lemma_parts(s, 0, head + body, digest);
    lemma_parts(s, 0, head, body);
    lemma_parts(s, 0, magic + v, c);
    lemma_parts(s, 0, magic, v);
    lemma_be32_round_trip(s, 4, index.version);
    lemma_be32_round_trip(s, 8, index.entries.len() as u32);
    lemma_entries_round_trip(s, 12, index.entries, 0);
    assert(index.entries.subrange(0, 0) =~= Seq::empty());
    assert(index.entries.subrange(0, index.entries.len() as int) =~= index.entries);
}

/// The entries in order with one more put among them, after all whose path is not greater.
pub open spec fn placed(s: Seq<EntryModel>, e: EntryModel) -> Seq<EntryModel>
    decreases s.len(),
{
    if s.len() > 0 && lex_lt(e.path, s.last().path) {
        placed(s.drop_last(), e).push(s.last())
    } else {
        s.push(e)
    }
}

/// The entries in dictionary order of their paths; those with the same path keep their order.
pub open spec fn sorted(s: Seq<EntryModel>) -> Seq<EntryModel>
    decreases s.len(),
{
    if s.len() == 0 {
        s
    } else {
        placed(sorted(s.drop_last()), s.last())
    }
}

/// Whether the paths of the entries do not descend.
pub open spec fn in_path_order(s: Seq<EntryModel>) -> bool {
    forall|i: int, j: int|
        0 <= i < j < s.len() ==> !lex_lt((#[trigger] s[j]).path, (#[trigger] s[i]).path)
}

/// The entries without those of a path.
pub open spec fn without_path(s: Seq<EntryModel>, path: Seq<u8>) -> Seq<EntryModel>
    decreases s.len(),
{
    if s.len() == 0 {
        s
    } else {
        let front = without_path(s.drop_last(), path);
        if s.last().path == path {
            front
        } else {
            front.push(s.last())
        }
    }
}

/// An entry is placed among others: the others stay in their order around it.
proof fn lemma_placed_at(s: Seq<EntryModel>, e: EntryModel, k: int)
    requires
        0 <= k <= s.len(),
        forall|i: int| k <= i < s.len() ==> lex_lt(e.path, (#[trigger] s[i]).path),
        k > 0 ==> !lex_lt(e.path, s[k - 1].path),
    ensures
        placed(s, e) == s.insert(k, e),
    decreases s.len(),
{
    if s.len() > 0 && lex_lt(e.path, s.last().path) {
        if k < s.len() {
            let t = s.drop_last();
            lemma_placed_at(t, e, k);
            assert(s.insert(k, e) =~= t.insert(k, e).push(s.last()));
        }
    } else {
        if k < s.len() {
            assert(lex_lt(e.path, s[s.len() - 1].path));
        }
        assert(s.insert(k, e) =~= s.push(e));
    }
}

/// Placing an entry among entries in order keeps the order.
pub proof fn lemma_placed(s: Seq<EntryModel>, e: EntryModel)
    requires
        in_path_order(s),
    ensures
        in_path_order(placed(s, e)),
        placed(s, e).len() == s.len() + 1,
        placed(s, e).to_multiset() == s.to_multiset().insert(e),
    decreases s.len(),
{
    broadcast use vstd::seq_lib::group_to_multiset_ensures;

    if s.len() > 0 && lex_lt(e.path, s.last().path) {
        let t = s.drop_last();
        assert forall|i: int, j: int| 0 <= i < j < t.len() implies !lex_lt(
            (#[trigger] t[j]).path,
            (#[trigger] t[i]).path,
        ) by {
            assert(t[i] == s[i] && t[j] == s[j]);
        }
        lemma_placed(t, e);
        let p = placed(t, e);
        let r = p.push(s.last());
        lemma_placed_members(t, e);
        assert forall|i: int, j: int| 0 <= i < j < r.len() implies !lex_lt(
            (#[trigger] r[j]).path,
            (#[trigger] r[i]).path,
        ) by {
            if j < p.len() {
                assert(r[i] == p[i] && r[j] == p[j]);
            } else {
                assert(r[i] == p[i]);
                if p[i] == e {
                    lemma_lex_asymmetric(e.path, s.last().path);
                } else {
                    let k = choose|k: int| 0 <= k < t.len() && #[trigger] t[k] == p[i];
                    assert(s[k] == p[i] && s[s.len() - 1] == s.last());
                }
            }
        }
        assert(t.push(s.last()) =~= s);
        assert(r.to_multiset() =~= s.to_multiset().insert(e));
    } else {
        let r = s.push(e);
        assert forall|i: int, j: int| 0 <= i < j < r.len() implies !lex_lt(
            (#[trigger] r[j]).path,
            (#[trigger] r[i]).path,
        ) by {
            if j < s.len() {
                assert(r[i] == s[i] && r[j] == s[j]);
            } else {
                assert(r[i] == s[i] && r[j] == e);
                if i < s.len() - 1 {
                    assert(!lex_lt(s[s.len() - 1].path, s[i].path));
                    if lex_lt(e.path, s[i].path) {
                        lemma_lex_total(s[i].path, s.last().path);
                        if lex_lt(s[i].path, s.last().path) {
                            lemma_lex_transitive(e.path, s[i].path, s.last().path);
                        }
                    }
                }
            }
        }
    }
}

proof fn lemma_placed_members(s: Seq<EntryModel>, e: EntryModel)
    ensures
        forall|i: int|
            0 <= i < placed(s, e).len() ==> placed(s, e)[i] == e || exists|k: int|
                0 <= k < s.len() && #[trigger] s[k] == #[trigger] placed(s, e)[i],
    decreases s.len(),
{
    let r = placed(s, e);
    if s.len() > 0 && lex_lt(e.path, s.last().path) {
        let t = s.drop_last();
        let p = placed(t, e);
        lemma_placed_members(t, e);
        assert forall|i: int| 0 <= i < r.len() implies r[i] == e || exists|k: int|
            0 <= k < s.len() && #[trigger] s[k] == #[trigger] r[i] by {
            if i < p.len() {
                assert(r[i] == p[i]);
                if p[i] != e {
                    let k = choose|k: int| 0 <= k < t.len() && #[trigger] t[k] == p[i];
                    assert(s[k] == r[i]);
                }
            } else {
                assert(s[s.len() - 1] == r[i]);
            }
        }
    } else {
        assert forall|i: int| 0 <= i < r.len() implies r[i] == e || exists|k: int|
            0 <= k < s.len() && #[trigger] s[k] == #[trigger] r[i] by {
            if i < s.len() {
                assert(s[i] == r[i]);
            }
        }
    }
}

/// Sorting puts the entries in order and neither adds nor loses one.
pub proof fn law_sorted(s: Seq<EntryModel>)
    ensures
        in_path_order(sorted(s)),
        sorted(s).len() == s.len(),
        sorted(s).to_multiset() == s.to_multiset(),
    decreases s.len(),
{
    broadcast use vstd::seq_lib::group_to_multiset_ensures;

    if s.len() > 0 {
        let t = s.drop_last();
        law_sorted(t);
        lemma_placed(sorted(t), s.last());
        assert(t.push(s.last()) =~= s);
    }
}

/// The first entry of a path at the stage of a file as it is.
pub open spec fn staged_entry(s: Seq<EntryModel>, path: Seq<u8>) -> Option<EntryModel>
    decreases s.len(),
{
    if s.len() == 0 {
        None
    } else if s[0].path == path && s[0].merge_stage == 0 {
        Some(s[0])
    } else {
        staged_entry(s.drop_first(), path)
    }
}

/// Whether a path has an entry that belongs to a conflict.
pub open spec fn conflicted(s: Seq<EntryModel>, path: Seq<u8>) -> bool {
    exists|i: int| 0 <= i < s.len() && (#[trigger] s[i]).path == path && s[i].merge_stage != 0
}

/// The entry for one side of a conflict: nothing is known of a file for it.
pub open spec fn conflict_entry(path: Seq<u8>, side: (FileMode, ObjectSha), stage: u8) -> EntryModel {
    EntryModel {
        ctime_sec: 0,
        ctime_nsec: 0,
        mtime_sec: 0,
        mtime_nsec: 0,
        dev: 0,
        ino: 0,
        file_mode: side.0,
        uid: 0,
        gid: 0,
        file_size: 0,
        obj_name: side.1,
        assume_valid: false,
        extended: false,
        merge_stage: stage,
        name_length: path.len() as u16,
        path,
    }
}

/// The entries for the sides of a conflict that exist.
pub open spec fn conflict_entries(
    path: Seq<u8>,
    base: Option<(FileMode, ObjectSha)>,
    ours: Option<(FileMode, ObjectSha)>,
    theirs: Option<(FileMode, ObjectSha)>,
) -> Seq<EntryModel> {
    let a = match base {
        Some(x) => seq![conflict_entry(path, x, 1)],
        None => Seq::empty(),
    };
    let b = match ours {
        Some(x) => seq![conflict_entry(path, x, 2)],
        None => Seq::empty(),
    };
    let c = match theirs {
        Some(x) => seq![conflict_entry(path, x, 3)],
        None => Seq::empty(),
    };
    a + b + c
}

impl IndexFile {
    /// An index without version and entries.
    pub fn new() -> (r: IndexFile)
        ensures
            r@ == (IndexModel { version: 0, entries: Seq::empty() }),
    {
        IndexFile::empty(0)
    }

    /// An index of a version, without entries.
    pub fn empty(version: u32) -> (r: IndexFile)
        ensures
            r@ == (IndexModel { version, entries: Seq::empty() }),
    {
        let r = IndexFile { version, entries: Vec::new() };
        assert(r@.entries =~= Seq::empty());
        r
    }

    /// The version.
    pub fn version(&self) -> (r: u32)
        ensures
            r == self@.version,
    {
        self.version
    }

    /// The entries.
    pub fn entries(&self) -> (r: &[Entry])
        ensures
            views(r@) == self@.entries,
    {
        self.entries.as_slice()
    }

    /// Puts the entries in order.
    fn sort(&mut self)
        ensures
            final(self)@ == (IndexModel { entries: sorted(old(self)@.entries), ..old(self)@ }),
    {
        let ghost all = self@.entries;
        let mut i: usize = 0;
        assert(sorted(all.subrange(0, 0)) + all.subrange(0, all.len() as int) =~= all);
        assert(all.subrange(0, 0) =~= Seq::empty());
        while i < self.entries.len()
            invariant
                0 <= i <= self.entries@.len(),
                self.version == old(self)@.version,
                all == old(self)@.entries,
                self.entries@.len() == all.len(),
                sorted(all.subrange(0, i as int)).len() == i,
                views(self.entries@) == sorted(all.subrange(0, i as int)) + all.subrange(
                    i as int,
                    all.len() as int,
                ),
            decreases all.len() - i,
        {
            let ghost front = sorted(all.subrange(0, i as int));
            let ghost whole = views(self.entries@);
            let ghost e = all[i as int];
            proof {
                assert(whole[i as int] == e);
                assert(all.subrange(0, i + 1).drop_last() =~= all.subrange(0, i as int));
                assert(forall|k: int| 0 <= k < i ==> whole[k] == front[k]);
                law_sorted(all.subrange(0, i as int));
                law_sorted(all.subrange(0, i + 1));
            }
            let mut k: usize = i;
            while k > 0 && bytes_lt(
                self.entries[i].path.as_slice(),
                self.entries[k - 1].path.as_slice(),
            )
                invariant
                    0 <= k <= i < self.entries@.len(),
                    whole == views(self.entries@),
                    front.len() == i,
                    e == whole[i as int],
                    forall|j: int| 0 <= j < i ==> whole[j] == front[j],
                    forall|j: int| k <= j < i ==> lex_lt(e.path, (#[trigger] front[j]).path),
                decreases k,
            {
                assert(whole[k - 1] == self.entries@[k - 1]@);
                k -= 1;
            }
            proof {
                if k > 0 {
                    assert(whole[k - 1] == self.entries@[k - 1]@);
                }
                lemma_placed_at(front, e, k as int);
            }
            let ghost rest = all.subrange(i as int, all.len() as int);
            let ghost goal = front.insert(k as int, e) + all.subrange(i + 1, all.len() as int);
            assert(whole =~= front + rest);
            if k < i {
                let one = self.entries.remove(i);
                let ghost shorter = views(self.entries@);
                assert(shorter =~= whole.remove(i as int));
                self.entries.insert(k, one);
                assert(views(self.entries@) =~= shorter.insert(k as int, e));
                assert(views(self.entries@) =~= goal);
            } else {
                assert(views(self.entries@) =~= goal);
            }
            i += 1;
        }
        assert(all.subrange(0, i as int) =~= all);
        assert(sorted(all) + all.subrange(i as int, all.len() as int) =~= sorted(all));
    }

    /// Removes every entry of a path.
    pub fn remove_entry(&mut self, path: &[u8])
        ensures
            final(self)@ == (IndexModel {
                entries: without_path(old(self)@.entries, path@),
                ..old(self)@
            }),
    {
        let ghost all = self@.entries;
        let mut i: usize = self.entries.len();
        assert(all.subrange(0, all.len() as int) =~= all);
        let ghost mut kept: Seq<EntryModel> = Seq::empty();
        assert(without_path(all, path@) + kept =~= without_path(all, path@));
        while i > 0
            invariant
                0 <= i <= self.entries@.len(),
                i <= all.len(),
                self.version == old(self)@.version,
                all == old(self)@.entries,
                views(self.entries@) == all.subrange(0, i as int) + kept,
                without_path(all, path@) == without_path(all.subrange(0, i as int), path@) + kept,
            decreases i,
        {
            let ghost before = views(self.entries@);
            proof {
                assert(before[i - 1] == all[i - 1]);
                assert(before[i - 1] == self.entries@[i - 1]@);
                assert(all.subrange(0, i as int).drop_last() =~= all.subrange(0, i - 1));
            }
            if same_bytes(self.entries[i - 1].path.as_slice(), path) {
                self.entries.remove(i - 1);
                assert(views(self.entries@) =~= before.remove(i - 1));
                assert(views(self.entries@) =~= all.subrange(0, i - 1) + kept);
            } else {
                proof {
                    let f = without_path(all.subrange(0, i - 1), path@);
                    assert(f.push(all[i - 1]) + kept =~= f + (seq![all[i - 1]] + kept));
                    kept = seq![all[i - 1]] + kept;
                    assert(views(self.entries@) =~= all.subrange(0, i - 1) + kept);
                }
            }
            i -= 1;
        }
        assert(all.subrange(0, 0) =~= Seq::empty());
        assert(all.subrange(0, 0) + kept =~= kept);
        assert(without_path(all.subrange(0, 0), path@) + kept =~= kept);
    }

    /// The entry of a path, but for those that belong to a conflict.
    pub fn get_entry(&self, path: &[u8]) -> (r: Option<&Entry>)
        ensures
            crate::text::opt_view(r) == staged_entry(self@.entries, path@),
    {
        let ghost all = self@.entries;
        assert(all.subrange(0, all.len() as int) =~= all);
        let mut i: usize = 0;
        while i < self.entries.len()
            invariant
                0 <= i <= self.entries@.len(),
                all == views(self.entries@),
                staged_entry(all, path@) == staged_entry(
                    all.subrange(i as int, all.len() as int),
                    path@,
                ),
            decreases self.entries@.len() - i,
        {
            proof {
                let t = all.subrange(i as int, all.len() as int);
                assert(t[0] == self.entries@[i as int]@);
                assert(t.drop_first() =~= all.subrange(i + 1, all.len() as int));
            }
            if self.entries[i].merge_stage == 0 && same_bytes(
                self.entries[i].path.as_slice(),
                path,
            ) {
                return Some(&self.entries[i]);
            }
            i += 1;
        }
        None
    }

    /// Whether a path has entries that belong to a conflict.
    pub fn has_conflict_entries(&self, path: &[u8]) -> (r: bool)
        ensures
            r == conflicted(self@.entries, path@),
    {
        let ghost all = self@.entries;
        let mut i: usize = 0;
        while i < self.entries.len()
            invariant
                0 <= i <= self.entries@.len(),
                all == views(self.entries@),
                forall|k: int|
                    0 <= k < i ==> (#[trigger] all[k]).path != path@ || all[k].merge_stage == 0,
            decreases self.entries@.len() - i,
        {
            assert(all[i as int] == self.entries@[i as int]@);
            if self.entries[i].merge_stage != 0 && same_bytes(
                self.entries[i].path.as_slice(),
                path,
            ) {
                return true;
            }
            i += 1;
        }
        false
    }

    /// Adds an entry at the end.
    fn push(&mut self, e: Entry)
        ensures
            final(self)@ == (IndexModel { entries: old(self)@.entries.push(e@), ..old(self)@ }),
    {
        let ghost before = self.entries@;
        self.entries.push(e);
        proof {
            lemma_views_push(before, e);
        }
    }
}

/// Puts the sides of a conflict in the place of all entries of a path.
pub fn insert_conflict_entries(
    index: &mut IndexFile,
    path: &[u8],
    base: Option<(FileMode, ObjectSha)>,
    ours: Option<(FileMode, ObjectSha)>,
    theirs: Option<(FileMode, ObjectSha)>,
)
    requires
        path@.len() <= u16::MAX,
    ensures
        final(index)@ == (IndexModel {
            entries: sorted(
                without_path(old(index)@.entries, path@) + conflict_entries(
                    path@,
                    base,
                    ours,
                    theirs,
                ),
            ),
            ..old(index)@
        }),
{
    index.remove_entry(path);
    let ghost kept = index@.entries;
    let ghost mut added: Seq<EntryModel> = Seq::empty();
    assert(kept + added =~= kept);
    if let Some(side) = base {
        index.push(side_entry(path, side, 1));
        proof {
            added = added.push(conflict_entry(path@, side, 1));
            assert(index@.entries =~= kept + added);
        }
    }
    if let Some(side) = ours {
        index.push(side_entry(path, side, 2));
        proof {
            added = added.push(conflict_entry(path@, side, 2));
            assert(index@.entries =~= kept + added);
        }
    }
    if let Some(side) = theirs {
        index.push(side_entry(path, side, 3));
        proof {
            added = added.push(conflict_entry(path@, side, 3));
            assert(index@.entries =~= kept + added);
        }
    }
    assert(added =~= conflict_entries(path@, base, ours, theirs));
    index.sort();
}

fn side_entry(path: &[u8], side: (FileMode, ObjectSha), stage: u8) -> (r: Entry)
    requires
        path@.len() <= u16::MAX,
    ensures
        r@ == conflict_entry(path@, side, stage),
{
    Entry {
        ctime_sec: 0,
        ctime_nsec: 0,
        mtime_sec: 0,
        mtime_nsec: 0,
        dev: 0,
        ino: 0,
        file_mode: side.0,
        uid: 0,
        gid: 0,
        file_size: 0,
        obj_name: side.1,
        assume_valid: false,
        extended: false,
        merge_stage: stage,
        name_length: path.len() as u16,
        path: copy_bytes(path),
    }
}

/// Why a path cannot be that of an entry.
pub open spec fn path_fault(path: Seq<u8>) -> Option<IndexError> {
    if path.len() == 0 {
        Some(IndexError::EmptyPath)
    } else if path.contains(0) {
        Some(IndexError::PathHasNul)
    } else if path.len() > 0xfff {
        Some(IndexError::PathTooLong)
    } else {
        None
    }
}

fn validate_index_entry_path_bytes(path: &[u8]) -> (r: Result<(), IndexError>)
    ensures
        r == (match path_fault(path@) {
            Some(e) => Err::<(), IndexError>(e),
            None => Ok(()),
        }),
{
    if path.len() == 0 {
        return Err(IndexError::EmptyPath);
    }
    let nul: usize = find_byte(path, 0, 0);
    if nul < path.len() {
        assert(path@[nul as int] == 0);
        return Err(IndexError::PathHasNul);
    }
    if path.len() > 0xfff {
        return Err(IndexError::PathTooLong);
    }
    Ok(())
}

/// Whether the times of a file fit an entry.
pub open spec fn times_fit(s: FileStat) -> bool {
    &&& 0 <= s.ctime_sec <= u32::MAX
    &&& 0 <= s.ctime_nsec <= u32::MAX
    &&& 0 <= s.mtime_sec <= u32::MAX
    &&& 0 <= s.mtime_nsec <= u32::MAX
}

/// The entry for a file that is staged.
pub open spec fn entry_of_file(s: FileStat, path: Seq<u8>, oid: ObjectSha) -> EntryModel {
    EntryModel {
        ctime_sec: s.ctime_sec as u32,
        ctime_nsec: s.ctime_nsec as u32,
        mtime_sec: s.mtime_sec as u32,
        mtime_nsec: s.mtime_nsec as u32,
        dev: s.dev as u32,
        ino: s.ino as u32,
        file_mode: mode_of_stat(s)->0,
        uid: s.uid,
        gid: s.gid,
        file_size: s.size as u32,
        obj_name: oid,
        assume_valid: false,
        extended: false,
        merge_stage: 0,
        name_length: path.len() as u16,
        path,
    }
}

/// The entries after a file is staged, in place of any that its path had.
pub open spec fn with_file(entries: Seq<EntryModel>, s: FileStat, path: Seq<u8>, oid: ObjectSha) -> Seq<
    EntryModel,
> {
    sorted(without_path(entries, path).push(entry_of_file(s, path, oid)))
}

/// What keeps a file from being staged.
pub open spec fn add_fault(s: FileStat, path: Seq<u8>, oid: ObjectSha) -> Option<IndexError> {
    if !(oid is SHA1) {
        Some(IndexError::NotSha1)
    } else if s.size > u32::MAX {
        Some(IndexError::SizeTooLarge)
    } else {
        path_fault(path)
    }
}

/// Stages a file: puts its entry in the place of any that its path had.
pub fn add_index(index: &mut IndexFile, stat: &FileStat, path: Vec<u8>, oid: ObjectSha) -> (r: Result<
    (),
    IndexError,
>)
    requires
        times_fit(*stat),
        mode_of_stat(*stat) is Some,
    ensures
        (match add_fault(*stat, path@, oid) {
            Some(e) => r == Err::<(), IndexError>(e) && final(index)@ == old(index)@,
            None => r is Ok && final(index)@ == (IndexModel {
                entries: with_file(old(index)@.entries, *stat, path@, oid),
                ..old(index)@
            }),
        }),
{
    match oid {
        ObjectSha::SHA1(_) => {},
        ObjectSha::SHA256(_) => return Err(IndexError::NotSha1),
    }
    if stat.size > u32::MAX as u64 {
        return Err(IndexError::SizeTooLarge);
    }
    match validate_index_entry_path_bytes(path.as_slice()) {
        Ok(_) => {},
        Err(e) => return Err(e),
    }
    let file_mode = match FileMode::from_metadata(stat) {
        Some(m) => m,
        None => FileMode::NExecRegularFile,
    };
    index.remove_entry(path.as_slice());
    let entry = Entry {
        ctime_sec: stat.ctime_sec as u32,
        ctime_nsec: stat.ctime_nsec as u32,
        mtime_sec: stat.mtime_sec as u32,
        mtime_nsec: stat.mtime_nsec as u32,
        dev: stat.dev as u32,
        ino: stat.ino as u32,
        file_mode,
        uid: stat.uid,
        gid: stat.gid,
        file_size: stat.size as u32,
        obj_name: oid,
        assume_valid: false,
        extended: false,
        merge_stage: 0,
        name_length: path.len() as u16,
        path,
    };
    index.push(entry);
    index.sort();
    Ok(())
}

/// Text with slashes in place of backslashes.
pub open spec fn forward_slashes(s: Seq<char>) -> Seq<char> {
    s.map_values(
        |c: char|
            if c == '\\' {
                '/'
            } else {
                c
            },
    )
}

/// `s` without the slashes at its start.
pub open spec fn without_leading_slashes(s: Seq<char>) -> Seq<char>
    decreases s.len(),
{
    if s.len() > 0 && s[0] == '/' {
        without_leading_slashes(s.drop_first())
    } else {
        s
    }
}

/// The text with its backslashes turned into slashes.
pub fn with_forward_slashes(cs: &[char]) -> (r: Vec<char>)
    ensures
        r@ == forward_slashes(cs@),
{
    let mut out: Vec<char> = Vec::new();
    let ghost goal = forward_slashes(cs@);
    let mut i: usize = 0;
    while i < cs.len()
        invariant
            0 <= i <= cs@.len(),
            goal == forward_slashes(cs@),
            out@ == goal.subrange(0, i as int),
        decreases cs@.len() - i,
    {
        out.push(
            if cs[i] == '\\' {
                '/'
            } else {
                cs[i]
            },
        );
        i += 1;
        assert(out@ =~= goal.subrange(0, i as int));
    }
    assert(out@ =~= goal);
    out
}

/// A path as a reference names it, as text: slashes between the names and none at the start.
pub open spec fn ref_path_text(path: Seq<u8>) -> Seq<char> {
    without_leading_slashes(forward_slashes(lossy_text(path)))
}

/// A path as a reference names it, as text.
pub fn normalized_text(path: &[u8]) -> (r: String)
    ensures
        r@ == ref_path_text(path@),
{
    let cs = chars_of(utf8_lossy(path).as_str());
    let out = with_forward_slashes(cs.as_slice());
    let ghost goal = out@;
    let mut k: usize = 0;
    assert(out@.subrange(0, out@.len() as int) =~= out@);
    while k < out.len() && out[k] == '/'
        invariant
            0 <= k <= out@.len(),
            without_leading_slashes(goal) == without_leading_slashes(
                out@.subrange(k as int, out@.len() as int),
            ),
        decreases out@.len() - k,
    {
        assert(out@.subrange(k as int, out@.len() as int).drop_first() =~= out@.subrange(
            k + 1,
            out@.len() as int,
        ));
        k += 1;
    }
    string_of(slice_subrange(out.as_slice(), k, out.len()))
}

/// Bytes with slashes in place of backslashes.
pub open spec fn slashed(s: Seq<u8>) -> Seq<u8> {
    s.map_values(
        |b: u8|
            if b == 0x5c {
                0x2f
            } else {
                b
            },
    )
}

/// Bytes without the slashes at their start.
pub open spec fn unrooted(s: Seq<u8>) -> Seq<u8>
    decreases s.len(),
{
    if s.len() > 0 && s[0] == 0x2f {
        unrooted(s.drop_first())
    } else {
        s
    }
}

/// A path in the form that the index uses, if it can be that of an entry: slashes between the names
/// and none at the start. The names keep their bytes, which need not be text.
pub open spec fn index_form(path: Seq<u8>) -> Result<Seq<u8>, IndexError> {
    let bytes = unrooted(slashed(path));
    match path_fault(bytes) {
        Some(e) => Err(e),
        None => Ok(bytes),
    }
}

/// A path in the form that the index uses, if it can be that of an entry.
pub fn normalize_entry_path_bytes(path: &[u8]) -> (r: Result<Vec<u8>, IndexError>)
    ensures
        res_view(r) == index_form(path@),
{
    let ghost goal = slashed(path@);
    let mut k: usize = 0;
    assert(goal.subrange(0, goal.len() as int) =~= goal);
    while k < path.len() && (path[k] == 0x2f || path[k] == 0x5c)
        invariant
            0 <= k <= path@.len(),
            goal == slashed(path@),
            unrooted(goal) == unrooted(goal.subrange(k as int, goal.len() as int)),
        decreases path@.len() - k,
    {
        assert(goal.subrange(k as int, goal.len() as int).drop_first() =~= goal.subrange(
            k + 1,
            goal.len() as int,
        ));
        k += 1;
    }
    let ghost rest = goal.subrange(k as int, goal.len() as int);
    let mut bytes: Vec<u8> = Vec::new();
    let mut i: usize = k;
    assert(bytes@ =~= rest.subrange(0, 0));
    while i < path.len()
        invariant
            k <= i <= path@.len(),
            goal == slashed(path@),
            rest == goal.subrange(k as int, goal.len() as int),
            bytes@ == rest.subrange(0, i - k),
        decreases path@.len() - i,
    {
        bytes.push(
            if path[i] == 0x5c {
                0x2f
            } else {
                path[i]
            },
        );
        i += 1;
        assert(bytes@ =~= rest.subrange(0, i - k));
    }
    assert(bytes@ =~= rest);
    match validate_index_entry_path_bytes(bytes.as_slice()) {
        Ok(_) => Ok(bytes),
        Err(e) => Err(e),
    }
}

/// The path by which the index knows a file of the working directory.
pub fn index_path_bytes(repo_root: &[u8], file_path: &[u8]) -> (r: Result<Vec<u8>, IndexError>)
    ensures
        res_view(r) == (match relative_to(repo_root@, file_path@) {
            None => Err(IndexError::NotUnderRoot),
            Some(rel) => index_form(rel),
        }),
{
    match strip_root(repo_root, file_path) {
        None => Err(IndexError::NotUnderRoot),
        Some(rel) => normalize_entry_path_bytes(rel),
    }
}

/// After a file is staged its path has exactly that one entry, and the entries are in order.
pub proof fn law_staged_once(entries: Seq<EntryModel>, s: FileStat, path: Seq<u8>, oid: ObjectSha)
    ensures
        in_path_order(with_file(entries, s, path, oid)),
        forall|e: EntryModel| #[trigger]
            with_file(entries, s, path, oid).to_multiset().count(e) == (if e.path == path {
                if e == entry_of_file(s, path, oid) {
                    1nat
                } else {
                    0
                }
            } else {
                entries.to_multiset().count(e)
            }),
{
    broadcast use vstd::seq_lib::group_to_multiset_ensures;

    let kept = without_path(entries, path);
    let new = entry_of_file(s, path, oid);
    law_sorted(kept.push(new));
    lemma_without_path(entries, path);
    assert forall|e: EntryModel| #[trigger]
        with_file(entries, s, path, oid).to_multiset().count(e) == (if e.path == path {
            if e == new {
                1nat
            } else {
                0
            }
        } else {
            entries.to_multiset().count(e)
        }) by {
        assert(kept.push(new).to_multiset() =~= kept.to_multiset().insert(new));
    }
}

/// A file to stage: what the file system says of it, its path, and the id of its content.
pub struct AddModel {
    pub stat: FileStat,
    pub path: Seq<u8>,
    pub oid: ObjectSha,
}

/// The entries of an index without any after files are staged in turn. One that cannot be staged
/// changes nothing.
pub open spec fn after_adds(calls: Seq<AddModel>) -> Seq<EntryModel>
    decreases calls.len(),
{
    if calls.len() == 0 {
        Seq::empty()
    } else {
        let before = after_adds(calls.drop_last());
        let c = calls.last();
        match add_fault(c.stat, c.path, c.oid) {
            Some(_) => before,
            None => with_file(before, c.stat, c.path, c.oid),
        }
    }
}

/// The entry that was staged last for a path, if any was.
pub open spec fn last_added(calls: Seq<AddModel>, path: Seq<u8>) -> Option<EntryModel>
    decreases calls.len(),
{
    if calls.len() == 0 {
        None
    } else {
        let c = calls.last();
        if c.path == path && add_fault(c.stat, c.path, c.oid) is None {
            Some(entry_of_file(c.stat, path, c.oid))
        } else {
            last_added(calls.drop_last(), path)
        }
    }
}

proof fn lemma_adds(calls: Seq<AddModel>)
    ensures
        in_path_order(after_adds(calls)),
        forall|e: EntryModel| #[trigger]
            after_adds(calls).to_multiset().count(e) == (if last_added(calls, e.path) == Some(e) {
                1nat
            } else {
                0
            }),
    decreases calls.len(),
{
    broadcast use vstd::seq_lib::group_to_multiset_ensures;

    if calls.len() == 0 {
        assert(after_adds(calls) =~= Seq::empty());
        assert(Seq::<EntryModel>::empty().to_multiset() =~= vstd::multiset::Multiset::empty());
    } else {
        let before = after_adds(calls.drop_last());
        let c = calls.last();
        lemma_adds(calls.drop_last());
        if add_fault(c.stat, c.path, c.oid) is None {
            law_staged_once(before, c.stat, c.path, c.oid);
            assert forall|e: EntryModel| #[trigger]
                after_adds(calls).to_multiset().count(e) == (if last_added(calls, e.path) == Some(
                    e,
                ) {
                    1nat
                } else {
                    0
                }) by {
                assert(before.to_multiset().count(e) == (if last_added(
                    calls.drop_last(),
                    e.path,
                ) == Some(e) {
                    1nat
                } else {
                    0
                }));
            }
        }
    }
}

/// After files were staged in any turn, the paths of the entries ascend, so that none is there
/// twice, and the entries are those that were staged last for each path.
pub proof fn law_adds(calls: Seq<AddModel>)
    ensures
        forall|i: int, j: int|
            0 <= i < j < after_adds(calls).len() ==> lex_lt(
                (#[trigger] after_adds(calls)[i]).path,
                (#[trigger] after_adds(calls)[j]).path,
            ),
        forall|e: EntryModel| #[trigger]
            after_adds(calls).contains(e) <==> last_added(calls, e.path) == Some(e),
{
    broadcast use vstd::seq_lib::group_to_multiset_ensures;

    let es = after_adds(calls);
    lemma_adds(calls);
    es.to_multiset_ensures();
    es.lemma_multiset_has_no_duplicates_conv();
    assert forall|e: EntryModel| #[trigger] es.contains(e) <==> last_added(calls, e.path) == Some(
        e,
    ) by {
        assert(es.contains(e) <==> es.to_multiset().count(e) > 0);
    }
    assert forall|i: int, j: int| 0 <= i < j < es.len() implies lex_lt(
        (#[trigger] es[i]).path,
        (#[trigger] es[j]).path,
    ) by {
        assert(es.contains(es[i]) && es.contains(es[j]));
        if es[i].path == es[j].path {
            assert(es[i] == es[j]);
        }
        lemma_lex_total(es[i].path, es[j].path);
        assert(!lex_lt(es[j].path, es[i].path));
    }
}

/// Removing a path removes its entries and no others.
proof fn lemma_without_path(s: Seq<EntryModel>, path: Seq<u8>)
    ensures
        forall|e: EntryModel| #[trigger]
            without_path(s, path).to_multiset().count(e) == (if e.path == path {
                0
            } else {
                s.to_multiset().count(e)
            }),
    decreases s.len(),
{
    broadcast use vstd::seq_lib::group_to_multiset_ensures;

    if s.len() > 0 {
        let t = s.drop_last();
        lemma_without_path(t, path);
        assert(t.push(s.last()) =~= s);
        assert forall|e: EntryModel| #[trigger]
            without_path(s, path).to_multiset().count(e) == (if e.path == path {
                0
            } else {
                s.to_multiset().count(e)
            }) by {
            assert(without_path(t, path).to_multiset().count(e) == (if e.path == path {
                0
            } else {
                t.to_multiset().count(e)
            }));
            assert(s.to_multiset() =~= t.to_multiset().insert(s.last()));
        }
    }
}

} // verus!
