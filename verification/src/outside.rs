//! The calls into other crates: SHA-1 digests, zlib streams, and line diffs and merges.
use flate2::read::ZlibDecoder;
use flate2::write::ZlibEncoder;
use flate2::Compression;
use sha1::{Digest, Sha1};
use std::io::{Read, Write};
use vstd::prelude::*;

verus! {

/// The SHA-1 digest of `data`.
pub uninterp spec fn sha1_of(data: Seq<u8>) -> [u8; 20];

/// `sha1::Sha1::digest`: the digest is a function of the bytes alone.
#[verifier::external_body]
pub(crate) fn sha1_digest(data: &[u8]) -> (digest: [u8; 20])
    ensures
        digest == sha1_of(data@),
{
    Sha1::digest(data).into()
}

/// What the zlib stream that `input` starts with decompresses to, and how many bytes of `input`
/// the stream takes up; nothing if `input` starts with no complete valid stream.
pub uninterp spec fn zlib_inflated(input: Seq<u8>) -> Option<(Seq<u8>, nat)>;

/// `flate2::read::ZlibDecoder` read to its end, with its `total_in`: the content of the zlib
/// stream at the start of `input` and the number of bytes that the stream takes up, which is at
/// most the length of `input`.
#[verifier::external_body]
pub(crate) fn zlib_inflate(input: &[u8]) -> (r: Option<(Vec<u8>, usize)>)
    ensures
        (match r {
            Some((out, used)) => zlib_inflated(input@) == Some((out@, used as nat)) && used
                <= input@.len(),
            None => zlib_inflated(input@) is None,
        }),
{
    let mut decoder = ZlibDecoder::new(input);
    let mut out = Vec::new();
    match decoder.read_to_end(&mut out) {
        Ok(_) => Some((out, decoder.total_in() as usize)),
        Err(_) => None,
    }
}

/// The zlib stream that the default compression level makes of `content`.
pub uninterp spec fn zlib_deflated(content: Seq<u8>) -> Seq<u8>;

/// `flate2::write::ZlibEncoder` at the default level, into a byte vector: a stream that inflates
/// to `content`, whatever bytes follow it.
#[verifier::external_body]
pub(crate) fn zlib_deflate(content: &[u8]) -> (r: Vec<u8>)
    ensures
        r@ == zlib_deflated(content@),
        forall|rest: Seq<u8>|
            #[trigger] zlib_inflated(r@ + rest) == Some((content@, r@.len())),
{
    let mut encoder = ZlibEncoder::new(Vec::new(), Compression::default());
    encoder.write_all(content).unwrap();
    encoder.finish().unwrap()
}

/// What `diffy::create_patch` prints for the change from `old` to `new`.
pub uninterp spec fn patch_text(old_text: Seq<char>, new_text: Seq<char>) -> Seq<char>;

/// `diffy::create_patch`, in its `Display` form: a function of the two texts alone.
#[verifier::external_body]
pub(crate) fn create_patch(old_text: &str, new_text: &str) -> (r: String)
    ensures
        r@ == patch_text(old_text@, new_text@),
{
    format!("{}", diffy::create_patch(old_text, new_text))
}

/// What `diffy::merge` makes of three texts: the merged text, or the text with conflict markers.
pub uninterp spec fn merged_text(
    base: Seq<char>,
    ours: Seq<char>,
    theirs: Seq<char>,
) -> Result<Seq<char>, Seq<char>>;

/// `diffy::merge`: a function of the three texts alone.
#[verifier::external_body]
pub(crate) fn merge_text(base: &str, ours: &str, theirs: &str) -> (r: Result<String, String>)
    ensures
        (match r {
            Ok(s) => merged_text(base@, ours@, theirs@) == Ok::<Seq<char>, Seq<char>>(s@),
            Err(s) => merged_text(base@, ours@, theirs@) == Err::<Seq<char>, Seq<char>>(s@),
        }),
{
    diffy::merge(base, ours, theirs)
}

} // verus!
