//! Fetching: where the references of a remote are remembered, and what is told of it.
use crate::bytes::{ends_with, starts_with};
use crate::clone_plan::write_loose_object;
use crate::get_packfile_by_network::{RefAdvertisement, RefModel};
use crate::outside::zlib_deflated;
use crate::parse_packfile::PackedObject;
use crate::pull::tracking_path;
use crate::reference::{read_sha1, sha1_in};
use crate::text::{
    chars_are, chars_end_with, chars_of, chars_start_with, lemma_views_push, string_of, trim,
    trimmed, views,
};
use vstd::prelude::*;
use vstd::slice::slice_subrange;
use vstd::utf8::encode_utf8;

verus! {

/// A reference that was updated: its name at the remote, the file that remembers it, and its id.
#[derive(Debug)]
pub struct FetchedRef {
    pub remote_name: String,
    pub local_name: String,
    pub sha: String,
}

/// The model of a [`FetchedRef`].
#[verifier::ext_equal]
pub struct FetchedModel {
    pub remote_name: Seq<char>,
    pub local_name: Seq<char>,
    pub sha: Seq<char>,
}

impl View for FetchedRef {
    type V = FetchedModel;

    open spec fn view(&self) -> FetchedModel {
        FetchedModel {
            remote_name: self.remote_name@,
            local_name: self.local_name@,
            sha: self.sha@,
        }
    }
}

/// Where a reference of a remote is remembered, and how it is described: branches as those of the
/// remote, tags as they are, and nothing else.
pub open spec fn remembered(remote: Seq<char>, name: Seq<char>) -> Option<(Seq<char>, Seq<char>)> {
    if name == "HEAD"@ || ends_with(name, "^{}"@) {
        None
    } else if starts_with(name, "refs/heads/"@) {
        let branch = name.subrange(11, name.len() as int);
        Some((tracking_path(remote, branch), "branch '"@ + branch + "'"@))
    } else if starts_with(name, "refs/tags/"@) {
        let tag = name.subrange(10, name.len() as int);
        Some((name, "tag '"@ + tag + "'"@))
    } else {
        None
    }
}

/// What a fetch writes down.
#[verifier::ext_equal]
pub struct FetchRecord {
    pub refs: Seq<FetchedModel>,
    pub fetch_head: Seq<char>,
}

/// What a fetch writes down about some references.
pub open spec fn recorded_refs(remote: Seq<char>, url: Seq<char>, refs: Seq<RefModel>) -> FetchRecord
    decreases refs.len(),
{
    if refs.len() == 0 {
        FetchRecord { refs: Seq::empty(), fetch_head: Seq::empty() }
    } else {
        let before = recorded_refs(remote, url, refs.drop_last());
        let r = refs.last();
        match remembered(remote, r.name) {
            None => before,
            Some((local, desc)) => FetchRecord {
                refs: before.refs.push(
                    FetchedModel { remote_name: r.name, local_name: local, sha: r.sha },
                ),
                fetch_head: before.fetch_head + (r.sha + "\t\t"@ + desc + " of "@ + url + "\n"@),
            },
        }
    }
}

fn remember(remote: &str, name: &[char]) -> (r: Option<(String, String)>)
    ensures
        (match r {
            Some((local, desc)) => remembered(remote@, name@) == Some((local@, desc@)),
            None => remembered(remote@, name@) is None,
        }),
{
    if chars_are(name, "HEAD") || chars_end_with(name, "^{}") {
        return None;
    }
    proof {
        reveal_strlit("refs/heads/");
        reveal_strlit("refs/tags/");
    }
    if chars_start_with(name, "refs/heads/") {
        let branch = string_of(slice_subrange(name, 11, name.len()));
        let mut desc = string_of(chars_of("branch '").as_slice());
        desc.append(branch.as_str());
        desc.append("'");
        Some((crate::pull::tracking_ref(remote, branch.as_str()), desc))
    } else if chars_start_with(name, "refs/tags/") {
        let tag = string_of(slice_subrange(name, 10, name.len()));
        let mut desc = string_of(chars_of("tag '").as_slice());
        desc.append(tag.as_str());
        desc.append("'");
        Some((string_of(name), desc))
    } else {
        None
    }
}

/// What a fetch writes: the references, whose files each hold the id, and the `FETCH_HEAD` file.
pub fn write_fetched_refs(remote: &str, url: &str, adv: &RefAdvertisement) -> (r: (
    Vec<FetchedRef>,
    String,
))
    ensures
        views(r.0@) == recorded_refs(remote@, url@, adv@.refs).refs,
        r.1@ == recorded_refs(remote@, url@, adv@.refs).fetch_head,
{
    let ghost all = adv@.refs;
    let mut fetched: Vec<FetchedRef> = Vec::new();
    let mut fetch_head = String::new();
    let mut i: usize = 0;
    assert(all.subrange(0, 0) =~= Seq::empty());
    assert(views(fetched@) =~= Seq::empty());
    assert(fetch_head@ =~= Seq::empty());
    while i < adv.refs.len()
        invariant
            0 <= i <= adv.refs@.len(),
            all == views(adv.refs@),
            views(fetched@) == recorded_refs(remote@, url@, all.subrange(0, i as int)).refs,
            fetch_head@ == recorded_refs(remote@, url@, all.subrange(0, i as int)).fetch_head,
        decreases adv.refs@.len() - i,
    {
        proof {
            let upto = all.subrange(0, i + 1);
            assert(upto.drop_last() =~= all.subrange(0, i as int));
            assert(upto.last() == adv.refs@[i as int]@);
        }
        let r = &adv.refs[i];
        let name = chars_of(r.name.as_str());
        if let Some((local, desc)) = remember(remote, name.as_slice()) {
            let mut line = string_of(chars_of(r.sha.as_str()).as_slice());
            line.append("\t\t");
            line.append(desc.as_str());
            line.append(" of ");
            line.append(url);
            line.append("\n");
            fetch_head.append(line.as_str());
            let f = FetchedRef {
                remote_name: string_of(name.as_slice()),
                local_name: local,
                sha: string_of(chars_of(r.sha.as_str()).as_slice()),
            };
            proof {
                lemma_views_push(fetched@, f);
            }
            fetched.push(f);
        }
        i += 1;
    }
    assert(all.subrange(0, i as int) =~= all);
    (fetched, fetch_head)
}

/// What a fetch stores: the objects, each with its id and the file that stores it, the references,
/// and the `FETCH_HEAD` file.
pub struct FetchPlan {
    pub objects: Vec<([u8; 20], Vec<u8>)>,
    pub refs: Vec<FetchedRef>,
    pub fetch_head: String,
}

/// Plans what a fetch stores. `HEAD`, the local branches and the working directory are not among
/// it.
pub fn fetch_to_disk(remote: &str, url: &str, objects: &Vec<PackedObject>, adv: &RefAdvertisement) -> (r:
    FetchPlan)
    ensures
        r.objects@.len() == objects@.len(),
        forall|i: int|
            0 <= i < objects@.len() ==> (#[trigger] r.objects@[i]).0 == objects@[i].sha
                && r.objects@[i].1@ == zlib_deflated(
                crate::object::framed(
                    crate::parse_packfile::kind_name(objects@[i].kind),
                    objects@[i].data@,
                ),
            ),
        views(r.refs@) == recorded_refs(remote@, url@, adv@.refs).refs,
        r.fetch_head@ == recorded_refs(remote@, url@, adv@.refs).fetch_head,
{
    let mut files: Vec<([u8; 20], Vec<u8>)> = Vec::new();
    let mut i: usize = 0;
    while i < objects.len()
        invariant
            0 <= i <= objects@.len(),
            files@.len() == i,
            forall|k: int|
                0 <= k < i ==> (#[trigger] files@[k]).0 == objects@[k].sha && files@[k].1@
                    == zlib_deflated(
                    crate::object::framed(
                        crate::parse_packfile::kind_name(objects@[k].kind),
                        objects@[k].data@,
                    ),
                ),
        decreases objects@.len() - i,
    {
        files.push((objects[i].sha, write_loose_object(&objects[i])));
        i += 1;
    }
    let (refs, fetch_head) = write_fetched_refs(remote, url, adv);
    FetchPlan { objects: files, refs, fetch_head }
}

/// Whether a text is an object id of 40 hexadecimal digits.
pub fn is_hex40(s: &[char]) -> (r: bool)
    ensures
        r == sha1_in(s@) is Some,
{
    read_sha1(s).is_some()
}

/// The ids that some reference files hold, each once, in the order in which they are met.
pub open spec fn ids_in(contents: Seq<Seq<char>>) -> Seq<Seq<char>>
    decreases contents.len(),
{
    if contents.len() == 0 {
        Seq::empty()
    } else {
        let before = ids_in(contents.drop_last());
        let s = trim(contents.last());
        if sha1_in(s) is Some && !before.contains(s) {
            before.push(s)
        } else {
            before
        }
    }
}

/// What the repository has: the ids that its reference files and `HEAD` hold. `contents` are the
/// contents of those files.
pub fn collect_local_haves(contents: &Vec<String>) -> (r: Vec<String>)
    ensures
        views(r@) == ids_in(views(contents@)),
{
    let ghost all = views(contents@);
    let mut out: Vec<String> = Vec::new();
    let mut i: usize = 0;
    assert(all.subrange(0, 0) =~= Seq::empty());
    assert(views(out@) =~= Seq::empty());
    while i < contents.len()
        invariant
            0 <= i <= contents@.len(),
            all == views(contents@),
            views(out@) == ids_in(all.subrange(0, i as int)),
        decreases contents@.len() - i,
    {
        proof {
            let upto = all.subrange(0, i + 1);
            assert(upto.drop_last() =~= all.subrange(0, i as int));
            assert(upto.last() == contents@[i as int]@);
        }
        let cs = chars_of(contents[i].as_str());
        let s = trimmed(cs.as_slice());
        if is_hex40(s) {
            let t = string_of(s);
            if !crate::get_packfile_by_network::contains_text(&out, t.as_str()) {
                proof {
                    lemma_views_push(out@, t);
                }
                out.push(t);
            }
        }
        i += 1;
    }
    assert(all.subrange(0, i as int) =~= all);
    out
}

/// As much of the beginning of a text as takes up at most seven bytes.
pub open spec fn short(s: Seq<char>) -> Seq<char>
    decreases s.len(),
{
    if encode_utf8(s).len() <= 7 || s.len() == 0 {
        s
    } else {
        short(s.drop_last())
    }
}

/// A text takes up at least as many bytes as it has characters.
proof fn lemma_encode_longer(s: Seq<char>)
    ensures
        s.len() <= encode_utf8(s).len(),
    decreases s.len(),
{
    if s.len() > 0 {
        lemma_encode_longer(s.drop_first());
    }
}

proof fn lemma_short_of_long(s: Seq<char>, n: int)
    requires
        7 <= n <= s.len(),
    ensures
        short(s) == short(s.subrange(0, n)),
    decreases s.len(),
{
    if n == s.len() {
        assert(s.subrange(0, n) =~= s);
    } else {
        lemma_encode_longer(s);
        lemma_short_of_long(s.drop_last(), n);
        assert(s.drop_last().subrange(0, n) =~= s.subrange(0, n));
    }
}

/// As much of the beginning of a text as takes up at most seven bytes.
pub fn shortened(s: &str) -> (r: String)
    ensures
        r@ == short(s@),
{
    let cs = chars_of(s);
    let mut n: usize = cs.len();
    if n > 7 {
        n = 7;
        proof {
            lemma_short_of_long(cs@, 7);
        }
    } else {
        assert(cs@.subrange(0, n as int) =~= cs@);
    }
    loop
        invariant
            cs@ == s@,
            0 <= n <= cs@.len(),
            short(cs@) == short(cs@.subrange(0, n as int)),
        decreases n,
    {
        let front = string_of(slice_subrange(cs.as_slice(), 0, n));
        if n == 0 || front.as_str().as_bytes().len() <= 7 {
            return front;
        }
        n -= 1;
        assert(cs@.subrange(0, n + 1).drop_last() =~= cs@.subrange(0, n as int));
    }
}

/// How a fetched reference is told of.
pub open spec fn fetched_line(f: FetchedModel) -> Seq<char> {
    "   "@ + short(f.sha) + "  "@ + f.remote_name + " -> "@ + f.local_name
}

/// What a fetch tells.
pub fn fetch_summary(url: &str, refs: &Vec<FetchedRef>) -> (r: Vec<String>)
    ensures
        r@.len() == refs@.len() + 1,
        r@[0]@ == "From "@ + url@,
        forall|i: int| 0 <= i < refs@.len() ==> (#[trigger] r@[i + 1])@ == fetched_line(refs@[i]@),
{
    let mut out: Vec<String> = Vec::new();
    let mut head = string_of(chars_of("From ").as_slice());
    head.append(url);
    out.push(head);
    let mut i: usize = 0;
    while i < refs.len()
        invariant
            0 <= i <= refs@.len(),
            out@.len() == i + 1,
            out@[0]@ == "From "@ + url@,
            forall|k: int| 0 <= k < i ==> (#[trigger] out@[k + 1])@ == fetched_line(refs@[k]@),
        decreases refs@.len() - i,
    {
        let f = &refs[i];
        let mut line = string_of(chars_of("   ").as_slice());
        line.append(shortened(f.sha.as_str()).as_str());
        line.append("  ");
        line.append(f.remote_name.as_str());
        line.append(" -> ");
        line.append(f.local_name.as_str());
        out.push(line);
        i += 1;
    }
    out
}

/// A fetch writes only below `refs/remotes/` and `refs/tags/`, so that no local branch is touched.
pub proof fn law_fetch_keeps_branches(remote: Seq<char>, url: Seq<char>, refs: Seq<RefModel>)
    ensures
        forall|i: int|
            0 <= i < recorded_refs(remote, url, refs).refs.len() ==> {
                let local = (#[trigger] recorded_refs(remote, url, refs).refs[i]).local_name;
                starts_with(local, "refs/remotes/"@) || starts_with(local, "refs/tags/"@)
            },
    decreases refs.len(),
{
    if refs.len() > 0 {
        law_fetch_keeps_branches(remote, url, refs.drop_last());
        let before = recorded_refs(remote, url, refs.drop_last());
        let all = recorded_refs(remote, url, refs);
        let name = refs.last().name;
        if starts_with(name, "refs/heads/"@) {
            let branch = name.subrange(11, name.len() as int);
            let p = tracking_path(remote, branch);
            assert(p.subrange(0, "refs/remotes/"@.len() as int) =~= "refs/remotes/"@);
        }
        assert forall|i: int| 0 <= i < all.refs.len() implies {
            let local = (#[trigger] all.refs[i]).local_name;
            starts_with(local, "refs/remotes/"@) || starts_with(local, "refs/tags/"@)
        } by {
            if i < before.refs.len() {
                assert(all.refs[i] == before.refs[i]);
            }
        }
    }
}

} // verus!
