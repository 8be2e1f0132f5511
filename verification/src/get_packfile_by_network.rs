//! Talking to a remote: reference advertisements, requests for objects, and their responses.
use crate::bytes::{
    append_bytes, bytes_start_with, copy_bytes, ends_with, find_byte, find_from, starts_with,
};
use crate::deal_pktlines::{
    fits, lemma_pkt_at, pkt_at, pkt_rest, pkts_bytes, read_pkt_line, write_pkt_line, PktError,
    PktLine, PktModel,
};
use crate::text::{
    both_view, chars_end_with, chars_of, chars_start_with, find_char, lemma_views_push, lossy_text,
    opt_view, same_text, split, split_chars, string_of, utf8_lossy, views,
};
use vstd::prelude::*;
use vstd::slice::slice_subrange;
use vstd::utf8::encode_utf8;

verus! {

/// A reference of the remote.
#[derive(PartialEq, Eq, Debug)]
pub struct Ref {
    /// The id that it points to, in hexadecimal.
    pub sha: String,
    /// The full name, such as `refs/heads/main` or `HEAD`.
    pub name: String,
}

/// The model of a [`Ref`].
#[verifier::ext_equal]
pub struct RefModel {
    pub sha: Seq<char>,
    pub name: Seq<char>,
}

impl View for Ref {
    type V = RefModel;

    open spec fn view(&self) -> RefModel {
        RefModel { sha: self.sha@, name: self.name@ }
    }
}

/// A full name without the part that says whether it is a branch or a tag.
pub open spec fn short_ref(name: Seq<char>) -> Seq<char> {
    if starts_with(name, "refs/heads/"@) {
        name.subrange(11, name.len() as int)
    } else if starts_with(name, "refs/tags/"@) {
        name.subrange(10, name.len() as int)
    } else {
        name
    }
}

impl Ref {
    /// The name without `refs/heads/` or `refs/tags/`.
    pub fn short_name(&self) -> (r: &str)
        ensures
            r@ == short_ref(self.name@),
    {
        proof {
            reveal_strlit("refs/heads/");
            reveal_strlit("refs/tags/");
        }
        let cs = chars_of(self.name.as_str());
        if chars_start_with(cs.as_slice(), "refs/heads/") {
            self.name.as_str().substring_char(11, cs.len())
        } else if chars_start_with(cs.as_slice(), "refs/tags/") {
            self.name.as_str().substring_char(10, cs.len())
        } else {
            self.name.as_str()
        }
    }
}

/// What a remote says of itself: its references, what it can do, and its default branch.
#[derive(Debug)]
pub struct RefAdvertisement {
    pub refs: Vec<Ref>,
    pub caps: Vec<String>,
    pub head_target: Option<String>,
}

/// The model of a [`RefAdvertisement`].
#[verifier::ext_equal]
pub struct AdvertModel {
    pub refs: Seq<RefModel>,
    pub caps: Seq<Seq<char>>,
    pub head_target: Option<Seq<char>>,
}

impl View for RefAdvertisement {
    type V = AdvertModel;

    open spec fn view(&self) -> AdvertModel {
        AdvertModel {
            refs: views(self.refs@),
            caps: views(self.caps@),
            head_target: opt_view(self.head_target),
        }
    }
}

/// Whether a capability is listed, by itself or with a value.
pub open spec fn lists_cap(caps: Seq<Seq<char>>, cap: Seq<char>) -> bool {
    exists|i: int|
        0 <= i < caps.len() && ((#[trigger] caps[i]) == cap || starts_with(
            caps[i],
            cap + seq!['='],
        ))
}

/// The id of the first reference with the given name.
pub open spec fn id_of_ref(refs: Seq<RefModel>, name: Seq<char>) -> Option<Seq<char>>
    decreases refs.len(),
{
    if refs.len() == 0 {
        None
    } else if refs[0].name == name {
        Some(refs[0].sha)
    } else {
        id_of_ref(refs.drop_first(), name)
    }
}

impl RefAdvertisement {
    /// Whether the remote lists a capability, by itself or with a value.
    pub fn has_cap(&self, cap: &str) -> (r: bool)
        ensures
            r == lists_cap(self@.caps, cap@),
    {
        let mut with_value = String::from_str(cap);
        with_value.push('=');
        assert(with_value@ =~= cap@ + seq!['=']);
        let mut i: usize = 0;
        while i < self.caps.len()
            invariant
                0 <= i <= self.caps@.len(),
                with_value@ == cap@ + seq!['='],
                forall|k: int|
                    0 <= k < i ==> (#[trigger] self@.caps[k]) != cap@ && !starts_with(
                        self@.caps[k],
                        cap@ + seq!['='],
                    ),
            decreases self.caps@.len() - i,
        {
            assert(self@.caps[i as int] == self.caps@[i as int]@);
            if same_text(self.caps[i].as_str(), cap) || chars_start_with(
                chars_of(self.caps[i].as_str()).as_slice(),
                with_value.as_str(),
            ) {
                return true;
            }
            i += 1;
        }
        false
    }

    /// The id of the reference with the given full name.
    pub fn sha_of(&self, name: &str) -> (r: Option<&str>)
        ensures
            opt_view(r) == id_of_ref(self@.refs, name@),
    {
        let mut i: usize = 0;
        let ghost all = self@.refs;
        assert(all.subrange(0, all.len() as int) =~= all);
        while i < self.refs.len()
            invariant
                0 <= i <= self.refs@.len(),
                all == views(self.refs@),
                id_of_ref(all, name@) == id_of_ref(all.subrange(i as int, all.len() as int), name@),
            decreases self.refs@.len() - i,
        {
            proof {
                let t = all.subrange(i as int, all.len() as int);
                assert(t[0] == self.refs@[i as int]@);
                assert(t.drop_first() =~= all.subrange(i + 1, all.len() as int));
            }
            if same_text(self.refs[i].name.as_str(), name) {
                return Some(self.refs[i].sha.as_str());
            }
            i += 1;
        }
        None
    }
}

/// Why a remote cannot be understood.
#[derive(PartialEq, Eq, Debug)]
pub enum NetError {
    /// A line that cannot be read or written.
    Pkt(PktError),
    /// A response that does not start by naming the service.
    NoServiceLine,
    /// No flush after the name of the service.
    NoFlush,
    /// A remote without anything to ask for.
    NothingToWant,
    /// The remote's own complaint.
    Remote(String),
    /// A response that holds no pack.
    NotAPack,
}

/// The model of a [`NetError`].
#[verifier::ext_equal]
pub enum NetErrorModel {
    Pkt(PktError),
    NoServiceLine,
    NoFlush,
    NothingToWant,
    Remote(Seq<char>),
    NotAPack,
}

impl View for NetError {
    type V = NetErrorModel;

    open spec fn view(&self) -> NetErrorModel {
        match self {
            NetError::Pkt(e) => NetErrorModel::Pkt(*e),
            NetError::NoServiceLine => NetErrorModel::NoServiceLine,
            NetError::NoFlush => NetErrorModel::NoFlush,
            NetError::NothingToWant => NetErrorModel::NothingToWant,
            NetError::Remote(s) => NetErrorModel::Remote(s@),
            NetError::NotAPack => NetErrorModel::NotAPack,
        }
    }
}

/// A run of lines: the payloads up to the first flush or the end of the input, whether a line
/// could not be read, and what is left.
#[verifier::ext_equal]
pub struct RunModel {
    pub payloads: Seq<Seq<u8>>,
    pub end: Result<(), PktError>,
    pub rest: Seq<u8>,
}

/// The run of lines at the start of the input.
pub open spec fn run_in(s: Seq<u8>) -> RunModel
    decreases s.len(),
    via run_in_shrink
{
    match pkt_at(s) {
        Err(e) => RunModel { payloads: Seq::empty(), end: Err(e), rest: pkt_rest(s) },
        Ok(None) => RunModel { payloads: Seq::empty(), end: Ok(()), rest: s },
        Ok(Some((PktModel::Flush, n))) => RunModel {
            payloads: Seq::empty(),
            end: Ok(()),
            rest: s.subrange(n, s.len() as int),
        },
        Ok(Some((PktModel::Delim, n))) => run_in(s.subrange(n, s.len() as int)),
        Ok(Some((PktModel::Data(p), n))) => {
            let r = run_in(s.subrange(n, s.len() as int));
            RunModel { payloads: seq![p] + r.payloads, ..r }
        },
    }
}

#[via_fn]
proof fn run_in_shrink(s: Seq<u8>) {
    lemma_pkt_at(s);
}

/// Reads the run of lines at the start of the input.
fn read_run(r: &mut &[u8]) -> (x: (Vec<Vec<u8>>, Result<(), PktError>))
    ensures
        run_in((*old(r))@) == (RunModel { payloads: views(x.0@), end: x.1, rest: (*final(r))@ }),
{
    let mut payloads: Vec<Vec<u8>> = Vec::new();
    let ghost all = run_in((*r)@);
    assert(all =~= put_before(views(payloads@), all)) by {
        assert(views(payloads@) + all.payloads =~= all.payloads);
    }
    loop
        invariant
            all == run_in((*old(r))@),
            all == put_before(views(payloads@), run_in((*r)@)),
        decreases (*r)@.len(),
    {
        proof {
            lemma_pkt_at((*r)@);
            assert(views(payloads@) + Seq::empty() =~= views(payloads@));
        }
        match read_pkt_line(r) {
            Err(e) => {
                return (payloads, Err(e));
            },
            Ok(None) => {
                return (payloads, Ok(()));
            },
            Ok(Some(PktLine::Flush)) => {
                return (payloads, Ok(()));
            },
            Ok(Some(PktLine::Delim)) => {},
            Ok(Some(PktLine::Data(p))) => {
                let ghost before = payloads@;
                payloads.push(p);
                proof {
                    lemma_views_push(before, p);
                    let t = run_in((*r)@).payloads;
                    assert(views(before) + (seq![p@] + t) =~= views(payloads@) + t);
                }
            },
        }
    }
}

spec fn put_before(front: Seq<Seq<u8>>, r: RunModel) -> RunModel {
    RunModel { payloads: front + r.payloads, ..r }
}

/// A payload without the line feed that may end it.
pub open spec fn without_lf(p: Seq<u8>) -> Seq<u8> {
    if p.len() > 0 && p.last() == 0x0a {
        p.drop_last()
    } else {
        p
    }
}

fn strip_lf(b: &[u8]) -> (r: &[u8])
    ensures
        r@ == without_lf(b@),
{
    if b.len() > 0 && b[b.len() - 1] == 0x0a {
        slice_subrange(b, 0, b.len() - 1)
    } else {
        b
    }
}

/// The part of a line that names a reference; the first line may have capabilities after a NUL.
pub open spec fn ref_part(payload: Seq<u8>, first: bool) -> Seq<u8> {
    let p = without_lf(payload);
    let i = find_from(p, 0, 0);
    if first && i < p.len() {
        p.subrange(0, i)
    } else {
        p
    }
}

/// The capabilities on the first line.
pub open spec fn caps_in(payload: Seq<u8>) -> Seq<Seq<char>> {
    let p = without_lf(payload);
    let i = find_from(p, 0, 0);
    if i < p.len() {
        non_empty(split(lossy_text(p.subrange(i + 1, p.len() as int)), ' '))
    } else {
        Seq::empty()
    }
}

/// The parts that are not empty.
pub open spec fn non_empty(parts: Seq<Seq<char>>) -> Seq<Seq<char>>
    decreases parts.len(),
{
    if parts.len() == 0 {
        Seq::empty()
    } else {
        let front = non_empty(parts.drop_last());
        if parts.last().len() > 0 {
            front.push(parts.last())
        } else {
            front
        }
    }
}

/// The reference that a line names: an id, a space, and a name.
pub open spec fn ref_in(part: Seq<u8>) -> RefModel {
    let t = lossy_text(part);
    let i = find_from(t, ' ', 0);
    if i < t.len() {
        RefModel { sha: t.subrange(0, i), name: t.subrange(i + 1, t.len() as int) }
    } else {
        RefModel { sha: t, name: Seq::empty() }
    }
}

/// Whether a line names a real reference, and not nothing or the placeholder of an empty
/// repository.
pub open spec fn real_ref(r: RefModel) -> bool {
    r.name.len() > 0 && r.name != "capabilities^{}"@
}

/// The references that the first `n` lines name.
pub open spec fn refs_in(payloads: Seq<Seq<u8>>, n: int) -> Seq<RefModel>
    decreases n,
{
    if n <= 0 {
        Seq::empty()
    } else {
        let front = refs_in(payloads, n - 1);
        let r = ref_in(ref_part(payloads[n - 1], n == 1));
        if real_ref(r) {
            front.push(r)
        } else {
            front
        }
    }
}

/// The default branch that the capabilities give.
pub open spec fn default_branch(caps: Seq<Seq<char>>) -> Option<Seq<char>>
    decreases caps.len(),
{
    if caps.len() == 0 {
        None
    } else if starts_with(caps[0], "symref=HEAD:"@) {
        Some(caps[0].subrange(12, caps[0].len() as int))
    } else {
        default_branch(caps.drop_first())
    }
}

/// What a run of lines advertises.
pub open spec fn advert_of(payloads: Seq<Seq<u8>>) -> AdvertModel {
    let caps = if payloads.len() > 0 {
        caps_in(payloads[0])
    } else {
        Seq::empty()
    };
    AdvertModel {
        refs: refs_in(payloads, payloads.len() as int),
        caps,
        head_target: default_branch(caps),
    }
}

/// The advertisement at the start of the input.
pub open spec fn advert_in(s: Seq<u8>) -> Result<AdvertModel, NetErrorModel> {
    match run_in(s).end {
        Err(e) => Err(NetErrorModel::Pkt(e)),
        Ok(_) => Ok(advert_of(run_in(s).payloads)),
    }
}

fn read_caps(payload: &[u8]) -> (r: Vec<String>)
    ensures
        views(r@) == caps_in(payload@),
{
    let p = strip_lf(payload);
    let i: usize = find_byte(p, 0, 0);
    let mut r: Vec<String> = Vec::new();
    assert(views(r@) =~= Seq::empty());
    if i < p.len() {
        let text = utf8_lossy(slice_subrange(p, i + 1, p.len()));
        let parts = split_chars(chars_of(text.as_str()).as_slice(), ' ');
        let ghost all = views(parts@);
        let mut k: usize = 0;
        while k < parts.len()
            invariant
                0 <= k <= parts@.len(),
                all == views(parts@),
                views(r@) == non_empty(all.subrange(0, k as int)),
            decreases parts@.len() - k,
        {
            proof {
                assert(all.subrange(0, k + 1).drop_last() =~= all.subrange(0, k as int));
                assert(all.subrange(0, k + 1).last() == parts@[k as int]@);
            }
            if parts[k].len() > 0 {
                let ghost before = r@;
                r.push(string_of(parts[k].as_slice()));
                proof {
                    lemma_views_push(before, r@.last());
                }
            }
            k += 1;
        }
        assert(all.subrange(0, k as int) =~= all);
    }
    r
}

fn read_ref_line(payload: &[u8], first: bool) -> (r: Ref)
    ensures
        r@ == ref_in(ref_part(payload@, first)),
{
    let p = strip_lf(payload);
    let i: usize = find_byte(p, 0, 0);
    let part = if first && i < p.len() {
        slice_subrange(p, 0, i)
    } else {
        p
    };
    let text = utf8_lossy(part);
    let cs = chars_of(text.as_str());
    let k: usize = find_char(cs.as_slice(), ' ', 0);
    if k < cs.len() {
        Ref {
            sha: string_of(slice_subrange(cs.as_slice(), 0, k)),
            name: string_of(slice_subrange(cs.as_slice(), k + 1, cs.len())),
        }
    } else {
        let name = String::new();
        assert(name@ =~= Seq::empty());
        Ref { sha: text, name }
    }
}

fn find_default_branch(caps: &Vec<String>) -> (r: Option<String>)
    ensures
        opt_view(r) == default_branch(views(caps@)),
{
    proof {
        reveal_strlit("symref=HEAD:");
    }
    let ghost all = views(caps@);
    assert(all.subrange(0, all.len() as int) =~= all);
    let mut i: usize = 0;
    while i < caps.len()
        invariant
            0 <= i <= caps@.len(),
            all == views(caps@),
            "symref=HEAD:"@.len() == 12,
            default_branch(all) == default_branch(all.subrange(i as int, all.len() as int)),
        decreases caps@.len() - i,
    {
        proof {
            let t = all.subrange(i as int, all.len() as int);
            assert(t[0] == caps@[i as int]@);
            assert(t.drop_first() =~= all.subrange(i + 1, all.len() as int));
        }
        let cs = chars_of(caps[i].as_str());
        if chars_start_with(cs.as_slice(), "symref=HEAD:") {
            return Some(string_of(slice_subrange(cs.as_slice(), 12, cs.len())));
        }
        i += 1;
    }
    None
}

/// Reads an advertisement, up to the flush that ends it.
pub fn parse_advertisement(r: &mut &[u8]) -> (x: Result<RefAdvertisement, NetError>)
    ensures
        both_view(x) == advert_in((*old(r))@),
        (*final(r))@ == run_in((*old(r))@).rest,
{
    let (payloads, end) = read_run(r);
    if let Err(e) = end {
        return Err(NetError::Pkt(e));
    }
    let ghost all = views(payloads@);
    let mut refs: Vec<Ref> = Vec::new();
    let mut caps: Vec<String> = Vec::new();
    assert(views(caps@) =~= Seq::empty());
    assert(views(refs@) =~= Seq::empty());
    if payloads.len() > 0 {
        assert(all[0] == payloads@[0]@);
        caps = read_caps(payloads[0].as_slice());
    }
    let mut i: usize = 0;
    while i < payloads.len()
        invariant
            0 <= i <= payloads@.len(),
            all == views(payloads@),
            views(refs@) == refs_in(all, i as int),
        decreases payloads@.len() - i,
    {
        assert(all[i as int] == payloads@[i as int]@);
        let one = read_ref_line(payloads[i].as_slice(), i == 0);
        if !(one.name.as_str().is_empty() || same_text(one.name.as_str(), "capabilities^{}")) {
            let ghost before = refs@;
            refs.push(one);
            proof {
                lemma_views_push(before, one);
            }
        }
        i += 1;
    }
    let head_target = find_default_branch(&caps);
    Ok(RefAdvertisement { refs, caps, head_target })
}

/// What follows the lines by which a response over HTTP names its service.
pub open spec fn past_http_header(s: Seq<u8>) -> Result<Seq<u8>, NetErrorModel> {
    match pkt_at(s) {
        Err(e) => Err(NetErrorModel::Pkt(e)),
        Ok(Some((PktModel::Data(p), n))) => if starts_with(p, encode_utf8("# service="@)) {
            let t = pkt_rest(s);
            match pkt_at(t) {
                Err(e) => Err(NetErrorModel::Pkt(e)),
                Ok(Some((PktModel::Flush, m))) => Ok(pkt_rest(t)),
                Ok(_) => Err(NetErrorModel::NoFlush),
            }
        } else {
            Err(NetErrorModel::NoServiceLine)
        },
        Ok(_) => Err(NetErrorModel::NoServiceLine),
    }
}

fn skip_smart_http_header(r: &mut &[u8]) -> (x: Result<(), NetError>)
    ensures
        (match x {
            Ok(_) => past_http_header((*old(r))@) == Ok::<Seq<u8>, NetErrorModel>((*final(r))@),
            Err(e) => past_http_header((*old(r))@) == Err::<Seq<u8>, NetErrorModel>(e@),
        }),
{
    match read_pkt_line(r) {
        Err(e) => return Err(NetError::Pkt(e)),
        Ok(Some(PktLine::Data(p))) => {
            if !bytes_start_with(p.as_slice(), "# service=".as_bytes()) {
                return Err(NetError::NoServiceLine);
            }
        },
        Ok(_) => return Err(NetError::NoServiceLine),
    }
    match read_pkt_line(r) {
        Err(e) => Err(NetError::Pkt(e)),
        Ok(Some(PktLine::Flush)) => Ok(()),
        Ok(_) => Err(NetError::NoFlush),
    }
}

/// `s` without the slashes at its end.
pub open spec fn without_slashes(s: Seq<char>) -> Seq<char>
    decreases s.len(),
{
    if s.len() > 0 && s.last() == '/' {
        without_slashes(s.drop_last())
    } else {
        s
    }
}

/// The text without the slashes at its end.
pub fn trim_slashes(s: &[char]) -> (r: &[char])
    ensures
        r@ == without_slashes(s@),
{
    let mut n: usize = s.len();
    assert(s@.subrange(0, s@.len() as int) =~= s@);
    while n > 0 && s[n - 1] == '/'
        invariant
            0 <= n <= s@.len(),
            without_slashes(s@) == without_slashes(s@.subrange(0, n as int)),
        decreases n,
    {
        assert(s@.subrange(0, n as int).drop_last() =~= s@.subrange(0, n - 1));
        n -= 1;
    }
    slice_subrange(s, 0, n)
}

/// The address of a remote without slashes at its end, with a path after it.
pub fn remote_url(base: &str, path: &str) -> (r: String)
    ensures
        r@ == without_slashes(base@) + path@,
{
    let cs = chars_of(base);
    let mut r = string_of(trim_slashes(cs.as_slice()));
    r.append(path);
    r
}

/// The address at which a remote advertises its references for a service.
pub fn info_refs_url(base: &str, service: &str) -> (r: String)
    ensures
        r@ == without_slashes(base@) + "/info/refs?service="@ + service@,
{
    let mut r = remote_url(base, "/info/refs?service=");
    r.append(service);
    r
}

/// Reads the response with which a remote advertises its references over HTTP.
pub fn discover_refs(response: &[u8]) -> (x: Result<RefAdvertisement, NetError>)
    ensures
        both_view(x) == (match past_http_header(response@) {
            Ok(rest) => advert_in(rest),
            Err(e) => Err(e),
        }),
{
    let mut r: &[u8] = response;
    match skip_smart_http_header(&mut r) {
        Ok(_) => parse_advertisement(&mut r),
        Err(e) => Err(e),
    }
}

/// The line by which a reference is listed: its id, a tab, and its name.
pub open spec fn listing(r: RefModel) -> Seq<char> {
    r.sha + seq!['\t'] + r.name
}

/// One line for each reference of the remote.
pub fn ls_remote(adv: &RefAdvertisement) -> (r: Vec<String>)
    ensures
        views(r@) == Seq::new(adv@.refs.len(), |i: int| listing(adv@.refs[i])),
{
    let mut r: Vec<String> = Vec::new();
    let mut i: usize = 0;
    while i < adv.refs.len()
        invariant
            0 <= i <= adv.refs@.len(),
            views(r@) == Seq::new(i as nat, |k: int| listing(adv@.refs[k])),
        decreases adv.refs@.len() - i,
    {
        let ghost before = r@;
        let mut line = adv.refs[i].sha.clone();
        line.push('\t');
        line.append(adv.refs[i].name.as_str());
        assert(adv@.refs[i as int] == adv.refs@[i as int]@);
        assert(line@ =~= listing(adv@.refs[i as int]));
        r.push(line);
        proof {
            lemma_views_push(before, line);
            assert(views(r@) =~= Seq::new((i + 1) as nat, |k: int| listing(adv@.refs[k])));
        }
        i += 1;
    }
    r
}

/// The ids to ask for: those of all references, each once, but for the lines that say what a tag
/// stands for.
pub open spec fn wants(refs: Seq<RefModel>) -> Seq<Seq<char>>
    decreases refs.len(),
{
    if refs.len() == 0 {
        Seq::empty()
    } else {
        let front = wants(refs.drop_last());
        let r = refs.last();
        if ends_with(r.name, "^{}"@) || front.contains(r.sha) {
            front
        } else {
            front.push(r.sha)
        }
    }
}

/// Whether a text is in a list.
pub fn contains_text(list: &Vec<String>, s: &str) -> (r: bool)
    ensures
        r == views(list@).contains(s@),
{
    let mut i: usize = 0;
    while i < list.len()
        invariant
            0 <= i <= list@.len(),
            forall|k: int| 0 <= k < i ==> (#[trigger] views(list@)[k]) != s@,
        decreases list@.len() - i,
    {
        assert(views(list@)[i as int] == list@[i as int]@);
        if same_text(list[i].as_str(), s) {
            return true;
        }
        i += 1;
    }
    false
}

fn wants_for_clone(adv: &RefAdvertisement) -> (r: Vec<String>)
    ensures
        views(r@) == wants(adv@.refs),
{
    let mut r: Vec<String> = Vec::new();
    let ghost all = adv@.refs;
    let mut i: usize = 0;
    assert(views(r@) =~= Seq::empty());
    while i < adv.refs.len()
        invariant
            0 <= i <= adv.refs@.len(),
            all == views(adv.refs@),
            views(r@) == wants(all.subrange(0, i as int)),
        decreases adv.refs@.len() - i,
    {
        proof {
            assert(all.subrange(0, i + 1).drop_last() =~= all.subrange(0, i as int));
            assert(all.subrange(0, i + 1).last() == adv.refs@[i as int]@);
        }
        let one = &adv.refs[i];
        if !chars_end_with(chars_of(one.name.as_str()).as_slice(), "^{}") && !contains_text(
            &r,
            one.sha.as_str(),
        ) {
            let ghost before = r@;
            r.push(one.sha.clone());
            proof {
                lemma_views_push(before, r@.last());
            }
        }
        i += 1;
    }
    assert(all.subrange(0, i as int) =~= all);
    r
}

/// The capabilities that are asked for, where the remote has them.
pub open spec fn known_caps() -> Seq<Seq<char>> {
    seq!["side-band-64k"@, "thin-pack"@, "ofs-delta"@, "multi_ack_detailed"@]
}

/// Those of the first `n` known capabilities that the remote has, with spaces between them.
pub open spec fn caps_text(caps: Seq<Seq<char>>, n: int) -> Seq<char>
    decreases n,
{
    if n <= 0 {
        Seq::empty()
    } else {
        let front = caps_text(caps, n - 1);
        if lists_cap(caps, known_caps()[n - 1]) {
            if front.len() == 0 {
                known_caps()[n - 1]
            } else {
                front + seq![' '] + known_caps()[n - 1]
            }
        } else {
            front
        }
    }
}

fn select_caps(adv: &RefAdvertisement) -> (r: String)
    ensures
        r@ == caps_text(adv@.caps, 4),
{
    let mut r = String::new();
    assert(r@ =~= Seq::empty());
    let mut i: usize = 0;
    while i < 4
        invariant
            0 <= i <= 4,
            r@ == caps_text(adv@.caps, i as int),
        decreases 4 - i,
    {
        let name = match i {
            0 => "side-band-64k",
            1 => "thin-pack",
            2 => "ofs-delta",
            _ => "multi_ack_detailed",
        };
        assert(name@ == known_caps()[i as int]);
        if adv.has_cap(name) {
            if !r.as_str().is_empty() {
                r.push(' ');
            }
            let ghost before = r@;
            r.append(name);
            assert(before.len() == 0 ==> r@ =~= name@);
        }
        i += 1;
    }
    r
}

/// A line of text as a line of the wire protocol.
pub open spec fn text_line(s: Seq<char>) -> PktModel {
    PktModel::Data(encode_utf8(s))
}

/// The line that asks for the `i`-th id; the first also gives the capabilities.
pub open spec fn want_line(sha: Seq<char>, caps: Seq<char>, i: int) -> PktModel {
    if i == 0 && caps.len() > 0 {
        text_line("want "@ + sha + seq![' '] + caps + seq!['\n'])
    } else {
        text_line("want "@ + sha + seq!['\n'])
    }
}

/// The lines of a request: what is wanted, a flush, what is there already, and the end.
pub open spec fn request_lines(adv: AdvertModel, haves: Seq<Seq<char>>) -> Seq<PktModel> {
    let ids = wants(adv.refs);
    Seq::new(ids.len(), |i: int| want_line(ids[i], caps_text(adv.caps, 4), i)) + seq![
        PktModel::Flush,
    ] + Seq::new(haves.len(), |i: int| text_line("have "@ + haves[i] + seq!['\n'])) + seq![
        text_line("done\n"@),
    ]
}

/// The request for everything that the remote has and that is not there already.
pub open spec fn want_request(adv: AdvertModel, haves: Seq<Seq<char>>) -> Result<
    Seq<u8>,
    NetErrorModel,
> {
    let lines = request_lines(adv, haves);
    if wants(adv.refs).len() == 0 {
        Err(NetErrorModel::NothingToWant)
    } else if forall|i: int| 0 <= i < lines.len() ==> fits(#[trigger] lines[i]) {
        Ok(pkts_bytes(lines))
    } else {
        Err(NetErrorModel::Pkt(PktError::PayloadTooLarge))
    }
}

/// Appends a line to a request under construction.
fn push_line(buf: &mut Vec<u8>, line: &PktLine, Ghost(lines): Ghost<Seq<PktModel>>, Ghost(i): Ghost<
    int,
>) -> (r: Result<(), NetError>)
    requires
        0 <= i < lines.len(),
        lines[i] == line@,
        old(buf)@ == pkts_bytes(lines.subrange(0, i)),
    ensures
        (match r {
            Ok(_) => fits(lines[i]) && final(buf)@ == pkts_bytes(lines.subrange(0, i + 1)),
            Err(e) => !fits(lines[i]) && e@ == NetErrorModel::Pkt(PktError::PayloadTooLarge),
        }),
{
    proof {
        assert(lines.subrange(0, i + 1).drop_last() =~= lines.subrange(0, i));
        assert(lines.subrange(0, i + 1).last() == lines[i]);
    }
    match write_pkt_line(buf, line) {
        Ok(_) => Ok(()),
        Err(e) => Err(NetError::Pkt(e)),
    }
}

fn text_pkt(s: &String) -> (r: PktLine)
    ensures
        r@ == text_line(s@),
{
    PktLine::Data(copy_bytes(s.as_str().as_bytes()))
}

/// The request for everything that the remote has, but for what is reachable from `haves`.
pub fn build_want_request(adv: &RefAdvertisement, haves: &Vec<String>) -> (r: Result<
    Vec<u8>,
    NetError,
>)
    ensures
        both_view(r) == want_request(adv@, views(haves@)),
{
    let ids = wants_for_clone(adv);
    if ids.len() == 0 {
        return Err(NetError::NothingToWant);
    }
    let caps = select_caps(adv);
    let ghost lines = request_lines(adv@, views(haves@));
    let ghost n = ids@.len() as int;
    let mut buf: Vec<u8> = Vec::new();
    assert(buf@ =~= pkts_bytes(lines.subrange(0, 0)));
    let mut i: usize = 0;
    while i < ids.len()
        invariant
            0 <= i <= ids@.len(),
            n == ids@.len(),
            n > 0,
            views(ids@) == wants(adv@.refs),
            caps@ == caps_text(adv@.caps, 4),
            lines == request_lines(adv@, views(haves@)),
            buf@ == pkts_bytes(lines.subrange(0, i as int)),
            forall|k: int| 0 <= k < i ==> fits(#[trigger] lines[k]),
        decreases ids@.len() - i,
    {
        let mut line = String::from_str("want ");
        line.append(ids[i].as_str());
        if i == 0 && !caps.as_str().is_empty() {
            line.push(' ');
            line.append(caps.as_str());
        }
        line.push('\n');
        proof {
            assert(views(ids@)[i as int] == ids@[i as int]@);
            let sha = ids@[i as int]@;
            if i == 0 && caps@.len() > 0 {
                assert(line@ =~= "want "@ + sha + seq![' '] + caps@ + seq!['\n']);
            } else {
                assert(line@ =~= "want "@ + sha + seq!['\n']);
            }
            assert(lines[i as int] == want_line(sha, caps@, i as int));
        }
        match push_line(&mut buf, &text_pkt(&line), Ghost(lines), Ghost(i as int)) {
            Ok(_) => {},
            Err(e) => return Err(e),
        }
        i += 1;
    }
    assert(lines[n] == PktModel::Flush);
    match push_line(&mut buf, &PktLine::Flush, Ghost(lines), Ghost(n)) {
        Ok(_) => {},
        Err(e) => return Err(e),
    }
    let mut j: usize = 0;
    while j < haves.len()
        invariant
            0 <= j <= haves@.len(),
            n == wants(adv@.refs).len(),
            n > 0,
            lines == request_lines(adv@, views(haves@)),
            buf@ == pkts_bytes(lines.subrange(0, n + 1 + j)),
            forall|k: int| 0 <= k < n + 1 + j ==> fits(#[trigger] lines[k]),
        decreases haves@.len() - j,
    {
        let mut line = String::from_str("have ");
        line.append(haves[j].as_str());
        line.push('\n');
        proof {
            assert(views(haves@)[j as int] == haves@[j as int]@);
            assert(line@ =~= "have "@ + haves@[j as int]@ + seq!['\n']);
            assert(lines[n + 1 + j] == text_line(line@));
        }
        match push_line(&mut buf, &text_pkt(&line), Ghost(lines), Ghost(n + 1 + j)) {
            Ok(_) => {},
            Err(e) => return Err(e),
        }
        j += 1;
    }
    let ghost last = n + 1 + haves@.len();
    let done = String::from_str("done\n");
    assert(lines[last] == text_line("done\n"@));
    match push_line(&mut buf, &text_pkt(&done), Ghost(lines), Ghost(last)) {
        Ok(_) => {},
        Err(e) => return Err(e),
    }
    assert(lines.len() == last + 1);
    assert(lines.subrange(0, last + 1) =~= lines);
    Ok(buf)
}

/// The pack that the first `n` lines of a response carry, on the first of its channels.
pub open spec fn channel_one(payloads: Seq<Seq<u8>>, n: int) -> Seq<u8>
    decreases n,
{
    if n <= 0 {
        Seq::empty()
    } else {
        let front = channel_one(payloads, n - 1);
        let p = payloads[n - 1];
        if p.len() > 0 && p[0] == 1 {
            front + p.subrange(1, p.len() as int)
        } else {
            front
        }
    }
}

/// The first complaint on the channel for errors.
pub open spec fn complaint(payloads: Seq<Seq<u8>>) -> Option<Seq<char>>
    decreases payloads.len(),
{
    if payloads.len() == 0 {
        None
    } else if complains(payloads[0]) {
        Some(lossy_text(payloads[0].subrange(1, payloads[0].len() as int)))
    } else {
        complaint(payloads.drop_first())
    }
}

/// The pack in a response.
pub open spec fn pack_response(s: Seq<u8>) -> Result<Seq<u8>, NetErrorModel> {
    let run = run_in(s);
    match complaint(run.payloads) {
        Some(msg) => Err(NetErrorModel::Remote(msg)),
        None => match run.end {
            Err(e) => Err(NetErrorModel::Pkt(e)),
            Ok(_) => {
                let pack = channel_one(run.payloads, run.payloads.len() as int);
                if starts_with(pack, encode_utf8("PACK"@)) {
                    Ok(pack)
                } else {
                    Err(NetErrorModel::NotAPack)
                }
            },
        },
    }
}

/// Whether a line of a response is a complaint.
pub open spec fn complains(p: Seq<u8>) -> bool {
    p.len() > 0 && p[0] == 3
}

/// What is left of the input after a response was read from it: what follows the first flush, or
/// the first complaint where that comes before it.
pub open spec fn response_rest(s: Seq<u8>) -> Seq<u8>
    decreases s.len(),
    via response_rest_shrink
{
    match pkt_at(s) {
        Ok(Some((PktModel::Delim, n))) => response_rest(s.subrange(n, s.len() as int)),
        Ok(Some((PktModel::Data(p), n))) => if complains(p) {
            s.subrange(n, s.len() as int)
        } else {
            response_rest(s.subrange(n, s.len() as int))
        },
        _ => pkt_rest(s),
    }
}

#[via_fn]
proof fn response_rest_shrink(s: Seq<u8>) {
    lemma_pkt_at(s);
}

/// Reads a response: what comes on the first channel is the pack, what comes on the third is an
/// error, at which reading ends, and everything else is passed over.
pub fn read_pack_response(r: &mut &[u8]) -> (x: Result<Vec<u8>, NetError>)
    ensures
        both_view(x) == pack_response((*old(r))@),
        (*final(r))@ == response_rest((*old(r))@),
{
    let ghost run = run_in((*r)@);
    let ghost all = run.payloads;
    let ghost mut k: int = 0;
    let mut pack: Vec<u8> = Vec::new();
    assert(all.subrange(0, all.len() as int) =~= all);
    assert(pack@ =~= Seq::empty());
    loop
        invariant_except_break
            run == run_in((*old(r))@),
            all == run.payloads,
            0 <= k <= all.len(),
            all.subrange(k, all.len() as int) == run_in((*r)@).payloads,
            run.end == run_in((*r)@).end,
            complaint(all) == complaint(run_in((*r)@).payloads),
            pack@ == channel_one(all, k),
            response_rest((*r)@) == response_rest((*old(r))@),
        ensures
            run == run_in((*old(r))@),
            all == run.payloads,
            run.end is Ok,
            complaint(all) is None,
            pack@ == channel_one(all, all.len() as int),
            (*r)@ == response_rest((*old(r))@),
        decreases (*r)@.len(),
    {
        let ghost s = (*r)@;
        let ghost t = run_in(s).payloads;
        proof {
            lemma_pkt_at(s);
            assert(t.len() == all.len() - k);
        }
        match read_pkt_line(r) {
            Err(e) => return Err(NetError::Pkt(e)),
            Ok(None) => break,
            Ok(Some(PktLine::Flush)) => break,
            Ok(Some(PktLine::Delim)) => {},
            Ok(Some(PktLine::Data(payload))) => {
                let p = payload.as_slice();
                let ghost u = run_in((*r)@).payloads;
                proof {
                    assert(t == seq![p@] + u);
                    assert(t[0] == p@);
                    assert(t.drop_first() =~= u);
                    assert(all[k] == t[0]);
                    assert(all.subrange(k + 1, all.len() as int) =~= u);
                }
                if p.len() > 0 {
                    if p[0] == 1 {
                        append_bytes(&mut pack, slice_subrange(p, 1, p.len()));
                    } else if p[0] == 3 {
                        return Err(NetError::Remote(utf8_lossy(slice_subrange(p, 1, p.len()))));
                    }
                }
                proof {
                    k = k + 1;
                }
            },
        }
    }
    if !bytes_start_with(pack.as_slice(), "PACK".as_bytes()) {
        return Err(NetError::NotAPack);
    }
    Ok(pack)
}

/// The pack in the whole response to a request.
pub fn fetch_pack(response: &[u8]) -> (x: Result<Vec<u8>, NetError>)
    ensures
        both_view(x) == pack_response(response@),
{
    let mut r: &[u8] = response;
    read_pack_response(&mut r)
}

/// What the first `n` lines of a response say on the channel for progress.
pub open spec fn channel_two(payloads: Seq<Seq<u8>>, n: int) -> Seq<char>
    decreases n,
{
    if n <= 0 {
        Seq::empty()
    } else {
        let front = channel_two(payloads, n - 1);
        let p = payloads[n - 1];
        if p.len() > 0 && p[0] == 2 {
            front + lossy_text(p.subrange(1, p.len() as int))
        } else {
            front
        }
    }
}

/// How many lines of a response are heeded: those before the first complaint.
pub open spec fn heeded(payloads: Seq<Seq<u8>>) -> int
    decreases payloads.len(),
{
    if payloads.len() == 0 || complains(payloads[0]) {
        0
    } else {
        1 + heeded(payloads.drop_first())
    }
}

/// What a response says on the channel for progress, up to the first complaint.
pub fn progress_of(response: &[u8]) -> (x: String)
    ensures
        x@ == channel_two(run_in(response@).payloads, heeded(run_in(response@).payloads)),
{
    let mut r: &[u8] = response;
    let (payloads, _end) = read_run(&mut r);
    let ghost all = views(payloads@);
    let mut out = String::new();
    assert(out@ =~= Seq::empty());
    assert(all.subrange(0, all.len() as int) =~= all);
    let mut i: usize = 0;
    while i < payloads.len()
        invariant
            0 <= i <= payloads@.len(),
            all == views(payloads@),
            all == run_in(response@).payloads,
            heeded(all) == i + heeded(all.subrange(i as int, all.len() as int)),
            out@ == channel_two(all, i as int),
        decreases payloads@.len() - i,
    {
        proof {
            let t = all.subrange(i as int, all.len() as int);
            assert(all[i as int] == payloads@[i as int]@);
            assert(t[0] == all[i as int]);
            assert(t.drop_first() =~= all.subrange(i + 1, all.len() as int));
        }
        let p = payloads[i].as_slice();
        if p.len() > 0 {
            if p[0] == 3 {
                return out;
            }
            if p[0] == 2 {
                out.append(utf8_lossy(slice_subrange(p, 1, p.len())).as_str());
            }
        }
        i += 1;
    }
    out
}

/// A request, taken apart again, is the lines that it was made of.
pub proof fn law_request_reads_back(adv: AdvertModel, haves: Seq<Seq<char>>)
    ensures
        want_request(adv, haves) matches Ok(bytes) ==> crate::deal_pktlines::pkts_in(bytes) == Ok::<
            Seq<PktModel>,
            PktError,
        >(request_lines(adv, haves)),
{
    if want_request(adv, haves) is Ok {
        crate::deal_pktlines::law_pkts_round_trip(request_lines(adv, haves));
    }
}

/// No id is asked for twice, and the ids that are asked for are those of the references that are not
/// peeled.
pub proof fn law_wants_distinct(refs: Seq<RefModel>)
    ensures
        forall|i: int, j: int|
            0 <= i < j < wants(refs).len() ==> wants(refs)[i] != wants(refs)[j],
        forall|i: int|
            0 <= i < wants(refs).len() ==> exists|k: int|
                0 <= k < refs.len() && #[trigger] refs[k].sha == #[trigger] wants(refs)[i] && !ends_with(
                    refs[k].name,
                    "^{}"@,
                ),
        forall|k: int|
            0 <= k < refs.len() && !ends_with((#[trigger] refs[k]).name, "^{}"@) ==> wants(
                refs,
            ).contains(refs[k].sha),
    decreases refs.len(),
{
    if refs.len() > 0 {
        let t = refs.drop_last();
        let front = wants(t);
        let all = wants(refs);
        law_wants_distinct(t);
        assert forall|i: int| 0 <= i < all.len() implies exists|k: int|
            0 <= k < refs.len() && #[trigger] refs[k].sha == #[trigger] all[i] && !ends_with(
                refs[k].name,
                "^{}"@,
            ) by {
            if i < front.len() {
                let k = choose|k: int|
                    0 <= k < t.len() && #[trigger] t[k].sha == #[trigger] front[i] && !ends_with(
                        t[k].name,
                        "^{}"@,
                    );
                assert(t[k] == refs[k]);
                assert(refs[k].sha == all[i]);
            } else {
                assert(refs[refs.len() - 1].sha == all[i]);
            }
        }
        assert forall|k: int|
            0 <= k < refs.len() && !ends_with((#[trigger] refs[k]).name, "^{}"@) implies all.contains(
            refs[k].sha,
        ) by {
            if k < t.len() {
                assert(t[k] == refs[k]);
                assert(front.contains(refs[k].sha));
                let j = choose|j: int| 0 <= j < front.len() && front[j] == refs[k].sha;
                assert(all[j] == refs[k].sha);
            } else if !front.contains(refs[k].sha) {
                assert(all[front.len() as int] == refs[k].sha);
            }
        }
    }
}

} // verus!
