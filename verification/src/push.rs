//! Pushing: what a remote is asked to do, what it is sent, and what it answers.
use crate::bytes::{append_bytes, copy_bytes, find_from, starts_with};
use crate::deal_pktlines::{
    fits, pkt_bytes, pkts_in, read_all, write_pkt_line, PktError, PktLine, PktModel,
};
use crate::fetch::{short, shortened};
use crate::get_packfile_by_network::{id_of_ref, Ref, RefAdvertisement, RefModel};
use crate::merge_base::{find_merge_base, is_ancestor, meets, walk_fault};
use crate::object::{ObjectError, ObjectSha};
use crate::object_db::ObjectDb;
use crate::object_graph::{
    closed_list, collect_to_send, gathers, mark_present, objects_in, reaches, GraphError,
};
use crate::oid_list::OidList;
use crate::parse_packfile::{build_pack, contents, pack_bytes};
use crate::pull::{tracking_path, tracking_ref};
use crate::reference::{
    read_sha1, read_stored_id, sha1_in, stored_id, RefUpdate, UpdateModel,
};
use crate::text::{
    chars_are, chars_of, chars_start_with, find_char, lossy_text, opt_view, same_text, string_of,
    trim, trim_end, trimmed, trimmed_end, utf8_lossy, views,
};
use vstd::prelude::*;
use vstd::slice::slice_subrange;
use vstd::utf8::encode_utf8;

verus! {

/// The id of no object, as a remote writes it.
pub open spec fn zero_text() -> Seq<char> {
    Seq::new(40, |i: int| '0')
}

fn zero_oid() -> (r: String)
    ensures
        r@ == zero_text(),
{
    let mut r = String::new();
    let mut i: usize = 0;
    while i < 40
        invariant
            0 <= i <= 40,
            r@ == zero_text().subrange(0, i as int),
        decreases 40 - i,
    {
        r.push('0');
        i += 1;
        assert(r@ =~= zero_text().subrange(0, i as int));
    }
    assert(r@ =~= zero_text());
    r
}

/// How the push of one reference ended.
#[derive(Debug)]
pub struct PushResult {
    pub refname: String,
    pub old: String,
    pub new: String,
    /// Why the remote refused, if it did.
    pub rejected: Option<String>,
}

/// Why a push cannot be done.
#[derive(Clone, Copy, PartialEq, Eq, Debug)]
pub enum PushError {
    /// The local branch does not exist.
    NoBranch,
    /// The local branch does not name an object.
    BadTip,
    /// The remote has commits that the local branch does not have.
    NonFastForward,
    /// A commit cannot be read.
    Object(ObjectError),
    /// What has to be sent cannot be gathered.
    Graph(GraphError),
    /// There are more objects to send than a pack can hold.
    TooManyObjects,
    /// The name of the reference is too long, or the answer is malformed.
    Pkt(PktError),
    /// The remote could not unpack what it was sent.
    UnpackFailed,
}

/// The full name of a branch.
pub open spec fn full_name(branch: Seq<char>) -> Seq<char> {
    "refs/heads/"@ + branch
}

/// The id that a remote has for a reference; zeros where it has none.
pub open spec fn remote_id(refs: Seq<RefModel>, name: Seq<char>) -> Seq<char> {
    match id_of_ref(refs, name) {
        Some(sha) => sha,
        None => zero_text(),
    }
}

/// Whether a list is that of all objects of the store that a remote has: those that can be reached
/// from what it advertises.
pub open spec fn remote_has(
    db: Map<ObjectSha, Seq<u8>>,
    refs: Seq<RefModel>,
    present: Seq<ObjectSha>,
) -> bool {
    &&& present.no_duplicates()
    &&& closed_list(db, present)
    &&& forall|o: ObjectSha| #[trigger]
        present.contains(o) <==> exists|i: int|
            0 <= i < refs.len() && advertised(db, #[trigger] refs[i], o)
}

/// Whether an object can be reached from what a reference stands for.
pub open spec fn advertised(db: Map<ObjectSha, Seq<u8>>, r: RefModel, o: ObjectSha) -> bool {
    stored_id(r.sha) matches Some(root) && reaches(db, Seq::empty(), root, o)
}

/// What the check that a push loses nothing gives for the ids of the remote and the local branch.
pub open spec fn loses_nothing(
    db: Map<ObjectSha, Seq<u8>>,
    theirs: ObjectSha,
    ours: ObjectSha,
    r: Result<(), PushError>,
) -> bool {
    if theirs == ours {
        r is Ok
    } else {
        match r {
            Ok(_) => meets(db, theirs, ours, Some(theirs)),
            Err(PushError::NonFastForward) => exists|base: Option<ObjectSha>| #[trigger]
                meets(db, theirs, ours, base) && base != Some(theirs),
            Err(PushError::Object(e)) => walk_fault(db, theirs, ours, e),
            _ => false,
        }
    }
}

/// What the check before a push gives. It is made where the push is not forced, and only where the
/// store holds the commit that the remote has.
pub open spec fn checked(
    db: Map<ObjectSha, Seq<u8>>,
    old_id: Seq<char>,
    new_id: Seq<char>,
    force: bool,
    r: Result<(), PushError>,
) -> bool {
    if force || old_id == zero_text() || !(stored_id(old_id) matches Some(o) && db.contains_key(
        o,
    )) {
        r is Ok
    } else {
        match sha1_in(new_id) {
            None => r == Err::<(), PushError>(PushError::BadTip),
            Some(n) => loses_nothing(db, stored_id(old_id)->Some_0, n, r),
        }
    }
}

/// The command that asks a remote to move a reference.
pub open spec fn command(old_id: Seq<char>, new_id: Seq<char>, refname: Seq<char>) -> Seq<char> {
    old_id + " "@ + new_id + " "@ + refname + "\0report-status\n"@
}

/// What a remote is sent: the command, the end of the commands, and the pack.
pub open spec fn push_body(cmd: Seq<char>, pack: Seq<u8>) -> Seq<u8> {
    pkt_bytes(PktModel::Data(encode_utf8(cmd))) + pkt_bytes(PktModel::Flush) + pack
}

/// What has to be sent to a remote.
#[derive(Debug)]
pub struct PushRequest {
    pub refname: String,
    pub old: String,
    pub new: String,
    pub body: Vec<u8>,
}

/// What a push has to do.
#[derive(Debug)]
pub enum PushPlan {
    /// Nothing: the remote has it all.
    UpToDate,
    /// Send this.
    Send(PushRequest),
}

fn check_fast_forward(db: &ObjectDb, old_id: &str, new_id: &str, force: bool) -> (r: Result<
    (),
    PushError,
>)
    ensures
        checked(db@, old_id@, new_id@, force, r),
{
    if force || same_text(old_id, zero_oid().as_str()) {
        return Ok(());
    }
    let theirs = match read_stored_id(chars_of(old_id).as_slice()) {
        Some(o) => o,
        None => return Ok(()),
    };
    if !db.contains(&theirs) {
        return Ok(());
    }
    let ours = match read_sha1(chars_of(new_id).as_slice()) {
        Some(n) => n,
        None => return Err(PushError::BadTip),
    };
    match find_merge_base(db, &theirs, &ours) {
        Err(e) => Err(PushError::Object(e)),
        Ok(base) => {
            proof {
                if theirs != ours {
                    assert(meets(db@, theirs, ours, base));
                }
            }
            match base {
                Some(b) => {
                    if b == theirs {
                        Ok(())
                    } else {
                        Err(PushError::NonFastForward)
                    }
                },
                None => Err(PushError::NonFastForward),
            }
        },
    }
}

fn remote_objects(db: &ObjectDb, refs: &Vec<Ref>) -> (r: OidList)
    ensures
        remote_has(db@, views(refs@), r@),
{
    let ghost all = views(refs@);
    let mut present = OidList::new();
    let mut i: usize = 0;
    while i < refs.len()
        invariant
            0 <= i <= refs@.len(),
            all == views(refs@),
            present@.no_duplicates(),
            closed_list(db@, present@),
            forall|k: int| 0 <= k < present@.len() ==> db@.contains_key(#[trigger] present@[k]),
            forall|o: ObjectSha| #[trigger]
                present@.contains(o) <==> exists|k: int|
                    0 <= k < i && advertised(db@, #[trigger] all[k], o),
        decreases refs@.len() - i,
    {
        let ghost before = present@;
        assert(all[i as int] == refs@[i as int]@);
        match read_stored_id(chars_of(refs[i].sha.as_str()).as_slice()) {
            Some(root) => {
                mark_present(db, &root, &mut present);
            },
            None => {},
        }
        proof {
            assert forall|o: ObjectSha| #[trigger] present@.contains(o) <==> exists|k: int|
                0 <= k < i + 1 && advertised(db@, #[trigger] all[k], o) by {
                if before.contains(o) {
                    let k = choose|k: int| 0 <= k < i && advertised(db@, #[trigger] all[k], o);
                    assert(advertised(db@, all[k], o));
                }
                if advertised(db@, all[i as int], o) {
                    assert(present@.contains(o));
                }
                if exists|k: int| 0 <= k < i + 1 && advertised(db@, #[trigger] all[k], o) {
                    let k = choose|k: int| 0 <= k < i + 1 && advertised(db@, #[trigger] all[k], o);
                    if k < i {
                        assert(before.contains(o));
                    }
                }
            }
        }
        i += 1;
    }
    present
}

/// Whether the body of a push to a remote with these references carries what the remote lacks of
/// the commit `ours`.
pub open spec fn carries_missing(
    db: Map<ObjectSha, Seq<u8>>,
    refs: Seq<RefModel>,
    ours: ObjectSha,
    cmd: Seq<char>,
    body: Seq<u8>,
) -> bool {
    exists|present: Seq<ObjectSha>, out: Seq<ObjectSha>|
        {
            &&& remote_has(db, refs, present)
            &&& #[trigger] gathers(db, present, ours, Ok(out))
            &&& body == push_body(cmd, pack_bytes(objects_in(db, out)))
        }
}

/// Whether gathering what a remote with these references lacks of the commit `ours` fails with this
/// error.
pub open spec fn cannot_gather(
    db: Map<ObjectSha, Seq<u8>>,
    refs: Seq<RefModel>,
    ours: ObjectSha,
    e: GraphError,
) -> bool {
    exists|present: Seq<ObjectSha>|
        remote_has(db, refs, present) && #[trigger] gathers(db, present, ours, Err(e))
}

/// What a push that passed the check gives.
pub open spec fn request_made(
    db: Map<ObjectSha, Seq<u8>>,
    refs: Seq<RefModel>,
    refname: Seq<char>,
    old_id: Seq<char>,
    new_id: Seq<char>,
    r: Result<PushPlan, PushError>,
) -> bool {
    let cmd = command(old_id, new_id, refname);
    match stored_id(new_id) {
        None => r matches Err(PushError::BadTip),
        Some(ours) => match r {
            Ok(PushPlan::Send(q)) => q.refname@ == refname && q.old@ == old_id && q.new@ == new_id
                && fits(PktModel::Data(encode_utf8(cmd))) && carries_missing(
                db,
                refs,
                ours,
                cmd,
                q.body@,
            ),
            Err(PushError::Graph(e)) => cannot_gather(db, refs, ours, e),
            Err(PushError::Pkt(e)) => !fits(PktModel::Data(encode_utf8(cmd))) && e
                == PktError::PayloadTooLarge,
            Err(PushError::TooManyObjects) => exists|present: Seq<ObjectSha>, out: Seq<ObjectSha>|
                remote_has(db, refs, present) && #[trigger] gathers(db, present, ours, Ok(out))
                    && out.len() > u32::MAX,
            _ => false,
        },
    }
}

fn make_request(
    db: &ObjectDb,
    refs: &Vec<Ref>,
    refname: String,
    old_id: String,
    new_id: String,
) -> (r: Result<PushPlan, PushError>)
    ensures
        request_made(db@, views(refs@), refname@, old_id@, new_id@, r),
{
    let ours = match read_stored_id(chars_of(new_id.as_str()).as_slice()) {
        Some(n) => n,
        None => return Err(PushError::BadTip),
    };
    let present = remote_objects(db, refs);
    let objects = match collect_to_send(db, &ours, &present) {
        Ok(v) => v,
        Err(e) => return Err(PushError::Graph(e)),
    };
    let ghost out = choose|out: Seq<ObjectSha>| #[trigger]
        gathers(db@, present@, ours, Ok(out)) && contents(objects@) == objects_in(db@, out);
    if objects.len() > u32::MAX as usize {
        assert(out.len() == objects@.len()) by {
            assert(contents(objects@).len() == objects_in(db@, out).len());
        }
        return Err(PushError::TooManyObjects);
    }
    let pack = build_pack(&objects);
    let mut cmd = string_of(chars_of(old_id.as_str()).as_slice());
    cmd.append(" ");
    cmd.append(new_id.as_str());
    cmd.append(" ");
    cmd.append(refname.as_str());
    cmd.append("\0report-status\n");
    let mut body: Vec<u8> = Vec::new();
    match write_pkt_line(&mut body, &PktLine::Data(copy_bytes(cmd.as_str().as_bytes()))) {
        Ok(_) => {},
        Err(e) => return Err(PushError::Pkt(e)),
    }
    match write_pkt_line(&mut body, &PktLine::Flush) {
        Ok(_) => {},
        Err(e) => return Err(PushError::Pkt(e)),
    }
    append_bytes(&mut body, pack.as_slice());
    assert(body@ =~= push_body(cmd@, pack_bytes(objects_in(db@, out))));
    Ok(PushPlan::Send(PushRequest { refname, old: old_id, new: new_id, body }))
}

/// Plans the push of a branch to the branch of the same name of a remote. `tip` is the content of
/// the branch's reference, if it exists.
pub fn push(
    db: &ObjectDb,
    branch: &str,
    tip: Option<&str>,
    adv: &RefAdvertisement,
    force: bool,
) -> (r: Result<PushPlan, PushError>)
    ensures
        (match opt_view(tip) {
            None => r matches Err(PushError::NoBranch),
            Some(content) => {
                let new_id = trim(content);
                let refname = full_name(branch@);
                let old_id = remote_id(adv@.refs, refname);
                if old_id == new_id {
                    r matches Ok(PushPlan::UpToDate)
                } else {
                    exists|c: Result<(), PushError>| #[trigger]
                        checked(db@, old_id, new_id, force, c) && (match c {
                            Err(e) => r matches Err(x) && x == e,
                            Ok(_) => request_made(
                                db@,
                                adv@.refs,
                                refname,
                                old_id,
                                new_id,
                                r,
                            ),
                        })
                }
            },
        }),
{
    let new_id = match tip {
        None => return Err(PushError::NoBranch),
        Some(content) => string_of(trimmed(chars_of(content).as_slice())),
    };
    let mut refname = string_of(chars_of("refs/heads/").as_slice());
    refname.append(branch);
    let old_id = match adv.sha_of(refname.as_str()) {
        Some(sha) => string_of(chars_of(sha).as_slice()),
        None => zero_oid(),
    };
    if same_text(old_id.as_str(), new_id.as_str()) {
        return Ok(PushPlan::UpToDate);
    }
    let c = check_fast_forward(db, old_id.as_str(), new_id.as_str(), force);
    assert(checked(db@, old_id@, new_id@, force, c));
    match c {
        Err(e) => Err(e),
        Ok(_) => make_request(db, &adv.refs, refname, old_id, new_id),
    }
}

/// A push that is not forced, to a remote whose commit the store holds, is sent only where that
/// commit is an ancestor of the new one.
pub proof fn law_push_loses_nothing(
    db: Map<ObjectSha, Seq<u8>>,
    old_id: Seq<char>,
    new_id: Seq<char>,
    theirs: ObjectSha,
    ours: ObjectSha,
)
    requires
        old_id != zero_text(),
        stored_id(old_id) == Some(theirs),
        sha1_in(new_id) == Some(ours),
        db.contains_key(theirs),
        checked(db, old_id, new_id, false, Ok(())),
    ensures
        is_ancestor(db, theirs, ours),
{
    assert(crate::merge_base::is_path(db, seq![theirs], theirs, theirs));
    if theirs != ours {
        assert(meets(db, theirs, ours, Some(theirs)));
        crate::merge_base::law_meeting_is_ancestor(db, theirs, ours, Some(theirs));
    }
}

/// What a remote that unpacks a push can reach afterwards: all objects of the store that can be
/// reached from the new commit.
pub proof fn law_push_completes(
    db: Map<ObjectSha, Seq<u8>>,
    refs: Seq<RefModel>,
    ours: ObjectSha,
    present: Seq<ObjectSha>,
    out: Seq<ObjectSha>,
    o: ObjectSha,
)
    requires
        remote_has(db, refs, present),
        gathers(db, present, ours, Ok(out)),
        reaches(db, Seq::empty(), ours, o),
    ensures
        out.contains(o) || present.contains(o),
        !(out.contains(o) && present.contains(o)),
{
    crate::object_graph::law_gathered_completes(db, present, ours, out, o);
    crate::object_graph::law_gathers_reachable(db, present, ours, out);
    if out.contains(o) {
        let p = choose|p: Seq<ObjectSha>| crate::object_graph::is_chain(db, present, p, ours, o);
        assert(!present.contains(p[p.len() - 1]));
    }
}

/// What a remote reports: whether it could unpack, and what became of each reference.
#[verifier::ext_equal]
pub struct ReportModel {
    pub unpacked: bool,
    pub refs: Seq<(Seq<char>, Option<Seq<char>>)>,
}

/// The report with one more line.
pub open spec fn with_line(m: ReportModel, s: Seq<char>) -> ReportModel {
    if starts_with(s, "unpack "@) {
        ReportModel { unpacked: s.subrange(7, s.len() as int) == "ok"@, ..m }
    } else if starts_with(s, "ok "@) {
        ReportModel { refs: m.refs.push((s.subrange(3, s.len() as int), None)), ..m }
    } else if starts_with(s, "ng "@) {
        let rest = s.subrange(3, s.len() as int);
        let sp = find_from(rest, ' ', 0);
        if sp < rest.len() {
            ReportModel {
                refs: m.refs.push(
                    (rest.subrange(0, sp), Some(rest.subrange(sp + 1, rest.len() as int))),
                ),
                ..m
            }
        } else {
            ReportModel { refs: m.refs.push((rest, Some("(no reason)"@))), ..m }
        }
    } else {
        m
    }
}

/// The report that some lines make.
pub open spec fn report_of(ls: Seq<PktModel>) -> ReportModel
    decreases ls.len(),
{
    if ls.len() == 0 {
        ReportModel { unpacked: false, refs: Seq::empty() }
    } else {
        let before = report_of(ls.drop_last());
        match ls.last() {
            PktModel::Data(p) => with_line(before, trim_end(lossy_text(p))),
            _ => before,
        }
    }
}

/// The report in an answer.
pub open spec fn report_in(bytes: Seq<u8>) -> Result<ReportModel, PktError> {
    match pkts_in(bytes) {
        Err(e) => Err(e),
        Ok(ls) => Ok(report_of(ls)),
    }
}

/// What a remote reports: whether it could unpack, and what became of each reference.
#[derive(Debug)]
pub struct Report {
    pub unpacked: bool,
    pub refs: Vec<(String, Option<String>)>,
}

/// The models of references and of why they were refused.
pub open spec fn outcomes(v: Seq<(String, Option<String>)>) -> Seq<(Seq<char>, Option<Seq<char>>)> {
    Seq::new(v.len(), |i: int| (v[i].0@, opt_view(v[i].1)))
}

impl View for Report {
    type V = ReportModel;

    open spec fn view(&self) -> ReportModel {
        ReportModel { unpacked: self.unpacked, refs: outcomes(self.refs@) }
    }
}

impl Report {
    fn push_ref(&mut self, name: String, reason: Option<String>)
        ensures
            final(self)@ == (ReportModel {
                refs: old(self)@.refs.push((name@, opt_view(reason))),
                ..old(self)@
            }),
    {
        let ghost before = outcomes(self.refs@);
        let ghost x = (name@, opt_view(reason));
        self.refs.push((name, reason));
        assert(outcomes(self.refs@) =~= before.push(x));
    }

    fn read_line(&mut self, s: &[char])
        ensures
            final(self)@ == with_line(old(self)@, s@),
    {
        proof {
            reveal_strlit("unpack ");
            reveal_strlit("ok ");
            reveal_strlit("ng ");
        }
        if chars_start_with(s, "unpack ") {
            self.unpacked = chars_are(slice_subrange(s, 7, s.len()), "ok");
        } else if chars_start_with(s, "ok ") {
            self.push_ref(string_of(slice_subrange(s, 3, s.len())), None);
        } else if chars_start_with(s, "ng ") {
            let rest = slice_subrange(s, 3, s.len());
            let sp: usize = find_char(rest, ' ', 0);
            if sp < rest.len() {
                let name = string_of(slice_subrange(rest, 0, sp));
                let reason = string_of(slice_subrange(rest, sp + 1, rest.len()));
                self.push_ref(name, Some(reason));
            } else {
                let reason = string_of(chars_of("(no reason)").as_slice());
                self.push_ref(string_of(rest), Some(reason));
            }
        }
    }
}

/// Reads the report in an answer.
pub fn parse_report_status(bytes: &[u8]) -> (r: Result<Report, PktError>)
    ensures
        (match r {
            Ok(m) => report_in(bytes@) == Ok::<ReportModel, PktError>(m@),
            Err(e) => report_in(bytes@) == Err::<ReportModel, PktError>(e),
        }),
{
    let mut reader: &[u8] = bytes;
    let ls = match read_all(&mut reader) {
        Ok(ls) => ls,
        Err(e) => return Err(e),
    };
    let ghost all = views(ls@);
    let mut report = Report { unpacked: false, refs: Vec::new() };
    let mut i: usize = 0;
    assert(all.subrange(0, 0) =~= Seq::empty());
    assert(outcomes(report.refs@) =~= Seq::empty());
    while i < ls.len()
        invariant
            0 <= i <= ls@.len(),
            all == views(ls@),
            report@ == report_of(all.subrange(0, i as int)),
        decreases ls@.len() - i,
    {
        proof {
            let upto = all.subrange(0, i + 1);
            assert(upto.drop_last() =~= all.subrange(0, i as int));
            assert(upto.last() == ls@[i as int]@);
        }
        match &ls[i] {
            PktLine::Data(p) => {
                let cs = chars_of(utf8_lossy(p.as_slice()).as_str());
                report.read_line(trimmed_end(cs.as_slice()));
            },
            _ => {},
        }
        i += 1;
    }
    assert(all.subrange(0, i as int) =~= all);
    Ok(report)
}

/// Why the first report on a reference says it was refused, if it does.
pub open spec fn refusal(refs: Seq<(Seq<char>, Option<Seq<char>>)>, name: Seq<char>) -> Option<
    Seq<char>,
>
    decreases refs.len(),
{
    if refs.len() == 0 {
        None
    } else if refs[0].0 == name {
        refs[0].1
    } else {
        refusal(refs.drop_first(), name)
    }
}

fn find_refusal(refs: &Vec<(String, Option<String>)>, name: &str) -> (r: Option<String>)
    ensures
        opt_view(r) == refusal(outcomes(refs@), name@),
{
    let ghost all = outcomes(refs@);
    let mut i: usize = 0;
    assert(all.subrange(0, all.len() as int) =~= all);
    while i < refs.len()
        invariant
            0 <= i <= refs@.len(),
            all == outcomes(refs@),
            refusal(all, name@) == refusal(all.subrange(i as int, all.len() as int), name@),
        decreases refs@.len() - i,
    {
        proof {
            let rest = all.subrange(i as int, all.len() as int);
            assert(rest[0] == (refs@[i as int].0@, opt_view(refs@[i as int].1)));
            assert(rest.drop_first() =~= all.subrange(i + 1, all.len() as int));
        }
        if same_text(refs[i].0.as_str(), name) {
            return match &refs[i].1 {
                Some(s) => Some(string_of(chars_of(s.as_str()).as_slice())),
                None => None,
            };
        }
        i += 1;
    }
    None
}

/// How a push ended, from the answer of the remote.
pub fn push_outcome(request: &PushRequest, answer: &[u8]) -> (r: Result<PushResult, PushError>)
    ensures
        (match report_in(answer@) {
            Err(e) => r matches Err(PushError::Pkt(x)) && x == e,
            Ok(m) => if !m.unpacked {
                r matches Err(PushError::UnpackFailed)
            } else {
                r matches Ok(q) && q.refname@ == request.refname@ && q.old@ == request.old@
                    && q.new@ == request.new@ && opt_view(q.rejected) == refusal(
                    m.refs,
                    request.refname@,
                )
            },
        }),
{
    let report = match parse_report_status(answer) {
        Ok(m) => m,
        Err(e) => return Err(PushError::Pkt(e)),
    };
    if !report.unpacked {
        return Err(PushError::UnpackFailed);
    }
    Ok(
        PushResult {
            refname: string_of(chars_of(request.refname.as_str()).as_slice()),
            old: string_of(chars_of(request.old.as_str()).as_slice()),
            new: string_of(chars_of(request.new.as_str()).as_slice()),
            rejected: find_refusal(&report.refs, request.refname.as_str()),
        },
    )
}

/// The file that remembers where the remote's branch is, to write after a push; none where the
/// remote refused.
pub fn tracking_update(result: &PushResult, remote: &str, branch: &str) -> (r: Option<RefUpdate>)
    ensures
        opt_view(r) == (if result.rejected is Some {
            None::<UpdateModel>
        } else {
            Some(
                UpdateModel {
                    path: tracking_path(remote@, branch@),
                    content: result.new@.push('\n'),
                },
            )
        }),
{
    if result.rejected.is_some() {
        return None;
    }
    let mut content = string_of(chars_of(result.new.as_str()).as_slice());
    content.push('\n');
    Some(RefUpdate { path: tracking_ref(remote, branch), content })
}

/// How the outcome of a push is told.
pub open spec fn outcome_line(
    branch: Seq<char>,
    old_id: Seq<char>,
    new_id: Seq<char>,
    rejected: Option<Seq<char>>,
) -> Seq<char> {
    match rejected {
        Some(reason) => " ! [rejected]        "@ + branch + " -> "@ + branch + " ("@ + reason
            + ")"@,
        None => if old_id == zero_text() {
            " * [new branch]      "@ + branch + " -> "@ + branch
        } else {
            "   "@ + short(old_id) + ".."@ + short(new_id) + "  "@ + branch + " -> "@ + branch
        },
    }
}

/// What a push tells.
pub fn push_summary(url: &str, branch: &str, result: &PushResult) -> (r: Vec<String>)
    ensures
        views(r@) == seq![
            "To "@ + url@,
            outcome_line(branch@, result.old@, result.new@, opt_view(result.rejected)),
        ],
{
    let mut head = string_of(chars_of("To ").as_slice());
    head.append(url);
    let line = match &result.rejected {
        Some(reason) => {
            let mut line = string_of(chars_of(" ! [rejected]        ").as_slice());
            line.append(branch);
            line.append(" -> ");
            line.append(branch);
            line.append(" (");
            line.append(reason.as_str());
            line.append(")");
            line
        },
        None => {
            if same_text(result.old.as_str(), zero_oid().as_str()) {
                let mut line = string_of(chars_of(" * [new branch]      ").as_slice());
                line.append(branch);
                line.append(" -> ");
                line.append(branch);
                line
            } else {
                let mut line = string_of(chars_of("   ").as_slice());
                line.append(shortened(result.old.as_str()).as_str());
                line.append("..");
                line.append(shortened(result.new.as_str()).as_str());
                line.append("  ");
                line.append(branch);
                line.append(" -> ");
                line.append(branch);
                line
            }
        },
    };
    let ghost a = head@;
    let ghost b = line@;
    let out: Vec<String> = vec![head, line];
    assert(views(out@) =~= seq![a, b]);
    out
}

} // verus!
