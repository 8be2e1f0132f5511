//! Merging one conversation into another: the rounds after the point where they part are put in the
//! order of their times and numbered anew. Rounds are only ever added, so there are no conflicts.
use crate::ai::messages::{file_name, message_filename, Role};
use crate::byte_map::lookup;
use crate::commit_object::{commit_at, CommitModel, CommitObject};
use crate::first_parents::{chain, chain_fits, chain_ids, walk_first_parents, Chain};
use crate::head::{current, head_in, Head, HeadModel};
use crate::merge_base::{find_merge_base, meets, walk_fault};
use crate::numbers::{dec, push_dec};
use crate::object::{blob_in, read_loose_blob, tree_in, ObjectError, ObjectSha, TreeObject};
use crate::object_db::ObjectDb;
use crate::pull::{current_branch_name, short_branch};
use crate::reference::{commit_fault, read_ref, ref_in, RefError};
use crate::sorting::{in_order, is_ordered, law_in_order, sort, Ordered};
use crate::text::{
    chars_of, first_solid, first_solid_line, lemma_views_push, lines, lossy_text, opt_view,
    same_text, string_of, utf8_lossy, views,
};
use vstd::prelude::*;
use vstd::utf8::encode_utf8;

verus! {

/// Which of the two conversations a round comes from.
#[derive(Debug, Clone, Copy, PartialEq, Eq, Structural)]
pub enum Side {
    Ours,
    Theirs,
}

/// Which comes first at the same time.
pub open spec fn rank_of(side: Side) -> int {
    match side {
        Side::Ours => 0,
        Side::Theirs => 1,
    }
}

impl Side {
    /// Which comes first at the same time.
    pub fn rank(self) -> (r: u8)
        ensures
            r == rank_of(self),
    {
        match self {
            Side::Ours => 0,
            Side::Theirs => 1,
        }
    }
}

/// A round after the point where the conversations part.
#[derive(Debug, Clone, Copy, PartialEq, Eq, Structural)]
pub struct RoundRef {
    pub side: Side,
    /// Its number in its conversation.
    pub old_round: u32,
    /// When it was committed.
    pub time: i64,
}

impl View for RoundRef {
    type V = RoundRef;

    open spec fn view(&self) -> RoundRef {
        *self
    }
}

impl Ordered for RoundRef {
    open spec fn precedes(a: RoundRef, b: RoundRef) -> bool {
        a.time < b.time || a.time == b.time && (rank_of(a.side) < rank_of(b.side) || rank_of(a.side)
            == rank_of(b.side) && a.old_round < b.old_round)
    }

    proof fn lemma_order(a: RoundRef, b: RoundRef, c: RoundRef) {
    }

    fn comes_before(&self, other: &Self) -> (r: bool) {
        self.time < other.time || self.time == other.time && (self.side.rank() < other.side.rank()
            || self.side.rank() == other.side.rank() && self.old_round < other.old_round)
    }
}

/// Why conversations cannot be merged.
#[derive(Debug, Clone, Copy, PartialEq, Eq)]
pub enum ChatMergeError {
    /// `HEAD` cannot be read.
    Head(RefError),
    /// `HEAD` is on no branch.
    Detached,
    /// A branch cannot be merged into itself.
    SameBranch,
    /// The current branch has no commit.
    NoCommit(RefError),
    /// The other branch does not exist.
    NoBranch,
    /// The other branch cannot be read.
    BadBranch(RefError),
    /// The conversations have nothing in common.
    Unrelated,
    /// An object cannot be read.
    Object(ObjectError),
    /// One of the conversations is not a plain line of rounds.
    NotLinear,
    /// There are more rounds than files can be numbered for.
    TooLong,
    /// A round lacks one of its files.
    MissingFile { seq: u32, role: Role },
}

/// A round of the merged conversation.
#[derive(Debug)]
pub struct NewRound {
    pub user_file: String,
    pub user: Vec<u8>,
    pub assistant_file: String,
    pub assistant: Vec<u8>,
    /// What is shown of it.
    pub line: String,
}

/// The model of a [`NewRound`].
#[verifier::ext_equal]
pub struct NewRoundModel {
    pub user_file: Seq<char>,
    pub user: Seq<u8>,
    pub assistant_file: Seq<char>,
    pub assistant: Seq<u8>,
    pub line: Seq<char>,
}

impl View for NewRound {
    type V = NewRoundModel;

    open spec fn view(&self) -> NewRoundModel {
        NewRoundModel {
            user_file: self.user_file@,
            user: self.user@,
            assistant_file: self.assistant_file@,
            assistant: self.assistant@,
            line: self.line@,
        }
    }
}

/// What a merge does.
#[derive(Debug)]
pub enum ChatPlan {
    /// The other conversation is part of this one already.
    Contained,
    /// The branch moves on to the other one's last commit.
    FastForward(ObjectSha),
    /// Files are removed, then written, and the result is committed with `theirs` as its second
    /// parent.
    Join { remove: Vec<String>, rounds: Vec<NewRound>, theirs: ObjectSha, message: String },
}

/// The model of a [`ChatPlan`].
#[verifier::ext_equal]
pub enum ChatPlanModel {
    Contained,
    FastForward(ObjectSha),
    Join {
        remove: Seq<Seq<char>>,
        rounds: Seq<NewRoundModel>,
        theirs: ObjectSha,
        message: Seq<char>,
    },
}

impl View for ChatPlan {
    type V = ChatPlanModel;

    open spec fn view(&self) -> ChatPlanModel {
        match *self {
            ChatPlan::Contained => ChatPlanModel::Contained,
            ChatPlan::FastForward(oid) => ChatPlanModel::FastForward(oid),
            ChatPlan::Join { remove, rounds, theirs, message } => ChatPlanModel::Join {
                remove: views(remove@),
                rounds: views(rounds@),
                theirs,
                message: message@,
            },
        }
    }
}

/// The most rounds that files can be numbered for.
pub const MAX_ROUNDS: usize = 0x7fff_ffff;

/// The numbers of the two files of a round.
pub fn round_seqs(round: u32) -> (r: (u32, u32))
    requires
        round <= MAX_ROUNDS,
    ensures
        r.0 == 2 * round,
        r.1 == 2 * round + 1,
{
    (2 * round, 2 * round + 1)
}

/// The rounds of a line of commits, newest first, that come after the first `base`.
pub open spec fn rounds_after(
    db: Map<ObjectSha, Seq<u8>>,
    ids: Seq<ObjectSha>,
    base: int,
    side: Side,
) -> Seq<RoundRef> {
    Seq::new(
        (ids.len() - base) as nat,
        |i: int|
            RoundRef {
                side,
                old_round: (base + 1 + i) as u32,
                time: commit_at(db, ids[ids.len() - 1 - base - i])->Ok_0.committer.unix_time as i64,
            },
    )
}

/// Whether a commit is the `n`-th of a line, which is given newest first.
pub open spec fn stands_at(ids: Seq<ObjectSha>, n: int, oid: ObjectSha) -> bool {
    1 <= n <= ids.len() && ids[ids.len() - n] == oid
}

/// The names of the files of the rounds from one on, `n` of them.
pub open spec fn files_of_rounds(from: int, n: int) -> Seq<Seq<char>>
    decreases n,
{
    if n <= 0 {
        Seq::empty()
    } else {
        let round = from + n - 1;
        files_of_rounds(from, n - 1).push(file_name((2 * round) as nat, Role::User)).push(
            file_name((2 * round + 1) as nat, Role::Assistant),
        )
    }
}

/// What a file of a commit holds.
pub open spec fn file_at(db: Map<ObjectSha, Seq<u8>>, tip: ObjectSha, seq: u32, role: Role) -> Result<
    Seq<u8>,
    ChatMergeError,
> {
    match commit_at(db, tip) {
        Err(e) => Err(ChatMergeError::Object(e)),
        Ok(c) => match tree_in(db, c.tree) {
            Err(e) => Err(ChatMergeError::Object(e)),
            Ok(entries) => match lookup(entries, encode_utf8(file_name(seq as nat, role))) {
                None => Err(ChatMergeError::MissingFile { seq, role }),
                Some(entry) => match blob_in(db, entry.object_name) {
                    Err(e) => Err(ChatMergeError::Object(e)),
                    Ok(b) => Ok(b),
                },
            },
        },
    }
}

/// The first line of a content that is not blank.
pub open spec fn first_line_of(content: Seq<u8>) -> Seq<char> {
    match first_solid(lines(lossy_text(content))) {
        Some(s) => s,
        None => Seq::empty(),
    }
}

/// The branches that are merged and their last commits.
#[verifier::ext_equal]
pub struct Parties {
    pub our_branch: Seq<char>,
    pub their_branch: Seq<char>,
    pub ours: ObjectSha,
    pub theirs: ObjectSha,
}

/// A round under its new number.
pub open spec fn renumbered(
    db: Map<ObjectSha, Seq<u8>>,
    p: Parties,
    r: RoundRef,
    new_round: int,
) -> Result<NewRoundModel, ChatMergeError> {
    let tip = match r.side {
        Side::Ours => p.ours,
        Side::Theirs => p.theirs,
    };
    let origin = match r.side {
        Side::Ours => p.our_branch,
        Side::Theirs => p.their_branch,
    };
    match file_at(db, tip, (2 * r.old_round) as u32, Role::User) {
        Err(e) => Err(e),
        Ok(user) => match file_at(db, tip, (2 * r.old_round + 1) as u32, Role::Assistant) {
            Err(e) => Err(e),
            Ok(assistant) => Ok(
                NewRoundModel {
                    user_file: file_name((2 * new_round) as nat, Role::User),
                    user,
                    assistant_file: file_name((2 * new_round + 1) as nat, Role::Assistant),
                    assistant,
                    line: "  轮"@ + dec(new_round as nat) + " ← "@ + origin + " 旧轮"@ + dec(
                        r.old_round as nat,
                    ) + "  "@ + first_line_of(user),
                },
            ),
        },
    }
}

/// The first `n` rounds under their new numbers, which go on from `base`.
pub open spec fn new_rounds(
    db: Map<ObjectSha, Seq<u8>>,
    p: Parties,
    rounds: Seq<RoundRef>,
    base: int,
    n: int,
) -> Result<Seq<NewRoundModel>, ChatMergeError>
    decreases n,
{
    if n <= 0 {
        Ok(Seq::empty())
    } else {
        match new_rounds(db, p, rounds, base, n - 1) {
            Err(e) => Err(e),
            Ok(before) => match renumbered(db, p, rounds[n - 1], base + n) {
                Err(e) => Err(e),
                Ok(r) => Ok(before.push(r)),
            },
        }
    }
}

/// The order of the rounds in the merged conversation.
pub open spec fn merged_order(
    db: Map<ObjectSha, Seq<u8>>,
    ours: Seq<ObjectSha>,
    theirs: Seq<ObjectSha>,
    base: int,
) -> Seq<RoundRef> {
    in_order::<RoundRef>(
        rounds_after(db, ours, base, Side::Ours) + rounds_after(db, theirs, base, Side::Theirs),
    )
}

/// How two conversations are put together that part after the commit `base`.
pub open spec fn joined(db: Map<ObjectSha, Seq<u8>>, count: nat, p: Parties, base: ObjectSha) -> Result<
    ChatPlanModel,
    ChatMergeError,
> {
    let ours = chain(db, p.ours, count, true);
    let theirs = chain(db, p.theirs, count, true);
    let common = chain(db, base, count, true);
    let n = common.0.len() as int;
    match (ours.1, theirs.1, common.1) {
        (Some(e), _, _) => Err(ChatMergeError::Object(e)),
        (_, Some(e), _) => Err(ChatMergeError::Object(e)),
        (_, _, Some(e)) => Err(ChatMergeError::Object(e)),
        (None, None, None) => if !stands_at(ours.0, n, base) || !stands_at(theirs.0, n, base) {
            Err(ChatMergeError::NotLinear)
        } else if ours.0.len() + theirs.0.len() - n > MAX_ROUNDS {
            Err(ChatMergeError::TooLong)
        } else {
            let order = merged_order(db, ours.0, theirs.0, n);
            match new_rounds(db, p, order, n, order.len() as int) {
                Err(e) => Err(e),
                Ok(rounds) => Ok(
                    ChatPlanModel::Join {
                        remove: files_of_rounds(n + 1, ours.0.len() - n),
                        rounds,
                        theirs: p.theirs,
                        message: "Merge "@ + p.their_branch + " into "@ + p.our_branch,
                    },
                ),
            }
        },
    }
}

/// What merging does, once it is known where the conversations meet.
pub open spec fn merged_at(
    db: Map<ObjectSha, Seq<u8>>,
    count: nat,
    p: Parties,
    base: Option<ObjectSha>,
) -> Result<ChatPlanModel, ChatMergeError> {
    match base {
        None => Err(ChatMergeError::Unrelated),
        Some(b) => if b == p.theirs {
            Ok(ChatPlanModel::Contained)
        } else if b == p.ours {
            Ok(ChatPlanModel::FastForward(p.theirs))
        } else {
            joined(db, count, p, b)
        },
    }
}

/// Whether this is what merging does.
pub open spec fn merges_to(
    db: Map<ObjectSha, Seq<u8>>,
    count: nat,
    p: Parties,
    r: Result<ChatPlanModel, ChatMergeError>,
) -> bool {
    if p.ours == p.theirs {
        r == Ok::<ChatPlanModel, ChatMergeError>(ChatPlanModel::Contained)
    } else {
        ||| exists|base: Option<ObjectSha>| #[trigger]
            meets(db, p.ours, p.theirs, base) && r == merged_at(db, count, p, base)
        ||| exists|e: ObjectError| #[trigger]
            walk_fault(db, p.ours, p.theirs, e) && r == Err::<ChatPlanModel, ChatMergeError>(
                ChatMergeError::Object(e),
            )
    }
}

/// Who merges with whom.
pub open spec fn parties(
    db: Map<ObjectSha, Seq<u8>>,
    head: Seq<char>,
    our_tip: Option<Seq<char>>,
    their_branch: Seq<char>,
    their_tip: Option<Seq<char>>,
) -> Result<Parties, ChatMergeError> {
    match head_in(head) {
        Err(e) => Err(ChatMergeError::Head(e)),
        Ok(HeadModel::Commit(_)) => Err(ChatMergeError::Detached),
        Ok(HeadModel::Branch(path)) => {
            let our_branch = short_branch(path);
            if our_branch == their_branch {
                Err(ChatMergeError::SameBranch)
            } else {
                match current(db, HeadModel::Branch(path), our_tip) {
                    Err(e) => Err(ChatMergeError::NoCommit(e)),
                    Ok(ours) => match their_tip {
                        None => Err(ChatMergeError::NoBranch),
                        Some(content) => match ref_in(content) {
                            Err(e) => Err(ChatMergeError::BadBranch(e)),
                            Ok(theirs) => match commit_fault(db, theirs) {
                                Some(e) => Err(ChatMergeError::BadBranch(RefError::Object(e))),
                                None => Ok(Parties { our_branch, their_branch, ours, theirs }),
                            },
                        },
                    },
                }
            }
        },
    }
}

fn collect_rounds(db: &ObjectDb, c: &Chain, base: usize, side: Side, out: &mut Vec<RoundRef>)
    requires
        chain_fits(db@, c.commits@),
        base <= c.commits@.len() <= MAX_ROUNDS,
    ensures
        final(out)@ == old(out)@ + rounds_after(db@, chain_ids(c.commits@), base as int, side),
{
    let ghost ids = chain_ids(c.commits@);
    let ghost goal = rounds_after(db@, ids, base as int, side);
    let ghost start = out@;
    let n: usize = c.commits.len();
    let mut i: usize = 0;
    assert(start + goal.subrange(0, 0) =~= start);
    while i < n - base
        invariant
            n == c.commits@.len(),
            base <= n <= MAX_ROUNDS,
            0 <= i <= n - base,
            chain_fits(db@, c.commits@),
            ids == chain_ids(c.commits@),
            goal == rounds_after(db@, ids, base as int, side),
            out@ == start + goal.subrange(0, i as int),
        decreases n - base - i,
    {
        let k: usize = n - 1 - base - i;
        let commit = &c.commits[k].1;
        assert(commit_at(db@, c.commits@[k as int].0) == Ok::<CommitModel, ObjectError>(commit@));
        assert(ids[ids.len() - 1 - base - i] == c.commits@[k as int].0);
        out.push(
            RoundRef { side, old_round: (base + 1 + i) as u32, time: commit.committer.unix_time },
        );
        i += 1;
        assert(out@ =~= start + goal.subrange(0, i as int));
    }
    assert(goal.subrange(0, i as int) =~= goal);
}

fn ensure_linear_at_base(c: &Chain, n: usize, base: &ObjectSha) -> (r: bool)
    ensures
        r == stands_at(chain_ids(c.commits@), n as int, *base),
{
    if n < 1 || n > c.commits.len() {
        return false;
    }
    assert(chain_ids(c.commits@)[c.commits@.len() - n] == c.commits@[c.commits@.len() - n].0);
    c.commits[c.commits.len() - n].0 == *base
}

/// The names of the files of the rounds in a range.
pub fn remove_rounds(from: u32, n: u32) -> (r: Vec<String>)
    requires
        1 <= from,
        from + n <= MAX_ROUNDS + 1,
    ensures
        views(r@) == files_of_rounds(from as int, n as int),
{
    let mut out: Vec<String> = Vec::new();
    let mut i: u32 = 0;
    assert(views(out@) =~= Seq::empty());
    while i < n
        invariant
            0 <= i <= n,
            1 <= from,
            from + n <= MAX_ROUNDS + 1,
            views(out@) == files_of_rounds(from as int, i as int),
        decreases n - i,
    {
        let (user, assistant) = round_seqs(from + i);
        let a = message_filename(user, Role::User);
        let b = message_filename(assistant, Role::Assistant);
        proof {
            lemma_views_push(out@, a);
            lemma_views_push(out@.push(a), b);
        }
        out.push(a);
        out.push(b);
        i += 1;
    }
    out
}

fn lookup_blob(db: &ObjectDb, tip: &ObjectSha, seq: u32, role: Role) -> (r: Result<
    Vec<u8>,
    ChatMergeError,
>)
    ensures
        (match file_at(db@, *tip, seq, role) {
            Ok(b) => r is Ok && r->Ok_0@ == b,
            Err(e) => r is Err && r->Err_0 == e,
        }),
{
    let commit = match CommitObject::read_loose_commit(db, tip) {
        Ok(c) => c,
        Err(e) => return Err(ChatMergeError::Object(e)),
    };
    let tree = match TreeObject::read_loose_tree(db, &commit.tree) {
        Ok(t) => t,
        Err(e) => return Err(ChatMergeError::Object(e)),
    };
    let name = message_filename(seq, role);
    match tree.entries().get(name.as_str().as_bytes()) {
        None => Err(ChatMergeError::MissingFile { seq, role }),
        Some(entry) => match read_loose_blob(db, &entry.object_name) {
            Ok(b) => Ok(b),
            Err(e) => Err(ChatMergeError::Object(e)),
        },
    }
}

/// The first line of a content that is not blank.
pub fn first_line(content: &[u8]) -> (r: String)
    ensures
        r@ == first_line_of(content@),
{
    let cs = chars_of(utf8_lossy(content).as_str());
    match first_solid_line(cs.as_slice()) {
        Some(s) => string_of(s.as_slice()),
        None => {
            let s = String::new();
            assert(s@ =~= Seq::empty());
            s
        },
    }
}

fn renumber(
    db: &ObjectDb,
    our_branch: &str,
    their_branch: &str,
    ours: &ObjectSha,
    theirs: &ObjectSha,
    r: RoundRef,
    new_round: u32,
) -> (res: Result<NewRound, ChatMergeError>)
    requires
        1 <= r.old_round <= MAX_ROUNDS,
        new_round <= MAX_ROUNDS,
    ensures
        (match renumbered(
            db@,
            Parties {
                our_branch: our_branch@,
                their_branch: their_branch@,
                ours: *ours,
                theirs: *theirs,
            },
            r,
            new_round as int,
        ) {
            Ok(n) => res is Ok && res->Ok_0@ == n,
            Err(e) => res is Err && res->Err_0 == e,
        }),
{
    let tip = match r.side {
        Side::Ours => ours,
        Side::Theirs => theirs,
    };
    let (u, a) = round_seqs(r.old_round);
    let user = match lookup_blob(db, tip, u, Role::User) {
        Ok(b) => b,
        Err(e) => return Err(e),
    };
    let assistant = match lookup_blob(db, tip, a, Role::Assistant) {
        Ok(b) => b,
        Err(e) => return Err(e),
    };
    let mut line = string_of(chars_of("  轮").as_slice());
    push_dec(&mut line, new_round as u64);
    line.append(" ← ");
    line.append(
        match r.side {
            Side::Ours => our_branch,
            Side::Theirs => their_branch,
        },
    );
    line.append(" 旧轮");
    push_dec(&mut line, r.old_round as u64);
    line.append("  ");
    line.append(first_line(user.as_slice()).as_str());
    let (nu, na) = round_seqs(new_round);
    Ok(
        NewRound {
            user_file: message_filename(nu, Role::User),
            user,
            assistant_file: message_filename(na, Role::Assistant),
            assistant,
            line,
        },
    )
}

proof fn lemma_new_rounds_stop(
    db: Map<ObjectSha, Seq<u8>>,
    p: Parties,
    rounds: Seq<RoundRef>,
    base: int,
    n: int,
    m: int,
)
    requires
        0 <= n <= m,
        new_rounds(db, p, rounds, base, n) is Err,
    ensures
        new_rounds(db, p, rounds, base, m) == new_rounds(db, p, rounds, base, n),
    decreases m - n,
{
    if n < m {
        lemma_new_rounds_stop(db, p, rounds, base, n + 1, m);
    }
}

/// Every round of the merged order is one of the rounds of either side.
proof fn lemma_order_rounds(
    db: Map<ObjectSha, Seq<u8>>,
    ours: Seq<ObjectSha>,
    theirs: Seq<ObjectSha>,
    base: int,
    i: int,
)
    requires
        0 <= base <= ours.len() <= MAX_ROUNDS,
        base <= theirs.len() <= MAX_ROUNDS,
        0 <= i < merged_order(db, ours, theirs, base).len(),
    ensures
        merged_order(db, ours, theirs, base).len() == ours.len() + theirs.len() - 2 * base,
        1 <= merged_order(db, ours, theirs, base)[i].old_round <= MAX_ROUNDS,
{
    broadcast use vstd::seq_lib::group_to_multiset_ensures;

    let a = rounds_after(db, ours, base, Side::Ours);
    let b = rounds_after(db, theirs, base, Side::Theirs);
    let s = a + b;
    let r = merged_order(db, ours, theirs, base);
    law_in_order::<RoundRef>(s);
    assert(r.contains(r[i]));
    assert(s.to_multiset().contains(r[i]));
    assert(s.contains(r[i]));
    let k = choose|k: int| 0 <= k < s.len() && s[k] == r[i];
    if k < a.len() {
        assert(s[k] == a[k]);
    } else {
        assert(s[k] == b[k - a.len()]);
    }
}

fn join(
    db: &ObjectDb,
    our_branch: &str,
    their_branch: &str,
    ours: &ObjectSha,
    theirs: &ObjectSha,
    base: &ObjectSha,
) -> (r: Result<ChatPlan, ChatMergeError>)
    ensures
        (match joined(
            db@,
            db.count(),
            Parties {
                our_branch: our_branch@,
                their_branch: their_branch@,
                ours: *ours,
                theirs: *theirs,
            },
            *base,
        ) {
            Ok(p) => r is Ok && r->Ok_0@ == p,
            Err(e) => r is Err && r->Err_0 == e,
        }),
{
    let ghost p = Parties {
        our_branch: our_branch@,
        their_branch: their_branch@,
        ours: *ours,
        theirs: *theirs,
    };
    let our_chain = walk_first_parents(db, ours, db.len(), true);
    if let Some(e) = our_chain.fault {
        return Err(ChatMergeError::Object(e));
    }
    let their_chain = walk_first_parents(db, theirs, db.len(), true);
    if let Some(e) = their_chain.fault {
        return Err(ChatMergeError::Object(e));
    }
    let common = walk_first_parents(db, base, db.len(), true);
    if let Some(e) = common.fault {
        return Err(ChatMergeError::Object(e));
    }
    let n: usize = common.commits.len();
    let ghost our_ids = chain_ids(our_chain.commits@);
    let ghost their_ids = chain_ids(their_chain.commits@);
    assert(chain_ids(common.commits@).len() == n);
    if !ensure_linear_at_base(&our_chain, n, base) || !ensure_linear_at_base(&their_chain, n, base) {
        return Err(ChatMergeError::NotLinear);
    }
    let lo: usize = our_chain.commits.len();
    let lt: usize = their_chain.commits.len();
    if lo > MAX_ROUNDS || lt > MAX_ROUNDS || lo - n + lt > MAX_ROUNDS {
        return Err(ChatMergeError::TooLong);
    }
    let mut after: Vec<RoundRef> = Vec::new();
    collect_rounds(db, &our_chain, n, Side::Ours, &mut after);
    collect_rounds(db, &their_chain, n, Side::Theirs, &mut after);
    proof {
        let all = rounds_after(db@, our_ids, n as int, Side::Ours) + rounds_after(
            db@,
            their_ids,
            n as int,
            Side::Theirs,
        );
        assert(after@ =~= all);
        assert(views(after@) =~= all);
    }
    let order = sort(after);
    let ghost goal = merged_order(db@, our_ids, their_ids, n as int);
    proof {
        assert(views(order@) =~= order@);
        assert(order@ == goal);
        law_in_order::<RoundRef>(
            rounds_after(db@, our_ids, n as int, Side::Ours) + rounds_after(
                db@,
                their_ids,
                n as int,
                Side::Theirs,
            ),
        );
        assert(goal.len() == lo + lt - 2 * n);
    }
    let mut rounds: Vec<NewRound> = Vec::new();
    let mut i: usize = 0;
    assert(views(rounds@) =~= Seq::empty());
    while i < order.len()
        invariant
            0 <= i <= order@.len(),
            order@ == goal,
            goal == merged_order(db@, our_ids, their_ids, n as int),
            goal.len() == lo + lt - 2 * n,
            our_ids.len() == lo,
            their_ids.len() == lt,
            n <= lo <= MAX_ROUNDS,
            n <= lt <= MAX_ROUNDS,
            lo - n + lt <= MAX_ROUNDS,
            p == (Parties {
                our_branch: our_branch@,
                their_branch: their_branch@,
                ours: *ours,
                theirs: *theirs,
            }),
            chain(db@, *ours, db.count(), true) == (our_ids, None::<ObjectError>),
            chain(db@, *theirs, db.count(), true) == (their_ids, None::<ObjectError>),
            chain(db@, *base, db.count(), true).0.len() == n,
            chain(db@, *base, db.count(), true).1 is None,
            stands_at(our_ids, n as int, *base),
            stands_at(their_ids, n as int, *base),
            new_rounds(db@, p, goal, n as int, i as int) == Ok::<
                Seq<NewRoundModel>,
                ChatMergeError,
            >(views(rounds@)),
        decreases order@.len() - i,
    {
        proof {
            lemma_order_rounds(db@, our_ids, their_ids, n as int, i as int);
        }
        let new_round: u32 = (n + 1 + i) as u32;
        match renumber(db, our_branch, their_branch, ours, theirs, order[i], new_round) {
            Ok(x) => {
                proof {
                    lemma_views_push(rounds@, x);
                }
                rounds.push(x);
            },
            Err(e) => {
                proof {
                    lemma_new_rounds_stop(db@, p, goal, n as int, i + 1, goal.len() as int);
                }
                return Err(e);
            },
        }
        i += 1;
    }
    let remove = remove_rounds((n + 1) as u32, (lo - n) as u32);
    let mut message = string_of(chars_of("Merge ").as_slice());
    message.append(their_branch);
    message.append(" into ");
    message.append(our_branch);
    Ok(ChatPlan::Join { remove, rounds, theirs: *theirs, message })
}

/// Merges the conversation on another branch into the current one. `head` is the content of `HEAD`;
/// `our_tip` and `their_tip` are those of the branches' references, if they exist.
pub fn merge(
    db: &ObjectDb,
    head: &str,
    our_tip: Option<&str>,
    their_branch: &str,
    their_tip: Option<&str>,
) -> (r: Result<ChatPlan, ChatMergeError>)
    ensures
        (match parties(db@, head@, opt_view(our_tip), their_branch@, opt_view(their_tip)) {
            Err(e) => r is Err && r->Err_0 == e,
            Ok(p) => merges_to(db@, db.count(), p, crate::text::res_view(r)),
        }),
{
    let h = match Head::read(head) {
        Ok(h) => h,
        Err(e) => return Err(ChatMergeError::Head(e)),
    };
    let our_branch = match current_branch_name(&h) {
        Some(name) => name,
        None => return Err(ChatMergeError::Detached),
    };
    if same_text(our_branch.as_str(), their_branch) {
        return Err(ChatMergeError::SameBranch);
    }
    let ours = match h.current_commit(db, our_tip) {
        Ok(oid) => oid,
        Err(e) => return Err(ChatMergeError::NoCommit(e)),
    };
    let theirs = match their_tip {
        None => return Err(ChatMergeError::NoBranch),
        Some(content) => match read_ref(db, content) {
            Ok(found) => found.commit_id,
            Err(e) => return Err(ChatMergeError::BadBranch(e)),
        },
    };
    let ghost p = Parties {
        our_branch: our_branch@,
        their_branch: their_branch@,
        ours,
        theirs,
    };
    assert(parties(db@, head@, opt_view(our_tip), their_branch@, opt_view(their_tip)) == Ok::<
        Parties,
        ChatMergeError,
    >(p));
    let base = match find_merge_base(db, &ours, &theirs) {
        Ok(b) => b,
        Err(e) => {
            assert(walk_fault(db@, p.ours, p.theirs, e));
            return Err(ChatMergeError::Object(e));
        },
    };
    assert(ours != theirs ==> meets(db@, ours, theirs, base));
    let b = match base {
        Some(b) => b,
        None => return Err(ChatMergeError::Unrelated),
    };
    if b == theirs {
        return Ok(ChatPlan::Contained);
    }
    if b == ours {
        return Ok(ChatPlan::FastForward(theirs));
    }
    let r = join(db, our_branch.as_str(), their_branch, &ours, &theirs, &b);
    assert(crate::text::res_view(r) == merged_at(db@, db.count(), p, base));
    r
}

/// The merged conversation holds every round of either side after the point where they part, each
/// once, in the order of their times.
pub proof fn law_merge_keeps_rounds(
    db: Map<ObjectSha, Seq<u8>>,
    ours: Seq<ObjectSha>,
    theirs: Seq<ObjectSha>,
    base: int,
)
    ensures
        merged_order(db, ours, theirs, base).to_multiset() == rounds_after(
            db,
            ours,
            base,
            Side::Ours,
        ).to_multiset().add(rounds_after(db, theirs, base, Side::Theirs).to_multiset()),
        is_ordered::<RoundRef>(merged_order(db, ours, theirs, base)),
{
    let a = rounds_after(db, ours, base, Side::Ours);
    let b = rounds_after(db, theirs, base, Side::Theirs);
    law_in_order::<RoundRef>(a + b);
    vstd::seq_lib::lemma_multiset_commutative(a, b);
}

/// Rounds of one side keep their order in the merged conversation, as long as their times do not
/// run backwards.
pub proof fn law_merge_keeps_order(
    db: Map<ObjectSha, Seq<u8>>,
    ours: Seq<ObjectSha>,
    theirs: Seq<ObjectSha>,
    base: int,
    i: int,
    j: int,
)
    requires
        0 <= i < merged_order(db, ours, theirs, base).len(),
        0 <= j < merged_order(db, ours, theirs, base).len(),
        ({
            let x = merged_order(db, ours, theirs, base)[i];
            let y = merged_order(db, ours, theirs, base)[j];
            x.side == y.side && x.old_round < y.old_round && x.time <= y.time
        }),
    ensures
        i < j,
{
    law_merge_keeps_rounds(db, ours, theirs, base);
    let r = merged_order(db, ours, theirs, base);
    assert(RoundRef::precedes(r[i], r[j]));
    if j < i {
        assert(!RoundRef::precedes(r[i], r[j]));
    }
}

} // verus!
