//! Showing conversations: the rounds of the current one, and the tree of all of them.
use crate::ai::cli::{shorten_to, shortened_to};
use crate::ai::messages::{prompts, prompts_of, rounds_in, Message, MessageModel};
use crate::ai::reachable::{collect_commits, found_ids, spreads_to};
use crate::bytes::{
    bytes_lt, copy_bytes, lemma_lex_asymmetric, lemma_lex_total, lemma_lex_transitive, lex_lt,
    starts_with,
};
use crate::commit_object::{commit_at, CommitModel};
use crate::head::{current, head_in, Head, HeadModel};
use crate::index::{forward_slashes, with_forward_slashes};
use crate::numbers::{dec, hex_of, push_dec};
use crate::object::{ObjectError, ObjectSha};
use crate::object_db::ObjectDb;
use crate::pull::{branch_name, current_branch_name};
use crate::reference::{commit_fault, read_ref, ref_in, RefError};
use crate::sorting::{in_order, sort, Ordered};
use crate::text::{
    chars_of, chars_start_with, first_solid, first_solid_line, lemma_views_push, lines, lines_of,
    lossy_text, opt_view, same_text, string_of, trim, trimmed, utf8_lossy, views,
};
use vstd::prelude::*;
use vstd::slice::slice_subrange;
use vstd::utf8::encode_utf8;

verus! {

/// The most characters of a message that a line shows.
pub const LINE_SUMMARY_MAX: usize = 40;

/// What is shown of a message: its first line that is not blank, not too long.
pub open spec fn line_of(content: Seq<char>) -> Seq<char> {
    shortened_to(
        match first_solid(lines(content)) {
            Some(s) => s,
            None => Seq::empty(),
        },
        LINE_SUMMARY_MAX as int,
    )
}

/// Shows a message in one line.
pub fn line_summary(content: &str) -> (r: String)
    ensures
        r@ == line_of(content@),
{
    let cs = chars_of(content);
    match first_solid_line(cs.as_slice()) {
        Some(s) => shorten_to(s.as_slice(), LINE_SUMMARY_MAX),
        None => {
            let s = String::new();
            assert(s@ =~= shortened_to(Seq::empty(), LINE_SUMMARY_MAX as int));
            s
        },
    }
}

/// The first eight characters of a text.
pub open spec fn first_eight(s: Seq<char>) -> Seq<char> {
    if s.len() < 8 {
        s
    } else {
        s.subrange(0, 8)
    }
}

/// The first eight digits of an id.
pub fn short_hex(oid: &ObjectSha) -> (r: String)
    ensures
        r@ == first_eight(hex_of(oid@)),
{
    let cs = chars_of(oid.to_string().as_str());
    if cs.len() < 8 {
        string_of(cs.as_slice())
    } else {
        string_of(slice_subrange(cs.as_slice(), 0, 8))
    }
}

/// What is shown where there is nothing to show.
pub open spec fn nothing_yet() -> Seq<char> {
    "(还没有任何对话轮次,先用 `giftai ask \"...\"` 开始)"@
}

fn nothing_line() -> (r: String)
    ensures
        r@ == nothing_yet(),
{
    string_of(chars_of("(还没有任何对话轮次,先用 `giftai ask \"...\"` 开始)").as_slice())
}

/// The line above the rounds: the commit, the branch and the number of rounds.
pub open spec fn log_title(node: Option<ObjectSha>, branch: Option<Seq<char>>, total: nat) -> Seq<
    char,
> {
    "当前节点 "@ + (match node {
        Some(oid) => first_eight(hex_of(oid@)),
        None => "(未提交)"@,
    }) + (match branch {
        Some(name) => " ("@ + name + ")"@,
        None => Seq::empty(),
    }) + "   共 "@ + dec(total) + " 轮"@
}

/// The line for a round, which is counted from one.
pub open spec fn round_line(rest: Seq<MessageModel>, round: int) -> Seq<char> {
    "轮"@ + dec(round as nat) + "  "@ + line_of(rest[2 * round - 2].content) + "  → "@ + (if 2
        * round - 1 < rest.len() {
        line_of(rest[2 * round - 1].content)
    } else {
        "(无回答)"@
    })
}

/// The commit that `HEAD` stands for, where that can be told.
pub open spec fn node_of(
    db: Map<ObjectSha, Seq<u8>>,
    head: Option<HeadModel>,
    tip: Option<Seq<char>>,
) -> Option<ObjectSha> {
    match head {
        Some(h) => match current(db, h, tip) {
            Ok(oid) => Some(oid),
            Err(_) => None,
        },
        None => None,
    }
}

/// The branch that `HEAD` is on, where that can be told.
pub open spec fn branch_of(head: Option<HeadModel>) -> Option<Seq<char>> {
    match head {
        Some(h) => branch_name(h),
        None => None,
    }
}

/// How the rounds of a conversation are shown.
pub open spec fn log_of(
    ms: Seq<MessageModel>,
    node: Option<ObjectSha>,
    branch: Option<Seq<char>>,
) -> Seq<Seq<char>> {
    let rest = ms.subrange(prompts(ms), ms.len() as int);
    let total = rounds_in(rest.len() as int);
    if total == 0 {
        seq![nothing_yet()]
    } else {
        seq![log_title(node, branch, total as nat)] + Seq::new(
            total as nat,
            |i: int| round_line(rest, i + 1),
        )
    }
}

/// Shows the rounds of the current conversation. `head` is what `HEAD` points at, if it can be
/// read, and `tip` the content of the reference of its branch.
pub fn log(db: &ObjectDb, messages: &[Message], head: Option<&Head>, tip: Option<&str>) -> (r: Vec<
    String,
>)
    ensures
        views(r@) == log_of(
            views(messages@),
            node_of(db@, opt_view(head), opt_view(tip)),
            branch_of(opt_view(head)),
        ),
{
    let ghost ms = views(messages@);
    let n: usize = prompts_of(messages);
    let rest = slice_subrange(messages, n, messages.len());
    let ghost rs = ms.subrange(n as int, ms.len() as int);
    assert(views(rest@) =~= rs);
    let total: usize = rest.len() / 2 + rest.len() % 2;
    assert(total == rounds_in(rs.len() as int));
    let mut out: Vec<String> = Vec::new();
    if total == 0 {
        out.push(nothing_line());
        assert(views(out@) =~= seq![nothing_yet()]);
        return out;
    }
    let node = match head {
        Some(h) => match h.current_commit(db, tip) {
            Ok(oid) => Some(oid),
            Err(_) => None,
        },
        None => None,
    };
    let branch = match head {
        Some(h) => current_branch_name(h),
        None => None,
    };
    let mut title = string_of(chars_of("当前节点 ").as_slice());
    match &node {
        Some(oid) => {
            title.append(short_hex(oid).as_str());
        },
        None => {
            title.append("(未提交)");
        },
    }
    let ghost so_far = title@;
    match &branch {
        Some(name) => {
            title.append(" (");
            title.append(name.as_str());
            title.append(")");
            assert(title@ =~= so_far + (" ("@ + name@ + ")"@));
        },
        None => {
            assert(title@ =~= so_far + Seq::empty());
        },
    }
    title.append("   共 ");
    push_dec(&mut title, total as u64);
    title.append(" 轮");
    let ghost first = log_title(node, opt_view(branch), total as nat);
    assert(title@ == first);
    out.push(title);
    let ghost goal = Seq::new(total as nat, |i: int| round_line(rs, i + 1));
    let mut i: usize = 0;
    assert(views(out@) =~= seq![first] + goal.subrange(0, 0));
    while i < total
        invariant
            0 <= i <= total,
            rs == views(rest@),
            rest@.len() <= usize::MAX,
            total == rounds_in(rs.len() as int),
            goal.len() == total,
            forall|j: int| 0 <= j < total ==> #[trigger] goal[j] == round_line(rs, j + 1),
            views(out@) == seq![first] + goal.subrange(0, i as int),
        decreases total - i,
    {
        let mut line = string_of(chars_of("轮").as_slice());
        push_dec(&mut line, (i + 1) as u64);
        line.append("  ");
        assert(rs[2 * i] == rest@[2 * i]@);
        line.append(line_summary(rest[2 * i].content.as_str()).as_str());
        line.append("  → ");
        if rest.len() - 2 * i >= 2 {
            assert(rs[2 * i + 1] == rest@[2 * i + 1]@);
            line.append(line_summary(rest[2 * i + 1].content.as_str()).as_str());
        } else {
            line.append("(无回答)");
        }
        assert(line@ == goal[i as int]);
        proof {
            lemma_views_push(out@, line);
        }
        out.push(line);
        i += 1;
        assert(views(out@) =~= seq![first] + goal.subrange(0, i as int));
    }
    assert(goal.subrange(0, i as int) =~= goal);
    out
}

/// The file of a branch: its path below `refs/heads`, and its content.
#[derive(Debug)]
pub struct BranchFile {
    pub name: String,
    pub content: String,
}

/// The model of a [`BranchFile`].
#[verifier::ext_equal]
pub struct BranchFileModel {
    pub name: Seq<char>,
    pub content: Seq<char>,
}

impl View for BranchFile {
    type V = BranchFileModel;

    open spec fn view(&self) -> BranchFileModel {
        BranchFileModel { name: self.name@, content: self.content@ }
    }
}

/// A branch and its last commit.
#[derive(Debug)]
pub struct BranchTip {
    pub name: String,
    pub oid: ObjectSha,
}

/// The model of a [`BranchTip`].
#[verifier::ext_equal]
pub struct TipModel {
    pub name: Seq<char>,
    pub oid: ObjectSha,
}

impl View for BranchTip {
    type V = TipModel;

    open spec fn view(&self) -> TipModel {
        TipModel { name: self.name@, oid: self.oid }
    }
}

proof fn lemma_lex_order(a: Seq<u8>, b: Seq<u8>, c: Seq<u8>)
    ensures
        lex_lt(a, b) ==> !lex_lt(b, a),
        !lex_lt(a, b) && !lex_lt(b, c) ==> !lex_lt(a, c),
{
    if lex_lt(a, b) {
        lemma_lex_asymmetric(a, b);
    }
    if !lex_lt(a, b) && !lex_lt(b, c) && lex_lt(a, c) {
        lemma_lex_total(a, b);
        lemma_lex_total(b, c);
        if a != b && b != c {
            lemma_lex_transitive(c, b, a);
            lemma_lex_asymmetric(a, c);
        }
    }
}

impl Ordered for BranchTip {
    open spec fn precedes(a: TipModel, b: TipModel) -> bool {
        lex_lt(encode_utf8(a.name), encode_utf8(b.name))
    }

    proof fn lemma_order(a: TipModel, b: TipModel, c: TipModel) {
        lemma_lex_order(encode_utf8(a.name), encode_utf8(b.name), encode_utf8(c.name));
    }

    fn comes_before(&self, other: &Self) -> (r: bool) {
        bytes_lt(self.name.as_str().as_bytes(), other.name.as_str().as_bytes())
    }
}

/// The branches that some files stand for, in the order of the files.
pub open spec fn tips_in(db: Map<ObjectSha, Seq<u8>>, files: Seq<BranchFileModel>) -> Result<
    Seq<TipModel>,
    RefError,
>
    decreases files.len(),
{
    if files.len() == 0 {
        Ok(Seq::empty())
    } else {
        match tips_in(db, files.drop_last()) {
            Err(e) => Err(e),
            Ok(before) => match ref_in(files.last().content) {
                Err(e) => Err(e),
                Ok(oid) => match commit_fault(db, oid) {
                    Some(e) => Err(RefError::Object(e)),
                    None => Ok(
                        before.push(TipModel { name: forward_slashes(files.last().name), oid }),
                    ),
                },
            },
        }
    }
}

proof fn lemma_tips_stop(db: Map<ObjectSha, Seq<u8>>, files: Seq<BranchFileModel>, n: int)
    requires
        0 <= n <= files.len(),
        tips_in(db, files.subrange(0, n)) is Err,
    ensures
        tips_in(db, files) == tips_in(db, files.subrange(0, n)),
    decreases files.len() - n,
{
    if n == files.len() {
        assert(files.subrange(0, n) =~= files);
    } else {
        assert(files.subrange(0, n + 1).drop_last() =~= files.subrange(0, n));
        lemma_tips_stop(db, files, n + 1);
    }
}

/// The branches that some files stand for, by their names.
pub fn list_branches(db: &ObjectDb, files: &[BranchFile]) -> (r: Result<Vec<BranchTip>, RefError>)
    ensures
        (match tips_in(db@, views(files@)) {
            Ok(tips) => r is Ok && views(r->Ok_0@) == in_order::<BranchTip>(tips),
            Err(e) => r is Err && r->Err_0 == e,
        }),
{
    let ghost all = views(files@);
    let mut out: Vec<BranchTip> = Vec::new();
    let mut i: usize = 0;
    assert(all.subrange(0, 0) =~= Seq::empty());
    assert(views(out@) =~= Seq::empty());
    while i < files.len()
        invariant
            0 <= i <= files@.len(),
            all == views(files@),
            tips_in(db@, all.subrange(0, i as int)) == Ok::<Seq<TipModel>, RefError>(views(out@)),
        decreases files@.len() - i,
    {
        let f = &files[i];
        proof {
            let upto = all.subrange(0, i + 1);
            assert(upto.drop_last() =~= all.subrange(0, i as int));
            assert(upto.last() == f@);
        }
        match read_ref(db, f.content.as_str()) {
            Err(e) => {
                proof {
                    lemma_tips_stop(db@, all, i + 1);
                }
                return Err(e);
            },
            Ok(found) => {
                let cs = chars_of(f.name.as_str());
                let name = string_of(with_forward_slashes(cs.as_slice()).as_slice());
                let tip = BranchTip { name, oid: found.commit_id };
                proof {
                    lemma_views_push(out@, tip);
                }
                out.push(tip);
            },
        }
        i += 1;
    }
    assert(all.subrange(0, i as int) =~= all);
    Ok(sort(out))
}

/// A commit as the tree of conversations shows it.
#[derive(Debug)]
pub struct GraphRow {
    pub oid: ObjectSha,
    /// The first parent.
    pub parent: Option<ObjectSha>,
    /// When it was committed.
    pub time: i64,
    pub message: Vec<u8>,
}

/// The model of a [`GraphRow`].
#[verifier::ext_equal]
pub struct RowModel {
    pub oid: ObjectSha,
    pub parent: Option<ObjectSha>,
    pub time: int,
    pub message: Seq<u8>,
}

impl View for GraphRow {
    type V = RowModel;

    open spec fn view(&self) -> RowModel {
        RowModel {
            oid: self.oid,
            parent: self.parent,
            time: self.time as int,
            message: self.message@,
        }
    }
}

impl Ordered for GraphRow {
    open spec fn precedes(a: RowModel, b: RowModel) -> bool {
        a.time < b.time || a.time == b.time && lex_lt(a.oid@, b.oid@)
    }

    proof fn lemma_order(a: RowModel, b: RowModel, c: RowModel) {
        lemma_lex_order(a.oid@, b.oid@, c.oid@);
    }

    fn comes_before(&self, other: &Self) -> (r: bool) {
        self.time < other.time || self.time == other.time && bytes_lt(
            self.oid.as_bytes(),
            other.oid.as_bytes(),
        )
    }
}

/// The row for a commit of the store.
pub open spec fn row_of(db: Map<ObjectSha, Seq<u8>>, oid: ObjectSha) -> RowModel {
    let c = commit_at(db, oid)->Ok_0;
    RowModel {
        oid,
        parent: if c.parents.len() > 0 {
            Some(c.parents[0])
        } else {
            None
        },
        time: c.committer.unix_time,
        message: c.message,
    }
}

/// The rows for commits of the store.
pub open spec fn rows_of(db: Map<ObjectSha, Seq<u8>>, ids: Seq<ObjectSha>) -> Seq<RowModel> {
    Seq::new(ids.len(), |i: int| row_of(db, ids[i]))
}

/// What the tree of conversations is drawn from.
#[derive(Debug)]
pub struct Graph {
    /// The commits, oldest first.
    pub rows: Vec<GraphRow>,
    /// The branches by their names.
    pub branches: Vec<BranchTip>,
    /// The branch that `HEAD` is on.
    pub current: Option<String>,
    /// The commit that `HEAD` is at, where it is on no branch.
    pub detached: Option<ObjectSha>,
}

/// The model of a [`Graph`].
#[verifier::ext_equal]
pub struct GraphModel {
    pub rows: Seq<RowModel>,
    pub branches: Seq<TipModel>,
    pub current: Option<Seq<char>>,
    pub detached: Option<ObjectSha>,
}

impl View for Graph {
    type V = GraphModel;

    open spec fn view(&self) -> GraphModel {
        GraphModel {
            rows: views(self.rows@),
            branches: views(self.branches@),
            current: opt_view(self.current),
            detached: self.detached,
        }
    }
}

/// The summary that a commit's message gives.
pub open spec fn summary_in(message: Seq<u8>) -> Seq<char> {
    match first_solid(lines(lossy_text(message))) {
        Some(s) => s,
        None => "(无摘要)"@,
    }
}

/// Which rounds a commit's message says were sent.
pub open spec fn note_in(ls: Seq<Seq<char>>) -> Option<Seq<char>>
    decreases ls.len(),
{
    let prefix = "Giftai-context: rounds "@;
    if ls.len() == 0 {
        None
    } else if starts_with(trim(ls[0]), prefix) {
        Some(
            "仅基于第 "@ + trim(
                trim(ls[0]).subrange(prefix.len() as int, trim(ls[0]).len() as int),
            ) + " 轮"@,
        )
    } else {
        note_in(ls.drop_first())
    }
}

/// What a commit's message gives to show: the summary, and which rounds were sent.
pub fn commit_summary(message: &[u8]) -> (r: (String, Option<String>))
    ensures
        r.0@ == summary_in(message@),
        opt_view(r.1) == note_in(lines(lossy_text(message@))),
{
    let text = chars_of(utf8_lossy(message).as_str());
    let summary = match first_solid_line(text.as_slice()) {
        Some(s) => string_of(s.as_slice()),
        None => string_of(chars_of("(无摘要)").as_slice()),
    };
    let ls = lines_of(text.as_slice());
    let ghost all = lines(text@);
    let mut i: usize = 0;
    assert(all.subrange(0, all.len() as int) =~= all);
    while i < ls.len()
        invariant
            0 <= i <= ls@.len(),
            all == views(ls@),
            all == lines(lossy_text(message@)),
            summary@ == summary_in(message@),
            note_in(all) == note_in(all.subrange(i as int, all.len() as int)),
        decreases ls@.len() - i,
    {
        proof {
            let rest = all.subrange(i as int, all.len() as int);
            assert(rest[0] == ls@[i as int]@);
            assert(rest.drop_first() =~= all.subrange(i + 1, all.len() as int));
            reveal_strlit("Giftai-context: rounds ");
        }
        let t = trimmed(ls[i].as_slice());
        if chars_start_with(t, "Giftai-context: rounds ") {
            let mut note = string_of(chars_of("仅基于第 ").as_slice());
            note.append(string_of(trimmed(slice_subrange(t, 23, t.len()))).as_str());
            note.append(" 轮");
            return (summary, Some(note));
        }
        i += 1;
    }
    (summary, None)
}

/// The labels that branches give a commit.
pub open spec fn branch_labels(g: GraphModel, oid: ObjectSha, n: int) -> Seq<Seq<char>>
    decreases n,
{
    if n <= 0 {
        Seq::empty()
    } else {
        let b = g.branches[n - 1];
        let before = branch_labels(g, oid, n - 1);
        if b.oid != oid {
            before
        } else if g.current == Some(b.name) {
            before.push(b.name + " (当前)"@)
        } else {
            before.push(b.name)
        }
    }
}

/// The labels of a commit.
pub open spec fn labels_of(g: GraphModel, oid: ObjectSha) -> Seq<Seq<char>> {
    let names = branch_labels(g, oid, g.branches.len() as int);
    if g.detached == Some(oid) {
        names.push("HEAD 游离"@)
    } else {
        names
    }
}

/// Texts with commas between them.
pub open spec fn with_commas(s: Seq<Seq<char>>) -> Seq<char>
    decreases s.len(),
{
    if s.len() == 0 {
        Seq::empty()
    } else if s.len() == 1 {
        s[0]
    } else {
        with_commas(s.drop_last()) + ", "@ + s.last()
    }
}

/// The labels of a commit as they are shown.
pub open spec fn label_text(labels: Seq<Seq<char>>) -> Option<Seq<char>> {
    if labels.len() == 0 {
        None
    } else {
        Some("["@ + with_commas(labels) + "]"@)
    }
}

/// Where a commit stands in the tree.
#[verifier::ext_equal]
pub struct Place {
    /// Which row it is.
    pub at: int,
    /// What comes before it in its line.
    pub prefix: Seq<char>,
    /// Whether it is the last below its parent.
    pub last: bool,
    /// How many rounds it is deep.
    pub round: nat,
}

/// The line for a commit.
pub open spec fn place_line(g: GraphModel, p: Place) -> Seq<char> {
    let row = g.rows[p.at];
    p.prefix + (if p.last {
        "└── "@
    } else {
        "├── "@
    }) + "● 轮"@ + dec(p.round) + "  "@ + first_eight(hex_of(row.oid@)) + "  "@ + summary_in(
        row.message,
    ) + (match label_text(labels_of(g, row.oid)) {
        Some(s) => "  "@ + s,
        None => Seq::empty(),
    }) + (match note_in(lines(lossy_text(row.message))) {
        Some(s) => "  ("@ + s + ")"@,
        None => Seq::empty(),
    })
}

/// The lines for commits.
pub open spec fn place_lines(g: GraphModel, ps: Seq<Place>) -> Seq<Seq<char>> {
    Seq::new(ps.len(), |i: int| place_line(g, ps[i]))
}

/// What comes before the lines below a commit.
pub open spec fn below_prefix(prefix: Seq<char>, last: bool) -> Seq<char> {
    prefix + (if last {
        "    "@
    } else {
        "│   "@
    })
}

/// Which of the first `n` rows have the given first parent.
pub open spec fn children(rows: Seq<RowModel>, parent: Option<ObjectSha>, n: int) -> Seq<int>
    decreases n,
{
    if n <= 0 {
        Seq::empty()
    } else {
        let before = children(rows, parent, n - 1);
        if rows[n - 1].parent == parent {
            before.push(n - 1)
        } else {
            before
        }
    }
}

/// Which rows have the given first parent; those without one are the roots.
pub open spec fn children_of(rows: Seq<RowModel>, parent: Option<ObjectSha>) -> Seq<int> {
    children(rows, parent, rows.len() as int)
}

/// Where the rows of a list from the `i`-th on stand, each with all that is below it, at most
/// `left` deep.
pub open spec fn places(
    rows: Seq<RowModel>,
    list: Seq<int>,
    i: int,
    prefix: Seq<char>,
    round: nat,
    left: nat,
) -> Seq<Place>
    decreases left, list.len() - i,
{
    if left == 0 || i >= list.len() {
        Seq::empty()
    } else {
        let at = list[i];
        let last = i + 1 == list.len();
        seq![Place { at, prefix, last, round }] + places(
            rows,
            children_of(rows, Some(rows[at].oid)),
            0,
            below_prefix(prefix, last),
            round + 1,
            (left - 1) as nat,
        ) + places(rows, list, i + 1, prefix, round, left)
    }
}

/// Where the rows stand in the tree.
pub open spec fn tree_places(rows: Seq<RowModel>) -> Seq<Place> {
    places(rows, children_of(rows, None), 0, Seq::empty(), 1, rows.len())
}

/// How the tree is drawn.
pub open spec fn drawn(g: GraphModel) -> Seq<Seq<char>> {
    place_lines(g, tree_places(g.rows))
}

impl Graph {
    fn children(&self, parent: Option<ObjectSha>) -> (r: Vec<usize>)
        ensures
            r@.len() == children_of(self@.rows, parent).len(),
            forall|i: int|
                0 <= i < r@.len() ==> #[trigger] r@[i] == children_of(self@.rows, parent)[i]
                    && r@[i] < self@.rows.len(),
    {
        let ghost rows = self@.rows;
        let mut out: Vec<usize> = Vec::new();
        let mut n: usize = 0;
        while n < self.rows.len()
            invariant
                0 <= n <= self.rows@.len(),
                rows == views(self.rows@),
                out@.len() == children(rows, parent, n as int).len(),
                forall|i: int|
                    0 <= i < out@.len() ==> #[trigger] out@[i] == children(
                        rows,
                        parent,
                        n as int,
                    )[i] && out@[i] < n,
            decreases self.rows@.len() - n,
        {
            assert(rows[n as int] == self.rows@[n as int]@);
            let same = match (&self.rows[n].parent, &parent) {
                (Some(a), Some(b)) => *a == *b,
                (None, None) => true,
                _ => false,
            };
            if same {
                out.push(n);
            }
            n += 1;
        }
        out
    }

    fn render_labels(&self, oid: &ObjectSha) -> (r: Option<String>)
        ensures
            opt_view(r) == label_text(labels_of(self@, *oid)),
    {
        let ghost g = self@;
        let mut tags: Vec<String> = Vec::new();
        let mut n: usize = 0;
        assert(views(tags@) =~= branch_labels(g, *oid, 0));
        while n < self.branches.len()
            invariant
                0 <= n <= self.branches@.len(),
                g == self@,
                views(tags@) == branch_labels(g, *oid, n as int),
            decreases self.branches@.len() - n,
        {
            let b = &self.branches[n];
            assert(g.branches[n as int] == b@);
            if b.oid == *oid {
                let mut tag = b.name.clone();
                let here = match &self.current {
                    Some(name) => same_text(name.as_str(), b.name.as_str()),
                    None => false,
                };
                if here {
                    tag.append(" (当前)");
                }
                proof {
                    lemma_views_push(tags@, tag);
                }
                tags.push(tag);
            }
            n += 1;
        }
        if let Some(o) = &self.detached {
            if *o == *oid {
                let tag = string_of(chars_of("HEAD 游离").as_slice());
                proof {
                    lemma_views_push(tags@, tag);
                }
                tags.push(tag);
            }
        }
        let ghost all = views(tags@);
        assert(all == labels_of(g, *oid));
        if tags.len() == 0 {
            return None;
        }
        let mut text = String::new();
        let mut i: usize = 0;
        assert(all.subrange(0, 0) =~= Seq::empty());
        assert(text@ =~= Seq::empty());
        while i < tags.len()
            invariant
                0 <= i <= tags@.len(),
                all == views(tags@),
                text@ == with_commas(all.subrange(0, i as int)),
            decreases tags@.len() - i,
        {
            proof {
                let upto = all.subrange(0, i + 1);
                assert(upto.drop_last() =~= all.subrange(0, i as int));
                assert(upto.last() == tags@[i as int]@);
            }
            if i > 0 {
                text.append(", ");
            }
            text.append(tags[i].as_str());
            assert(i == 0 ==> text@ =~= tags@[0]@);
            i += 1;
        }
        assert(all.subrange(0, i as int) =~= all);
        let mut out = string_of(chars_of("[").as_slice());
        out.append(text.as_str());
        out.append("]");
        Some(out)
    }

    fn line(&self, at: usize, prefix: &str, last: bool, round: u64) -> (r: String)
        requires
            at < self@.rows.len(),
        ensures
            r@ == place_line(
                self@,
                Place { at: at as int, prefix: prefix@, last, round: round as nat },
            ),
    {
        let row = &self.rows[at];
        assert(self@.rows[at as int] == row@);
        let (summary, note) = commit_summary(row.message.as_slice());
        let mut line = string_of(chars_of(prefix).as_slice());
        line.append(
            if last {
                "└── "
            } else {
                "├── "
            },
        );
        line.append("● 轮");
        push_dec(&mut line, round);
        line.append("  ");
        line.append(short_hex(&row.oid).as_str());
        line.append("  ");
        line.append(summary.as_str());
        let ghost so_far = line@;
        match self.render_labels(&row.oid) {
            Some(tags) => {
                line.append("  ");
                line.append(tags.as_str());
                assert(line@ =~= so_far + ("  "@ + tags@));
            },
            None => {
                assert(line@ =~= so_far + Seq::empty());
            },
        }
        let ghost so_far = line@;
        match note {
            Some(s) => {
                line.append("  (");
                line.append(s.as_str());
                line.append(")");
                assert(line@ =~= so_far + ("  ("@ + s@ + ")"@));
            },
            None => {
                assert(line@ =~= so_far + Seq::empty());
            },
        }
        line
    }

    fn render_subtree(&self, list: &[usize], prefix: &str, depth: usize, left: usize, out: &mut Vec<
        String,
    >)
        requires
            depth + left <= self@.rows.len(),
            forall|i: int| 0 <= i < list@.len() ==> #[trigger] list@[i] < self@.rows.len(),
        ensures
            views(final(out)@) == views(old(out)@) + place_lines(
                self@,
                places(
                    self@.rows,
                    Seq::new(list@.len(), |i: int| list@[i] as int),
                    0,
                    prefix@,
                    (depth + 1) as nat,
                    left as nat,
                ),
            ),
        decreases left,
    {
        let ghost g = self@;
        let ghost seq = Seq::new(list@.len(), |i: int| list@[i] as int);
        let ghost start = views(out@);
        let ghost round = (depth + 1) as nat;
        let ghost goal = place_lines(g, places(g.rows, seq, 0, prefix@, round, left as nat));
        if left == 0 {
            assert(start + goal =~= start);
            return ;
        }
        assert(g.rows.len() == self.rows.len());
        let mut i: usize = 0;
        while i < list.len()
            invariant
                0 <= i <= list@.len(),
                g == self@,
                left > 0,
                depth + left <= g.rows.len(),
                g.rows.len() <= usize::MAX,
                round == depth + 1,
                seq == Seq::new(list@.len(), |i: int| list@[i] as int),
                forall|i: int| 0 <= i < list@.len() ==> #[trigger] list@[i] < g.rows.len(),
                start + goal == views(out@) + place_lines(
                    g,
                    places(g.rows, seq, i as int, prefix@, round, left as nat),
                ),
            decreases list@.len() - i,
        {
            let ghost before = views(out@);
            let at: usize = list[i];
            let last = i + 1 == list.len();
            assert(seq[i as int] == at);
            let line = self.line(at, prefix, last, (depth + 1) as u64);
            let ghost shown = line@;
            proof {
                lemma_views_push(out@, line);
            }
            out.push(line);
            let mut inner = string_of(chars_of(prefix).as_slice());
            inner.append(
                if last {
                    "    "
                } else {
                    "│   "
                },
            );
            assert(inner@ == below_prefix(prefix@, last));
            let oid = self.rows[at].oid;
            assert(g.rows[at as int].oid == oid);
            let kids = self.children(Some(oid));
            let ghost kid_seq = children_of(g.rows, Some(oid));
            assert(Seq::new(kids@.len(), |i: int| kids@[i] as int) =~= kid_seq);
            self.render_subtree(kids.as_slice(), inner.as_str(), depth + 1, left - 1, out);
            proof {
                let here = Place { at: at as int, prefix: prefix@, last, round };
                let below = places(
                    g.rows,
                    kid_seq,
                    0,
                    inner@,
                    (round + 1) as nat,
                    (left - 1) as nat,
                );
                let after = places(g.rows, seq, i + 1, prefix@, round, left as nat);
                let all = places(g.rows, seq, i as int, prefix@, round, left as nat);
                assert(all == seq![here] + below + after);
                assert(place_lines(g, all) =~= seq![shown] + place_lines(g, below) + place_lines(
                    g,
                    after,
                ));
                assert(before + place_lines(g, all) =~= before.push(shown) + place_lines(g, below)
                    + place_lines(g, after));
            }
            i += 1;
        }
        assert(place_lines(g, places(g.rows, seq, i as int, prefix@, round, left as nat))
            =~= Seq::empty());
        assert(views(out@) =~= start + goal);
    }

    /// Draws the tree: the roots, and below each commit those that continue it.
    pub fn draw(&self) -> (r: Vec<String>)
        ensures
            views(r@) == drawn(self@),
    {
        let roots = self.children(None);
        let mut out: Vec<String> = Vec::new();
        let prefix = String::new();
        proof {
            assert(prefix@ =~= Seq::empty());
            assert(Seq::new(roots@.len(), |i: int| roots@[i] as int) =~= children_of(
                self@.rows,
                None,
            ));
        }
        self.render_subtree(roots.as_slice(), prefix.as_str(), 0, self.rows.len(), &mut out);
        assert(views(out@) =~= drawn(self@));
        out
    }
}

/// Why the tree of conversations cannot be drawn.
#[derive(Debug, Clone, Copy, PartialEq, Eq)]
pub enum GraphError {
    /// `HEAD` cannot be read.
    Head(RefError),
    /// A branch cannot be read.
    Branch(RefError),
    /// A commit cannot be read.
    Commit(ObjectError),
}

/// The commits that the tree starts from: the branches, and `HEAD` where it is on none.
pub open spec fn starts(tips: Seq<TipModel>, h: HeadModel) -> Seq<ObjectSha> {
    let ids = Seq::new(tips.len(), |i: int| tips[i].oid);
    match h {
        HeadModel::Commit(oid) => ids.push(oid),
        HeadModel::Branch(_) => ids,
    }
}

/// What the tree is drawn from, once the commits are found.
pub open spec fn graph_of(
    db: Map<ObjectSha, Seq<u8>>,
    tips: Seq<TipModel>,
    h: HeadModel,
    found: Seq<ObjectSha>,
) -> GraphModel {
    GraphModel {
        rows: in_order::<GraphRow>(rows_of(db, found)),
        branches: tips,
        current: branch_name(h),
        detached: match h {
            HeadModel::Commit(oid) => Some(oid),
            HeadModel::Branch(_) => None,
        },
    }
}

/// Whether the lines show the conversations that start from the given branches and `HEAD`.
pub open spec fn shows(
    db: Map<ObjectSha, Seq<u8>>,
    tips: Seq<TipModel>,
    h: HeadModel,
    shown: Seq<Seq<char>>,
) -> bool {
    if starts(tips, h).len() == 0 {
        shown == seq![nothing_yet()]
    } else {
        exists|found: Seq<ObjectSha>| #[trigger]
            spreads_to(db, starts(tips, h), Ok(found)) && shown == drawn(
                graph_of(db, tips, h, found),
            )
    }
}

/// Draws the tree of all conversations. `head` is the content of `HEAD`, and `files` are those
/// below `refs/heads`.
pub fn graph(db: &ObjectDb, head: &str, files: &[BranchFile]) -> (r: Result<Vec<String>, GraphError>)
    ensures
        (match head_in(head@) {
            Err(e) => r matches Err(GraphError::Head(x)) && x == e,
            Ok(h) => match tips_in(db@, views(files@)) {
                Err(e) => r matches Err(GraphError::Branch(x)) && x == e,
                Ok(tips) => {
                    let sorted = in_order::<BranchTip>(tips);
                    match r {
                        Ok(shown) => shows(db@, sorted, h, views(shown@)),
                        Err(e) => e matches GraphError::Commit(x) && spreads_to(
                            db@,
                            starts(sorted, h),
                            Err(x),
                        ),
                    }
                },
            },
        }),
{
    let h = match Head::read(head) {
        Ok(h) => h,
        Err(e) => return Err(GraphError::Head(e)),
    };
    let branches = match list_branches(db, files) {
        Ok(b) => b,
        Err(e) => return Err(GraphError::Branch(e)),
    };
    let ghost sorted = views(branches@);
    let mut tips: Vec<ObjectSha> = Vec::new();
    let mut i: usize = 0;
    while i < branches.len()
        invariant
            0 <= i <= branches@.len(),
            tips@.len() == i,
            forall|j: int| 0 <= j < i ==> #[trigger] tips@[j] == branches@[j].oid,
        decreases branches@.len() - i,
    {
        tips.push(branches[i].oid);
        i += 1;
    }
    let detached = match &h {
        Head::TargetCommit(oid) => Some(*oid),
        Head::TargetBranch { .. } => None,
    };
    if let Some(oid) = detached {
        tips.push(oid);
    }
    assert(tips@ =~= starts(sorted, h@));
    if tips.len() == 0 {
        let mut out: Vec<String> = Vec::new();
        out.push(nothing_line());
        assert(views(out@) =~= seq![nothing_yet()]);
        return Ok(out);
    }
    let commits = match collect_commits(db, tips.as_slice()) {
        Ok(v) => v,
        Err(e) => return Err(GraphError::Commit(e)),
    };
    let ghost found = found_ids(commits@);
    let mut rows: Vec<GraphRow> = Vec::new();
    let mut k: usize = 0;
    assert(views(rows@) =~= rows_of(db@, found).subrange(0, 0));
    while k < commits.len()
        invariant
            0 <= k <= commits@.len(),
            found == found_ids(commits@),
            forall|i: int|
                0 <= i < commits@.len() ==> commit_at(db@, (#[trigger] commits@[i]).0) == Ok::<
                    CommitModel,
                    ObjectError,
                >(commits@[i].1@),
            views(rows@) == rows_of(db@, found).subrange(0, k as int),
        decreases commits@.len() - k,
    {
        let c = &commits[k].1;
        assert(commit_at(db@, commits@[k as int].0) == Ok::<CommitModel, ObjectError>(c@));
        let row = GraphRow {
            oid: commits[k].0,
            parent: if c.parents.len() > 0 {
                Some(c.parents[0])
            } else {
                None
            },
            time: c.committer.unix_time,
            message: copy_bytes(c.message.as_slice()),
        };
        assert(row@ =~= row_of(db@, found[k as int]));
        proof {
            lemma_views_push(rows@, row);
        }
        rows.push(row);
        k += 1;
        assert(views(rows@) =~= rows_of(db@, found).subrange(0, k as int));
    }
    assert(rows_of(db@, found).subrange(0, k as int) =~= rows_of(db@, found));
    let current = current_branch_name(&h);
    let g = Graph { rows: sort(rows), branches, current, detached };
    assert(g@ =~= graph_of(db@, sorted, h@, found));
    Ok(g.draw())
}

} // verus!
