//! In what order things are told, and what is said of them.
use crate::ai::history::{
    branch_labels, labels_of, row_of, summary_in, BranchTip, GraphModel, GraphRow, RowModel, TipModel,
};
use crate::ai::merge::{merged_order, rounds_after, RoundRef, Side};
use crate::ai::messages::{EntryModel, MessageFile};
use crate::bytes::{lemma_lex_total, lex_lt};
use crate::commit_object::commit_at;
use crate::fetch::short;
use crate::get_args::{merge_message, outcome_lines};
use crate::merge::MergeOutcome;
use crate::numbers::hex_of;
use crate::object::ObjectSha;
use crate::push::{outcome_line, zero_text};
use crate::reference::sha1_in;
use crate::sorting::{in_order, law_in_order};
use crate::text::{lines, lossy_text, trim};
use crate::text_laws::{all_space, law_first_solid};
use vstd::prelude::*;
use vstd::utf8::encode_utf8;

verus! {

/// The messages of a conversation come in the order of their numbers.
pub proof fn law_messages_by_number(entries: Seq<EntryModel>, i: int, j: int)
    requires
        0 <= i < j < entries.len(),
    ensures
        in_order::<MessageFile>(entries)[i].seq <= in_order::<MessageFile>(entries)[j].seq,
        in_order::<MessageFile>(entries).to_multiset() == entries.to_multiset(),
{
    law_in_order::<MessageFile>(entries);
}

/// Branches come in the order of the bytes of their names.
pub proof fn law_branches_by_name(tips: Seq<TipModel>, i: int, j: int)
    requires
        0 <= i < j < tips.len(),
    ensures
        ({
            let a = encode_utf8(in_order::<BranchTip>(tips)[i].name);
            let b = encode_utf8(in_order::<BranchTip>(tips)[j].name);
            a == b || lex_lt(a, b)
        }),
        in_order::<BranchTip>(tips).to_multiset() == tips.to_multiset(),
{
    law_in_order::<BranchTip>(tips);
    lemma_lex_total(
        encode_utf8(in_order::<BranchTip>(tips)[i].name),
        encode_utf8(in_order::<BranchTip>(tips)[j].name),
    );
}

/// Commits come in the order of their times, and of their ids where those are equal.
pub proof fn law_rows_by_time(rows: Seq<RowModel>, i: int, j: int)
    requires
        0 <= i < j < rows.len(),
    ensures
        ({
            let a = in_order::<GraphRow>(rows)[i];
            let b = in_order::<GraphRow>(rows)[j];
            a.time < b.time || a.time == b.time && (a.oid@ == b.oid@ || lex_lt(a.oid@, b.oid@))
        }),
        in_order::<GraphRow>(rows).to_multiset() == rows.to_multiset(),
{
    law_in_order::<GraphRow>(rows);
    lemma_lex_total(in_order::<GraphRow>(rows)[i].oid@, in_order::<GraphRow>(rows)[j].oid@);
}

/// Joined rounds come in the order of their times; at the same time ours come before theirs, and
/// those of a side in the order that they had.
pub proof fn law_rounds_by_time(
    db: Map<ObjectSha, Seq<u8>>,
    ours: Seq<ObjectSha>,
    theirs: Seq<ObjectSha>,
    base: int,
    i: int,
    j: int,
)
    requires
        0 <= i < j < merged_order(db, ours, theirs, base).len(),
    ensures
        ({
            let a = merged_order(db, ours, theirs, base)[i];
            let b = merged_order(db, ours, theirs, base)[j];
            &&& a.time <= b.time
            &&& a.time == b.time && a.side != b.side ==> a.side == Side::Ours
            &&& a.time == b.time && a.side == b.side ==> a.old_round <= b.old_round
        }),
{
    law_in_order::<RoundRef>(
        rounds_after(db, ours, base, Side::Ours)
            + rounds_after(db, theirs, base, Side::Theirs),
    );
}

/// A commit is told by its id, its first parent, its time and its message.
pub proof fn law_row(db: Map<ObjectSha, Seq<u8>>, oid: ObjectSha)
    ensures
        row_of(db, oid).oid == oid,
        row_of(db, oid).time == commit_at(db, oid)->Ok_0.committer.unix_time,
        row_of(db, oid).message == commit_at(db, oid)->Ok_0.message,
        row_of(db, oid).parent is None <==> commit_at(db, oid)->Ok_0.parents.len() == 0,
        row_of(db, oid).parent matches Some(p) ==> p == commit_at(db, oid)->Ok_0.parents[0],
{
}

/// The summary of a commit is the first line of its message that is not blank, trimmed.
pub proof fn law_row_summary(message: Seq<u8>, k: int)
    requires
        ({
            let ls = lines(lossy_text(message));
            &&& 0 <= k < ls.len()
            &&& forall|i: int| 0 <= i < k ==> all_space(#[trigger] ls[i])
            &&& !all_space(ls[k])
        }),
    ensures
        summary_in(message) == trim(lines(lossy_text(message))[k]),
{
    law_first_solid(lines(lossy_text(message)), k);
}

/// A commit that `HEAD` is at on its own has a label for that behind those of its branches.
pub proof fn law_detached_label(g: GraphModel, oid: ObjectSha)
    ensures
        labels_of(g, oid).contains("HEAD 游离"@) || g.detached != Some(oid),
        g.detached == Some(oid) ==> labels_of(g, oid).last() == "HEAD 游离"@,
        g.detached != Some(oid) ==> labels_of(g, oid) == labels_of(
            GraphModel { detached: None, ..g },
            oid,
        ),
    decreases g.branches.len(),
{
    if g.detached == Some(oid) {
        let all = labels_of(g, oid);
        assert(all[all.len() - 1] == "HEAD 游离"@);
    } else {
        lemma_same_labels(g, GraphModel { detached: None, ..g }, oid, g.branches.len() as int);
    }
}

proof fn lemma_same_labels(g: GraphModel, h: GraphModel, oid: ObjectSha, n: int)
    requires
        g.branches == h.branches,
        g.current == h.current,
    ensures
        branch_labels(g, oid, n) == branch_labels(h, oid, n),
    decreases n,
{
    if n > 0 {
        lemma_same_labels(g, h, oid, n - 1);
    }
}

/// What becomes of a branch that is pushed is told: that it is refused and why, that it is new, or
/// from where to where it goes.
pub proof fn law_push_told(
    branch: Seq<char>,
    old_id: Seq<char>,
    new_id: Seq<char>,
    reason: Seq<char>,
)
    ensures
        outcome_line(branch, old_id, new_id, Some(reason)) == " ! [rejected]        "@ + branch
            + " -> "@ + branch + " ("@ + reason + ")"@,
        old_id.len() == 40 && (forall|i: int| 0 <= i < 40 ==> old_id[i] == '0') ==> outcome_line(
            branch,
            old_id,
            new_id,
            None,
        ) == " * [new branch]      "@ + branch + " -> "@ + branch,
        old_id.len() == 40 && (exists|i: int| 0 <= i < 40 && old_id[i] != '0') ==> outcome_line(
            branch,
            old_id,
            new_id,
            None,
        ) == "   "@ + short(old_id) + ".."@ + short(new_id) + "  "@ + branch + " -> "@ + branch,
{
    if old_id.len() == 40 && forall|i: int| 0 <= i < 40 ==> old_id[i] == '0' {
        assert(old_id =~= zero_text());
    }
}

/// A merge that stops at conflicts tells of every path that has one.
pub proof fn law_conflicts_shown(paths: Vec<Vec<u8>>)
    ensures
        outcome_lines(MergeOutcome::Conflict(paths)).len() == paths@.len() + 1,
        forall|i: int|
            0 <= i < paths@.len() ==> outcome_lines(MergeOutcome::Conflict(paths))[i + 1]
                == "  conflict: "@ + lossy_text((#[trigger] paths@[i])@),
{
}

/// The message of a merge names what is merged, as a commit where it is an id and else as a branch.
pub proof fn law_merge_message(target: Seq<char>)
    ensures
        sha1_in(target) is Some ==> merge_message(target) == "Merge commit '"@ + target + "'\n"@,
        sha1_in(target) is None ==> merge_message(target) == "Merge branch '"@ + target + "'\n"@,
{
}

/// A merge that is made is told by the commit that it makes or goes to.
pub proof fn law_merge_told(oid: ObjectSha)
    ensures
        outcome_lines(MergeOutcome::AlreadyUpToDate) == seq!["Already up to date."@],
        outcome_lines(MergeOutcome::FastForward(oid)) == seq![
            "Fast-forward\n  HEAD -> "@ + hex_of(oid@),
        ],
        outcome_lines(MergeOutcome::Clean(oid)) == seq![
            "Merge made by 'resolve' strategy.\n  "@ + hex_of(oid@),
        ],
{
}

} // verus!
