//! What the commands say where nothing was said, and what they show.
use crate::fetch::is_hex40;
use crate::merge::MergeOutcome;
use crate::numbers::hex_of;
use crate::object::ObjectSha;
use crate::reference::sha1_in;
use crate::text::{
    chars_of, lemma_views_push, lossy_text, string_of, utf8_lossy, views,
};
use vstd::prelude::*;

verus! {

/// The message of a merge for which none was given.
pub open spec fn merge_message(target: Seq<char>) -> Seq<char> {
    (if sha1_in(target) is Some {
        "Merge commit '"@
    } else {
        "Merge branch '"@
    }) + target + "'\n"@
}

/// The message of a merge for which none was given.
pub fn default_merge_message(target: &str) -> (r: String)
    ensures
        r@ == merge_message(target@),
{
    let cs = chars_of(target);
    let mut out = if is_hex40(cs.as_slice()) {
        string_of(chars_of("Merge commit '").as_slice())
    } else {
        string_of(chars_of("Merge branch '").as_slice())
    };
    out.append(target);
    out.append("'\n");
    out
}

/// What is shown of the paths that a merge left to be resolved.
pub open spec fn conflict_lines(paths: Seq<Vec<u8>>) -> Seq<Seq<char>> {
    Seq::new(paths.len(), |i: int| "  conflict: "@ + lossy_text(paths[i]@))
}

/// What is shown of how a merge ended.
pub open spec fn outcome_lines(outcome: MergeOutcome) -> Seq<Seq<char>> {
    match outcome {
        MergeOutcome::AlreadyUpToDate => seq!["Already up to date."@],
        MergeOutcome::FastForward(oid) => seq!["Fast-forward\n  HEAD -> "@ + hex_of(oid@)],
        MergeOutcome::Clean(oid) => seq![
            "Merge made by 'resolve' strategy.\n  "@ + hex_of(oid@),
        ],
        MergeOutcome::Conflict(paths) => seq![
            "CONFLICT: automatic merge failed; fix conflicts and then commit."@,
        ] + conflict_lines(paths@),
    }
}

fn with_id(text: &str, oid: &ObjectSha) -> (r: String)
    ensures
        r@ == text@ + hex_of(oid@),
{
    let mut s = string_of(chars_of(text).as_slice());
    s.append(oid.to_string().as_str());
    s
}

/// Shows how a merge ended, and whether it failed.
pub fn report_merge_outcome(outcome: &MergeOutcome) -> (r: (Vec<String>, bool))
    ensures
        views(r.0@) == outcome_lines(*outcome),
        r.1 == (outcome is Conflict),
{
    let mut out: Vec<String> = Vec::new();
    match outcome {
        MergeOutcome::AlreadyUpToDate => {
            out.push(string_of(chars_of("Already up to date.").as_slice()));
            assert(views(out@) =~= outcome_lines(*outcome));
            (out, false)
        },
        MergeOutcome::FastForward(oid) => {
            out.push(with_id("Fast-forward\n  HEAD -> ", oid));
            assert(views(out@) =~= outcome_lines(*outcome));
            (out, false)
        },
        MergeOutcome::Clean(oid) => {
            out.push(with_id("Merge made by 'resolve' strategy.\n  ", oid));
            assert(views(out@) =~= outcome_lines(*outcome));
            (out, false)
        },
        MergeOutcome::Conflict(paths) => {
            out.push(
                string_of(
                    chars_of(
                        "CONFLICT: automatic merge failed; fix conflicts and then commit.",
                    ).as_slice(),
                ),
            );
            let ghost first = views(out@);
            let ghost goal = conflict_lines(paths@);
            let mut i: usize = 0;
            assert(first + goal.subrange(0, 0) =~= first);
            while i < paths.len()
                invariant
                    0 <= i <= paths@.len(),
                    goal == conflict_lines(paths@),
                    views(out@) == first + goal.subrange(0, i as int),
                decreases paths@.len() - i,
            {
                let mut line = string_of(chars_of("  conflict: ").as_slice());
                line.append(utf8_lossy(paths[i].as_slice()).as_str());
                proof {
                    lemma_views_push(out@, line);
                }
                out.push(line);
                i += 1;
                assert(views(out@) =~= first + goal.subrange(0, i as int));
            }
            assert(goal.subrange(0, i as int) =~= goal);
            assert(views(out@) =~= outcome_lines(*outcome));
            (out, true)
        },
    }
}

} // verus!
