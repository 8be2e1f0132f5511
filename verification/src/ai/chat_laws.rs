//! What becomes of the messages of a conversation: which are read, chosen, sent and shown.
use crate::ai::cli::{ask_message, context_of, message_lines, rounds_given, rounds_text, summary_of};
use crate::ai::history::{
    branch_labels, children, line_of, log_of, note_in, tips_in, BranchFileModel, GraphModel, RowModel,
};
use crate::ai::llm::{completions_at, key_in, value_or};
use crate::ai::merge::{
    file_at, files_of_rounds, joined, merged_at, merged_order, merges_to, new_rounds, parties,
    rounds_after, ChatMergeError, ChatPlanModel, NewRoundModel, Parties, RoundRef, Side, MAX_ROUNDS,
};
use crate::ai::messages::{
    chosen, entries_of, entry_in, file_name, is_chosen, least_wrong, messages_of, prompts, round_of,
    rounds_in, selection, top_seq, EntryModel, FileModel, MessageModel, Role, SelectError,
};
use crate::bytes::{lemma_find_from_is, starts_with};
use crate::commit_object::commit_at;
use crate::first_parents::chain;
use crate::head::{head_in, HeadModel};
use crate::index::forward_slashes;
use crate::merge_base::{is_ancestor, law_meeting_is_ancestor, meets};
use crate::numbers::{dec, is_digit, lemma_dec_round_trip, parse_unsigned};
use crate::object::ObjectSha;
use crate::picking::{lemma_picked_none, lemma_picked_push, picked};
use crate::pull::branch_name;
use crate::reference::{commit_fault, ref_in, RefError};
use crate::sorting::{in_order, law_in_order};
use crate::text::{
    is_space, lemma_trim_again, lemma_trim_all_space, lemma_trim_solid, lines, text_of, trim,
};
use crate::text_laws::{all_space, ended, law_lines, law_trim};
use vstd::prelude::*;

verus! {

/// The message files of a conversation are all files whose names are those of messages, in order,
/// each with its content.
pub proof fn law_files_read(files: Seq<FileModel>)
    ensures
        picked(
            entries_of(files),
            Seq::new(
                files.len(),
                |i: int|
                    match entry_in(files[i].name) {
                        Some((seq, role)) => Some(
                            EntryModel { seq, role, content: files[i].content },
                        ),
                        None => None,
                    },
            ),
        ),
    decreases files.len(),
{
    let wanted = Seq::new(
        files.len(),
        |i: int|
            match entry_in(files[i].name) {
                Some((seq, role)) => Some(EntryModel { seq, role, content: files[i].content }),
                None => None,
            },
    );
    if files.len() == 0 {
        lemma_picked_none::<EntryModel>();
        assert(wanted =~= Seq::empty());
    } else {
        let t = files.drop_last();
        law_files_read(t);
        let before = Seq::new(
            t.len(),
            |i: int|
                match entry_in(t[i].name) {
                    Some((seq, role)) => Some(EntryModel { seq, role, content: t[i].content }),
                    None => None,
                },
        );
        lemma_picked_push(entries_of(t), before, wanted.last());
        assert(wanted =~= before.push(wanted.last()));
    }
}

/// The messages are those of the files, one for each, with its role and its text; there are none
/// just where a file does not hold text.
pub proof fn law_messages_read(entries: Seq<EntryModel>)
    ensures
        messages_of(entries) is Ok <==> forall|i: int|
            0 <= i < entries.len() ==> text_of((#[trigger] entries[i]).content) is Some,
        messages_of(entries) matches Ok(ms) ==> ms.len() == entries.len() && forall|i: int|
            0 <= i < ms.len() ==> (#[trigger] ms[i]).role == entries[i].role && Some(ms[i].content)
                == text_of(entries[i].content),
    decreases entries.len(),
{
    if entries.len() > 0 {
        let t = entries.drop_last();
        law_messages_read(t);
        assert forall|i: int| 0 <= i < t.len() implies #[trigger] t[i] == entries[i] by {}
        let l = entries[entries.len() - 1];
        if messages_of(t) is Ok && text_of(l.content) is Some {
            assert forall|i: int| 0 <= i < entries.len() implies text_of(
                (#[trigger] entries[i]).content,
            ) is Some by {
                if i < t.len() {
                    assert(t[i] == entries[i]);
                }
            }
            let ms = messages_of(entries)->Ok_0;
            let before = messages_of(t)->Ok_0;
            assert forall|i: int| 0 <= i < ms.len() implies (#[trigger] ms[i]).role
                == entries[i].role && Some(ms[i].content) == text_of(entries[i].content) by {
                if i < t.len() {
                    assert(ms[i] == before[i]);
                    assert(t[i] == entries[i]);
                }
            }
        } else if messages_of(t) is Err {
            let i = choose|i: int| 0 <= i < t.len() && text_of((#[trigger] t[i]).content) is None;
            assert(entries[i] == t[i]);
        }
    }
}

/// The highest number is at least that of every message file, and one of them has it unless it is
/// zero.
pub proof fn law_top_seq(names: Seq<Seq<char>>)
    ensures
        forall|i: int|
            0 <= i < names.len() ==> (entry_in(#[trigger] names[i]) matches Some((seq, _)) ==> seq
                <= top_seq(names)),
        top_seq(names) > 0 ==> exists|i: int|
            0 <= i < names.len() && (entry_in(#[trigger] names[i]) matches Some((seq, _)) && seq
                == top_seq(names)),
    decreases names.len(),
{
    if names.len() > 0 {
        let t = names.drop_last();
        law_top_seq(t);
        assert forall|i: int| 0 <= i < names.len() implies (entry_in(#[trigger] names[i]) matches Some(
            (seq, _),
        ) ==> seq <= top_seq(names)) by {
            if i < t.len() {
                assert(t[i] == names[i]);
            }
        }
        if top_seq(names) > 0 {
            let l = names[names.len() - 1];
            if !(entry_in(l) matches Some((seq, _)) && seq == top_seq(names)) {
                let i = choose|i: int|
                    0 <= i < t.len() && (entry_in(#[trigger] t[i]) matches Some((seq, _)) && seq
                        == top_seq(t));
                assert(names[i] == t[i]);
            }
        }
    }
}

/// The message of a conversation that is sent when rounds are chosen, if it is: a system prompt at
/// the beginning always, and any other where its round is chosen, two messages to a round.
pub open spec fn sent_of(ms: Seq<MessageModel>, selected: Seq<u32>, i: int) -> Option<
    MessageModel,
> {
    let n = prompts(ms);
    if i < n || exists|k: int|
        0 <= k < selected.len() && #[trigger] selected[k] == (i - n) / 2 + 1 {
        Some(ms[i])
    } else {
        None
    }
}

proof fn lemma_prompts(ms: Seq<MessageModel>)
    ensures
        0 <= prompts(ms) <= ms.len(),
        forall|i: int| 0 <= i < prompts(ms) ==> (#[trigger] ms[i]).role == Role::System,
        prompts(ms) < ms.len() ==> ms[prompts(ms)].role != Role::System,
    decreases ms.len(),
{
    if ms.len() > 0 && ms[0].role == Role::System {
        let t = ms.drop_first();
        lemma_prompts(t);
        assert forall|i: int| 0 <= i < prompts(ms) implies (#[trigger] ms[i]).role == Role::System by {
            if i > 0 {
                assert(t[i - 1] == ms[i]);
            }
        }
    }
}

/// The system prompts of a conversation are those before the first message that is none.
pub proof fn law_prompts(ms: Seq<MessageModel>, n: int)
    requires
        0 <= n <= ms.len(),
        forall|i: int| 0 <= i < n ==> (#[trigger] ms[i]).role == Role::System,
        n < ms.len() ==> ms[n].role != Role::System,
    ensures
        prompts(ms) == n,
{
    lemma_prompts(ms);
    if prompts(ms) < n {
        assert(ms[prompts(ms)].role == Role::System);
    } else if prompts(ms) > n {
        assert(ms[n].role == Role::System);
    }
}

spec fn upto(rest: Seq<MessageModel>, k: int) -> int {
    if 2 * k <= rest.len() {
        2 * k
    } else {
        rest.len() as int
    }
}

proof fn lemma_chosen_told(ms: Seq<MessageModel>, selected: Seq<u32>, k: int)
    requires
        0 <= k <= rounds_in(ms.len() - prompts(ms)),
        chosen(ms.subrange(prompts(ms), ms.len() as int), selected, k) is Ok,
    ensures
        ({
            let n = prompts(ms);
            let rest = ms.subrange(n, ms.len() as int);
            picked(
                ms.subrange(0, n) + chosen(rest, selected, k)->Ok_0,
                Seq::new((n + upto(rest, k)) as nat, |i: int| sent_of(ms, selected, i)),
            )
        }),
    decreases k,
{
    let n = prompts(ms);
    lemma_prompts(ms);
    let rest = ms.subrange(n, ms.len() as int);
    let front = ms.subrange(0, n);
    let wanted = Seq::new((n + upto(rest, k)) as nat, |i: int| sent_of(ms, selected, i));
    if k == 0 {
        lemma_first_told(ms, selected, n);
        assert(front + chosen(rest, selected, 0)->Ok_0 =~= front);
    } else {
        lemma_chosen_told(ms, selected, k - 1);
        let before = Seq::new((n + upto(rest, k - 1)) as nat, |i: int| sent_of(ms, selected, i));
        let out = front + chosen(rest, selected, k - 1)->Ok_0;
        let a = n + 2 * k - 2;
        assert(before.len() == a);
        assert((a - n) / 2 + 1 == k);
        let x = sent_of(ms, selected, a);
        assert(is_chosen(selected, k) <==> x is Some);
        lemma_picked_push(out, before, x);
        let one = match x {
            Some(v) => out.push(v),
            None => out,
        };
        let so_far = before.push(x);
        let done = front + chosen(rest, selected, k)->Ok_0;
        assert(rest[2 * k - 2] == ms[a]);
        if 2 * k <= rest.len() {
            let b = a + 1;
            assert((b - n) / 2 + 1 == k);
            let y = sent_of(ms, selected, b);
            assert(is_chosen(selected, k) <==> y is Some);
            lemma_picked_push(one, so_far, y);
            assert(so_far.push(y) =~= wanted);
            if is_chosen(selected, k) {
                assert(rest[2 * k - 1] == ms[b]);
                assert(round_of(rest, k) =~= seq![ms[a], ms[b]]);
                assert(done =~= one.push(ms[b]));
            } else {
                assert(done =~= one);
            }
        } else {
            assert(so_far =~= wanted);
            if is_chosen(selected, k) {
                assert(round_of(rest, k) =~= seq![ms[a]]);
                assert(done =~= one);
            } else {
                assert(done =~= one);
            }
        }
    }
}

proof fn lemma_first_told(ms: Seq<MessageModel>, selected: Seq<u32>, n: int)
    requires
        0 <= n <= prompts(ms) <= ms.len(),
    ensures
        picked(
            ms.subrange(0, n),
            Seq::new(n as nat, |i: int| sent_of(ms, selected, i)),
        ),
    decreases n,
{
    let wanted = Seq::new(n as nat, |i: int| sent_of(ms, selected, i));
    if n == 0 {
        lemma_picked_none::<MessageModel>();
        assert(ms.subrange(0, 0) =~= Seq::empty());
        assert(wanted =~= Seq::empty());
    } else {
        lemma_first_told(ms, selected, n - 1);
        let before = Seq::new((n - 1) as nat, |i: int| sent_of(ms, selected, i));
        lemma_picked_push(ms.subrange(0, n - 1), before, Some(ms[n - 1]));
        assert(ms.subrange(0, n) =~= ms.subrange(0, n - 1).push(ms[n - 1]));
        assert(wanted =~= before.push(Some(ms[n - 1])));
    }
}

/// A choice of rounds holds just the system prompts at the beginning and the messages of the chosen
/// rounds, in the order of the conversation.
pub proof fn law_selection_told(ms: Seq<MessageModel>, selected: Seq<u32>)
    requires
        selection(ms, selected) is Ok,
    ensures
        picked(
            selection(ms, selected)->Ok_0,
            Seq::new(ms.len(), |i: int| sent_of(ms, selected, i)),
        ),
{
    let n = prompts(ms);
    lemma_prompts(ms);
    let rest = ms.subrange(n, ms.len() as int);
    let total = rounds_in(rest.len() as int);
    lemma_chosen_told(ms, selected, total);
    assert(upto(rest, total) == rest.len());
    assert(n + rest.len() == ms.len());
}

proof fn lemma_least_wrong(selected: Seq<u32>, total: int)
    ensures
        match least_wrong(selected, total) {
            None => forall|i: int| 0 <= i < selected.len() ==> 1 <= #[trigger] selected[i] <= total,
            Some(x) => selected.contains(x) && !(1 <= x <= total) && forall|i: int|
                0 <= i < selected.len() ==> 1 <= #[trigger] selected[i] <= total || x <= selected[i],
        },
    decreases selected.len(),
{
    if selected.len() > 0 {
        let t = selected.drop_last();
        lemma_least_wrong(t, total);
        let l = selected[selected.len() - 1];
        assert forall|i: int| 0 <= i < t.len() implies #[trigger] t[i] == selected[i] by {}
        match least_wrong(selected, total) {
            None => {
                assert forall|i: int| 0 <= i < selected.len() implies 1 <= #[trigger] selected[i]
                    <= total by {
                    if i < t.len() {
                        assert(t[i] == selected[i]);
                    }
                }
            },
            Some(x) => {
                if x != l || 1 <= l <= total {
                    let k = choose|k: int| 0 <= k < t.len() && t[k] == x;
                    assert(selected[k] == x);
                }
                assert(selected.contains(x));
                assert forall|i: int| 0 <= i < selected.len() implies 1 <= #[trigger] selected[i]
                    <= total || x <= selected[i] by {
                    if i < t.len() {
                        assert(t[i] == selected[i]);
                    }
                }
            },
        }
    }
}

proof fn lemma_chosen_succeeds(rest: Seq<MessageModel>, selected: Seq<u32>, k: int)
    requires
        0 <= k <= rounds_in(rest.len() as int) <= usize::MAX,
    ensures
        match chosen(rest, selected, k) {
            Ok(_) => forall|j: int| 1 <= j <= k ==> rest[#[trigger] first_of(j)].role == Role::User,
            Err(e) => e matches SelectError::Corrupt { round } && 1 <= round <= k
                && rest[2 * round - 2].role != Role::User && forall|j: int|
                1 <= j < round ==> rest[#[trigger] first_of(j)].role == Role::User,
        },
    decreases k,
{
    if k > 0 {
        lemma_chosen_succeeds(rest, selected, k - 1);
    }
}

/// Where the first message of a round stands behind the system prompts.
pub open spec fn first_of(round: int) -> int {
    2 * round - 2
}

/// Rounds can be chosen just where some are asked for, all of them are there, and every round of the
/// conversation begins with a question. Otherwise the error says what is wrong: that none is asked
/// for, else the least number that is not that of a round, else the first round that does not begin
/// with a question.
pub proof fn law_selection_succeeds(ms: Seq<MessageModel>, selected: Seq<u32>)
    requires
        ms.len() < usize::MAX,
    ensures
        ({
            let rest = ms.subrange(prompts(ms), ms.len() as int);
            let total = (rest.len() + 1) / 2;
            match selection(ms, selected) {
                Ok(_) => selected.len() > 0 && (forall|i: int|
                    0 <= i < selected.len() ==> 1 <= #[trigger] selected[i] <= total) && (forall|
                    j: int,
                |
                    1 <= j <= total ==> rest[#[trigger] first_of(j)].role == Role::User),
                Err(SelectError::Empty) => selected.len() == 0,
                Err(SelectError::NoRound { asked, total: t }) => t == total && selected.contains(
                    asked,
                ) && !(1 <= asked <= total) && forall|i: int|
                    0 <= i < selected.len() ==> 1 <= #[trigger] selected[i] <= total || asked
                        <= selected[i],
                Err(SelectError::Corrupt { round }) => 1 <= round <= total && rest[2 * round
                    - 2].role != Role::User && (forall|j: int|
                    1 <= j < round ==> rest[#[trigger] first_of(j)].role == Role::User) && selected.len()
                    > 0 && forall|i: int|
                    0 <= i < selected.len() ==> 1 <= #[trigger] selected[i] <= total,
            }
        }),
{
    lemma_prompts(ms);
    let rest = ms.subrange(prompts(ms), ms.len() as int);
    let total = rounds_in(rest.len() as int);
    lemma_least_wrong(selected, total);
    lemma_chosen_succeeds(rest, selected, total);
}

/// The number that an argument gives, if it gives one.
pub open spec fn number_given(arg: Seq<char>) -> Option<u32> {
    if trim(arg).len() == 0 {
        None
    } else {
        match parse_unsigned(trim(arg), u32::MAX as nat) {
            Some(n) => Some(n as u32),
            None => None,
        }
    }
}

/// The numbers of rounds are those that the arguments give, in order; an empty argument gives none,
/// and the first that is no number is the error.
pub proof fn law_rounds_given(args: Seq<Seq<char>>)
    ensures
        match rounds_given(args) {
            Ok(ns) => picked(ns, Seq::new(args.len(), |i: int| number_given(args[i]))) && forall|
                i: int,
            |
                0 <= i < args.len() ==> trim(#[trigger] args[i]).len() == 0 || number_given(
                    args[i],
                ) is Some,
            Err(s) => exists|k: int|
                0 <= k < args.len() && s == trim(#[trigger] args[k]) && s.len() > 0 && number_given(
                    args[k],
                ) is None && forall|i: int|
                    0 <= i < k ==> trim(#[trigger] args[i]).len() == 0 || number_given(
                        args[i],
                    ) is Some,
        },
    decreases args.len(),
{
    let wanted = Seq::new(args.len(), |i: int| number_given(args[i]));
    if args.len() == 0 {
        lemma_picked_none::<u32>();
        assert(wanted =~= Seq::empty());
    } else {
        let t = args.drop_last();
        let l = args[args.len() - 1];
        law_rounds_given(t);
        assert forall|i: int| 0 <= i < t.len() implies #[trigger] t[i] == args[i] by {}
        match rounds_given(t) {
            Err(s) => {
                let k = choose|k: int|
                    0 <= k < t.len() && s == trim(#[trigger] t[k]) && s.len() > 0 && number_given(
                        t[k],
                    ) is None && forall|i: int|
                        0 <= i < k ==> trim(#[trigger] t[i]).len() == 0 || number_given(t[i]) is Some;
                assert(args[k] == t[k]);
                assert forall|i: int| 0 <= i < k implies trim(#[trigger] args[i]).len() == 0
                    || number_given(args[i]) is Some by {
                    assert(t[i] == args[i]);
                }
            },
            Ok(before) => {
                let given = Seq::new(t.len(), |i: int| number_given(t[i]));
                lemma_picked_push(before, given, number_given(l));
                assert(wanted =~= given.push(number_given(l)));
                assert forall|i: int| 0 <= i < t.len() implies trim(#[trigger] args[i]).len() == 0
                    || number_given(args[i]) is Some by {
                    assert(t[i] == args[i]);
                }
                assert(args[args.len() - 1] == l);
            },
        }
    }
}

/// Each message is shown by two lines: who wrote it, and all that it says.
pub proof fn law_messages_shown(ms: Seq<MessageModel>)
    ensures
        message_lines(ms).len() == 2 * ms.len(),
        forall|i: int|
            0 <= i < ms.len() ==> message_lines(ms)[2 * i] == "── "@ + (match (
            #[trigger] ms[i]).role {
                Role::System => "system"@,
                Role::User => "user"@,
                Role::Assistant => "assistant"@,
            }) + " ──"@ && message_lines(ms)[2 * i + 1] == ms[i].content + "\n"@,
    decreases ms.len(),
{
    if ms.len() > 0 {
        let t = ms.drop_last();
        law_messages_shown(t);
        assert forall|i: int| 0 <= i < ms.len() implies message_lines(ms)[2 * i] == "── "@ + (match (
        #[trigger] ms[i]).role {
            Role::System => "system"@,
            Role::User => "user"@,
            Role::Assistant => "assistant"@,
        }) + " ──"@ && message_lines(ms)[2 * i + 1] == ms[i].content + "\n"@ by {
            if i < t.len() {
                assert(t[i] == ms[i]);
            }
        }
    }
}

/// Whether the two files of a round stand in a list as its `k`-th pair: the question under twice the
/// number of the round, and the answer under the next number.
pub open spec fn has_pair(files: Seq<Seq<char>>, k: int, round: int) -> bool {
    &&& files[2 * k] == file_name((2 * round) as nat, Role::User)
    &&& files[2 * k + 1] == file_name((2 * round + 1) as nat, Role::Assistant)
}

/// The files of some rounds are two for each, from the first of them on.
pub proof fn law_round_files(from: int, n: int)
    requires
        0 <= from,
        0 <= n,
    ensures
        files_of_rounds(from, n).len() == 2 * n,
        forall|k: int| 0 <= k < n ==> #[trigger] has_pair(files_of_rounds(from, n), k, from + k),
    decreases n,
{
    if n > 0 {
        law_round_files(from, n - 1);
        let t = files_of_rounds(from, n - 1);
        assert forall|k: int| 0 <= k < n implies #[trigger] has_pair(
            files_of_rounds(from, n),
            k,
            from + k,
        ) by {
            if k < n - 1 {
                assert(has_pair(t, k, from + k));
            }
        }
    }
}

/// The rounds of a merged conversation go on from where it parted, without a gap: the `i`-th is the
/// `i`-th in order, with the question and the answer that its side has for it.
pub proof fn law_rounds_renumbered(
    db: Map<ObjectSha, Seq<u8>>,
    p: Parties,
    rounds: Seq<RoundRef>,
    base: int,
    n: int,
)
    requires
        0 <= n <= rounds.len(),
        new_rounds(db, p, rounds, base, n) is Ok,
    ensures
        new_rounds(db, p, rounds, base, n)->Ok_0.len() == n,
        forall|i: int|
            0 <= i < n ==> {
                let r = #[trigger] rounds[i];
                let new = new_rounds(db, p, rounds, base, n)->Ok_0[i];
                let tip = if r.side == Side::Ours {
                    p.ours
                } else {
                    p.theirs
                };
                &&& new.user_file == file_name((2 * (base + 1 + i)) as nat, Role::User)
                &&& new.assistant_file == file_name((2 * (base + 1 + i) + 1) as nat, Role::Assistant)
                &&& file_at(db, tip, (2 * r.old_round) as u32, Role::User) == Ok::<
                    Seq<u8>,
                    ChatMergeError,
                >(new.user)
                &&& file_at(db, tip, (2 * r.old_round + 1) as u32, Role::Assistant) == Ok::<
                    Seq<u8>,
                    ChatMergeError,
                >(new.assistant)
            },
    decreases n,
{
    if n > 0 {
        law_rounds_renumbered(db, p, rounds, base, n - 1);
        let before = new_rounds(db, p, rounds, base, n - 1)->Ok_0;
        let all = new_rounds(db, p, rounds, base, n)->Ok_0;
        assert forall|i: int| 0 <= i < n - 1 implies #[trigger] all[i] == before[i] by {}
    }
}

/// The rounds of a side after the point where the sides part are those of its later commits, from the
/// oldest on, each at the time of its commit.
pub proof fn law_round_times(
    db: Map<ObjectSha, Seq<u8>>,
    ids: Seq<ObjectSha>,
    base: int,
    side: Side,
    round: int,
)
    requires
        0 <= base < round <= ids.len() <= MAX_ROUNDS,
        commit_at(db, ids[ids.len() - round]) is Ok,
        i64::MIN <= commit_at(db, ids[ids.len() - round])->Ok_0.committer.unix_time <= i64::MAX,
    ensures
        rounds_after(db, ids, base, side).len() == ids.len() - base,
        ({
            let r = rounds_after(db, ids, base, side)[round - base - 1];
            &&& r.side == side
            &&& r.old_round == round
            &&& r.time == commit_at(db, ids[ids.len() - round])->Ok_0.committer.unix_time
        }),
{
}

proof fn lemma_round_kept(s: Seq<RoundRef>, r: RoundRef)
    requires
        s.contains(r),
    ensures
        in_order::<RoundRef>(s).len() == s.len(),
        in_order::<RoundRef>(s).contains(r),
{
    law_in_order::<RoundRef>(s);
    s.to_multiset_ensures();
    in_order::<RoundRef>(s).to_multiset_ensures();
    assert(s.to_multiset().count(r) > 0);
    assert(in_order::<RoundRef>(s).to_multiset().count(r) > 0);
}

/// Whether the new rounds hold a round of a side with its question and its answer.
pub open spec fn holds_round(
    db: Map<ObjectSha, Seq<u8>>,
    tip: ObjectSha,
    round: int,
    rounds: Seq<NewRoundModel>,
) -> bool {
    exists|i: int|
        0 <= i < rounds.len() && file_at(db, tip, (2 * round) as u32, Role::User) == Ok::<
            Seq<u8>,
            ChatMergeError,
        >((#[trigger] rounds[i]).user) && file_at(
            db,
            tip,
            (2 * round + 1) as u32,
            Role::Assistant,
        ) == Ok::<Seq<u8>, ChatMergeError>(rounds[i].assistant)
}

proof fn lemma_side_kept(
    db: Map<ObjectSha, Seq<u8>>,
    p: Parties,
    a: Seq<ObjectSha>,
    b: Seq<ObjectSha>,
    n: int,
    rounds: Seq<NewRoundModel>,
    side: Side,
    round: int,
)
    requires
        0 <= n <= a.len(),
        n <= b.len(),
        a.len() + b.len() - n <= MAX_ROUNDS,
        new_rounds(db, p, merged_order(db, a, b, n), n, merged_order(db, a, b, n).len() as int)
            == Ok::<Seq<NewRoundModel>, ChatMergeError>(rounds),
        n < round <= (if side == Side::Ours {
            a.len()
        } else {
            b.len()
        }),
    ensures
        holds_round(
            db,
            (if side == Side::Ours {
                p.ours
            } else {
                p.theirs
            }),
            round,
            rounds,
        ),
{
    let x = rounds_after(db, a, n, Side::Ours);
    let y = rounds_after(db, b, n, Side::Theirs);
    let order = merged_order(db, a, b, n);
    let k = round - n - 1;
    let r = if side == Side::Ours {
        x[k]
    } else {
        y[k]
    };
    if side == Side::Ours {
        assert((x + y)[k] == r);
    } else {
        assert((x + y)[x.len() + k] == r);
    }
    lemma_round_kept(x + y, r);
    let i = choose|i: int| 0 <= i < order.len() && order[i] == r;
    law_rounds_renumbered(db, p, order, n, order.len() as int);
    assert(order[i].old_round == round);
}

proof fn lemma_rounds_count(
    db: Map<ObjectSha, Seq<u8>>,
    p: Parties,
    a: Seq<ObjectSha>,
    b: Seq<ObjectSha>,
    n: int,
    rounds: Seq<NewRoundModel>,
)
    requires
        0 <= n <= a.len(),
        n <= b.len(),
        new_rounds(db, p, merged_order(db, a, b, n), n, merged_order(db, a, b, n).len() as int)
            == Ok::<Seq<NewRoundModel>, ChatMergeError>(rounds),
    ensures
        rounds.len() == a.len() - n + b.len() - n,
{
    let order = merged_order(db, a, b, n);
    law_in_order::<RoundRef>(
        rounds_after(db, a, n, Side::Ours) + rounds_after(db, b, n, Side::Theirs),
    );
    law_rounds_renumbered(db, p, order, n, order.len() as int);
}

/// A merged conversation holds every round that either side has after the point where they part, and
/// as many rounds as both have together; what our side had after it is taken away first.
pub proof fn law_join_keeps_rounds(
    db: Map<ObjectSha, Seq<u8>>,
    count: nat,
    p: Parties,
    base: ObjectSha,
    remove: Seq<Seq<char>>,
    rounds: Seq<NewRoundModel>,
    theirs: ObjectSha,
    message: Seq<char>,
    a: Seq<ObjectSha>,
    b: Seq<ObjectSha>,
    n: int,
)
    requires
        a == chain(db, p.ours, count, true).0,
        b == chain(db, p.theirs, count, true).0,
        n == chain(db, base, count, true).0.len(),
        joined(db, count, p, base) == Ok::<ChatPlanModel, ChatMergeError>(
            ChatPlanModel::Join { remove, rounds, theirs, message },
        ),
    ensures
        theirs == p.theirs,
        message == "Merge "@ + p.their_branch + " into "@ + p.our_branch,
        rounds.len() == a.len() - n + b.len() - n,
        remove.len() == 2 * (a.len() - n),
        forall|k: int| 0 <= k < a.len() - n ==> #[trigger] has_pair(remove, k, n + 1 + k),
        forall|round: int|
            n < round <= a.len() ==> #[trigger] holds_round(db, p.ours, round, rounds),
        forall|round: int|
            n < round <= b.len() ==> #[trigger] holds_round(db, p.theirs, round, rounds),
{
    lemma_rounds_count(db, p, a, b, n, rounds);
    law_round_files(n + 1, a.len() - n);
    assert forall|k: int| 0 <= k < a.len() - n implies #[trigger] has_pair(remove, k, n + 1 + k) by {
        assert(has_pair(files_of_rounds(n + 1, a.len() - n), k, n + 1 + k));
    }
    assert forall|round: int| n < round <= a.len() implies #[trigger] holds_round(
        db,
        p.ours,
        round,
        rounds,
    ) by {
        lemma_side_kept(db, p, a, b, n, rounds, Side::Ours, round);
    }
    assert forall|round: int| n < round <= b.len() implies #[trigger] holds_round(
        db,
        p.theirs,
        round,
        rounds,
    ) by {
        lemma_side_kept(db, p, a, b, n, rounds, Side::Theirs, round);
    }
}

/// A round of the log is its number with the beginnings of its question and its answer; there is
/// one line for each round behind the title.
pub proof fn law_log_rounds(
    ms: Seq<MessageModel>,
    node: Option<ObjectSha>,
    branch: Option<Seq<char>>,
    k: int,
)
    requires
        1 <= k,
        prompts(ms) + 2 * k <= ms.len(),
    ensures
        log_of(ms, node, branch).len() == 1 + (ms.len() - prompts(ms) + 1) / 2,
        log_of(ms, node, branch)[k] == "轮"@ + dec(k as nat) + "  "@ + line_of(
            ms[prompts(ms) + 2 * k - 2].content,
        ) + "  → "@ + line_of(ms[prompts(ms) + 2 * k - 1].content),
{
    lemma_prompts(ms);
}

/// The labels of a commit are those of all branches that are at it, in order; the current one is
/// marked.
pub proof fn law_labels_told(g: GraphModel, oid: ObjectSha, n: int)
    requires
        0 <= n <= g.branches.len(),
    ensures
        picked(
            branch_labels(g, oid, n),
            Seq::new(
                n as nat,
                |i: int|
                    if g.branches[i].oid != oid {
                        None
                    } else if g.current == Some(g.branches[i].name) {
                        Some(g.branches[i].name + " (当前)"@)
                    } else {
                        Some(g.branches[i].name)
                    },
            ),
        ),
    decreases n,
{
    let wanted = Seq::new(
        n as nat,
        |i: int|
            if g.branches[i].oid != oid {
                None
            } else if g.current == Some(g.branches[i].name) {
                Some(g.branches[i].name + " (当前)"@)
            } else {
                Some(g.branches[i].name)
            },
    );
    if n == 0 {
        lemma_picked_none::<Seq<char>>();
        assert(wanted =~= Seq::empty());
    } else {
        law_labels_told(g, oid, n - 1);
        let before = Seq::new(
            (n - 1) as nat,
            |i: int|
                if g.branches[i].oid != oid {
                    None
                } else if g.current == Some(g.branches[i].name) {
                    Some(g.branches[i].name + " (当前)"@)
                } else {
                    Some(g.branches[i].name)
                },
        );
        lemma_picked_push(branch_labels(g, oid, n - 1), before, wanted.last());
        assert(wanted =~= before.push(wanted.last()));
    }
}

/// The rows below a commit are all whose first parent it is, in order.
pub proof fn law_children_told(rows: Seq<RowModel>, parent: Option<ObjectSha>, n: int)
    requires
        0 <= n <= rows.len(),
    ensures
        picked(
            children(rows, parent, n),
            Seq::new(
                n as nat,
                |i: int|
                    if rows[i].parent == parent {
                        Some(i)
                    } else {
                        None
                    },
            ),
        ),
    decreases n,
{
    let wanted = Seq::new(
        n as nat,
        |i: int|
            if rows[i].parent == parent {
                Some(i)
            } else {
                None
            },
    );
    if n == 0 {
        lemma_picked_none::<int>();
        assert(wanted =~= Seq::empty());
    } else {
        law_children_told(rows, parent, n - 1);
        let before = Seq::new(
            (n - 1) as nat,
            |i: int|
                if rows[i].parent == parent {
                    Some(i)
                } else {
                    None
                },
        );
        lemma_picked_push(children(rows, parent, n - 1), before, wanted.last());
        assert(wanted =~= before.push(wanted.last()));
    }
}

/// The branches are those of all files, in order, each at the commit whose id its file holds; there
/// are none just where a file does not hold the id of a commit.
pub proof fn law_branches_listed(db: Map<ObjectSha, Seq<u8>>, files: Seq<BranchFileModel>)
    ensures
        tips_in(db, files) is Ok <==> forall|i: int|
            0 <= i < files.len() ==> ref_in((#[trigger] files[i]).content) is Ok && commit_fault(
                db,
                ref_in(files[i].content)->Ok_0,
            ) is None,
        tips_in(db, files) matches Ok(tips) ==> tips.len() == files.len() && forall|i: int|
            0 <= i < tips.len() ==> ref_in(files[i].content) == Ok::<ObjectSha, RefError>(
                (#[trigger] tips[i]).oid,
            ) && tips[i].name == forward_slashes(files[i].name),
    decreases files.len(),
{
    if files.len() > 0 {
        let t = files.drop_last();
        law_branches_listed(db, t);
        assert forall|i: int| 0 <= i < t.len() implies #[trigger] t[i] == files[i] by {}
        let l = files[files.len() - 1];
        if tips_in(db, t) is Err {
            let i = choose|i: int|
                0 <= i < t.len() && !(ref_in((#[trigger] t[i]).content) is Ok && commit_fault(
                    db,
                    ref_in(t[i].content)->Ok_0,
                ) is None);
            assert(files[i] == t[i]);
        } else if tips_in(db, files) is Ok {
            let before = tips_in(db, t)->Ok_0;
            let tips = tips_in(db, files)->Ok_0;
            assert forall|i: int| 0 <= i < files.len() implies ref_in(
                (#[trigger] files[i]).content,
            ) is Ok && commit_fault(db, ref_in(files[i].content)->Ok_0) is None by {
                if i < t.len() {
                    assert(t[i] == files[i]);
                }
            }
            assert forall|i: int| 0 <= i < tips.len() implies ref_in(files[i].content) == Ok::<
                ObjectSha,
                RefError,
            >((#[trigger] tips[i]).oid) && tips[i].name == forward_slashes(files[i].name) by {
                if i < t.len() {
                    assert(tips[i] == before[i]);
                    assert(t[i] == files[i]);
                }
            }
        }
    }
}

/// Which rounds were sent is told by the first line that starts with `Giftai-context: rounds `.
pub proof fn law_note(ls: Seq<Seq<char>>, k: int, rounds: Seq<char>)
    requires
        0 <= k < ls.len(),
        trim(ls[k]) == "Giftai-context: rounds "@ + rounds,
        forall|i: int|
            0 <= i < k ==> !starts_with(trim(#[trigger] ls[i]), "Giftai-context: rounds "@),
    ensures
        note_in(ls) == Some("仅基于第 "@ + trim(rounds) + " 轮"@),
    decreases k,
{
    let prefix = "Giftai-context: rounds "@;
    let l = trim(ls[k]);
    assert(l.subrange(0, prefix.len() as int) =~= prefix);
    assert(l.subrange(prefix.len() as int, l.len() as int) =~= rounds);
    if k > 0 {
        assert(!starts_with(trim(ls[0]), prefix));
        let t = ls.drop_first();
        assert forall|i: int| 0 <= i < k - 1 implies !starts_with(trim(#[trigger] t[i]), prefix) by {
            assert(t[i] == ls[i + 1]);
        }
        law_note(t, k - 1, rounds);
    }
}

/// The service is asked below its address, whether or not slashes are written at the end of it.
pub proof fn law_completions_url(base: Seq<char>, slashes: Seq<char>)
    requires
        base.len() > 0 ==> base.last() != '/',
        forall|i: int| 0 <= i < slashes.len() ==> #[trigger] slashes[i] == '/',
    ensures
        completions_at(base + slashes) == base + "/chat/completions"@,
    decreases slashes.len(),
{
    if slashes.len() == 0 {
        assert(base + slashes =~= base);
    } else {
        let t = slashes.drop_last();
        assert forall|i: int| 0 <= i < t.len() implies #[trigger] t[i] == '/' by {
            assert(t[i] == slashes[i]);
        }
        law_completions_url(base, t);
        assert(slashes[slashes.len() - 1] == '/');
        assert((base + slashes).last() == '/');
        assert((base + slashes).drop_last() =~= base + t);
    }
}

/// The key is the first of the two that is set to something; a value that is not set to anything is
/// the other one.
pub proof fn law_values_chosen(a: Seq<char>, b: Option<Seq<char>>, other: Seq<char>)
    requires
        a.len() > 0,
    ensures
        key_in(Some(a), b) == Some(a),
        key_in(None, Some(a)) == Some(a),
        key_in(Some(Seq::empty()), Some(a)) == Some(a),
        key_in(None, None) is None,
        key_in(Some(Seq::empty()), Some(Seq::empty())) is None,
        key_in(None, Some(Seq::empty())) is None,
        key_in(Some(Seq::empty()), None) is None,
        value_or(Some(a), other) == a,
        value_or(None, other) == other,
        value_or(Some(Seq::empty()), other) == other,
{
}

/// A merge of two different conversations does nothing just where ours holds all of theirs. Where
/// theirs holds all of ours it goes over to theirs; else the rounds of both after a point that both
/// hold are joined.
pub proof fn law_chat_merge_outcome(
    db: Map<ObjectSha, Seq<u8>>,
    count: nat,
    p: Parties,
    plan: ChatPlanModel,
)
    requires
        p.ours != p.theirs,
        merges_to(db, count, p, Ok(plan)),
    ensures
        plan == ChatPlanModel::Contained <==> is_ancestor(db, p.theirs, p.ours),
        is_ancestor(db, p.ours, p.theirs) && !is_ancestor(db, p.theirs, p.ours)
            ==> plan is FastForward,
        plan matches ChatPlanModel::FastForward(oid) ==> oid == p.theirs && is_ancestor(
            db,
            p.ours,
            p.theirs,
        ),
        plan is Join ==> exists|base: ObjectSha|
            is_ancestor(db, base, p.ours) && is_ancestor(db, base, p.theirs) && #[trigger] joined(
                db,
                count,
                p,
                base,
            ) == Ok::<ChatPlanModel, ChatMergeError>(plan),
{
    let r = Ok::<ChatPlanModel, ChatMergeError>(plan);
    let base = choose|base: Option<ObjectSha>| #[trigger]
        meets(db, p.ours, p.theirs, base) && r == merged_at(db, count, p, base);
    assert(meets(db, p.ours, p.theirs, base) && r == merged_at(db, count, p, base));
    law_meeting_is_ancestor(db, p.ours, p.theirs, base);
    if plan is Join {
        assert(joined(db, count, p, base->Some_0) == r);
    }
}

/// Conversations are merged into the branch that `HEAD` is on, at the commit that it is at, from
/// another branch at the commit whose id its file holds.
pub proof fn law_chat_parties(
    db: Map<ObjectSha, Seq<u8>>,
    path: Seq<char>,
    head: Seq<char>,
    our_tip: Option<Seq<char>>,
    their_branch: Seq<char>,
    their_tip: Option<Seq<char>>,
    p: Parties,
)
    requires
        head_in(head) == Ok::<HeadModel, RefError>(HeadModel::Branch(path)),
        parties(db, head, our_tip, their_branch, their_tip) == Ok::<Parties, ChatMergeError>(p),
    ensures
        branch_name(HeadModel::Branch(path)) == Some(p.our_branch),
        p.their_branch == their_branch,
        p.our_branch != p.their_branch,
        our_tip is Some && ref_in(our_tip->0) == Ok::<ObjectSha, RefError>(p.ours),
        their_tip is Some && ref_in(their_tip->0) == Ok::<ObjectSha, RefError>(p.theirs),
        commit_fault(db, p.ours) is None,
        commit_fault(db, p.theirs) is None,
{
}

/// A conversation is only merged into a branch.
pub proof fn law_chat_detached(
    db: Map<ObjectSha, Seq<u8>>,
    oid: ObjectSha,
    head: Seq<char>,
    our_tip: Option<Seq<char>>,
    their_branch: Seq<char>,
    their_tip: Option<Seq<char>>,
)
    requires
        head_in(head) == Ok::<HeadModel, RefError>(HeadModel::Commit(oid)),
    ensures
        parties(db, head, our_tip, their_branch, their_tip) == Err::<Parties, ChatMergeError>(
            ChatMergeError::Detached,
        ),
{
}

/// A question of one line is told by that line, trimmed; of a longer one, the first fifty characters
/// are.
pub proof fn law_summary(question: Seq<char>)
    requires
        question.len() > 0,
        !question.contains('\n'),
    ensures
        trim(question).len() <= 50 ==> summary_of(question) == trim(question),
        trim(question).len() > 50 ==> summary_of(question) == trim(question).subrange(0, 50) + "…"@,
{
    assert forall|i: int| 0 <= i < question.len() implies question[i] != '\n' by {
        assert(question.contains(question[i]));
    }
    lemma_find_from_is(question, '\n', 0, question.len() as int);
    assert(lines(question) == seq![question]);
}

/// All of a conversation is sent where no rounds are chosen.
pub proof fn law_context_full(full: Seq<MessageModel>)
    ensures
        context_of(full, Seq::empty()) == Ok::<Seq<MessageModel>, SelectError>(full),
{
}

spec fn number_char(c: char) -> bool {
    '0' <= c <= '9' || c == ',' || c == ' '
}

proof fn lemma_rounds_text(rounds: Seq<u32>)
    requires
        rounds.len() > 0,
    ensures
        rounds_text(rounds).len() > 0,
        '0' <= rounds_text(rounds)[0] <= '9',
        '0' <= rounds_text(rounds).last() <= '9',
        forall|i: int| 0 <= i < rounds_text(rounds).len() ==> number_char(#[trigger] rounds_text(rounds)[i]),
    decreases rounds.len(),
{
    reveal_strlit(", ");
    let d = dec(rounds.last() as nat);
    lemma_dec_round_trip(rounds.last() as nat);
    assert(is_digit(d[0]) && is_digit(d[d.len() - 1]));
    if rounds.len() > 1 {
        lemma_rounds_text(rounds.drop_last());
        let a = rounds_text(rounds.drop_last());
        let s = rounds_text(rounds);
        assert(s == a + ", "@ + d);
        assert(s[0] == a[0]);
        assert forall|i: int| 0 <= i < s.len() implies number_char(#[trigger] s[i]) by {
            if i < a.len() {
                assert(s[i] == a[i]);
            } else if i < a.len() + 2 {
                assert(s[i] == ", "@[i - a.len()]);
            } else {
                assert(s[i] == d[i - a.len() - 2]);
                assert(is_digit(d[i - a.len() - 2]));
            }
        }
    } else {
        assert(rounds[0] == rounds.last());
        assert forall|i: int| 0 <= i < d.len() implies number_char(#[trigger] d[i]) by {
            assert(is_digit(d[i]));
        }
    }
}

/// What is recorded of the rounds that a question was asked with is what is shown of it.
pub proof fn law_context_noted(question: Seq<char>, rounds: Seq<u32>)
    requires
        question.len() > 0,
        !question.contains('\n'),
        trim(question).len() <= 50,
        rounds.len() > 0,
        !starts_with(trim(question), "Giftai-context: rounds "@),
    ensures
        note_in(lines(ask_message(question, rounds))) == Some(
            "仅基于第 "@ + rounds_text(rounds) + " 轮"@,
        ),
{
    reveal_strlit("Giftai-context: rounds ");
    reveal_strlit("\n\nGiftai-context: rounds ");
    law_summary(question);
    lemma_rounds_text(rounds);
    let prefix = "Giftai-context: rounds "@;
    let sum = summary_of(question);
    let text = rounds_text(rounds);
    let tail = prefix + text;
    let ls = seq![sum, Seq::<char>::empty()];
    let crs = seq![false, false];
    law_trim(question);
    let (a, b) = choose|a: Seq<char>, b: Seq<char>|
        question == a + trim(question) + b && #[trigger] all_space(a) && #[trigger] all_space(b);
    assert(!sum.contains('\n')) by {
        if sum.contains('\n') {
            let i = choose|i: int| 0 <= i < sum.len() && sum[i] == '\n';
            assert(question[a.len() + i] == '\n');
        }
    }
    assert(!tail.contains('\n')) by {
        if tail.contains('\n') {
            let i = choose|i: int| 0 <= i < tail.len() && tail[i] == '\n';
            if i >= prefix.len() {
                assert(tail[i] == text[i - prefix.len()]);
                assert(number_char(text[i - prefix.len()]));
            } else {
                assert(tail[i] == prefix[i]);
            }
        }
    }
    assert(is_space('\r'));
    assert forall|k: int|
        0 <= k < ls.len() && (#[trigger] ls[k]).len() > 0 && ls[k].last() == '\r' implies crs[k] by {}
    assert forall|k: int| 0 <= k < ls.len() implies !(#[trigger] ls[k]).contains('\n') by {}
    law_lines(ls, crs, tail);
    let more = ls.drop_first();
    assert(more.drop_first() =~= Seq::empty());
    assert(ended(more.drop_first(), crs.drop_first().drop_first()) =~= Seq::empty());
    assert(more[0].len() == 0);
    assert(ended(more, crs.drop_first()) =~= seq!['\n']);
    assert(ended(ls, crs) =~= sum.push('\n').push('\n'));
    assert(ask_message(question, rounds) =~= ended(ls, crs) + tail);
    let all = ls.push(tail);
    assert(tail[0] == prefix[0]);
    assert(tail.last() == text.last());
    lemma_trim_solid(tail);
    lemma_trim_solid(text);
    lemma_trim_again(question);
    lemma_trim_all_space(Seq::<char>::empty());
    assert(tail.subrange(0, prefix.len() as int) =~= prefix);
    assert forall|i: int| 0 <= i < 2 implies !starts_with(trim(#[trigger] all[i]), prefix) by {}
    law_note(all, 2, text);
}

} // verus!
