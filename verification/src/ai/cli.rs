//! What the commands of a conversation send, record and show.
use crate::ai::messages::{
    role_word, select_rounds, selection, Message, MessageModel, Role, SelectError,
};
use crate::numbers::{dec, parse_unsigned, push_dec, read_unsigned};
use crate::object::ObjectSha;
use crate::text::{
    chars_of, lemma_views_push, lines, lines_of, string_of, trim, trimmed, views,
};
use vstd::prelude::*;
use vstd::slice::slice_subrange;

verus! {

/// The most characters of a summary.
pub const SUMMARY_MAX_CHARS: usize = 50;

/// The system prompt of a new conversation.
pub fn default_system_prompt() -> (r: &'static str)
    ensures
        r@ == "你是一个有用的 AI 助手，请用简洁清晰的中文回答。"@,
{
    "你是一个有用的 AI 助手，请用简洁清晰的中文回答。"
}

/// At most `max` characters of a text, with an ellipsis where some are left out.
pub open spec fn shortened_to(s: Seq<char>, max: int) -> Seq<char> {
    if s.len() <= max {
        s
    } else {
        s.subrange(0, max) + "…"@
    }
}

/// At most `max` characters of a text, with an ellipsis where some are left out.
pub fn shorten_to(s: &[char], max: usize) -> (r: String)
    ensures
        r@ == shortened_to(s@, max as int),
{
    if s.len() <= max {
        string_of(s)
    } else {
        let mut out = string_of(slice_subrange(s, 0, max));
        out.append("…");
        out
    }
}

/// What a question is summed up as: its first line, not too long.
pub open spec fn summary_of(question: Seq<char>) -> Seq<char> {
    let ls = lines(question);
    shortened_to(
        if ls.len() > 0 {
            trim(ls[0])
        } else {
            Seq::empty()
        },
        SUMMARY_MAX_CHARS as int,
    )
}

/// Sums up a question.
pub fn summarize(question: &str) -> (r: String)
    ensures
        r@ == summary_of(question@),
{
    let cs = chars_of(question);
    let ls = lines_of(cs.as_slice());
    assert(lines(question@) == views(ls@));
    if ls.len() > 0 {
        assert(lines(question@)[0] == ls@[0]@);
        shorten_to(trimmed(ls[0].as_slice()), SUMMARY_MAX_CHARS)
    } else {
        let s = String::new();
        assert(s@ =~= shortened_to(Seq::empty(), SUMMARY_MAX_CHARS as int));
        s
    }
}

/// Numbers with commas between them.
pub open spec fn rounds_text(rounds: Seq<u32>) -> Seq<char>
    decreases rounds.len(),
{
    if rounds.len() == 0 {
        Seq::empty()
    } else if rounds.len() == 1 {
        dec(rounds[0] as nat)
    } else {
        rounds_text(rounds.drop_last()) + ", "@ + dec(rounds.last() as nat)
    }
}

/// Writes numbers with commas between them.
pub fn join_rounds(rounds: &[u32]) -> (r: String)
    ensures
        r@ == rounds_text(rounds@),
{
    let mut out = String::new();
    let mut i: usize = 0;
    assert(rounds@.subrange(0, 0) =~= Seq::empty());
    assert(out@ =~= Seq::empty());
    while i < rounds.len()
        invariant
            0 <= i <= rounds@.len(),
            out@ == rounds_text(rounds@.subrange(0, i as int)),
        decreases rounds@.len() - i,
    {
        proof {
            let upto = rounds@.subrange(0, i + 1);
            assert(upto.drop_last() =~= rounds@.subrange(0, i as int));
            assert(upto.last() == rounds@[i as int]);
        }
        if i > 0 {
            out.append(", ");
        }
        push_dec(&mut out, rounds[i] as u64);
        assert(i == 0 ==> out@ =~= dec(rounds@[0] as nat));
        i += 1;
    }
    assert(rounds@.subrange(0, i as int) =~= rounds@);
    out
}

/// The message of the commit that records a round: the summary of the question and, if only some
/// rounds were sent, which.
pub open spec fn ask_message(question: Seq<char>, rounds: Seq<u32>) -> Seq<char> {
    if rounds.len() == 0 {
        summary_of(question)
    } else {
        summary_of(question) + "\n\nGiftai-context: rounds "@ + rounds_text(rounds)
    }
}

/// Writes the message of the commit that records a round.
pub fn build_commit_message(question: &str, rounds: &[u32]) -> (r: String)
    ensures
        r@ == ask_message(question@, rounds@),
{
    let mut out = summarize(question);
    if rounds.len() > 0 {
        out.append("\n\nGiftai-context: rounds ");
        out.append(join_rounds(rounds).as_str());
    }
    out
}

/// The numbers that arguments give, where an empty one gives none; otherwise the first argument
/// that is no number.
pub open spec fn rounds_given(args: Seq<Seq<char>>) -> Result<Seq<u32>, Seq<char>>
    decreases args.len(),
{
    if args.len() == 0 {
        Ok(Seq::empty())
    } else {
        let s = trim(args.last());
        match rounds_given(args.drop_last()) {
            Err(e) => Err(e),
            Ok(before) => if s.len() == 0 {
                Ok(before)
            } else {
                match parse_unsigned(s, u32::MAX as nat) {
                    Some(n) => Ok(before.push(n as u32)),
                    None => Err(s),
                }
            },
        }
    }
}

proof fn lemma_rounds_stop(args: Seq<Seq<char>>, n: int)
    requires
        0 <= n <= args.len(),
        rounds_given(args.subrange(0, n)) is Err,
    ensures
        rounds_given(args) == rounds_given(args.subrange(0, n)),
    decreases args.len() - n,
{
    if n == args.len() {
        assert(args.subrange(0, n) =~= args);
    } else {
        assert(args.subrange(0, n + 1).drop_last() =~= args.subrange(0, n));
        lemma_rounds_stop(args, n + 1);
    }
}

/// Reads the numbers of rounds that arguments give.
pub fn parse_select(select: &[String]) -> (r: Result<Vec<u32>, String>)
    ensures
        (match rounds_given(views(select@)) {
            Ok(ns) => r is Ok && r->Ok_0@ == ns,
            Err(e) => r is Err && r->Err_0@ == e,
        }),
{
    let ghost all = views(select@);
    let mut out: Vec<u32> = Vec::new();
    let mut i: usize = 0;
    assert(all.subrange(0, 0) =~= Seq::empty());
    assert(out@ =~= Seq::empty());
    while i < select.len()
        invariant
            0 <= i <= select@.len(),
            all == views(select@),
            rounds_given(all.subrange(0, i as int)) == Ok::<Seq<u32>, Seq<char>>(out@),
        decreases select@.len() - i,
    {
        proof {
            let upto = all.subrange(0, i + 1);
            assert(upto.drop_last() =~= all.subrange(0, i as int));
            assert(upto.last() == select@[i as int]@);
        }
        let cs = chars_of(select[i].as_str());
        let s = trimmed(cs.as_slice());
        if s.len() > 0 {
            match read_unsigned(s, u32::MAX as u64) {
                Some(n) => {
                    out.push(n as u32);
                },
                None => {
                    proof {
                        lemma_rounds_stop(all, i + 1);
                    }
                    return Err(string_of(s));
                },
            }
        }
        i += 1;
    }
    assert(all.subrange(0, i as int) =~= all);
    Ok(out)
}

/// The messages that a command sends or shows: all, or those of the rounds asked for.
pub open spec fn context_of(full: Seq<MessageModel>, rounds: Seq<u32>) -> Result<
    Seq<MessageModel>,
    SelectError,
> {
    if rounds.len() == 0 {
        Ok(full)
    } else {
        selection(full, rounds)
    }
}

/// The messages that a command shows: all, or those of the rounds asked for.
pub fn context(full: Vec<Message>, rounds: &[u32]) -> (r: Result<Vec<Message>, SelectError>)
    ensures
        (match context_of(views(full@), rounds@) {
            Ok(ms) => r is Ok && views(r->Ok_0@) == ms,
            Err(e) => r is Err && r->Err_0 == e,
        }),
{
    if rounds.len() == 0 {
        Ok(full)
    } else {
        select_rounds(full.as_slice(), rounds)
    }
}

/// The messages that are sent with a question: the context, and the question behind it.
pub fn ask(full: Vec<Message>, rounds: &[u32], question: &str) -> (r: Result<
    Vec<Message>,
    SelectError,
>)
    ensures
        (match context_of(views(full@), rounds@) {
            Ok(ms) => r is Ok && views(r->Ok_0@) == ms.push(
                MessageModel { role: Role::User, content: question@ },
            ),
            Err(e) => r is Err && r->Err_0 == e,
        }),
{
    let mut ms = match context(full, rounds) {
        Ok(ms) => ms,
        Err(e) => return Err(e),
    };
    let m = Message::user(question);
    proof {
        lemma_views_push(ms@, m);
    }
    ms.push(m);
    Ok(ms)
}

/// What is shown first of a context.
pub open spec fn context_title(rounds: Seq<u32>, count: nat) -> Seq<char> {
    if rounds.len() == 0 {
        "将发送全量上下文，共 "@ + dec(count) + " 条消息：\n"@
    } else {
        "将发送第 "@ + rounds_text(rounds) + " 轮（含 system），共 "@ + dec(count)
            + " 条消息：\n"@
    }
}

/// How messages are shown.
pub open spec fn message_lines(ms: Seq<MessageModel>) -> Seq<Seq<char>>
    decreases ms.len(),
{
    if ms.len() == 0 {
        Seq::empty()
    } else {
        let m = ms.last();
        message_lines(ms.drop_last()).push("── "@ + role_word(m.role) + " ──"@).push(
            m.content + "\n"@,
        )
    }
}

/// Shows the context that would be sent.
pub fn show_context(rounds: &[u32], messages: &[Message]) -> (r: Vec<String>)
    ensures
        views(r@) == seq![context_title(rounds@, messages@.len())] + message_lines(
            views(messages@),
        ),
{
    let ghost all = views(messages@);
    let mut title;
    if rounds.len() == 0 {
        title = string_of(chars_of("将发送全量上下文，共 ").as_slice());
    } else {
        title = string_of(chars_of("将发送第 ").as_slice());
        title.append(join_rounds(rounds).as_str());
        title.append(" 轮（含 system），共 ");
    }
    push_dec(&mut title, messages.len() as u64);
    title.append(" 条消息：\n");
    let ghost first = context_title(rounds@, messages@.len());
    assert(title@ == first);
    let mut out: Vec<String> = Vec::new();
    out.push(title);
    let mut i: usize = 0;
    assert(all.subrange(0, 0) =~= Seq::empty());
    assert(views(out@) =~= seq![first] + message_lines(all.subrange(0, 0)));
    while i < messages.len()
        invariant
            0 <= i <= messages@.len(),
            all == views(messages@),
            views(out@) == seq![first] + message_lines(all.subrange(0, i as int)),
        decreases messages@.len() - i,
    {
        let m = &messages[i];
        proof {
            let upto = all.subrange(0, i + 1);
            assert(upto.drop_last() =~= all.subrange(0, i as int));
            assert(upto.last() == m@);
        }
        let mut head = string_of(chars_of("── ").as_slice());
        head.append(m.role.keyword());
        head.append(" ──");
        let mut body = m.content.clone();
        body.append("\n");
        proof {
            lemma_views_push(out@, head);
            lemma_views_push(out@.push(head), body);
        }
        out.push(head);
        out.push(body);
        i += 1;
        assert(views(out@) =~= seq![first] + message_lines(all.subrange(0, i as int)));
    }
    assert(all.subrange(0, i as int) =~= all);
    out
}

/// What is shown of a recorded round.
pub open spec fn answer_lines(
    oid: Seq<char>,
    question: Seq<char>,
    rounds: Seq<u32>,
    reply: Seq<char>,
) -> Seq<Seq<char>> {
    let first = seq!["● "@ + oid + "  "@ + summary_of(question)];
    let note = if rounds.len() == 0 {
        Seq::empty()
    } else {
        seq!["  （本轮仅基于第 "@ + rounds_text(rounds) + " 轮上下文生成）"@]
    };
    first + note + seq!["\n"@ + reply]
}

/// Shows a recorded round.
pub fn show_answer(oid: &ObjectSha, question: &str, rounds: &[u32], reply: &str) -> (r: Vec<String>)
    ensures
        views(r@) == answer_lines(
            crate::numbers::hex_of(oid@),
            question@,
            rounds@,
            reply@,
        ),
{
    let mut first = string_of(chars_of("● ").as_slice());
    first.append(oid.to_string().as_str());
    first.append("  ");
    first.append(summarize(question).as_str());
    let mut out: Vec<String> = Vec::new();
    out.push(first);
    if rounds.len() > 0 {
        let mut note = string_of(chars_of("  （本轮仅基于第 ").as_slice());
        note.append(join_rounds(rounds).as_str());
        note.append(" 轮上下文生成）");
        out.push(note);
    }
    let mut last = string_of(chars_of("\n").as_slice());
    last.append(reply);
    out.push(last);
    assert(views(out@) =~= answer_lines(
        crate::numbers::hex_of(oid@),
        question@,
        rounds@,
        reply@,
    ));
    out
}

} // verus!
