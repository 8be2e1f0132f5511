//! Showing a history.
use crate::commit_object::{commit_at, CommitModel, CommitObject};
use crate::first_parents::{chain, chain_fits, chain_ids, walk_first_parents};
use crate::numbers::hex_of;
use crate::object::{ObjectError, ObjectSha};
use crate::object_db::ObjectDb;
use crate::text::{
    chars_of, lemma_views_push, lines, lines_of, lossy_text, string_of, trim, trimmed, utf8_lossy,
    views,
};
use vstd::prelude::*;

verus! {

/// Why a history cannot be shown.
#[derive(Debug)]
pub enum LogError {
    /// There is no commit yet.
    NoCommits,
    /// A commit cannot be read; what comes before it was shown.
    Read { shown: Vec<String>, error: ObjectError },
}

impl LogError {
    /// What the error says.
    pub fn message(&self) -> (r: &'static str)
        ensures
            r@ == (match self {
                LogError::NoCommits => "no commits yet"@,
                LogError::Read { .. } => "failed to read a commit"@,
            }),
    {
        match self {
            LogError::NoCommits => "no commits yet",
            LogError::Read { .. } => "failed to read a commit",
        }
    }
}

/// What is shown of a commit's message: all of it, without white space around it.
pub open spec fn shown_message(raw: Seq<u8>) -> Seq<char> {
    trim(lossy_text(raw))
}

/// What is shown of a commit's message.
pub fn extract_message(raw: &[u8]) -> (r: String)
    ensures
        r@ == shown_message(raw@),
{
    let s = chars_of(utf8_lossy(raw).as_str());
    string_of(trimmed(s.as_slice()))
}

/// Lines with four spaces before each.
pub open spec fn indented(ls: Seq<Seq<char>>) -> Seq<Seq<char>> {
    Seq::new(ls.len(), |i: int| "    "@ + ls[i])
}

/// How a commit is shown.
pub open spec fn commit_lines(oid: ObjectSha, message: Seq<u8>) -> Seq<Seq<char>> {
    seq!["commit "@ + hex_of(oid@), Seq::empty()] + indented(lines(shown_message(message))) + seq![
        Seq::<char>::empty(),
    ]
}

/// How commits are shown, one after another.
pub open spec fn log_lines(db: Map<ObjectSha, Seq<u8>>, ids: Seq<ObjectSha>) -> Seq<Seq<char>>
    decreases ids.len(),
{
    if ids.len() == 0 {
        Seq::empty()
    } else {
        log_lines(db, ids.drop_last()) + commit_lines(
            ids.last(),
            commit_at(db, ids.last())->Ok_0.message,
        )
    }
}

fn print_commit(oid: &ObjectSha, commit: &CommitObject, out: &mut Vec<String>)
    ensures
        views(final(out)@) == views(old(out)@) + commit_lines(*oid, commit@.message),
{
    let ghost before = views(out@);
    let mut head = string_of(chars_of("commit ").as_slice());
    head.append(oid.to_string().as_str());
    let blank = String::new();
    let ghost empty = Seq::<char>::empty();
    assert(blank@ =~= empty);
    proof {
        lemma_views_push(out@, head);
    }
    out.push(head);
    proof {
        lemma_views_push(out@, blank);
    }
    out.push(blank);
    let ghost start = views(out@);
    assert(start =~= before + seq!["commit "@ + hex_of(oid@), empty]);
    let text = chars_of(extract_message(commit.message.as_slice()).as_str());
    let ls = lines_of(text.as_slice());
    let ghost all = lines(shown_message(commit@.message));
    let mut i: usize = 0;
    while i < ls.len()
        invariant
            0 <= i <= ls@.len(),
            all == views(ls@),
            views(out@) == start + indented(all).subrange(0, i as int),
        decreases ls@.len() - i,
    {
        let mut line = string_of(chars_of("    ").as_slice());
        line.append(string_of(ls[i].as_slice()).as_str());
        assert(all[i as int] == ls@[i as int]@);
        proof {
            lemma_views_push(out@, line);
        }
        out.push(line);
        i += 1;
        assert(views(out@) =~= start + indented(all).subrange(0, i as int));
    }
    let end = String::new();
    assert(end@ =~= empty);
    proof {
        lemma_views_push(out@, end);
    }
    out.push(end);
    assert(views(out@) =~= before + commit_lines(*oid, commit@.message));
}

/// How many commits are shown at most.
pub open spec fn log_limit(max_count: Option<usize>, count: nat) -> (nat, bool) {
    match max_count {
        Some(n) => (n as nat, false),
        None => (count, true),
    }
}

/// Shows the history from a commit on along the first parents, at most `max_count` commits.
pub fn log(db: &ObjectDb, head: Option<&ObjectSha>, max_count: Option<usize>) -> (r: Result<
    Vec<String>,
    LogError,
>)
    ensures
        (match head {
            None => r matches Err(LogError::NoCommits),
            Some(oid) => {
                let limit = log_limit(max_count, db.count());
                let c = chain(db@, *oid, limit.0, limit.1);
                match c.1 {
                    None => r is Ok && views(r->Ok_0@) == log_lines(db@, c.0),
                    Some(e) => r matches Err(LogError::Read { shown, error }) && error == e
                        && views(shown@) == log_lines(db@, c.0),
                }
            },
        }),
{
    let oid = match head {
        Some(oid) => oid,
        None => return Err(LogError::NoCommits),
    };
    let found = match max_count {
        Some(n) => walk_first_parents(db, oid, n, false),
        None => walk_first_parents(db, oid, db.len(), true),
    };
    let ghost ids = chain_ids(found.commits@);
    let mut out: Vec<String> = Vec::new();
    let mut i: usize = 0;
    assert(ids.subrange(0, 0) =~= Seq::empty());
    assert(views(out@) =~= Seq::empty());
    while i < found.commits.len()
        invariant
            0 <= i <= found.commits@.len(),
            ids == chain_ids(found.commits@),
            chain_fits(db@, found.commits@),
            views(out@) == log_lines(db@, ids.subrange(0, i as int)),
        decreases found.commits@.len() - i,
    {
        proof {
            let upto = ids.subrange(0, i + 1);
            assert(upto.drop_last() =~= ids.subrange(0, i as int));
            assert(upto.last() == found.commits@[i as int].0);
        }
        print_commit(&found.commits[i].0, &found.commits[i].1, &mut out);
        i += 1;
    }
    assert(ids.subrange(0, i as int) =~= ids);
    match found.fault {
        None => Ok(out),
        Some(error) => Err(LogError::Read { shown: out, error }),
    }
}

/// The whole history is shown where no number is given, and otherwise at most that many commits.
pub proof fn law_log_limit(n: usize, count: nat)
    ensures
        log_limit(Some(n), count) == (n as nat, false),
        log_limit(None, count) == (count, true),
{
}

/// Histories are shown one after another, and of a commit its id and its whole message, line by
/// line, are shown.
pub proof fn law_log_shows(
    db: Map<ObjectSha, Seq<u8>>,
    a: Seq<ObjectSha>,
    b: Seq<ObjectSha>,
    oid: ObjectSha,
    c: CommitModel,
)
    requires
        commit_at(db, oid) == Ok::<CommitModel, ObjectError>(c),
    ensures
        log_lines(db, a + b) == log_lines(db, a) + log_lines(db, b),
        ({
            let shown = log_lines(db, seq![oid]);
            let said = lines(trim(lossy_text(c.message)));
            &&& shown.len() == said.len() + 3
            &&& shown[0] == "commit "@ + hex_of(oid@)
            &&& shown[1].len() == 0
            &&& shown.last().len() == 0
            &&& forall|i: int| 0 <= i < said.len() ==> #[trigger] shown[i + 2] == "    "@ + said[i]
        }),
    decreases b.len(),
{
    if b.len() == 0 {
        assert(a + b =~= a);
        assert(log_lines(db, a) + log_lines(db, b) =~= log_lines(db, a));
    } else {
        law_log_shows(db, a, b.drop_last(), oid, c);
        assert((a + b).drop_last() =~= a + b.drop_last());
        let one = commit_lines(b.last(), commit_at(db, b.last())->Ok_0.message);
        assert(log_lines(db, a) + (log_lines(db, b.drop_last()) + one) =~= log_lines(db, a)
            + log_lines(db, b.drop_last()) + one);
    }
    let none = Seq::<ObjectSha>::empty();
    assert(seq![oid].drop_last() =~= none && seq![oid].last() == oid);
    assert(log_lines(db, none) =~= Seq::empty());
    assert(log_lines(db, seq![oid]) =~= commit_lines(oid, c.message));
}

} // verus!
