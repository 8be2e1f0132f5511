//! What a new commit records, who makes it and when, and which pushes are refused.
use crate::commit::{head_update, message_bytes, new_commit, parent_of, parents_with, CommitError};
use crate::commit_identity::{author_in, committer_in, date_in, DateError, EnvModel};
use crate::commit_object::IdentityModel;
use crate::head::HeadModel;
use crate::index_tree::{node_entry, NodeModel};
use crate::merge_base::{is_ancestor, law_meeting_is_ancestor, meets};
use crate::numbers::{hex_of, parse_signed64};
use crate::object::ObjectSha;
use crate::push::{checked, zero_text, PushError};
use crate::reference::{commit_fault, sha1_in, stored_id};
use crate::text::{
    is_space, lemma_trim_all_space, lemma_trim_padded, lemma_trim_solid, trim, words,
};
use crate::text_laws::{all_space, law_no_words, law_words};
use vstd::prelude::*;
use vstd::utf8::encode_utf8;

verus! {

/// The message of a commit is what was given, with a line feed at the end if it lacks one.
pub proof fn law_message_ends(message: Seq<char>)
    ensures
        message_bytes(message).len() > 0,
        message_bytes(message).last() == 0x0a,
        message_bytes(message) == encode_utf8(message) || message_bytes(message) == encode_utf8(
            message,
        ).push(0x0a) && (encode_utf8(message).len() == 0 || encode_utf8(message).last() != 0x0a),
{
}

/// A commit records the tree, the parents and the identities that it is made from, and its message.
pub proof fn law_commit_records(
    root: NodeModel,
    parents: Seq<ObjectSha>,
    author: IdentityModel,
    committer: IdentityModel,
    message: Seq<char>,
)
    ensures
        ({
            let c = new_commit(root, parents, author, committer, message);
            &&& c.tree == node_entry(root).object_name
            &&& c.parents == parents
            &&& c.author == author
            &&& c.committer == committer
            &&& c.trailing_headers.len() == 0
            &&& c.message.subrange(0, encode_utf8(message).len() as int) == encode_utf8(message)
            &&& c.message.len() <= encode_utf8(message).len() + 1
        }),
{
    let b = encode_utf8(message);
    assert(message_bytes(message).subrange(0, b.len() as int) =~= b);
}

/// A commit has as parents the commit before it, if there is one, and then the one that is merged,
/// if one is.
pub proof fn law_parents(first: Option<ObjectSha>, merged: Option<ObjectSha>)
    ensures
        first matches Some(f) ==> parents_with(first, merged).len() > 0 && parents_with(
            first,
            merged,
        )[0] == f,
        merged matches Some(m) ==> parents_with(first, merged).len() > 0 && parents_with(
            first,
            merged,
        ).last() == m,
        parents_with(first, merged).len() == (if first is Some {
            1int
        } else {
            0
        }) + (if merged is Some {
            1int
        } else {
            0
        }),
{
}

/// The commit before a new one is the one that `HEAD` leads to; a branch that is not there yet leads
/// to none. It has to be a commit that is there.
pub proof fn law_parent(db: Map<ObjectSha, Seq<u8>>, head: HeadModel, tip: Option<Seq<char>>)
    ensures
        parent_of(db, head, tip) matches Ok(Some(oid)) ==> commit_fault(db, oid) is None,
        (parent_of(db, head, tip) matches Ok(None)) <==> head is Branch && tip is None,
        head matches HeadModel::Commit(oid) ==> parent_of(db, head, tip) == (match commit_fault(
            db,
            oid,
        ) {
            None => Ok::<Option<ObjectSha>, CommitError>(Some(oid)),
            Some(e) => Err(CommitError::Parent(e)),
        }),
{
}

/// A new commit is written to the branch that `HEAD` is on, or to `HEAD` where it is on none.
pub proof fn law_head_written(path: Seq<char>, at: ObjectSha, oid: ObjectSha)
    ensures
        head_update(HeadModel::Branch(path), oid).path == path,
        head_update(HeadModel::Commit(at), oid).path == "HEAD"@,
        head_update(HeadModel::Branch(path), oid).content == hex_of(oid@).push('\n'),
        head_update(HeadModel::Commit(at), oid).content == hex_of(oid@).push('\n'),
{
}

/// A push that only adds to what the remote has is never refused for what it would lose.
pub proof fn law_push_allowed(
    db: Map<ObjectSha, Seq<u8>>,
    old_id: Seq<char>,
    new_id: Seq<char>,
    theirs: ObjectSha,
    ours: ObjectSha,
    r: Result<(), PushError>,
)
    requires
        stored_id(old_id) == Some(theirs),
        sha1_in(new_id) == Some(ours),
        is_ancestor(db, theirs, ours),
        theirs == ours || !is_ancestor(db, ours, theirs),
        checked(db, old_id, new_id, false, r),
    ensures
        r != Err::<(), PushError>(PushError::NonFastForward),
{
    if theirs != ours && r == Err::<(), PushError>(PushError::NonFastForward)
        && old_id != zero_text() && db.contains_key(theirs) {
        let base = choose|base: Option<ObjectSha>| #[trigger]
            meets(db, theirs, ours, base) && base != Some(theirs);
        law_meeting_is_ancestor(db, theirs, ours, base);
    }
}

/// A push that is forced, that makes a new branch, or that moves one from a commit that is not here
/// is not held against what the remote has.
pub proof fn law_push_unchecked(
    db: Map<ObjectSha, Seq<u8>>,
    old_id: Seq<char>,
    new_id: Seq<char>,
    force: bool,
    r: Result<(), PushError>,
)
    requires
        checked(db, old_id, new_id, force, r),
        force || (forall|i: int| 0 <= i < old_id.len() ==> old_id[i] == '0') && old_id.len() == 40
            || !(stored_id(old_id) is Some && db.contains_key(stored_id(old_id)->Some_0)),
    ensures
        r is Ok,
{
    if old_id.len() == 40 && forall|i: int| 0 <= i < old_id.len() ==> old_id[i] == '0' {
        assert(old_id =~= zero_text());
    }
}

/// Whether these characters make up one word.
pub open spec fn is_word(w: Seq<char>) -> bool {
    w.len() > 0 && forall|i: int| 0 <= i < w.len() ==> !is_space(#[trigger] w[i])
}

/// A date is a number of seconds and a time zone, with white space between them.
pub proof fn law_date_read(
    a: Seq<char>,
    seconds: Seq<char>,
    b: Seq<char>,
    zone: Seq<char>,
    c: Seq<char>,
)
    requires
        all_space(a),
        is_word(seconds),
        b.len() > 0 && all_space(b),
        is_word(zone),
        all_space(c),
    ensures
        date_in(a + seconds + b + zone + c) == (match parse_signed64(seconds) {
            Some(t) => Ok::<(int, Seq<char>), DateError>((t, zone)),
            None => Err(DateError::BadTime),
        }),
{
    let none = Seq::<char>::empty();
    let s = seconds + b + zone;
    assert(s[0] == seconds[0]);
    assert(s.last() == zone[zone.len() - 1]);
    lemma_trim_solid(s);
    lemma_trim_padded(a, s, c);
    assert(a + seconds + b + zone + c =~= a + s + c);
    assert((b + zone)[0] == b[0]);
    law_words(none, seconds, b + zone);
    assert(none + seconds + (b + zone) =~= s);
    law_words(b, zone, none);
    assert(b + zone + none =~= b + zone);
    law_no_words(none);
    assert(words(s) =~= seq![seconds, zone]);
}

/// No date can be read from white space, or from a number alone.
pub proof fn law_date_refused(a: Seq<char>, seconds: Seq<char>, c: Seq<char>)
    requires
        all_space(a),
        is_word(seconds),
        all_space(c),
    ensures
        date_in(a) == Err::<(int, Seq<char>), DateError>(DateError::Empty),
        date_in(a + seconds + c) is Err,
{
    let none = Seq::<char>::empty();
    lemma_trim_all_space(a);
    law_no_words(none);
    assert(seconds.last() == seconds[seconds.len() - 1]);
    lemma_trim_solid(seconds);
    lemma_trim_padded(a, seconds, c);
    law_words(none, seconds, none);
    assert(none + seconds + none =~= seconds);
    assert(words(seconds) =~= seq![seconds]);
    assert(trim(a) == none);
}

/// The author is who the environment names, at the date that it gives; what it leaves out is `gift`,
/// `gift@localhost` and now.
pub proof fn law_author(env: EnvModel, now: int, m: IdentityModel)
    requires
        author_in(env, now) == Ok::<IdentityModel, DateError>(m),
    ensures
        m.name == (if env.name is Some {
            env.name->0
        } else {
            "gift"@
        }),
        m.email == (if env.email is Some {
            env.email->0
        } else {
            "gift@localhost"@
        }),
        env.date is None ==> m.unix_time == now && m.tz == "+0000"@,
        env.date is Some ==> date_in(env.date->0) == Ok::<(int, Seq<char>), DateError>(
            (m.unix_time, m.tz),
        ),
{
}

/// The committer is who the environment names, else the author, at the date that is given, else now;
/// where it says nothing at all the committer is the author, at the author's date.
pub proof fn law_committer(env: EnvModel, author: IdentityModel, now: int, m: IdentityModel)
    requires
        committer_in(env, author, now) == Ok::<IdentityModel, DateError>(m),
    ensures
        env.name is None && env.email is None && env.date is None ==> m == author,
        m.name == (if env.name is Some {
            env.name->0
        } else {
            author.name
        }),
        m.email == (if env.email is Some {
            env.email->0
        } else {
            author.email
        }),
        env.date is None && (env.name is Some || env.email is Some) ==> m.unix_time == now && m.tz
            == "+0000"@,
        env.date is Some ==> date_in(env.date->0) == Ok::<(int, Seq<char>), DateError>(
            (m.unix_time, m.tz),
        ),
{
}

/// Identities are refused only for a date that cannot be read.
pub proof fn law_identities_given(env: EnvModel, author: IdentityModel, now: int)
    ensures
        author_in(env, now) is Err <==> env.date is Some && date_in(env.date->0) is Err,
        committer_in(env, author, now) is Err <==> env.date is Some && date_in(env.date->0) is Err,
{
}

} // verus!
