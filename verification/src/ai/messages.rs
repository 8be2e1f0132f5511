//! The messages of a conversation, the files that hold them, and the choice of rounds to send.
//!
//! A message stands in a file named `NNNN-<role>.txt`. Round `n` consists of the files `2n` (the
//! question) and `2n + 1` (the answer); the file `1` holds the system prompt, which belongs to no
//! round.
use crate::bytes::{ends_with, find_from, lemma_find_from, lemma_find_from_is};
use crate::numbers::{
    all_digits, dec, dec_string, dec_value, digits_upto, is_digit, lemma_dec_round_trip,
    parse_digits,
};
use crate::sorting::{in_order, sort, Ordered};
use crate::text::{
    chars_are, chars_end_with, chars_of, find_char, lemma_views_push, string_of, text_of,
    text_of_slice, views,
};
use vstd::prelude::*;
use vstd::slice::slice_subrange;

verus! {

/// Who wrote a message.
#[derive(Debug, Clone, Copy, PartialEq, Eq, Structural)]
pub enum Role {
    System,
    User,
    Assistant,
}

/// The word for a role in file names and requests.
pub open spec fn role_word(role: Role) -> Seq<char> {
    match role {
        Role::System => "system"@,
        Role::User => "user"@,
        Role::Assistant => "assistant"@,
    }
}

/// The role that a word stands for.
pub open spec fn role_of(word: Seq<char>) -> Option<Role> {
    if word == "system"@ {
        Some(Role::System)
    } else if word == "user"@ {
        Some(Role::User)
    } else if word == "assistant"@ {
        Some(Role::Assistant)
    } else {
        None
    }
}

impl Role {
    /// The word for this role in file names and requests.
    pub fn keyword(self) -> (r: &'static str)
        ensures
            r@ == role_word(self),
    {
        match self {
            Role::System => "system",
            Role::User => "user",
            Role::Assistant => "assistant",
        }
    }

    /// The role that a word stands for.
    pub fn from_keyword(s: &[char]) -> (r: Option<Role>)
        ensures
            r == role_of(s@),
    {
        if chars_are(s, "system") {
            Some(Role::System)
        } else if chars_are(s, "user") {
            Some(Role::User)
        } else if chars_are(s, "assistant") {
            Some(Role::Assistant)
        } else {
            None
        }
    }
}

/// A message of a conversation.
#[derive(Debug, Clone, PartialEq, Eq)]
pub struct Message {
    pub role: Role,
    pub content: String,
}

/// The model of a [`Message`].
#[verifier::ext_equal]
pub struct MessageModel {
    pub role: Role,
    pub content: Seq<char>,
}

impl View for Message {
    type V = MessageModel;

    open spec fn view(&self) -> MessageModel {
        MessageModel { role: self.role, content: self.content@ }
    }
}

impl Message {
    /// A message with the given role.
    pub fn new(role: Role, content: &str) -> (r: Self)
        ensures
            r@ == (MessageModel { role, content: content@ }),
    {
        Message { role, content: string_of(chars_of(content).as_slice()) }
    }

    /// A system prompt.
    pub fn system(content: &str) -> (r: Self)
        ensures
            r@ == (MessageModel { role: Role::System, content: content@ }),
    {
        Message::new(Role::System, content)
    }

    /// A question.
    pub fn user(content: &str) -> (r: Self)
        ensures
            r@ == (MessageModel { role: Role::User, content: content@ }),
    {
        Message::new(Role::User, content)
    }

    /// An answer.
    pub fn assistant(content: &str) -> (r: Self)
        ensures
            r@ == (MessageModel { role: Role::Assistant, content: content@ }),
    {
        Message::new(Role::Assistant, content)
    }

    /// A copy of the message.
    pub fn copy(&self) -> (r: Self)
        ensures
            r@ == self@,
    {
        Message::new(self.role, self.content.as_str())
    }
}

/// Zeros, as many as asked for.
pub open spec fn zeros(n: int) -> Seq<char> {
    Seq::new(
        if n < 0 {
            0
        } else {
            n as nat
        },
        |i: int| '0',
    )
}

/// The name of the file that holds the message with a number: the number in four digits or more,
/// and the role.
pub open spec fn file_name(seq: nat, role: Role) -> Seq<char> {
    zeros(4 - dec(seq).len()) + dec(seq) + "-"@ + role_word(role) + ".txt"@
}

/// The name of the file that holds the message with a number.
pub fn message_filename(seq: u32, role: Role) -> (r: String)
    ensures
        r@ == file_name(seq as nat, role),
{
    let digits = dec_string(seq as u64);
    let n: usize = chars_of(digits.as_str()).len();
    let mut out = String::new();
    assert(out@ =~= zeros(0));
    let mut k: usize = 0;
    while k + n < 4
        invariant
            n == dec(seq as nat).len(),
            k + n <= 4 || k == 0,
            out@ == zeros(k as int),
        decreases 4 - k,
    {
        out.push('0');
        k += 1;
        assert(out@ =~= zeros(k as int));
    }
    assert(out@ =~= zeros(4 - n));
    out.append(digits.as_str());
    out.append("-");
    out.append(role.keyword());
    out.append(".txt");
    out
}

/// The number and the role that a file name gives, if it is the name of a message file.
pub open spec fn entry_in(name: Seq<char>) -> Option<(nat, Role)> {
    let suffix = ".txt"@;
    if !ends_with(name, suffix) {
        None
    } else {
        let stem = name.subrange(0, name.len() - suffix.len());
        let dash = find_from(stem, '-', 0);
        if dash >= stem.len() {
            None
        } else {
            match digits_upto(stem.subrange(0, dash), u32::MAX as nat) {
                None => None,
                Some(seq) => match role_of(stem.subrange(dash + 1, stem.len() as int)) {
                    None => None,
                    Some(role) => Some((seq, role)),
                },
            }
        }
    }
}

/// The number and the role that a file name gives, if it is the name of a message file.
pub fn parse_entry_name(name: &str) -> (r: Option<(u32, Role)>)
    ensures
        (match r {
            Some((seq, role)) => entry_in(name@) == Some((seq as nat, role)),
            None => entry_in(name@) is None,
        }),
{
    let cs = chars_of(name);
    if !chars_end_with(cs.as_slice(), ".txt") {
        return None;
    }
    proof {
        reveal_strlit(".txt");
    }
    let stem = slice_subrange(cs.as_slice(), 0, cs.len() - 4);
    let dash: usize = find_char(stem, '-', 0);
    proof {
        lemma_find_from(stem@, '-', 0);
    }
    if dash >= stem.len() {
        return None;
    }
    let seq = match parse_digits(slice_subrange(stem, 0, dash), u32::MAX as u64) {
        Some(n) => n,
        None => return None,
    };
    match Role::from_keyword(slice_subrange(stem, dash + 1, stem.len())) {
        Some(role) => Some((seq as u32, role)),
        None => None,
    }
}

proof fn lemma_zeros_value(n: int, s: Seq<char>)
    requires
        all_digits(s),
        s.len() > 0,
    ensures
        all_digits(zeros(n) + s),
        dec_value(zeros(n) + s) == dec_value(s),
    decreases s.len(),
{
    let z = zeros(n);
    assert((z + s).drop_last() =~= z + s.drop_last());
    assert forall|i: int| 0 <= i < (z + s).len() implies is_digit(#[trigger] (z + s)[i]) by {
        if i >= z.len() {
            assert(is_digit(s[i - z.len()]));
        }
    }
    if s.len() == 1 {
        lemma_zeros_zero(n);
        assert(z + s.drop_last() =~= z);
        assert(s.drop_last() =~= Seq::empty());
        reveal_with_fuel(dec_value, 2);
    } else {
        assert forall|i: int| 0 <= i < s.drop_last().len() implies is_digit(
            #[trigger] s.drop_last()[i],
        ) by {
            assert(is_digit(s[i]));
        }
        lemma_zeros_value(n, s.drop_last());
    }
}

proof fn lemma_zeros_zero(n: int)
    ensures
        dec_value(zeros(n)) == 0,
    decreases n,
{
    if n > 0 {
        lemma_zeros_zero(n - 1);
        assert(zeros(n).drop_last() =~= zeros(n - 1));
    } else {
        assert(zeros(n) =~= Seq::empty());
    }
}

proof fn lemma_role_words(role: Role)
    ensures
        role_of(role_word(role)) == Some(role),
{
    reveal_strlit("system");
    reveal_strlit("user");
    reveal_strlit("assistant");
    assert("system"@.len() == 6 && "user"@.len() == 4 && "assistant"@.len() == 9);
}

/// The name of a message file gives back the number and the role that it was made from.
pub proof fn law_file_name_round_trip(seq: nat, role: Role)
    requires
        seq <= u32::MAX,
    ensures
        entry_in(file_name(seq, role)) == Some((seq, role)),
{
    reveal_strlit(".txt");
    reveal_strlit("-");
    let name = file_name(seq, role);
    let number = zeros(4 - dec(seq).len()) + dec(seq);
    let word = role_word(role);
    let stem = name.subrange(0, name.len() - 4);
    lemma_dec_round_trip(seq);
    lemma_zeros_value(4 - dec(seq).len(), dec(seq));
    lemma_role_words(role);
    assert(ends_with(name, ".txt"@)) by {
        assert(name.subrange(name.len() - 4, name.len() as int) =~= ".txt"@);
    }
    assert(stem =~= number + "-"@ + word);
    assert(stem[number.len() as int] == '-');
    assert forall|i: int| 0 <= i < number.len() implies #[trigger] stem[i] != '-' by {
        assert(stem[i] == number[i]);
        assert(is_digit(number[i]));
    }
    lemma_find_from_is(stem, '-', 0, number.len() as int);
    assert(stem.subrange(0, number.len() as int) =~= number);
    assert(stem.subrange(number.len() as int + 1, stem.len() as int) =~= word);
}

/// A file beside others, as it lies on disk.
#[derive(Debug)]
pub struct StoredFile {
    pub name: String,
    pub content: Vec<u8>,
}

/// The model of a [`StoredFile`].
#[verifier::ext_equal]
pub struct FileModel {
    pub name: Seq<char>,
    pub content: Seq<u8>,
}

impl View for StoredFile {
    type V = FileModel;

    open spec fn view(&self) -> FileModel {
        FileModel { name: self.name@, content: self.content@ }
    }
}

/// A message file: its number, its role and what it holds.
#[derive(Debug)]
pub struct MessageFile {
    pub seq: u32,
    pub role: Role,
    pub content: Vec<u8>,
}

/// The model of a [`MessageFile`].
#[verifier::ext_equal]
pub struct EntryModel {
    pub seq: nat,
    pub role: Role,
    pub content: Seq<u8>,
}

impl View for MessageFile {
    type V = EntryModel;

    open spec fn view(&self) -> EntryModel {
        EntryModel { seq: self.seq as nat, role: self.role, content: self.content@ }
    }
}

impl Ordered for MessageFile {
    open spec fn precedes(a: EntryModel, b: EntryModel) -> bool {
        a.seq < b.seq
    }

    proof fn lemma_order(a: EntryModel, b: EntryModel, c: EntryModel) {
    }

    fn comes_before(&self, other: &Self) -> (r: bool) {
        self.seq < other.seq
    }
}

/// The message files among some files.
pub open spec fn entries_of(files: Seq<FileModel>) -> Seq<EntryModel>
    decreases files.len(),
{
    if files.len() == 0 {
        Seq::empty()
    } else {
        let before = entries_of(files.drop_last());
        let f = files.last();
        match entry_in(f.name) {
            None => before,
            Some((seq, role)) => before.push(EntryModel { seq, role, content: f.content }),
        }
    }
}

/// The message files among some files, by their numbers.
pub fn scan_entries(files: Vec<StoredFile>) -> (r: Vec<MessageFile>)
    ensures
        views(r@) == in_order::<MessageFile>(entries_of(views(files@))),
{
    let ghost all = views(files@);
    let mut out: Vec<MessageFile> = Vec::new();
    let mut i: usize = 0;
    assert(all.subrange(0, 0) =~= Seq::empty());
    assert(views(out@) =~= Seq::empty());
    while i < files.len()
        invariant
            0 <= i <= files@.len(),
            all == views(files@),
            views(out@) == entries_of(all.subrange(0, i as int)),
        decreases files@.len() - i,
    {
        proof {
            let upto = all.subrange(0, i + 1);
            assert(upto.drop_last() =~= all.subrange(0, i as int));
            assert(upto.last() == files@[i as int]@);
        }
        if let Some((seq, role)) = parse_entry_name(files[i].name.as_str()) {
            let f = MessageFile {
                seq,
                role,
                content: crate::bytes::copy_bytes(files[i].content.as_slice()),
            };
            proof {
                lemma_views_push(out@, f);
            }
            out.push(f);
        }
        i += 1;
    }
    assert(all.subrange(0, i as int) =~= all);
    sort(out)
}

/// A message file that does not hold text.
#[derive(Debug, Clone, Copy, PartialEq, Eq, Structural)]
pub struct NotText {
    pub seq: u32,
    pub role: Role,
}

/// The messages that message files hold.
pub open spec fn messages_of(entries: Seq<EntryModel>) -> Result<Seq<MessageModel>, NotText>
    decreases entries.len(),
{
    if entries.len() == 0 {
        Ok(Seq::empty())
    } else {
        let e = entries.last();
        match messages_of(entries.drop_last()) {
            Err(x) => Err(x),
            Ok(before) => match text_of(e.content) {
                None => Err(NotText { seq: e.seq as u32, role: e.role }),
                Some(content) => Ok(before.push(MessageModel { role: e.role, content })),
            },
        }
    }
}

proof fn lemma_messages_stop(entries: Seq<EntryModel>, n: int)
    requires
        0 <= n <= entries.len(),
        messages_of(entries.subrange(0, n)) is Err,
    ensures
        messages_of(entries) == messages_of(entries.subrange(0, n)),
    decreases entries.len() - n,
{
    if n == entries.len() {
        assert(entries.subrange(0, n) =~= entries);
    } else {
        assert(entries.subrange(0, n + 1).drop_last() =~= entries.subrange(0, n));
        lemma_messages_stop(entries, n + 1);
    }
}

/// The messages in the files of a conversation, by their numbers. Other files are passed over.
pub fn load_messages(files: Vec<StoredFile>) -> (r: Result<Vec<Message>, NotText>)
    ensures
        (match messages_of(in_order::<MessageFile>(entries_of(views(files@)))) {
            Ok(ms) => r is Ok && views(r->Ok_0@) == ms,
            Err(e) => r is Err && r->Err_0 == e,
        }),
{
    let entries = scan_entries(files);
    let ghost all = views(entries@);
    let mut out: Vec<Message> = Vec::new();
    let mut i: usize = 0;
    assert(all.subrange(0, 0) =~= Seq::empty());
    assert(views(out@) =~= Seq::empty());
    while i < entries.len()
        invariant
            0 <= i <= entries@.len(),
            all == views(entries@),
            all == in_order::<MessageFile>(entries_of(views(files@))),
            messages_of(all.subrange(0, i as int)) == Ok::<Seq<MessageModel>, NotText>(
                views(out@),
            ),
        decreases entries@.len() - i,
    {
        let e = &entries[i];
        proof {
            let upto = all.subrange(0, i + 1);
            assert(upto.drop_last() =~= all.subrange(0, i as int));
            assert(upto.last() == e@);
        }
        match text_of_slice(e.content.as_slice()) {
            None => {
                proof {
                    lemma_messages_stop(all, i + 1);
                }
                return Err(NotText { seq: e.seq, role: e.role });
            },
            Some(content) => {
                let m = Message { role: e.role, content };
                proof {
                    lemma_views_push(out@, m);
                }
                out.push(m);
            },
        }
        i += 1;
    }
    assert(all.subrange(0, i as int) =~= all);
    Ok(out)
}

/// The highest number among the names of message files, or zero where there is none.
pub open spec fn top_seq(names: Seq<Seq<char>>) -> nat
    decreases names.len(),
{
    if names.len() == 0 {
        0
    } else {
        let before = top_seq(names.drop_last());
        match entry_in(names.last()) {
            Some((seq, _)) => if seq > before {
                seq
            } else {
                before
            },
            None => before,
        }
    }
}

/// The highest number among the names of message files, or zero where there is none.
pub fn last_seq(names: &[String]) -> (r: u32)
    ensures
        r == top_seq(views(names@)),
{
    let ghost all = views(names@);
    let mut top: u32 = 0;
    let mut i: usize = 0;
    assert(all.subrange(0, 0) =~= Seq::empty());
    while i < names.len()
        invariant
            0 <= i <= names@.len(),
            all == views(names@),
            top == top_seq(all.subrange(0, i as int)),
        decreases names@.len() - i,
    {
        proof {
            let upto = all.subrange(0, i + 1);
            assert(upto.drop_last() =~= all.subrange(0, i as int));
            assert(upto.last() == names@[i as int]@);
        }
        if let Some((seq, _)) = parse_entry_name(names[i].as_str()) {
            if seq > top {
                top = seq;
            }
        }
        i += 1;
    }
    assert(all.subrange(0, i as int) =~= all);
    top
}

/// The number for the next message: one more than the highest that is taken.
pub fn next_seq(names: &[String]) -> (r: u32)
    requires
        top_seq(views(names@)) < u32::MAX,
    ensures
        r == top_seq(views(names@)) + 1,
{
    last_seq(names) + 1
}

/// The number for the next message is not taken.
pub proof fn law_next_seq_is_free(names: Seq<Seq<char>>, i: int)
    requires
        0 <= i < names.len(),
    ensures
        entry_in(names[i]) matches Some((seq, _)) ==> seq != top_seq(names) + 1,
{
    lemma_top_seq(names, i);
}

proof fn lemma_top_seq(names: Seq<Seq<char>>, i: int)
    requires
        0 <= i < names.len(),
    ensures
        entry_in(names[i]) matches Some((seq, _)) ==> seq <= top_seq(names),
    decreases names.len(),
{
    if i < names.len() - 1 {
        lemma_top_seq(names.drop_last(), i);
    }
}

/// How many system prompts come first.
pub open spec fn prompts(ms: Seq<MessageModel>) -> int
    decreases ms.len(),
{
    if ms.len() > 0 && ms[0].role == Role::System {
        1 + prompts(ms.drop_first())
    } else {
        0
    }
}

/// How many rounds some messages make: two to a round, the last one maybe without an answer.
pub open spec fn rounds_in(n: int) -> int {
    (n + 1) / 2
}

/// The messages of a round, which is counted from one.
pub open spec fn round_of(rest: Seq<MessageModel>, round: int) -> Seq<MessageModel> {
    rest.subrange(
        2 * round - 2,
        if 2 * round <= rest.len() {
            2 * round
        } else {
            rest.len() as int
        },
    )
}

/// Why rounds cannot be chosen.
#[derive(Debug, Clone, Copy, PartialEq, Eq, Structural)]
pub enum SelectError {
    /// No round is asked for.
    Empty,
    /// There is no such round.
    NoRound { asked: u32, total: usize },
    /// A round does not begin with a question.
    Corrupt { round: usize },
}

/// The smallest number that is not that of a round.
pub open spec fn least_wrong(selected: Seq<u32>, total: int) -> Option<u32>
    decreases selected.len(),
{
    if selected.len() == 0 {
        None
    } else {
        let r = selected.last();
        let before = least_wrong(selected.drop_last(), total);
        if 1 <= r <= total {
            before
        } else {
            match before {
                Some(x) => if r < x {
                    Some(r)
                } else {
                    Some(x)
                },
                None => Some(r),
            }
        }
    }
}

/// Whether a round is among those asked for.
pub open spec fn is_chosen(selected: Seq<u32>, round: int) -> bool {
    exists|i: int| 0 <= i < selected.len() && #[trigger] selected[i] == round
}

/// The messages of the chosen rounds among the first `n`.
pub open spec fn chosen(rest: Seq<MessageModel>, selected: Seq<u32>, n: int) -> Result<
    Seq<MessageModel>,
    SelectError,
>
    decreases n,
{
    if n <= 0 {
        Ok(Seq::empty())
    } else {
        match chosen(rest, selected, n - 1) {
            Err(e) => Err(e),
            Ok(before) => if rest[2 * n - 2].role != Role::User {
                Err(SelectError::Corrupt { round: n as usize })
            } else if is_chosen(selected, n) {
                Ok(before + round_of(rest, n))
            } else {
                Ok(before)
            },
        }
    }
}

/// The system prompts and the chosen rounds of a conversation.
pub open spec fn selection(ms: Seq<MessageModel>, selected: Seq<u32>) -> Result<
    Seq<MessageModel>,
    SelectError,
> {
    let n = prompts(ms);
    let rest = ms.subrange(n, ms.len() as int);
    let total = rounds_in(rest.len() as int);
    if selected.len() == 0 {
        Err(SelectError::Empty)
    } else {
        match least_wrong(selected, total) {
            Some(asked) => Err(SelectError::NoRound { asked, total: total as usize }),
            None => match chosen(rest, selected, total) {
                Err(e) => Err(e),
                Ok(rounds) => Ok(ms.subrange(0, n) + rounds),
            },
        }
    }
}

proof fn lemma_prompts(ms: Seq<MessageModel>, n: int)
    requires
        0 <= n <= ms.len(),
        forall|i: int| 0 <= i < n ==> (#[trigger] ms[i]).role == Role::System,
        n < ms.len() ==> ms[n].role != Role::System,
    ensures
        prompts(ms) == n,
    decreases ms.len(),
{
    if n > 0 {
        assert(ms[0].role == Role::System);
        assert forall|i: int| 0 <= i < n - 1 implies (#[trigger] ms.drop_first()[i]).role
            == Role::System by {
            assert(ms[i + 1].role == Role::System);
        }
        lemma_prompts(ms.drop_first(), n - 1);
    }
}

proof fn lemma_chosen_stops(rest: Seq<MessageModel>, selected: Seq<u32>, n: int, total: int)
    requires
        0 <= n <= total,
        chosen(rest, selected, n) is Err,
    ensures
        chosen(rest, selected, total) == chosen(rest, selected, n),
    decreases total - n,
{
    if n < total {
        lemma_chosen_stops(rest, selected, n + 1, total);
    }
}

fn find_wrong(selected: &[u32], total: usize) -> (r: Option<u32>)
    ensures
        r == least_wrong(selected@, total as int),
{
    let mut found: Option<u32> = None;
    let mut i: usize = 0;
    assert(selected@.subrange(0, 0) =~= Seq::empty());
    while i < selected.len()
        invariant
            0 <= i <= selected@.len(),
            found == least_wrong(selected@.subrange(0, i as int), total as int),
        decreases selected@.len() - i,
    {
        let r: u32 = selected[i];
        proof {
            let upto = selected@.subrange(0, i + 1);
            assert(upto.drop_last() =~= selected@.subrange(0, i as int));
            assert(upto.last() == r);
        }
        if r < 1 || r as usize > total {
            found = match found {
                Some(x) => if r < x {
                    Some(r)
                } else {
                    Some(x)
                },
                None => Some(r),
            };
        }
        i += 1;
    }
    assert(selected@.subrange(0, i as int) =~= selected@);
    found
}

fn has_round(selected: &[u32], round: usize) -> (r: bool)
    ensures
        r == is_chosen(selected@, round as int),
{
    let mut i: usize = 0;
    while i < selected.len()
        invariant
            0 <= i <= selected@.len(),
            forall|k: int| 0 <= k < i ==> #[trigger] selected@[k] != round,
        decreases selected@.len() - i,
    {
        if selected[i] as usize == round {
            return true;
        }
        i += 1;
    }
    false
}

fn push_messages(out: &mut Vec<Message>, ms: &[Message])
    ensures
        views(final(out)@) == views(old(out)@) + views(ms@),
{
    let ghost before = views(out@);
    let ghost all = views(ms@);
    let mut i: usize = 0;
    assert(before + all.subrange(0, 0) =~= before);
    while i < ms.len()
        invariant
            0 <= i <= ms@.len(),
            all == views(ms@),
            views(out@) == before + all.subrange(0, i as int),
        decreases ms@.len() - i,
    {
        let m = ms[i].copy();
        proof {
            lemma_views_push(out@, m);
        }
        out.push(m);
        i += 1;
        assert(views(out@) =~= before + all.subrange(0, i as int));
    }
    assert(all.subrange(0, i as int) =~= all);
}

/// The number of system prompts that come first.
pub fn prompts_of(messages: &[Message]) -> (r: usize)
    ensures
        r == prompts(views(messages@)),
        r <= messages@.len(),
{
    let mut n: usize = 0;
    while n < messages.len() && messages[n].role == Role::System
        invariant
            0 <= n <= messages@.len(),
            forall|i: int| 0 <= i < n ==> (#[trigger] messages@[i]).role == Role::System,
        decreases messages@.len() - n,
    {
        n += 1;
    }
    proof {
        let ms = views(messages@);
        assert forall|i: int| 0 <= i < n implies (#[trigger] ms[i]).role == Role::System by {
            assert(messages@[i].role == Role::System);
        }
        lemma_prompts(ms, n as int);
    }
    n
}

/// Chooses rounds of a conversation, which are counted from one. The system prompts that come first
/// are always kept.
pub fn select_rounds(messages: &[Message], selected: &[u32]) -> (r: Result<
    Vec<Message>,
    SelectError,
>)
    ensures
        (match selection(views(messages@), selected@) {
            Ok(ms) => r is Ok && views(r->Ok_0@) == ms,
            Err(e) => r is Err && r->Err_0 == e,
        }),
{
    let ghost ms = views(messages@);
    if selected.len() == 0 {
        return Err(SelectError::Empty);
    }
    let n: usize = prompts_of(messages);
    let rest = slice_subrange(messages, n, messages.len());
    let ghost rs = ms.subrange(n as int, ms.len() as int);
    assert(views(rest@) =~= rs);
    let total: usize = rest.len() / 2 + rest.len() % 2;
    assert(total == rounds_in(rs.len() as int));
    if let Some(asked) = find_wrong(selected, total) {
        return Err(SelectError::NoRound { asked, total });
    }
    let mut out: Vec<Message> = Vec::new();
    assert(views(out@) =~= Seq::empty());
    push_messages(&mut out, slice_subrange(messages, 0, n));
    let ghost front = ms.subrange(0, n as int);
    assert(views(messages@.subrange(0, n as int)) =~= front);
    assert(views(out@) =~= front + Seq::empty());
    let mut k: usize = 0;
    while k < total
        invariant
            0 <= k <= total,
            ms == views(messages@),
            n == prompts(ms),
            n <= ms.len(),
            rs == ms.subrange(n as int, ms.len() as int),
            rs == views(rest@),
            rest@.len() <= usize::MAX,
            front == ms.subrange(0, n as int),
            total == rounds_in(rs.len() as int),
            selected@.len() > 0,
            least_wrong(selected@, total as int) is None,
            chosen(rs, selected@, k as int) is Ok,
            views(out@) == front + chosen(rs, selected@, k as int)->Ok_0,
        decreases total - k,
    {
        let at: usize = 2 * k;
        assert(rs[at as int] == rest@[at as int]@);
        if rest[at].role != Role::User {
            proof {
                lemma_chosen_stops(rs, selected@, k + 1, total as int);
            }
            return Err(SelectError::Corrupt { round: k + 1 });
        }
        let ghost before = chosen(rs, selected@, k as int)->Ok_0;
        if has_round(selected, k + 1) {
            let end: usize = if rest.len() - at >= 2 {
                at + 2
            } else {
                rest.len()
            };
            push_messages(&mut out, slice_subrange(rest, at, end));
            assert(views(rest@.subrange(at as int, end as int)) =~= round_of(rs, k + 1));
            assert(front + before + round_of(rs, k + 1) =~= front + (before + round_of(rs, k + 1)));
        }
        k += 1;
    }
    Ok(out)
}

/// A choice begins with the system prompts of the conversation.
pub proof fn law_selection_keeps_prompts(ms: Seq<MessageModel>, selected: Seq<u32>)
    requires
        selection(ms, selected) is Ok,
    ensures
        prompts(ms) <= selection(ms, selected)->Ok_0.len(),
        selection(ms, selected)->Ok_0.subrange(0, prompts(ms)) == ms.subrange(0, prompts(ms)),
{
    lemma_prompts_len(ms);
    let r = selection(ms, selected)->Ok_0;
    assert(r.subrange(0, prompts(ms)) =~= ms.subrange(0, prompts(ms)));
}

proof fn lemma_prompts_len(ms: Seq<MessageModel>)
    ensures
        0 <= prompts(ms) <= ms.len(),
    decreases ms.len(),
{
    if ms.len() > 0 && ms[0].role == Role::System {
        lemma_prompts_len(ms.drop_first());
    }
}

proof fn lemma_chosen_all(rest: Seq<MessageModel>, selected: Seq<u32>, n: int)
    requires
        0 <= n <= rounds_in(rest.len() as int),
        forall|k: int| 1 <= k <= n ==> #[trigger] is_chosen(selected, k),
        chosen(rest, selected, n) is Ok,
    ensures
        chosen(rest, selected, n)->Ok_0 == rest.subrange(
            0,
            if 2 * n <= rest.len() {
                2 * n
            } else {
                rest.len() as int
            },
        ),
    decreases n,
{
    if n > 0 {
        lemma_chosen_all(rest, selected, n - 1);
        assert(is_chosen(selected, n));
    }
    assert(chosen(rest, selected, n)->Ok_0 =~= rest.subrange(
        0,
        if 2 * n <= rest.len() {
            2 * n
        } else {
            rest.len() as int
        },
    ));
}

/// Choosing every round of a conversation gives the whole of it.
pub proof fn law_select_all(ms: Seq<MessageModel>, selected: Seq<u32>)
    requires
        selection(ms, selected) is Ok,
        forall|k: int|
            1 <= k <= rounds_in(ms.len() - prompts(ms)) ==> #[trigger] is_chosen(
                selected,
                k,
            ),
    ensures
        selection(ms, selected)->Ok_0 == ms,
{
    lemma_prompts_len(ms);
    let n = prompts(ms);
    let rest = ms.subrange(n, ms.len() as int);
    lemma_chosen_all(rest, selected, rounds_in(rest.len() as int));
    assert(selection(ms, selected)->Ok_0 =~= ms);
}

} // verus!
