//! Who commits, and when, as the environment says.
use crate::commit_object::{CommitIdentity, IdentityModel};
use crate::numbers::{parse_signed64, read_signed64};
use crate::text::{chars_of, opt_view, string_of, trim, trimmed, views, words, words_of};
use vstd::prelude::*;

verus! {

/// What the environment says of one identity: the name, the address and the date.
#[derive(Debug)]
pub struct IdentityEnv {
    pub name: Option<String>,
    pub email: Option<String>,
    pub date: Option<String>,
}

/// The model of an [`IdentityEnv`].
#[verifier::ext_equal]
pub struct EnvModel {
    pub name: Option<Seq<char>>,
    pub email: Option<Seq<char>>,
    pub date: Option<Seq<char>>,
}

impl View for IdentityEnv {
    type V = EnvModel;

    open spec fn view(&self) -> EnvModel {
        EnvModel {
            name: opt_view(self.name),
            email: opt_view(self.email),
            date: opt_view(self.date),
        }
    }
}

/// Why a date cannot be read, and whose it is.
#[derive(Clone, Copy, PartialEq, Eq, Structural, Debug)]
pub enum DateError {
    Empty,
    BadTime,
    NoZone,
    ExtraFields,
}

/// Whose date cannot be read.
#[derive(Clone, Copy, PartialEq, Eq, Structural, Debug)]
pub enum IdentityError {
    Author(DateError),
    Committer(DateError),
}

/// The time and the zone that a date gives: two fields, of which the first is a number of seconds.
pub open spec fn date_in(s: Seq<char>) -> Result<(int, Seq<char>), DateError> {
    let w = words(trim(s));
    if w.len() == 0 {
        Err(DateError::Empty)
    } else {
        match parse_signed64(w[0]) {
            None => Err(DateError::BadTime),
            Some(t) => if w.len() == 1 {
                Err(DateError::NoZone)
            } else if w.len() > 2 {
                Err(DateError::ExtraFields)
            } else {
                Ok((t, w[1]))
            },
        }
    }
}

/// Reads a date of the form `<seconds> <zone>`.
pub fn parse_git_identity_date(s: &str) -> (r: Result<(i64, String), DateError>)
    ensures
        (match r {
            Ok((t, z)) => date_in(s@) == Ok::<(int, Seq<char>), DateError>((t as int, z@)),
            Err(e) => date_in(s@) == Err::<(int, Seq<char>), DateError>(e),
        }),
{
    let cs = chars_of(s);
    let w = words_of(trimmed(cs.as_slice()));
    let ghost all = words(trim(s@));
    assert(all == views(w@));
    if w.len() == 0 {
        return Err(DateError::Empty);
    }
    assert(all[0] == w@[0]@);
    let t = match read_signed64(w[0].as_slice()) {
        Some(t) => t,
        None => return Err(DateError::BadTime),
    };
    if w.len() == 1 {
        return Err(DateError::NoZone);
    }
    if w.len() > 2 {
        return Err(DateError::ExtraFields);
    }
    assert(all[1] == w@[1]@);
    Ok((t, string_of(w[1].as_slice())))
}

/// The date that the environment gives, or else now, in the zone `+0000`.
pub open spec fn date_or_now(date: Option<Seq<char>>, now: int) -> Result<
    (int, Seq<char>),
    DateError,
> {
    match date {
        Some(s) => date_in(s),
        None => Ok((now, "+0000"@)),
    }
}

/// The author that the environment gives, at the time `now` if it gives none.
pub open spec fn author_in(env: EnvModel, now: int) -> Result<IdentityModel, DateError> {
    match date_or_now(env.date, now) {
        Err(e) => Err(e),
        Ok((unix_time, tz)) => Ok(
            IdentityModel {
                name: (match env.name {
                    Some(s) => s,
                    None => "gift"@,
                }),
                email: (match env.email {
                    Some(s) => s,
                    None => "gift@localhost"@,
                }),
                unix_time,
                tz,
            },
        ),
    }
}

/// The committer that the environment gives: the author, where it gives nothing; otherwise what it
/// does not give comes from the author, but for the date.
pub open spec fn committer_in(env: EnvModel, author: IdentityModel, now: int) -> Result<
    IdentityModel,
    DateError,
> {
    if env.name is None && env.email is None && env.date is None {
        Ok(author)
    } else {
        match date_or_now(env.date, now) {
            Err(e) => Err(e),
            Ok((unix_time, tz)) => Ok(
                IdentityModel {
                    name: (match env.name {
                        Some(s) => s,
                        None => author.name,
                    }),
                    email: (match env.email {
                        Some(s) => s,
                        None => author.email,
                    }),
                    unix_time,
                    tz,
                },
            ),
        }
    }
}

fn given_or(s: &Option<String>, other: &str) -> (r: String)
    ensures
        r@ == (match opt_view(*s) {
            Some(s) => s,
            None => other@,
        }),
{
    match s {
        Some(s) => s.clone(),
        None => string_of(chars_of(other).as_slice()),
    }
}

fn date_of(date: &Option<String>, now: i64) -> (r: Result<(i64, String), DateError>)
    ensures
        (match r {
            Ok((t, z)) => date_or_now(opt_view(*date), now as int) == Ok::<
                (int, Seq<char>),
                DateError,
            >((t as int, z@)),
            Err(e) => date_or_now(opt_view(*date), now as int) == Err::<
                (int, Seq<char>),
                DateError,
            >(e),
        }),
{
    match date {
        Some(s) => parse_git_identity_date(s.as_str()),
        None => Ok((now, string_of(chars_of("+0000").as_slice()))),
    }
}

/// The author and the committer that the environment gives. `now` stands for dates that it does not
/// give.
pub fn identities_from_git_env(author: &IdentityEnv, committer: &IdentityEnv, now: i64) -> (r: Result<
    (CommitIdentity, CommitIdentity),
    IdentityError,
>)
    ensures
        (match author_in(author@, now as int) {
            Err(e) => r matches Err(IdentityError::Author(x)) && x == e,
            Ok(a) => match committer_in(committer@, a, now as int) {
                Err(e) => r matches Err(IdentityError::Committer(x)) && x == e,
                Ok(c) => r matches Ok((x, y)) && x@ == a && y@ == c,
            },
        }),
{
    let (t, z) = match date_of(&author.date, now) {
        Ok(x) => x,
        Err(e) => return Err(IdentityError::Author(e)),
    };
    let a = CommitIdentity {
        name: given_or(&author.name, "gift"),
        email: given_or(&author.email, "gift@localhost"),
        unix_time: t,
        tz: z,
    };
    if committer.name.is_none() && committer.email.is_none() && committer.date.is_none() {
        let c = a.copy();
        return Ok((a, c));
    }
    let (t, z) = match date_of(&committer.date, now) {
        Ok(x) => x,
        Err(e) => return Err(IdentityError::Committer(e)),
    };
    let c = CommitIdentity {
        name: given_or(&committer.name, a.name.as_str()),
        email: given_or(&committer.email, a.email.as_str()),
        unix_time: t,
        tz: z,
    };
    Ok((a, c))
}

} // verus!
