//! Talking to a chat completion service: what it is asked, and what its answer says.
use crate::ai::messages::Message;
use crate::text::{chars_of, opt_view, string_of};
use vstd::prelude::*;
use vstd::slice::slice_subrange;

verus! {

/// What the environment says of the service.
#[derive(Debug)]
pub struct LlmEnv {
    /// `GIFTAI_API_KEY`
    pub giftai_api_key: Option<String>,
    /// `DEEPSEEK_API_KEY`
    pub deepseek_api_key: Option<String>,
    /// `GIFTAI_BASE_URL`
    pub giftai_base_url: Option<String>,
    /// `GIFTAI_MODEL`
    pub giftai_model: Option<String>,
}

/// A client of a chat completion service.
#[derive(Debug, Clone)]
pub struct LlmClient {
    pub base_url: String,
    pub api_key: String,
    pub model: String,
}

/// The model of an [`LlmClient`].
#[verifier::ext_equal]
pub struct ClientModel {
    pub base_url: Seq<char>,
    pub api_key: Seq<char>,
    pub model: Seq<char>,
}

impl View for LlmClient {
    type V = ClientModel;

    open spec fn view(&self) -> ClientModel {
        ClientModel { base_url: self.base_url@, api_key: self.api_key@, model: self.model@ }
    }
}

/// The environment names no key.
#[derive(Debug, Clone, Copy, PartialEq, Eq, Structural)]
pub struct NoKey;

/// A value of the environment; an empty one counts as none.
pub open spec fn set_value(v: Option<Seq<char>>) -> Option<Seq<char>> {
    match v {
        Some(s) if s.len() > 0 => Some(s),
        _ => None,
    }
}

/// A value of the environment, or what stands for it.
pub open spec fn value_or(v: Option<Seq<char>>, other: Seq<char>) -> Seq<char> {
    match set_value(v) {
        Some(s) => s,
        None => other,
    }
}

/// The key that the environment gives.
pub open spec fn key_in(giftai: Option<Seq<char>>, deepseek: Option<Seq<char>>) -> Option<
    Seq<char>,
> {
    match set_value(giftai) {
        Some(s) => Some(s),
        None => set_value(deepseek),
    }
}

/// The text without the slashes at its end.
pub open spec fn without_end_slashes(s: Seq<char>) -> Seq<char>
    decreases s.len(),
{
    if s.len() > 0 && s.last() == '/' {
        without_end_slashes(s.drop_last())
    } else {
        s
    }
}

/// Where completions are asked for.
pub open spec fn completions_at(base_url: Seq<char>) -> Seq<char> {
    without_end_slashes(base_url) + "/chat/completions"@
}

fn given(v: &Option<String>) -> (r: Option<String>)
    ensures
        opt_view(r) == set_value(opt_view(*v)),
{
    match v {
        Some(s) => {
            let cs = chars_of(s.as_str());
            if cs.len() > 0 {
                Some(string_of(cs.as_slice()))
            } else {
                None
            }
        },
        None => None,
    }
}

fn given_or(v: &Option<String>, other: &str) -> (r: String)
    ensures
        r@ == value_or(opt_view(*v), other@),
{
    match given(v) {
        Some(s) => s,
        None => string_of(chars_of(other).as_slice()),
    }
}

/// What is posted to the service.
#[derive(Debug)]
pub struct ChatPost<'a> {
    pub url: String,
    /// The value of the header `Authorization`.
    pub authorization: String,
    pub model: String,
    pub messages: &'a [Message],
}

/// Why there is no answer.
#[derive(Debug)]
pub enum LlmError {
    /// The service answered with another status than success.
    Http { status: u16, body: String },
    /// The body of the answer cannot be read.
    Malformed,
    /// The answer holds no choice.
    NoChoice,
}

impl LlmClient {
    /// A client as the environment asks for it.
    pub fn resolve_config(env: &LlmEnv) -> (r: Result<Self, NoKey>)
        ensures
            (match key_in(opt_view(env.giftai_api_key), opt_view(env.deepseek_api_key)) {
                None => r is Err,
                Some(api_key) => r matches Ok(c) && c@ == (ClientModel {
                    base_url: value_or(opt_view(env.giftai_base_url), "https://api.deepseek.com"@),
                    api_key,
                    model: value_or(opt_view(env.giftai_model), "deepseek-chat"@),
                }),
            }),
    {
        let api_key = match given(&env.giftai_api_key) {
            Some(s) => s,
            None => match given(&env.deepseek_api_key) {
                Some(s) => s,
                None => return Err(NoKey),
            },
        };
        let base_url = given_or(&env.giftai_base_url, "https://api.deepseek.com");
        let model = given_or(&env.giftai_model, "deepseek-chat");
        Ok(LlmClient { base_url, api_key, model })
    }

    /// Where completions are asked for.
    pub fn completions_url(&self) -> (r: String)
        ensures
            r@ == completions_at(self@.base_url),
    {
        let cs = chars_of(self.base_url.as_str());
        let mut n: usize = cs.len();
        assert(cs@.subrange(0, n as int) =~= cs@);
        while n > 0 && cs[n - 1] == '/'
            invariant
                0 <= n <= cs@.len(),
                without_end_slashes(cs@) == without_end_slashes(cs@.subrange(0, n as int)),
            decreases n,
        {
            assert(cs@.subrange(0, n as int).drop_last() =~= cs@.subrange(0, n - 1));
            n -= 1;
        }
        let mut out = string_of(slice_subrange(cs.as_slice(), 0, n));
        out.append("/chat/completions");
        out
    }

    /// What is posted to ask for the next message of a conversation.
    pub fn chat<'a>(&self, messages: &'a [Message]) -> (r: ChatPost<'a>)
        ensures
            r.url@ == completions_at(self@.base_url),
            r.authorization@ == "Bearer "@ + self@.api_key,
            r.model@ == self@.model,
            r.messages == messages,
    {
        let mut authorization = string_of(chars_of("Bearer ").as_slice());
        authorization.append(self.api_key.as_str());
        ChatPost { url: self.completions_url(), authorization, model: self.model.clone(), messages }
    }
}

/// The answer in the reply of the service: the first of the choices that its body holds. `choices`
/// are those, if the body can be read.
pub fn reply_in(status: u16, body: String, choices: Option<Vec<String>>) -> (r: Result<
    String,
    LlmError,
>)
    ensures
        (if !(200 <= status < 300) {
            r matches Err(LlmError::Http { status: s, body: b }) && s == status && b == body
        } else {
            match choices {
                None => r matches Err(LlmError::Malformed),
                Some(cs) => if cs@.len() == 0 {
                    r matches Err(LlmError::NoChoice)
                } else {
                    r matches Ok(s) && s@ == cs@[0]@
                },
            }
        }),
{
    if status < 200 || status >= 300 {
        return Err(LlmError::Http { status, body });
    }
    match choices {
        None => Err(LlmError::Malformed),
        Some(cs) => if cs.len() == 0 {
            Err(LlmError::NoChoice)
        } else {
            Ok(cs[0].clone())
        },
    }
}

} // verus!
