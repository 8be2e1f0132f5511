//! The client of the completion service.
use gift::ai::llm::{reply_in, LlmClient, LlmEnv, LlmError, NoKey};
use gift::ai::messages::Message;

fn from_map(pairs: &[(&str, &str)]) -> Result<LlmClient, NoKey> {
    let get = |k: &str| pairs.iter().find(|(n, _)| *n == k).map(|(_, v)| v.to_string());
    LlmClient::resolve_config(&LlmEnv {
        giftai_api_key: get("GIFTAI_API_KEY"),
        deepseek_api_key: get("DEEPSEEK_API_KEY"),
        giftai_base_url: get("GIFTAI_BASE_URL"),
        giftai_model: get("GIFTAI_MODEL"),
    })
}

#[test]
fn config_defaults_to_deepseek() {
    let c = from_map(&[("GIFTAI_API_KEY", "sk-xxx")]).unwrap();
    assert_eq!(c.api_key, "sk-xxx");
    assert_eq!(c.base_url, "https://api.deepseek.com");
    assert_eq!(c.model, "deepseek-chat");
}

#[test]
fn config_falls_back_to_deepseek_api_key() {
    let c = from_map(&[("DEEPSEEK_API_KEY", "sk-ds")]).unwrap();
    assert_eq!(c.api_key, "sk-ds");
}

#[test]
fn config_prefers_giftai_key_over_deepseek() {
    let c = from_map(&[("GIFTAI_API_KEY", "sk-giftai"), ("DEEPSEEK_API_KEY", "sk-ds")]).unwrap();
    assert_eq!(c.api_key, "sk-giftai");
}

#[test]
fn config_overrides_base_url_and_model() {
    let c = from_map(&[
        ("GIFTAI_API_KEY", "k"),
        ("GIFTAI_BASE_URL", "https://api.openai.com/v1"),
        ("GIFTAI_MODEL", "gpt-4o"),
    ])
    .unwrap();
    assert_eq!(c.base_url, "https://api.openai.com/v1");
    assert_eq!(c.model, "gpt-4o");
}

#[test]
fn config_errors_without_any_key() {
    assert!(from_map(&[]).is_err());
    assert!(from_map(&[("GIFTAI_API_KEY", "")]).is_err());
}

#[test]
fn completions_url_trims_trailing_slash() {
    let c = from_map(&[("GIFTAI_API_KEY", "k"), ("GIFTAI_BASE_URL", "https://x.com/")]).unwrap();
    assert_eq!(c.completions_url(), "https://x.com/chat/completions");

    let c2 = from_map(&[("GIFTAI_API_KEY", "k"), ("GIFTAI_BASE_URL", "https://api.openai.com/v1")])
        .unwrap();
    assert_eq!(c2.completions_url(), "https://api.openai.com/v1/chat/completions");
}

#[test]
fn empty_values_count_as_unset() {
    let c = from_map(&[
        ("GIFTAI_API_KEY", ""),
        ("DEEPSEEK_API_KEY", "d"),
        ("GIFTAI_BASE_URL", ""),
        ("GIFTAI_MODEL", ""),
    ])
    .unwrap();
    assert_eq!(c.api_key, "d");
    assert_eq!(c.base_url, "https://api.deepseek.com");
    assert_eq!(c.model, "deepseek-chat");
}

#[test]
fn chat_says_what_is_posted() {
    let c = from_map(&[("GIFTAI_API_KEY", "k"), ("GIFTAI_BASE_URL", "https://x.com//")]).unwrap();
    let ms = vec![Message::user("hi")];
    let post = c.chat(&ms);
    assert_eq!(post.url, "https://x.com/chat/completions");
    assert_eq!(post.authorization, "Bearer k");
    assert_eq!(post.model, "deepseek-chat");
    assert_eq!(post.messages, &ms[..]);
}

#[test]
fn reply_is_the_first_choice() {
    let two = Some(vec!["你好！".to_string(), "x".to_string()]);
    assert_eq!(reply_in(200, String::new(), two).unwrap(), "你好！");
    assert!(matches!(reply_in(200, String::new(), Some(vec![])), Err(LlmError::NoChoice)));
    assert!(matches!(reply_in(204, String::new(), None), Err(LlmError::Malformed)));
    match reply_in(401, "no".to_string(), Some(vec!["x".to_string()])) {
        Err(LlmError::Http { status, body }) => {
            assert_eq!(status, 401);
            assert_eq!(body, "no");
        }
        other => panic!("{other:?}"),
    }
    assert!(matches!(reply_in(300, String::new(), None), Err(LlmError::Http { .. })));
}
