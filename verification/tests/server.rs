use tongwen::convert::Conversion;
use tongwen::server::{
    base_model_id, extract_text, handle_chat, is_voiceink_model, model_ids, pick_input,
    resolve_model, ChatError, ChatRequest, ContentPart, Message, MessageContent,
};

fn unchanged(t: &str) -> Conversion {
    Conversion::Converted(t.to_string())
}

fn text_msg(role: &str, content: &str) -> Message {
    Message { role: Some(role.to_string()), content: MessageContent::Text(content.to_string()) }
}

fn request(model: Option<&str>, messages: Option<Vec<Message>>) -> ChatRequest {
    ChatRequest { model: model.map(|m| m.to_string()), messages }
}

#[test]
fn models_are_listed() {
    let ids = model_ids();
    assert_eq!(ids, vec!["tongwen-voiceink".to_string(), "tongwen".to_string()]);
    assert_eq!(base_model_id(), "tongwen");
}

#[test]
fn missing_or_empty_model_defaults() {
    assert_eq!(resolve_model(&None), "tongwen");
    assert_eq!(resolve_model(&Some(String::new())), "tongwen");
    assert_eq!(resolve_model(&Some("tongwen-voiceink".to_string())), "tongwen-voiceink");
}

#[test]
fn last_user_message_is_the_input() {
    let ms = vec![
        text_msg("user", "first"),
        text_msg("assistant", "reply"),
        text_msg("user", "second"),
        text_msg("assistant", "again"),
    ];
    assert_eq!(pick_input(&ms), "second");
    let ms = vec![text_msg("system", "a"), text_msg("assistant", "b")];
    assert_eq!(pick_input(&ms), "b");
    assert_eq!(pick_input(&Vec::new()), "");
}

#[test]
fn array_content_is_concatenated() {
    let parts = vec![
        ContentPart { text: Some("ab".to_string()), content: Some("zz".to_string()), plain: None },
        ContentPart { text: None, content: Some("cd".to_string()), plain: None },
        ContentPart { text: None, content: None, plain: Some("ef".to_string()) },
        ContentPart { text: None, content: None, plain: None },
    ];
    let m = Message { role: Some("user".to_string()), content: MessageContent::Parts(parts) };
    assert_eq!(extract_text(&m), "abcdef");
    let m = Message { role: None, content: MessageContent::Missing };
    assert_eq!(extract_text(&m), "");
}

#[test]
fn refusals() {
    let r = handle_chat(&request(None, None), false, unchanged);
    assert!(matches!(r, Err(ChatError::MissingMessages)));
    let r = handle_chat(&request(None, Some(Vec::new())), false, unchanged);
    assert!(matches!(r, Err(ChatError::EmptyMessages)));
    assert_eq!(ChatError::MissingMessages.status(), 400);
    assert_eq!(ChatError::NotFound.status(), 404);
    assert_eq!(ChatError::InvalidJson.message(), "Invalid JSON body");
    assert_eq!(ChatError::EmptyMessages.message(), "`messages` must be a non-empty array");
    assert_eq!(ChatError::NotFound.error_type(), "not_found");
    assert_eq!(ChatError::MissingMessages.error_type(), "invalid_request_error");
}

#[test]
fn voiceink_strips_tags_default_keeps_them() {
    let ms = vec![text_msg("user", "<TRANSCRIPT>hello</TRANSCRIPT>")];
    let r = handle_chat(&request(Some("tongwen-voiceink"), Some(ms)), false, unchanged).ok().unwrap();
    assert_eq!(r.model, "tongwen-voiceink");
    assert_eq!(r.input, "hello");
    assert_eq!(r.output, "Hello");
    let ms = vec![text_msg("user", "<TRANSCRIPT>简体</TRANSCRIPT>")];
    let r = handle_chat(&request(None, Some(ms)), false, unchanged).ok().unwrap();
    assert_eq!(r.model, "tongwen");
    assert!(r.output.contains("<TRANSCRIPT>"));
}

#[test]
fn token_counts_are_character_counts() {
    let ms = vec![text_msg("user", "你好。")];
    let r = handle_chat(&request(Some("tongwen"), Some(ms)), false, unchanged).ok().unwrap();
    assert_eq!(r.output, "你好");
    assert_eq!(r.prompt_tokens, 3);
    assert_eq!(r.completion_tokens, 2);
    assert_eq!(r.total_tokens, 5);
}

#[test]
fn any_voiceink_suffix_strips_tags() {
    assert!(is_voiceink_model(&"a-voiceink".to_string()));
    assert!(is_voiceink_model(&"-voiceink".to_string()));
    assert!(!is_voiceink_model(&"voiceink".to_string()));
    assert!(!is_voiceink_model(&"tongwen-voiceink2".to_string()));
    let ms = vec![text_msg("user", "<TRANSCRIPT>你</TRANSCRIPT>")];
    let r = handle_chat(&request(Some("a-voiceink"), Some(ms)), false, unchanged).ok().unwrap();
    assert_eq!(r.model, "a-voiceink");
    assert_eq!(r.input, "你");
}
