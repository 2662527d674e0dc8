use cxline::binary64::Binary64;
use cxline::json::JsonValue;
use cxline::parser::{parse_codex_line, CodexEvent, CodexLine, CodexSession};

fn json_value(v: serde_json::Value) -> JsonValue {
    match v {
        serde_json::Value::Null => JsonValue::Null,
        serde_json::Value::Bool(b) => JsonValue::Bool(b),
        serde_json::Value::Number(n) => JsonValue::Number(n.as_u64()),
        serde_json::Value::String(s) => JsonValue::Str(s),
        serde_json::Value::Array(a) => JsonValue::Array(a.into_iter().map(json_value).collect()),
        serde_json::Value::Object(o) => {
            JsonValue::Object(o.into_iter().map(|(k, v)| (k, json_value(v))).collect())
        }
    }
}

fn line(text: &str) -> CodexLine {
    let mut raw: serde_json::Value = serde_json::from_str(text).unwrap();
    let obj = raw.as_object_mut().unwrap();
    CodexLine {
        timestamp: obj.get("timestamp").and_then(|t| t.as_str()).map(|t| t.to_string()),
        event_type: obj.get("type").unwrap().as_str().unwrap().to_string(),
        payload: json_value(obj.remove("payload").unwrap()),
    }
}

#[test]
fn test_parse_codex_session_meta() {
    let line_text = r#"{"timestamp":"2026-03-04T11:38:17.368Z","type":"session_meta","payload":{"id":"abc123","cwd":"/home/user","cli_version":"0.104.0","model_provider":"openai"}}"#;
    let event = parse_codex_line(&line(line_text)).unwrap();
    match event {
        CodexEvent::SessionMeta { id, cwd, cli_version, .. } => {
            assert_eq!(id, "abc123");
            assert_eq!(cwd.as_deref(), Some("/home/user"));
            assert_eq!(cli_version.as_deref(), Some("0.104.0"));
        }
        _ => panic!("Expected SessionMeta"),
    }
}

#[test]
fn test_parse_codex_token_count() {
    let line_text = r#"{"timestamp":"t","type":"event_msg","payload":{"type":"token_count","info":{"total_token_usage":{"input_tokens":10259,"cached_input_tokens":4096,"output_tokens":836,"reasoning_output_tokens":622,"total_tokens":11095},"model_context_window":258400},"rate_limits":{}}}"#;
    let event = parse_codex_line(&line(line_text)).unwrap();
    match event {
        CodexEvent::TokenCount { input_tokens, cached_input_tokens, output_tokens, reasoning_output_tokens, model_context_window } => {
            assert_eq!(input_tokens, Some(10259));
            assert_eq!(cached_input_tokens, Some(4096));
            assert_eq!(output_tokens, Some(836));
            assert_eq!(reasoning_output_tokens, Some(622));
            assert_eq!(model_context_window, Some(258400));
        }
        _ => panic!("Expected TokenCount"),
    }
}

#[test]
fn test_codex_session_aggregate() {
    let mut session = CodexSession::new();

    session.apply_event(&CodexEvent::SessionMeta {
        id: "sess1".to_string(),
        cwd: Some("/project".to_string()),
        cli_version: Some("0.104.0".to_string()),
        model_provider: Some("openai".to_string()),
    });

    session.apply_event(&CodexEvent::TurnContext {
        turn_id: "turn1".to_string(),
        model: Some("gpt-5.3-codex".to_string()),
        approval_policy: Some("on-request".to_string()),
        cwd: None,
    });

    session.apply_event(&CodexEvent::TokenCount {
        input_tokens: Some(10259),
        cached_input_tokens: Some(4096),
        output_tokens: Some(836),
        reasoning_output_tokens: Some(622),
        model_context_window: Some(258400),
    });

    assert_eq!(session.turn_count, 1);
    assert_eq!(session.model.as_deref(), Some("gpt-5.3-codex"));

    let data = session.to_session_data(None);
    assert_eq!(data.model.as_deref(), Some("gpt-5.3-codex"));
    assert_eq!(data.permission.as_deref(), Some("on-request"));
    assert_eq!(data.turn, Some(1));

    let usage = data.token_usage.unwrap();
    assert_eq!(usage.used, Some(10259 + 836 + 622));
    assert_eq!(usage.total, Some(258400));
    assert_eq!(usage.input, Some(10259));
    assert_eq!(usage.cached, Some(4096));
    assert_eq!(usage.reasoning, Some(622));
}

#[test]
fn missing_identifiers_give_no_event() {
    assert!(parse_codex_line(&line(r#"{"type":"session_meta","payload":{"cwd":"/x"}}"#)).is_none());
    assert!(parse_codex_line(&line(r#"{"type":"turn_context","payload":{"turn_id":5}}"#)).is_none());
    assert!(matches!(
        parse_codex_line(&line(r#"{"type":"something_else","payload":{}}"#)),
        Some(CodexEvent::Unknown)
    ));
    assert!(matches!(
        parse_codex_line(&line(r#"{"type":"event_msg","payload":{"type":"agent_message"}}"#)),
        Some(CodexEvent::Unknown)
    ));
    assert!(matches!(
        parse_codex_line(&line(r#"{"type":"event_msg","payload":{"type":"task_started","turn_id":"t1","model_context_window":-3}}"#)),
        Some(CodexEvent::TaskStarted { model_context_window: None, .. })
    ));
}

#[test]
fn repeated_turns_are_counted_once() {
    let mut session = CodexSession::new();
    let started = CodexEvent::TaskStarted { turn_id: "t1".to_string(), model_context_window: Some(100) };
    let context = CodexEvent::TurnContext { turn_id: "t1".to_string(), model: None, approval_policy: None, cwd: None };
    session.apply_event(&started);
    session.apply_event(&context);
    session.apply_event(&started);
    assert_eq!(session.turn_count, 1);
    session.apply_event(&CodexEvent::TaskStarted { turn_id: "t2".to_string(), model_context_window: None });
    assert_eq!(session.turn_count, 2);
    assert_eq!(session.model_context_window, Some(100));
}

#[test]
fn quiet_sessions_show_no_usage() {
    let mut session = CodexSession::new();
    session.apply_event(&CodexEvent::TaskComplete { turn_id: "x".to_string() });
    session.apply_event(&CodexEvent::Unknown);
    let data = session.to_session_data(Binary64::from_bits(7.5f64.to_bits()));
    assert!(data.token_usage.is_none());
    assert!(data.turn.is_none());
    assert_eq!(data.elapsed_seconds, Binary64::from_bits(7.5f64.to_bits()));
}

#[test]
fn token_figures_prefer_the_current_turn() {
    let both = r#"{"type":"event_msg","payload":{"type":"token_count","info":{"last_token_usage":{"input_tokens":300,"output_tokens":20},"total_token_usage":{"input_tokens":9000,"output_tokens":800,"reasoning_output_tokens":5},"model_context_window":1000}}}"#;
    match parse_codex_line(&line(both)).unwrap() {
        CodexEvent::TokenCount { input_tokens, output_tokens, reasoning_output_tokens, model_context_window, .. } => {
            assert_eq!(input_tokens, Some(300));
            assert_eq!(output_tokens, Some(20));
            assert_eq!(reasoning_output_tokens, None);
            assert_eq!(model_context_window, Some(1000));
        }
        _ => panic!("Expected TokenCount"),
    }
    let null_last = r#"{"type":"event_msg","payload":{"type":"token_count","info":{"last_token_usage":null,"total_token_usage":{"input_tokens":9000,"output_tokens":800}}}}"#;
    match parse_codex_line(&line(null_last)).unwrap() {
        CodexEvent::TokenCount { input_tokens, output_tokens, .. } => {
            assert_eq!(input_tokens, Some(9000));
            assert_eq!(output_tokens, Some(800));
        }
        _ => panic!("Expected TokenCount"),
    }
}
