use cxline::modules::tokens::format_percent;
use cxline::json::JsonValue;
use cxline::parser::{CodexEvent, CodexLine, CodexSession};
use cxline::setup::{setup_unix_files, shell_wrapper_block, tmux_block, upsert_block};
use cxline::watch::apply_lines;

fn fields(s: &CodexSession) -> (Option<String>, Option<String>, Option<u64>, Option<u64>, u32) {
    (s.model.clone(), s.cwd.clone(), s.input_tokens, s.model_context_window, s.turn_count)
}

#[test]
fn applying_an_event_twice_is_applying_it_once() {
    let events = vec![
        CodexEvent::TurnContext {
            turn_id: "t".to_string(),
            model: Some("m".to_string()),
            approval_policy: None,
            cwd: Some("/w".to_string()),
        },
        CodexEvent::TokenCount {
            input_tokens: Some(5),
            cached_input_tokens: None,
            output_tokens: Some(1),
            reasoning_output_tokens: None,
            model_context_window: Some(9),
        },
        CodexEvent::TaskStarted { turn_id: "u".to_string(), model_context_window: None },
    ];
    for e in &events {
        let mut once = CodexSession::new();
        once.apply_event(e);
        let mut twice = CodexSession::new();
        twice.apply_event(e);
        twice.apply_event(e);
        assert_eq!(fields(&once), fields(&twice));
    }
}

fn record(kind: &str, payload: Vec<(&str, JsonValue)>) -> Option<CodexLine> {
    Some(CodexLine {
        timestamp: None,
        event_type: kind.to_string(),
        payload: JsonValue::Object(payload.into_iter().map(|(k, v)| (k.to_string(), v)).collect()),
    })
}

fn log() -> Vec<Option<CodexLine>> {
    vec![
        record("session_meta", vec![("id", JsonValue::Str("s".to_string())), ("cwd", JsonValue::Str("/p".to_string()))]),
        None,
        record("turn_context", vec![("turn_id", JsonValue::Str("t1".to_string())), ("model", JsonValue::Str("gpt".to_string()))]),
        record("event_msg", vec![("type", JsonValue::Str("task_started".to_string())), ("turn_id", JsonValue::Str("t2".to_string()))]),
        record("turn_context", vec![("turn_id", JsonValue::Str("t1".to_string()))]),
    ]
}

#[test]
fn reading_a_log_in_parts_is_reading_it_at_once() {
    let mut whole = CodexSession::new();
    assert!(apply_lines(&mut whole, &log()));
    let mut parts = CodexSession::new();
    let mut a = log();
    let b = a.split_off(2);
    assert!(apply_lines(&mut parts, &a));
    assert!(apply_lines(&mut parts, &b));
    assert_eq!(fields(&whole), fields(&parts));
    assert_eq!(whole.turn_count, 2);
    assert_eq!(whole.session_id.as_deref(), Some("s"));
    assert_eq!(whole.model.as_deref(), Some("gpt"));
}

#[test]
fn running_setup_twice_changes_nothing() {
    for (marker, block) in [
        ("# cxline-managed", tmux_block("/bin/cxline")),
        ("# cxline-codex-wrapper", shell_wrapper_block()),
    ] {
        for content in [None, Some("export X=1"), Some("a\n# cxline-managed\nold\n# cxline-codex-wrapper\nx\n")] {
            let (first, _) = upsert_block(content, marker, &block);
            let (second, _) = upsert_block(Some(&first), marker, &block);
            assert_eq!(first, second);
        }
    }
}

#[test]
fn a_bar_has_as_many_cells_as_its_width() {
    for width in [0usize, 1, 3, 10, 57] {
        for (used, total) in [(0u64, 0u64), (1, 3), (2, 3), (5, 5), (9, 3), (u64::MAX, 1), (1, u64::MAX)] {
            let bar = cxline::style::progress_bar(&cxline::style::usage_ratio_of(used, total), width);
            assert_eq!(bar.chars().count(), width, "{}/{} in {}", used, total, width);
        }
    }
}

#[test]
fn the_percentage_never_exceeds_a_hundred() {
    assert_eq!(format_percent(200, 100), "100%");
    assert_eq!(format_percent(u64::MAX, 1), "100%");
    assert_eq!(format_percent(u64::MAX - 1, u64::MAX), "100%");
    assert_eq!(format_percent(999, 1000), "100%");
    assert_eq!(format_percent(994, 1000), "99%");
}

#[test]
fn a_whole_setup_run_twice_changes_nothing() {
    let tmux = "set -g mouse on\n";
    let rc = "export A=1\n# cxline: codex+tmux shortcut\nalias cx='tmux new-session -A -s codex'\nexport B=2";
    let stale_tmux = "a\n  # cxline-managed\nold line\n# cxline-managed-end  \nb";
    let stale_rc = "# cxline-codex-wrapper\nold\n# cxline-codex-wrapper-end\nexport C=3\n";
    for (t, r) in [
        (None, None),
        (Some(tmux), Some(rc)),
        (Some(""), Some("x")),
        (Some(stale_tmux), Some(stale_rc)),
    ] {
        let (t1, _, r1, _, _) = setup_unix_files(t, r, "/usr/bin/cxline");
        let (t2, c2, r2, d2, gone) = setup_unix_files(Some(&t1), Some(&r1), "/usr/bin/cxline");
        assert_eq!(t1, t2);
        assert_eq!(r1, r2);
        assert!(!gone);
        assert_eq!(c2, cxline::setup::BlockChange::Updated);
        assert_eq!(d2, cxline::setup::BlockChange::Updated);
        assert!(!r1.contains("alias cx="));
    }
}

#[test]
fn each_distinct_turn_is_counted_once() {
    let mut s = CodexSession::new();
    let ids = ["a", "b", "a", "c", "b", "a"];
    for (i, id) in ids.iter().enumerate() {
        if i % 2 == 0 {
            s.apply_event(&CodexEvent::TaskStarted { turn_id: id.to_string(), model_context_window: None });
        } else {
            s.apply_event(&CodexEvent::TurnContext { turn_id: id.to_string(), model: None, approval_policy: None, cwd: None });
        }
        s.apply_event(&CodexEvent::TaskComplete { turn_id: "z".to_string() });
    }
    assert_eq!(s.turn_count, 3);
    assert_eq!(s.seen_turn_ids, vec!["a", "b", "c"]);
}
