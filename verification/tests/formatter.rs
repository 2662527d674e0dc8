use cxline::formatter::format_statusline;
use cxline::modules::model::ModelModule;
use cxline::modules::turns::TurnsModule;
use cxline::modules::StatusModule;
use cxline::parser::SessionData;
use cxline::style::visible_len;
use cxline::theme::Theme;

#[test]
fn test_format_empty_data() {
    let modules = vec![StatusModule::Model(ModelModule)];
    let data = SessionData::default();
    let theme = Theme::from_name("default", None, None);
    let result = format_statusline(&modules, &data, &theme, &None, 80);
    assert!(result.is_empty());
}

#[test]
fn test_format_with_model() {
    let modules = vec![StatusModule::Model(ModelModule)];
    let data = SessionData {
        model: Some("o3-mini".to_string()),
        ..Default::default()
    };
    let theme = Theme::from_name("default", None, None);
    let result = format_statusline(&modules, &data, &theme, &None, 80);
    assert!(result.contains("o3-mini"));
}

#[test]
fn segments_are_joined_by_the_separator() {
    let modules = vec![StatusModule::Model(ModelModule), StatusModule::Turns(TurnsModule)];
    let data = SessionData {
        model: Some("gpt-4".to_string()),
        turn: Some(3),
        ..Default::default()
    };
    let theme = Theme::from_name("minimal", None, None);
    let result = cxline::style::strip_ansi(&format_statusline(&modules, &data, &theme, &None, 0));
    assert_eq!(result, "gpt-4 | Turn 3");
}

#[test]
fn long_lines_are_cut_below_the_width() {
    let modules = vec![StatusModule::Model(ModelModule)];
    let data = SessionData {
        model: Some("a-very-long-model-name-that-does-not-fit".to_string()),
        ..Default::default()
    };
    let theme = Theme::from_name("minimal", None, None);
    let result = format_statusline(&modules, &data, &theme, &None, 10);
    assert!(visible_len(&result) <= 10);
    assert_eq!(visible_len(&result), 9);
    assert!(result.ends_with("\x1b[0m"));
}
