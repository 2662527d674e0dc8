use cxline::config::{Config, TomlValue};

fn parse(content: &str) -> Config {
    Config::parse_toml(content)
}

#[test]
fn test_default_config() {
    let config = Config::default();
    assert_eq!(config.theme_name, "default");
    assert_eq!(config.modules.len(), 6);
}

#[test]
fn test_parse_simple_toml() {
    let toml = r#"
theme = "minimal"
separator = " | "
modules = ["model", "cost"]
"#;
    let config = parse(toml);
    assert_eq!(config.theme_name, "minimal");
    assert_eq!(config.modules, vec!["model", "cost"]);
}

#[test]
fn test_apply_args() {
    let mut config = Config::default();
    config.apply_args(Some("powerline".to_string()), Some("model,tokens".to_string()));
    assert_eq!(config.theme_name, "powerline");
    assert_eq!(config.modules, vec!["model", "tokens"]);
}

#[test]
fn apply_args_trims_items_and_keeps_empty_ones() {
    let mut config = Config::default();
    config.apply_args(None, Some(" model ,\ttokens,,cost ".to_string()));
    assert_eq!(config.theme_name, "default");
    assert_eq!(config.modules, vec!["model", "tokens", "", "cost"]);
}

#[test]
fn apply_args_without_overrides_changes_nothing() {
    let mut config = Config::default();
    config.apply_args(None, None);
    assert_eq!(config.theme_name, "default");
    assert_eq!(config.modules, vec!["model", "tokens", "cost", "timer", "git", "permission"]);
}

#[test]
fn invalid_toml_gives_default_config() {
    let config = parse("theme = = nonsense");
    assert_eq!(config.theme_name, "default");
    assert_eq!(config.modules.len(), 6);
    assert!(config.separator.is_none());
}

#[test]
fn full_toml_sections_are_read() {
    let toml = r#"
theme = "powerline"
modules = ["model", 3, "turns"]

[colors]
primary = "magenta"
error = "bright_red"

[tokens]
show_bar = true
bar_width = 20
show_detail = true

[cost]
currency = "CNY"
"#;
    let config = parse(toml);
    assert_eq!(config.theme_name, "powerline");
    assert_eq!(config.modules, vec!["model", "turns"]);
    let colors = config.theme_colors.unwrap();
    assert_eq!(colors.primary, "magenta");
    assert_eq!(colors.secondary, "white");
    assert_eq!(colors.accent, "green");
    assert_eq!(colors.warning, "yellow");
    assert_eq!(colors.error, "bright_red");
    assert_eq!(config.tokens_config.show_bar, Some(true));
    assert_eq!(config.tokens_config.bar_width, Some(20));
    assert_eq!(config.tokens_config.show_detail, Some(true));
    assert_eq!(config.cost_config.currency.as_deref(), Some("CNY"));
}

#[test]
fn modules_that_are_not_a_list_fall_back_to_defaults() {
    let config = parse("modules = \"model\"\ntheme = 5\n");
    assert_eq!(config.theme_name, "default");
    assert_eq!(config.modules.len(), 6);
}

#[test]
fn documents_give_configurations() {
    let doc = TomlValue::Table(vec![
        ("theme".to_string(), TomlValue::Str("powerline".to_string())),
        ("modules".to_string(), TomlValue::Array(vec![TomlValue::Str("git".to_string()), TomlValue::Int(3)])),
        ("tokens".to_string(), TomlValue::Table(vec![("bar_width".to_string(), TomlValue::Int(-1))])),
    ]);
    let config = Config::from_document(Some(doc));
    assert_eq!(config.theme_name, "powerline");
    assert_eq!(config.modules, vec!["git"]);
    assert_eq!(config.tokens_config.bar_width, Some(usize::MAX));
    assert_eq!(Config::from_document(None).theme_name, "default");
}
