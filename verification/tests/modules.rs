use cxline::binary64::Binary64;
use cxline::modules::cost::CostModule;
use cxline::modules::cwd::{shorten_path, shorten_path_in, CwdModule};
use cxline::modules::git::GitModule;
use cxline::modules::permission::PermissionModule;
use cxline::modules::timer::{format_duration, TimerModule};
use cxline::modules::tokens::{format_count, format_percent, TokensModule};
use cxline::modules::{create_module, create_modules_from_config, StatusModule};
use cxline::parser::{CostInfo, SessionData, TokenUsage};
use cxline::style::strip_ansi;
use cxline::theme::Theme;

fn secs(x: f64) -> Binary64 {
    Binary64::from_bits(x.to_bits()).unwrap()
}

#[test]
fn test_shorten_path_short() {
    assert_eq!(shorten_path("/foo"), "/foo");
}

#[test]
fn test_shorten_path_long() {
    assert_eq!(shorten_path("/a/b/c/d"), ".../c/d");
}

#[test]
fn home_is_written_as_tilde() {
    assert_eq!(shorten_path_in("/home/u/project", Some("/home/u")), "~/project");
    assert_eq!(shorten_path_in("/home/u/a/b/c", Some("/home/u")), ".../b/c");
    assert_eq!(shorten_path_in("/srv/x", Some("/home/u")), ".../srv/x");
    assert_eq!(shorten_path_in("srv", None), "srv");
    assert_eq!(shorten_path_in("/home/u", Some("/home/u")), "~");
}

#[test]
fn test_format_duration() {
    assert_eq!(format_duration(secs(5.0)), "5s");
    assert_eq!(format_duration(secs(65.0)), "1m5s");
    assert_eq!(format_duration(secs(323.0)), "5m23s");
    assert_eq!(format_duration(secs(3661.0)), "1h1m1s");
}

#[test]
fn durations_with_whole_hours_show_zero_minutes() {
    assert_eq!(format_duration(secs(0.0)), "0s");
    assert_eq!(format_duration(secs(3600.0)), "1h0m0s");
    assert_eq!(format_duration(secs(7260.9)), "2h1m0s");
}

#[test]
fn test_format_count() {
    assert_eq!(format_count(500), "500");
    assert_eq!(format_count(1500), "1.5k");
    assert_eq!(format_count(12500), "12.5k");
    assert_eq!(format_count(1_500_000), "1.5M");
}

#[test]
fn counts_round_to_one_decimal() {
    assert_eq!(format_count(999), "999");
    assert_eq!(format_count(1000), "1.0k");
    assert_eq!(format_count(11095), "11.1k");
    assert_eq!(format_count(258400), "258.4k");
    assert_eq!(format_count(1250), "1.2k");
    assert_eq!(format_count(1_750_000), "1.8M");
}

#[test]
fn percentages_have_one_decimal_below_ten() {
    assert_eq!(format_percent(11095, 258400), "4.3%");
    assert_eq!(format_percent(50, 100), "50%");
    assert_eq!(format_percent(200, 100), "100%");
    assert_eq!(format_percent(0, 0), "0.0%");
    assert_eq!(format_percent(1, 10), "10%");
}

fn plain(module: &StatusModule, data: &SessionData, theme: &Theme) -> Option<String> {
    module.render(data, theme, &None).map(|s| strip_ansi(&s))
}

#[test]
fn tokens_show_used_total_and_percent() {
    let theme = Theme::from_name("minimal", None, None);
    let data = SessionData {
        token_usage: Some(TokenUsage {
            used: Some(11095),
            total: Some(258400),
            input: Some(10259),
            output: Some(836),
            cached: Some(4096),
            reasoning: Some(622),
        }),
        ..Default::default()
    };
    let m = StatusModule::Tokens(TokensModule::default());
    assert_eq!(plain(&m, &data, &theme).unwrap(), "11.1k/258.4k 4.3%");
    let detailed = StatusModule::Tokens(TokensModule { show_bar: false, bar_width: 10, show_detail: true });
    assert_eq!(
        plain(&detailed, &data, &theme).unwrap(),
        "11.1k/258.4k 4.3% in:10.3k out:836 cache:4.1k reason:622"
    );
    let bar = StatusModule::Tokens(TokensModule { show_bar: true, bar_width: 4, show_detail: false });
    let half = SessionData {
        token_usage: Some(TokenUsage { used: Some(50), total: Some(100), input: None, output: None, cached: None, reasoning: None }),
        ..Default::default()
    };
    assert_eq!(plain(&bar, &half, &theme).unwrap(), "50/100 \u{2588}\u{2588}\u{2591}\u{2591} 50%");
}

#[test]
fn tokens_without_used_count_show_nothing() {
    let theme = Theme::from_name("default", None, None);
    let data = SessionData {
        token_usage: Some(TokenUsage { used: None, total: Some(10), input: None, output: None, cached: None, reasoning: None }),
        ..Default::default()
    };
    let m = StatusModule::Tokens(TokensModule::default());
    assert!(m.render(&data, &theme, &None).is_none());
}

#[test]
fn cost_uses_the_currency_symbol() {
    let theme = Theme::from_name("minimal", None, None);
    let data = SessionData {
        cost: Some(CostInfo {
            total: Binary64::from_bits(0.42f64.to_bits()),
            currency: None,
            input_cost: None,
            output_cost: None,
        }),
        ..Default::default()
    };
    let usd = StatusModule::Cost(CostModule::default());
    assert_eq!(plain(&usd, &data, &theme).unwrap(), "$$0.42");
    let cny = StatusModule::Cost(CostModule { currency: "CNY".to_string() });
    assert_eq!(plain(&cny, &data, &theme).unwrap(), "$\u{a5}0.42");
}

#[test]
fn timer_and_turns_render() {
    let theme = Theme::from_name("minimal", None, None);
    let data = SessionData { elapsed_seconds: Some(secs(323.0)), turn: Some(1), ..Default::default() };
    assert_eq!(plain(&StatusModule::Timer(TimerModule), &data, &theme).unwrap(), "5m23s");
    assert_eq!(
        plain(&StatusModule::Turns(cxline::modules::turns::TurnsModule), &data, &theme).unwrap(),
        "Turn 1"
    );
}

#[test]
fn permission_icons_follow_the_policy() {
    let theme = Theme::from_name("default", None, None);
    let m = StatusModule::Permission(PermissionModule);
    let data = |p: &str| SessionData { permission: Some(p.to_string()), ..Default::default() };
    assert_eq!(plain(&m, &data("on-request"), &theme).unwrap(), "\u{26a1} on-request");
    assert_eq!(plain(&m, &data("full-auto"), &theme).unwrap(), "\u{1f513} full-auto");
    assert_eq!(plain(&m, &data("ask"), &theme).unwrap(), "\u{2705} ask");
    let minimal = Theme::from_name("minimal", None, None);
    assert_eq!(plain(&m, &data("auto"), &minimal).unwrap(), "auto");
}

#[test]
fn git_prefers_the_reported_branch() {
    let theme = Theme::from_name("minimal", None, None);
    let m = StatusModule::Git(GitModule);
    let data = SessionData { git_branch: Some("main".to_string()), git_dirty: Some(true), ..Default::default() };
    assert_eq!(
        m.render(&data, &theme, &Some("other\n".to_string())).map(|s| strip_ansi(&s)).unwrap(),
        "main*"
    );
    let none = SessionData::default();
    assert_eq!(
        m.render(&none, &theme, &Some("  feature \n".to_string())).map(|s| strip_ansi(&s)).unwrap(),
        "feature"
    );
    assert!(m.render(&none, &theme, &Some(" \n".to_string())).is_none());
    assert!(m.render(&none, &theme, &None).is_none());
}

#[test]
fn cwd_module_shows_the_folder() {
    let theme = Theme::from_name("minimal", None, None);
    let data = SessionData { cwd: Some("/x/y/z".to_string()), ..Default::default() };
    assert_eq!(plain(&StatusModule::Cwd(CwdModule), &data, &theme).unwrap(), ".../y/z");
}

#[test]
fn modules_are_created_by_name() {
    assert_eq!(create_module("model").unwrap().name(), "model");
    assert_eq!(create_module("cwd").unwrap().name(), "cwd");
    assert!(create_module("unknown").is_none());
    let names = vec!["tokens".to_string(), "nope".to_string(), "cost".to_string()];
    let mods = create_modules_from_config(&names, true, 7, true, "CNY");
    assert_eq!(mods.len(), 2);
    match &mods[0] {
        StatusModule::Tokens(t) => assert!(t.show_bar && t.bar_width == 7 && t.show_detail),
        _ => panic!("expected tokens"),
    }
    match &mods[1] {
        StatusModule::Cost(c) => assert_eq!(c.currency, "CNY"),
        _ => panic!("expected cost"),
    }
}
