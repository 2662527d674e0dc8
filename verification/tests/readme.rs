use cxline::binary64::Binary64;
use cxline::formatter::format_statusline;
use cxline::modules::cost::CostModule;
use cxline::modules::cwd::CwdModule;
use cxline::modules::git::GitModule;
use cxline::modules::model::ModelModule;
use cxline::modules::permission::PermissionModule;
use cxline::modules::timer::TimerModule;
use cxline::modules::tokens::TokensModule;
use cxline::modules::turns::TurnsModule;
use cxline::modules::StatusModule;
use cxline::parser::{CostInfo, SessionData, TokenUsage};
use cxline::style::strip_ansi;
use cxline::theme::Theme;

fn shown(m: StatusModule, data: &SessionData) -> String {
    let theme = Theme::from_name("default", None, None);
    strip_ansi(&m.render(data, &theme, &None).unwrap())
}

#[test]
fn readme_module_examples() {
    let data = SessionData {
        model: Some("gpt-5.3-codex".to_string()),
        token_usage: Some(TokenUsage {
            used: Some(11095),
            total: Some(258400),
            input: None,
            output: None,
            cached: None,
            reasoning: None,
        }),
        cost: Some(CostInfo {
            total: Binary64::from_bits(0.42f64.to_bits()),
            currency: None,
            input_cost: None,
            output_cost: None,
        }),
        elapsed_seconds: Binary64::from_bits(135.0f64.to_bits()),
        git_branch: Some("main".to_string()),
        permission: Some("on-request".to_string()),
        turn: Some(3),
        ..Default::default()
    };
    assert_eq!(shown(StatusModule::Model(ModelModule), &data), "\u{1f916} gpt-5.3-codex");
    assert_eq!(shown(StatusModule::Tokens(TokensModule::default()), &data), "\u{1f4ca} 11.1k/258.4k 4.3%");
    assert_eq!(shown(StatusModule::Turns(TurnsModule), &data), "\u{1f504} Turn 3");
    assert_eq!(shown(StatusModule::Cost(CostModule::default()), &data), "\u{1f4b0} $0.42");
    assert_eq!(shown(StatusModule::Timer(TimerModule), &data), "\u{23f1}\u{fe0f}  2m15s");
    assert_eq!(shown(StatusModule::Git(GitModule), &data), "\u{1f33f} main");
    assert_eq!(shown(StatusModule::Permission(PermissionModule), &data), "\u{26a1} on-request");
}

#[test]
fn readme_cwd_example() {
    if let Some(home) = dirs::home_dir() {
        let home = home.to_string_lossy().into_owned();
        let data = SessionData { cwd: Some(format!("{}/project", home)), ..Default::default() };
        assert_eq!(shown(StatusModule::Cwd(CwdModule), &data), "\u{1f4c2} ~/project");
    }
}

#[test]
fn readme_status_bar_example() {
    let data = SessionData {
        model: Some("gpt-5.3-codex".to_string()),
        token_usage: Some(TokenUsage {
            used: Some(11095),
            total: Some(258400),
            input: None,
            output: None,
            cached: None,
            reasoning: None,
        }),
        turn: Some(3),
        elapsed_seconds: Binary64::from_bits(135.0f64.to_bits()),
        ..Default::default()
    };
    let modules = vec![
        StatusModule::Model(ModelModule),
        StatusModule::Tokens(TokensModule::default()),
        StatusModule::Turns(TurnsModule),
        StatusModule::Timer(TimerModule),
    ];
    let theme = Theme::from_name("default", None, None);
    let line = strip_ansi(&format_statusline(&modules, &data, &theme, &None, 0));
    assert_eq!(
        line,
        "\u{1f916} gpt-5.3-codex \u{2502} \u{1f4ca} 11.1k/258.4k 4.3% \u{2502} \u{1f504} Turn 3 \u{2502} \u{23f1}\u{fe0f}  2m15s"
    );
}
