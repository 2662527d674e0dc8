pub mod model;
pub mod turns;
pub mod timer;
pub mod cost;
pub mod permission;
pub mod git;
pub mod cwd;
pub mod tokens;

use vstd::prelude::*;
use crate::parser::SessionData;
use crate::style::{apply_color, bar_fill, color_result, usage_ratio_of};
use crate::text::{opt_text, push_str, str_eq, text, texts};
use crate::theme::Theme;
use crate::modules::cost::{cost_output, CostModule};
use crate::modules::cwd::{cwd_output, CwdModule};
use crate::modules::git::{git_output, GitModule};
use crate::modules::model::{model_output, ModelModule};
use crate::modules::permission::{permission_output, PermissionModule};
use crate::modules::timer::{timer_output, TimerModule};
use crate::modules::tokens::{bar_fits, draws_bar, tokens_output, TokensModule};
use crate::modules::turns::{turns_output, TurnsModule};

verus! {

/// `r` is the icon `icon` followed by `t` in the color called `color` (with or
/// without escapes, as the terminal decides).
pub open spec fn is_segment(r: Seq<char>, icon: Seq<char>, t: Seq<char>, color: Seq<char>) -> bool {
    &&& r.len() >= icon.len()
    &&& r.take(icon.len() as int) == icon
    &&& color_result(t, color, r.skip(icon.len() as int))
}

/// The icon `icon` followed by `t` in the color called `color`.
pub fn segment(icon: &str, t: &str, color: &str) -> (r: String)
    ensures
        is_segment(r@, icon@, t@, color@),
{
    let c = apply_color(t, color);
    let mut r = text(icon);
    push_str(&mut r, c.as_str());
    assert(r@.take(icon@.len() as int) =~= icon@);
    assert(r@.skip(icon@.len() as int) =~= c@);
    r
}

/// A module of the status line.
pub enum StatusModule {
    Model(ModelModule),
    Tokens(TokensModule),
    Cost(CostModule),
    Timer(TimerModule),
    Cwd(CwdModule),
    Git(GitModule),
    Permission(PermissionModule),
    Turns(TurnsModule),
}

/// What a module gives for `data` in `theme`: its segment, or nothing.
pub open spec fn module_output(
    m: StatusModule,
    data: SessionData,
    theme: Theme,
    git_head: Option<String>,
    r: Option<Seq<char>>,
) -> bool {
    match m {
        StatusModule::Model(_) => model_output(data, theme, r),
        StatusModule::Tokens(t) => tokens_output(t, data, theme, r),
        StatusModule::Cost(c) => cost_output(c, data, theme, r),
        StatusModule::Timer(_) => timer_output(data, theme, r),
        StatusModule::Cwd(_) => cwd_output(data, theme, r),
        StatusModule::Git(_) => git_output(data, theme, git_head, r),
        StatusModule::Permission(_) => permission_output(data, theme, r),
        StatusModule::Turns(_) => turns_output(data, theme, r),
    }
}

/// A module that can render `data`: a bar, when drawn, fits in memory.
pub open spec fn module_wf(m: StatusModule, data: SessionData) -> bool {
    match m {
        StatusModule::Tokens(t) => draws_bar(t, data) ==> bar_fits(t, data),
        _ => true,
    }
}

/// Whether every module can render `data`.
pub fn modules_can_render(modules: &Vec<StatusModule>, data: &SessionData) -> (r: bool)
    ensures
        r == forall|i: int| 0 <= i < modules@.len() ==> module_wf(#[trigger] modules@[i], *data),
{
    let n = modules.len();
    for i in 0..n
        invariant
            n == modules@.len(),
            forall|j: int| 0 <= j < i ==> module_wf(#[trigger] modules@[j], *data),
    {
        match &modules[i] {
            StatusModule::Tokens(t) => {
                if t.show_bar {
                    if let Some(u) = &data.token_usage {
                        if let (Some(used), Some(total)) = (u.used, u.total) {
                            let ratio = usage_ratio_of(used, total);
                            let filled = bar_fill(&ratio, t.bar_width);
                            let cells = if filled > t.bar_width {
                                filled
                            } else {
                                t.bar_width
                            };
                            if cells > (isize::MAX as usize) / 3 {
                                assert(!module_wf(modules@[i as int], *data));
                                return false;
                            }
                        }
                    }
                }
            },
            _ => {},
        }
    }
    true
}

/// The name of the kind of a module.
pub open spec fn module_name(m: StatusModule) -> Seq<char> {
    match m {
        StatusModule::Model(_) => "model"@,
        StatusModule::Tokens(_) => "tokens"@,
        StatusModule::Cost(_) => "cost"@,
        StatusModule::Timer(_) => "timer"@,
        StatusModule::Cwd(_) => "cwd"@,
        StatusModule::Git(_) => "git"@,
        StatusModule::Permission(_) => "permission"@,
        StatusModule::Turns(_) => "turns"@,
    }
}

impl StatusModule {
    /// The name of the module's kind.
    pub fn name(&self) -> (r: &'static str)
        ensures
            r@ == module_name(*self),
    {
        match self {
            StatusModule::Model(m) => m.name(),
            StatusModule::Tokens(m) => m.name(),
            StatusModule::Cost(m) => m.name(),
            StatusModule::Timer(m) => m.name(),
            StatusModule::Cwd(m) => m.name(),
            StatusModule::Git(m) => m.name(),
            StatusModule::Permission(m) => m.name(),
            StatusModule::Turns(m) => m.name(),
        }
    }

    /// The module's segment for `data` in `theme`, `git_head` being the output
    /// of `git rev-parse --abbrev-ref HEAD` when it was run and succeeded.
    pub fn render(&self, data: &SessionData, theme: &Theme, git_head: &Option<String>) -> (r:
        Option<String>)
        requires
            module_wf(*self, *data),
        ensures
            module_output(*self, *data, *theme, *git_head, opt_text(r)),
    {
        match self {
            StatusModule::Model(m) => m.render(data, theme),
            StatusModule::Tokens(m) => m.render(data, theme),
            StatusModule::Cost(m) => m.render(data, theme),
            StatusModule::Timer(m) => m.render(data, theme),
            StatusModule::Cwd(m) => m.render(data, theme),
            StatusModule::Git(m) => m.render(data, theme, git_head),
            StatusModule::Permission(m) => m.render(data, theme),
            StatusModule::Turns(m) => m.render(data, theme),
        }
    }
}

/// Whether `name` names a module.
pub open spec fn is_module_name(name: Seq<char>) -> bool {
    ||| name == "model"@
    ||| name == "tokens"@
    ||| name == "cost"@
    ||| name == "timer"@
    ||| name == "cwd"@
    ||| name == "git"@
    ||| name == "permission"@
    ||| name == "turns"@
}

/// `m` is the module called `name`, with the given token and cost settings.
pub open spec fn module_is(
    m: StatusModule,
    name: Seq<char>,
    show_bar: bool,
    bar_width: usize,
    show_detail: bool,
    currency: Seq<char>,
) -> bool {
    &&& module_name(m) == name
    &&& (m matches StatusModule::Tokens(t) ==> t.show_bar == show_bar && t.bar_width == bar_width
        && t.show_detail == show_detail)
    &&& (m matches StatusModule::Cost(c) ==> c.currency@ == currency)
}

/// The module called `name` with its default settings; nothing for an unknown name.
pub fn create_module(name: &str) -> (r: Option<StatusModule>)
    ensures
        r is Some <==> is_module_name(name@),
        r matches Some(m) ==> module_is(m, name@, false, 10, false, "USD"@),
{
    if str_eq(name, "model") {
        Some(StatusModule::Model(ModelModule))
    } else if str_eq(name, "tokens") {
        Some(StatusModule::Tokens(TokensModule::default()))
    } else if str_eq(name, "cost") {
        Some(StatusModule::Cost(CostModule::default()))
    } else if str_eq(name, "timer") {
        Some(StatusModule::Timer(TimerModule))
    } else if str_eq(name, "cwd") {
        Some(StatusModule::Cwd(CwdModule))
    } else if str_eq(name, "git") {
        Some(StatusModule::Git(GitModule))
    } else if str_eq(name, "permission") {
        Some(StatusModule::Permission(PermissionModule))
    } else if str_eq(name, "turns") {
        Some(StatusModule::Turns(TurnsModule))
    } else {
        None
    }
}

/// The names of `names` that name modules, in order.
pub open spec fn known_names(names: Seq<Seq<char>>) -> Seq<Seq<char>>
    decreases names.len(),
{
    if names.len() == 0 {
        Seq::empty()
    } else if is_module_name(names.last()) {
        known_names(names.drop_last()).push(names.last())
    } else {
        known_names(names.drop_last())
    }
}

/// The modules named in `names`, in order, unknown names skipped, with the
/// given token and cost settings.
pub fn create_modules_from_config(
    names: &Vec<String>,
    tokens_show_bar: bool,
    tokens_bar_width: usize,
    tokens_show_detail: bool,
    cost_currency: &str,
) -> (r: Vec<StatusModule>)
    ensures
        r@.len() == known_names(texts(names@)).len(),
        forall|i: int|
            0 <= i < r@.len() ==> module_is(
                #[trigger] r@[i],
                known_names(texts(names@))[i],
                tokens_show_bar,
                tokens_bar_width,
                tokens_show_detail,
                cost_currency@,
            ),
{
    let mut r: Vec<StatusModule> = Vec::new();
    let n = names.len();
    for i in 0..n
        invariant
            n == names@.len(),
            r@.len() == known_names(texts(names@).take(i as int)).len(),
            forall|j: int|
                0 <= j < r@.len() ==> module_is(
                    #[trigger] r@[j],
                    known_names(texts(names@).take(i as int))[j],
                    tokens_show_bar,
                    tokens_bar_width,
                    tokens_show_detail,
                    cost_currency@,
                ),
    {
        let ghost prev = texts(names@).take(i as int);
        assert(texts(names@).take(i + 1).drop_last() == prev);
        assert(texts(names@).take(i + 1).last() == names@[i as int]@);
        let name = names[i].as_str();
        if str_eq(name, "tokens") {
            r.push(
                StatusModule::Tokens(
                    TokensModule {
                        show_bar: tokens_show_bar,
                        bar_width: tokens_bar_width,
                        show_detail: tokens_show_detail,
                    },
                ),
            );
        } else if str_eq(name, "cost") {
            r.push(StatusModule::Cost(CostModule { currency: text(cost_currency) }));
        } else {
            match create_module(name) {
                Some(m) => r.push(m),
                None => {},
            }
        }
    }
    assert(texts(names@).take(n as int) == texts(names@));
    r
}

/// Whether the git branch has to be asked of `git`: no branch is known and a
/// git module is shown.
pub open spec fn needs_git_head_spec(modules: Seq<StatusModule>, data: SessionData) -> bool {
    data.git_branch is None && exists|i: int|
        0 <= i < modules.len() && #[trigger] modules[i] matches StatusModule::Git(_)
}

/// Whether the git branch has to be asked of `git` before rendering.
pub fn needs_git_head(modules: &Vec<StatusModule>, data: &SessionData) -> (r: bool)
    ensures
        r == needs_git_head_spec(modules@, *data),
{
    if data.git_branch.is_some() {
        return false;
    }
    let n = modules.len();
    for i in 0..n
        invariant
            n == modules@.len(),
            data.git_branch is None,
            forall|j: int| 0 <= j < i ==> !(#[trigger] modules@[j] matches StatusModule::Git(_)),
    {
        match &modules[i] {
            StatusModule::Git(_) => {
                assert(modules@[i as int] matches StatusModule::Git(_));
                return true;
            },
            _ => {},
        }
    }
    false
}

} // verus!
