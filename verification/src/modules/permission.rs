use vstd::prelude::*;
use crate::text::opt_text;
use crate::modules::{is_segment, segment};
use crate::parser::SessionData;
use crate::text::str_eq;
use crate::theme::Theme;

verus! {

/// Shows the approval policy.
pub struct PermissionModule;

/// The kind of an approval policy: 0 for unattended (`full-auto`, `auto`),
/// 1 for asking (`suggest`, `ask`), 2 for any other (such as `on-request`).
pub open spec fn policy_kind(policy: Seq<char>) -> nat {
    if policy == "full-auto"@ || policy == "auto"@ {
        0
    } else if policy == "suggest"@ || policy == "ask"@ {
        1
    } else {
        2
    }
}

/// The icon of a policy kind in the theme called `theme_name`.
pub open spec fn policy_icon(theme_name: Seq<char>, kind: nat) -> Seq<char> {
    if theme_name == "minimal"@ {
        Seq::empty()
    } else if theme_name == "powerline"@ {
        if kind == 0 {
            "\u{f09c} "@
        } else if kind == 1 {
            "\u{f00c} "@
        } else {
            "\u{f023} "@
        }
    } else {
        if kind == 0 {
            "\u{1f513} "@
        } else if kind == 1 {
            "\u{2705} "@
        } else {
            "\u{26a1} "@
        }
    }
}

/// The color of a policy kind: error, accent or warning.
pub open spec fn policy_color(theme: Theme, kind: nat) -> Seq<char> {
    if kind == 0 {
        theme.colors.error@
    } else if kind == 1 {
        theme.colors.accent@
    } else {
        theme.colors.warning@
    }
}

fn icon_for(theme_name: &str, kind: u8) -> (r: &'static str)
    requires
        kind <= 2,
    ensures
        r@ == policy_icon(theme_name@, kind as nat),
{
    proof {
        reveal_strlit("");
    }
    if str_eq(theme_name, "minimal") {
        ""
    } else if str_eq(theme_name, "powerline") {
        if kind == 0 {
            "\u{f09c} "
        } else if kind == 1 {
            "\u{f00c} "
        } else {
            "\u{f023} "
        }
    } else {
        if kind == 0 {
            "\u{1f513} "
        } else if kind == 1 {
            "\u{2705} "
        } else {
            "\u{26a1} "
        }
    }
}

/// Policies of one kind look alike in every theme: `auto` has the icon and
/// the color of `full-auto` (the error color), `ask` those of `suggest` (the
/// accent color), any other policy looks like `on-request` (the warning
/// color), and an unattended policy never looks like an asking one or like an
/// unknown one in a theme with icons.
pub proof fn law_policy_looks(theme: Theme)
    ensures
        policy_icon(theme.name@, policy_kind("auto"@)) == policy_icon(
            theme.name@,
            policy_kind("full-auto"@),
        ),
        policy_color(theme, policy_kind("auto"@)) == theme.colors.error@,
        policy_color(theme, policy_kind("full-auto"@)) == theme.colors.error@,
        policy_icon(theme.name@, policy_kind("ask"@)) == policy_icon(
            theme.name@,
            policy_kind("suggest"@),
        ),
        policy_color(theme, policy_kind("ask"@)) == theme.colors.accent@,
        policy_color(theme, policy_kind("suggest"@)) == theme.colors.accent@,
        policy_color(theme, policy_kind("on-request"@)) == theme.colors.warning@,
        forall|p: Seq<char>|
            p != "full-auto"@ && p != "auto"@ && p != "suggest"@ && p != "ask"@ ==> policy_color(
                theme,
                #[trigger] policy_kind(p),
            ) == theme.colors.warning@ && policy_icon(theme.name@, policy_kind(p)) == policy_icon(
                theme.name@,
                policy_kind("on-request"@),
            ),
        theme.name@ != "minimal"@ ==> policy_icon(theme.name@, policy_kind("auto"@)) != policy_icon(
            theme.name@,
            policy_kind("on-request"@),
        ) && policy_icon(theme.name@, policy_kind("auto"@)) != policy_icon(
            theme.name@,
            policy_kind("ask"@),
        ),
{
    reveal_strlit("auto");
    reveal_strlit("full-auto");
    reveal_strlit("ask");
    reveal_strlit("suggest");
    reveal_strlit("on-request");
    reveal_strlit("\u{f09c} ");
    reveal_strlit("\u{f00c} ");
    reveal_strlit("\u{f023} ");
    reveal_strlit("\u{1f513} ");
    reveal_strlit("\u{2705} ");
    reveal_strlit("\u{26a1} ");
    assert("ask"@.len() != "full-auto"@.len() && "ask"@.len() != "auto"@.len());
    assert("on-request"@.len() != "full-auto"@.len() && "on-request"@.len() != "auto"@.len());
    assert("on-request"@.len() != "suggest"@.len() && "on-request"@.len() != "ask"@.len());
    assert("suggest"@.len() != "full-auto"@.len() && "suggest"@.len() != "auto"@.len());
    assert("\u{f09c} "@[0] != "\u{f023} "@[0] && "\u{f09c} "@[0] != "\u{f00c} "@[0]);
    assert("\u{1f513} "@[0] != "\u{26a1} "@[0] && "\u{1f513} "@[0] != "\u{2705} "@[0]);
}

/// What `render` gives: the segment, or nothing when its data is missing.
pub open spec fn permission_output(data: SessionData, theme: Theme, r: Option<Seq<char>>) -> bool {
    match data.permission {
        None => r is None,
        Some(p) => r is Some && is_segment(
            r->0,
            policy_icon(theme.name@, policy_kind(p@)),
            p@,
            policy_color(theme, policy_kind(p@)),
        ),
    }
}

impl PermissionModule {
    pub fn name(&self) -> (r: &'static str)
        ensures
            r@ == "permission"@,
    {
        "permission"
    }

    /// The policy, after the icon of its kind, in the color of its kind.
    pub fn render(&self, data: &SessionData, theme: &Theme) -> (r: Option<String>)
        ensures
            permission_output(*data, *theme, opt_text(r)),
    {
        match &data.permission {
            None => None,
            Some(p) => {
                let ps = p.as_str();
                let kind: u8 = if str_eq(ps, "full-auto") || str_eq(ps, "auto") {
                    0
                } else if str_eq(ps, "suggest") || str_eq(ps, "ask") {
                    1
                } else {
                    2
                };
                let icon = icon_for(theme.name.as_str(), kind);
                let color = if kind == 0 {
                    theme.colors.error.as_str()
                } else if kind == 1 {
                    theme.colors.accent.as_str()
                } else {
                    theme.colors.warning.as_str()
                };
                Some(segment(icon, ps, color))
            },
        }
    }
}

} // verus!
