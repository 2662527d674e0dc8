use vstd::prelude::*;
use crate::text::{str_eq, text};

verus! {

/// The five colors of a theme, each a color name (see `style::ansi_code`).
pub struct ThemeColors {
    pub primary: String,
    pub secondary: String,
    pub accent: String,
    pub warning: String,
    pub error: String,
}

/// A theme: its name, colors, per-module icons and the separator between segments.
pub struct Theme {
    pub name: String,
    pub colors: ThemeColors,
    pub icons: ThemeIcons,
    pub separator: String,
}

/// The icon written in front of each module's segment.
pub struct ThemeIcons {
    pub model: &'static str,
    pub tokens: &'static str,
    pub cost: &'static str,
    pub timer: &'static str,
    pub git: &'static str,
    pub turns: &'static str,
}

impl ThemeColors {
    /// The default palette: cyan, white, green, yellow, red.
    pub open spec fn is_default_palette(&self) -> bool {
        &&& self.primary@ == "cyan"@
        &&& self.secondary@ == "white"@
        &&& self.accent@ == "green"@
        &&& self.warning@ == "yellow"@
        &&& self.error@ == "red"@
    }
}

impl Default for ThemeColors {
    fn default() -> (r: Self)
        ensures
            r.is_default_palette(),
    {
        ThemeColors {
            primary: text("cyan"),
            secondary: text("white"),
            accent: text("green"),
            warning: text("yellow"),
            error: text("red"),
        }
    }
}

/// The three built-in themes.
pub enum ThemeStyle {
    Default,
    Minimal,
    Powerline,
}

/// The theme that a name selects: `minimal`, `powerline`, or else `default`.
pub open spec fn theme_style(name: Seq<char>) -> ThemeStyle {
    if name == "minimal"@ {
        ThemeStyle::Minimal
    } else if name == "powerline"@ {
        ThemeStyle::Powerline
    } else {
        ThemeStyle::Default
    }
}

/// The name of a built-in theme.
pub open spec fn style_name(style: ThemeStyle) -> Seq<char> {
    match style {
        ThemeStyle::Minimal => "minimal"@,
        ThemeStyle::Powerline => "powerline"@,
        ThemeStyle::Default => "default"@,
    }
}

/// The icons of a built-in theme.
pub open spec fn icons_of(style: ThemeStyle) -> ThemeIcons {
    match style {
        ThemeStyle::Minimal => ThemeIcons {
            model: "",
            tokens: "",
            cost: "$",
            timer: "",
            git: "",
            turns: "",
        },
        ThemeStyle::Powerline => ThemeIcons {
            model: "\u{f121} ",
            tokens: "\u{f1fe} ",
            cost: "\u{f155} ",
            timer: "\u{f017} ",
            git: "\u{e725} ",
            turns: "\u{f01e} ",
        },
        ThemeStyle::Default => ThemeIcons {
            model: "\u{1f916} ",
            tokens: "\u{1f4ca} ",
            cost: "\u{1f4b0} ",
            timer: "\u{23f1}\u{fe0f}  ",
            git: "\u{1f33f} ",
            turns: "\u{1f504} ",
        },
    }
}

/// The separator of a built-in theme when none is configured.
pub open spec fn default_separator(style: ThemeStyle) -> Seq<char> {
    match style {
        ThemeStyle::Minimal => " | "@,
        ThemeStyle::Powerline => " \u{e0b1} "@,
        ThemeStyle::Default => " \u{2502} "@,
    }
}

impl Theme {
    /// The theme called `name` (`minimal`, `powerline`, anything else is
    /// `default`), with the given colors or the default palette, and the given
    /// separator or the theme's own.
    pub fn from_name(name: &str, colors: Option<ThemeColors>, separator: Option<String>) -> (r:
        Theme)
        ensures
            r.name@ == style_name(theme_style(name@)),
            r.icons == icons_of(theme_style(name@)),
            match colors {
                Some(c) => r.colors == c,
                None => r.colors.is_default_palette(),
            },
            r.separator@ == match separator {
                Some(s) => s@,
                None => default_separator(theme_style(name@)),
            },
    {
        let colors = match colors {
            Some(c) => c,
            None => ThemeColors::default(),
        };
        if str_eq(name, "minimal") {
            Theme {
                name: text("minimal"),
                colors,
                icons: ThemeIcons { model: "", tokens: "", cost: "$", timer: "", git: "", turns: "" },
                separator: match separator {
                    Some(s) => s,
                    None => text(" | "),
                },
            }
        } else if str_eq(name, "powerline") {
            Theme {
                name: text("powerline"),
                colors,
                icons: ThemeIcons {
                    model: "\u{f121} ",
                    tokens: "\u{f1fe} ",
                    cost: "\u{f155} ",
                    timer: "\u{f017} ",
                    git: "\u{e725} ",
                    turns: "\u{f01e} ",
                },
                separator: match separator {
                    Some(s) => s,
                    None => text(" \u{e0b1} "),
                },
            }
        } else {
            Theme {
                name: text("default"),
                colors,
                icons: ThemeIcons {
                    model: "\u{1f916} ",
                    tokens: "\u{1f4ca} ",
                    cost: "\u{1f4b0} ",
                    timer: "\u{23f1}\u{fe0f}  ",
                    git: "\u{1f33f} ",
                    turns: "\u{1f504} ",
                },
                separator: match separator {
                    Some(s) => s,
                    None => text(" \u{2502} "),
                },
            }
        }
    }
}

} // verus!
