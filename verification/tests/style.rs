use cxline::binary64::Binary64;
use cxline::style::{apply_color, progress_bar, strip_ansi, truncate_ansi, usage_ratio_of, visible_len};
use cxline::theme::Theme;

fn share(x: f64) -> Binary64 {
    Binary64::from_bits(x.to_bits()).unwrap()
}

#[test]
fn escape_sequences_are_not_visible() {
    let s = "\x1b[31mred\x1b[0m and plain";
    assert_eq!(strip_ansi(s), "red and plain");
    assert_eq!(visible_len(s), 13);
    assert_eq!(strip_ansi(&strip_ansi(s)), strip_ansi(s));
}

#[test]
fn truncation_keeps_the_visible_prefix() {
    let s = "\x1b[36mabcdef\x1b[0m";
    let t = truncate_ansi(s, 3);
    assert_eq!(t, "\x1b[36mabc\x1b[0m");
    assert_eq!(strip_ansi(&t), "abc");
    assert_eq!(truncate_ansi("ab", 5), "ab");
    assert_eq!(truncate_ansi("ab", 2), "ab\x1b[0m");
    assert_eq!(truncate_ansi("", 0), "\x1b[0m");
}

#[test]
fn coloring_keeps_the_text_visible() {
    for color in ["red", "bright_cyan", "unknown"] {
        let c = apply_color("hello", color);
        assert_eq!(strip_ansi(&c), "hello");
    }
    assert_eq!(apply_color("x", "nope"), "x");
}

#[test]
fn bars_round_half_away_from_zero() {
    assert_eq!(progress_bar(&share(0.5), 3), "\u{2588}\u{2588}\u{2591}");
    assert_eq!(progress_bar(&share(0.0), 2), "\u{2591}\u{2591}");
    assert_eq!(progress_bar(&share(1.0), 2), "\u{2588}\u{2588}");
    assert_eq!(progress_bar(&share(0.25), 2), "\u{2588}\u{2591}");
    assert_eq!(progress_bar(&share(-0.5), 2), "\u{2591}\u{2591}");
    assert_eq!(progress_bar(&share(1.5), 2), "\u{2588}\u{2588}\u{2588}");
    assert_eq!(progress_bar(&usage_ratio_of(1, 2), 3), "\u{2588}\u{2588}\u{2591}");
    assert_eq!(progress_bar(&usage_ratio_of(5, 0), 2), "\u{2591}\u{2591}");
    assert_eq!(progress_bar(&usage_ratio_of(9, 3), 2), "\u{2588}\u{2588}");
}

#[test]
fn themes_by_name() {
    let t = Theme::from_name("powerline", None, Some(" / ".to_string()));
    assert_eq!(t.name, "powerline");
    assert_eq!(t.separator, " / ");
    let d = Theme::from_name("whatever", None, None);
    assert_eq!(d.name, "default");
    assert_eq!(d.separator, " \u{2502} ");
    assert_eq!(d.colors.primary, "cyan");
    let m = Theme::from_name("minimal", None, None);
    assert_eq!(m.icons.cost, "$");
    assert_eq!(m.separator, " | ");
}

#[test]
fn forced_colors_wrap_the_text_in_escapes() {
    colored::control::set_override(true);
    assert_eq!(apply_color("hello", "red"), "\x1b[31mhello\x1b[0m");
    assert_eq!(apply_color("hi", "bright_magenta"), "\x1b[95mhi\x1b[0m");
    assert_eq!(apply_color("a\x1b[0mb", "green"), "\x1b[32ma\x1b[0m\x1b[32mb\x1b[0m");
    assert_eq!(apply_color("plain", "purple"), "plain");
    assert_eq!(strip_ansi(&apply_color("hello", "cyan")), "hello");
    colored::control::set_override(false);
    assert_eq!(apply_color("hello", "red"), "hello");
}
