//! The token module's numbers, held against the same computations done
//! with the machine's own `f64` arithmetic and formatting.

use cxline::binary64::Binary64;
use cxline::modules::cost::format_amount;
use cxline::modules::tokens::{format_count, format_percent, TokensModule};
use cxline::parser::{SessionData, TokenUsage};
use cxline::style::{apply_color, progress_bar, usage_ratio_of};
use cxline::theme::Theme;

fn count_by_f64(n: u64) -> String {
    if n >= 1_000_000 {
        format!("{:.1}M", n as f64 / 1_000_000.0)
    } else if n >= 1_000 {
        format!("{:.1}k", n as f64 / 1_000.0)
    } else {
        n.to_string()
    }
}

fn ratio_by_f64(used: u64, total: u64) -> f64 {
    if total > 0 {
        (used as f64 / total as f64).min(1.0)
    } else {
        0.0
    }
}

fn percent_by_f64(used: u64, total: u64) -> String {
    let pct = ratio_by_f64(used, total) * 100.0;
    if pct < 10.0 {
        format!("{:.1}%", pct)
    } else {
        format!("{:.0}%", pct)
    }
}

fn bar_of_f64(ratio: f64, width: usize) -> String {
    let filled = (ratio * width as f64).round() as usize;
    let empty = width.saturating_sub(filled);
    format!("{}{}", "\u{2588}".repeat(filled), "\u{2591}".repeat(empty))
}

fn bar_by_f64(used: u64, total: u64, width: usize) -> String {
    bar_of_f64(ratio_by_f64(used, total), width)
}

/// A fixed stream of numbers of every size.
struct Numbers(u64);

impl Numbers {
    fn next(&mut self) -> u64 {
        self.0 = self.0.wrapping_mul(6364136223846793005).wrapping_add(1442695040888963407);
        let x = self.0 ^ (self.0 >> 29);
        x >> ((self.0 >> 58) as u32)
    }
}

#[test]
fn counts_agree_with_f64_below_a_hundred_thousand() {
    for n in 0..100_000u64 {
        assert_eq!(format_count(n), count_by_f64(n), "n = {}", n);
    }
}

#[test]
fn counts_agree_with_f64_at_halves() {
    for k in 0..200_000u64 {
        let n = 1_000_000 + k * 50;
        assert_eq!(format_count(n), count_by_f64(n), "n = {}", n);
        let n = k * 50_000 + 50_000;
        assert_eq!(format_count(n), count_by_f64(n), "n = {}", n);
    }
}

#[test]
fn counts_agree_with_f64_everywhere() {
    let mut g = Numbers(7);
    for _ in 0..200_000 {
        let n = g.next();
        assert_eq!(format_count(n), count_by_f64(n), "n = {}", n);
    }
    for n in [u64::MAX, u64::MAX - 1, 1 << 53, (1 << 53) + 1, (1 << 63) + 1, 999_999, 9_999_950] {
        assert_eq!(format_count(n), count_by_f64(n), "n = {}", n);
    }
}

#[test]
fn ties_follow_the_binary_value() {
    assert_eq!(format_count(1050), "1.1k");
    assert_eq!(format_count(1150), "1.1k");
    assert_eq!(format_count(1250), "1.2k");
    assert_eq!(format_count(2_350_000), "2.4M");
}

#[test]
fn percents_agree_with_f64() {
    for used in 0..300u64 {
        for total in 0..300u64 {
            assert_eq!(format_percent(used, total), percent_by_f64(used, total), "{}/{}", used, total);
        }
    }
    let mut g = Numbers(11);
    for _ in 0..100_000 {
        let total = g.next();
        let used = if total > 0 && g.next() % 2 == 0 { g.next() % total } else { g.next() };
        assert_eq!(format_percent(used, total), percent_by_f64(used, total), "{}/{}", used, total);
    }
}

#[test]
fn bars_agree_with_f64() {
    let mut g = Numbers(13);
    for _ in 0..50_000 {
        let total = g.next() % 100_000;
        let used = g.next() % (total + 2);
        let width = (g.next() % 60) as usize;
        assert_eq!(progress_bar(&usage_ratio_of(used, total), width), bar_by_f64(used, total, width), "{}/{} in {}", used, total, width);
    }
    for width in 0..200usize {
        for used in 0..=40u64 {
            assert_eq!(progress_bar(&usage_ratio_of(used, 40), width), bar_by_f64(used, 40, width));
        }
    }
}

fn percent_color(used: u64, total: u64, theme: &Theme) -> String {
    let r = ratio_by_f64(used, total);
    if r > 0.9 {
        theme.colors.error.clone()
    } else if r > 0.7 {
        theme.colors.warning.clone()
    } else {
        theme.colors.accent.clone()
    }
}

#[test]
fn usage_colors_agree_with_f64() {
    colored::control::set_override(true);
    let theme = Theme::from_name("default", None, None);
    let module = TokensModule::default();
    let cases = [
        (9u64, 10u64),
        (7, 10),
        (900_000_001, 1_000_000_000),
        (700_000_001, 1_000_000_000),
        (899_999_999, 1_000_000_000),
        (5, 10),
        (10, 10),
        (20, 10),
        (0, 0),
        (63, 70),
        (7_000_000_000_000_001, 10_000_000_000_000_000),
    ];
    for (used, total) in cases {
        let data = SessionData {
            token_usage: Some(TokenUsage {
                used: Some(used),
                total: Some(total),
                input: None,
                output: None,
                cached: None,
                reasoning: None,
            }),
            ..SessionData::default()
        };
        let line = module.render(&data, &theme).unwrap();
        let pct = apply_color(&percent_by_f64(used, total), &percent_color(used, total, &theme));
        let start = &pct[..pct.len() - 4];
        assert!(line.contains(start), "{}/{}: {:?} in {:?}", used, total, start, line);
    }
    colored::control::set_override(false);
}

fn amount_by_f64(total: f64) -> String {
    if total < 0.01 {
        format!("{:.4}", total)
    } else {
        format!("{:.2}", total)
    }
}

fn amount(total: f64) -> String {
    format_amount(Binary64::from_bits(total.to_bits()).unwrap())
}

#[test]
fn amounts_agree_with_f64() {
    let fixed = [
        0.42, 0.0, -0.0, 0.01, 0.009999, 0.00995, 0.00005, 0.000049999, 0.125, 0.375, 2.675, 1.005,
        1e-300, 5e-324, 123456.785, 1e21, 1e300, f64::MAX, f64::MIN_POSITIVE, -0.42, -1e-7, -3.5,
        9007199254740993.0, 0.015, 0.045,
    ];
    for t in fixed {
        assert_eq!(amount(t), amount_by_f64(t), "{:e}", t);
    }
    let mut g = Numbers(17);
    for _ in 0..20_000 {
        let t = f64::from_bits(g.next() | (g.next() << 32));
        if t.is_finite() {
            assert_eq!(amount(t), amount_by_f64(t), "{:e}", t);
        }
    }
    for k in 0..20_000u64 {
        let t = k as f64 / 1000.0;
        assert_eq!(amount(t), amount_by_f64(t), "{}", t);
        let t = k as f64 * 0.00005;
        assert_eq!(amount(t), amount_by_f64(t), "{}", t);
    }
}

#[test]
fn bit_patterns_decode_to_finite_numbers_only() {
    assert!(Binary64::from_bits(f64::INFINITY.to_bits()).is_none());
    assert!(Binary64::from_bits(f64::NEG_INFINITY.to_bits()).is_none());
    assert!(Binary64::from_bits(f64::NAN.to_bits()).is_none());
    assert!(Binary64::from_bits(1.5f64.to_bits()).is_some());
}

#[test]
fn bars_of_any_share_agree_with_f64() {
    let mut g = Numbers(19);
    for _ in 0..50_000 {
        let ratio = (g.next() % 4_000_001) as f64 / 1_000_000.0 - 1.0;
        let width = (g.next() % 80) as usize;
        let share = Binary64::from_bits(ratio.to_bits()).unwrap();
        assert_eq!(progress_bar(&share, width), bar_of_f64(ratio, width), "{} in {}", ratio, width);
    }
    for ratio in [0.0f64, -0.0, 0.05, 0.15, 0.25, 0.35, 0.45, 1.0 / 3.0, 2.0 / 3.0, 1e-300, 5e-324, 1.25] {
        for width in 0..100usize {
            let share = Binary64::from_bits(ratio.to_bits()).unwrap();
            assert_eq!(progress_bar(&share, width), bar_of_f64(ratio, width), "{} in {}", ratio, width);
        }
    }
}
