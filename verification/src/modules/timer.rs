use vstd::prelude::*;
use crate::binary64::{whole_part, Binary64};
use crate::text::opt_text;
use crate::modules::{is_segment, segment};
use crate::parser::SessionData;
use crate::text::{decimal, push_char, push_decimal};
use crate::theme::Theme;

verus! {

/// Shows how long the session has run.
pub struct TimerModule;

/// `seconds` as `1h1m1s`, `5m23s` or `5s`: hours and minutes only when present.
pub open spec fn duration_text(seconds: nat) -> Seq<char> {
    let h = seconds / 3600;
    let m = (seconds % 3600) / 60;
    let s = seconds % 60;
    if h > 0 {
        decimal(h) + seq!['h'] + decimal(m) + seq!['m'] + decimal(s) + seq!['s']
    } else if m > 0 {
        decimal(m) + seq!['m'] + decimal(s) + seq!['s']
    } else {
        decimal(s) + seq!['s']
    }
}

/// Hours, minutes and seconds written as `1h1m1s`, `5m23s` or `5s`: hours
/// only when there are some, minutes only when there are hours or minutes.
pub open spec fn parts_text(h: nat, m: nat, s: nat) -> Seq<char> {
    if h > 0 {
        decimal(h) + seq!['h'] + decimal(m) + seq!['m'] + decimal(s) + seq!['s']
    } else if m > 0 {
        decimal(m) + seq!['m'] + decimal(s) + seq!['s']
    } else {
        decimal(s) + seq!['s']
    }
}

/// The parts shown add up to the whole duration: `duration_text(n)` writes
/// `h` hours, `m` minutes under an hour and `s` seconds under a minute that
/// make `n` seconds together.
pub proof fn law_duration_parts(n: nat)
    ensures
        exists|h: nat, m: nat, s: nat|
            h * 3600 + m * 60 + s == n && m < 60 && s < 60 && duration_text(n) == #[trigger] parts_text(
                h,
                m,
                s,
            ),
{
    let h = n / 3600;
    let m = (n % 3600) / 60;
    let s = n % 60;
    assert(h * 3600 + m * 60 + s == n && m < 60 && s < 60) by (nonlinear_arith)
        requires
            h == n / 3600,
            m == (n % 3600) / 60,
            s == n % 60,
    ;
    assert(duration_text(n) == parts_text(h, m, s));
}

/// A duration in seconds, written as hours, minutes and whole seconds (the
/// seconds cast to `u64`, which drops the fraction).
pub fn format_duration(seconds: Binary64) -> (r: String)
    ensures
        r@ == duration_text(whole_part(seconds)),
{
    let seconds = seconds.as_u64();
    let hours = seconds / 3600;
    let minutes = (seconds % 3600) / 60;
    let secs = seconds % 60;
    let mut r = String::new();
    if hours > 0 {
        push_decimal(&mut r, hours as u128);
        push_char(&mut r, 'h');
        push_decimal(&mut r, minutes as u128);
        push_char(&mut r, 'm');
    } else if minutes > 0 {
        push_decimal(&mut r, minutes as u128);
        push_char(&mut r, 'm');
    }
    push_decimal(&mut r, secs as u128);
    push_char(&mut r, 's');
    proof {
        let h = decimal(hours as nat);
        let m = decimal(minutes as nat);
        let s = decimal(secs as nat);
        if hours > 0 {
            assert(r@ =~= h + seq!['h'] + m + seq!['m'] + s + seq!['s']);
        } else if minutes > 0 {
            assert(r@ =~= m + seq!['m'] + s + seq!['s']);
        } else {
            assert(r@ =~= s + seq!['s']);
        }
    }
    r
}

/// What `render` gives: the segment, or nothing when its data is missing.
pub open spec fn timer_output(data: SessionData, theme: Theme, r: Option<Seq<char>>) -> bool {
    match data.elapsed_seconds {
        None => r is None,
        Some(s) => r is Some && is_segment(
            r->0,
            theme.icons.timer@,
            duration_text(whole_part(s)),
            theme.colors.secondary@,
        ),
    }
}

impl TimerModule {
    pub fn name(&self) -> (r: &'static str)
        ensures
            r@ == "timer"@,
    {
        "timer"
    }

    /// The elapsed time, after the timer icon, in the secondary color.
    pub fn render(&self, data: &SessionData, theme: &Theme) -> (r: Option<String>)
        ensures
            timer_output(*data, *theme, opt_text(r)),
    {
        match data.elapsed_seconds {
            None => None,
            Some(s) => {
                let t = format_duration(s);
                Some(segment(theme.icons.timer, t.as_str(), theme.colors.secondary.as_str()))
            },
        }
    }
}

} // verus!
