use vstd::prelude::*;
use crate::text::opt_text;
use crate::modules::{is_segment, segment};
use crate::parser::SessionData;
use crate::text::{decimal, push_decimal, text};
use crate::theme::Theme;

verus! {

/// Shows the number of the current turn.
pub struct TurnsModule;

/// `Turn n`.
pub open spec fn turn_text(n: nat) -> Seq<char> {
    seq!['T', 'u', 'r', 'n', ' '] + decimal(n)
}

/// What `render` gives: the segment, or nothing when its data is missing.
pub open spec fn turns_output(data: SessionData, theme: Theme, r: Option<Seq<char>>) -> bool {
    match data.turn {
        None => r is None,
        Some(n) => r is Some && is_segment(
            r->0,
            theme.icons.turns@,
            turn_text(n as nat),
            theme.colors.secondary@,
        ),
    }
}

impl TurnsModule {
    pub fn name(&self) -> (r: &'static str)
        ensures
            r@ == "turns"@,
    {
        "turns"
    }

    /// `Turn n`, after the turns icon, in the secondary color.
    pub fn render(&self, data: &SessionData, theme: &Theme) -> (r: Option<String>)
        ensures
            turns_output(*data, *theme, opt_text(r)),
    {
        match data.turn {
            None => None,
            Some(n) => {
                let mut t = text("Turn ");
                proof {
                    reveal_strlit("Turn ");
                }
                push_decimal(&mut t, (n as u64) as u128);
                assert(t@ == turn_text(n as nat));
                Some(segment(theme.icons.turns, t.as_str(), theme.colors.secondary.as_str()))
            },
        }
    }
}

} // verus!
