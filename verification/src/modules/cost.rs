use vstd::prelude::*;
use crate::text::opt_text;
use crate::modules::{is_segment, segment};
use crate::parser::SessionData;
use crate::binary64::{less, less_b64, round64, to_binary64, Binary64};
use crate::fixed::{fixed_text, push_fixed};
use crate::text::{push_str, str_eq, text};
use crate::theme::Theme;

verus! {

/// Shows the session's cost in a currency.
pub struct CostModule {
    pub currency: String,
}

impl Default for CostModule {
    fn default() -> (r: Self)
        ensures
            r.currency@ == "USD"@,
    {
        CostModule { currency: text("USD") }
    }
}

/// The currency symbol: `¥` for CNY, else `$`.
pub open spec fn currency_symbol(currency: Seq<char>) -> Seq<char> {
    if currency == "CNY"@ {
        seq!['\u{a5}']
    } else {
        seq!['$']
    }
}

/// Whether the amount is below one cent: negative, or smaller than the
/// binary64 number nearest to `0.01`.
pub open spec fn below_cent(x: Binary64) -> bool {
    x.is_negative() || less((x.significand(), x.exponent()), round64(1, 100, 0))
}

/// The amount as shown: four decimals below one cent, else two.
pub open spec fn amount_text(x: Binary64) -> Seq<char> {
    if below_cent(x) {
        fixed_text(x, 4)
    } else {
        fixed_text(x, 2)
    }
}

/// The amount with the decimals it is shown with.
pub fn format_amount(x: Binary64) -> (r: String)
    ensures
        r@ == amount_text(x),
{
    let (negative, sig, exp) = x.parts();
    let cent = to_binary64(1, 100, 0);
    let below = negative || less_b64((sig, exp), cent);
    let mut r = String::new();
    if below {
        push_fixed(&mut r, &x, 4);
    } else {
        push_fixed(&mut r, &x, 2);
    }
    assert(r@ =~= amount_text(x));
    r
}

/// What `render` gives: the segment, or nothing when its data is missing.
pub open spec fn cost_output(m: CostModule, data: SessionData, theme: Theme, r: Option<Seq<char>>) -> bool {
    match data.cost {
        Some(c) => match c.total {
            Some(amount) => r is Some && is_segment(
                r->0,
                theme.icons.cost@,
                currency_symbol(m.currency@) + amount_text(amount),
                theme.colors.accent@,
            ),
            None => r is None,
        },
        None => r is None,
    }
}

impl CostModule {
    pub fn name(&self) -> (r: &'static str)
        ensures
            r@ == "cost"@,
    {
        "cost"
    }

    /// The amount after the currency symbol, after the cost icon, in the accent color.
    pub fn render(&self, data: &SessionData, theme: &Theme) -> (r: Option<String>)
        ensures
            cost_output(*self, *data, *theme, opt_text(r)),
    {
        match &data.cost {
            None => None,
            Some(c) => match &c.total {
                None => None,
                Some(amount) => {
                    let mut t = if str_eq(self.currency.as_str(), "CNY") {
                        text("\u{a5}")
                    } else {
                        text("$")
                    };
                    proof {
                        reveal_strlit("\u{a5}");
                        reveal_strlit("$");
                    }
                    assert(t@ == currency_symbol(self.currency@));
                    let a = format_amount(*amount);
                    push_str(&mut t, a.as_str());
                    Some(segment(theme.icons.cost, t.as_str(), theme.colors.accent.as_str()))
                },
            },
        }
    }
}

} // verus!
