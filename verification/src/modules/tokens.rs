use vstd::prelude::*;
use crate::text::opt_text;
use crate::parser::{SessionData, TokenUsage};
use crate::binary64::{
    at_most, div64, div_b64, from_nat, from_u64, lemma_from_nat_at_most, lemma_mul_at_most,
    lemma_p2_pos, lemma_p2_values, lemma_round64_at_most, lemma_scale_lower,
    lemma_scaled_round_at_most, less, less_b64, mul64, mul_b64, p2, round64, scaled_round,
    to_binary64,
};
use crate::fixed::{fixed_parts_text, push_fixed_parts};
use crate::style::{
    apply_color, bar_text, color_result, lemma_ratio_at_most_one, progress_bar, usage_cells,
    usage_ratio, usage_ratio_b64, usage_ratio_of,
};
use crate::text::{decimal, join, join_strings, push_char, push_decimal, push_str, text, texts};
use crate::theme::Theme;

verus! {

/// Shows token usage: used and total, the share of the context window,
/// optionally a bar and a breakdown.
pub struct TokensModule {
    pub show_bar: bool,
    pub bar_width: usize,
    pub show_detail: bool,
}

impl Default for TokensModule {
    fn default() -> (r: Self)
        ensures
            !r.show_bar && r.bar_width == 10 && !r.show_detail,
    {
        TokensModule { show_bar: false, bar_width: 10, show_detail: false }
    }
}

/// A nonnegative binary64 number with `d` decimals (`{:.d}`).
pub open spec fn with_decimals(x: (nat, int), d: nat) -> Seq<char> {
    fixed_parts_text(false, x.0, x.1, d)
}

/// A token count, short: `500`, `12.5k`, `1.5M`: the count in thousands or
/// millions, divided in binary64 arithmetic and written with one decimal.
pub open spec fn count_text(n: nat) -> Seq<char> {
    if n >= 1_000_000 {
        with_decimals(div64(from_nat(n), from_nat(1_000_000)), 1) + seq!['M']
    } else if n >= 1000 {
        with_decimals(div64(from_nat(n), from_nat(1000)), 1) + seq!['k']
    } else {
        decimal(n)
    }
}

/// The used share of the context window in percent: `ratio * 100.0` in
/// binary64 arithmetic.
pub open spec fn percent_of(used: nat, total: nat) -> (nat, int) {
    mul64(usage_ratio(used, total), from_nat(100))
}

/// The percentage as shown: one decimal below ten percent, none from there.
pub open spec fn percent_text(used: nat, total: nat) -> Seq<char> {
    let p = percent_of(used, total);
    if less(p, from_nat(10)) {
        with_decimals(p, 1) + seq!['%']
    } else {
        with_decimals(p, 0) + seq!['%']
    }
}

/// The share shown in percent never exceeds 100: the percentage is at most
/// 100, and so is the whole number printed for it (and the tenths, 1000).
pub proof fn law_percent_at_most_hundred(used: nat, total: nat)
    ensures
        at_most(percent_of(used, total), 100),
        scaled_round(percent_of(used, total), 1) <= 100,
        scaled_round(percent_of(used, total), 10) <= 1000,
{
    lemma_p2_values();
    let r = usage_ratio(used, total);
    let h = from_nat(100);
    lemma_ratio_at_most_one(used, total);
    lemma_from_nat_at_most(100);
    lemma_mul_at_most(r, h, 100);
    lemma_round64_at_most(r.0 * h.0, 1, r.1 + h.1, 100);
    lemma_scaled_round_at_most(percent_of(used, total), 100, 1);
    lemma_scaled_round_at_most(percent_of(used, total), 100, 10);
}

/// The color of the usage: error when the used share is above `0.9`,
/// warning above `0.7`, else accent (the constants being the binary64
/// numbers nearest to nine and seven tenths).
pub open spec fn usage_color(theme: Theme, used: nat, total: nat) -> Seq<char> {
    if less(round64(9, 10, 0), usage_ratio(used, total)) {
        theme.colors.error@
    } else if less(round64(7, 10, 0), usage_ratio(used, total)) {
        theme.colors.warning@
    } else {
        theme.colors.accent@
    }
}

/// `label` followed by the count `n`, when it is there.
pub open spec fn detail_item(label: Seq<char>, n: Option<u64>, only_positive: bool) -> Seq<
    Seq<char>,
> {
    match n {
        Some(v) => if only_positive && v == 0 {
            Seq::empty()
        } else {
            seq![label + count_text(v as nat)]
        },
        None => Seq::empty(),
    }
}

/// The breakdown: input and output counts, cached and reasoning counts when not zero.
pub open spec fn detail_items(u: TokenUsage) -> Seq<Seq<char>> {
    detail_item(seq!['i', 'n', ':'], u.input, false) + detail_item(
        seq!['o', 'u', 't', ':'],
        u.output,
        false,
    ) + detail_item(seq!['c', 'a', 'c', 'h', 'e', ':'], u.cached, true) + detail_item(
        seq!['r', 'e', 'a', 's', 'o', 'n', ':'],
        u.reasoning,
        true,
    )
}

/// The token segment before its outer color, `bar` and `pct` being the bar
/// and the percentage as they were colored.
pub open spec fn tokens_line(
    m: TokensModule,
    u: TokenUsage,
    used: u64,
    icon: Seq<char>,
    bar: Seq<char>,
    pct: Seq<char>,
) -> Seq<char> {
    let base = icon + count_text(used as nat) + match u.total {
        Some(t) => seq!['/'] + count_text(t as nat),
        None => Seq::empty(),
    };
    let a = if m.show_bar && u.total is Some {
        base + seq![' '] + bar
    } else {
        base
    };
    let b = if u.total is Some {
        a + seq![' '] + pct
    } else {
        a
    };
    let d = detail_items(u);
    if m.show_detail && d.len() > 0 {
        b + seq![' '] + join(d, seq![' '])
    } else {
        b
    }
}

/// Whether the module draws a bar for `data`: bars are on and the used
/// tokens and the context window are known.
pub open spec fn draws_bar(m: TokensModule, data: SessionData) -> bool {
    &&& m.show_bar
    &&& data.token_usage matches Some(u)
    &&& u.used is Some
    &&& u.total is Some
}

/// `n` divided by `d` in binary64, for `d` one of the two unit sizes.
fn per_unit(n: u64, d: u64) -> (r: (u64, i64))
    requires
        d == 1000 || d == 1_000_000,
    ensures
        (r.0 as nat, r.1 as int) == div64(from_nat(n as nat), from_nat(d as nat)),
        r.0 <= p2(53),
        -1074 <= r.1 <= 13,
{
    let x = from_u64(n);
    let y = from_u64(d);
    div_b64(x, y)
}

/// A token count, short: `500`, `12.5k`, `1.5M`.
pub fn format_count(n: u64) -> (r: String)
    ensures
        r@ == count_text(n as nat),
{
    let mut r = String::new();
    if n >= 1_000_000 {
        let x = per_unit(n, 1_000_000);
        push_fixed_parts(&mut r, false, x.0, x.1, 1);
        push_char(&mut r, 'M');
    } else if n >= 1000 {
        let x = per_unit(n, 1000);
        push_fixed_parts(&mut r, false, x.0, x.1, 1);
        push_char(&mut r, 'k');
    } else {
        push_decimal(&mut r, n as u128);
    }
    assert(r@ =~= count_text(n as nat));
    r
}

/// The used share of the context window, in percent.
pub fn format_percent(used: u64, total: u64) -> (r: String)
    ensures
        r@ == percent_text(used as nat, total as nat),
{
    let q = usage_ratio_b64(used, total);
    let hundred = from_u64(100);
    proof {
        lemma_p2_values();
        lemma_p2_pos(0);
        lemma_scale_lower(100, 1, -hundred.1, 7, 0);
    }
    let p = mul_b64(q, hundred);
    let ten = from_u64(10);
    let mut r = String::new();
    if less_b64(p, ten) {
        push_fixed_parts(&mut r, false, p.0, p.1, 1);
    } else {
        push_fixed_parts(&mut r, false, p.0, p.1, 0);
    }
    push_char(&mut r, '%');
    assert(r@ =~= percent_text(used as nat, total as nat));
    r
}

fn push_detail(items: &mut Vec<String>, label: &str, n: Option<u64>, only_positive: bool)
    ensures
        texts(final(items)@) == texts(old(items)@) + detail_item(label@, n, only_positive),
{
    match n {
        Some(v) => {
            if !(only_positive && v == 0) {
                let mut s = text(label);
                let c = format_count(v);
                push_str(&mut s, c.as_str());
                items.push(s);
                assert(texts(items@) =~= texts(old(items)@) + detail_item(label@, n, only_positive));
            } else {
                assert(texts(items@) =~= texts(old(items)@) + detail_item(label@, n, only_positive));
            }
        },
        None => {
            assert(texts(items@) =~= texts(old(items)@) + detail_item(label@, n, only_positive));
        },
    }
}

/// The breakdown of a usage, each item a label and a count.
pub fn token_details(u: &TokenUsage) -> (r: Vec<String>)
    ensures
        texts(r@) == detail_items(*u),
{
    let mut items: Vec<String> = Vec::new();
    proof {
        reveal_strlit("in:");
        reveal_strlit("out:");
        reveal_strlit("cache:");
        reveal_strlit("reason:");
    }
    assert("in:"@ =~= seq!['i', 'n', ':']);
    assert("out:"@ =~= seq!['o', 'u', 't', ':']);
    assert("cache:"@ =~= seq!['c', 'a', 'c', 'h', 'e', ':']);
    assert("reason:"@ =~= seq!['r', 'e', 'a', 's', 'o', 'n', ':']);
    assert(texts(items@) =~= Seq::<Seq<char>>::empty());
    push_detail(&mut items, "in:", u.input, false);
    push_detail(&mut items, "out:", u.output, false);
    push_detail(&mut items, "cache:", u.cached, true);
    push_detail(&mut items, "reason:", u.reasoning, true);
    assert(texts(items@) =~= detail_items(*u));
    items
}

/// What `render` gives: the segment, or nothing when its data is missing.
pub open spec fn tokens_output(m: TokensModule, data: SessionData, theme: Theme, r: Option<Seq<char>>) -> bool {
    match data.token_usage {
        None => r is None,
        Some(u) => match u.used {
            None => r is None,
            Some(used) => r is Some && exists|bar: Seq<char>, pct: Seq<char>|
                {
                    &&& (u.total is Some ==> color_result(
                        bar_text(
                            usage_cells(used as nat, u.total->0 as nat, m.bar_width as nat),
                            m.bar_width as nat,
                        ),
                        usage_color(theme, used as nat, u.total->0 as nat),
                        bar,
                    ) && color_result(
                        percent_text(used as nat, u.total->0 as nat),
                        usage_color(theme, used as nat, u.total->0 as nat),
                        pct,
                    ))
                    &&& color_result(
                        #[trigger] tokens_line(m, u, used, theme.icons.tokens@, bar, pct),
                        theme.colors.secondary@,
                        r->0,
                    )
                },
        },
    }
}

/// The bar that the module draws for `data` fits in a `String`: its
/// three-byte cells come to at most `isize::MAX` bytes.
pub open spec fn bar_fits(m: TokensModule, data: SessionData) -> bool {
    let u = data.token_usage->0;
    3 * bar_text(
        usage_cells(u.used->0 as nat, u.total->0 as nat, m.bar_width as nat),
        m.bar_width as nat,
    ).len() <= isize::MAX
}

impl TokensModule {
    pub fn name(&self) -> (r: &'static str)
        ensures
            r@ == "tokens"@,
    {
        "tokens"
    }

    /// Used tokens (and the context window, the bar and the percentage in the
    /// usage's color when the window is known; the breakdown when asked for),
    /// all in the secondary color.
    pub fn render(&self, data: &SessionData, theme: &Theme) -> (r: Option<String>)
        requires
            draws_bar(*self, *data) ==> bar_fits(*self, *data),
        ensures
            tokens_output(*self, *data, *theme, opt_text(r)),
    {
        let u = match &data.token_usage {
            None => return None,
            Some(u) => u,
        };
        let used = match u.used {
            None => return None,
            Some(v) => v,
        };
        let mut line = text(theme.icons.tokens);
        let c = format_count(used);
        push_str(&mut line, c.as_str());
        let ghost mut bar: Seq<char> = Seq::empty();
        let ghost mut pct: Seq<char> = Seq::empty();
        let ghost icon = theme.icons.tokens@;
        let ghost base = icon + count_text(used as nat) + match u.total {
            Some(t) => seq!['/'] + count_text(t as nat),
            None => Seq::empty(),
        };
        match u.total {
            Some(total) => {
                push_char(&mut line, '/');
                let ct = format_count(total);
                push_str(&mut line, ct.as_str());
                assert(line@ =~= base);
                let q = usage_ratio_b64(used, total);
                let nine_tenths = to_binary64(9, 10, 0);
                let seven_tenths = to_binary64(7, 10, 0);
                let color = if less_b64(nine_tenths, q) {
                    theme.colors.error.as_str()
                } else if less_b64(seven_tenths, q) {
                    theme.colors.warning.as_str()
                } else {
                    theme.colors.accent.as_str()
                };
                if self.show_bar {
                    let ratio = usage_ratio_of(used, total);
                    let b = progress_bar(&ratio, self.bar_width);
                    let bc = apply_color(b.as_str(), color);
                    push_char(&mut line, ' ');
                    push_str(&mut line, bc.as_str());
                    proof {
                        bar = bc@;
                    }
                    assert(line@ =~= base + seq![' '] + bar);
                } else {
                    proof {
                        let b = bar_text(
                            usage_cells(used as nat, total as nat, self.bar_width as nat),
                            self.bar_width as nat,
                        );
                        assert(color_result(b, color@, b));
                        bar = b;
                    }
                }
                let p = format_percent(used, total);
                let pc = apply_color(p.as_str(), color);
                let ghost before = line@;
                push_char(&mut line, ' ');
                push_str(&mut line, pc.as_str());
                proof {
                    pct = pc@;
                }
                assert(line@ =~= before + seq![' '] + pct);
            },
            None => {
                assert(line@ =~= base);
            },
        }
        let ghost b_line = line@;
        assert(b_line == {
            let a = if self.show_bar && u.total is Some {
                base + seq![' '] + bar
            } else {
                base
            };
            if u.total is Some {
                a + seq![' '] + pct
            } else {
                a
            }
        });
        if self.show_detail {
            let details = token_details(u);
            if details.len() > 0 {
                let d = join_strings(&details, " ");
                proof {
                    reveal_strlit(" ");
                }
                push_char(&mut line, ' ');
                push_str(&mut line, d.as_str());
                assert(" "@ =~= seq![' ']);
                assert(line@ =~= b_line + seq![' '] + join(detail_items(*u), seq![' ']));
            }
        }
        assert(line@ =~= tokens_line(*self, *u, used, theme.icons.tokens@, bar, pct));
        let r = apply_color(line.as_str(), theme.colors.secondary.as_str());
        Some(r)
    }
}

} // verus!
