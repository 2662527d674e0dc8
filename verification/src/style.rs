use vstd::prelude::*;
use crate::binary64::{
    Binary64, at_most, div64, div_b64, frac, from_nat, from_u64, lemma_from_nat_at_most, lemma_half_away_at_most,
    lemma_mul_at_most, lemma_not_above_one, lemma_p2_values, lemma_round64_at_most, less, less_b64,
    mul64, mul_b64, p2, round_half_away, round_to_usize,
};
use crate::text::{chars_of, push_char, push_all, str_eq, text};
use colored::Colorize;

verus! {

/// An ASCII letter: the characters that end an escape sequence.
pub open spec fn is_ascii_letter(c: char) -> bool {
    ('a' <= c && c <= 'z') || ('A' <= c && c <= 'Z')
}

/// Whether `c` is an ASCII letter.
pub fn is_ascii_alphabetic(c: char) -> (r: bool)
    ensures
        r == is_ascii_letter(c),
{
    ('a' <= c && c <= 'z') || ('A' <= c && c <= 'Z')
}

/// The escape character that starts an ANSI sequence.
pub open spec fn esc() -> char {
    '\x1b'
}

/// The sequence that resets all colors: `ESC [ 0 m`.
pub open spec fn reset_seq() -> Seq<char> {
    seq!['\x1b', '[', '0', 'm']
}

/// One step of the scanner: the visible text so far and whether an escape
/// sequence is open, after reading `c`.
pub open spec fn scan_step(st: (Seq<char>, bool), c: char) -> (Seq<char>, bool) {
    if st.1 {
        (st.0, !is_ascii_letter(c))
    } else if c == esc() {
        (st.0, true)
    } else {
        (st.0.push(c), false)
    }
}

/// The scanner state after reading `s` from state `st`.
pub open spec fn scan_from(st: (Seq<char>, bool), s: Seq<char>) -> (Seq<char>, bool)
    decreases s.len(),
{
    if s.len() == 0 {
        st
    } else {
        scan_step(scan_from(st, s.drop_last()), s.last())
    }
}

/// The scanner state after reading `s` from the start.
pub open spec fn scan(s: Seq<char>) -> (Seq<char>, bool) {
    scan_from((Seq::empty(), false), s)
}

/// The characters of `s` that a terminal shows: everything outside escape
/// sequences, where an escape sequence runs from `ESC` to the next ASCII letter.
pub open spec fn visible_text(s: Seq<char>) -> Seq<char> {
    scan(s).0
}

/// The number of visible characters of `s`.
pub open spec fn visible_count(s: Seq<char>) -> nat {
    visible_text(s).len()
}

/// The length of the longest prefix of `s` with at most `max` visible characters.
pub open spec fn fit_len(s: Seq<char>, max: nat) -> nat
    decreases s.len(),
{
    if s.len() == 0 || visible_count(s) <= max {
        s.len()
    } else {
        fit_len(s.drop_last(), max)
    }
}

/// `s` cut after its first `max` visible characters (escape sequences that
/// follow them are kept), with a color reset appended once `s` has at least
/// `max` visible characters.
pub open spec fn truncated(s: Seq<char>, max: nat) -> Seq<char> {
    let p = s.take(fit_len(s, max) as int);
    if visible_count(s) >= max {
        p + reset_seq()
    } else {
        p
    }
}

/// The visible part is carried along: reading `s` from `(v, e)` appends to `v`.
pub proof fn lemma_scan_carry(v: Seq<char>, e: bool, s: Seq<char>)
    ensures
        scan_from((v, e), s).0 == v + scan_from((Seq::empty(), e), s).0,
        scan_from((v, e), s).1 == scan_from((Seq::empty(), e), s).1,
    decreases s.len(),
{
    if s.len() > 0 {
        lemma_scan_carry(v, e, s.drop_last());
        let a = scan_from((v, e), s.drop_last());
        let b = scan_from((Seq::empty(), e), s.drop_last());
        if !a.1 && s.last() != esc() {
            assert(a.0.push(s.last()) == v + b.0.push(s.last()));
        }
    }
}

/// Reading `a + b` is reading `a`, then `b`.
pub proof fn lemma_scan_concat(st: (Seq<char>, bool), a: Seq<char>, b: Seq<char>)
    ensures
        scan_from(st, a + b) == scan_from(scan_from(st, a), b),
    decreases b.len(),
{
    if b.len() == 0 {
        assert(a + b == a);
    } else {
        assert((a + b).drop_last() == a + b.drop_last());
        assert((a + b).last() == b.last());
        lemma_scan_concat(st, a, b.drop_last());
    }
}

/// The visible text of a prefix is a prefix of the visible text.
pub proof fn lemma_scan_prefix(s: Seq<char>, j: int, k: int)
    requires
        0 <= j <= k <= s.len(),
    ensures
        visible_text(s.take(j)) == visible_text(s.take(k)).take(visible_count(s.take(j)) as int),
        visible_count(s.take(j)) <= visible_count(s.take(k)),
        visible_count(s.take(k)) <= visible_count(s.take(j)) + (k - j),
    decreases k - j,
{
    if j < k {
        lemma_scan_prefix(s, j, k - 1);
        assert(s.take(k).drop_last() == s.take(k - 1));
        let prev = scan(s.take(k - 1));
        let cur = scan(s.take(k));
        assert(cur == scan_step(prev, s.take(k).last()));
        assert(prev.0.take(prev.0.len() as int) == prev.0);
        if !prev.1 && s.take(k).last() != esc() {
            assert(cur.0.take(prev.0.len() as int) == prev.0);
        }
    } else {
        assert(visible_text(s.take(j)).take(visible_count(s.take(j)) as int) == visible_text(
            s.take(j),
        ));
    }
}

/// The visible text never holds an escape character.
pub proof fn lemma_visible_no_esc(st: (Seq<char>, bool), s: Seq<char>)
    requires
        forall|i: int| 0 <= i < st.0.len() ==> st.0[i] != esc(),
    ensures
        forall|i: int| 0 <= i < scan_from(st, s).0.len() ==> scan_from(st, s).0[i] != esc(),
    decreases s.len(),
{
    if s.len() > 0 {
        lemma_visible_no_esc(st, s.drop_last());
        let prev = scan_from(st, s.drop_last());
        let cur = scan_from(st, s);
        assert forall|i: int| 0 <= i < cur.0.len() implies cur.0[i] != esc() by {
            if i < prev.0.len() {
                assert(cur.0[i] == prev.0[i]);
            }
        }
    }
}

/// Text without escape characters is all visible.
pub proof fn lemma_plain_visible(s: Seq<char>)
    requires
        forall|i: int| 0 <= i < s.len() ==> s[i] != esc(),
    ensures
        scan(s) == (s, false),
    decreases s.len(),
{
    if s.len() > 0 {
        lemma_plain_visible(s.drop_last());
        assert(s.drop_last().push(s.last()) == s);
    }
}

/// `fit_len` is the place where the count of visible characters first
/// exceeds `max`.
proof fn lemma_fit_len_at(s: Seq<char>, max: nat, i: int)
    requires
        0 <= i <= s.len(),
        visible_count(s.take(i)) <= max,
        forall|j: int| i < j <= s.len() ==> visible_count(#[trigger] s.take(j)) > max,
    ensures
        fit_len(s, max) == i,
    decreases s.len(),
{
    assert(s.take(s.len() as int) == s);
    if s.len() as int == i {
    } else {
        assert(visible_count(s) > max);
        let d = s.drop_last();
        assert forall|j: int| i < j <= d.len() implies visible_count(#[trigger] d.take(j)) > max by {
            assert(d.take(j) == s.take(j));
        }
        assert(d.take(i) == s.take(i));
        lemma_fit_len_at(d, max, i);
    }
}

/// Facts on `fit_len`: a prefix length, with at most `max` visible characters,
/// exactly `max` of them when `s` has more.
proof fn lemma_fit_len(s: Seq<char>, max: nat)
    ensures
        fit_len(s, max) <= s.len(),
        visible_count(s.take(fit_len(s, max) as int)) == if visible_count(s) <= max {
            visible_count(s)
        } else {
            max
        },
    decreases s.len(),
{
    assert(s.take(s.len() as int) == s);
    if s.len() == 0 || visible_count(s) <= max {
    } else {
        let d = s.drop_last();
        lemma_fit_len(d, max);
        lemma_scan_prefix(s, s.len() - 1, s.len() as int);
        assert(s.take(s.len() - 1) == d);
        assert(d.take(fit_len(d, max) as int) == s.take(fit_len(d, max) as int));
    }
}

/// The visible text of `s` (what a terminal shows), with escape sequences removed.
pub fn strip_ansi(s: &str) -> (r: String)
    ensures
        r@ == visible_text(s@),
{
    let cs = chars_of(s);
    let n = cs.len();
    let mut result = String::new();
    let mut in_escape = false;
    for i in 0..n
        invariant
            n == cs@.len(),
            cs@ == s@,
            scan(cs@.take(i as int)) == (result@, in_escape),
    {
        let c = cs[i];
        assert(cs@.take(i + 1).drop_last() == cs@.take(i as int));
        if in_escape {
            if is_ascii_alphabetic(c) {
                in_escape = false;
            }
        } else if c == '\x1b' {
            in_escape = true;
        } else {
            push_char(&mut result, c);
        }
    }
    assert(cs@.take(n as int) == cs@);
    result
}

/// The number of visible characters of `s` (each Unicode scalar counts one).
pub fn visible_len(s: &str) -> (r: usize)
    ensures
        r == visible_count(s@),
{
    let cs = chars_of(s);
    let n = cs.len();
    let mut len: usize = 0;
    let mut in_escape = false;
    let ghost mut vis: Seq<char> = Seq::empty();
    for i in 0..n
        invariant
            n == cs@.len(),
            cs@ == s@,
            scan(cs@.take(i as int)) == (vis, in_escape),
            len == vis.len(),
            len <= i,
    {
        let c = cs[i];
        assert(cs@.take(i + 1).drop_last() == cs@.take(i as int));
        if in_escape {
            if is_ascii_alphabetic(c) {
                in_escape = false;
            }
        } else if c == '\x1b' {
            in_escape = true;
        } else {
            len = len + 1;
            proof {
                vis = vis.push(c);
            }
        }
    }
    assert(cs@.take(n as int) == cs@);
    len
}

/// `s` cut to at most `max_width` visible characters; escape sequences are
/// kept, and a color reset is appended once `s` reaches `max_width`.
pub fn truncate_ansi(s: &str, max_width: usize) -> (r: String)
    ensures
        r@ == truncated(s@, max_width as nat),
{
    let cs = chars_of(s);
    let n = cs.len();
    let mut result = String::new();
    let mut visible: usize = 0;
    let mut in_escape = false;
    let mut i: usize = 0;
    let ghost mut vis: Seq<char> = Seq::empty();
    while i < n
        invariant
            n == cs@.len(),
            cs@ == s@,
            i <= n,
            scan(cs@.take(i as int)) == (vis, in_escape),
            visible == vis.len(),
            visible <= max_width,
            result@ == cs@.take(i as int),
        ensures
            i <= n,
            scan(cs@.take(i as int)) == (vis, in_escape),
            visible == vis.len(),
            visible <= max_width,
            result@ == cs@.take(i as int),
            i < n ==> visible == max_width && visible_count(cs@.take(i + 1)) == visible + 1,
        decreases n - i,
    {
        let c = cs[i];
        assert(cs@.take(i + 1).drop_last() == cs@.take(i as int));
        if in_escape {
            push_char(&mut result, c);
            if is_ascii_alphabetic(c) {
                in_escape = false;
            }
        } else if c == '\x1b' {
            in_escape = true;
            push_char(&mut result, c);
        } else {
            if visible >= max_width {
                break;
            }
            push_char(&mut result, c);
            visible = visible + 1;
            proof {
                vis = vis.push(c);
            }
        }
        assert(cs@.take(i + 1) == cs@.take(i as int).push(c));
        i = i + 1;
    }
    proof {
        let t = cs@;
        assert(t.take(t.len() as int) == t);
        if i < n {
            assert forall|j: int| i < j <= t.len() implies visible_count(#[trigger] t.take(j))
                > max_width by {
                lemma_scan_prefix(t, i + 1, j);
            }
            lemma_fit_len_at(t, max_width as nat, i as int);
            lemma_scan_prefix(t, i + 1, t.len() as int);
        } else {
            lemma_fit_len_at(t, max_width as nat, i as int);
        }
    }
    if visible >= max_width {
        let reset = chars_of("\x1b[0m");
        proof {
            reveal_strlit("\x1b[0m");
            assert(reset@ == reset_seq());
        }
        push_all(&mut result, reset.as_slice());
    }
    result
}


/// `ESC [ code m`: the sequence that turns on a foreground color.
pub open spec fn sgr_open(code: Seq<char>) -> Seq<char> {
    seq!['\x1b', '['] + code + seq!['m']
}

/// `s` with `style` written after each color reset inside it, as `colored`
/// does so that nested colored text keeps its color.
pub open spec fn escape_resets(s: Seq<char>, style: Seq<char>) -> Seq<char>
    decreases s.len(),
{
    if s.len() >= 4 && s.take(4) == reset_seq() {
        reset_seq() + style + escape_resets(s.skip(4), style)
    } else if s.len() > 0 {
        seq![s[0]] + escape_resets(s.skip(1), style)
    } else {
        s
    }
}

/// `text` in the foreground color with SGR code `code`, as `colored` writes it.
pub open spec fn colored_form(text: Seq<char>, code: Seq<char>) -> Seq<char> {
    sgr_open(code) + escape_resets(text, sgr_open(code)) + reset_seq()
}

/// The SGR foreground code of a color name that themes use.
pub open spec fn ansi_code(name: Seq<char>) -> Option<Seq<char>> {
    if name == "red"@ {
        Some(seq!['3', '1'])
    } else if name == "green"@ {
        Some(seq!['3', '2'])
    } else if name == "yellow"@ {
        Some(seq!['3', '3'])
    } else if name == "blue"@ {
        Some(seq!['3', '4'])
    } else if name == "magenta"@ {
        Some(seq!['3', '5'])
    } else if name == "cyan"@ {
        Some(seq!['3', '6'])
    } else if name == "white"@ {
        Some(seq!['3', '7'])
    } else if name == "bright_red"@ {
        Some(seq!['9', '1'])
    } else if name == "bright_green"@ {
        Some(seq!['9', '2'])
    } else if name == "bright_yellow"@ {
        Some(seq!['9', '3'])
    } else if name == "bright_blue"@ {
        Some(seq!['9', '4'])
    } else if name == "bright_cyan"@ {
        Some(seq!['9', '6'])
    } else if name == "bright_magenta"@ {
        Some(seq!['9', '5'])
    } else if name == "bright_white"@ {
        Some(seq!['9', '7'])
    } else {
        None
    }
}

/// The `colored` crate: `text.red().to_string()`. `colored` decides from the
/// environment (`NO_COLOR`, `CLICOLOR`, `CLICOLOR_FORCE`) and from whether
/// stdout is a terminal whether to write escapes, so the contract claims only
/// that the result is `text` unchanged or `text` with SGR code 31, as
/// `colored`'s source writes it.
#[verifier::external_body]
fn paint_red(text: &str) -> (r: String)
    ensures
        r@ == text@ || r@ == colored_form(text@, seq!['3', '1']),
{
    text.red().to_string()
}

/// The `colored` crate: `text.green().to_string()`. `colored` decides from the
/// environment (`NO_COLOR`, `CLICOLOR`, `CLICOLOR_FORCE`) and from whether
/// stdout is a terminal whether to write escapes, so the contract claims only
/// that the result is `text` unchanged or `text` with SGR code 32, as
/// `colored`'s source writes it.
#[verifier::external_body]
fn paint_green(text: &str) -> (r: String)
    ensures
        r@ == text@ || r@ == colored_form(text@, seq!['3', '2']),
{
    text.green().to_string()
}

/// The `colored` crate: `text.yellow().to_string()`. `colored` decides from the
/// environment (`NO_COLOR`, `CLICOLOR`, `CLICOLOR_FORCE`) and from whether
/// stdout is a terminal whether to write escapes, so the contract claims only
/// that the result is `text` unchanged or `text` with SGR code 33, as
/// `colored`'s source writes it.
#[verifier::external_body]
fn paint_yellow(text: &str) -> (r: String)
    ensures
        r@ == text@ || r@ == colored_form(text@, seq!['3', '3']),
{
    text.yellow().to_string()
}

/// The `colored` crate: `text.blue().to_string()`. `colored` decides from the
/// environment (`NO_COLOR`, `CLICOLOR`, `CLICOLOR_FORCE`) and from whether
/// stdout is a terminal whether to write escapes, so the contract claims only
/// that the result is `text` unchanged or `text` with SGR code 34, as
/// `colored`'s source writes it.
#[verifier::external_body]
fn paint_blue(text: &str) -> (r: String)
    ensures
        r@ == text@ || r@ == colored_form(text@, seq!['3', '4']),
{
    text.blue().to_string()
}

/// The `colored` crate: `text.magenta().to_string()`. `colored` decides from the
/// environment (`NO_COLOR`, `CLICOLOR`, `CLICOLOR_FORCE`) and from whether
/// stdout is a terminal whether to write escapes, so the contract claims only
/// that the result is `text` unchanged or `text` with SGR code 35, as
/// `colored`'s source writes it.
#[verifier::external_body]
fn paint_magenta(text: &str) -> (r: String)
    ensures
        r@ == text@ || r@ == colored_form(text@, seq!['3', '5']),
{
    text.magenta().to_string()
}

/// The `colored` crate: `text.cyan().to_string()`. `colored` decides from the
/// environment (`NO_COLOR`, `CLICOLOR`, `CLICOLOR_FORCE`) and from whether
/// stdout is a terminal whether to write escapes, so the contract claims only
/// that the result is `text` unchanged or `text` with SGR code 36, as
/// `colored`'s source writes it.
#[verifier::external_body]
fn paint_cyan(text: &str) -> (r: String)
    ensures
        r@ == text@ || r@ == colored_form(text@, seq!['3', '6']),
{
    text.cyan().to_string()
}

/// The `colored` crate: `text.white().to_string()`. `colored` decides from the
/// environment (`NO_COLOR`, `CLICOLOR`, `CLICOLOR_FORCE`) and from whether
/// stdout is a terminal whether to write escapes, so the contract claims only
/// that the result is `text` unchanged or `text` with SGR code 37, as
/// `colored`'s source writes it.
#[verifier::external_body]
fn paint_white(text: &str) -> (r: String)
    ensures
        r@ == text@ || r@ == colored_form(text@, seq!['3', '7']),
{
    text.white().to_string()
}

/// The `colored` crate: `text.bright_red().to_string()`. `colored` decides from the
/// environment (`NO_COLOR`, `CLICOLOR`, `CLICOLOR_FORCE`) and from whether
/// stdout is a terminal whether to write escapes, so the contract claims only
/// that the result is `text` unchanged or `text` with SGR code 91, as
/// `colored`'s source writes it.
#[verifier::external_body]
fn paint_bright_red(text: &str) -> (r: String)
    ensures
        r@ == text@ || r@ == colored_form(text@, seq!['9', '1']),
{
    text.bright_red().to_string()
}

/// The `colored` crate: `text.bright_green().to_string()`. `colored` decides from the
/// environment (`NO_COLOR`, `CLICOLOR`, `CLICOLOR_FORCE`) and from whether
/// stdout is a terminal whether to write escapes, so the contract claims only
/// that the result is `text` unchanged or `text` with SGR code 92, as
/// `colored`'s source writes it.
#[verifier::external_body]
fn paint_bright_green(text: &str) -> (r: String)
    ensures
        r@ == text@ || r@ == colored_form(text@, seq!['9', '2']),
{
    text.bright_green().to_string()
}

/// The `colored` crate: `text.bright_yellow().to_string()`. `colored` decides from the
/// environment (`NO_COLOR`, `CLICOLOR`, `CLICOLOR_FORCE`) and from whether
/// stdout is a terminal whether to write escapes, so the contract claims only
/// that the result is `text` unchanged or `text` with SGR code 93, as
/// `colored`'s source writes it.
#[verifier::external_body]
fn paint_bright_yellow(text: &str) -> (r: String)
    ensures
        r@ == text@ || r@ == colored_form(text@, seq!['9', '3']),
{
    text.bright_yellow().to_string()
}

/// The `colored` crate: `text.bright_blue().to_string()`. `colored` decides from the
/// environment (`NO_COLOR`, `CLICOLOR`, `CLICOLOR_FORCE`) and from whether
/// stdout is a terminal whether to write escapes, so the contract claims only
/// that the result is `text` unchanged or `text` with SGR code 94, as
/// `colored`'s source writes it.
#[verifier::external_body]
fn paint_bright_blue(text: &str) -> (r: String)
    ensures
        r@ == text@ || r@ == colored_form(text@, seq!['9', '4']),
{
    text.bright_blue().to_string()
}

/// The `colored` crate: `text.bright_cyan().to_string()`. `colored` decides from the
/// environment (`NO_COLOR`, `CLICOLOR`, `CLICOLOR_FORCE`) and from whether
/// stdout is a terminal whether to write escapes, so the contract claims only
/// that the result is `text` unchanged or `text` with SGR code 96, as
/// `colored`'s source writes it.
#[verifier::external_body]
fn paint_bright_cyan(text: &str) -> (r: String)
    ensures
        r@ == text@ || r@ == colored_form(text@, seq!['9', '6']),
{
    text.bright_cyan().to_string()
}

/// The `colored` crate: `text.bright_magenta().to_string()`. `colored` decides from the
/// environment (`NO_COLOR`, `CLICOLOR`, `CLICOLOR_FORCE`) and from whether
/// stdout is a terminal whether to write escapes, so the contract claims only
/// that the result is `text` unchanged or `text` with SGR code 95, as
/// `colored`'s source writes it.
#[verifier::external_body]
fn paint_bright_magenta(text: &str) -> (r: String)
    ensures
        r@ == text@ || r@ == colored_form(text@, seq!['9', '5']),
{
    text.bright_magenta().to_string()
}

/// The `colored` crate: `text.bright_white().to_string()`. `colored` decides from the
/// environment (`NO_COLOR`, `CLICOLOR`, `CLICOLOR_FORCE`) and from whether
/// stdout is a terminal whether to write escapes, so the contract claims only
/// that the result is `text` unchanged or `text` with SGR code 97, as
/// `colored`'s source writes it.
#[verifier::external_body]
fn paint_bright_white(text: &str) -> (r: String)
    ensures
        r@ == text@ || r@ == colored_form(text@, seq!['9', '7']),
{
    text.bright_white().to_string()
}

/// `t` in the color called `color`; `t` unchanged for a name that is not
/// one of the fourteen color names, or when the terminal is not colored.
pub fn apply_color(t: &str, color: &str) -> (r: String)
    ensures
        match ansi_code(color@) {
            Some(code) => r@ == t@ || r@ == colored_form(t@, code),
            None => r@ == t@,
        },
{
    proof {
        reveal_strlit("red");
        reveal_strlit("green");
        reveal_strlit("yellow");
        reveal_strlit("blue");
        reveal_strlit("magenta");
        reveal_strlit("cyan");
        reveal_strlit("white");
        reveal_strlit("bright_red");
        reveal_strlit("bright_green");
        reveal_strlit("bright_yellow");
        reveal_strlit("bright_blue");
        reveal_strlit("bright_cyan");
        reveal_strlit("bright_magenta");
        reveal_strlit("bright_white");
    }
    if str_eq(color, "red") {
        assert(ansi_code(color@) == Some(seq!['3', '1']));
        paint_red(t)
    } else if str_eq(color, "green") {
        assert(ansi_code(color@) == Some(seq!['3', '2']));
        paint_green(t)
    } else if str_eq(color, "yellow") {
        assert(ansi_code(color@) == Some(seq!['3', '3']));
        paint_yellow(t)
    } else if str_eq(color, "blue") {
        assert(ansi_code(color@) == Some(seq!['3', '4']));
        paint_blue(t)
    } else if str_eq(color, "magenta") {
        assert(ansi_code(color@) == Some(seq!['3', '5']));
        paint_magenta(t)
    } else if str_eq(color, "cyan") {
        assert(ansi_code(color@) == Some(seq!['3', '6']));
        paint_cyan(t)
    } else if str_eq(color, "white") {
        assert(ansi_code(color@) == Some(seq!['3', '7']));
        paint_white(t)
    } else if str_eq(color, "bright_red") {
        assert(ansi_code(color@) == Some(seq!['9', '1']));
        paint_bright_red(t)
    } else if str_eq(color, "bright_green") {
        assert(ansi_code(color@) == Some(seq!['9', '2']));
        paint_bright_green(t)
    } else if str_eq(color, "bright_yellow") {
        assert(ansi_code(color@) == Some(seq!['9', '3']));
        paint_bright_yellow(t)
    } else if str_eq(color, "bright_blue") {
        assert(ansi_code(color@) == Some(seq!['9', '4']));
        paint_bright_blue(t)
    } else if str_eq(color, "bright_cyan") {
        assert(ansi_code(color@) == Some(seq!['9', '6']));
        paint_bright_cyan(t)
    } else if str_eq(color, "bright_magenta") {
        assert(ansi_code(color@) == Some(seq!['9', '5']));
        paint_bright_magenta(t)
    } else if str_eq(color, "bright_white") {
        assert(ansi_code(color@) == Some(seq!['9', '7']));
        paint_bright_white(t)
    } else {
        text(t)
    }
}

/// The result of `apply_color` on `t` and `color`, whatever the terminal.
pub open spec fn color_result(t: Seq<char>, color: Seq<char>, r: Seq<char>) -> bool {
    match ansi_code(color) {
        Some(code) => r == t || r == colored_form(t, code),
        None => r == t,
    }
}

proof fn lemma_escape_plain(s: Seq<char>, style: Seq<char>)
    requires
        forall|i: int| 0 <= i < s.len() ==> s[i] != esc(),
    ensures
        escape_resets(s, style) == s,
    decreases s.len(),
{
    if s.len() >= 4 && s.take(4) == reset_seq() {
        assert(s.take(4)[0] == s[0]);
    } else if s.len() > 0 {
        lemma_escape_plain(s.skip(1), style);
        assert(seq![s[0]] + s.skip(1) == s);
    }
}

proof fn lemma_scan_push(st: (Seq<char>, bool), s: Seq<char>, c: char)
    ensures
        scan_from(st, s.push(c)) == scan_step(scan_from(st, s), c),
{
    assert(s.push(c).drop_last() == s);
}

proof fn lemma_reset_invisible(v: Seq<char>, e: bool)
    ensures
        scan_from((v, e), reset_seq()).0 == v,
{
    let st = (v, e);
    let z = Seq::<char>::empty();
    lemma_scan_push(st, z, '\x1b');
    lemma_scan_push(st, z.push('\x1b'), '[');
    lemma_scan_push(st, z.push('\x1b').push('['), '0');
    lemma_scan_push(st, z.push('\x1b').push('[').push('0'), 'm');
    assert(z.push('\x1b').push('[').push('0').push('m') == reset_seq());
}

proof fn lemma_open_invisible(code: Seq<char>)
    requires
        code.len() == 2,
        !is_ascii_letter(code[0]),
        !is_ascii_letter(code[1]),
    ensures
        scan(sgr_open(code)) == (Seq::<char>::empty(), false),
{
    let st = (Seq::<char>::empty(), false);
    let z = Seq::<char>::empty();
    lemma_scan_push(st, z, '\x1b');
    lemma_scan_push(st, z.push('\x1b'), '[');
    lemma_scan_push(st, z.push('\x1b').push('['), code[0]);
    lemma_scan_push(st, z.push('\x1b').push('[').push(code[0]), code[1]);
    lemma_scan_push(st, z.push('\x1b').push('[').push(code[0]).push(code[1]), 'm');
    assert(z.push('\x1b').push('[').push(code[0]).push(code[1]).push('m') == sgr_open(code));
}

/// Coloring never changes the visible text of escape-free text.
pub proof fn law_color_keeps_visible_text(t: Seq<char>, color: Seq<char>, r: Seq<char>)
    requires
        forall|i: int| 0 <= i < t.len() ==> t[i] != esc(),
        color_result(t, color, r),
    ensures
        visible_text(r) == t,
{
    lemma_plain_visible(t);
    if r != t {
        let code = ansi_code(color)->0;
        let o = sgr_open(code);
        lemma_escape_plain(t, o);
        lemma_open_invisible(code);
        let e = (Seq::<char>::empty(), false);
        lemma_scan_concat(e, o + t, reset_seq());
        lemma_scan_concat(e, o, t);
        lemma_reset_invisible(t, false);
        assert(r == o + t + reset_seq());
    }
}

/// The share of the context window that is used, as the token module
/// computes it: `(used as f64 / total as f64).min(1.0)` in binary64
/// arithmetic, and zero when `total` is zero.
pub open spec fn usage_ratio(used: nat, total: nat) -> (nat, int) {
    if total == 0 {
        (0, 0)
    } else {
        let q = div64(from_nat(used), from_nat(total));
        if less(from_nat(1), q) {
            from_nat(1)
        } else {
            q
        }
    }
}

/// The used share of the context window.
pub fn usage_ratio_b64(used: u64, total: u64) -> (r: (u64, i64))
    ensures
        (r.0 as nat, r.1 as int) == usage_ratio(used as nat, total as nat),
        r.0 <= p2(53),
        -256 < r.1 <= 13,
{
    if total == 0 {
        return (0, 0);
    }
    let u = from_u64(used);
    let t = from_u64(total);
    let q = div_b64(u, t);
    let one = from_u64(1);
    if less_b64(one, q) {
        one
    } else {
        q
    }
}

/// The used share of the context window as a binary64 number.
pub fn usage_ratio_of(used: u64, total: u64) -> (r: Binary64)
    ensures
        !r.is_negative(),
        (r.significand(), r.exponent()) == usage_ratio(used as nat, total as nat),
{
    let q = usage_ratio_b64(used, total);
    Binary64::nonnegative(q.0, q.1)
}

/// The number of full cells of a bar `width` cells wide for the share
/// `(-1)^negative · r.0 · 2^r.1`: `(ratio * width as f64).round() as usize`,
/// the product in binary64, rounded half away from zero, the cast taking
/// negative numbers to zero and saturating at `usize::MAX`.
pub open spec fn cells_of(negative: bool, r: (nat, int), width: nat) -> nat {
    let f = round_half_away(mul64(r, from_nat(width)));
    if negative {
        0
    } else if f <= usize::MAX {
        f
    } else {
        usize::MAX as nat
    }
}

/// The full cells of a bar `width` cells wide for `ratio`.
pub open spec fn bar_cells(ratio: Binary64, width: nat) -> nat {
    cells_of(ratio.is_negative(), (ratio.significand(), ratio.exponent()), width)
}

/// The full cells of a bar `width` cells wide for `used` out of `total`.
pub open spec fn usage_cells(used: nat, total: nat, width: nat) -> nat {
    cells_of(false, usage_ratio(used, total), width)
}

/// The full cells of the bar.
pub fn bar_fill(ratio: &Binary64, width: usize) -> (r: usize)
    ensures
        r == bar_cells(*ratio, width as nat),
{
    let (negative, sig, exp) = ratio.parts();
    if negative {
        return 0;
    }
    let w = from_u64(width as u64);
    let x = mul_b64((sig, exp), w);
    round_to_usize(x)
}

/// A bar of `filled` full cells followed by empty cells up to `width`.
pub open spec fn bar_text(filled: nat, width: nat) -> Seq<char> {
    Seq::new(
        if filled > width {
            filled
        } else {
            width
        },
        |i: int| if i < filled { '\u{2588}' } else { '\u{2591}' },
    )
}

/// The used share is never above one.
pub proof fn lemma_ratio_at_most_one(used: nat, total: nat)
    ensures
        at_most(usage_ratio(used, total), 1),
{
    lemma_p2_values();
    if total == 0 {
        assert(frac(0, 1, 0) == (0nat, 1nat)) by {
            assert(0 * p2(0) == 0);
        }
    } else {
        let q = div64(from_nat(used), from_nat(total));
        if less(from_nat(1), q) {
            lemma_from_nat_at_most(1);
        } else {
            lemma_not_above_one(q);
        }
    }
}

/// A bar for a share of at most one is exactly `width` cells long: its
/// full cells never outnumber the width (for any width up to `2^53`, which
/// binary64 holds exactly).
pub proof fn law_bar_has_width_cells(negative: bool, r: (nat, int), width: nat)
    requires
        negative || at_most(r, 1),
        width <= 0x20_0000_0000_0000,
    ensures
        cells_of(negative, r, width) <= width,
        bar_text(cells_of(negative, r, width), width).len() == width,
{
    if !negative {
        lemma_p2_values();
        let w = from_nat(width);
        lemma_from_nat_at_most(width);
        lemma_mul_at_most(r, w, width);
        lemma_round64_at_most(r.0 * w.0, 1, r.1 + w.1, width);
        lemma_half_away_at_most(mul64(r, w), width);
    }
}

/// The token bar is exactly `width` cells long: the used share is at most one.
pub proof fn law_usage_bar_has_width_cells(used: nat, total: nat, width: nat)
    requires
        width <= 0x20_0000_0000_0000,
    ensures
        bar_text(usage_cells(used, total, width), width).len() == width,
{
    lemma_ratio_at_most_one(used, total);
    law_bar_has_width_cells(false, usage_ratio(used, total), width);
}

/// A progress bar `████░░░░░░` of `width` cells, the share `ratio` of them
/// full.
pub fn progress_bar(ratio: &Binary64, width: usize) -> (r: String)
    requires
        3 * bar_text(bar_cells(*ratio, width as nat), width as nat).len() <= isize::MAX,
    ensures
        r@ == bar_text(bar_cells(*ratio, width as nat), width as nat),
{
    let filled = bar_fill(ratio, width);
    let ghost full = bar_text(filled as nat, width as nat);
    let mut r = String::new();
    for i in 0..filled
        invariant
            full == bar_text(filled as nat, width as nat),
            r@ == full.take(i as int),
    {
        push_char(&mut r, '\u{2588}');
        assert(full.take(i + 1) =~= full.take(i as int).push(full[i as int]));
    }
    let empty = if width > filled {
        width - filled
    } else {
        0
    };
    for i in 0..empty
        invariant
            full == bar_text(filled as nat, width as nat),
            empty == (if width > filled {
                width - filled
            } else {
                0
            }),
            r@ == full.take(filled + i),
    {
        push_char(&mut r, '\u{2591}');
        assert(full.take(filled + i + 1) =~= full.take(filled + i).push(full[filled + i]));
    }
    assert(full.take(filled + empty) =~= full);
    r
}

/// Truncation keeps exactly the first `max` visible characters.
pub proof fn law_truncate_keeps_visible_prefix(s: Seq<char>, max: nat)
    ensures
        visible_text(truncated(s, max)) == visible_text(s).take(
            if visible_count(s) <= max { visible_count(s) as int } else { max as int },
        ),
        visible_count(truncated(s, max)) <= max,
{
    let f = fit_len(s, max);
    lemma_fit_len(s, max);
    let p = s.take(f as int);
    assert(s.take(s.len() as int) == s);
    lemma_scan_prefix(s, f as int, s.len() as int);
    if visible_count(s) >= max {
        lemma_scan_concat((Seq::empty(), false), p, reset_seq());
        let st = scan(p);
        lemma_reset_invisible(st.0, st.1);
    }
}

/// Stripping escape sequences twice is stripping them once, and leaves the
/// visible length unchanged.
pub proof fn law_strip_idempotent(s: Seq<char>)
    ensures
        visible_text(visible_text(s)) == visible_text(s),
        visible_count(visible_text(s)) == visible_count(s),
{
    lemma_visible_no_esc((Seq::empty(), false), s);
    lemma_plain_visible(visible_text(s));
}

} // verus!
