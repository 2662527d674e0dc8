use vstd::prelude::*;
use crate::text::{chars_of, opt_text, str_eq, text, texts, trim_range, trimmed};
use crate::theme::ThemeColors;

verus! {

/// A TOML value, holding what the configuration reads of one: strings,
/// integers, booleans, arrays and tables (their entries in order, keys
/// distinct); floats and dates are `Other`.
pub enum TomlValue {
    Str(String),
    Int(i64),
    Bool(bool),
    Array(Vec<TomlValue>),
    Table(Vec<(String, TomlValue)>),
    Other,
}

/// Settings of the tokens module.
pub struct ModuleTokensConfig {
    pub show_bar: Option<bool>,
    pub bar_width: Option<usize>,
    pub show_detail: Option<bool>,
}

/// Settings of the cost module.
pub struct ModuleCostConfig {
    pub currency: Option<String>,
}

/// The configuration: theme, separator, modules and module settings.
pub struct Config {
    pub theme_name: String,
    pub separator: Option<String>,
    pub modules: Vec<String>,
    pub theme_colors: Option<ThemeColors>,
    pub tokens_config: ModuleTokensConfig,
    pub cost_config: ModuleCostConfig,
}

impl Default for ModuleTokensConfig {
    fn default() -> (r: Self)
        ensures
            r.show_bar is None && r.bar_width is None && r.show_detail is None,
    {
        ModuleTokensConfig { show_bar: None, bar_width: None, show_detail: None }
    }
}

impl Default for ModuleCostConfig {
    fn default() -> (r: Self)
        ensures
            r.currency is None,
    {
        ModuleCostConfig { currency: None }
    }
}

/// The modules shown when none are configured.
pub open spec fn default_module_names() -> Seq<Seq<char>> {
    seq!["model"@, "tokens"@, "cost"@, "timer"@, "git"@, "permission"@]
}

impl Config {
    /// The default configuration: theme `default`, the default modules,
    /// nothing else set.
    pub open spec fn is_default(&self) -> bool {
        &&& self.theme_name@ == "default"@
        &&& self.separator is None
        &&& texts(self.modules@) == default_module_names()
        &&& self.theme_colors is None
        &&& self.tokens_config.show_bar is None
        &&& self.tokens_config.bar_width is None
        &&& self.tokens_config.show_detail is None
        &&& self.cost_config.currency is None
    }
}

fn default_modules() -> (r: Vec<String>)
    ensures
        texts(r@) == default_module_names(),
{
    let mut v: Vec<String> = Vec::new();
    v.push(text("model"));
    v.push(text("tokens"));
    v.push(text("cost"));
    v.push(text("timer"));
    v.push(text("git"));
    v.push(text("permission"));
    assert(texts(v@) =~= default_module_names());
    v
}

impl Default for Config {
    fn default() -> (r: Self)
        ensures
            r.is_default(),
    {
        Config {
            theme_name: text("default"),
            separator: None,
            modules: default_modules(),
            theme_colors: None,
            tokens_config: ModuleTokensConfig::default(),
            cost_config: ModuleCostConfig::default(),
        }
    }
}

/// The pieces of `s` between the characters `sep` (at least one piece).
pub open spec fn split_on(s: Seq<char>, sep: char) -> Seq<Seq<char>>
    decreases s.len(),
{
    if s.len() == 0 {
        seq![Seq::empty()]
    } else {
        let p = split_on(s.drop_last(), sep);
        if s.last() == sep {
            p.push(Seq::empty())
        } else {
            p.update(p.len() - 1, p.last().push(s.last()))
        }
    }
}

proof fn lemma_split_nonempty(s: Seq<char>, sep: char)
    ensures
        split_on(s, sep).len() >= 1,
    decreases s.len(),
{
    if s.len() > 0 {
        lemma_split_nonempty(s.drop_last(), sep);
    }
}

/// The comma-separated items of `s`, each without surrounding white space.
pub open spec fn list_items(s: Seq<char>) -> Seq<Seq<char>> {
    split_on(s, ',').map_values(|p: Seq<char>| trimmed(p))
}

/// The comma-separated items of `s`, each without surrounding white space.
pub fn split_list(s: &str) -> (r: Vec<String>)
    ensures
        texts(r@) == list_items(s@),
{
    let cs = chars_of(s);
    let n = cs.len();
    let mut out: Vec<String> = Vec::new();
    let mut start: usize = 0;
    let ghost mut done: Seq<Seq<char>> = Seq::empty();
    assert(cs@.take(0) =~= Seq::<char>::empty());
    assert(done.push(cs@.subrange(0, 0)) =~= split_on(cs@.take(0), ','));
    for i in 0..n
        invariant
            n == cs@.len(),
            start <= i,
            done.push(cs@.subrange(start as int, i as int)) == split_on(cs@.take(i as int), ','),
            texts(out@) == done.map_values(|p: Seq<char>| trimmed(p)),
    {
        assert(cs@.take(i + 1).drop_last() == cs@.take(i as int));
        assert(cs@.take(i + 1).last() == cs@[i as int]);
        if cs[i] == ',' {
            let piece = trim_range(cs.as_slice(), start, i);
            let ghost old_done = done;
            let ghost old_out = out@;
            let ghost pv = piece@;
            out.push(piece);
            proof {
                let p = split_on(cs@.take(i as int), ',');
                assert(split_on(cs@.take(i + 1), ',') == p.push(Seq::<char>::empty()));
                done = done.push(cs@.subrange(start as int, i as int));
                assert(texts(out@) =~= texts(old_out).push(pv));
                assert(texts(out@) =~= done.map_values(|p: Seq<char>| trimmed(p)));
                assert(cs@.subrange(i + 1, i + 1) =~= Seq::<char>::empty());
                assert(p == done);
                assert(done.push(cs@.subrange(i + 1, i + 1)) =~= split_on(
                    cs@.take(i + 1),
                    ',',
                ));
            }
            start = i + 1;
        } else {
            proof {
                let p = split_on(cs@.take(i as int), ',');
                assert(cs@.subrange(start as int, i + 1) == cs@.subrange(start as int, i as int).push(
                    cs@[i as int],
                ));
                assert(done.push(cs@.subrange(start as int, i + 1)) =~= p.update(
                    p.len() - 1,
                    p.last().push(cs@[i as int]),
                ));
            }
        }
    }
    let piece = trim_range(cs.as_slice(), start, n);
    let ghost old_out = out@;
    let ghost pv = piece@;
    out.push(piece);
    proof {
        assert(texts(out@) =~= texts(old_out).push(pv));
        assert(cs@.take(n as int) == cs@);
        assert(texts(out@) =~= done.push(cs@.subrange(start as int, n as int)).map_values(
            |p: Seq<char>| trimmed(p),
        ));
    }
    out
}

/// The value of the first entry called `key`.
pub open spec fn toml_lookup(es: Seq<(String, TomlValue)>, key: Seq<char>) -> Option<TomlValue>
    decreases es.len(),
{
    if es.len() == 0 {
        None
    } else if es[0].0@ == key {
        Some(es[0].1)
    } else {
        toml_lookup(es.drop_first(), key)
    }
}

/// The entry `key` of a table; nothing for any other value.
pub open spec fn toml_get(v: TomlValue, key: Seq<char>) -> Option<TomlValue> {
    match v {
        TomlValue::Table(es) => toml_lookup(es@, key),
        _ => None,
    }
}

/// The text of `v` when it is a string.
pub open spec fn toml_str(v: Option<TomlValue>) -> Option<Seq<char>> {
    match v {
        Some(TomlValue::Str(s)) => Some(s@),
        _ => None,
    }
}

/// The value of `v` when it is a boolean.
pub open spec fn toml_bool(v: Option<TomlValue>) -> Option<bool> {
    match v {
        Some(TomlValue::Bool(b)) => Some(b),
        _ => None,
    }
}

/// The value of `v` when it is an integer, as a `usize` (wrapping as `as` does).
pub open spec fn toml_usize(v: Option<TomlValue>) -> Option<usize> {
    match v {
        Some(TomlValue::Int(i)) => Some(i as usize),
        _ => None,
    }
}

/// The strings among `items`, in order.
pub open spec fn string_items(items: Seq<TomlValue>) -> Seq<Seq<char>>
    decreases items.len(),
{
    if items.len() == 0 {
        Seq::empty()
    } else {
        match items.last() {
            TomlValue::Str(s) => string_items(items.drop_last()).push(s@),
            _ => string_items(items.drop_last()),
        }
    }
}

/// The text of `v` when it is a string, else `default`.
pub open spec fn str_or(v: Option<TomlValue>, default: Seq<char>) -> Seq<char> {
    match toml_str(v) {
        Some(s) => s,
        None => default,
    }
}

/// The entry `key` of a table.
fn toml_entry<'a>(v: &'a TomlValue, key: &str) -> (r: Option<&'a TomlValue>)
    ensures
        match r {
            Some(x) => toml_get(*v, key@) == Some(*x),
            None => toml_get(*v, key@) is None,
        },
{
    match v {
        TomlValue::Table(es) => {
            let n = es.len();
            let mut i: usize = 0;
            assert(es@.skip(0) == es@);
            while i < n
                invariant
                    n == es@.len(),
                    i <= n,
                    *v == TomlValue::Table(*es),
                    toml_lookup(es@, key@) == toml_lookup(es@.skip(i as int), key@),
                decreases n - i,
            {
                assert(es@.skip(i as int).drop_first() == es@.skip(i + 1));
                assert(es@.skip(i as int)[0] == es@[i as int]);
                if str_eq(es[i].0.as_str(), key) {
                    return Some(&es[i].1);
                }
                i = i + 1;
            }
            assert(es@.skip(n as int).len() == 0);
            None
        },
        _ => None,
    }
}

/// The optional reference's value.
pub open spec fn opt_val(v: Option<&TomlValue>) -> Option<TomlValue> {
    match v {
        Some(x) => Some(*x),
        None => None,
    }
}

fn toml_text(v: Option<&TomlValue>) -> (r: Option<String>)
    ensures
        opt_text(r) == toml_str(opt_val(v)),
{
    match v {
        Some(TomlValue::Str(s)) => Some(text(s.as_str())),
        _ => None,
    }
}

fn toml_text_or(v: Option<&TomlValue>, default: &str) -> (r: String)
    ensures
        r@ == str_or(opt_val(v), default@),
{
    match v {
        Some(TomlValue::Str(s)) => text(s.as_str()),
        _ => text(default),
    }
}

fn toml_flag(v: Option<&TomlValue>) -> (r: Option<bool>)
    ensures
        r == toml_bool(opt_val(v)),
{
    match v {
        Some(TomlValue::Bool(b)) => Some(*b),
        _ => None,
    }
}

fn toml_size(v: Option<&TomlValue>) -> (r: Option<usize>)
    ensures
        r == toml_usize(opt_val(v)),
{
    match v {
        Some(TomlValue::Int(i)) => Some(*i as usize),
        _ => None,
    }
}

fn strings_in(items: &Vec<TomlValue>) -> (r: Vec<String>)
    ensures
        texts(r@) == string_items(items@),
{
    let mut r: Vec<String> = Vec::new();
    let n = items.len();
    for i in 0..n
        invariant
            n == items@.len(),
            texts(r@) == string_items(items@.take(i as int)),
    {
        assert(items@.take(i + 1).drop_last() == items@.take(i as int));
        assert(items@.take(i + 1).last() == items@[i as int]);
        match &items[i] {
            TomlValue::Str(s) => {
                r.push(text(s.as_str()));
                assert(texts(r@) =~= string_items(items@.take(i as int)).push(s@));
            },
            _ => {},
        }
    }
    assert(items@.take(n as int) == items@);
    r
}

/// The configuration that the TOML document `doc` gives: `theme`,
/// `separator` and `modules` (its strings) at the top level, `[colors]` with
/// the five colors (each defaulting to the default palette's), `[tokens]` with
/// `show_bar`, `bar_width` and `show_detail`, `[cost]` with `currency`.
pub open spec fn config_from(c: Config, doc: TomlValue) -> bool {
    &&& c.theme_name@ == str_or(toml_get(doc, "theme"@), "default"@)
    &&& opt_text(c.separator) == toml_str(toml_get(doc, "separator"@))
    &&& texts(c.modules@) == match toml_get(doc, "modules"@) {
        Some(TomlValue::Array(a)) => string_items(a@),
        _ => default_module_names(),
    }
    &&& match toml_get(doc, "colors"@) {
        Some(TomlValue::Table(t)) => c.theme_colors matches Some(tc) && {
            let tv = TomlValue::Table(t);
            &&& tc.primary@ == str_or(toml_get(tv, "primary"@), "cyan"@)
            &&& tc.secondary@ == str_or(toml_get(tv, "secondary"@), "white"@)
            &&& tc.accent@ == str_or(toml_get(tv, "accent"@), "green"@)
            &&& tc.warning@ == str_or(toml_get(tv, "warning"@), "yellow"@)
            &&& tc.error@ == str_or(toml_get(tv, "error"@), "red"@)
        },
        _ => c.theme_colors is None,
    }
    &&& match toml_get(doc, "tokens"@) {
        Some(TomlValue::Table(t)) => {
            let tv = TomlValue::Table(t);
            &&& c.tokens_config.show_bar == toml_bool(toml_get(tv, "show_bar"@))
            &&& c.tokens_config.bar_width == toml_usize(toml_get(tv, "bar_width"@))
            &&& c.tokens_config.show_detail == toml_bool(toml_get(tv, "show_detail"@))
        },
        _ => c.tokens_config.show_bar is None && c.tokens_config.bar_width is None
            && c.tokens_config.show_detail is None,
    }
    &&& match toml_get(doc, "cost"@) {
        Some(TomlValue::Table(t)) => opt_text(c.cost_config.currency) == toml_str(
            toml_get(TomlValue::Table(t), "currency"@),
        ),
        _ => c.cost_config.currency is None,
    }
}

#[verifier::external_type_specification]
#[verifier::external_body]
pub struct ExTomlValue(toml::Value);

/// What the `toml` crate reads from the text `text`, as this library's TOML
/// values; nothing when `text` is not a TOML document.
pub uninterp spec fn toml_document(text: Seq<char>) -> Option<TomlValue>;

/// The `toml` crate's parser, `content.parse::<toml::Value>()`, its result
/// converted to this library's TOML values. Which texts are TOML documents,
/// and what they hold, takes the TOML specification to state: the contract
/// claims only that the result depends on the text alone.
#[verifier::external_body]
fn parse_document(content: &str) -> (r: Option<TomlValue>)
    ensures
        r == toml_document(content@),
{
    content.parse::<toml::Value>().ok().map(toml_value)
}

/// A `toml` value as this library holds it, kind for kind (floats and dates
/// become `Other`), for `parse_document`.
#[verifier::external_body]
fn toml_value(v: toml::Value) -> TomlValue {
    match v {
        toml::Value::String(s) => TomlValue::Str(s),
        toml::Value::Integer(i) => TomlValue::Int(i),
        toml::Value::Boolean(b) => TomlValue::Bool(b),
        toml::Value::Array(a) => TomlValue::Array(a.into_iter().map(toml_value).collect()),
        toml::Value::Table(t) => TomlValue::Table(t.into_iter().map(|(k, v)| (k, toml_value(v))).collect()),
        toml::Value::Float(_) | toml::Value::Datetime(_) => TomlValue::Other,
    }
}

impl Config {
    /// The configuration that a configuration file's text gives: the text
    /// read as a TOML document; the default configuration when it is not
    /// valid TOML.
    pub fn parse_toml(content: &str) -> (r: Config)
        ensures
            match toml_document(content@) {
                Some(d) => config_from(r, d),
                None => r.is_default(),
            },
    {
        let doc = parse_document(content);
        Config::from_document(doc)
    }

    /// The configuration that a TOML document gives: `doc` is the document,
    /// or nothing for a text that is not valid TOML, which gives the default
    /// configuration.
    pub fn from_document(doc: Option<TomlValue>) -> (r: Config)
        ensures
            match doc {
                Some(d) => config_from(r, d),
                None => r.is_default(),
            },
    {
        let table = match &doc {
            None => return Config::default(),
            Some(t) => t,
        };
        let theme_name = toml_text_or(toml_entry(table, "theme"), "default");
        let separator = toml_text(toml_entry(table, "separator"));
        let modules = match toml_entry(table, "modules") {
            Some(TomlValue::Array(a)) => strings_in(a),
            _ => default_modules(),
        };
        let theme_colors = match toml_entry(table, "colors") {
            Some(t) => match t {
                TomlValue::Table(_) => Some(
                    ThemeColors {
                        primary: toml_text_or(toml_entry(t, "primary"), "cyan"),
                        secondary: toml_text_or(toml_entry(t, "secondary"), "white"),
                        accent: toml_text_or(toml_entry(t, "accent"), "green"),
                        warning: toml_text_or(toml_entry(t, "warning"), "yellow"),
                        error: toml_text_or(toml_entry(t, "error"), "red"),
                    },
                ),
                _ => None,
            },
            None => None,
        };
        let tokens_config = match toml_entry(table, "tokens") {
            Some(t) => match t {
                TomlValue::Table(_) => ModuleTokensConfig {
                    show_bar: toml_flag(toml_entry(t, "show_bar")),
                    bar_width: toml_size(toml_entry(t, "bar_width")),
                    show_detail: toml_flag(toml_entry(t, "show_detail")),
                },
                _ => ModuleTokensConfig::default(),
            },
            None => ModuleTokensConfig::default(),
        };
        let cost_config = match toml_entry(table, "cost") {
            Some(t) => match t {
                TomlValue::Table(_) => ModuleCostConfig {
                    currency: toml_text(toml_entry(t, "currency")),
                },
                _ => ModuleCostConfig::default(),
            },
            None => ModuleCostConfig::default(),
        };
        Config { theme_name, separator, modules, theme_colors, tokens_config, cost_config }
    }

    /// Overrides the theme and the module list with the command line's
    /// `--theme` and `--modules` (a comma-separated list).
    pub fn apply_args(&mut self, theme: Option<String>, modules: Option<String>)
        ensures
            final(self).theme_name@ == match theme {
                Some(t) => t@,
                None => old(self).theme_name@,
            },
            texts(final(self).modules@) == match modules {
                Some(m) => list_items(m@),
                None => texts(old(self).modules@),
            },
            final(self).separator == old(self).separator,
            final(self).theme_colors == old(self).theme_colors,
            final(self).tokens_config == old(self).tokens_config,
            final(self).cost_config == old(self).cost_config,
    {
        if let Some(t) = theme {
            self.theme_name = t;
        }
        if let Some(m) = modules {
            self.modules = split_list(m.as_str());
        }
    }
}

} // verus!
