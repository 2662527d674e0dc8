use vstd::prelude::*;
use crate::text::opt_text;
use crate::modules::{is_segment, segment};
use crate::parser::SessionData;
use crate::text::{chars_of, push_char, push_range, str_eq, string_of};
use crate::theme::Theme;

verus! {

/// Shows the working directory.
pub struct CwdModule;

/// `path` with the home directory at its start written as `~`.
pub open spec fn home_replaced(path: Seq<char>, home: Option<Seq<char>>) -> Seq<char> {
    match home {
        Some(h) => if path.len() >= h.len() && path.take(h.len() as int) == h {
            seq!['~'] + path.skip(h.len() as int)
        } else {
            path
        },
        None => path,
    }
}

/// The index of the last `/` in `p`.
pub open spec fn last_slash(p: Seq<char>) -> Option<int>
    decreases p.len(),
{
    if p.len() == 0 {
        None
    } else if p.last() == '/' {
        Some(p.len() - 1)
    } else {
        last_slash(p.drop_last())
    }
}

/// `p` reduced to its last two components, `.../c/d`, when it has at least
/// two `/`; else `p`.
pub open spec fn last_two_components(p: Seq<char>) -> Seq<char> {
    match last_slash(p) {
        Some(k) => match last_slash(p.take(k)) {
            Some(j) => seq!['.', '.', '.', '/'] + p.subrange(j + 1, k) + seq!['/'] + p.skip(k + 1),
            None => p,
        },
        None => p,
    }
}

/// `path` shortened for display, `home` being the home directory.
pub open spec fn shortened_path(path: Seq<char>, home: Option<Seq<char>>) -> Seq<char> {
    last_two_components(home_replaced(path, home))
}

proof fn lemma_last_slash(p: Seq<char>)
    ensures
        match last_slash(p) {
            Some(k) => 0 <= k < p.len() && p[k] == '/' && forall|i: int| k < i < p.len() ==> p[i]
                != '/',
            None => forall|i: int| 0 <= i < p.len() ==> p[i] != '/',
        },
    decreases p.len(),
{
    if p.len() > 0 && p.last() != '/' {
        let d = p.drop_last();
        lemma_last_slash(d);
        match last_slash(d) {
            Some(k) => {
                assert forall|i: int| k < i < p.len() implies p[i] != '/' by {
                    if i < p.len() - 1 {
                        assert(p[i] == d[i]);
                    }
                }
            },
            None => {
                assert forall|i: int| 0 <= i < p.len() implies p[i] != '/' by {
                    if i < p.len() - 1 {
                        assert(p[i] == d[i]);
                    }
                }
            },
        }
    }
}

proof fn lemma_last_slash_at(p: Seq<char>, k: int)
    requires
        -1 <= k < p.len(),
        k >= 0 ==> p[k] == '/',
        forall|i: int| k < i < p.len() ==> p[i] != '/',
    ensures
        last_slash(p) == if k >= 0 { Some(k) } else { None::<int> },
    decreases p.len(),
{
    if p.len() > 0 && p.last() != '/' {
        lemma_last_slash_at(p.drop_last(), k);
    }
}

/// The index of the last `/` in `cs[..end]`.
fn find_last_slash(cs: &Vec<char>, end: usize) -> (r: Option<usize>)
    requires
        end <= cs@.len(),
    ensures
        match r {
            Some(k) => last_slash(cs@.take(end as int)) == Some(k as int),
            None => last_slash(cs@.take(end as int)) is None,
        },
{
    let mut i = end;
    while i > 0 && cs[i - 1] != '/'
        invariant
            i <= end <= cs@.len(),
            forall|j: int| i <= j < end ==> cs@[j] != '/',
        decreases i,
    {
        i = i - 1;
    }
    let ghost p = cs@.take(end as int);
    if i == 0 {
        proof {
            lemma_last_slash_at(p, -1);
        }
        None
    } else {
        proof {
            lemma_last_slash_at(p, i - 1);
        }
        Some(i - 1)
    }
}

/// `path` with a leading `home` written as `~`, reduced to its last two
/// components.
pub fn shorten_path_in(path: &str, home: Option<&str>) -> (r: String)
    ensures
        r@ == shortened_path(
            path@,
            match home {
                Some(h) => Some(h@),
                None => None,
            },
        ),
{
    let p = chars_of(path);
    let ghost hv: Option<Seq<char>> = match home {
        Some(h) => Some(h@),
        None => None,
    };
    let mut cs: Vec<char> = Vec::new();
    let mut replaced = false;
    if let Some(h) = home {
        let hc = chars_of(h);
        if p.len() >= hc.len() {
            let mut same = true;
            let mut i: usize = 0;
            assert(p@.take(0) =~= hc@.take(0));
            while i < hc.len()
                invariant
                    hc@.len() <= p@.len(),
                    i <= hc@.len(),
                    same == (p@.take(i as int) == hc@.take(i as int)),
                decreases hc@.len() - i,
            {
                if p[i] != hc[i] {
                    assert(p@.take(i + 1)[i as int] != hc@.take(i + 1)[i as int]);
                    same = false;
                } else if same {
                    assert(p@.take(i + 1) =~= hc@.take(i + 1));
                } else {
                    assert(p@.take(i as int) =~= p@.take(i + 1).take(i as int));
                    assert(hc@.take(i as int) =~= hc@.take(i + 1).take(i as int));
                }
                i = i + 1;
            }
            assert(hc@.take(hc@.len() as int) == hc@);
            if same {
                cs.push('~');
                let mut k = hc.len();
                while k < p.len()
                    invariant
                        hc@.len() <= k <= p@.len(),
                        cs@ == seq!['~'] + p@.subrange(hc@.len() as int, k as int),
                    decreases p@.len() - k,
                {
                    cs.push(p[k]);
                    assert(p@.subrange(hc@.len() as int, k + 1) == p@.subrange(
                        hc@.len() as int,
                        k as int,
                    ).push(p@[k as int]));
                    k = k + 1;
                }
                assert(p@.subrange(hc@.len() as int, p@.len() as int) == p@.skip(hc@.len() as int));
                replaced = true;
            }
        }
    }
    if !replaced {
        cs = p;
    }
    assert(cs@ == home_replaced(path@, hv));
    let n = cs.len();
    assert(cs@.take(n as int) == cs@);
    match find_last_slash(&cs, n) {
        None => string_of(cs.as_slice()),
        Some(k) => {
            proof {
                lemma_last_slash(cs@.take(n as int));
            }
            assert(cs@.take(n as int).take(k as int) == cs@.take(k as int));
            match find_last_slash(&cs, k) {
                None => string_of(cs.as_slice()),
                Some(j) => {
                    proof {
                        lemma_last_slash(cs@.take(k as int));
                    }
                    let mut r = String::new();
                    push_char(&mut r, '.');
                    push_char(&mut r, '.');
                    push_char(&mut r, '.');
                    push_char(&mut r, '/');
                    push_range(&mut r, cs.as_slice(), j + 1, k);
                    push_char(&mut r, '/');
                    push_range(&mut r, cs.as_slice(), k + 1, n);
                    assert(r@ =~= seq!['.', '.', '.', '/'] + cs@.subrange(j + 1, k as int) + seq![
                        '/',
                    ] + cs@.skip(k + 1));
                    r
                },
            }
        },
    }
}

/// The home directory (`dirs::home_dir`), as text, with invalid UTF-8
/// replaced as `to_string_lossy` does. It comes from the environment and the
/// system's user database, so the contract claims nothing of it.
#[verifier::external_body]
fn home_dir_text() -> Option<String> {
    dirs::home_dir().map(|h| h.to_string_lossy().into_owned())
}

/// `path` with the user's home directory written as `~`, reduced to its last
/// two components.
pub fn shorten_path(path: &str) -> (r: String)
    ensures
        exists|home: Option<Seq<char>>| r@ == shortened_path(path@, home),
{
    let home = home_dir_text();
    match &home {
        Some(h) => {
            let r = shorten_path_in(path, Some(h.as_str()));
            assert(r@ == shortened_path(path@, Some(h@)));
            r
        },
        None => {
            let r = shorten_path_in(path, None);
            assert(r@ == shortened_path(path@, None));
            r
        },
    }
}

/// The folder icon in the theme called `theme_name`.
pub open spec fn folder_icon(theme_name: Seq<char>) -> Seq<char> {
    if theme_name == "minimal"@ {
        Seq::empty()
    } else if theme_name == "powerline"@ {
        "\u{f07b} "@
    } else {
        "\u{1f4c2} "@
    }
}

/// What `render` gives: the segment, or nothing when its data is missing.
pub open spec fn cwd_output(data: SessionData, theme: Theme, r: Option<Seq<char>>) -> bool {
    match data.cwd {
        None => r is None,
        Some(c) => r is Some && exists|home: Option<Seq<char>>|
            is_segment(
                r->0,
                folder_icon(theme.name@),
                #[trigger] shortened_path(c@, home),
                theme.colors.secondary@,
            ),
    }
}

impl CwdModule {
    pub fn name(&self) -> (r: &'static str)
        ensures
            r@ == "cwd"@,
    {
        "cwd"
    }

    /// The shortened working directory, after the folder icon, in the secondary color.
    pub fn render(&self, data: &SessionData, theme: &Theme) -> (r: Option<String>)
        ensures
            cwd_output(*data, *theme, opt_text(r)),
    {
        match &data.cwd {
            None => None,
            Some(c) => {
                let display = shorten_path(c.as_str());
                proof {
                    reveal_strlit("");
                }
                let icon = if str_eq(theme.name.as_str(), "minimal") {
                    ""
                } else if str_eq(theme.name.as_str(), "powerline") {
                    "\u{f07b} "
                } else {
                    "\u{1f4c2} "
                };
                assert(icon@ == folder_icon(theme.name@));
                let r = segment(icon, display.as_str(), theme.colors.secondary.as_str());
                let ghost home = choose|home: Option<Seq<char>>| display@ == shortened_path(c@, home);
                assert(is_segment(r@, folder_icon(theme.name@), shortened_path(c@, home), theme.colors.secondary@));
                Some(r)
            },
        }
    }
}

} // verus!
