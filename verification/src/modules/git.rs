use vstd::prelude::*;
use crate::text::opt_text;
use crate::modules::{is_segment, segment};
use crate::parser::SessionData;
use crate::text::{push_char, text, trim, trimmed};
use crate::theme::Theme;

verus! {

/// Shows the git branch.
pub struct GitModule;

/// The branch with a `*` after it when the working tree is dirty.
pub open spec fn branch_text(branch: Seq<char>, dirty: Option<bool>) -> Seq<char> {
    if dirty == Some(true) {
        branch.push('*')
    } else {
        branch
    }
}

/// What `render` gives: the segment, or nothing when its data is missing.
pub open spec fn git_output(data: SessionData, theme: Theme, git_head: Option<String>, r: Option<Seq<char>>) -> bool {
    match data.git_branch {
        Some(b) => r is Some && is_segment(
            r->0,
            theme.icons.git@,
            branch_text(b@, data.git_dirty),
            theme.colors.accent@,
        ),
        None => match git_head {
            Some(out) => if trimmed(out@).len() == 0 {
                r is None
            } else {
                r is Some && is_segment(
                    r->0,
                    theme.icons.git@,
                    trimmed(out@),
                    theme.colors.accent@,
                )
            },
            None => r is None,
        },
    }
}

impl GitModule {
    pub fn name(&self) -> (r: &'static str)
        ensures
            r@ == "git"@,
    {
        "git"
    }

    /// The branch that the session reports (with `*` when dirty); else, when
    /// `git_head` holds the output of `git rev-parse --abbrev-ref HEAD` run in
    /// the current directory, that output trimmed, unless it is empty. After
    /// the git icon, in the accent color.
    pub fn render(&self, data: &SessionData, theme: &Theme, git_head: &Option<String>) -> (r:
        Option<String>)
        ensures
            git_output(*data, *theme, *git_head, opt_text(r)),
    {
        match &data.git_branch {
            Some(b) => {
                let mut t = text(b.as_str());
                if data.git_dirty == Some(true) {
                    push_char(&mut t, '*');
                }
                Some(segment(theme.icons.git, t.as_str(), theme.colors.accent.as_str()))
            },
            None => match git_head {
                None => None,
                Some(out) => {
                    let branch = trim(out.as_str());
                    if branch.as_str().is_empty() {
                        None
                    } else {
                        Some(segment(theme.icons.git, branch.as_str(), theme.colors.accent.as_str()))
                    }
                },
            },
        }
    }
}

} // verus!
