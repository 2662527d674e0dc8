use vstd::prelude::*;
use crate::config::split_on;
use crate::text::{chars_of, push_char, push_range, push_str, text, texts, trimmed};

verus! {

/// Whether `sub` occurs in `s`.
pub open spec fn contains_seq(s: Seq<char>, sub: Seq<char>) -> bool {
    exists|i: int| 0 <= i <= s.len() - sub.len() && #[trigger] s.subrange(i, i + sub.len()) == sub
}

/// Whether `sub` occurs in `s` at `i`.
fn occurs_at(s: &Vec<char>, sub: &Vec<char>, i: usize) -> (r: bool)
    requires
        i + sub@.len() <= s@.len(),
    ensures
        r == (s@.subrange(i as int, i + sub@.len()) == sub@),
{
    let m = sub.len();
    for j in 0..m
        invariant
            m == sub@.len(),
            i + m <= s.len(),
            forall|k: int| 0 <= k < j ==> s@[i + k] == sub@[k],
    {
        if s[i + j] != sub[j] {
            assert(s@.subrange(i as int, i + m)[j as int] != sub@[j as int]);
            return false;
        }
    }
    assert(s@.subrange(i as int, i + m) =~= sub@);
    true
}

/// Whether `sub` occurs in `s`.
pub fn contains_str(s: &str, sub: &str) -> (r: bool)
    ensures
        r == contains_seq(s@, sub@),
{
    let a = chars_of(s);
    let b = chars_of(sub);
    if b.len() > a.len() {
        return false;
    }
    if b.len() == 0 {
        assert(s@.subrange(0int, 0int + sub@.len()) =~= sub@);
        return true;
    }
    let last = a.len() - b.len();
    let mut i: usize = 0;
    while i <= last
        invariant
            a@ == s@,
            b@ == sub@,
            last == a@.len() - b@.len(),
            last < a.len(),
            i <= last + 1,
            forall|k: int| 0 <= k < i ==> #[trigger] a@.subrange(k, k + b@.len()) != b@,
        decreases last + 1 - i,
    {
        if occurs_at(&a, &b, i) {
            return true;
        }
        i = i + 1;
    }
    false
}

/// `l` without a final carriage return.
pub open spec fn strip_cr(l: Seq<char>) -> Seq<char> {
    if l.len() > 0 && l.last() == '\r' {
        l.drop_last()
    } else {
        l
    }
}

/// The lines of `s`, as `str::lines` gives them: split at `\n`, a `\r`
/// before a `\n` dropped, no empty line after a final `\n`.
pub open spec fn text_lines(s: Seq<char>) -> Seq<Seq<char>> {
    let p = split_on(s, '\n');
    p.drop_last().map_values(|l: Seq<char>| strip_cr(l)) + if p.last().len() > 0 {
        seq![p.last()]
    } else {
        Seq::empty()
    }
}

/// Each of `ls` followed by a newline.
pub open spec fn unlines(ls: Seq<Seq<char>>) -> Seq<char>
    decreases ls.len(),
{
    if ls.len() == 0 {
        Seq::empty()
    } else {
        unlines(ls.drop_last()) + ls.last() + seq!['\n']
    }
}

/// The lines of `s`.
pub fn lines_of(s: &str) -> (r: Vec<String>)
    ensures
        texts(r@) == text_lines(s@),
{
    let cs = chars_of(s);
    let n = cs.len();
    let mut out: Vec<String> = Vec::new();
    let mut start: usize = 0;
    let ghost mut done: Seq<Seq<char>> = Seq::empty();
    assert(cs@.take(0) =~= Seq::<char>::empty());
    assert(done.push(cs@.subrange(0, 0)) =~= split_on(cs@.take(0), '\n'));
    for i in 0..n
        invariant
            n == cs@.len(),
            start <= i,
            done.push(cs@.subrange(start as int, i as int)) == split_on(cs@.take(i as int), '\n'),
            texts(out@) == done.map_values(|l: Seq<char>| strip_cr(l)),
    {
        assert(cs@.take(i + 1).drop_last() == cs@.take(i as int));
        assert(cs@.take(i + 1).last() == cs@[i as int]);
        if cs[i] == '\n' {
            let end = if i > start && cs[i - 1] == '\r' {
                i - 1
            } else {
                i
            };
            let mut piece = String::new();
            push_range(&mut piece, cs.as_slice(), start, end);
            let ghost old_out = out@;
            let ghost pv = piece@;
            proof {
                let raw = cs@.subrange(start as int, i as int);
                if i > start && cs@[i - 1] == '\r' {
                    assert(raw.drop_last() =~= cs@.subrange(start as int, i - 1));
                }
                assert(pv == strip_cr(raw));
            }
            out.push(piece);
            proof {
                let p = split_on(cs@.take(i as int), '\n');
                assert(split_on(cs@.take(i + 1), '\n') == p.push(Seq::<char>::empty()));
                done = done.push(cs@.subrange(start as int, i as int));
                assert(texts(out@) =~= texts(old_out).push(pv));
                assert(texts(out@) =~= done.map_values(|l: Seq<char>| strip_cr(l)));
                assert(cs@.subrange(i + 1, i + 1) =~= Seq::<char>::empty());
                assert(p == done);
                assert(done.push(cs@.subrange(i + 1, i + 1)) =~= split_on(cs@.take(i + 1), '\n'));
            }
            start = i + 1;
        } else {
            proof {
                let p = split_on(cs@.take(i as int), '\n');
                assert(cs@.subrange(start as int, i + 1) == cs@.subrange(start as int, i as int).push(
                    cs@[i as int],
                ));
                assert(done.push(cs@.subrange(start as int, i + 1)) =~= p.update(
                    p.len() - 1,
                    p.last().push(cs@[i as int]),
                ));
            }
        }
    }
    proof {
        assert(cs@.take(n as int) == cs@);
    }
    let ghost p = split_on(cs@, '\n');
    assert(p.drop_last() == done);
    assert(p.last() == cs@.subrange(start as int, n as int));
    if start < n {
        let mut piece = String::new();
        push_range(&mut piece, cs.as_slice(), start, n);
        let ghost old_out = out@;
        out.push(piece);
        assert(texts(out@) =~= texts(old_out).push(p.last()));
        assert(texts(out@) =~= text_lines(s@));
    } else {
        assert(texts(out@) =~= text_lines(s@));
    }
    out
}

/// The scan that keeps the lines outside the managed block: a line that
/// trims to `marker` opens the block, one that trims to `end` closes it;
/// both marker lines and the lines inside are dropped. The state is the kept
/// lines and whether a block is open.
pub open spec fn keep_from(
    st: (Seq<Seq<char>>, bool),
    ls: Seq<Seq<char>>,
    marker: Seq<char>,
    end: Seq<char>,
) -> (Seq<Seq<char>>, bool)
    decreases ls.len(),
{
    if ls.len() == 0 {
        st
    } else {
        let prev = keep_from(st, ls.drop_last(), marker, end);
        let l = ls.last();
        if trimmed(l) == marker {
            (prev.0, true)
        } else if trimmed(l) == end {
            (prev.0, false)
        } else if prev.1 {
            prev
        } else {
            (prev.0.push(l), false)
        }
    }
}

/// The lines of `ls` outside the managed block.
pub open spec fn lines_outside(ls: Seq<Seq<char>>, marker: Seq<char>, end: Seq<char>) -> Seq<
    Seq<char>,
> {
    keep_from((Seq::empty(), false), ls, marker, end).0
}

/// The marker that closes a block opened by `marker`.
pub open spec fn end_marker(marker: Seq<char>) -> Seq<char> {
    marker + seq!['-', 'e', 'n', 'd']
}

/// `c` ending with a newline.
pub open spec fn with_final_newline(c: Seq<char>) -> Seq<char> {
    if c.len() > 0 && c.last() == '\n' {
        c
    } else {
        c.push('\n')
    }
}

/// How a managed block went into a file.
#[derive(PartialEq, Eq, Structural, Clone, Copy, Debug)]
pub enum BlockChange {
    /// The file did not exist and holds the block alone.
    Created,
    /// The file had no block, which was added at its end.
    Appended,
    /// The file had a block, which was replaced.
    Updated,
}

/// A file's content after the managed block `block` (opened by a line
/// `marker`, closed by its end marker) is put in it: `content` is the file's
/// content, or nothing when there is no file. A file without the marker gets
/// the block after a blank line; in a file with the marker, every old block
/// is taken out, lines are ended by newlines, and the block goes at the end.
pub open spec fn upserted(content: Option<Seq<char>>, marker: Seq<char>, block: Seq<char>) -> Seq<
    char,
> {
    match content {
        None => block.push('\n'),
        Some(c) => if contains_seq(c, marker) {
            unlines(lines_outside(text_lines(c), marker, end_marker(marker))) + block + seq!['\n']
        } else {
            with_final_newline(c) + seq!['\n'] + block + seq!['\n']
        },
    }
}

/// The change that putting the block in makes.
pub open spec fn block_change(content: Option<Seq<char>>, marker: Seq<char>) -> BlockChange {
    match content {
        None => BlockChange::Created,
        Some(c) => if contains_seq(c, marker) {
            BlockChange::Updated
        } else {
            BlockChange::Appended
        },
    }
}

/// Puts the managed block `block` into a file whose content is `content`
/// (nothing when there is no file), replacing the block that is there; gives
/// the new content and what changed.
pub fn upsert_block(content: Option<&str>, marker: &str, block: &str) -> (r: (String, BlockChange))
    ensures
        r.0@ == upserted(
            match content {
                Some(c) => Some(c@),
                None => None,
            },
            marker@,
            block@,
        ),
        r.1 == block_change(
            match content {
                Some(c) => Some(c@),
                None => None,
            },
            marker@,
        ),
{
    match content {
        None => {
            let mut r = text(block);
            push_char(&mut r, '\n');
            (r, BlockChange::Created)
        },
        Some(c) => {
            if contains_str(c, marker) {
                let mut end = text(marker);
                push_str(&mut end, "-end");
                proof {
                    reveal_strlit("-end");
                    assert(end@ =~= end_marker(marker@));
                }
                let ls = lines_of(c);
                let n = ls.len();
                let mut out = String::new();
                let mut skipping = false;
                let ghost mut kept: Seq<Seq<char>> = Seq::empty();
                for i in 0..n
                    invariant
                        n == ls@.len(),
                        end@ == end_marker(marker@),
                        keep_from(
                            (Seq::empty(), false),
                            texts(ls@).take(i as int),
                            marker@,
                            end@,
                        ) == (kept, skipping),
                        out@ == unlines(kept),
                {
                    assert(texts(ls@).take(i + 1).drop_last() == texts(ls@).take(i as int));
                    assert(texts(ls@).take(i + 1).last() == ls@[i as int]@);
                    let t = trim_range_str(ls[i].as_str());
                    if str_eq_string(&t, marker) {
                        skipping = true;
                    } else if str_eq_string(&t, end.as_str()) {
                        skipping = false;
                    } else if !skipping {
                        push_str(&mut out, ls[i].as_str());
                        push_char(&mut out, '\n');
                        proof {
                            let old_kept = kept;
                            kept = kept.push(ls@[i as int]@);
                            assert(kept.drop_last() == old_kept);
                            assert(out@ =~= unlines(kept));
                        }
                    }
                }
                assert(texts(ls@).take(n as int) == texts(ls@));
                push_str(&mut out, block);
                push_char(&mut out, '\n');
                assert(out@ =~= unlines(kept) + block@ + seq!['\n']);
                (out, BlockChange::Updated)
            } else {
                let mut r = text(c);
                let cs = chars_of(c);
                if !(cs.len() > 0 && cs[cs.len() - 1] == '\n') {
                    push_char(&mut r, '\n');
                }
                assert(r@ == with_final_newline(c@));
                push_char(&mut r, '\n');
                push_str(&mut r, block);
                push_char(&mut r, '\n');
                (r, BlockChange::Appended)
            }
        },
    }
}

/// `s` without surrounding white space.
fn trim_range_str(s: &str) -> (r: String)
    ensures
        r@ == trimmed(s@),
{
    crate::text::trim(s)
}

/// Whether `a` holds the characters of `b`.
fn str_eq_string(a: &String, b: &str) -> (r: bool)
    ensures
        r == (a@ == b@),
{
    crate::text::str_eq(a.as_str(), b)
}

/// Whether `l` belongs to the old `cx` alias: it holds the alias, or it is
/// the alias's comment.
pub open spec fn alias_line(l: Seq<char>) -> bool {
    contains_seq(l, "alias cx='tmux new-session"@) || trimmed(l) == "# cxline: codex+tmux shortcut"@
}

/// A shell startup file after the old `cx` alias is taken out: its lines
/// without the alias's, joined by newlines and ended by one; unchanged when
/// it holds no alias.
pub open spec fn alias_removed(c: Seq<char>) -> Seq<char> {
    if contains_seq(c, "alias cx='tmux new-session"@) {
        crate::text::join(without_alias(text_lines(c)), seq!['\n']).push('\n')
    } else {
        c
    }
}

/// The lines of `ls` that are not part of the old `cx` alias: those that do
/// not hold the alias and are not its comment.
pub open spec fn without_alias(ls: Seq<Seq<char>>) -> Seq<Seq<char>>
    decreases ls.len(),
{
    if ls.len() == 0 {
        Seq::empty()
    } else {
        let l = ls.last();
        if !alias_line(l) {
            without_alias(ls.drop_last()).push(l)
        } else {
            without_alias(ls.drop_last())
        }
    }
}

/// A shell startup file without the old `cx` alias (and its comment), its
/// lines joined by newlines and ended by one; nothing when it has no alias.
pub fn remove_legacy_alias(content: &str) -> (r: Option<String>)
    ensures
        match r {
            Some(t) => contains_seq(content@, "alias cx='tmux new-session"@) && t@ == crate::text::join(
                without_alias(text_lines(content@)),
                seq!['\n'],
            ).push('\n'),
            None => !contains_seq(content@, "alias cx='tmux new-session"@),
        },
{
    if !contains_str(content, "alias cx='tmux new-session") {
        return None;
    }
    let ls = lines_of(content);
    let n = ls.len();
    let mut kept: Vec<String> = Vec::new();
    for i in 0..n
        invariant
            n == ls@.len(),
            texts(kept@) == without_alias(texts(ls@).take(i as int)),
    {
        assert(texts(ls@).take(i + 1).drop_last() == texts(ls@).take(i as int));
        assert(texts(ls@).take(i + 1).last() == ls@[i as int]@);
        let l = ls[i].as_str();
        let t = trim_range_str(l);
        if !contains_str(l, "alias cx='tmux new-session") && !str_eq_string(
            &t,
            "# cxline: codex+tmux shortcut",
        ) {
            let ghost old_kept = kept@;
            kept.push(text(l));
            assert(texts(kept@) =~= texts(old_kept).push(ls@[i as int]@));
        }
    }
    assert(texts(ls@).take(n as int) == texts(ls@));
    let mut r = crate::text::join_strings(&kept, "\n");
    proof {
        reveal_strlit("\n");
        assert("\n"@ =~= seq!['\n']);
    }
    push_char(&mut r, '\n');
    Some(r)
}

/// The tmux configuration block: a bottom status bar that runs
/// `<cxline> show` every two seconds.
pub open spec fn tmux_block_text(cxline: Seq<char>) -> Seq<char> {
    "# cxline-managed\nset -g status on\nset -g status-style 'bg=default,fg=white'\nset -g status-left-length 120\nset -g status-left '#(CXLINE_QUIET=1 "@
        + cxline
        + " show 2>/dev/null)'\nset -g window-status-format ''\nset -g window-status-current-format ''\nset -g status-right ''\nset -g status-right-length 0\nset -g status-interval 2\nset -g status-position bottom\n# cxline-managed-end"@
}

/// The tmux configuration block for the program at `cxline`.
pub fn tmux_block(cxline: &str) -> (r: String)
    ensures
        r@ == tmux_block_text(cxline@),
{
    let mut r = text("# cxline-managed\nset -g status on\nset -g status-style 'bg=default,fg=white'\nset -g status-left-length 120\nset -g status-left '#(CXLINE_QUIET=1 ");
    push_str(&mut r, cxline);
    push_str(&mut r, " show 2>/dev/null)'\nset -g window-status-format ''\nset -g window-status-current-format ''\nset -g status-right ''\nset -g status-right-length 0\nset -g status-interval 2\nset -g status-position bottom\n# cxline-managed-end");
    r
}

/// The shell function that starts `codex` inside tmux.
pub open spec fn shell_wrapper_text() -> Seq<char> {
    "# cxline-codex-wrapper\ncodex() {\n  if [ -z \"$TMUX\" ]; then\n    tmux new-session -A -s codex \"command codex $*\"\n  else\n    command codex \"$@\"\n  fi\n}\n# cxline-codex-wrapper-end"@
}

/// The shell function that starts `codex` inside tmux.
pub fn shell_wrapper_block() -> (r: String)
    ensures
        r@ == shell_wrapper_text(),
{
    text("# cxline-codex-wrapper\ncodex() {\n  if [ -z \"$TMUX\" ]; then\n    tmux new-session -A -s codex \"command codex $*\"\n  else\n    command codex \"$@\"\n  fi\n}\n# cxline-codex-wrapper-end")
}

/// The PowerShell function that runs `<cxline> watch --title` beside `codex`.
pub open spec fn powershell_wrapper_text(cxline: Seq<char>) -> Seq<char> {
    "# cxline-codex-wrapper\nfunction codex {\n    $cxlineArgs = @(\"watch\", \"--title\")\n    $cxlineProc = Start-Process -FilePath \""@
        + cxline
        + "\" -ArgumentList $cxlineArgs -NoNewWindow -PassThru\n    try {\n        & codex.exe @args\n    } finally {\n        if (!$cxlineProc.HasExited) {\n            Stop-Process -Id $cxlineProc.Id -Force -ErrorAction SilentlyContinue\n        }\n        # Clear terminal title\n        Write-Host \"`e]0;`a\" -NoNewline\n    }\n}\n# cxline-codex-wrapper-end"@
}

/// The PowerShell function for the program at `cxline`.
pub fn powershell_wrapper_block(cxline: &str) -> (r: String)
    ensures
        r@ == powershell_wrapper_text(cxline@),
{
    let mut r = text("# cxline-codex-wrapper\nfunction codex {\n    $cxlineArgs = @(\"watch\", \"--title\")\n    $cxlineProc = Start-Process -FilePath \"");
    push_str(&mut r, cxline);
    push_str(&mut r, "\" -ArgumentList $cxlineArgs -NoNewWindow -PassThru\n    try {\n        & codex.exe @args\n    } finally {\n        if (!$cxlineProc.HasExited) {\n            Stop-Process -Id $cxlineProc.Id -Force -ErrorAction SilentlyContinue\n        }\n        # Clear terminal title\n        Write-Host \"`e]0;`a\" -NoNewline\n    }\n}\n# cxline-codex-wrapper-end");
    r
}

/// Whether the login shell `shell` is zsh (its path holds `zsh`), whose
/// startup file is `.zshrc`; `.bashrc` otherwise.
pub fn uses_zshrc(shell: &str) -> (r: bool)
    ensures
        r == contains_seq(shell@, "zsh"@),
{
    contains_str(shell, "zsh")
}

/// A line that holds no newline and does not end with a carriage return.
pub open spec fn clean_line(l: Seq<char>) -> bool {
    &&& forall|i: int| 0 <= i < l.len() ==> l[i] != '\n'
    &&& !(l.len() > 0 && l.last() == '\r')
}

proof fn lemma_split_push(s: Seq<char>, c: char, sep: char)
    ensures
        split_on(s.push(c), sep) == if c == sep {
            split_on(s, sep).push(Seq::empty())
        } else {
            split_on(s, sep).update(split_on(s, sep).len() - 1, split_on(s, sep).last().push(c))
        },
{
    assert(s.push(c).drop_last() == s);
}

proof fn lemma_split_len(s: Seq<char>, sep: char)
    ensures
        split_on(s, sep).len() >= 1,
    decreases s.len(),
{
    if s.len() > 0 {
        lemma_split_len(s.drop_last(), sep);
    }
}

/// Appending text without separators extends the last piece.
proof fn lemma_split_extend(x: Seq<char>, l: Seq<char>, sep: char)
    requires
        forall|i: int| 0 <= i < l.len() ==> l[i] != sep,
    ensures
        split_on(x + l, sep) == split_on(x, sep).update(
            split_on(x, sep).len() - 1,
            split_on(x, sep).last() + l,
        ),
    decreases l.len(),
{
    lemma_split_len(x, sep);
    if l.len() == 0 {
        assert(x + l == x);
        assert(split_on(x, sep).last() + l == split_on(x, sep).last());
        assert(split_on(x, sep).update(split_on(x, sep).len() - 1, split_on(x, sep).last())
            =~= split_on(x, sep));
    } else {
        let l0 = l.drop_last();
        lemma_split_extend(x, l0, sep);
        assert(x + l == (x + l0).push(l.last()));
        lemma_split_push(x + l0, l.last(), sep);
        let p = split_on(x, sep);
        assert((p.last() + l0).push(l.last()) == p.last() + l);
        assert(split_on(x + l, sep) =~= p.update(p.len() - 1, p.last() + l));
    }
}

/// `unlines` of two runs of lines.
proof fn lemma_unlines_concat(a: Seq<Seq<char>>, b: Seq<Seq<char>>)
    ensures
        unlines(a + b) == unlines(a) + unlines(b),
    decreases b.len(),
{
    if b.len() == 0 {
        assert(a + b == a);
        assert(unlines(a) + unlines(b) == unlines(a));
    } else {
        lemma_unlines_concat(a, b.drop_last());
        assert((a + b).drop_last() == a + b.drop_last());
        assert((a + b).last() == b.last());
        assert(unlines(a + b) =~= unlines(a) + unlines(b));
    }
}

/// The pieces of `unlines(ls)` are the lines and an empty one.
proof fn lemma_split_unlines(ls: Seq<Seq<char>>)
    requires
        forall|k: int, i: int| 0 <= k < ls.len() && 0 <= i < ls[k].len() ==> ls[k][i] != '\n',
    ensures
        split_on(unlines(ls), '\n') == ls.push(Seq::<char>::empty()),
    decreases ls.len(),
{
    if ls.len() == 0 {
        assert(split_on(Seq::<char>::empty(), '\n') =~= seq![Seq::<char>::empty()]);
    } else {
        let prev = ls.drop_last();
        let l = ls.last();
        assert forall|k: int, i: int| 0 <= k < prev.len() && 0 <= i < prev[k].len() implies prev[k][i] != '\n' by {
            assert(prev[k] == ls[k]);
        }
        lemma_split_unlines(prev);
        assert forall|i: int| 0 <= i < l.len() implies l[i] != '\n' by {
            assert(l == ls[ls.len() - 1]);
        }
        lemma_split_extend(unlines(prev), l, '\n');
        let u = unlines(prev) + l;
        assert(unlines(ls) == u.push('\n'));
        lemma_split_push(u, '\n', '\n');
        assert(prev.push(Seq::<char>::empty()).update(prev.len() as int, Seq::<char>::empty() + l)
            =~= prev.push(l));
        assert(prev.push(l) =~= ls);
    }
}

/// The lines of `unlines(ls)` are `ls`, for clean lines.
pub proof fn lemma_lines_unlines(ls: Seq<Seq<char>>)
    requires
        forall|k: int| 0 <= k < ls.len() ==> clean_line(#[trigger] ls[k]),
    ensures
        text_lines(unlines(ls)) == ls,
{
    assert forall|k: int, i: int| 0 <= k < ls.len() && 0 <= i < ls[k].len() implies ls[k][i] != '\n' by {
        assert(clean_line(ls[k]));
    }
    lemma_split_unlines(ls);
    let p = ls.push(Seq::<char>::empty());
    assert(p.drop_last() == ls);
    assert forall|k: int| 0 <= k < ls.len() implies strip_cr(ls[k]) == ls[k] by {
        assert(clean_line(ls[k]));
    }
    assert(ls.map_values(|l: Seq<char>| strip_cr(l)) =~= ls);
    assert(text_lines(unlines(ls)) =~= ls);
}

/// The pieces of `s` joined again by newlines give `s`.
proof fn lemma_unlines_split(s: Seq<char>)
    ensures
        unlines(split_on(s, '\n').drop_last()) + split_on(s, '\n').last() == s,
    decreases s.len(),
{
    lemma_split_len(s, '\n');
    if s.len() == 0 {
        assert(split_on(s, '\n') =~= seq![Seq::<char>::empty()]);
        assert(unlines(Seq::<Seq<char>>::empty()) + Seq::<char>::empty() =~= s);
    } else {
        let s0 = s.drop_last();
        lemma_unlines_split(s0);
        lemma_split_len(s0, '\n');
        let p0 = split_on(s0, '\n');
        assert(s0.push(s.last()) == s);
        lemma_split_push(s0, s.last(), '\n');
        if s.last() == '\n' {
            let p = p0.push(Seq::<char>::empty());
            assert(p.drop_last() == p0);
            assert(p0.drop_last().push(p0.last()) == p0);
            assert(unlines(p0) == unlines(p0.drop_last()) + p0.last() + seq!['\n']);
            assert(unlines(p.drop_last()) + p.last() =~= s);
        } else {
            let p = p0.update(p0.len() - 1, p0.last().push(s.last()));
            assert(p.drop_last() =~= p0.drop_last());
            assert(unlines(p.drop_last()) + p.last() =~= s);
        }
    }
}

/// No line of `s` (but possibly the last, unended one) ends with a carriage return.
pub open spec fn crlf_free(s: Seq<char>) -> bool {
    let p = split_on(s, '\n');
    forall|i: int| 0 <= i < p.len() - 1 ==> !(#[trigger] p[i].len() > 0 && p[i].last() == '\r')
}

proof fn lemma_pieces_no_newline(s: Seq<char>)
    ensures
        forall|k: int, i: int|
            0 <= k < split_on(s, '\n').len() && 0 <= i < split_on(s, '\n')[k].len()
                ==> split_on(s, '\n')[k][i] != '\n',
    decreases s.len(),
{
    if s.len() > 0 {
        let s0 = s.drop_last();
        lemma_pieces_no_newline(s0);
        lemma_split_len(s0, '\n');
        assert(s0.push(s.last()) == s);
        lemma_split_push(s0, s.last(), '\n');
        let p0 = split_on(s0, '\n');
        let p = split_on(s, '\n');
        assert forall|k: int, i: int| 0 <= k < p.len() && 0 <= i < p[k].len() implies p[k][i]
            != '\n' by {
            if s.last() == '\n' {
                if k < p0.len() {
                    assert(p[k] == p0[k]);
                }
            } else {
                if k < p0.len() - 1 {
                    assert(p[k] == p0[k]);
                } else {
                    assert(p[k] == p0.last().push(s.last()));
                    if i < p0.last().len() {
                        assert(p[k][i] == p0[p0.len() - 1][i]);
                    }
                }
            }
        }
    }
}

/// A text that ends with a newline and has no carriage return before one is
/// its lines, each followed by a newline.
pub proof fn lemma_unlines_lines(c: Seq<char>)
    requires
        c.len() > 0,
        c.last() == '\n',
        crlf_free(c),
    ensures
        unlines(text_lines(c)) == c,
        forall|k: int| 0 <= k < text_lines(c).len() ==> clean_line(#[trigger] text_lines(c)[k]),
{
    let c0 = c.drop_last();
    assert(c0.push('\n') == c);
    lemma_split_push(c0, '\n', '\n');
    let p = split_on(c, '\n');
    assert(p.last() == Seq::<char>::empty());
    lemma_unlines_split(c);
    lemma_pieces_no_newline(c);
    let q = p.drop_last();
    assert forall|k: int| 0 <= k < q.len() implies strip_cr(q[k]) == q[k] by {
        assert(q[k] == p[k]);
        assert(!(p[k].len() > 0 && p[k].last() == '\r'));
    }
    assert(q.map_values(|l: Seq<char>| strip_cr(l)) =~= q);
    assert(text_lines(c) =~= q);
    assert(unlines(q) + Seq::<char>::empty() == unlines(q));
    assert forall|k: int| 0 <= k < q.len() implies clean_line(#[trigger] q[k]) by {
        assert(q[k] == p[k]);
        assert forall|i: int| 0 <= i < q[k].len() implies q[k][i] != '\n' by {
            assert(p[k][i] != '\n');
        }
    }
}

/// Scanning `a + b` is scanning `a`, then `b`.
proof fn lemma_keep_concat(
    st: (Seq<Seq<char>>, bool),
    a: Seq<Seq<char>>,
    b: Seq<Seq<char>>,
    marker: Seq<char>,
    end: Seq<char>,
)
    ensures
        keep_from(st, a + b, marker, end) == keep_from(keep_from(st, a, marker, end), b, marker, end),
    decreases b.len(),
{
    if b.len() == 0 {
        assert(a + b == a);
    } else {
        assert((a + b).drop_last() == a + b.drop_last());
        assert((a + b).last() == b.last());
        lemma_keep_concat(st, a, b.drop_last(), marker, end);
    }
}

/// Lines that are no markers are all kept, outside a block.
proof fn lemma_keep_plain(k: Seq<Seq<char>>, a: Seq<Seq<char>>, marker: Seq<char>, end: Seq<char>)
    requires
        forall|i: int| 0 <= i < a.len() ==> trimmed(#[trigger] a[i]) != marker && trimmed(a[i]) != end,
    ensures
        keep_from((k, false), a, marker, end) == (k + a, false),
    decreases a.len(),
{
    if a.len() == 0 {
        assert(k + a == k);
    } else {
        let a0 = a.drop_last();
        assert forall|i: int| 0 <= i < a0.len() implies trimmed(#[trigger] a0[i]) != marker
            && trimmed(a0[i]) != end by {
            assert(a0[i] == a[i]);
        }
        lemma_keep_plain(k, a0, marker, end);
        assert(trimmed(a[a.len() - 1]) != marker);
        assert((k + a0).push(a.last()) =~= k + a);
    }
}

/// Inside a block, lines that do not close it are dropped.
proof fn lemma_keep_inside(k: Seq<Seq<char>>, a: Seq<Seq<char>>, marker: Seq<char>, end: Seq<char>)
    requires
        forall|i: int| 0 <= i < a.len() ==> trimmed(#[trigger] a[i]) != end,
    ensures
        keep_from((k, true), a, marker, end) == (k, true),
    decreases a.len(),
{
    if a.len() > 0 {
        let a0 = a.drop_last();
        assert forall|i: int| 0 <= i < a0.len() implies trimmed(#[trigger] a0[i]) != end by {
            assert(a0[i] == a[i]);
        }
        lemma_keep_inside(k, a0, marker, end);
        assert(trimmed(a[a.len() - 1]) != end);
    }
}

/// The kept lines are no markers.
proof fn lemma_kept_no_markers(ls: Seq<Seq<char>>, marker: Seq<char>, end: Seq<char>)
    ensures
        forall|i: int|
            0 <= i < lines_outside(ls, marker, end).len() ==> trimmed(
                #[trigger] lines_outside(ls, marker, end)[i],
            ) != marker && trimmed(lines_outside(ls, marker, end)[i]) != end,
    decreases ls.len(),
{
    if ls.len() > 0 {
        lemma_kept_no_markers(ls.drop_last(), marker, end);
        let prev = keep_from((Seq::empty(), false), ls.drop_last(), marker, end);
        let cur = keep_from((Seq::empty(), false), ls, marker, end);
        assert forall|i: int| 0 <= i < cur.0.len() implies trimmed(#[trigger] cur.0[i]) != marker
            && trimmed(cur.0[i]) != end by {
            let l = ls.last();
            assert(prev.0 == lines_outside(ls.drop_last(), marker, end));
            if trimmed(l) == marker || trimmed(l) == end || prev.1 {
                assert(cur.0 == prev.0);
                assert(cur.0[i] == lines_outside(ls.drop_last(), marker, end)[i]);
            } else {
                assert(cur.0 == prev.0.push(l));
                if i < prev.0.len() {
                    assert(cur.0[i] == lines_outside(ls.drop_last(), marker, end)[i]);
                } else {
                    assert(cur.0[i] == l);
                }
            }
        }
    }
}

/// `m` occurs in `x + m + y`.
proof fn lemma_contains_middle(x: Seq<char>, m: Seq<char>, y: Seq<char>)
    ensures
        contains_seq(x + m + y, m),
{
    let s = x + m + y;
    assert(s.subrange(x.len() as int, (x.len() + m.len()) as int) =~= m);
}

/// An occurrence inside a part is an occurrence in the whole.
proof fn lemma_contains_sub(s: Seq<char>, a: int, b: int, m: Seq<char>)
    requires
        0 <= a <= b <= s.len(),
        contains_seq(s.subrange(a, b), m),
    ensures
        contains_seq(s, m),
{
    let t = s.subrange(a, b);
    let i = choose|i: int| 0 <= i <= t.len() - m.len() && #[trigger] t.subrange(i, i + m.len()) == m;
    assert(s.subrange(a + i, a + i + m.len()) =~= t.subrange(i, i + m.len()));
}

/// Every piece of `s` is a part of `s`, the last one its end.
proof fn lemma_pieces_are_parts(s: Seq<char>)
    ensures
        forall|k: int|
            0 <= k < split_on(s, '\n').len() ==> exists|a: int, b: int|
                0 <= a <= b <= s.len() && #[trigger] split_on(s, '\n')[k] == s.subrange(a, b),
        split_on(s, '\n').last() == s.subrange(
            s.len() - split_on(s, '\n').last().len(),
            s.len() as int,
        ),
        split_on(s, '\n').last().len() <= s.len(),
    decreases s.len(),
{
    lemma_split_len(s, '\n');
    if s.len() == 0 {
        assert(split_on(s, '\n') =~= seq![Seq::<char>::empty()]);
        assert(s.subrange(0, 0) =~= Seq::<char>::empty());
    } else {
        let s0 = s.drop_last();
        lemma_pieces_are_parts(s0);
        lemma_split_len(s0, '\n');
        assert(s0.push(s.last()) == s);
        lemma_split_push(s0, s.last(), '\n');
        let p0 = split_on(s0, '\n');
        let p = split_on(s, '\n');
        assert forall|k: int| 0 <= k < p.len() implies exists|a: int, b: int|
            0 <= a <= b <= s.len() && #[trigger] p[k] == s.subrange(a, b) by {
            if s.last() == '\n' && k == p.len() - 1 {
                assert(p[k] =~= s.subrange(s.len() as int, s.len() as int));
            } else if s.last() != '\n' && k == p.len() - 1 {
                let a = s0.len() - p0.last().len();
                assert(p[k] =~= s.subrange(a, s.len() as int));
            } else {
                assert(p[k] == p0[k]);
                let (a, b) = choose|a: int, b: int| 0 <= a <= b <= s0.len() && #[trigger] p0[k] == s0.subrange(a, b);
                assert(s0.subrange(a, b) =~= s.subrange(a, b));
            }
        }
        if s.last() == '\n' {
            assert(p.last() =~= s.subrange(s.len() as int, s.len() as int));
        } else {
            let a = s0.len() - p0.last().len();
            assert(p.last() =~= s.subrange(a, s.len() as int));
        }
    }
}

/// A line whose trimmed form is `m` holds `m`.
proof fn lemma_trimmed_part(l: Seq<char>, m: Seq<char>)
    requires
        m.len() > 0,
        trimmed(l) == m,
    ensures
        contains_seq(l, m),
{
    crate::text::lemma_trim_bounds(l);
    let a = crate::text::lead_ws(l);
    assert(a < l.len());
    assert(l.subrange(a as int, (a + m.len()) as int) =~= m);
}

/// A managed block that can be found again: its first line is the marker
/// (no surrounding white space, no newline), its last line trims to the end
/// marker, no line between trims to the end marker, and its lines are clean.
pub open spec fn block_ok(block: Seq<char>, marker: Seq<char>) -> bool {
    let bl = text_lines(block);
    &&& marker.len() > 0
    &&& trimmed(marker) == marker
    &&& unlines(bl) == block.push('\n')
    &&& bl.len() >= 2
    &&& bl[0] == marker
    &&& trimmed(bl.last()) == end_marker(marker)
    &&& forall|i: int| 0 < i < bl.len() - 1 ==> trimmed(#[trigger] bl[i]) != end_marker(marker)
    &&& forall|i: int| 0 <= i < bl.len() ==> clean_line(#[trigger] bl[i])
}

/// The file contents that a second run leaves as the first run made them:
/// with a block already, no line kept outside it ends with a carriage return
/// (the last line, unended, is the only one that can); without a block, no
/// line ends with a carriage return before its newline.
pub open spec fn rerun_stable(content: Option<Seq<char>>, marker: Seq<char>) -> bool {
    match content {
        None => true,
        Some(c) => if contains_seq(c, marker) {
            let k = lines_outside(text_lines(c), marker, end_marker(marker));
            forall|i: int| 0 <= i < k.len() ==> !(#[trigger] k[i].len() > 0 && k[i].last() == '\r')
        } else {
            crlf_free(with_final_newline(c))
        },
    }
}

/// Text whose lines are `bl` starts with the first of them.
proof fn lemma_starts_with_first_line(block: Seq<char>, bl: Seq<Seq<char>>)
    requires
        unlines(bl) == block.push('\n'),
        bl.len() >= 1,
    ensures
        block.len() >= bl[0].len(),
        block.take(bl[0].len() as int) == bl[0],
{
    lemma_unlines_concat(bl.take(1), bl.skip(1));
    assert(bl.take(1) + bl.skip(1) == bl);
    assert(bl.take(1).drop_last() == Seq::<Seq<char>>::empty());
    assert(bl.take(1).last() == bl[0]);
    assert(unlines(Seq::<Seq<char>>::empty()) == Seq::<char>::empty());
    assert(unlines(bl.take(1)) =~= bl[0] + seq!['\n']);
    let u = bl[0] + seq!['\n'] + unlines(bl.skip(1));
    assert(u == block.push('\n'));
    assert(block.push('\n').len() == block.len() + 1);
    assert(block.take(bl[0].len() as int) =~= bl[0]) by {
        assert forall|t: int| 0 <= t < bl[0].len() implies block[t] == bl[0][t] by {
            assert(block.push('\n')[t] == block[t]);
            assert(u[t] == bl[0][t]);
        }
    }
}

/// A block holds its marker at its start.
proof fn lemma_block_contains(block: Seq<char>, marker: Seq<char>, x: Seq<char>, y: Seq<char>)
    requires
        block_ok(block, marker),
    ensures
        contains_seq(x + block + y, marker),
{
    let bl = text_lines(block);
    lemma_starts_with_first_line(block, bl);
    assert(x + block + y =~= x + marker + (block.skip(marker.len() as int) + y));
    lemma_contains_middle(x, marker, block.skip(marker.len() as int) + y);
}

/// The scan over a block closes it and keeps nothing.
proof fn lemma_keep_block(k: Seq<Seq<char>>, block: Seq<char>, marker: Seq<char>)
    requires
        block_ok(block, marker),
    ensures
        keep_from((k, false), text_lines(block), marker, end_marker(marker)) == (k, false),
{
    let bl = text_lines(block);
    let end = end_marker(marker);
    let first = bl.take(1);
    let mid = bl.subrange(1, bl.len() - 1);
    let last = bl.skip(bl.len() - 1);
    assert(first + mid + last =~= bl);
    lemma_keep_concat((k, false), first + mid, last, marker, end);
    lemma_keep_concat((k, false), first, mid, marker, end);
    assert(first.drop_last() == Seq::<Seq<char>>::empty());
    assert(first.last() == marker);
    assert(keep_from((k, false), Seq::<Seq<char>>::empty(), marker, end) == (k, false));
    assert(trimmed(first.last()) == marker);
    assert(keep_from((k, false), first, marker, end) == (k, true));
    assert forall|i: int| 0 <= i < mid.len() implies trimmed(#[trigger] mid[i]) != end by {
        assert(mid[i] == bl[i + 1]);
    }
    lemma_keep_inside(k, mid, marker, end);
    assert(last.drop_last() == Seq::<Seq<char>>::empty());
    assert(last.last() == bl.last());
    assert(end.len() > marker.len());
    assert(trimmed(bl.last()) != marker);
    assert(keep_from((k, true), Seq::<Seq<char>>::empty(), marker, end) == (k, true));
    assert(keep_from((k, true), last, marker, end) == (k, false));
}

/// An occurrence in a text with a newline added, of something without a
/// newline, is in the text.
proof fn lemma_contains_without_newline(c: Seq<char>, m: Seq<char>)
    requires
        contains_seq(with_final_newline(c), m),
        forall|i: int| 0 <= i < m.len() ==> m[i] != '\n',
        m.len() > 0,
    ensures
        contains_seq(c, m),
{
    let w = with_final_newline(c);
    let i = choose|i: int| 0 <= i <= w.len() - m.len() && #[trigger] w.subrange(i, i + m.len()) == m;
    if w != c {
        if i + m.len() == w.len() {
            assert(w.subrange(i, i + m.len())[m.len() - 1] == w[w.len() - 1]);
            assert(m[m.len() - 1] == '\n');
        }
        assert(c.subrange(i, i + m.len()) =~= w.subrange(i, i + m.len()));
    }
}

/// A part of the text with a newline added whose trimmed form is the marker
/// or the end marker would put the marker in the text.
proof fn lemma_part_not_marker(c: Seq<char>, l: Seq<char>, a: int, b: int, marker: Seq<char>)
    requires
        !contains_seq(c, marker),
        marker.len() > 0,
        forall|i: int| 0 <= i < marker.len() ==> marker[i] != '\n',
        0 <= a <= b <= with_final_newline(c).len(),
        l == with_final_newline(c).subrange(a, b),
    ensures
        trimmed(l) != marker,
        trimmed(l) != end_marker(marker),
{
    let w = with_final_newline(c);
    if trimmed(l) == marker {
        lemma_trimmed_part(l, marker);
        lemma_contains_sub(w, a, b, marker);
        lemma_contains_without_newline(c, marker);
    }
    if trimmed(l) == end_marker(marker) {
        let e = end_marker(marker);
        lemma_trimmed_part(l, e);
        let j = choose|j: int| 0 <= j <= l.len() - e.len() && #[trigger] l.subrange(j, j + e.len()) == e;
        assert(l.subrange(j, j + marker.len()) =~= marker) by {
            assert forall|t: int| 0 <= t < marker.len() implies l.subrange(j, j + marker.len())[t]
                == marker[t] by {
                assert(l.subrange(j, j + e.len())[t] == e[t]);
            }
        }
        lemma_contains_sub(w, a, b, marker);
        lemma_contains_without_newline(c, marker);
    }
}

/// Without the marker in the file, no line of it is a marker line.
proof fn lemma_no_marker_lines(c: Seq<char>, marker: Seq<char>)
    requires
        !contains_seq(c, marker),
        marker.len() > 0,
        forall|i: int| 0 <= i < marker.len() ==> marker[i] != '\n',
        crlf_free(with_final_newline(c)),
    ensures
        forall|k: int|
            0 <= k < text_lines(with_final_newline(c)).len() ==> trimmed(
                #[trigger] text_lines(with_final_newline(c))[k],
            ) != marker && trimmed(text_lines(with_final_newline(c))[k]) != end_marker(marker),
{
    let w = with_final_newline(c);
    assert(w.len() > 0 && w.last() == '\n');
    let p = split_on(w, '\n');
    lemma_pieces_are_parts(w);
    let ls = text_lines(w);
    assert(w.drop_last().push('\n') == w);
    lemma_split_push(w.drop_last(), '\n', '\n');
    assert(p.last().len() == 0);
    assert(ls =~= p.drop_last().map_values(|l: Seq<char>| strip_cr(l)));
    assert forall|k: int| 0 <= k < ls.len() implies trimmed(#[trigger] ls[k]) != marker && trimmed(
        ls[k],
    ) != end_marker(marker) by {
        assert(ls[k] == strip_cr(p[k]));
        assert(!(p[k].len() > 0 && p[k].last() == '\r'));
        assert(ls[k] == p[k]);
        let (a, b) = choose|a: int, b: int| 0 <= a <= b <= w.len() && #[trigger] p[k] == w.subrange(a, b);
        lemma_part_not_marker(c, ls[k], a, b, marker);
    }
}

/// Lines that can stand before a managed block: clean, and none of them a
/// marker line.
pub open spec fn plain_lines(k: Seq<Seq<char>>, marker: Seq<char>) -> bool {
    forall|i: int|
        0 <= i < k.len() ==> clean_line(#[trigger] k[i]) && trimmed(k[i]) != marker && trimmed(
            k[i],
        ) != end_marker(marker)
}

/// A file that is some plain lines followed by the block already holds the
/// block where putting it in puts it: putting it in changes nothing.
proof fn lemma_settled(k: Seq<Seq<char>>, marker: Seq<char>, block: Seq<char>)
    requires
        block_ok(block, marker),
        plain_lines(k, marker),
    ensures
        upserted(Some(unlines(k + text_lines(block))), marker, block) == unlines(
            k + text_lines(block),
        ),
        block_change(Some(unlines(k + text_lines(block))), marker) == BlockChange::Updated,
{
    let bl = text_lines(block);
    let end = end_marker(marker);
    let r = unlines(k + bl);
    lemma_unlines_concat(k, bl);
    assert(r == unlines(k) + block + seq!['\n']);
    lemma_block_contains(block, marker, unlines(k), seq!['\n']);
    assert forall|i: int| 0 <= i < (k + bl).len() implies clean_line(#[trigger] (k + bl)[i]) by {
        if i < k.len() {
            assert((k + bl)[i] == k[i]);
        } else {
            assert((k + bl)[i] == bl[i - k.len()]);
        }
    }
    lemma_lines_unlines(k + bl);
    lemma_keep_concat((Seq::empty(), false), k, bl, marker, end);
    lemma_keep_plain(Seq::empty(), k, marker, end);
    assert(Seq::<Seq<char>>::empty() + k == k);
    lemma_keep_block(k, block, marker);
}

/// A file with the marker: what putting the block in gives is its lines
/// outside the old block, followed by the block.
proof fn lemma_shape_marked(c: Seq<char>, marker: Seq<char>, block: Seq<char>) -> (k: Seq<
    Seq<char>,
>)
    requires
        block_ok(block, marker),
        contains_seq(c, marker),
        rerun_stable(Some(c), marker),
    ensures
        plain_lines(k, marker),
        upserted(Some(c), marker, block) == unlines(k + text_lines(block)),
{
    let bl = text_lines(block);
    let end = end_marker(marker);
    let k = lines_outside(text_lines(c), marker, end);
    lemma_kept_no_markers(text_lines(c), marker, end);
    let lc = text_lines(c);
    lemma_pieces_no_newline(c);
    lemma_keep_lines_from(lc, marker, end);
    assert forall|i: int| 0 <= i < k.len() implies clean_line(#[trigger] k[i]) by {
        assert(k[i] == lines_outside(lc, marker, end)[i]);
        let j = choose|j: int| 0 <= j < lc.len() && #[trigger] lc[j] == k[i];
        lemma_text_line_no_newline(c, j);
    }
    lemma_unlines_concat(k, bl);
    k
}

/// A file without the marker: what putting the block in gives is its lines
/// and a blank one, followed by the block.
proof fn lemma_shape_unmarked(c: Seq<char>, marker: Seq<char>, block: Seq<char>) -> (k: Seq<
    Seq<char>,
>)
    requires
        block_ok(block, marker),
        !contains_seq(c, marker),
        crlf_free(with_final_newline(c)),
    ensures
        plain_lines(k, marker),
        upserted(Some(c), marker, block) == unlines(k + text_lines(block)),
{
    let bl = text_lines(block);
    let end = end_marker(marker);
    let r1 = upserted(Some(c), marker, block);
    assert forall|i: int| 0 <= i < marker.len() implies marker[i] != '\n' by {
        assert(clean_line(bl[0]));
    }
    let w = with_final_newline(c);
    assert(w.len() > 0 && w.last() == '\n');
    lemma_unlines_lines(w);
    lemma_no_marker_lines(c, marker);
    let lw = text_lines(w);
    let ls = lw.push(Seq::<char>::empty());
    assert(ls.drop_last() == lw);
    assert(ls.last() == Seq::<char>::empty());
    assert(unlines(ls) =~= w + seq!['\n']);
    lemma_unlines_concat(ls, bl);
    assert(unlines(bl) == block.push('\n'));
    assert(r1 == w + seq!['\n'] + block + seq!['\n']);
    assert(unlines(ls) + unlines(bl) =~= w + seq!['\n'] + block + seq!['\n']);
    assert(trimmed(Seq::<char>::empty()) =~= Seq::<char>::empty());
    assert forall|i: int| 0 <= i < ls.len() implies #[trigger] clean_line(ls[i]) by {
        if i < lw.len() {
            assert(ls[i] == lw[i]);
        }
    }
    assert forall|i: int| 0 <= i < ls.len() implies trimmed(#[trigger] ls[i]) != marker
        && trimmed(ls[i]) != end by {
        if i < lw.len() {
            assert(ls[i] == lw[i]);
        }
    }
    ls
}

/// What putting a block in gives is some plain lines followed by the block.
proof fn lemma_upserted_shape(content: Option<Seq<char>>, marker: Seq<char>, block: Seq<char>) -> (k:
    Seq<Seq<char>>)
    requires
        block_ok(block, marker),
        rerun_stable(content, marker),
    ensures
        plain_lines(k, marker),
        upserted(content, marker, block) == unlines(k + text_lines(block)),
{
    match content {
        None => {
            let bl = text_lines(block);
            assert(Seq::<Seq<char>>::empty() + bl == bl);
            Seq::empty()
        },
        Some(c) => {
            if contains_seq(c, marker) {
                lemma_shape_marked(c, marker, block)
            } else {
                lemma_shape_unmarked(c, marker, block)
            }
        },
    }
}

/// Putting a block in a second time changes nothing: setup can be run again.
pub proof fn law_upsert_idempotent(content: Option<Seq<char>>, marker: Seq<char>, block: Seq<char>)
    requires
        block_ok(block, marker),
        rerun_stable(content, marker),
    ensures
        upserted(Some(upserted(content, marker, block)), marker, block) == upserted(
            content,
            marker,
            block,
        ),
        block_change(Some(upserted(content, marker, block)), marker) == BlockChange::Updated,
{
    let k = lemma_upserted_shape(content, marker, block);
    lemma_settled(k, marker, block);
}

/// Every kept line is a line of the text.
proof fn lemma_keep_lines_from(ls: Seq<Seq<char>>, marker: Seq<char>, end: Seq<char>)
    ensures
        forall|i: int|
            #![trigger lines_outside(ls, marker, end)[i]]
            0 <= i < lines_outside(ls, marker, end).len() ==> exists|j: int|
                0 <= j < ls.len() && #[trigger] ls[j] == lines_outside(ls, marker, end)[i],
    decreases ls.len(),
{
    if ls.len() > 0 {
        lemma_keep_lines_from(ls.drop_last(), marker, end);
        let prev = keep_from((Seq::empty(), false), ls.drop_last(), marker, end);
        let cur = keep_from((Seq::empty(), false), ls, marker, end);
        assert(prev.0 == lines_outside(ls.drop_last(), marker, end));
        assert forall|i: int| #![trigger cur.0[i]] 0 <= i < cur.0.len() implies exists|j: int|
            0 <= j < ls.len() && #[trigger] ls[j] == cur.0[i] by {
            let l = ls.last();
            if i < prev.0.len() && cur.0[i] == prev.0[i] {
                let j = choose|j: int| 0 <= j < ls.drop_last().len() && #[trigger] ls.drop_last()[j] == lines_outside(ls.drop_last(), marker, end)[i];
                assert(ls[j] == ls.drop_last()[j]);
            } else {
                assert(cur.0 == prev.0.push(l));
                assert(cur.0[i] == ls[ls.len() - 1]);
            }
        }
    }
}

/// The lines of a text hold no newline.
proof fn lemma_text_line_no_newline(c: Seq<char>, j: int)
    requires
        0 <= j < text_lines(c).len(),
    ensures
        forall|i: int| 0 <= i < text_lines(c)[j].len() ==> text_lines(c)[j][i] != '\n',
{
    let p = split_on(c, '\n');
    lemma_split_len(c, '\n');
    lemma_pieces_no_newline(c);
    let l = text_lines(c)[j];
    if j < p.len() - 1 {
        assert(l == strip_cr(p[j]));
        assert forall|i: int| 0 <= i < l.len() implies l[i] != '\n' by {
            assert(p[j][i] != '\n');
        }
    } else {
        assert(l == p.last());
        assert forall|i: int| 0 <= i < l.len() implies l[i] != '\n' by {
            assert(p[p.len() - 1][i] != '\n');
        }
    }
}

/// Taking the alias lines out of two runs of lines takes them out of each.
proof fn lemma_without_alias_concat(a: Seq<Seq<char>>, b: Seq<Seq<char>>)
    ensures
        without_alias(a + b) == without_alias(a) + without_alias(b),
    decreases b.len(),
{
    if b.len() == 0 {
        assert(a + b =~= a);
        assert(without_alias(a) + without_alias(b) =~= without_alias(a));
    } else {
        lemma_without_alias_concat(a, b.drop_last());
        assert((a + b).drop_last() =~= a + b.drop_last());
        assert((a + b).last() == b.last());
        if !alias_line(b.last()) {
            assert(without_alias(a) + without_alias(b.drop_last()).push(b.last()) =~= (
            without_alias(a) + without_alias(b.drop_last())).push(b.last()));
        }
    }
}

/// Lines of which none belongs to the alias are kept as they are.
proof fn lemma_without_alias_none(ls: Seq<Seq<char>>)
    requires
        forall|i: int| 0 <= i < ls.len() ==> !alias_line(#[trigger] ls[i]),
    ensures
        without_alias(ls) == ls,
    decreases ls.len(),
{
    if ls.len() > 0 {
        assert(!alias_line(ls[ls.len() - 1]));
        lemma_without_alias_none(ls.drop_last());
        assert(ls.drop_last().push(ls.last()) =~= ls);
    }
}

/// Taking the alias lines out twice is taking them out once; what is kept
/// are lines of `ls`.
proof fn lemma_without_alias_again(ls: Seq<Seq<char>>, marker: Seq<char>)
    ensures
        without_alias(without_alias(ls)) == without_alias(ls),
        plain_lines(ls, marker) ==> plain_lines(without_alias(ls), marker),
    decreases ls.len(),
{
    if ls.len() > 0 {
        let d = ls.drop_last();
        lemma_without_alias_again(d, marker);
        if plain_lines(ls, marker) {
            assert forall|i: int| 0 <= i < d.len() implies clean_line(#[trigger] d[i]) && trimmed(
                d[i],
            ) != marker && trimmed(d[i]) != end_marker(marker) by {
                assert(d[i] == ls[i]);
            }
        }
        if !alias_line(ls.last()) {
            let w = without_alias(d);
            assert(w.push(ls.last()).drop_last() =~= w);
            assert(w.push(ls.last()).last() == ls.last());
            if plain_lines(ls, marker) {
                assert(clean_line(ls[ls.len() - 1]));
                assert forall|i: int| 0 <= i < w.push(ls.last()).len() implies clean_line(
                    #[trigger] w.push(ls.last())[i],
                ) && trimmed(w.push(ls.last())[i]) != marker && trimmed(w.push(ls.last())[i])
                    != end_marker(marker) by {
                    if i < w.len() {
                        assert(w.push(ls.last())[i] == w[i]);
                    }
                }
            }
        }
    }
}

/// Lines joined by newlines and ended by one are the lines each ended by a
/// newline.
proof fn lemma_join_unlines(ls: Seq<Seq<char>>)
    requires
        ls.len() > 0,
    ensures
        crate::text::join(ls, seq!['\n']).push('\n') == unlines(ls),
    decreases ls.len(),
{
    if ls.len() == 1 {
        assert(ls.drop_last() =~= Seq::<Seq<char>>::empty());
        assert(unlines(ls.drop_last()) == Seq::<char>::empty());
        assert(ls.last() == ls[0]);
        assert(unlines(ls) == unlines(ls.drop_last()) + ls.last() + seq!['\n']);
        assert(unlines(ls) =~= ls[0].push('\n'));
    } else {
        lemma_join_unlines(ls.drop_last());
        assert(crate::text::join(ls, seq!['\n']).push('\n') =~= crate::text::join(
            ls.drop_last(),
            seq!['\n'],
        ).push('\n') + ls.last() + seq!['\n']);
    }
}

/// Taking the alias out of plain lines followed by an alias-free block:
/// the lines lose their alias lines, and the block stays.
proof fn lemma_alias_removed(k: Seq<Seq<char>>, marker: Seq<char>, block: Seq<char>)
    requires
        block_ok(block, marker),
        plain_lines(k, marker),
        forall|i: int|
            0 <= i < text_lines(block).len() ==> !alias_line(#[trigger] text_lines(block)[i]),
    ensures
        alias_removed(unlines(k + text_lines(block))) == unlines(
            (if contains_seq(unlines(k + text_lines(block)), "alias cx='tmux new-session"@) {
                without_alias(k)
            } else {
                k
            }) + text_lines(block),
        ),
{
    let bl = text_lines(block);
    let c = unlines(k + bl);
    if contains_seq(c, "alias cx='tmux new-session"@) {
        assert forall|i: int| 0 <= i < (k + bl).len() implies clean_line(#[trigger] (k + bl)[i]) by {
            if i < k.len() {
                assert((k + bl)[i] == k[i]);
            } else {
                assert((k + bl)[i] == bl[i - k.len()]);
            }
        }
        lemma_lines_unlines(k + bl);
        lemma_without_alias_concat(k, bl);
        lemma_without_alias_none(bl);
        lemma_join_unlines(without_alias(k) + bl);
    }
}

/// The marker of the tmux block.
pub open spec fn tmux_marker() -> Seq<char> {
    "# cxline-managed"@
}

/// The marker of the shell wrapper block.
pub open spec fn wrapper_marker() -> Seq<char> {
    "# cxline-codex-wrapper"@
}

/// The tmux configuration and the shell startup file after a setup run on
/// Unix: `tmux` and `rc` are their contents before it (nothing for a missing
/// file). The tmux block goes into the first; the wrapper block goes into the
/// second, and then the old alias comes out of it.
pub open spec fn setup_files(
    tmux: Option<Seq<char>>,
    rc: Option<Seq<char>>,
    tmux_block: Seq<char>,
    rc_block: Seq<char>,
) -> (Seq<char>, Seq<char>) {
    (
        upserted(tmux, tmux_marker(), tmux_block),
        alias_removed(upserted(rc, wrapper_marker(), rc_block)),
    )
}

/// A second setup run leaves both files as the first left them: the blocks
/// are where they go, and no alias is left to take out. (The blocks are
/// well formed and the wrapper holds no alias line; the files' lines, as
/// setup keeps them, end without a carriage return.)
pub proof fn law_setup_idempotent(
    tmux: Option<Seq<char>>,
    rc: Option<Seq<char>>,
    tmux_block: Seq<char>,
    rc_block: Seq<char>,
)
    requires
        block_ok(tmux_block, tmux_marker()),
        block_ok(rc_block, wrapper_marker()),
        rerun_stable(tmux, tmux_marker()),
        rerun_stable(rc, wrapper_marker()),
        forall|i: int|
            0 <= i < text_lines(rc_block).len() ==> !alias_line(#[trigger] text_lines(rc_block)[i]),
    ensures
        setup_files(
            Some(setup_files(tmux, rc, tmux_block, rc_block).0),
            Some(setup_files(tmux, rc, tmux_block, rc_block).1),
            tmux_block,
            rc_block,
        ) == setup_files(tmux, rc, tmux_block, rc_block),
{
    let m = wrapper_marker();
    let bl = text_lines(rc_block);
    law_upsert_idempotent(tmux, tmux_marker(), tmux_block);
    let k = lemma_upserted_shape(rc, m, rc_block);
    let u1 = unlines(k + bl);
    let had = contains_seq(u1, "alias cx='tmux new-session"@);
    lemma_alias_removed(k, m, rc_block);
    lemma_without_alias_again(k, m);
    let kk = if had {
        without_alias(k)
    } else {
        k
    };
    let f1 = unlines(kk + bl);
    assert(setup_files(tmux, rc, tmux_block, rc_block).1 == f1);
    lemma_settled(kk, m, rc_block);
    lemma_alias_removed(kk, m, rc_block);
    lemma_without_alias_again(without_alias(k), m);
    if contains_seq(f1, "alias cx='tmux new-session"@) {
        assert(had);
        assert(without_alias(kk) == kk);
    }
}

/// `unlines` of one more line.
proof fn lemma_unlines_push(ls: Seq<Seq<char>>, l: Seq<char>)
    ensures
        unlines(ls.push(l)) == unlines(ls) + l + seq!['\n'],
{
    assert(ls.push(l).drop_last() =~= ls);
}

/// Text made of the lines `ls` joined by newlines, with no newline after
/// the last, has those lines.
proof fn lemma_block_lines(block: Seq<char>, ls: Seq<Seq<char>>)
    requires
        block.push('\n') == unlines(ls),
        ls.len() >= 1,
        ls.last().len() > 0,
        forall|k: int| 0 <= k < ls.len() ==> clean_line(#[trigger] ls[k]),
    ensures
        text_lines(block) == ls,
{
    assert forall|k: int, i: int| 0 <= k < ls.len() && 0 <= i < ls[k].len() implies ls[k][i]
        != '\n' by {
        assert(clean_line(ls[k]));
    }
    lemma_split_unlines(ls);
    lemma_split_push(block, '\n', '\n');
    let p = split_on(block, '\n');
    assert(p.push(Seq::<char>::empty()).drop_last() =~= p);
    assert(ls.push(Seq::<char>::empty()).drop_last() =~= ls);
    assert(p == ls);
    assert forall|k: int| 0 <= k < ls.len() implies strip_cr(ls[k]) == ls[k] by {
        assert(clean_line(ls[k]));
    }
    assert(ls.drop_last().map_values(|l: Seq<char>| strip_cr(l)) =~= ls.drop_last());
    assert(text_lines(block) =~= ls);
}

/// A line with no white space at either end trims to itself.
proof fn lemma_trimmed_self(l: Seq<char>)
    requires
        l.len() > 0,
        !crate::text::is_white_space(l[0]),
        !crate::text::is_white_space(l.last()),
    ensures
        trimmed(l) == l,
{
    crate::text::lemma_lead_ws_char(l, 0);
    crate::text::lemma_trail_ws_char(l, 0);
    assert(l.subrange(0, l.len() as int) =~= l);
}

/// A line whose first `n` characters are white space, and whose next one
/// is not, trims to text that starts with that character.
proof fn lemma_trimmed_first(l: Seq<char>, n: int)
    requires
        0 <= n < l.len(),
        forall|j: int| 0 <= j < n ==> crate::text::is_white_space(#[trigger] l[j]),
        !crate::text::is_white_space(l[n]),
    ensures
        trimmed(l).len() > 0,
        trimmed(l)[0] == l[n],
{
    crate::text::lemma_lead_ws_char(l, n);
    crate::text::lemma_trail_ws(l);
    crate::text::lemma_trim_bounds(l);
    if l.len() - crate::text::trail_ws(l) <= n {
        assert(crate::text::is_white_space(l[n]));
    }
}

/// A line that holds no `c` holds no text with a `c` in it.
proof fn lemma_not_contains(l: Seq<char>, m: Seq<char>, j: int)
    requires
        0 <= j < m.len(),
        forall|i: int| 0 <= i < l.len() ==> l[i] != m[j],
    ensures
        !contains_seq(l, m),
{
    if contains_seq(l, m) {
        let i = choose|i: int| 0 <= i <= l.len() - m.len() && #[trigger] l.subrange(i, i + m.len()) == m;
        assert(l.subrange(i, i + m.len())[j] == l[i + j]);
    }
}

/// The lines of the shell wrapper block.
spec fn wrapper_lines() -> Seq<Seq<char>> {
    seq![
        "# cxline-codex-wrapper"@,
        "codex() {"@,
        "  if [ -z \"$TMUX\" ]; then"@,
        "    tmux new-session -A -s codex \"command codex $*\""@,
        "  else"@,
        "    command codex \"$@\""@,
        "  fi"@,
        "}"@,
        "# cxline-codex-wrapper-end"@,
    ]
}

/// The shell wrapper block is its lines joined by newlines.
proof fn lemma_wrapper_text()
    ensures
        shell_wrapper_text().push('\n') == unlines(wrapper_lines()),
{
    reveal_strlit("# cxline-codex-wrapper\ncodex() {\n  if [ -z \"$TMUX\" ]; then\n    tmux new-session -A -s codex \"command codex $*\"\n  else\n    command codex \"$@\"\n  fi\n}\n# cxline-codex-wrapper-end");
    reveal_strlit("# cxline-codex-wrapper");
    reveal_strlit("codex() {");
    reveal_strlit("  if [ -z \"$TMUX\" ]; then");
    reveal_strlit("    tmux new-session -A -s codex \"command codex $*\"");
    reveal_strlit("  else");
    reveal_strlit("    command codex \"$@\"");
    reveal_strlit("  fi");
    reveal_strlit("}");
    reveal_strlit("# cxline-codex-wrapper-end");
    let w = wrapper_lines();
    let e = Seq::<Seq<char>>::empty();
    lemma_unlines_push(e, w[0]);
    lemma_unlines_push(e.push(w[0]), w[1]);
    lemma_unlines_push(e.push(w[0]).push(w[1]), w[2]);
    lemma_unlines_push(e.push(w[0]).push(w[1]).push(w[2]), w[3]);
    lemma_unlines_push(e.push(w[0]).push(w[1]).push(w[2]).push(w[3]), w[4]);
    lemma_unlines_push(e.push(w[0]).push(w[1]).push(w[2]).push(w[3]).push(w[4]), w[5]);
    lemma_unlines_push(e.push(w[0]).push(w[1]).push(w[2]).push(w[3]).push(w[4]).push(w[5]), w[6]);
    lemma_unlines_push(e.push(w[0]).push(w[1]).push(w[2]).push(w[3]).push(w[4]).push(w[5]).push(w[6]), w[7]);
    lemma_unlines_push(e.push(w[0]).push(w[1]).push(w[2]).push(w[3]).push(w[4]).push(w[5]).push(w[6]).push(w[7]), w[8]);
    assert(e.push(w[0]).push(w[1]).push(w[2]).push(w[3]).push(w[4]).push(w[5]).push(w[6]).push(w[7]).push(w[8]) =~= w);
    assert(unlines(e) == Seq::<char>::empty());
    assert(shell_wrapper_text().push('\n') =~= unlines(w));
}

/// A middle line of a block, whose first character after its leading white
/// space (at `n`) is not `#`, neither closes a block nor is the old alias's
/// comment.
proof fn lemma_plain_middle(l: Seq<char>, n: int, marker: Seq<char>)
    requires
        0 <= n < l.len(),
        forall|j: int| 0 <= j < n ==> crate::text::is_white_space(#[trigger] l[j]),
        !crate::text::is_white_space(l[n]),
        l[n] != '#',
        marker.len() > 0,
        marker[0] == '#',
    ensures
        trimmed(l) != end_marker(marker),
        trimmed(l) != "# cxline: codex+tmux shortcut"@,
{
    reveal_strlit("# cxline: codex+tmux shortcut");
    lemma_trimmed_first(l, n);
}

/// The shell wrapper block is well formed, and none of its lines belongs to
/// the old alias.
proof fn lemma_wrapper_block()
    ensures
        block_ok(shell_wrapper_text(), wrapper_marker()),
        forall|i: int|
            0 <= i < text_lines(shell_wrapper_text()).len() ==> !alias_line(
                #[trigger] text_lines(shell_wrapper_text())[i],
            ),
{
    reveal_strlit("# cxline-codex-wrapper");
    reveal_strlit("codex() {");
    reveal_strlit("  if [ -z \"$TMUX\" ]; then");
    reveal_strlit("    tmux new-session -A -s codex \"command codex $*\"");
    reveal_strlit("  else");
    reveal_strlit("    command codex \"$@\"");
    reveal_strlit("  fi");
    reveal_strlit("}");
    reveal_strlit("# cxline-codex-wrapper-end");
    reveal_strlit("alias cx='tmux new-session");
    reveal_strlit("# cxline: codex+tmux shortcut");
    let w = wrapper_lines();
    let m = wrapper_marker();
    let alias = "alias cx='tmux new-session"@;
    assert(alias[8] == '=');
    assert forall|k: int| 0 <= k < w.len() implies clean_line(#[trigger] w[k]) && !contains_seq(w[k], alias) by {
        assert(forall|i: int| 0 <= i < w[k].len() ==> w[k][i] != '\n' && w[k][i] != '=');
        lemma_not_contains(w[k], alias, 8);
    }
    lemma_wrapper_text();
    lemma_block_lines(shell_wrapper_text(), w);
    lemma_trimmed_self(m);
    assert(w.last() =~= end_marker(m));
    lemma_trimmed_self(w.last());
    assert forall|k: int| 0 < k < w.len() - 1 implies trimmed(#[trigger] w[k]) != end_marker(m)
        && trimmed(w[k]) != "# cxline: codex+tmux shortcut"@ by {
        if k == 1 || k == 7 {
            lemma_plain_middle(w[k], 0, m);
        } else if k == 3 || k == 5 {
            lemma_plain_middle(w[k], 4, m);
        } else {
            lemma_plain_middle(w[k], 2, m);
        }
    }
    assert forall|i: int| 0 <= i < w.len() implies !alias_line(#[trigger] w[i]) by {
        if i == 0 || i == w.len() - 1 {
            assert(trimmed(w[i]).len() != "# cxline: codex+tmux shortcut"@.len());
        } else {
            assert(trimmed(w[i]) != "# cxline: codex+tmux shortcut"@);
        }
    }
}

/// The lines of the tmux block for the program at `cxline`.
spec fn tmux_lines(cxline: Seq<char>) -> Seq<Seq<char>> {
    seq![
        "# cxline-managed"@,
        "set -g status on"@,
        "set -g status-style 'bg=default,fg=white'"@,
        "set -g status-left-length 120"@,
        "set -g status-left '#(CXLINE_QUIET=1 "@ + cxline + " show 2>/dev/null)'"@,
        "set -g window-status-format ''"@,
        "set -g window-status-current-format ''"@,
        "set -g status-right ''"@,
        "set -g status-right-length 0"@,
        "set -g status-interval 2"@,
        "set -g status-position bottom"@,
        "# cxline-managed-end"@,
    ]
}

/// The tmux block is its lines joined by newlines.
proof fn lemma_tmux_text(cxline: Seq<char>)
    ensures
        tmux_block_text(cxline).push('\n') == unlines(tmux_lines(cxline)),
{
    reveal_strlit("# cxline-managed\nset -g status on\nset -g status-style 'bg=default,fg=white'\nset -g status-left-length 120\nset -g status-left '#(CXLINE_QUIET=1 ");
    reveal_strlit(" show 2>/dev/null)'\nset -g window-status-format ''\nset -g window-status-current-format ''\nset -g status-right ''\nset -g status-right-length 0\nset -g status-interval 2\nset -g status-position bottom\n# cxline-managed-end");
    reveal_strlit("# cxline-managed");
    reveal_strlit("set -g status on");
    reveal_strlit("set -g status-style 'bg=default,fg=white'");
    reveal_strlit("set -g status-left-length 120");
    reveal_strlit("set -g status-left '#(CXLINE_QUIET=1 ");
    reveal_strlit(" show 2>/dev/null)'");
    reveal_strlit("set -g window-status-format ''");
    reveal_strlit("set -g window-status-current-format ''");
    reveal_strlit("set -g status-right ''");
    reveal_strlit("set -g status-right-length 0");
    reveal_strlit("set -g status-interval 2");
    reveal_strlit("set -g status-position bottom");
    reveal_strlit("# cxline-managed-end");
    let t = tmux_lines(cxline);
    let head = t.take(4);
    let tail = t.skip(5);
    let e = Seq::<Seq<char>>::empty();
    lemma_unlines_push(e, t[0]);
    lemma_unlines_push(e.push(t[0]), t[1]);
    lemma_unlines_push(e.push(t[0]).push(t[1]), t[2]);
    lemma_unlines_push(e.push(t[0]).push(t[1]).push(t[2]), t[3]);
    assert(e.push(t[0]).push(t[1]).push(t[2]).push(t[3]) =~= head);
    lemma_unlines_push(head, t[4]);
    assert(head.push(t[4]) =~= t.take(5));
    lemma_unlines_push(e, t[5]);
    lemma_unlines_push(e.push(t[5]), t[6]);
    lemma_unlines_push(e.push(t[5]).push(t[6]), t[7]);
    lemma_unlines_push(e.push(t[5]).push(t[6]).push(t[7]), t[8]);
    lemma_unlines_push(e.push(t[5]).push(t[6]).push(t[7]).push(t[8]), t[9]);
    lemma_unlines_push(e.push(t[5]).push(t[6]).push(t[7]).push(t[8]).push(t[9]), t[10]);
    lemma_unlines_push(e.push(t[5]).push(t[6]).push(t[7]).push(t[8]).push(t[9]).push(t[10]), t[11]);
    assert(e.push(t[5]).push(t[6]).push(t[7]).push(t[8]).push(t[9]).push(t[10]).push(t[11]) =~= tail);
    assert(unlines(e) == Seq::<char>::empty());
    let a = "# cxline-managed\nset -g status on\nset -g status-style 'bg=default,fg=white'\nset -g status-left-length 120\nset -g status-left '#(CXLINE_QUIET=1 "@;
    let b = " show 2>/dev/null)'\nset -g window-status-format ''\nset -g window-status-current-format ''\nset -g status-right ''\nset -g status-right-length 0\nset -g status-interval 2\nset -g status-position bottom\n# cxline-managed-end"@;
    assert(a =~= unlines(head) + "set -g status-left '#(CXLINE_QUIET=1 "@);
    assert(b.push('\n') =~= " show 2>/dev/null)'"@ + seq!['\n'] + unlines(tail));
    lemma_unlines_concat(t.take(5), tail);
    assert(t.take(5) + tail =~= t);
    assert(tmux_block_text(cxline).push('\n') =~= unlines(t));
}

/// The tmux block is well formed for a program path without a newline.
proof fn lemma_tmux_block(cxline: Seq<char>)
    requires
        forall|i: int| 0 <= i < cxline.len() ==> cxline[i] != '\n',
    ensures
        block_ok(tmux_block_text(cxline), tmux_marker()),
{
    reveal_strlit("# cxline-managed");
    reveal_strlit("set -g status on");
    reveal_strlit("set -g status-style 'bg=default,fg=white'");
    reveal_strlit("set -g status-left-length 120");
    reveal_strlit("set -g status-left '#(CXLINE_QUIET=1 ");
    reveal_strlit(" show 2>/dev/null)'");
    reveal_strlit("set -g window-status-format ''");
    reveal_strlit("set -g window-status-current-format ''");
    reveal_strlit("set -g status-right ''");
    reveal_strlit("set -g status-right-length 0");
    reveal_strlit("set -g status-interval 2");
    reveal_strlit("set -g status-position bottom");
    reveal_strlit("# cxline-managed-end");
    let t = tmux_lines(cxline);
    let m = tmux_marker();
    let p = "set -g status-left '#(CXLINE_QUIET=1 "@;
    let q = " show 2>/dev/null)'"@;
    assert(t[4] == p + cxline + q);
    assert forall|i: int| 0 <= i < t[4].len() implies t[4][i] != '\n' by {
        if i < p.len() {
            assert(t[4][i] == p[i]);
        } else if i < p.len() + cxline.len() {
            assert(t[4][i] == cxline[i - p.len()]);
        } else {
            assert(t[4][i] == q[i - p.len() - cxline.len()]);
        }
    }
    assert(t[4].last() == q.last());
    assert forall|k: int| 0 <= k < t.len() implies clean_line(#[trigger] t[k]) by {
        if k != 4 {
            assert(forall|i: int| 0 <= i < t[k].len() ==> t[k][i] != '\n');
        }
    }
    lemma_tmux_text(cxline);
    lemma_block_lines(tmux_block_text(cxline), t);
    lemma_trimmed_self(m);
    assert(t.last() =~= end_marker(m));
    lemma_trimmed_self(t.last());
    assert forall|k: int| 0 < k < t.len() - 1 implies trimmed(#[trigger] t[k]) != end_marker(m) by {
        assert(t[k][0] == 's');
        lemma_plain_middle(t[k], 0, m);
    }
}

/// No piece of a text without `ch` holds `ch`.
proof fn lemma_pieces_free_of(s: Seq<char>, ch: char)
    requires
        forall|i: int| 0 <= i < s.len() ==> s[i] != ch,
    ensures
        forall|k: int, i: int|
            0 <= k < split_on(s, '\n').len() && 0 <= i < split_on(s, '\n')[k].len()
                ==> split_on(s, '\n')[k][i] != ch,
{
    lemma_pieces_are_parts(s);
    let p = split_on(s, '\n');
    assert forall|k: int, i: int| 0 <= k < p.len() && 0 <= i < p[k].len() implies p[k][i] != ch by {
        let (a, b) = choose|a: int, b: int| 0 <= a <= b <= s.len() && #[trigger] p[k] == s.subrange(a, b);
        assert(p[k][i] == s[a + i]);
    }
}

/// No line of a text without `ch` holds `ch`.
proof fn lemma_lines_free_of(c: Seq<char>, ch: char)
    requires
        forall|i: int| 0 <= i < c.len() ==> c[i] != ch,
    ensures
        forall|j: int, i: int|
            0 <= j < text_lines(c).len() && 0 <= i < text_lines(c)[j].len() ==> text_lines(c)[j][i]
                != ch,
{
    let p = split_on(c, '\n');
    lemma_split_len(c, '\n');
    lemma_pieces_free_of(c, ch);
    assert forall|j: int, i: int|
        0 <= j < text_lines(c).len() && 0 <= i < text_lines(c)[j].len() implies text_lines(c)[j][i]
        != ch by {
        if j < p.len() - 1 {
            assert(text_lines(c)[j] == strip_cr(p[j]));
            assert(text_lines(c)[j][i] == p[j][i]);
        } else {
            assert(text_lines(c)[j] == p[p.len() - 1]);
        }
    }
}

/// The content of a file, or nothing for a missing file, holds no carriage
/// return.
pub open spec fn free_of_cr(content: Option<Seq<char>>) -> bool {
    match content {
        None => true,
        Some(c) => forall|i: int| 0 <= i < c.len() ==> c[i] != '\r',
    }
}

/// A file without carriage returns stays as a run of setup leaves it.
proof fn lemma_free_of_cr_stable(content: Option<Seq<char>>, marker: Seq<char>)
    requires
        free_of_cr(content),
    ensures
        rerun_stable(content, marker),
{
    if let Some(c) = content {
        if contains_seq(c, marker) {
            let ls = text_lines(c);
            let k = lines_outside(ls, marker, end_marker(marker));
            lemma_lines_free_of(c, '\r');
            lemma_keep_lines_from(ls, marker, end_marker(marker));
            assert forall|i: int| 0 <= i < k.len() implies !(#[trigger] k[i].len() > 0 && k[i].last()
                == '\r') by {
                let j = choose|j: int| 0 <= j < ls.len() && #[trigger] ls[j] == k[i];
                if k[i].len() > 0 {
                    assert(ls[j][ls[j].len() - 1] != '\r');
                }
            }
        } else {
            let w = with_final_newline(c);
            assert forall|i: int| 0 <= i < w.len() implies w[i] != '\r' by {
                if i < c.len() {
                    assert(w[i] == c[i]);
                }
            }
            lemma_pieces_free_of(w, '\r');
            let p = split_on(w, '\n');
            assert forall|i: int| 0 <= i < p.len() - 1 implies !(#[trigger] p[i].len() > 0
                && p[i].last() == '\r') by {
                if p[i].len() > 0 {
                    assert(p[i][p[i].len() - 1] != '\r');
                }
            }
        }
    }
}

/// Setup on Unix is idempotent: run again on the files that a run wrote,
/// with the same program path, it leaves the tmux configuration and the
/// shell startup file as they are. (The path holds no newline, and the files
/// as they were before the first run hold no carriage return.)
pub proof fn law_setup_run_idempotent(
    tmux: Option<Seq<char>>,
    rc: Option<Seq<char>>,
    cxline: Seq<char>,
)
    requires
        forall|i: int| 0 <= i < cxline.len() ==> cxline[i] != '\n',
        free_of_cr(tmux),
        free_of_cr(rc),
    ensures
        setup_files(
            Some(setup_files(tmux, rc, tmux_block_text(cxline), shell_wrapper_text()).0),
            Some(setup_files(tmux, rc, tmux_block_text(cxline), shell_wrapper_text()).1),
            tmux_block_text(cxline),
            shell_wrapper_text(),
        ) == setup_files(tmux, rc, tmux_block_text(cxline), shell_wrapper_text()),
{
    lemma_tmux_block(cxline);
    lemma_wrapper_block();
    lemma_free_of_cr_stable(tmux, tmux_marker());
    lemma_free_of_cr_stable(rc, wrapper_marker());
    law_setup_idempotent(tmux, rc, tmux_block_text(cxline), shell_wrapper_text());
}

/// The new contents of the tmux configuration and of the shell startup file
/// in a setup run on Unix (`tmux` and `rc` being their contents, nothing for
/// a missing file, and `cxline` the program's path), what changed in each,
/// and whether an old alias came out of the second.
pub fn setup_unix_files(tmux: Option<&str>, rc: Option<&str>, cxline: &str) -> (r: (
    String,
    BlockChange,
    String,
    BlockChange,
    bool,
))
    ensures
        (r.0@, r.2@) == setup_files(
            match tmux {
                Some(c) => Some(c@),
                None => None,
            },
            match rc {
                Some(c) => Some(c@),
                None => None,
            },
            tmux_block_text(cxline@),
            shell_wrapper_text(),
        ),
        r.1 == block_change(
            match tmux {
                Some(c) => Some(c@),
                None => None,
            },
            tmux_marker(),
        ),
        r.3 == block_change(
            match rc {
                Some(c) => Some(c@),
                None => None,
            },
            wrapper_marker(),
        ),
        r.4 == contains_seq(
            upserted(
                match rc {
                    Some(c) => Some(c@),
                    None => None,
                },
                wrapper_marker(),
                shell_wrapper_text(),
            ),
            "alias cx='tmux new-session"@,
        ),
{
    proof {
        reveal_strlit("# cxline-managed");
        reveal_strlit("# cxline-codex-wrapper");
    }
    let tb = tmux_block(cxline);
    let (t, tc) = upsert_block(tmux, "# cxline-managed", tb.as_str());
    let wb = shell_wrapper_block();
    let (u, uc) = upsert_block(rc, "# cxline-codex-wrapper", wb.as_str());
    match remove_legacy_alias(u.as_str()) {
        Some(v) => (t, tc, v, uc, true),
        None => (t, tc, u, uc, false),
    }
}

} // verus!
