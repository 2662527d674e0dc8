use vstd::prelude::*;
use crate::modules::{module_output, module_wf, StatusModule};
use crate::parser::SessionData;
use crate::style::{law_truncate_keeps_visible_prefix, truncate_ansi, truncated, visible_count, visible_len};
use crate::text::{join, join_strings, opt_text, texts};
use crate::theme::Theme;

verus! {

/// The present ones among `outs`, in order.
pub open spec fn present(outs: Seq<Option<Seq<char>>>) -> Seq<Seq<char>>
    decreases outs.len(),
{
    if outs.len() == 0 {
        Seq::empty()
    } else {
        match outs.last() {
            Some(s) => present(outs.drop_last()).push(s),
            None => present(outs.drop_last()),
        }
    }
}

/// The segments of a line are the present outputs of all its modules, in
/// order: the outputs of two runs of modules give the segments of each, one
/// after the other; a module that renders nothing adds nothing and removes
/// nothing; one that renders a segment adds exactly that segment.
pub proof fn law_present_outputs(
    a: Seq<Option<Seq<char>>>,
    b: Seq<Option<Seq<char>>>,
    seg: Seq<char>,
)
    ensures
        present(a + b) == present(a) + present(b),
        present(a.push(None)) == present(a),
        present(a.push(Some(seg))) == present(a).push(seg),
        present(seq![None]) == Seq::<Seq<char>>::empty(),
        present(seq![Some(seg)]) == seq![seg],
    decreases b.len(),
{
    assert(a.push(None).drop_last() =~= a);
    assert(a.push(Some(seg)).drop_last() =~= a);
    let e = Seq::<Option<Seq<char>>>::empty();
    assert(e.push(None) =~= seq![None]);
    assert(e.push(Some(seg)) =~= seq![Some(seg)]);
    assert(present(e) == Seq::<Seq<char>>::empty());
    assert(e.push(None).drop_last() =~= e);
    assert(e.push(Some(seg)).drop_last() =~= e);
    if b.len() == 0 {
        assert(a + b =~= a);
        assert(present(a) + present(b) =~= present(a));
    } else {
        law_present_outputs(a, b.drop_last(), seg);
        assert((a + b).drop_last() =~= a + b.drop_last());
        assert((a + b).last() == b.last());
        assert(present(a + b) =~= present(a) + present(b));
    }
}

/// The status line made of `segs`: joined by `sep`, and cut to one less than
/// `width` visible characters when it is wider than a terminal of `width`
/// columns (`width` zero: never cut).
pub open spec fn status_line(segs: Seq<Seq<char>>, sep: Seq<char>, width: nat) -> Seq<char> {
    if segs.len() == 0 {
        Seq::empty()
    } else {
        let line = join(segs, sep);
        if width > 0 && visible_count(line) > width {
            truncated(line, (width - 1) as nat)
        } else {
            line
        }
    }
}

/// `outs` is what `modules` give, one each, for `data` in `theme`.
pub open spec fn outputs_of(
    modules: Seq<StatusModule>,
    data: SessionData,
    theme: Theme,
    git_head: Option<String>,
    outs: Seq<Option<Seq<char>>>,
) -> bool {
    &&& outs.len() == modules.len()
    &&& forall|i: int|
        0 <= i < outs.len() ==> module_output(modules[i], data, theme, git_head, #[trigger] outs[i])
}

/// Renders the modules and joins their segments into one status line, cut to
/// the terminal's width.
pub fn format_statusline(
    modules: &Vec<StatusModule>,
    data: &SessionData,
    theme: &Theme,
    git_head: &Option<String>,
    terminal_width: u16,
) -> (r: String)
    requires
        forall|i: int| 0 <= i < modules@.len() ==> module_wf(#[trigger] modules@[i], *data),
    ensures
        exists|outs: Seq<Option<Seq<char>>>|
            outputs_of(modules@, *data, *theme, *git_head, outs) && r@ == status_line(
                #[trigger] present(outs),
                theme.separator@,
                terminal_width as nat,
            ),
{
    let mut segments: Vec<String> = Vec::new();
    let ghost mut outs: Seq<Option<Seq<char>>> = Seq::empty();
    let n = modules.len();
    for i in 0..n
        invariant
            n == modules@.len(),
            forall|i: int| 0 <= i < modules@.len() ==> module_wf(#[trigger] modules@[i], *data),
            outs.len() == i,
            forall|j: int|
                0 <= j < i ==> module_output(modules@[j], *data, *theme, *git_head, #[trigger] outs[j]),
            texts(segments@) == present(outs),
    {
        let out = modules[i].render(data, theme, git_head);
        let ghost prev = outs;
        proof {
            outs = outs.push(opt_text(out));
            assert(outs.drop_last() == prev);
        }
        match out {
            Some(s) => {
                segments.push(s);
                assert(texts(segments@) =~= present(prev).push(outs.last()->0));
            },
            None => {},
        }
    }
    assert(outputs_of(modules@, *data, *theme, *git_head, outs));
    if segments.len() == 0 {
        return String::new();
    }
    let line = join_strings(&segments, theme.separator.as_str());
    let width = terminal_width as usize;
    if width > 0 && visible_len(line.as_str()) > width {
        truncate_ansi(line.as_str(), width - 1)
    } else {
        line
    }
}

/// The status line is never wider than the terminal.
pub proof fn law_line_fits_terminal(segs: Seq<Seq<char>>, sep: Seq<char>, width: nat)
    requires
        width > 0,
    ensures
        visible_count(status_line(segs, sep, width)) <= width,
{
    if segs.len() > 0 {
        let line = join(segs, sep);
        if visible_count(line) > width {
            law_truncate_keeps_visible_prefix(line, (width - 1) as nat);
        }
    }
}

/// With no segment there is no line.
pub proof fn law_no_segments_no_line(sep: Seq<char>, width: nat)
    ensures
        status_line(Seq::empty(), sep, width) == Seq::<char>::empty(),
{
}

proof fn lemma_present_none(outs: Seq<Option<Seq<char>>>)
    requires
        forall|i: int| 0 <= i < outs.len() ==> #[trigger] outs[i] is None,
    ensures
        present(outs) == Seq::<Seq<char>>::empty(),
    decreases outs.len(),
{
    if outs.len() > 0 {
        assert(outs[outs.len() - 1] is None);
        lemma_present_none(outs.drop_last());
    }
}

/// A session of which nothing is known gives no segment and an empty line,
/// whatever the modules, the theme and the width.
pub proof fn law_empty_data_empty_line(
    modules: Seq<StatusModule>,
    data: SessionData,
    theme: Theme,
    outs: Seq<Option<Seq<char>>>,
    width: nat,
)
    requires
        data.is_empty(),
        outputs_of(modules, data, theme, None, outs),
    ensures
        present(outs) == Seq::<Seq<char>>::empty(),
        status_line(present(outs), theme.separator@, width) == Seq::<char>::empty(),
{
    assert forall|i: int| 0 <= i < outs.len() implies #[trigger] outs[i] is None by {
        assert(module_output(modules[i], data, theme, None, outs[i]));
    }
    lemma_present_none(outs);
}

} // verus!
