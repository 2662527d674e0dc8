use vstd::prelude::*;
use crate::parser::{
    apply_model, codex_event, counts_new_turn, parse_codex_line, CodexLine, CodexSession,
    SessionModel,
};
use crate::setup::{lines_of, text_lines};
use crate::style::{strip_ansi, visible_text};
use crate::text::{opt_text, push_char, push_str, texts, trim, trimmed};

verus! {

/// The non-blank lines of `ls`, each trimmed.
pub open spec fn nonblank_trimmed(ls: Seq<Seq<char>>) -> Seq<Seq<char>>
    decreases ls.len(),
{
    if ls.len() == 0 {
        Seq::empty()
    } else if trimmed(ls.last()).len() > 0 {
        nonblank_trimmed(ls.drop_last()).push(trimmed(ls.last()))
    } else {
        nonblank_trimmed(ls.drop_last())
    }
}

/// The records of a session log: its non-blank lines, trimmed.
pub fn log_lines(content: &str) -> (r: Vec<String>)
    ensures
        texts(r@) == nonblank_trimmed(text_lines(content@)),
{
    let ls = lines_of(content);
    let n = ls.len();
    let mut out: Vec<String> = Vec::new();
    for i in 0..n
        invariant
            n == ls@.len(),
            texts(out@) == nonblank_trimmed(texts(ls@).take(i as int)),
    {
        assert(texts(ls@).take(i + 1).drop_last() == texts(ls@).take(i as int));
        assert(texts(ls@).take(i + 1).last() == ls@[i as int]@);
        let t = trim(ls[i].as_str());
        if !t.as_str().is_empty() {
            let ghost old_out = out@;
            let ghost tv = t@;
            out.push(t);
            assert(texts(out@) =~= texts(old_out).push(tv));
        }
    }
    assert(texts(ls@).take(n as int) == texts(ls@));
    out
}

/// The session state after the records `lines` (each the parsed line, or
/// nothing for a line that is not a log record), in order. Records that are
/// not events are passed over, and so is an event that would take the turn
/// count past `u32::MAX`.
pub open spec fn replay(s: SessionModel, lines: Seq<Option<CodexLine>>) -> SessionModel
    decreases lines.len(),
{
    if lines.len() == 0 {
        s
    } else {
        let before = replay(s, lines.drop_last());
        match lines.last() {
            Some(raw) => match codex_event(raw.event_type@, raw.payload) {
                Some(e) => if counts_new_turn(before, e) ==> before.turn_count < u32::MAX {
                    apply_model(before, e)
                } else {
                    before
                },
                None => before,
            },
            None => before,
        }
    }
}

/// Whether replaying `lines` from `s` applies every event: none of them
/// would take the turn count past `u32::MAX`.
pub open spec fn replay_fits(s: SessionModel, lines: Seq<Option<CodexLine>>) -> bool
    decreases lines.len(),
{
    if lines.len() == 0 {
        true
    } else {
        let before = replay(s, lines.drop_last());
        &&& replay_fits(s, lines.drop_last())
        &&& match lines.last() {
            Some(raw) => match codex_event(raw.event_type@, raw.payload) {
                Some(e) => counts_new_turn(before, e) ==> before.turn_count < u32::MAX,
                None => true,
            },
            None => true,
        }
    }
}

/// Applies the records of a session log to `session`, in order; tells
/// whether every event could be applied (an event that would take the turn
/// count past `u32::MAX` is passed over).
pub fn apply_lines(session: &mut CodexSession, lines: &Vec<Option<CodexLine>>) -> (r: bool)
    ensures
        final(session)@ == replay(old(session)@, lines@),
        r == replay_fits(old(session)@, lines@),
{
    let n = lines.len();
    let mut fits = true;
    for i in 0..n
        invariant
            n == lines@.len(),
            session@ == replay(old(session)@, lines@.take(i as int)),
            fits == replay_fits(old(session)@, lines@.take(i as int)),
    {
        assert(lines@.take(i + 1).drop_last() == lines@.take(i as int));
        assert(lines@.take(i + 1).last() == lines@[i as int]);
        match &lines[i] {
            Some(raw) => match parse_codex_line(raw) {
                Some(event) => {
                    if session.can_apply(&event) {
                        session.apply_event(&event);
                    } else {
                        fits = false;
                    }
                },
                None => {},
            },
            None => {},
        }
    }
    assert(lines@.take(n as int) == lines@);
    fits
}

/// Where to go on reading a growing log of which `pos` characters were
/// read, when it now has `len`: whether it was truncated (then the session
/// starts over), and where to read from.
pub fn resume_point(pos: u64, len: u64) -> (r: (bool, u64))
    ensures
        r == if len < pos {
            (true, 0u64)
        } else {
            (false, pos)
        },
{
    if len < pos {
        (true, 0)
    } else {
        (false, pos)
    }
}

/// The sequence that sets the terminal's title to the visible text of
/// `line`: `ESC ] 0 ; title BEL`; nothing when the line shows nothing.
pub open spec fn title_sequence(line: Seq<char>) -> Option<Seq<char>> {
    let plain = visible_text(line);
    if plain.len() == 0 {
        None
    } else {
        Some(seq!['\x1b', ']', '0', ';'] + plain + seq!['\x07'])
    }
}

/// The sequence that sets the terminal's title to the visible text of `line`.
pub fn title_update(line: &str) -> (r: Option<String>)
    ensures
        opt_text(r) == title_sequence(line@),
{
    let plain = strip_ansi(line);
    if plain.as_str().is_empty() {
        return None;
    }
    let mut r = String::new();
    push_char(&mut r, '\x1b');
    push_char(&mut r, ']');
    push_char(&mut r, '0');
    push_char(&mut r, ';');
    push_str(&mut r, plain.as_str());
    push_char(&mut r, '\x07');
    assert(r@ =~= seq!['\x1b', ']', '0', ';'] + plain@ + seq!['\x07']);
    Some(r)
}

/// Reading a log in two parts, as watching it does, gives the state that
/// reading it at once gives.
pub proof fn law_replay_in_parts(s: SessionModel, a: Seq<Option<CodexLine>>, b: Seq<Option<CodexLine>>)
    ensures
        replay(replay(s, a), b) == replay(s, a + b),
    decreases b.len(),
{
    if b.len() == 0 {
        assert(a + b == a);
    } else {
        law_replay_in_parts(s, a, b.drop_last());
        assert((a + b).drop_last() == a + b.drop_last());
        assert((a + b).last() == b.last());
    }
}

/// Which of the files with modification times `times` is the newest: the
/// first of those with the latest time; nothing when there is no file.
pub fn newest_index(times: &Vec<i128>) -> (r: Option<usize>)
    ensures
        r is None <==> times@.len() == 0,
        r matches Some(i) ==> i < times@.len() && (forall|j: int|
            0 <= j < times@.len() ==> times@[j] <= times@[i as int]) && (forall|j: int|
            0 <= j < i ==> times@[j] < times@[i as int]),
{
    let n = times.len();
    if n == 0 {
        return None;
    }
    let mut best: usize = 0;
    for i in 1..n
        invariant
            n == times@.len(),
            best < i <= n,
            forall|j: int| 0 <= j < i ==> times@[j] <= times@[best as int],
            forall|j: int| 0 <= j < best ==> times@[j] < times@[best as int],
    {
        if times[i] > times[best] {
            best = i;
        }
    }
    Some(best)
}

} // verus!
