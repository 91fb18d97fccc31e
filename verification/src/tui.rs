//! What the live terminal dashboard of the client shows: recent log lines, cut to fit, and the
//! state of each tunnel.

use crate::text::{chars_of, split_on, string_of, trim_end_chars};
use crate::text::{pieces_view, split_all, trimmed_end};
use std::collections::VecDeque;
use vstd::prelude::*;
use vstd::slice::slice_subrange;

verus! {

/// How many log lines are kept.
pub const LOG_CAP: usize = 200;

/// How many log lines are shown.
pub const LOG_SHOWN: usize = 10;

/// How wide a log line is shown.
pub const LOG_WIDTH: usize = 78;

// ---------------------------------------------------------------------------
// Log lines
// ---------------------------------------------------------------------------

/// The lines among pieces of a text: without trailing whitespace, and without blank ones.
pub open spec fn solid_lines(pieces: Seq<Seq<char>>) -> Seq<Seq<char>>
    decreases pieces.len(),
{
    if pieces.len() == 0 {
        Seq::empty()
    } else {
        let front = solid_lines(pieces.drop_last());
        let line = trimmed_end(pieces.last());
        if line.len() == 0 {
            front
        } else {
            front.push(line)
        }
    }
}

/// The lines of a text.
pub open spec fn log_lines(text: Seq<char>) -> Seq<Seq<char>> {
    solid_lines(split_all(text, '\n'))
}

/// The last `n` of a sequence, or all of it.
pub open spec fn last_of<T>(s: Seq<T>, n: nat) -> Seq<T> {
    if s.len() > n {
        s.skip(s.len() - n)
    } else {
        s
    }
}

/// The contents of lines.
pub open spec fn line_views(lines: Seq<String>) -> Seq<Seq<char>> {
    Seq::new(lines.len(), |i: int| lines[i]@)
}

/// The ring buffer of formatted log lines, written instead of stdout so that the dashboard owns
/// the screen.
pub struct LogWriter {
    lines: VecDeque<String>,
}

impl View for LogWriter {
    type V = Seq<Seq<char>>;

    closed spec fn view(&self) -> Seq<Seq<char>> {
        line_views(self.lines@)
    }
}

/// An empty ring buffer.
pub fn make_writer() -> (r: LogWriter)
    ensures
        r@ == Seq::<Seq<char>>::empty(),
{
    let r = LogWriter { lines: VecDeque::new() };
    assert(r@ =~= Seq::empty());
    r
}

impl LogWriter {
    /// Append the lines of a text; the oldest lines make room.
    pub fn write(&mut self, text: &str)
        ensures
            final(self)@ == last_of(old(self)@ + log_lines(text@), LOG_CAP as nat),
    {
        let pieces = split_on(&chars_of(text), '\n');
        let ghost before = self@;
        let ghost views = pieces_view(pieces@);
        let mut i: usize = 0;
        proof {
            assert(views.take(0) =~= Seq::empty());
            assert(self@ =~= before + solid_lines(views.take(0)));
        }
        while i < pieces.len()
            invariant
                i <= pieces@.len(),
                views == pieces_view(pieces@),
                self@ == before + solid_lines(views.take(i as int)),
            decreases pieces@.len() - i,
        {
            let line = trim_end_chars(&pieces[i]);
            proof {
                let now = views.take(i as int + 1);
                assert(now.drop_last() =~= views.take(i as int));
                assert(now.last() == pieces@[i as int]@);
            }
            if line.len() > 0 {
                let ghost so_far = self@;
                self.lines.push_back(string_of(line));
                assert(self@ =~= so_far.push(line@));
                assert(self@ =~= before + solid_lines(views.take(i as int + 1)));
            }
            i += 1;
        }
        assert(views.take(i as int) =~= views);
        let ghost full = self@;
        assert(full.skip(0) =~= full);
        while self.lines.len() > LOG_CAP
            invariant
                full == before + log_lines(text@),
                self@.len() <= full.len(),
                self@ == full.skip(full.len() - self@.len()),
                full.len() > LOG_CAP ==> self@.len() >= LOG_CAP,
                full.len() <= LOG_CAP ==> self@ == full,
            decreases self.lines@.len(),
        {
            let ghost so_far = self@;
            let _ = self.lines.pop_front();
            proof {
                assert(self@ =~= so_far.skip(1));
                assert(self@ =~= full.skip(full.len() - self@.len()));
            }
        }
        proof {
            assert(full.skip(0) =~= full);
        }
    }

    /// The log lines that are shown: the most recent ones, cut to fit.
    pub fn shown(&self) -> (r: Vec<String>)
        ensures
            r@.len() == last_of(self@, LOG_SHOWN as nat).len(),
            forall|i: int|
                0 <= i < r@.len() ==> (#[trigger] r@[i])@ == cut(
                    last_of(self@, LOG_SHOWN as nat)[i],
                    LOG_WIDTH as nat,
                ),
    {
        let total: usize = self.lines.len();
        let start: usize = if total > LOG_SHOWN {
            total - LOG_SHOWN
        } else {
            0
        };
        let mut out: Vec<String> = Vec::new();
        let mut i: usize = start;
        while i < total
            invariant
                start <= i <= total,
                total == self.lines@.len(),
                start == (if total > LOG_SHOWN {
                    total - LOG_SHOWN
                } else {
                    0
                }),
                out@.len() == i - start,
                forall|j: int|
                    0 <= j < out@.len() ==> (#[trigger] out@[j])@ == cut(
                        self@[start + j],
                        LOG_WIDTH as nat,
                    ),
            decreases total - i,
        {
            out.push(truncate(self.lines[i].as_str(), LOG_WIDTH));
            i += 1;
        }
        out
    }
}

/// The lines of a text are its pieces between line breaks, without trailing whitespace, in order;
/// blank ones are left out.
pub proof fn law_lines_of_text(pieces: Seq<Seq<char>>)
    ensures
        solid_lines(pieces) == pieces.map_values(|p: Seq<char>| trimmed_end(p)).filter(
            |l: Seq<char>| l.len() > 0,
        ),
    decreases pieces.len(),
{
    let trim = |p: Seq<char>| trimmed_end(p);
    let solid = |l: Seq<char>| l.len() > 0;
    reveal(Seq::filter);
    let mapped = pieces.map_values(trim);
    if pieces.len() > 0 {
        law_lines_of_text(pieces.drop_last());
        assert(mapped.drop_last() =~= pieces.drop_last().map_values(trim));
        assert(mapped.last() == trimmed_end(pieces.last()));
    } else {
        assert(mapped.filter(solid) =~= Seq::empty());
    }
    assert(solid_lines(pieces) =~= mapped.filter(solid));
}

/// The log keeps the last 200 lines, and the last ten of them are shown: whatever was written, the
/// most recent lines stand at the end, in order.
pub proof fn law_log_keeps_last(before: Seq<Seq<char>>, text: Seq<char>, n: nat)
    ensures
        ({
            let all = before + log_lines(text);
            let kept = last_of(all, 200);
            &&& LOG_CAP == 200 && LOG_SHOWN == 10 && LOG_WIDTH == 78
            &&& kept.len() == (if all.len() <= 200 {
                all.len()
            } else {
                200
            })
            &&& forall|i: int|
                0 <= i < kept.len() ==> #[trigger] kept[i] == all[all.len() - kept.len() + i]
            &&& last_of(kept, 10) == last_of(all, 10)
        }),
{
    let all = before + log_lines(text);
    assert(last_of(last_of(all, 200), 10) =~= last_of(all, 10));
}

/// The buffer never outgrows its capacity.
pub proof fn law_log_bounded(before: Seq<Seq<char>>, text: Seq<char>)
    ensures
        last_of(before + log_lines(text), LOG_CAP as nat).len() <= LOG_CAP,
{
}

// ---------------------------------------------------------------------------
// Cells
// ---------------------------------------------------------------------------

/// A text cut to `n` characters, the last of which says that something is missing.
pub open spec fn cut(s: Seq<char>, n: nat) -> Seq<char> {
    if s.len() <= n {
        s
    } else if n == 0 {
        seq!['…']
    } else {
        s.take(n - 1).push('…')
    }
}

/// Cut a text to `n` characters.
pub fn truncate(s: &str, n: usize) -> (r: String)
    ensures
        r@ == cut(s@, n as nat),
{
    let chars = chars_of(s);
    if chars.len() <= n {
        return s.to_string();
    }
    let keep: usize = n.saturating_sub(1);
    let mut t = string_of(slice_subrange(&chars, 0, keep));
    t.push('…');
    proof {
        assert(chars@.subrange(0, keep as int) =~= chars@.take(keep as int));
        assert(t@ =~= cut(s@, n as nat));
    }
    t
}

/// What is shown fits its column.
pub proof fn law_cut_fits(s: Seq<char>, n: nat)
    requires
        n > 0,
    ensures
        cut(s, n).len() <= n,
{
}

/// The state of a tunnel, as it is shown.
#[derive(Debug, Clone, Copy, PartialEq, Eq, Structural)]
pub enum RowState {
    Rejected,
    Up,
    Pending,
}

/// The state of a tunnel with or without an error that is up or not.
pub open spec fn row_state(has_error: bool, up: bool) -> RowState {
    if has_error {
        RowState::Rejected
    } else if up {
        RowState::Up
    } else {
        RowState::Pending
    }
}

/// A tunnel shows as rejected exactly while it has an error, and as up exactly while it is up without
/// one.
pub proof fn law_row_states(has_error: bool, up: bool)
    ensures
        row_state(has_error, up) is Rejected <==> has_error,
        row_state(has_error, up) is Up <==> up && !has_error,
        row_state(has_error, up) is Pending <==> !up && !has_error,
{
}

impl RowState {
    /// The state of a tunnel: rejected while it has an error, else up or not yet up.
    pub fn of(has_error: bool, up: bool) -> (r: RowState)
        ensures
            r == row_state(has_error, up),
    {
        if has_error {
            RowState::Rejected
        } else if up {
            RowState::Up
        } else {
            RowState::Pending
        }
    }

    pub fn label(self) -> (r: &'static str)
        ensures
            r@ == (match self {
                RowState::Rejected => "rejected"@,
                RowState::Up => "up"@,
                RowState::Pending => "pending"@,
            }),
    {
        match self {
            RowState::Rejected => "rejected",
            RowState::Up => "up",
            RowState::Pending => "pending",
        }
    }
}

/// A text that fits is shown as it is. One that does not is shown up to the last column, which says
/// that something is missing.
pub proof fn law_cut_shows_start(s: Seq<char>, n: nat)
    requires
        n > 0,
    ensures
        s.len() <= n ==> cut(s, n) == s,
        s.len() > n ==> cut(s, n).len() == n && cut(s, n).last() == '…' && cut(s, n).drop_last()
            == s.take(n - 1),
{
    if s.len() > n {
        assert(cut(s, n).drop_last() =~= s.take(n - 1));
    }
}

}
