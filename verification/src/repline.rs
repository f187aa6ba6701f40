//! The line-reading session: key dispatch and bounded history.
//!
//! A [`Repline`] owns a byte decoder, a text [`Editor`] and a bounded,
//! deduplicating history of submitted lines.  Decoded characters drive an
//! explicit key-dispatch state machine ([`Mode`]): printable characters
//! edit the buffer, control characters erase or submit, and escape
//! sequences move the cursor or navigate the history.

use crate::editor::{
    back_cmds, back_state, buffer_end_cmds, buffer_start_cmds, delete_cmds, down_cmds, down_state,
    end_cmds, erase_word_cmds, erase_word_head, extend_cmds, fwd_cmds, fwd_state, first_newline,
    home_cmds, is_white_space, is_word_char, line_start, pop_cmds, push_cmds, redraw_cmds,
    undraw_cmds, up_cmds, up_state, word_back_cmds, word_fwd_cmds, word_run_end, word_run_start,
    Command, Editor,
};
use crate::error::{Error, ReplResult};
use crate::iter::Chars;
use vstd::prelude::*;

verus! {

/// Trailing whitespace removed.
pub open spec fn trim_end_spec(s: Seq<char>) -> Seq<char>
    decreases s.len(),
{
    if s.len() > 0 && is_white_space(s.last()) {
        trim_end_spec(s.drop_last())
    } else {
        s
    }
}

/// Every entry equal to `e` removed, order otherwise kept.
pub open spec fn remove_equal(h: Seq<Seq<char>>, e: Seq<char>) -> Seq<Seq<char>>
    decreases h.len(),
{
    if h.len() == 0 {
        h
    } else if h.last() == e {
        remove_equal(h.drop_last(), e)
    } else {
        remove_equal(h.drop_last(), e).push(h.last())
    }
}

/// The newest `cap` entries: anything older is evicted from the front.
pub open spec fn evict_spec(h: Seq<Seq<char>>, cap: int) -> Seq<Seq<char>> {
    if h.len() > cap {
        h.skip(h.len() - cap)
    } else {
        h
    }
}

/// What accepting a line does to the history: the text loses its trailing
/// whitespace, any equal entry is removed, the text is appended as the
/// most recent entry, and the oldest entries are evicted beyond the
/// capacity.
pub open spec fn accept_spec(h: Seq<Seq<char>>, text: Seq<char>, cap: int) -> Seq<Seq<char>> {
    evict_spec(remove_equal(h, trim_end_spec(text)).push(trim_end_spec(text)), cap)
}

/// A copy of `s` with its trailing whitespace removed.
#[verifier::loop_isolation(false)]
fn trimmed(s: &String) -> (r: String)
    ensures
        r@ == trim_end_spec(s@),
{
    let n = s.as_str().unicode_len();
    let mut j = n;
    proof {
        assert(s@.take(n as int) =~= s@);
    }
    while j > 0
        invariant
            j <= n,
            trim_end_spec(s@) == trim_end_spec(s@.take(j as int)),
        decreases j,
    {
        if !s.as_str().get_char(j - 1).is_whitespace() {
            break;
        }
        proof {
            let pre = s@.take(j as int);
            assert(pre.last() == s@[j - 1]);
            assert(pre.drop_last() =~= s@.take(j - 1));
        }
        j = j - 1;
    }
    proof {
        if j > 0 {
            let pre = s@.take(j as int);
            assert(pre.last() == s@[j - 1]);
            assert(trim_end_spec(pre) == pre);
        }
    }
    let mut r = String::new();
    let mut i: usize = 0;
    while i < j
        invariant
            i <= j <= n,
            n == s@.len(),
            r@ == s@.take(i as int),
        decreases j - i,
    {
        r.push(s.as_str().get_char(i));
        i = i + 1;
        proof {
            assert(r@ =~= s@.take(i as int));
        }
    }
    r
}

/// Where the key-dispatch machine stands while an escape sequence is
/// still incomplete.
#[derive(Clone, Copy, Debug, PartialEq, Eq, Structural)]
pub enum Mode {
    /// Plain input.
    Normal,
    /// An escape byte has been seen.
    Esc,
    /// The control-sequence introducer `ESC [` has been seen.
    Csi,
    /// `ESC [ 3`, awaiting the `~` that erases forwards.
    CsiDelete,
    /// `ESC [ 5`, awaiting the `~` that jumps to the buffer's start.
    CsiStart,
    /// `ESC [ 6`, awaiting the `~` that jumps to the buffer's end.
    CsiEnd,
    /// `ESC [ 1`, the start of a modifier sequence.
    CsiMod,
    /// `ESC [ 1 ;`.
    CsiModSemi,
    /// `ESC [ 1 ; 5`, awaiting the letter for a word-wise motion.
    CsiModFive,
}

/// What one dispatched character led to.
#[derive(Debug)]
pub enum Step {
    /// Keep reading input.
    Pending,
    /// A full line was submitted; it is returned to the caller.
    Submit(String),
}

/// The session as the key-dispatch machine sees it: the split buffer,
/// the stored lines, the navigation index, and the escape-parsing mode.
pub struct SessionState {
    /// Characters before the cursor.
    pub head: Seq<char>,
    /// Characters at or after the cursor.
    pub tail: Seq<char>,
    /// The stored lines, oldest first.
    pub hist: Seq<Seq<char>>,
    /// The navigation index.
    pub hindex: int,
    /// The escape-parsing mode.
    pub mode: Mode,
}

/// How one dispatched character left the session.
pub enum StepEnd {
    /// Keep reading.
    Pending,
    /// A full line was submitted, with this text.
    Submitted(Seq<char>),
    /// The interrupt byte ended the read, carrying the in-progress text.
    Interrupted(Seq<char>),
    /// The end-of-transmission byte ended the read, carrying the text.
    TransmissionEnded(Seq<char>),
    /// The escape-then-return close signal ended the read.
    Closed,
}

/// The whole key map as one function: what dispatching `c` in state `st`
/// does to the session, and how it leaves the read.  This is the same
/// table that [`Repline::step`] promises clause by clause.
pub open spec fn step_spec(st: SessionState, c: char) -> (SessionState, StepEnd) {
    let h = st.head;
    let t = st.tail;
    match st.mode {
        Mode::Normal => {
            if c == '\x03' {
                (st, StepEnd::Interrupted(h + t))
            } else if c == '\x04' {
                (st, StepEnd::TransmissionEnded(h + t))
            } else if c == '\t' {
                (SessionState { head: h + indent_chars(), ..st }, StepEnd::Pending)
            } else if c == '\n' {
                (st, StepEnd::Pending)
            } else if c == '\r' {
                (
                    SessionState { head: h.push('\n'), ..st },
                    if t.len() == 0 {
                        StepEnd::Submitted(h.push('\n'))
                    } else {
                        StepEnd::Pending
                    },
                )
            } else if c == '\x17' {
                (SessionState { head: erase_word_head(h), ..st }, StepEnd::Pending)
            } else if c == '\x1b' {
                (SessionState { mode: Mode::Esc, ..st }, StepEnd::Pending)
            } else if c == '\x08' || c == '\x7f' {
                let head = if h.len() >= 4 && h.skip(h.len() - 4) == indent_chars() {
                    h.take(h.len() - 4)
                } else if h.len() > 0 {
                    h.drop_last()
                } else {
                    h
                };
                (SessionState { head, ..st }, StepEnd::Pending)
            } else if c as u32 <= 0x1f || c as u32 == 0x7f {
                (st, StepEnd::Pending)
            } else {
                (SessionState { head: h.push(c), ..st }, StepEnd::Pending)
            }
        },
        Mode::Esc => {
            if c == '[' {
                (SessionState { mode: Mode::Csi, ..st }, StepEnd::Pending)
            } else if c == '\r' {
                (st, StepEnd::Closed)
            } else {
                (SessionState { mode: Mode::Normal, ..st }, StepEnd::Pending)
            }
        },
        Mode::Csi => {
            let st = SessionState { mode: Mode::Normal, ..st };
            if c == 'A' {
                if h.len() == 0 && st.hindex > 0 {
                    let hist = writeback_spec(st.hist, st.hindex, h + t);
                    (
                        SessionState {
                            head: Seq::empty(),
                            tail: hist[st.hindex - 1],
                            hist,
                            hindex: st.hindex - 1,
                            ..st
                        },
                        StepEnd::Pending,
                    )
                } else {
                    (
                        SessionState { head: up_state(h, t).0, tail: up_state(h, t).1, ..st },
                        StepEnd::Pending,
                    )
                }
            } else if c == 'B' {
                if t.len() == 0 && st.hindex + 1 < st.hist.len() {
                    let hist = writeback_spec(st.hist, st.hindex, h + t);
                    (
                        SessionState {
                            head: hist[st.hindex + 1],
                            tail: Seq::empty(),
                            hist,
                            hindex: st.hindex + 1,
                            ..st
                        },
                        StepEnd::Pending,
                    )
                } else {
                    (
                        SessionState { head: down_state(h, t).0, tail: down_state(h, t).1, ..st },
                        StepEnd::Pending,
                    )
                }
            } else if c == 'C' {
                (
                    SessionState { head: fwd_state(h, t, 1).0, tail: fwd_state(h, t, 1).1, ..st },
                    StepEnd::Pending,
                )
            } else if c == 'D' {
                (
                    SessionState {
                        head: back_state(h, t, 1).0,
                        tail: back_state(h, t, 1).1,
                        ..st
                    },
                    StepEnd::Pending,
                )
            } else if c == 'H' {
                (
                    SessionState {
                        head: h.take(line_start(h)),
                        tail: h.skip(line_start(h)) + t,
                        ..st
                    },
                    StepEnd::Pending,
                )
            } else if c == 'F' {
                (
                    SessionState {
                        head: h + t.take(first_newline(t)),
                        tail: t.skip(first_newline(t)),
                        ..st
                    },
                    StepEnd::Pending,
                )
            } else if c == '3' {
                (SessionState { mode: Mode::CsiDelete, ..st }, StepEnd::Pending)
            } else if c == '5' {
                (SessionState { mode: Mode::CsiStart, ..st }, StepEnd::Pending)
            } else if c == '6' {
                (SessionState { mode: Mode::CsiEnd, ..st }, StepEnd::Pending)
            } else if c == '1' {
                (SessionState { mode: Mode::CsiMod, ..st }, StepEnd::Pending)
            } else {
                (st, StepEnd::Pending)
            }
        },
        Mode::CsiDelete => {
            let st = SessionState { mode: Mode::Normal, ..st };
            if c == '~' && t.len() > 0 {
                (SessionState { tail: t.drop_first(), ..st }, StepEnd::Pending)
            } else {
                (st, StepEnd::Pending)
            }
        },
        Mode::CsiStart => {
            let st = SessionState { mode: Mode::Normal, ..st };
            if c == '~' {
                (SessionState { head: Seq::empty(), tail: h + t, ..st }, StepEnd::Pending)
            } else {
                (st, StepEnd::Pending)
            }
        },
        Mode::CsiEnd => {
            let st = SessionState { mode: Mode::Normal, ..st };
            if c == '~' {
                (SessionState { head: h + t, tail: Seq::empty(), ..st }, StepEnd::Pending)
            } else {
                (st, StepEnd::Pending)
            }
        },
        Mode::CsiMod => {
            if c == ';' {
                (SessionState { mode: Mode::CsiModSemi, ..st }, StepEnd::Pending)
            } else {
                (SessionState { mode: Mode::Normal, ..st }, StepEnd::Pending)
            }
        },
        Mode::CsiModSemi => {
            if c == '5' {
                (SessionState { mode: Mode::CsiModFive, ..st }, StepEnd::Pending)
            } else {
                (SessionState { mode: Mode::Normal, ..st }, StepEnd::Pending)
            }
        },
        Mode::CsiModFive => {
            let st = SessionState { mode: Mode::Normal, ..st };
            if c == 'C' && t.len() > 0 {
                let k = word_run_end(t, is_word_char(t[0]));
                (SessionState { head: h + t.take(k), tail: t.skip(k), ..st }, StepEnd::Pending)
            } else if c == 'D' && h.len() > 0 {
                let k = word_run_start(h, is_word_char(h.last()));
                (SessionState { head: h.take(k), tail: h.skip(k) + t, ..st }, StepEnd::Pending)
            } else {
                (st, StepEnd::Pending)
            }
        },
    }
}

/// What ends a whole read.
pub enum ReadEnd {
    /// A line was submitted, with this text.
    Submitted(Seq<char>),
    /// The interrupt byte ended it, carrying the in-progress text.
    Interrupted(Seq<char>),
    /// The end-of-transmission byte ended it, carrying the text.
    TransmissionEnded(Seq<char>),
    /// A malformed byte sequence ended it, carrying the partially
    /// accumulated codepoint.
    Malformed(u32),
    /// The bytes ran out, cleanly or inside a truncated character.
    Exhausted,
    /// The escape-then-return close signal ended it.
    Closed,
}

/// The key-dispatch machine folded over a byte sequence: characters are
/// decoded and dispatched one at a time until something other than plain
/// progress happens.  Yields the final session state, the bytes left
/// over, and what ended the read.
pub open spec fn run_spec(st: SessionState, bytes: Seq<u8>) -> (SessionState, Seq<u8>, ReadEnd)
    decreases bytes.len(),
    via run_spec_decreases
{
    match crate::iter::decoded_first(bytes) {
        None => (st, crate::iter::rest_after_first(bytes), ReadEnd::Exhausted),
        Some(Err(bad)) => (st, crate::iter::rest_after_first(bytes), ReadEnd::Malformed(bad.0)),
        Some(Ok(c)) => {
            let (st2, e) = step_spec(st, c);
            let rest = crate::iter::rest_after_first(bytes);
            match e {
                StepEnd::Pending => run_spec(st2, rest),
                StepEnd::Submitted(s) => (st2, rest, ReadEnd::Submitted(s)),
                StepEnd::Interrupted(s) => (st2, rest, ReadEnd::Interrupted(s)),
                StepEnd::TransmissionEnded(s) => (st2, rest, ReadEnd::TransmissionEnded(s)),
                StepEnd::Closed => (st2, rest, ReadEnd::Closed),
            }
        },
    }
}

#[via_fn]
proof fn run_spec_decreases(st: SessionState, bytes: Seq<u8>) {
    if bytes.len() > 0 {
        crate::iter::lemma_decode_consumes(bytes);
    }
}

/// Prompts the user, reads the lines.  Not much more to it than that.
#[derive(Debug)]
pub struct Repline {
    input: Chars,
    history: Vec<String>,
    hindex: usize,
    capacity: usize,
    mode: Mode,
    ed: Editor,
}

impl Repline {
    /// The text buffer and its prompts.
    pub closed spec fn editor(self) -> Editor {
        self.ed
    }

    /// The stored lines, oldest first.
    pub closed spec fn hist(self) -> Seq<Seq<char>> {
        self.history.deep_view()
    }

    /// The navigation index: equal to the history's length when no entry
    /// is being recalled.
    pub closed spec fn hindex_view(self) -> int {
        self.hindex as int
    }

    /// The bound on the history's length.
    pub closed spec fn capacity_view(self) -> int {
        self.capacity as int
    }

    /// The mode of the key-dispatch machine.
    pub closed spec fn mode_view(self) -> Mode {
        self.mode
    }

    /// The raw bytes not yet decoded.
    pub closed spec fn input_view(self) -> Seq<u8> {
        self.input.remaining()
    }

    /// The decoder's own well-formedness.
    pub closed spec fn input_ok(self) -> bool {
        self.input.wf()
    }

    pub open spec fn wf(self) -> bool {
        &&& self.hindex_view() <= self.hist().len()
        &&& self.input_ok()
    }

    /// The session as the dispatch machine sees it.
    pub open spec fn session_state(self) -> SessionState {
        SessionState {
            head: self.editor().head_view(),
            tail: self.editor().tail_view(),
            hist: self.hist(),
            hindex: self.hindex_view(),
            mode: self.mode_view(),
        }
    }

    /// True when only the session's configuration (not its buffer,
    /// history or input) is compared.
    pub open spec fn same_config(self, other: Repline) -> bool {
        &&& self.editor().same_prompts(other.editor())
        &&& self.capacity_view() == other.capacity_view()
    }

    /// A session reading from the given raw bytes, with the given
    /// highlight color, opening prompt and continuation prompt.
    pub fn with_input(input: Vec<u8>, color: &str, begin: &str, again: &str) -> (r: Repline)
        ensures
            r.wf(),
            r.input_view() == input@,
            r.hist() == Seq::<Seq<char>>::empty(),
            r.hindex_view() == 0,
            r.capacity_view() == 200,
            r.mode_view() == Mode::Normal,
            r.editor().head_view() == Seq::<char>::empty(),
            r.editor().tail_view() == Seq::<char>::empty(),
            r.editor().color_view() == color@,
            r.editor().begin_view() == begin@,
            r.editor().again_view() == again@,
    {
        let r = Repline {
            input: Chars::new(input),
            history: Vec::new(),
            hindex: 0,
            capacity: 200,
            mode: Mode::Normal,
            ed: Editor::new(color, begin, again),
        };
        proof {
            assert(r.hist() =~= Seq::<Seq<char>>::empty());
        }
        r
    }

    /// Hands the session more raw input bytes.
    pub fn feed(&mut self, more: &mut Vec<u8>)
        requires
            old(self).wf(),
        ensures
            final(self).wf(),
            final(self).input_view() == old(self).input_view() + old(more)@,
            final(more)@.len() == 0,
            final(self).editor() == old(self).editor(),
            final(self).hist() == old(self).hist(),
            final(self).hindex_view() == old(self).hindex_view(),
            final(self).capacity_view() == old(self).capacity_view(),
            final(self).mode_view() == old(self).mode_view(),
    {
        self.input.feed(more);
    }

    /// Replaces the terminal prompt color.
    pub fn set_color(&mut self, color: &str)
        requires
            old(self).wf(),
        ensures
            final(self).wf(),
            final(self).editor().color_view() == color@,
            final(self).editor().head_view() == old(self).editor().head_view(),
            final(self).editor().tail_view() == old(self).editor().tail_view(),
            final(self).editor().begin_view() == old(self).editor().begin_view(),
            final(self).editor().again_view() == old(self).editor().again_view(),
            final(self).hist() == old(self).hist(),
            final(self).hindex_view() == old(self).hindex_view(),
            final(self).capacity_view() == old(self).capacity_view(),
            final(self).mode_view() == old(self).mode_view(),
            final(self).input_view() == old(self).input_view(),
    {
        self.ed.set_color(color);
    }

    /// Replaces the opening and continuation prompts.
    pub fn set_prompts(&mut self, begin: &str, again: &str)
        requires
            old(self).wf(),
        ensures
            final(self).wf(),
            final(self).editor().begin_view() == begin@,
            final(self).editor().again_view() == again@,
            final(self).editor().color_view() == old(self).editor().color_view(),
            final(self).editor().head_view() == old(self).editor().head_view(),
            final(self).editor().tail_view() == old(self).editor().tail_view(),
    {
        self.ed.set_prompts(begin, again);
    }

    /// Replaces the bound on the history's length.
    pub fn set_history_capacity(&mut self, capacity: usize)
        requires
            old(self).wf(),
        ensures
            final(self).wf(),
            final(self).capacity_view() == capacity as int,
            final(self).hist() == old(self).hist(),
            final(self).hindex_view() == old(self).hindex_view(),
            final(self).editor() == old(self).editor(),
            final(self).mode_view() == old(self).mode_view(),
            final(self).input_view() == old(self).input_view(),
    {
        self.capacity = capacity;
    }

    /// The buffer's current text.
    pub fn text(&self) -> (r: String)
        ensures
            r@ == self.editor().content(),
    {
        self.ed.to_text()
    }

    /// How many lines the history holds.
    pub fn history_len(&self) -> (r: usize)
        ensures
            r == self.hist().len(),
    {
        self.history.len()
    }

    /// The stored line at the given index, oldest first.
    pub fn history_get(&self, i: usize) -> (r: Option<String>)
        ensures
            i < self.hist().len() ==> (r matches Some(s) && s@ == self.hist()[i as int]),
            i >= self.hist().len() ==> r is None,
    {
        if i < self.history.len() {
            Some(self.history[i].clone())
        } else {
            None
        }
    }

    /// Appends a line to the history: trailing whitespace is trimmed, an
    /// equal entry is removed first, and the oldest entries are evicted
    /// beyond the capacity.
    #[verifier::loop_isolation(false)]
    fn history_append(&mut self, buf: String)
        ensures
            final(self).hist() == accept_spec(
                old(self).hist(),
                buf@,
                old(self).capacity_view(),
            ),
            final(self).hindex_view() == old(self).hindex_view(),
            final(self).capacity_view() == old(self).capacity_view(),
            final(self).editor() == old(self).editor(),
            final(self).mode_view() == old(self).mode_view(),
            final(self).input_view() == old(self).input_view(),
            final(self).input_ok() == old(self).input_ok(),
            final(self).hist().len() <= old(self).capacity_view(),
    {
        let ghost h0 = self.history.deep_view();
        let buf = trimmed(&buf);
        let n = self.history.len();
        let mut kept: Vec<String> = Vec::new();
        let mut i: usize = 0;
        proof {
            assert(h0.take(0) =~= Seq::<Seq<char>>::empty());
            assert(kept.deep_view() =~= remove_equal(h0.take(0), buf@));
        }
        while i < n
            invariant
                i <= n,
                kept.deep_view() == remove_equal(h0.take(i as int), buf@),
            decreases n - i,
        {
            let ghost prev = kept.deep_view();
            if !(self.history[i] == buf) {
                kept.push(self.history[i].clone());
                proof {
                    assert(kept.deep_view() =~= prev.push(h0.take(i + 1).last()));
                }
            }
            i = i + 1;
            proof {
                let pre = h0.take(i as int);
                assert(pre.last() == h0[i - 1]);
                assert(h0[i - 1] == self.history@[i - 1]@);
                assert(pre.drop_last() =~= h0.take(i - 1));
            }
        }
        proof {
            assert(h0.take(n as int) =~= h0);
        }
        kept.push(buf);
        let ghost full_v = kept@;
        let ghost full = kept.deep_view();
        let ghost mut dropped: int = 0;
        proof {
            assert(kept@ =~= full_v.skip(dropped));
        }
        while kept.len() > self.capacity
            invariant
                0 <= dropped <= full_v.len(),
                kept@ == full_v.skip(dropped),
                dropped == 0 || full_v.len() - dropped >= self.capacity as int,
            decreases kept@.len(),
        {
            let _ = kept.remove(0);
            proof {
                dropped = dropped + 1;
                assert(kept@ =~= full_v.skip(dropped));
            }
        }
        proof {
            assert(kept.deep_view() =~= full.skip(dropped));
            if full.len() > self.capacity {
                assert(kept.deep_view() =~= evict_spec(full, self.capacity as int));
            } else {
                assert(dropped == 0);
                assert(full.skip(0) =~= full);
            }
        }
        self.history = kept;
    }

    /// Accepts the buffer's text: it is recorded in the history, the
    /// buffer is cleared, and navigation returns to the fresh line.
    pub fn accept(&mut self)
        requires
            old(self).wf(),
        ensures
            final(self).wf(),
            final(self).hist() == accept_spec(
                old(self).hist(),
                old(self).editor().content(),
                old(self).capacity_view(),
            ),
            final(self).hindex_view() == final(self).hist().len(),
            final(self).editor().head_view() == Seq::<char>::empty(),
            final(self).editor().tail_view() == Seq::<char>::empty(),
            old(self).same_config(*final(self)),
            final(self).mode_view() == old(self).mode_view(),
            final(self).input_view() == old(self).input_view(),
    {
        let text = self.ed.to_text();
        self.history_append(text);
        self.ed.clear();
        self.hindex = self.history.len();
    }

    /// Rejects the buffer's text: the buffer is cleared without touching
    /// the history, and navigation returns to the fresh line.
    pub fn deny(&mut self)
        requires
            old(self).wf(),
        ensures
            final(self).wf(),
            final(self).hist() == old(self).hist(),
            final(self).hindex_view() == final(self).hist().len(),
            final(self).editor().head_view() == Seq::<char>::empty(),
            final(self).editor().tail_view() == Seq::<char>::empty(),
            old(self).same_config(*final(self)),
            final(self).mode_view() == old(self).mode_view(),
            final(self).input_view() == old(self).input_view(),
    {
        self.ed.clear();
        self.hindex = self.history.len();
    }
}

/// The four blanks inserted for one tab, and erased again by one
/// dedenting backspace.
pub open spec fn indent_chars() -> Seq<char> {
    seq![' ', ' ', ' ', ' ']
}

/// The commands one dedenting backspace emits: four backwards erasures,
/// one per blank of the indent group.
pub open spec fn dedent_cmds(h: Seq<char>, t: Seq<char>, b: Seq<char>, a: Seq<char>) -> Seq<
    Command,
> {
    let h1 = h.drop_last();
    let h2 = h1.drop_last();
    let h3 = h2.drop_last();
    pop_cmds(h, t, b, a) + pop_cmds(h1, t, b, a) + pop_cmds(h2, t, b, a) + pop_cmds(h3, t, b, a)
}

/// The history after a writeback of the live buffer: the slot at the
/// navigation index is overwritten when it exists, else the buffer is
/// appended as a new entry.
pub open spec fn writeback_spec(h: Seq<Seq<char>>, i: int, buf: Seq<char>) -> Seq<Seq<char>> {
    if i < h.len() {
        h.update(i, buf)
    } else {
        h.push(buf)
    }
}

impl Repline {
    /// Writes the live buffer back into its history slot, steps the
    /// navigation index back, and recalls the entry there with the
    /// cursor at the buffer's start.
    fn recall_back(&mut self, out: &mut Vec<Command>)
        requires
            old(self).wf(),
            old(self).editor().head_view().len() == 0,
            0 < old(self).hindex_view(),
        ensures
            final(self).wf(),
            final(self).hist() == writeback_spec(
                old(self).hist(),
                old(self).hindex_view(),
                old(self).editor().content(),
            ),
            final(self).hindex_view() == old(self).hindex_view() - 1,
            final(self).editor().head_view() == Seq::<char>::empty(),
            final(self).editor().tail_view() == final(self).hist()[old(self).hindex_view() - 1],
            old(self).same_config(*final(self)),
            final(self).capacity_view() == old(self).capacity_view(),
            final(self).mode_view() == old(self).mode_view(),
            final(self).input_view() == old(self).input_view(),
            final(self).input_ok() == old(self).input_ok(),
            final(out)@ == old(out)@ + undraw_cmds(old(self).editor().head_view()) + redraw_cmds(
                Seq::<char>::empty(),
                final(self).editor().tail_view(),
                old(self).editor().begin_view(),
                old(self).editor().again_view(),
            ),
    {
        let ghost h0 = self.history.deep_view();
        let cur = self.ed.to_text();
        if self.hindex < self.history.len() {
            let _ = self.history.remove(self.hindex);
            self.history.insert(self.hindex, cur);
            proof {
                assert(self.history@ =~= old(self).history@.update(self.hindex as int, cur));
                assert(self.history.deep_view() =~= h0.update(
                    self.hindex as int,
                    old(self).editor().content(),
                ));
            }
        } else {
            self.history.push(cur);
            proof {
                assert(self.history.deep_view() =~= h0.push(old(self).editor().content()));
            }
        }
        self.hindex = self.hindex - 1;
        self.ed.undraw(out);
        let entry = self.history[self.hindex].clone();
        self.ed.restore_to_start(entry.as_str());
        self.ed.redraw(out);
    }

    /// Writes the live buffer back into its history slot, steps the
    /// navigation index forward, and recalls the entry there with the
    /// cursor at the buffer's end.
    ///
    /// Forward recall stops at the newest slot: the index must have a
    /// slot to move to, so its bound is one below the history's length.
    /// The line that was fresh when recall began lives in that newest
    /// slot (the first backward recall appended it), so navigating all
    /// the way forward restores it; there is no slot beyond it to show.
    /// (Reading "less than the last valid index" as a bound of the
    /// history's length instead would ask to restore a slot past the
    /// newest entry, which does not exist.)
    fn recall_fwd(&mut self, out: &mut Vec<Command>)
        requires
            old(self).wf(),
            old(self).editor().tail_view().len() == 0,
            old(self).hindex_view() + 1 < old(self).hist().len(),
        ensures
            final(self).wf(),
            final(self).hist() == writeback_spec(
                old(self).hist(),
                old(self).hindex_view(),
                old(self).editor().content(),
            ),
            final(self).hindex_view() == old(self).hindex_view() + 1,
            final(self).editor().tail_view() == Seq::<char>::empty(),
            final(self).editor().head_view() == final(self).hist()[old(self).hindex_view() + 1],
            old(self).same_config(*final(self)),
            final(self).capacity_view() == old(self).capacity_view(),
            final(self).mode_view() == old(self).mode_view(),
            final(self).input_view() == old(self).input_view(),
            final(self).input_ok() == old(self).input_ok(),
            final(out)@ == old(out)@ + undraw_cmds(old(self).editor().head_view()) + redraw_cmds(
                final(self).editor().head_view(),
                Seq::<char>::empty(),
                old(self).editor().begin_view(),
                old(self).editor().again_view(),
            ),
    {
        let ghost h0 = self.history.deep_view();
        let cur = self.ed.to_text();
        let _ = self.history.remove(self.hindex);
        self.history.insert(self.hindex, cur);
        proof {
            assert(self.history@ =~= old(self).history@.update(self.hindex as int, cur));
            assert(self.history.deep_view() =~= h0.update(
                self.hindex as int,
                old(self).editor().content(),
            ));
        }
        let n = self.history.len();
        proof {
            assert(self.hindex < n);
        }
        self.hindex = self.hindex + 1;
        self.ed.undraw(out);
        let entry = self.history[self.hindex].clone();
        self.ed.restore(entry.as_str());
        self.ed.redraw(out);
    }

    /// Dispatches one decoded character.
    ///
    /// This is the whole key map.  In [`Mode::Normal`]: `0x03` and `0x04`
    /// end the read with the interrupted or end-of-transmission error,
    /// both carrying the in-progress text; tab inserts four blanks; a
    /// bare line feed is swallowed; a carriage return inserts a newline
    /// and submits only when the cursor then sits at the buffer's end;
    /// `0x17` erases the trailing word; escape opens an escape sequence;
    /// backspace erases a whole four-blank indent in one step when one
    /// stands before the cursor, else one character; any other control
    /// character is ignored; anything else is inserted.  The escape modes
    /// recognize the cursor, word, line, page and delete keys, falling
    /// back to [`Mode::Normal`] on anything unrecognized; the up and down
    /// arrows recall history only at the buffer's start or end with a
    /// slot to move to, and otherwise move the cursor line-wise.
    ///
    /// The same table stands twice below: once as one equation against
    /// [`step_spec`], once spelled out clause by clause, and a third
    /// block fixes the exact drawing commands each key emits.
    #[verifier::rlimit(100)]
    pub fn step(&mut self, c: char, out: &mut Vec<Command>) -> (r: ReplResult<Step>)
        requires
            old(self).wf(),
        ensures
            final(self).wf(),
            old(self).same_config(*final(self)),
            final(self).input_view() == old(self).input_view(),
            old(out)@.is_prefix_of(final(out)@),
            ({
                let (st, e) = step_spec(old(self).session_state(), c);
                &&& final(self).session_state() == st
                &&& match e {
                    StepEnd::Pending => r matches Ok(p) && p is Pending,
                    StepEnd::Submitted(s) => r matches Ok(p) && p matches Step::Submit(x) && x@
                        == s,
                    StepEnd::Interrupted(s) => r matches Err(er) && er matches Error::CtrlC(x)
                        && x@ == s,
                    StepEnd::TransmissionEnded(s) => r matches Err(er) && er matches Error::CtrlD(
                        x,
                    ) && x@ == s,
                    StepEnd::Closed => r == Err::<Step, Error>(Error::EndOfInput),
                }
            }),
            ({
                let h = old(self).editor().head_view();
                let t = old(self).editor().tail_view();
                let hs = old(self).hist();
                let i = old(self).hindex_view();
                let ed = final(self).editor();
                let m = final(self).mode_view();
                match old(self).mode_view() {
                    Mode::Normal => {
                        &&& c == '\x03' ==> (r matches Err(e) && e matches Error::CtrlC(s)
                            && s@ == h + t) && ed.head_view() == h && ed.tail_view() == t
                        &&& c == '\x04' ==> (r matches Err(e) && e matches Error::CtrlD(s)
                            && s@ == h + t) && ed.head_view() == h && ed.tail_view() == t
                        &&& c == '\t' ==> ed.head_view() == h + indent_chars() && ed.tail_view()
                            == t && (r matches Ok(st) && st is Pending)
                        &&& c == '\n' ==> ed.head_view() == h && ed.tail_view() == t && (
                        r matches Ok(st) && st is Pending)
                        &&& c == '\r' ==> ed.head_view() == h.push('\n') && ed.tail_view() == t
                            && (t.len() == 0 ==> (r matches Ok(st) && st matches Step::Submit(s)
                            && s@ == h.push('\n'))) && (t.len() > 0 ==> (r matches Ok(st)
                            && st is Pending))
                        &&& c == '\x17' ==> ed.head_view() == erase_word_head(h) && ed.tail_view()
                            == t && (r matches Ok(st) && st is Pending)
                        &&& c == '\x1b' ==> ed.head_view() == h && ed.tail_view() == t && m
                            == Mode::Esc && (r matches Ok(st) && st is Pending)
                        &&& (c == '\x08' || c == '\x7f') ==> ed.tail_view() == t && (r matches Ok(
                            st,
                        ) && st is Pending) && ed.head_view() == (
                        if h.len() >= 4 && h.skip(h.len() - 4) == indent_chars() {
                            h.take(h.len() - 4)
                        } else if h.len() > 0 {
                            h.drop_last()
                        } else {
                            h
                        })
                        &&& (c != '\x03' && c != '\x04' && c != '\t' && c != '\n' && c != '\r'
                            && c != '\x17' && c != '\x1b' && c != '\x08' && c != '\x7f' && (
                        c as u32 <= 0x1f || c as u32 == 0x7f)) ==> ed.head_view() == h
                            && ed.tail_view() == t && (r matches Ok(st) && st is Pending)
                        &&& (c as u32 > 0x1f && c as u32 != 0x7f) ==> ed.head_view() == h.push(c)
                            && ed.tail_view() == t && (r matches Ok(st) && st is Pending)
                        &&& final(self).hist() == hs && final(self).hindex_view() == i
                        &&& c != '\x1b' ==> m == Mode::Normal
                    },
                    Mode::Esc => {
                        &&& ed.head_view() == h && ed.tail_view() == t && final(self).hist() == hs
                            && final(self).hindex_view() == i
                        &&& c == '[' ==> m == Mode::Csi && (r matches Ok(st) && st is Pending)
                        &&& c == '\r' ==> (r matches Err(e) && e is EndOfInput) && m == Mode::Esc
                        &&& (c != '[' && c != '\r') ==> m == Mode::Normal && (r matches Ok(st)
                            && st is Pending)
                    },
                    Mode::Csi => {
                        &&& (r matches Ok(st) && st is Pending)
                        &&& c == 'A' ==> (if h.len() == 0 && i > 0 {
                            &&& final(self).hist() == writeback_spec(hs, i, h + t)
                            &&& final(self).hindex_view() == i - 1
                            &&& ed.head_view() == Seq::<char>::empty()
                            &&& ed.tail_view() == final(self).hist()[i - 1]
                        } else {
                            &&& ed.head_view() == up_state(h, t).0
                            &&& ed.tail_view() == up_state(h, t).1
                            &&& final(self).hist() == hs
                            &&& final(self).hindex_view() == i
                        }) && m == Mode::Normal
                        &&& c == 'B' ==> (if t.len() == 0 && i + 1 < hs.len() {
                            &&& final(self).hist() == writeback_spec(hs, i, h + t)
                            &&& final(self).hindex_view() == i + 1
                            &&& ed.tail_view() == Seq::<char>::empty()
                            &&& ed.head_view() == final(self).hist()[i + 1]
                        } else {
                            &&& ed.head_view() == down_state(h, t).0
                            &&& ed.tail_view() == down_state(h, t).1
                            &&& final(self).hist() == hs
                            &&& final(self).hindex_view() == i
                        }) && m == Mode::Normal
                        &&& (c != 'A' && c != 'B') ==> final(self).hist() == hs
                            && final(self).hindex_view() == i
                        &&& c == 'C' ==> ed.head_view() == fwd_state(h, t, 1).0 && ed.tail_view()
                            == fwd_state(h, t, 1).1 && m == Mode::Normal
                        &&& c == 'D' ==> ed.head_view() == back_state(h, t, 1).0 && ed.tail_view()
                            == back_state(h, t, 1).1 && m == Mode::Normal
                        &&& c == 'H' ==> ed.head_view() == h.take(line_start(h)) && ed.tail_view()
                            == h.skip(line_start(h)) + t && m == Mode::Normal
                        &&& c == 'F' ==> ed.head_view() == h + t.take(first_newline(t))
                            && ed.tail_view() == t.skip(first_newline(t)) && m == Mode::Normal
                        &&& c == '3' ==> ed.head_view() == h && ed.tail_view() == t && m
                            == Mode::CsiDelete
                        &&& c == '5' ==> ed.head_view() == h && ed.tail_view() == t && m
                            == Mode::CsiStart
                        &&& c == '6' ==> ed.head_view() == h && ed.tail_view() == t && m
                            == Mode::CsiEnd
                        &&& c == '1' ==> ed.head_view() == h && ed.tail_view() == t && m
                            == Mode::CsiMod
                        &&& (c != 'A' && c != 'B' && c != 'C' && c != 'D' && c != 'H' && c != 'F'
                            && c != '3' && c != '5' && c != '6' && c != '1') ==> ed.head_view()
                            == h && ed.tail_view() == t && m == Mode::Normal
                    },
                    Mode::CsiDelete => {
                        &&& (r matches Ok(st) && st is Pending) && m == Mode::Normal && final(self).hist() == hs && final(self).hindex_view() == i && ed.head_view() == h
                        &&& c == '~' ==> ed.tail_view() == (if t.len() > 0 {
                            t.drop_first()
                        } else {
                            t
                        })
                        &&& c != '~' ==> ed.tail_view() == t
                    },
                    Mode::CsiStart => {
                        &&& (r matches Ok(st) && st is Pending) && m == Mode::Normal && final(self).hist() == hs
                            && final(self).hindex_view() == i
                        &&& c == '~' ==> ed.head_view() == Seq::<char>::empty() && ed.tail_view()
                            == h + t
                        &&& c != '~' ==> ed.head_view() == h && ed.tail_view() == t
                    },
                    Mode::CsiEnd => {
                        &&& (r matches Ok(st) && st is Pending) && m == Mode::Normal && final(self).hist() == hs
                            && final(self).hindex_view() == i
                        &&& c == '~' ==> ed.head_view() == h + t && ed.tail_view()
                            == Seq::<char>::empty()
                        &&& c != '~' ==> ed.head_view() == h && ed.tail_view() == t
                    },
                    Mode::CsiMod => {
                        &&& (r matches Ok(st) && st is Pending) && final(self).hist() == hs
                            && final(self).hindex_view() == i && ed.head_view() == h
                            && ed.tail_view() == t
                        &&& c == ';' ==> m == Mode::CsiModSemi
                        &&& c != ';' ==> m == Mode::Normal
                    },
                    Mode::CsiModSemi => {
                        &&& (r matches Ok(st) && st is Pending) && final(self).hist() == hs
                            && final(self).hindex_view() == i && ed.head_view() == h
                            && ed.tail_view() == t
                        &&& c == '5' ==> m == Mode::CsiModFive
                        &&& c != '5' ==> m == Mode::Normal
                    },
                    Mode::CsiModFive => {
                        &&& (r matches Ok(st) && st is Pending) && m == Mode::Normal && final(self).hist() == hs
                            && final(self).hindex_view() == i
                        &&& c == 'C' ==> (if t.len() > 0 {
                            let cls = is_word_char(t[0]);
                            let k = word_run_end(t, cls);
                            ed.head_view() == h + t.take(k) && ed.tail_view() == t.skip(k)
                        } else {
                            ed.head_view() == h && ed.tail_view() == t
                        })
                        &&& c == 'D' ==> (if h.len() > 0 {
                            let cls = is_word_char(h.last());
                            let k = word_run_start(h, cls);
                            ed.head_view() == h.take(k) && ed.tail_view() == h.skip(k) + t
                        } else {
                            ed.head_view() == h && ed.tail_view() == t
                        })
                        &&& (c != 'C' && c != 'D') ==> ed.head_view() == h && ed.tail_view() == t
                    },
                }
            }),
            ({
                let h = old(self).editor().head_view();
                let t = old(self).editor().tail_view();
                let b = old(self).editor().begin_view();
                let a = old(self).editor().again_view();
                let i = old(self).hindex_view();
                let hs = old(self).hist();
                let o0 = old(out)@;
                let o1 = final(out)@;
                let ed = final(self).editor();
                match old(self).mode_view() {
                    Mode::Normal => {
                        &&& (c == '\x03' || c == '\x04') ==> o1 == o0 + seq![Command::Newline]
                        &&& c == '\t' ==> o1 == o0 + extend_cmds(h, t, b, a, indent_chars())
                        &&& c == '\r' ==> o1 == o0 + push_cmds(h, t, b, a, '\n')
                        &&& c == '\x17' ==> o1 == o0 + erase_word_cmds(h, t, b, a)
                        &&& (c == '\x08' || c == '\x7f') ==> o1 == o0 + (
                        if h.len() >= 4 && h.skip(h.len() - 4) == indent_chars() {
                            dedent_cmds(h, t, b, a)
                        } else {
                            pop_cmds(h, t, b, a)
                        })
                        &&& (c == '\n' || c == '\x1b' || (c != '\x03' && c != '\x04' && c != '\t'
                            && c != '\r' && c != '\x17' && c != '\x08' && c != '\x7f' && (
                        c as u32 <= 0x1f || c as u32 == 0x7f))) ==> o1 == o0
                        &&& (c as u32 > 0x1f && c as u32 != 0x7f) ==> o1 == o0 + push_cmds(
                            h,
                            t,
                            b,
                            a,
                            c,
                        )
                    },
                    Mode::Esc => o1 == o0,
                    Mode::Csi => {
                        &&& c == 'A' ==> (if h.len() == 0 && i > 0 {
                            o1 == o0 + undraw_cmds(h) + redraw_cmds(
                                Seq::<char>::empty(),
                                ed.tail_view(),
                                b,
                                a,
                            )
                        } else {
                            o1 == o0 + up_cmds(h, t, b, a)
                        })
                        &&& c == 'B' ==> (if t.len() == 0 && i + 1 < hs.len() {
                            o1 == o0 + undraw_cmds(h) + redraw_cmds(
                                ed.head_view(),
                                Seq::<char>::empty(),
                                b,
                                a,
                            )
                        } else {
                            o1 == o0 + down_cmds(h, t, b, a)
                        })
                        &&& c == 'C' ==> o1 == o0 + fwd_cmds(h, t, b, a, 1)
                        &&& c == 'D' ==> o1 == o0 + back_cmds(h, t, b, a, 1)
                        &&& c == 'H' ==> o1 == o0 + home_cmds(h, t, b, a)
                        &&& c == 'F' ==> o1 == o0 + end_cmds(h, t, b, a)
                        &&& (c != 'A' && c != 'B' && c != 'C' && c != 'D' && c != 'H' && c != 'F')
                            ==> o1 == o0
                    },
                    Mode::CsiDelete => {
                        &&& c == '~' ==> o1 == o0 + delete_cmds(h, t, b, a)
                        &&& c != '~' ==> o1 == o0
                    },
                    Mode::CsiStart => {
                        &&& c == '~' ==> o1 == o0 + buffer_start_cmds(h, t, b, a)
                        &&& c != '~' ==> o1 == o0
                    },
                    Mode::CsiEnd => {
                        &&& c == '~' ==> o1 == o0 + buffer_end_cmds(h, t, b, a)
                        &&& c != '~' ==> o1 == o0
                    },
                    Mode::CsiMod => o1 == o0,
                    Mode::CsiModSemi => o1 == o0,
                    Mode::CsiModFive => {
                        &&& c == 'C' ==> (if t.len() > 0 {
                            o1 == o0 + word_fwd_cmds(h, t, b, a, is_word_char(t[0]))
                        } else {
                            o1 == o0
                        })
                        &&& c == 'D' ==> (if h.len() > 0 {
                            o1 == o0 + word_back_cmds(h, t, b, a, is_word_char(h.last()))
                        } else {
                            o1 == o0
                        })
                        &&& (c != 'C' && c != 'D') ==> o1 == o0
                    },
                }
            }),
    {
        let ghost base = out@;
        match self.mode {
            Mode::Normal => {
                if c == '\x03' {
                    out.push(Command::Newline);
                    proof {
                        assert(out@ =~= base + seq![Command::Newline]);
                    }
                    return Err(Error::CtrlC(self.ed.to_text()));
                }
                if c == '\x04' {
                    out.push(Command::Newline);
                    proof {
                        assert(out@ =~= base + seq![Command::Newline]);
                    }
                    return Err(Error::CtrlD(self.ed.to_text()));
                }
                if c == '\t' {
                    self.ed.extend("    ", out);
                    proof {
                        reveal_strlit("    ");
                        assert("    "@ =~= indent_chars());
                    }
                    return Ok(Step::Pending);
                }
                if c == '\n' {
                    return Ok(Step::Pending);
                }
                if c == '\r' {
                    self.ed.push('\n', out);
                    if self.ed.tail_len() == 0 {
                        return Ok(Step::Submit(self.ed.to_text()));
                    }
                    return Ok(Step::Pending);
                }
                if c == '\x17' {
                    self.ed.erase_word(out);
                    return Ok(Step::Pending);
                }
                if c == '\x1b' {
                    self.mode = Mode::Esc;
                    return Ok(Step::Pending);
                }
                if c == '\x08' || c == '\x7f' {
                    proof {
                        reveal_strlit("    ");
                        assert("    "@ =~= indent_chars());
                    }
                    if self.ed.ends_with("    ") {
                        let ghost h = self.ed.head_view();
                        let ghost t = self.ed.tail_view();
                        let _ = self.ed.pop(out);
                        let _ = self.ed.pop(out);
                        let _ = self.ed.pop(out);
                        let _ = self.ed.pop(out);
                        proof {
                            assert(self.ed.head_view() =~= h.take(h.len() - 4));
                            assert(out@ =~= base + dedent_cmds(
                                h,
                                t,
                                self.ed.begin_view(),
                                self.ed.again_view(),
                            ));
                        }
                    } else {
                        let _ = self.ed.pop(out);
                    }
                    return Ok(Step::Pending);
                }
                if ascii_control(c) {
                    return Ok(Step::Pending);
                }
                self.ed.push(c, out);
                Ok(Step::Pending)
            },
            Mode::Esc => {
                if c == '[' {
                    self.mode = Mode::Csi;
                    return Ok(Step::Pending);
                }
                if c == '\r' {
                    return Err(Error::EndOfInput);
                }
                self.mode = Mode::Normal;
                Ok(Step::Pending)
            },
            Mode::Csi => {
                self.mode = Mode::Normal;
                if c == 'A' {
                    if self.ed.head_len() == 0 && self.hindex > 0 {
                        self.recall_back(out);
                    } else {
                        self.ed.cursor_up(out);
                    }
                    return Ok(Step::Pending);
                }
                if c == 'B' {
                    if self.ed.tail_len() == 0 && self.history.len() > 0 && self.hindex
                        < self.history.len() - 1 {
                        self.recall_fwd(out);
                    } else {
                        self.ed.cursor_down(out);
                    }
                    return Ok(Step::Pending);
                }
                if c == 'C' {
                    self.ed.cursor_forward(1, out);
                    return Ok(Step::Pending);
                }
                if c == 'D' {
                    self.ed.cursor_back(1, out);
                    return Ok(Step::Pending);
                }
                if c == 'H' {
                    self.ed.home(out);
                    return Ok(Step::Pending);
                }
                if c == 'F' {
                    self.ed.end(out);
                    return Ok(Step::Pending);
                }
                if c == '3' {
                    self.mode = Mode::CsiDelete;
                    return Ok(Step::Pending);
                }
                if c == '5' {
                    self.mode = Mode::CsiStart;
                    return Ok(Step::Pending);
                }
                if c == '6' {
                    self.mode = Mode::CsiEnd;
                    return Ok(Step::Pending);
                }
                if c == '1' {
                    self.mode = Mode::CsiMod;
                    return Ok(Step::Pending);
                }
                Ok(Step::Pending)
            },
            Mode::CsiDelete => {
                self.mode = Mode::Normal;
                if c == '~' {
                    let _ = self.ed.delete(out);
                }
                Ok(Step::Pending)
            },
            Mode::CsiStart => {
                self.mode = Mode::Normal;
                if c == '~' {
                    self.ed.buffer_start(out);
                }
                Ok(Step::Pending)
            },
            Mode::CsiEnd => {
                self.mode = Mode::Normal;
                if c == '~' {
                    self.ed.buffer_end(out);
                }
                Ok(Step::Pending)
            },
            Mode::CsiMod => {
                if c == ';' {
                    self.mode = Mode::CsiModSemi;
                } else {
                    self.mode = Mode::Normal;
                }
                Ok(Step::Pending)
            },
            Mode::CsiModSemi => {
                if c == '5' {
                    self.mode = Mode::CsiModFive;
                } else {
                    self.mode = Mode::Normal;
                }
                Ok(Step::Pending)
            },
            Mode::CsiModFive => {
                self.mode = Mode::Normal;
                if c == 'C' {
                    self.ed.word_forward(out);
                } else if c == 'D' {
                    self.ed.word_back(out);
                }
                Ok(Step::Pending)
            },
        }
    }
}

/// True on an ASCII control character: anything below the blank, and the
/// delete character.
fn ascii_control(c: char) -> (r: bool)
    ensures
        r == (c as u32 <= 0x1f || c as u32 == 0x7f),
{
    (c as u32) <= 0x1f || (c as u32) == 0x7f
}

impl Repline {
    /// Reads one line: characters are decoded and dispatched until a
    /// carriage return submits at the buffer's end.  The submitted text
    /// is the buffer's content and ends with its newline; the buffer is
    /// not cleared, so the caller decides with [`Repline::accept`] or
    /// [`Repline::deny`] what becomes of it.  An interrupt or an
    /// end-of-transmission byte ends the read with the in-progress text;
    /// a malformed byte sequence ends it with the partially accumulated
    /// codepoint; running out of bytes ends it with the end-of-input
    /// error.  The whole exchange equals [`run_spec`], the key-dispatch
    /// machine folded over the unread bytes: the result, the final
    /// session state and the leftover bytes are all pinned by that fold.
    pub fn read(&mut self, out: &mut Vec<Command>) -> (r: ReplResult<String>)
        requires
            old(self).wf(),
        ensures
            final(self).wf(),
            old(self).same_config(*final(self)),
            ({
                let fold = run_spec(old(self).session_state(), old(self).input_view());
                &&& final(self).session_state() == fold.0
                &&& final(self).input_view() == fold.1
                &&& match fold.2 {
                    ReadEnd::Submitted(s) => r matches Ok(x) && x@ == s,
                    ReadEnd::Interrupted(s) => r matches Err(e) && e matches Error::CtrlC(x) && x@
                        == s,
                    ReadEnd::TransmissionEnded(s) => r matches Err(e) && e matches Error::CtrlD(x)
                        && x@ == s,
                    ReadEnd::Malformed(v) => r == Err::<String, Error>(Error::BadUnicode(v)),
                    ReadEnd::Exhausted => r == Err::<String, Error>(Error::EndOfInput),
                    ReadEnd::Closed => r == Err::<String, Error>(Error::EndOfInput),
                }
            }),
            old(self).input_view().len() == 0 ==> r == Err::<String, Error>(Error::EndOfInput),
            r matches Ok(s) ==> s@ == final(self).editor().content()
                && final(self).editor().tail_view().len() == 0 && s@.len() > 0 && s@.last()
                == '\n',
            r matches Err(e) ==> (e matches Error::CtrlC(s)
                ==> s@ == final(self).editor().content()),
            r matches Err(e) ==> (e matches Error::CtrlD(s)
                ==> s@ == final(self).editor().content()),
            final(self).input_view().len() <= old(self).input_view().len(),
            old(out)@.is_prefix_of(final(out)@),
            r matches Ok(s) ==> final(self).input_view().len() < old(self).input_view().len(),
            r matches Err(e) ==> ((e is CtrlC || e is CtrlD) ==> final(self).input_view().len()
                < old(self).input_view().len()),
    {
        self.ed.print_head(out);
        loop
            invariant
                self.wf(),
                old(self).same_config(*self),
                self.input_view().len() <= old(self).input_view().len(),
                old(out)@.is_prefix_of(out@),
                run_spec(self.session_state(), self.input_view()) == run_spec(
                    old(self).session_state(),
                    old(self).input_view(),
                ),
            decreases self.input_view().len(),
        {
            let ghost pre_st = self.session_state();
            let ghost rem = self.input_view();
            proof {
                if self.input.remaining().len() > 0 {
                    crate::iter::lemma_decode_consumes(self.input.remaining());
                }
            }
            let next = self.input.next();
            match next {
                None => {
                    return Err(Error::EndOfInput);
                },
                Some(Err(bad)) => {
                    return Err(Error::from(bad));
                },
                Some(Ok(c)) => {
                    match self.step(c, out) {
                        Err(e) => {
                            proof {
                                assert(run_spec(pre_st, rem) == (
                                    self.session_state(),
                                    self.input_view(),
                                    match step_spec(pre_st, c).1 {
                                        StepEnd::Interrupted(s) => ReadEnd::Interrupted(s),
                                        StepEnd::TransmissionEnded(
                                            s,
                                        ) => ReadEnd::TransmissionEnded(s),
                                        _ => ReadEnd::Closed,
                                    },
                                ));
                            }
                            return Err(e);
                        },
                        Ok(Step::Submit(s)) => {
                            proof {
                                assert(run_spec(pre_st, rem) == (
                                    self.session_state(),
                                    self.input_view(),
                                    ReadEnd::Submitted(s@),
                                ));
                            }
                            return Ok(s);
                        },
                        Ok(Step::Pending) => {
                            proof {
                                assert(run_spec(pre_st, rem) == run_spec(
                                    self.session_state(),
                                    self.input_view(),
                                ));
                            }
                        },
                    }
                },
            }
        }
    }
}

/// Law: a recalled line keeps its edits.  From a fresh line, one
/// recall-back saves the fresh text and shows the newest entry; editing
/// that entry and recalling back again writes the edited version into
/// its slot; one recall-forward then shows the edited version again.
pub proof fn lemma_recall_preserves_edits(hist: Seq<Seq<char>>, fresh: Seq<char>, edited: Seq<char>)
    requires
        hist.len() >= 2,
    ensures
        ({
            let n = hist.len() as int;
            // recall-back from the fresh line: the fresh text is appended
            let h1 = writeback_spec(hist, n, fresh);
            // the buffer now shows h1[n - 1]; the user edits it to `edited`
            // and recalls back once more
            let h2 = writeback_spec(h1, n - 1, edited);
            // recall-forward returns to the edited slot
            let h3 = writeback_spec(h2, n - 2, h2[n - 2]);
            h3[n - 1] == edited
        }),
{
    let n = hist.len() as int;
    let h1 = writeback_spec(hist, n, fresh);
    let h2 = writeback_spec(h1, n - 1, edited);
    let h3 = writeback_spec(h2, n - 2, h2[n - 2]);
    assert(h3 =~= h2);
}

/// A whole run of submissions folded into the history, oldest first.
pub open spec fn accept_all(h: Seq<Seq<char>>, texts: Seq<Seq<char>>, cap: int) -> Seq<Seq<char>>
    decreases texts.len(),
{
    if texts.len() == 0 {
        h
    } else {
        accept_all(accept_spec(h, texts[0], cap), texts.drop_first(), cap)
    }
}

/// Removing an entry that is not there changes nothing.
proof fn lemma_remove_equal_absent(h: Seq<Seq<char>>, e: Seq<char>)
    requires
        forall|k: int| 0 <= k < h.len() ==> h[k] != e,
    ensures
        remove_equal(h, e) == h,
    decreases h.len(),
{
    if h.len() == 0 {
    } else {
        lemma_remove_equal_absent(h.drop_last(), e);
        assert(remove_equal(h, e) =~= h);
    }
}

/// Folding distinct, already-trimmed submissions into a history that has
/// room for all but perhaps the last one keeps every line, in order, and
/// evicts only past the capacity.
proof fn lemma_accept_all_distinct(h: Seq<Seq<char>>, texts: Seq<Seq<char>>, cap: int)
    requires
        cap >= 1,
        h.len() <= cap,
        h.len() + texts.len() <= cap + 1,
        forall|i: int, j: int| 0 <= i < j < h.len() ==> h[i] != h[j],
        forall|i: int, j: int| 0 <= i < j < texts.len() ==> texts[i] != texts[j],
        forall|i: int, j: int| 0 <= i < h.len() && 0 <= j < texts.len() ==> h[i] != texts[j],
        forall|i: int| 0 <= i < texts.len() ==> trim_end_spec(#[trigger] texts[i]) == texts[i],
    ensures
        accept_all(h, texts, cap) == evict_spec(h + texts, cap),
    decreases texts.len(),
{
    if texts.len() == 0 {
        assert(h + texts =~= h);
    } else {
        let t0 = texts[0];
        lemma_remove_equal_absent(h, t0);
        let h1 = accept_spec(h, t0, cap);
        if h.len() < cap {
            assert(h1 =~= h.push(t0));
            let rest = texts.drop_first();
            assert(forall|j: int| 0 <= j < rest.len() ==> #[trigger] rest[j] == texts[j + 1]);
            assert(forall|i: int, j: int| 0 <= i < j < h1.len() ==> h1[i] != h1[j]);
            assert(forall|i: int, j: int| 0 <= i < j < rest.len() ==> rest[i] != rest[j]);
            assert(forall|i: int, j: int|
                0 <= i < h1.len() && 0 <= j < rest.len() ==> h1[i] != rest[j]);
            assert(forall|i: int| 0 <= i < rest.len() ==> trim_end_spec(#[trigger] rest[i])
                == rest[i]);
            lemma_accept_all_distinct(h1, rest, cap);
            assert(h1 + rest =~= h + texts);
            assert(accept_all(h, texts, cap) == accept_all(h1, rest, cap));
            assert(evict_spec(h1 + rest, cap) == evict_spec(h + texts, cap));
        } else {
            assert(h.len() == cap);
            assert(texts.len() == 1);
            assert(h1 =~= (h.push(t0)).skip(1));
            assert(texts.drop_first().len() == 0);
            assert(h + texts =~= h.push(t0));
            assert(evict_spec(h + texts, cap) =~= h1);
            assert(accept_all(h, texts, cap) == accept_all(h1, texts.drop_first(), cap));
            assert(accept_all(h1, texts.drop_first(), cap) == h1);
        }
    }
}

/// Law: submitting one more distinct line than the capacity allows, into
/// an empty history, keeps exactly the newest `cap` lines, the oldest
/// one evicted.
pub proof fn lemma_history_capacity(texts: Seq<Seq<char>>, cap: int)
    requires
        cap >= 1,
        texts.len() == cap + 1,
        forall|i: int, j: int| 0 <= i < j < texts.len() ==> texts[i] != texts[j],
        forall|i: int| 0 <= i < texts.len() ==> trim_end_spec(#[trigger] texts[i]) == texts[i],
    ensures
        accept_all(Seq::<Seq<char>>::empty(), texts, cap) == texts.drop_first(),
{
    lemma_accept_all_distinct(Seq::<Seq<char>>::empty(), texts, cap);
    assert(Seq::<Seq<char>>::empty() + texts =~= texts);
    assert(texts.skip(1) =~= texts.drop_first());
}

} // verus!
