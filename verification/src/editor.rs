//! The dual-buffer text editor.
//!
//! The buffer is split at the logical cursor into two character runs,
//! `head` (everything strictly before the cursor) and `tail` (everything
//! at or after it); their concatenation is the full multi-line text, and
//! the cursor offset equals the length of `head`.  A newline is stored as
//! an ordinary `'\n'` character inside these runs.
//!
//! Every mutating operation keeps the visible terminal in sync by pushing
//! primitive terminal [`Command`]s onto an output list; a surrounding shell
//! turns those into actual escape sequences.

use crate::error::Error;
use vstd::prelude::*;

verus! {

/// Relies on `String::push`: it appends the given character at the end of
/// the string.
pub assume_specification[ String::push ](s: &mut String, ch: char)
    ensures
        final(s)@ == old(s)@.push(ch),
;

/// Names the result of `char::is_whitespace`, which depends on the
/// character alone.
pub uninterp spec fn is_white_space(c: char) -> bool;

/// Relies on `char::is_whitespace`: true exactly on characters with the
/// Unicode `White_Space` property, which includes the ASCII blank, tab,
/// line feed and carriage return and excludes letters and digits.
pub assume_specification[ char::is_whitespace ](c: char) -> (r: bool)
    ensures
        r == is_white_space(c),
        (c == ' ' || c == '\t' || c == '\n' || c == '\r') ==> r,
        (('a' <= c && c <= 'z') || ('A' <= c && c <= 'Z') || ('0' <= c && c <= '9')) ==> !r,
;

/// Names the result of `char::is_alphanumeric`, which depends on the
/// character alone.
pub uninterp spec fn is_alphanumeric_char(c: char) -> bool;

/// Relies on `char::is_alphanumeric`: true exactly on characters in the
/// Unicode letter and number categories, which include the ASCII letters
/// and digits and exclude blanks, control characters and punctuation such
/// as the comma and the full stop.
pub assume_specification[ char::is_alphanumeric ](c: char) -> (r: bool)
    ensures
        r == is_alphanumeric_char(c),
        (('a' <= c && c <= 'z') || ('A' <= c && c <= 'Z') || ('0' <= c && c <= '9')) ==> r,
        (c == ' ' || c == '\t' || c == '\n' || c == '\r' || c == ',' || c == '.' || c == ';' || c
            == '!') ==> !r,
;

/// The word-boundary class used for word-wise motion: a position is a word
/// boundary when the adjacent character is alphanumeric or a newline, and
/// everything else (blanks and punctuation alike) forms the other class.
pub open spec fn is_word_char(c: char) -> bool {
    is_alphanumeric_char(c) || c == '\n'
}

/// One primitive operation on the output surface.  The editor composes all
/// of its redrawing from these; the surrounding shell translates each into
/// the matching terminal escape sequence.
#[derive(Clone, Copy, Debug, PartialEq, Eq, Structural)]
pub enum Command {
    /// Move the cursor to the given column of the current row.
    Column(usize),
    /// Move the cursor up the given number of rows.
    Up(usize),
    /// Move the cursor left one column.
    Left,
    /// Move the cursor right one column.
    Right,
    /// Remember the cursor position.
    Save,
    /// Return to the remembered cursor position.
    Restore,
    /// Clear from the cursor to the end of the screen.
    ClearDown,
    /// Clear from the cursor to the end of the line.
    ClearLine,
    /// Start writing in the configured highlight color.
    Color,
    /// Reset the text color.
    Uncolor,
    /// Write one character at the cursor, given as its codepoint.
    Put(u32),
    /// Move to the start of the next row.
    Newline,
}

/// Each character written as a [`Command::Put`], in order.
pub open spec fn put_all(s: Seq<char>) -> Seq<Command>
    decreases s.len(),
{
    if s.len() == 0 {
        Seq::empty()
    } else {
        seq![Command::Put(s[0] as u32)] + put_all(s.drop_first())
    }
}

/// A prompt written in place: the highlight color, the prompt text, a color
/// reset, and one separating blank.
pub open spec fn prompt_text(p: Seq<char>) -> Seq<Command> {
    seq![Command::Color] + put_all(p) + seq![Command::Uncolor, Command::Put(32)]
}

/// Start of the line the cursor sits on: the index just after the last
/// newline of `s`, or 0 when `s` holds none.
pub open spec fn line_start(s: Seq<char>) -> int
    decreases s.len(),
{
    if s.len() == 0 {
        0
    } else if s.last() == '\n' {
        s.len() as int
    } else {
        line_start(s.drop_last())
    }
}

/// Index of the first newline of `s`, or its length when `s` holds none.
pub open spec fn first_newline(s: Seq<char>) -> int
    decreases s.len(),
{
    if s.len() == 0 {
        0
    } else if s[0] == '\n' {
        0
    } else {
        1 + first_newline(s.drop_first())
    }
}

/// How many newlines `s` holds.
pub open spec fn newline_count(s: Seq<char>) -> int
    decreases s.len(),
{
    if s.len() == 0 {
        0int
    } else {
        newline_count(s.drop_last()) + if s.last() == '\n' {
            1int
        } else {
            0int
        }
    }
}

/// One drawn character: a newline becomes a fresh row carrying the
/// continuation prompt, anything else is written in place.
pub open spec fn draw_unit(c: char, again: Seq<char>) -> Seq<Command> {
    if c == '\n' {
        seq![Command::Newline] + prompt_text(again)
    } else {
        seq![Command::Put(c as u32)]
    }
}

/// A text drawn in full, newlines opening fresh prompted rows.
pub open spec fn draw_text(s: Seq<char>, again: Seq<char>) -> Seq<Command>
    decreases s.len(),
{
    if s.len() == 0 {
        Seq::empty()
    } else {
        draw_unit(s[0], again) + draw_text(s.drop_first(), again)
    }
}

/// Pushing equals appending a one-element sequence.
pub proof fn lemma_push_singleton<T>(a: Seq<T>, y: T)
    ensures
        a.push(y) == a + seq![y],
{
    assert(a.push(y) =~= a + seq![y]);
}

/// Concatenation of sequences associates.
pub proof fn lemma_add_assoc<T>(a: Seq<T>, b: Seq<T>, c: Seq<T>)
    ensures
        (a + b) + c == a + (b + c),
{
    assert((a + b) + c =~= a + (b + c));
}

/// The dual-buffer editor with its prompt configuration.
#[derive(Debug)]
pub struct Editor {
    head: std::collections::VecDeque<char>,
    tail: std::collections::VecDeque<char>,
    color: String,
    begin: String,
    again: String,
}

impl Editor {
    /// The characters strictly before the cursor, in order.
    pub closed spec fn head_view(self) -> Seq<char> {
        self.head@
    }

    /// The characters at or after the cursor, in order.
    pub closed spec fn tail_view(self) -> Seq<char> {
        self.tail@
    }

    /// The full logical text: everything before the cursor, then
    /// everything after it.
    pub open spec fn content(self) -> Seq<char> {
        self.head_view() + self.tail_view()
    }

    /// The logical cursor offset.
    pub open spec fn cursor(self) -> int {
        self.head_view().len() as int
    }

    pub closed spec fn color_view(self) -> Seq<char> {
        self.color@
    }

    pub closed spec fn begin_view(self) -> Seq<char> {
        self.begin@
    }

    pub closed spec fn again_view(self) -> Seq<char> {
        self.again@
    }

    /// True when only the buffer content changed, not the prompt
    /// configuration.
    pub open spec fn same_prompts(self, other: Editor) -> bool {
        &&& self.color_view() == other.color_view()
        &&& self.begin_view() == other.begin_view()
        &&& self.again_view() == other.again_view()
    }

    /// The prompt shown at the cursor's row: the opening prompt while the
    /// cursor still sits on the buffer's very first line (no newline
    /// stands before it), the continuation prompt on every later row.
    pub open spec fn prompt_of(self) -> Seq<char> {
        if line_start(self.head_view()) == 0 {
            self.begin_view()
        } else {
            self.again_view()
        }
    }

    /// An empty editor with the given highlight color, opening prompt and
    /// continuation prompt.
    pub fn new(color: &str, begin: &str, again: &str) -> (r: Editor)
        ensures
            r.head_view() == Seq::<char>::empty(),
            r.tail_view() == Seq::<char>::empty(),
            r.color_view() == color@,
            r.begin_view() == begin@,
            r.again_view() == again@,
    {
        Editor {
            head: std::collections::VecDeque::new(),
            tail: std::collections::VecDeque::new(),
            color: color.to_owned(),
            begin: begin.to_owned(),
            again: again.to_owned(),
        }
    }

    /// Replaces the highlight color.
    pub fn set_color(&mut self, color: &str)
        ensures
            final(self).color_view() == color@,
            final(self).head_view() == old(self).head_view(),
            final(self).tail_view() == old(self).tail_view(),
            final(self).begin_view() == old(self).begin_view(),
            final(self).again_view() == old(self).again_view(),
    {
        self.color = color.to_owned();
    }

    /// True when the two runs together fit the machine's word, as any
    /// buffer actually held in memory does.
    pub open spec fn wf(self) -> bool {
        self.content().len() <= usize::MAX
    }

    /// Total number of characters in the buffer.
    pub fn len(&self) -> (r: usize)
        requires
            self.wf(),
        ensures
            r == self.content().len(),
    {
        self.head.len() + self.tail.len()
    }

    /// Replaces the opening and continuation prompts.
    pub fn set_prompts(&mut self, begin: &str, again: &str)
        ensures
            final(self).begin_view() == begin@,
            final(self).again_view() == again@,
            final(self).color_view() == old(self).color_view(),
            final(self).head_view() == old(self).head_view(),
            final(self).tail_view() == old(self).tail_view(),
    {
        self.begin = begin.to_owned();
        self.again = again.to_owned();
    }

    /// Number of characters before the cursor.
    pub fn head_len(&self) -> (r: usize)
        ensures
            r == self.head_view().len(),
    {
        self.head.len()
    }

    /// Number of characters at or after the cursor.
    pub fn tail_len(&self) -> (r: usize)
        ensures
            r == self.tail_view().len(),
    {
        self.tail.len()
    }

    /// True when the buffer holds no characters at all.
    pub fn is_empty(&self) -> (r: bool)
        ensures
            r == (self.content().len() == 0),
    {
        self.head.len() == 0 && self.tail.len() == 0
    }

    /// Empties the buffer; the screen is left alone.
    pub fn clear(&mut self)
        ensures
            final(self).head_view() == Seq::<char>::empty(),
            final(self).tail_view() == Seq::<char>::empty(),
            old(self).same_prompts(*final(self)),
    {
        self.head.clear();
        self.tail.clear();
    }

    /// Replaces the whole buffer with the given text and puts the cursor
    /// at its end; the screen is left alone.
    pub fn restore(&mut self, s: &str)
        ensures
            final(self).head_view() == s@,
            final(self).tail_view() == Seq::<char>::empty(),
            old(self).same_prompts(*final(self)),
    {
        self.clear();
        let n = s.unicode_len();
        let mut i: usize = 0;
        while i < n
            invariant
                n == s@.len(),
                i <= n,
                self.head@ == s@.take(i as int),
                self.tail@ == Seq::<char>::empty(),
                old(self).same_prompts(*self),
            decreases n - i,
        {
            self.head.push_back(s.get_char(i));
            i = i + 1;
            proof {
                assert(self.head@ =~= s@.take(i as int));
            }
        }
        proof {
            assert(s@.take(n as int) =~= s@);
        }
    }

    /// Replaces the whole buffer with the given text and puts the cursor
    /// at its start; the screen is left alone.
    pub fn restore_to_start(&mut self, s: &str)
        ensures
            final(self).head_view() == Seq::<char>::empty(),
            final(self).tail_view() == s@,
            old(self).same_prompts(*final(self)),
    {
        self.clear();
        let n = s.unicode_len();
        let mut i: usize = 0;
        while i < n
            invariant
                n == s@.len(),
                i <= n,
                self.head@ == Seq::<char>::empty(),
                self.tail@ == s@.take(i as int),
                old(self).same_prompts(*self),
            decreases n - i,
        {
            self.tail.push_back(s.get_char(i));
            i = i + 1;
            proof {
                assert(self.tail@ =~= s@.take(i as int));
            }
        }
        proof {
            assert(s@.take(n as int) =~= s@);
        }
    }

    /// True when the characters before the cursor end with the given
    /// pattern.
    pub fn ends_with(&self, pat: &str) -> (r: bool)
        ensures
            r == (self.head_view().len() >= pat@.len() && self.head_view().skip(
                self.head_view().len() - pat@.len(),
            ) == pat@),
    {
        let n = pat.unicode_len();
        let m = self.head.len();
        if m < n {
            return false;
        }
        let ghost suffix = self.head_view().skip(self.head_view().len() - pat@.len());
        let mut i: usize = 0;
        while i < n
            invariant
                n == pat@.len(),
                m == self.head@.len(),
                n <= m,
                i <= n,
                suffix == self.head@.skip(m - n),
                forall|k: int| 0 <= k < i ==> suffix[k] == pat@[k],
            decreases n - i,
        {
            if self.head[m - n + i] != pat.get_char(i) {
                proof {
                    assert(suffix[i as int] == self.head@[m - n + i]);
                    assert(suffix[i as int] != pat@[i as int]);
                    assert(suffix.len() == pat@.len());
                }
                return false;
            }
            proof {
                assert(suffix[i as int] == self.head@[m - n + i]);
            }
            i = i + 1;
        }
        proof {
            assert(suffix =~= pat@);
        }
        true
    }

    /// The buffer text as one string.
    pub fn to_text(&self) -> (r: String)
        ensures
            r@ == self.content(),
    {
        let mut r = String::new();
        let mut i: usize = 0;
        let hn = self.head.len();
        while i < hn
            invariant
                hn == self.head@.len(),
                i <= hn,
                r@ == self.head@.take(i as int),
            decreases hn - i,
        {
            r.push(self.head[i]);
            i = i + 1;
            proof {
                assert(r@ =~= self.head@.take(i as int));
            }
        }
        proof {
            assert(self.head@.take(hn as int) =~= self.head@);
        }
        let mut j: usize = 0;
        let tn = self.tail.len();
        while j < tn
            invariant
                tn == self.tail@.len(),
                j <= tn,
                r@ == self.head@ + self.tail@.take(j as int),
            decreases tn - j,
        {
            r.push(self.tail[j]);
            j = j + 1;
            proof {
                assert(r@ =~= self.head@ + self.tail@.take(j as int));
            }
        }
        proof {
            assert(self.head@ + self.tail@.take(tn as int) =~= self.content());
        }
        r
    }
}

/// Both bounds of [`line_start`]: it points just past the last newline,
/// everything from it onward is on one line, and a positive start is
/// preceded by a newline.
pub proof fn lemma_line_start_bounds(s: Seq<char>)
    ensures
        0 <= line_start(s) <= s.len(),
        forall|k: int| line_start(s) <= k < s.len() ==> s[k] != '\n',
        line_start(s) > 0 ==> s[line_start(s) - 1] == '\n',
    decreases s.len(),
{
    if s.len() == 0 {
    } else if s.last() == '\n' {
    } else {
        lemma_line_start_bounds(s.drop_last());
        assert(forall|k: int| 0 <= k < s.len() - 1 ==> s[k] == s.drop_last()[k]);
    }
}

/// Both bounds of [`first_newline`]: everything before it is on one line,
/// and when it lies inside the text it points at a newline.
pub proof fn lemma_first_newline_bounds(s: Seq<char>)
    ensures
        0 <= first_newline(s) <= s.len(),
        forall|k: int| 0 <= k < first_newline(s) ==> s[k] != '\n',
        first_newline(s) < s.len() ==> s[first_newline(s)] == '\n',
    decreases s.len(),
{
    if s.len() == 0 {
    } else if s[0] == '\n' {
    } else {
        lemma_first_newline_bounds(s.drop_first());
        assert(forall|k: int| 1 <= k < s.len() ==> s[k] == s.drop_first()[k - 1]);
    }
}

/// The cursor-relative commands that put the screen back to the first
/// column of the buffer's first row and wipe everything below: one upward
/// motion per newline drawn, then a clear.
pub open spec fn undraw_cmds(h: Seq<char>) -> Seq<Command> {
    if newline_count(h) == 0 {
        seq![Command::Column(0), Command::ClearDown]
    } else {
        seq![
            Command::Up(newline_count(h) as usize),
            Command::Column(0),
            Command::ClearDown,
        ]
    }
}

/// The commands that rewrite the cursor's own row up to the cursor: the
/// prompt for that row, then the characters after the last newline.
pub open spec fn print_head_cmds(h: Seq<char>, begin: Seq<char>, again: Seq<char>) -> Seq<
    Command,
> {
    seq![Command::Column(0)] + prompt_text(
        if line_start(h) == 0 {
            begin
        } else {
            again
        },
    ) + put_all(h.skip(line_start(h)))
}

/// The commands that rewrite the remainder of the cursor's row without
/// moving the visible cursor: the row is cleared and the tail up to its
/// first newline rewritten inside a save/restore bracket.
pub open spec fn print_tail_cmds(t: Seq<char>) -> Seq<Command> {
    seq![Command::Save, Command::ClearLine] + put_all(t.take(first_newline(t))) + seq![
        Command::Restore,
    ]
}

/// The commands that redraw the whole buffer from the top row: the opening
/// prompt, the head, a saved cursor position, the tail, and a return to
/// the saved position.
pub open spec fn redraw_cmds(h: Seq<char>, t: Seq<char>, begin: Seq<char>, again: Seq<char>) -> Seq<
    Command,
> {
    prompt_text(begin) + draw_text(h, again) + seq![Command::Save] + draw_text(t, again) + seq![
        Command::Restore,
    ]
}

/// Writes each character of `p` from index `i` on as a plain
/// [`Command::Put`].
fn emit_str_from(p: &str, i: usize, out: &mut Vec<Command>)
    requires
        i <= p@.len(),
    ensures
        final(out)@ == old(out)@ + put_all(p@.skip(i as int)),
    decreases p@.len() - i,
{
    let ghost base = out@;
    let ghost rest = p@.skip(i as int);
    let n = p.unicode_len();
    if i < n {
        let c = p.get_char(i);
        out.push(Command::Put(c as u32));
        emit_str_from(p, i + 1, out);
        proof {
            assert(rest[0] == c);
            assert(rest.drop_first() =~= p@.skip(i + 1));
            lemma_push_singleton(base, Command::Put(c as u32));
            lemma_add_assoc(base, seq![Command::Put(c as u32)], put_all(p@.skip(i + 1)));
            assert(out@ =~= base + put_all(rest));
        }
    } else {
        proof {
            assert(rest.len() == 0);
            assert(out@ =~= base + put_all(rest));
        }
    }
}

/// Writes each character of `p` as a plain [`Command::Put`].
fn emit_str(p: &str, out: &mut Vec<Command>)
    ensures
        final(out)@ == old(out)@ + put_all(p@),
{
    emit_str_from(p, 0, out);
    proof {
        assert(p@.skip(0) =~= p@);
    }
}

/// Writes one prompt in place: color on, the prompt text, color off, and a
/// separating blank.
fn emit_prompt(p: &str, out: &mut Vec<Command>)
    ensures
        final(out)@ == old(out)@ + prompt_text(p@),
{
    out.push(Command::Color);
    emit_str(p, out);
    out.push(Command::Uncolor);
    out.push(Command::Put(32));
    proof {
        assert(out@ =~= old(out)@ + prompt_text(p@));
    }
}

/// The characters `dq[from..to]`, copied out in order.
#[verifier::loop_isolation(false)]
fn deque_range_vec(dq: &std::collections::VecDeque<char>, from: usize, to: usize) -> (r: Vec<
    char,
>)
    requires
        from <= to <= dq@.len(),
    ensures
        r@ == dq@.subrange(from as int, to as int),
{
    let ghost rng = dq@.subrange(from as int, to as int);
    let mut r: Vec<char> = Vec::new();
    let mut i = from;
    proof {
        assert(r@ =~= rng.take(0));
    }
    while i < to
        invariant
            from <= i <= to,
            r@ == rng.take(i - from),
        decreases to - i,
    {
        r.push(dq[i]);
        i = i + 1;
        proof {
            assert(rng.take(i - from) =~= rng.take(i - from - 1).push(dq@[i - 1]));
            assert(r@ =~= rng.take(i - from));
        }
    }
    proof {
        assert(rng.take(to - from) =~= rng);
    }
    r
}

/// Writes each character of `v` from index `from` on as a plain
/// [`Command::Put`].
fn emit_vec_from(v: &Vec<char>, from: usize, out: &mut Vec<Command>)
    requires
        from <= v@.len(),
    ensures
        final(out)@ == old(out)@ + put_all(v@.skip(from as int)),
    decreases v@.len() - from,
{
    let ghost base = out@;
    let ghost rest = v@.skip(from as int);
    if from < v.len() {
        let c = v[from];
        out.push(Command::Put(c as u32));
        emit_vec_from(v, from + 1, out);
        proof {
            assert(rest[0] == c);
            assert(rest.drop_first() =~= v@.skip(from + 1));
            lemma_push_singleton(base, Command::Put(c as u32));
            lemma_add_assoc(base, seq![Command::Put(c as u32)], put_all(v@.skip(from + 1)));
            assert(out@ =~= base + put_all(rest));
        }
    } else {
        proof {
            assert(rest.len() == 0);
            assert(out@ =~= base + put_all(rest));
        }
    }
}

/// Writes the characters `dq[from..to]` as plain [`Command::Put`]s.
fn emit_deque_range(
    dq: &std::collections::VecDeque<char>,
    from: usize,
    to: usize,
    out: &mut Vec<Command>,
)
    requires
        from <= to <= dq@.len(),
    ensures
        final(out)@ == old(out)@ + put_all(dq@.subrange(from as int, to as int)),
{
    let v = deque_range_vec(dq, from, to);
    emit_vec_from(&v, 0, out);
    proof {
        assert(v@.skip(0) =~= dq@.subrange(from as int, to as int));
    }
}

/// Draws the characters of `v` from index `from` on, newlines opening
/// fresh prompted rows.
fn emit_drawn_from(v: &Vec<char>, from: usize, again: &str, out: &mut Vec<Command>)
    requires
        from <= v@.len(),
    ensures
        final(out)@ == old(out)@ + draw_text(v@.skip(from as int), again@),
    decreases v@.len() - from,
{
    let ghost base = out@;
    let ghost rest = v@.skip(from as int);
    if from < v.len() {
        let c = v[from];
        if c == '\n' {
            out.push(Command::Newline);
            emit_prompt(again, out);
            proof {
                lemma_push_singleton(base, Command::Newline);
                lemma_add_assoc(base, seq![Command::Newline], prompt_text(again@));
                assert(out@ == base + draw_unit(c, again@));
            }
        } else {
            out.push(Command::Put(c as u32));
            proof {
                lemma_push_singleton(base, Command::Put(c as u32));
                assert(out@ == base + draw_unit(c, again@));
            }
        }
        emit_drawn_from(v, from + 1, again, out);
        proof {
            assert(rest[0] == c);
            assert(rest.drop_first() =~= v@.skip(from + 1));
            lemma_add_assoc(base, draw_unit(c, again@), draw_text(v@.skip(from + 1), again@));
            assert(out@ =~= base + draw_text(rest, again@));
        }
    } else {
        proof {
            assert(rest.len() == 0);
            assert(out@ =~= base + draw_text(rest, again@));
        }
    }
}

/// Draws every character of `dq`, newlines opening fresh prompted rows.
fn emit_drawn(dq: &std::collections::VecDeque<char>, again: &str, out: &mut Vec<Command>)
    ensures
        final(out)@ == old(out)@ + draw_text(dq@, again@),
{
    let n = dq.len();
    let v = deque_range_vec(dq, 0, n);
    emit_drawn_from(&v, 0, again, out);
    proof {
        assert(dq@.subrange(0, n as int) =~= dq@);
        assert(v@.skip(0) =~= dq@);
    }
}

impl Editor {
    /// Index where the cursor's own row begins inside `head`.
    #[verifier::loop_isolation(false)]
    fn line_start_index(&self) -> (r: usize)
        ensures
            r == line_start(self.head_view()),
    {
        let mut j = self.head.len();
        proof {
            assert(self.head@.take(j as int) =~= self.head@);
        }
        while j > 0
            invariant
                j <= self.head@.len(),
                line_start(self.head@) == line_start(self.head@.take(j as int)),
            decreases j,
        {
            if self.head[j - 1] == '\n' {
                proof {
                    let pre = self.head@.take(j as int);
                    assert(pre.last() == self.head@[j - 1]);
                }
                return j;
            }
            proof {
                let pre = self.head@.take(j as int);
                assert(pre.last() == self.head@[j - 1]);
                assert(pre.drop_last() =~= self.head@.take(j - 1));
            }
            j = j - 1;
        }
        proof {
            assert(self.head@.take(0) =~= Seq::<char>::empty());
        }
        0
    }

    /// Index of the first newline of `tail`, or its length.
    #[verifier::loop_isolation(false)]
    fn first_newline_index(&self) -> (r: usize)
        ensures
            r == first_newline(self.tail_view()),
    {
        let n = self.tail.len();
        let mut i: usize = 0;
        while i < n
            invariant
                i <= n,
                forall|k: int| 0 <= k < i ==> self.tail@[k] != '\n',
            decreases n - i,
        {
            if self.tail[i] == '\n' {
                proof {
                    lemma_first_newline_bounds(self.tail@);
                }
                return i;
            }
            i = i + 1;
        }
        proof {
            lemma_first_newline_bounds(self.tail@);
        }
        n
    }

    /// Moves the drawing position back to the buffer's first row and wipes
    /// the drawn region.
    #[verifier::loop_isolation(false)]
    pub fn undraw(&self, out: &mut Vec<Command>)
        ensures
            final(out)@ == old(out)@ + undraw_cmds(self.head_view()),
    {
        let mut cnt: usize = 0;
        let mut i: usize = 0;
        let n = self.head.len();
        proof {
            assert(self.head@.take(0) =~= Seq::<char>::empty());
        }
        while i < n
            invariant
                i <= n,
                cnt <= i,
                cnt == newline_count(self.head@.take(i as int)),
            decreases n - i,
        {
            if self.head[i] == '\n' {
                cnt = cnt + 1;
            }
            proof {
                let pre = self.head@.take(i + 1);
                assert(pre.last() == self.head@[i as int]);
                assert(pre.drop_last() =~= self.head@.take(i as int));
            }
            i = i + 1;
        }
        proof {
            assert(self.head@.take(n as int) =~= self.head@);
        }
        if cnt == 0 {
            out.push(Command::Column(0));
            out.push(Command::ClearDown);
        } else {
            out.push(Command::Up(cnt));
            out.push(Command::Column(0));
            out.push(Command::ClearDown);
        }
        proof {
            assert(out@ =~= old(out)@ + undraw_cmds(self.head_view()));
        }
    }

    /// Writes the prompt belonging to the cursor's row.
    pub fn prompt(&self, out: &mut Vec<Command>)
        ensures
            final(out)@ == old(out)@ + seq![Command::Column(0)] + prompt_text(self.prompt_of()),
    {
        out.push(Command::Column(0));
        if self.line_start_index() == 0 {
            emit_prompt(self.begin.as_str(), out);
        } else {
            emit_prompt(self.again.as_str(), out);
        }
        proof {
            assert(out@ =~= old(out)@ + seq![Command::Column(0)] + prompt_text(self.prompt_of()));
        }
    }

    /// Rewrites the cursor's own row up to the cursor.
    pub fn print_head(&self, out: &mut Vec<Command>)
        ensures
            final(out)@ == old(out)@ + print_head_cmds(
                self.head_view(),
                self.begin_view(),
                self.again_view(),
            ),
    {
        self.prompt(out);
        let ls = self.line_start_index();
        let n = self.head.len();
        proof {
            lemma_line_start_bounds(self.head@);
        }
        emit_deque_range(&self.head, ls, n, out);
        proof {
            assert(self.head@.subrange(ls as int, n as int) =~= self.head@.skip(ls as int));
            assert(out@ =~= old(out)@ + print_head_cmds(
                self.head_view(),
                self.begin_view(),
                self.again_view(),
            ));
        }
    }

    /// Rewrites the remainder of the cursor's row, leaving the visible
    /// cursor where it stands.
    pub fn print_tail(&self, out: &mut Vec<Command>)
        ensures
            final(out)@ == old(out)@ + print_tail_cmds(self.tail_view()),
    {
        out.push(Command::Save);
        out.push(Command::ClearLine);
        let stop = self.first_newline_index();
        proof {
            lemma_first_newline_bounds(self.tail@);
        }
        emit_deque_range(&self.tail, 0, stop, out);
        out.push(Command::Restore);
        proof {
            assert(self.tail@.subrange(0, stop as int) =~= self.tail@.take(stop as int));
            assert(out@ =~= old(out)@ + print_tail_cmds(self.tail_view()));
        }
    }

    /// Redraws the whole buffer from the top row.
    pub fn redraw(&self, out: &mut Vec<Command>)
        ensures
            final(out)@ == old(out)@ + redraw_cmds(
                self.head_view(),
                self.tail_view(),
                self.begin_view(),
                self.again_view(),
            ),
    {
        emit_prompt(self.begin.as_str(), out);
        emit_drawn(&self.head, self.again.as_str(), out);
        out.push(Command::Save);
        emit_drawn(&self.tail, self.again.as_str(), out);
        out.push(Command::Restore);
        proof {
            assert(out@ =~= old(out)@ + redraw_cmds(
                self.head_view(),
                self.tail_view(),
                self.begin_view(),
                self.again_view(),
            ));
        }
    }
}

/// The commands one insertion emits: a plain character is written in
/// place (with the rest of the row rewritten when text follows the
/// cursor); a newline opens a fresh row, redrawing below the cursor when
/// text follows it.
pub open spec fn push_cmds(
    h: Seq<char>,
    t: Seq<char>,
    b: Seq<char>,
    a: Seq<char>,
    c: char,
) -> Seq<Command> {
    if t.len() == 0 {
        if c == '\n' {
            seq![Command::Newline] + print_head_cmds(h.push(c), b, a)
        } else {
            seq![Command::Put(c as u32)]
        }
    } else {
        if c == '\n' {
            undraw_cmds(h) + redraw_cmds(h.push(c), t, b, a)
        } else {
            seq![Command::Put(c as u32)] + print_tail_cmds(t)
        }
    }
}

/// The commands one backwards erasure emits: erasing a newline moves back
/// up a row and redraws, anything else is blanked in place and the rest
/// of the row rewritten.
pub open spec fn pop_cmds(h: Seq<char>, t: Seq<char>, b: Seq<char>, a: Seq<char>) -> Seq<
    Command,
> {
    if h.len() == 0 {
        Seq::empty()
    } else if h.last() == '\n' {
        undraw_cmds(h) + redraw_cmds(h.drop_last(), t, b, a)
    } else {
        seq![Command::Left, Command::Put(32), Command::Left] + print_tail_cmds(t)
    }
}

/// The commands one forwards erasure emits: erasing a newline redraws the
/// whole buffer, anything else rewrites the rest of the row.
pub open spec fn delete_cmds(h: Seq<char>, t: Seq<char>, b: Seq<char>, a: Seq<char>) -> Seq<
    Command,
> {
    if t.len() > 0 && t[0] == '\n' {
        undraw_cmds(h) + redraw_cmds(h, t.drop_first(), b, a)
    } else if t.len() > 0 {
        print_tail_cmds(t.drop_first())
    } else {
        print_tail_cmds(t)
    }
}

impl Editor {
    /// Inserts one character at the cursor and keeps the screen in step.
    pub fn push(&mut self, c: char, out: &mut Vec<Command>)
        ensures
            final(self).head_view() == old(self).head_view().push(c),
            final(self).tail_view() == old(self).tail_view(),
            old(self).same_prompts(*final(self)),
            final(out)@ == old(out)@ + push_cmds(
                old(self).head_view(),
                old(self).tail_view(),
                old(self).begin_view(),
                old(self).again_view(),
                c,
            ),
    {
        let ghost base = out@;
        if self.tail.len() == 0 {
            self.head.push_back(c);
            if c == '\n' {
                out.push(Command::Newline);
                self.print_head(out);
                proof {
                    lemma_push_singleton(base, Command::Newline);
                    lemma_add_assoc(
                        base,
                        seq![Command::Newline],
                        print_head_cmds(self.head@, self.begin@, self.again@),
                    );
                }
            } else {
                out.push(Command::Put(c as u32));
                proof {
                    lemma_push_singleton(base, Command::Put(c as u32));
                }
            }
        } else {
            if c == '\n' {
                self.undraw(out);
                self.head.push_back(c);
                self.redraw(out);
                proof {
                    lemma_add_assoc(
                        base,
                        undraw_cmds(old(self).head_view()),
                        redraw_cmds(self.head@, self.tail@, self.begin@, self.again@),
                    );
                }
            } else {
                self.head.push_back(c);
                out.push(Command::Put(c as u32));
                self.print_tail(out);
                proof {
                    lemma_push_singleton(base, Command::Put(c as u32));
                    lemma_add_assoc(
                        base,
                        seq![Command::Put(c as u32)],
                        print_tail_cmds(self.tail@),
                    );
                }
            }
        }
    }

    /// Erases the character just before the cursor, if any, and returns
    /// it; the screen is kept in step.
    pub fn pop(&mut self, out: &mut Vec<Command>) -> (r: Option<char>)
        ensures
            old(self).head_view().len() == 0 ==> r is None && final(self).head_view()
                == old(self).head_view(),
            old(self).head_view().len() > 0 ==> r == Some(old(self).head_view().last())
                && final(self).head_view() == old(self).head_view().drop_last(),
            final(self).tail_view() == old(self).tail_view(),
            old(self).same_prompts(*final(self)),
            final(out)@ == old(out)@ + pop_cmds(
                old(self).head_view(),
                old(self).tail_view(),
                old(self).begin_view(),
                old(self).again_view(),
            ),
    {
        let ghost base = out@;
        let n = self.head.len();
        if n == 0 {
            proof {
                assert(out@ =~= base + pop_cmds(self.head@, self.tail@, self.begin@, self.again@));
            }
            return None;
        }
        let c = self.head[n - 1];
        if c == '\n' {
            self.undraw(out);
            let _ = self.head.pop_back();
            self.redraw(out);
            proof {
                lemma_add_assoc(
                    base,
                    undraw_cmds(old(self).head_view()),
                    redraw_cmds(self.head@, self.tail@, self.begin@, self.again@),
                );
            }
        } else {
            let _ = self.head.pop_back();
            out.push(Command::Left);
            out.push(Command::Put(32));
            out.push(Command::Left);
            self.print_tail(out);
            proof {
                let three = seq![Command::Left, Command::Put(32), Command::Left];
                assert(base.push(Command::Left).push(Command::Put(32)).push(Command::Left) =~= base
                    + three);
                lemma_add_assoc(base, three, print_tail_cmds(self.tail@));
            }
        }
        proof {
            assert(self.head@ =~= old(self).head_view().drop_last());
        }
        Some(c)
    }

    /// Erases the character at the cursor, if any, and returns it; the
    /// screen is kept in step.  An empty tail reports the end of input.
    pub fn delete(&mut self, out: &mut Vec<Command>) -> (r: Result<char, Error>)
        ensures
            old(self).tail_view().len() == 0 ==> r == Err::<char, Error>(Error::EndOfInput)
                && final(self).tail_view() == old(self).tail_view(),
            old(self).tail_view().len() > 0 ==> r == Ok::<char, Error>(old(self).tail_view()[0])
                && final(self).tail_view() == old(self).tail_view().drop_first(),
            final(self).head_view() == old(self).head_view(),
            old(self).same_prompts(*final(self)),
            final(out)@ == old(out)@ + delete_cmds(
                old(self).head_view(),
                old(self).tail_view(),
                old(self).begin_view(),
                old(self).again_view(),
            ),
    {
        let ghost base = out@;
        let tn = self.tail.len();
        if tn == 0 {
            self.print_tail(out);
            return Err(Error::EndOfInput);
        }
        let c = self.tail[0];
        if c == '\n' {
            self.undraw(out);
            let _ = self.tail.pop_front();
            self.redraw(out);
            proof {
                assert(self.tail@ =~= old(self).tail_view().drop_first());
                lemma_add_assoc(
                    base,
                    undraw_cmds(self.head@),
                    redraw_cmds(self.head@, self.tail@, self.begin@, self.again@),
                );
            }
        } else {
            let _ = self.tail.pop_front();
            self.print_tail(out);
            proof {
                assert(self.tail@ =~= old(self).tail_view().drop_first());
            }
        }
        Ok(c)
    }
}

/// Head left after an erase-word: the trailing run of non-blank
/// characters goes, and the one blank that ends the run, if any, goes
/// with it.
pub open spec fn erase_word_head(h: Seq<char>) -> Seq<char>
    decreases h.len(),
{
    if h.len() == 0 {
        h
    } else if is_white_space(h.last()) {
        h.drop_last()
    } else {
        erase_word_head(h.drop_last())
    }
}

/// Start of the trailing run of characters whose word-boundary class is
/// `cls`: the index where one backwards word motion stops.
pub open spec fn word_run_start(h: Seq<char>, cls: bool) -> int
    decreases h.len(),
{
    if h.len() == 0 || is_word_char(h.last()) != cls {
        h.len() as int
    } else {
        word_run_start(h.drop_last(), cls)
    }
}

/// End of the leading run of characters whose word-boundary class is
/// `cls`: how far one forwards word motion travels.
pub open spec fn word_run_end(t: Seq<char>, cls: bool) -> int
    decreases t.len(),
{
    if t.len() == 0 || is_word_char(t[0]) != cls {
        0
    } else {
        1 + word_run_end(t.drop_first(), cls)
    }
}

/// The buffer after stepping the cursor back `n` times: up to `n`
/// characters move from the end of `head` to the front of `tail`.
pub open spec fn back_state(h: Seq<char>, t: Seq<char>, n: int) -> (Seq<char>, Seq<char>)
    decreases n,
{
    if n <= 0 || h.len() == 0 {
        (h, t)
    } else {
        back_state(h.drop_last(), seq![h.last()] + t, n - 1)
    }
}

/// The buffer after stepping the cursor forward `n` times.
pub open spec fn fwd_state(h: Seq<char>, t: Seq<char>, n: int) -> (Seq<char>, Seq<char>)
    decreases n,
{
    if n <= 0 || t.len() == 0 {
        (h, t)
    } else {
        fwd_state(h.push(t[0]), t.drop_first(), n - 1)
    }
}

/// The buffer after advancing up to `n` columns within the current line:
/// the cursor stops early at a newline or at the buffer's end.
pub open spec fn advance_state(h: Seq<char>, t: Seq<char>, n: int) -> (Seq<char>, Seq<char>)
    decreases n,
{
    if n <= 0 || t.len() == 0 || t[0] == '\n' {
        (h, t)
    } else {
        advance_state(h.push(t[0]), t.drop_first(), n - 1)
    }
}

/// The buffer after moving up one line, holding the column and clamping
/// at the shorter line's end: the cursor walks to its line start, crosses
/// the newline, walks to that line's start, and re-advances its column.
pub open spec fn up_state(h: Seq<char>, t: Seq<char>) -> (Seq<char>, Seq<char>) {
    let ls = line_start(h);
    if ls == 0 {
        (h, t)
    } else {
        let col = h.len() - ls;
        let t1 = h.skip(ls) + t;
        let h2 = h.take(ls - 1);
        let t2 = seq!['\n'] + t1;
        let pls = line_start(h2);
        advance_state(h2.take(pls), h2.skip(pls) + t2, col)
    }
}

/// The buffer after moving down one line, holding the column and clamping
/// at the shorter line's end: the cursor walks to its line end, crosses
/// the newline, and re-advances its column.
pub open spec fn down_state(h: Seq<char>, t: Seq<char>) -> (Seq<char>, Seq<char>) {
    let fnl = first_newline(t);
    if fnl == t.len() {
        (h, t)
    } else {
        let col = h.len() - line_start(h);
        let h1 = h + t.take(fnl);
        let t1 = t.skip(fnl);
        advance_state(h1.push('\n'), t1.drop_first(), col)
    }
}

/// The commands one backwards cursor step emits: crossing a newline
/// moves the drawing back up a row and redraws, anything else is one
/// column leftwards.
pub open spec fn back_step_cmds(h: Seq<char>, t: Seq<char>, b: Seq<char>, a: Seq<char>) -> Seq<
    Command,
> {
    if h.len() == 0 {
        Seq::empty()
    } else if h.last() == '\n' {
        undraw_cmds(h) + redraw_cmds(h.drop_last(), seq![h.last()] + t, b, a)
    } else {
        seq![Command::Left]
    }
}

/// The commands one forwards cursor step emits: crossing a newline
/// redraws on the row below, anything else is one column rightwards.
pub open spec fn fwd_step_cmds(h: Seq<char>, t: Seq<char>, b: Seq<char>, a: Seq<char>) -> Seq<
    Command,
> {
    if t.len() == 0 {
        Seq::empty()
    } else if t[0] == '\n' {
        undraw_cmds(h) + redraw_cmds(h.push(t[0]), t.drop_first(), b, a)
    } else {
        seq![Command::Right]
    }
}

/// The commands a run of backwards cursor steps emits, one step after
/// the next.
pub open spec fn back_cmds(h: Seq<char>, t: Seq<char>, b: Seq<char>, a: Seq<char>, n: int) -> Seq<
    Command,
>
    decreases n,
{
    if n <= 0 || h.len() == 0 {
        Seq::empty()
    } else {
        back_step_cmds(h, t, b, a) + back_cmds(h.drop_last(), seq![h.last()] + t, b, a, n - 1)
    }
}

/// The commands a run of forwards cursor steps emits, one step after the
/// next.
pub open spec fn fwd_cmds(h: Seq<char>, t: Seq<char>, b: Seq<char>, a: Seq<char>, n: int) -> Seq<
    Command,
>
    decreases n,
{
    if n <= 0 || t.len() == 0 {
        Seq::empty()
    } else {
        fwd_step_cmds(h, t, b, a) + fwd_cmds(h.push(t[0]), t.drop_first(), b, a, n - 1)
    }
}

/// The commands a motion to the line's start emits: one backwards step
/// per character between the cursor and the start of its line.
pub open spec fn home_cmds(h: Seq<char>, t: Seq<char>, b: Seq<char>, a: Seq<char>) -> Seq<Command>
    decreases h.len(),
{
    if h.len() == 0 || h.last() == '\n' {
        Seq::empty()
    } else {
        back_step_cmds(h, t, b, a) + home_cmds(h.drop_last(), seq![h.last()] + t, b, a)
    }
}

/// The commands a motion to the line's end emits: one forwards step per
/// character between the cursor and the end of its line.
pub open spec fn end_cmds(h: Seq<char>, t: Seq<char>, b: Seq<char>, a: Seq<char>) -> Seq<Command>
    decreases t.len(),
{
    if t.len() == 0 || t[0] == '\n' {
        Seq::empty()
    } else {
        fwd_step_cmds(h, t, b, a) + end_cmds(h.push(t[0]), t.drop_first(), b, a)
    }
}

/// The commands a motion to the buffer's start emits: one backwards step
/// per character before the cursor.
pub open spec fn buffer_start_cmds(h: Seq<char>, t: Seq<char>, b: Seq<char>, a: Seq<char>) -> Seq<
    Command,
>
    decreases h.len(),
{
    if h.len() == 0 {
        Seq::empty()
    } else {
        back_step_cmds(h, t, b, a) + buffer_start_cmds(h.drop_last(), seq![h.last()] + t, b, a)
    }
}

/// The commands a motion to the buffer's end emits: one forwards step
/// per character after the cursor.
pub open spec fn buffer_end_cmds(h: Seq<char>, t: Seq<char>, b: Seq<char>, a: Seq<char>) -> Seq<
    Command,
>
    decreases t.len(),
{
    if t.len() == 0 {
        Seq::empty()
    } else {
        fwd_step_cmds(h, t, b, a) + buffer_end_cmds(h.push(t[0]), t.drop_first(), b, a)
    }
}

/// The commands an erase-word emits: one backwards erasure per character
/// taken off, stopping with the first blank erased.
pub open spec fn erase_word_cmds(h: Seq<char>, t: Seq<char>, b: Seq<char>, a: Seq<char>) -> Seq<
    Command,
>
    decreases h.len(),
{
    if h.len() == 0 {
        Seq::empty()
    } else if is_white_space(h.last()) {
        pop_cmds(h, t, b, a)
    } else {
        pop_cmds(h, t, b, a) + erase_word_cmds(h.drop_last(), t, b, a)
    }
}

/// The commands a backwards word motion emits while the class next to
/// the cursor stays `cls`.
pub open spec fn word_back_cmds(
    h: Seq<char>,
    t: Seq<char>,
    b: Seq<char>,
    a: Seq<char>,
    cls: bool,
) -> Seq<Command>
    decreases h.len(),
{
    if h.len() == 0 || is_word_char(h.last()) != cls {
        Seq::empty()
    } else {
        back_step_cmds(h, t, b, a) + word_back_cmds(h.drop_last(), seq![h.last()] + t, b, a, cls)
    }
}

/// The commands a forwards word motion emits while the class at the
/// cursor stays `cls`.
pub open spec fn word_fwd_cmds(
    h: Seq<char>,
    t: Seq<char>,
    b: Seq<char>,
    a: Seq<char>,
    cls: bool,
) -> Seq<Command>
    decreases t.len(),
{
    if t.len() == 0 || is_word_char(t[0]) != cls {
        Seq::empty()
    } else {
        fwd_step_cmds(h, t, b, a) + word_fwd_cmds(h.push(t[0]), t.drop_first(), b, a, cls)
    }
}

/// The commands a bounded advance within the line emits: one forwards
/// step per column actually crossed.
pub open spec fn advance_cmds(
    h: Seq<char>,
    t: Seq<char>,
    b: Seq<char>,
    a: Seq<char>,
    n: int,
) -> Seq<Command>
    decreases n,
{
    if n <= 0 || t.len() == 0 || t[0] == '\n' {
        Seq::empty()
    } else {
        fwd_step_cmds(h, t, b, a) + advance_cmds(h.push(t[0]), t.drop_first(), b, a, n - 1)
    }
}

/// The commands one insertion run emits: each character drawn as
/// [`Editor::push`] draws it.
pub open spec fn extend_cmds(
    h: Seq<char>,
    t: Seq<char>,
    b: Seq<char>,
    a: Seq<char>,
    s: Seq<char>,
) -> Seq<Command>
    decreases s.len(),
{
    if s.len() == 0 {
        Seq::empty()
    } else {
        push_cmds(h, t, b, a, s[0]) + extend_cmds(h.push(s[0]), t, b, a, s.drop_first())
    }
}

/// The commands one upward line motion emits: the walk to the line's
/// start, the step over the newline, the walk to the row above's start,
/// and the re-advance of the held column.
pub open spec fn up_cmds(h: Seq<char>, t: Seq<char>, b: Seq<char>, a: Seq<char>) -> Seq<Command> {
    let ls = line_start(h);
    if ls == 0 {
        Seq::empty()
    } else {
        let col = h.len() - ls;
        let t1 = h.skip(ls) + t;
        let h2 = h.take(ls - 1);
        let t2 = seq!['\n'] + t1;
        let pls = line_start(h2);
        home_cmds(h, t, b, a) + back_step_cmds(h.take(ls), t1, b, a) + home_cmds(h2, t2, b, a)
            + advance_cmds(h2.take(pls), h2.skip(pls) + t2, b, a, col)
    }
}

/// The commands one downward line motion emits: the walk to the line's
/// end, the step over the newline, and the re-advance of the held
/// column.
pub open spec fn down_cmds(h: Seq<char>, t: Seq<char>, b: Seq<char>, a: Seq<char>) -> Seq<
    Command,
> {
    let fnl = first_newline(t);
    if fnl == t.len() {
        Seq::empty()
    } else {
        let col = h.len() - line_start(h);
        let h1 = h + t.take(fnl);
        let t1 = t.skip(fnl);
        end_cmds(h, t, b, a) + fwd_step_cmds(h1, t1, b, a) + advance_cmds(
            h1.push('\n'),
            t1.drop_first(),
            b,
            a,
            col,
        )
    }
}

impl Editor {
    /// Steps the cursor back one character, crossing a newline onto the
    /// row above.
    fn back_one(&mut self, out: &mut Vec<Command>)
        requires
            old(self).head_view().len() > 0,
        ensures
            final(self).head_view() == old(self).head_view().drop_last(),
            final(self).tail_view() == seq![old(self).head_view().last()] + old(self).tail_view(),
            old(self).same_prompts(*final(self)),
            final(out)@ == old(out)@ + back_step_cmds(
                old(self).head_view(),
                old(self).tail_view(),
                old(self).begin_view(),
                old(self).again_view(),
            ),
    {
        let ghost base = out@;
        let n = self.head.len();
        let c = self.head[n - 1];
        if c == '\n' {
            self.undraw(out);
        }
        let _ = self.head.pop_back();
        self.tail.push_front(c);
        if c == '\n' {
            self.redraw(out);
            proof {
                lemma_add_assoc(
                    base,
                    undraw_cmds(old(self).head_view()),
                    redraw_cmds(self.head@, self.tail@, self.begin@, self.again@),
                );
            }
        } else {
            out.push(Command::Left);
            proof {
                lemma_push_singleton(base, Command::Left);
            }
        }
        proof {
            assert(self.head@ =~= old(self).head_view().drop_last());
        }
    }

    /// Steps the cursor forward one character, crossing a newline onto
    /// the row below.
    fn forward_one(&mut self, out: &mut Vec<Command>)
        requires
            old(self).tail_view().len() > 0,
        ensures
            final(self).head_view() == old(self).head_view().push(old(self).tail_view()[0]),
            final(self).tail_view() == old(self).tail_view().drop_first(),
            old(self).same_prompts(*final(self)),
            final(out)@ == old(out)@ + fwd_step_cmds(
                old(self).head_view(),
                old(self).tail_view(),
                old(self).begin_view(),
                old(self).again_view(),
            ),
    {
        let ghost base = out@;
        let c = self.tail[0];
        if c == '\n' {
            self.undraw(out);
        }
        let _ = self.tail.pop_front();
        self.head.push_back(c);
        if c == '\n' {
            self.redraw(out);
            proof {
                lemma_add_assoc(
                    base,
                    undraw_cmds(old(self).head_view()),
                    redraw_cmds(self.head@, self.tail@, self.begin@, self.again@),
                );
            }
        } else {
            out.push(Command::Right);
            proof {
                lemma_push_singleton(base, Command::Right);
            }
        }
        proof {
            assert(self.tail@ =~= old(self).tail_view().drop_first());
        }
    }

    /// Moves the cursor back up to `steps` characters, stopping early at
    /// the buffer's start.
    pub fn cursor_back(&mut self, steps: usize, out: &mut Vec<Command>)
        ensures
            final(self).head_view() == back_state(
                old(self).head_view(),
                old(self).tail_view(),
                steps as int,
            ).0,
            final(self).tail_view() == back_state(
                old(self).head_view(),
                old(self).tail_view(),
                steps as int,
            ).1,
            old(self).same_prompts(*final(self)),
            final(out)@ == old(out)@ + back_cmds(
                old(self).head_view(),
                old(self).tail_view(),
                old(self).begin_view(),
                old(self).again_view(),
                steps as int,
            ),
        decreases steps,
    {
        let ghost base = out@;
        if steps == 0 {
            proof {
                assert(out@ =~= base + back_cmds(
                    self.head@,
                    self.tail@,
                    self.begin@,
                    self.again@,
                    steps as int,
                ));
            }
            return;
        }
        if self.head.len() == 0 {
            proof {
                assert(out@ =~= base + back_cmds(
                    self.head@,
                    self.tail@,
                    self.begin@,
                    self.again@,
                    steps as int,
                ));
            }
            return;
        }
        self.back_one(out);
        self.cursor_back(steps - 1, out);
        proof {
            lemma_add_assoc(
                base,
                back_step_cmds(
                    old(self).head_view(),
                    old(self).tail_view(),
                    old(self).begin_view(),
                    old(self).again_view(),
                ),
                back_cmds(
                    old(self).head_view().drop_last(),
                    seq![old(self).head_view().last()] + old(self).tail_view(),
                    old(self).begin_view(),
                    old(self).again_view(),
                    steps - 1,
                ),
            );
        }
    }

    /// Moves the cursor forward up to `steps` characters, stopping early
    /// at the buffer's end.
    pub fn cursor_forward(&mut self, steps: usize, out: &mut Vec<Command>)
        ensures
            final(self).head_view() == fwd_state(
                old(self).head_view(),
                old(self).tail_view(),
                steps as int,
            ).0,
            final(self).tail_view() == fwd_state(
                old(self).head_view(),
                old(self).tail_view(),
                steps as int,
            ).1,
            old(self).same_prompts(*final(self)),
            final(out)@ == old(out)@ + fwd_cmds(
                old(self).head_view(),
                old(self).tail_view(),
                old(self).begin_view(),
                old(self).again_view(),
                steps as int,
            ),
        decreases steps,
    {
        let ghost base = out@;
        if steps == 0 {
            proof {
                assert(out@ =~= base + fwd_cmds(
                    self.head@,
                    self.tail@,
                    self.begin@,
                    self.again@,
                    steps as int,
                ));
            }
            return;
        }
        if self.tail.len() == 0 {
            proof {
                assert(out@ =~= base + fwd_cmds(
                    self.head@,
                    self.tail@,
                    self.begin@,
                    self.again@,
                    steps as int,
                ));
            }
            return;
        }
        self.forward_one(out);
        self.cursor_forward(steps - 1, out);
        proof {
            lemma_add_assoc(
                base,
                fwd_step_cmds(
                    old(self).head_view(),
                    old(self).tail_view(),
                    old(self).begin_view(),
                    old(self).again_view(),
                ),
                fwd_cmds(
                    old(self).head_view().push(old(self).tail_view()[0]),
                    old(self).tail_view().drop_first(),
                    old(self).begin_view(),
                    old(self).again_view(),
                    steps - 1,
                ),
            );
        }
    }

    /// Moves the cursor to the start of its line.
    pub fn home(&mut self, out: &mut Vec<Command>)
        ensures
            final(self).head_view() == old(self).head_view().take(
                line_start(old(self).head_view()),
            ),
            final(self).tail_view() == old(self).head_view().skip(
                line_start(old(self).head_view()),
            ) + old(self).tail_view(),
            old(self).same_prompts(*final(self)),
            final(out)@ == old(out)@ + home_cmds(
                old(self).head_view(),
                old(self).tail_view(),
                old(self).begin_view(),
                old(self).again_view(),
            ),
        decreases old(self).head_view().len(),
    {
        let ghost h = self.head@;
        let ghost t = self.tail@;
        let ghost base = out@;
        let n = self.head.len();
        proof {
            lemma_line_start_bounds(h);
        }
        if n == 0 {
            proof {
                assert(final(self).head_view() =~= h.take(line_start(h)));
                assert(final(self).tail_view() =~= h.skip(line_start(h)) + t);
                assert(out@ =~= base + home_cmds(h, t, self.begin@, self.again@));
            }
            return;
        }
        if self.head[n - 1] == '\n' {
            proof {
                assert(line_start(h) == h.len());
                assert(final(self).head_view() =~= h.take(line_start(h)));
                assert(final(self).tail_view() =~= h.skip(line_start(h)) + t);
                assert(out@ =~= base + home_cmds(h, t, self.begin@, self.again@));
            }
            return;
        }
        self.back_one(out);
        self.home(out);
        proof {
            let hd = h.drop_last();
            assert(line_start(h) == line_start(hd));
            assert(hd.take(line_start(hd)) =~= h.take(line_start(h)));
            assert(hd.skip(line_start(hd)) + (seq![h.last()] + t) =~= h.skip(line_start(h)) + t);
            lemma_add_assoc(
                base,
                back_step_cmds(h, t, self.begin@, self.again@),
                home_cmds(hd, seq![h.last()] + t, self.begin@, self.again@),
            );
        }
    }

    /// Moves the cursor to the end of its line.
    pub fn end(&mut self, out: &mut Vec<Command>)
        ensures
            final(self).head_view() == old(self).head_view() + old(self).tail_view().take(
                first_newline(old(self).tail_view()),
            ),
            final(self).tail_view() == old(self).tail_view().skip(
                first_newline(old(self).tail_view()),
            ),
            old(self).same_prompts(*final(self)),
            final(out)@ == old(out)@ + end_cmds(
                old(self).head_view(),
                old(self).tail_view(),
                old(self).begin_view(),
                old(self).again_view(),
            ),
        decreases old(self).tail_view().len(),
    {
        let ghost h = self.head@;
        let ghost t = self.tail@;
        let ghost base = out@;
        let tn = self.tail.len();
        proof {
            lemma_first_newline_bounds(t);
        }
        if tn == 0 {
            proof {
                assert(final(self).head_view() =~= h + t.take(first_newline(t)));
                assert(final(self).tail_view() =~= t.skip(first_newline(t)));
                assert(out@ =~= base + end_cmds(h, t, self.begin@, self.again@));
            }
            return;
        }
        if self.tail[0] == '\n' {
            proof {
                assert(first_newline(t) == 0);
                assert(final(self).head_view() =~= h + t.take(first_newline(t)));
                assert(final(self).tail_view() =~= t.skip(first_newline(t)));
                assert(out@ =~= base + end_cmds(h, t, self.begin@, self.again@));
            }
            return;
        }
        self.forward_one(out);
        self.end(out);
        proof {
            let td = t.drop_first();
            assert(first_newline(t) == 1 + first_newline(td));
            assert(h.push(t[0]) + td.take(first_newline(td)) =~= h + t.take(first_newline(t)));
            assert(td.skip(first_newline(td)) =~= t.skip(first_newline(t)));
            lemma_add_assoc(
                base,
                fwd_step_cmds(h, t, self.begin@, self.again@),
                end_cmds(h.push(t[0]), td, self.begin@, self.again@),
            );
        }
    }

    /// Moves the cursor to the very start of the buffer.
    pub fn buffer_start(&mut self, out: &mut Vec<Command>)
        ensures
            final(self).head_view() == Seq::<char>::empty(),
            final(self).tail_view() == old(self).head_view() + old(self).tail_view(),
            old(self).same_prompts(*final(self)),
            final(out)@ == old(out)@ + buffer_start_cmds(
                old(self).head_view(),
                old(self).tail_view(),
                old(self).begin_view(),
                old(self).again_view(),
            ),
        decreases old(self).head_view().len(),
    {
        let ghost h = self.head@;
        let ghost t = self.tail@;
        let ghost base = out@;
        if self.head.len() == 0 {
            proof {
                assert(final(self).tail_view() =~= h + t);
                assert(out@ =~= base + buffer_start_cmds(h, t, self.begin@, self.again@));
            }
            return;
        }
        self.back_one(out);
        self.buffer_start(out);
        proof {
            assert(h.drop_last() + (seq![h.last()] + t) =~= h + t);
            lemma_add_assoc(
                base,
                back_step_cmds(h, t, self.begin@, self.again@),
                buffer_start_cmds(h.drop_last(), seq![h.last()] + t, self.begin@, self.again@),
            );
        }
    }

    /// Moves the cursor to the very end of the buffer.
    pub fn buffer_end(&mut self, out: &mut Vec<Command>)
        ensures
            final(self).head_view() == old(self).head_view() + old(self).tail_view(),
            final(self).tail_view() == Seq::<char>::empty(),
            old(self).same_prompts(*final(self)),
            final(out)@ == old(out)@ + buffer_end_cmds(
                old(self).head_view(),
                old(self).tail_view(),
                old(self).begin_view(),
                old(self).again_view(),
            ),
        decreases old(self).tail_view().len(),
    {
        let ghost h = self.head@;
        let ghost t = self.tail@;
        let ghost base = out@;
        if self.tail.len() == 0 {
            proof {
                assert(final(self).head_view() =~= h + t);
                assert(out@ =~= base + buffer_end_cmds(h, t, self.begin@, self.again@));
            }
            return;
        }
        self.forward_one(out);
        self.buffer_end(out);
        proof {
            assert(h.push(t[0]) + t.drop_first() =~= h + t);
            lemma_add_assoc(
                base,
                fwd_step_cmds(h, t, self.begin@, self.again@),
                buffer_end_cmds(h.push(t[0]), t.drop_first(), self.begin@, self.again@),
            );
        }
    }
}

impl Editor {
    /// Inserts every character of `s` at the cursor, in order, drawing
    /// each as [`Editor::push`] does.
    pub fn extend(&mut self, s: &str, out: &mut Vec<Command>)
        ensures
            final(self).head_view() == old(self).head_view() + s@,
            final(self).tail_view() == old(self).tail_view(),
            old(self).same_prompts(*final(self)),
            final(out)@ == old(out)@ + extend_cmds(
                old(self).head_view(),
                old(self).tail_view(),
                old(self).begin_view(),
                old(self).again_view(),
                s@,
            ),
    {
        self.extend_from(s, 0, out);
        proof {
            assert(s@.skip(0) =~= s@);
            assert(old(self).head_view() + s@.skip(0) =~= old(self).head_view() + s@);
        }
    }

    /// Inserts the characters of `s` from index `i` on.
    fn extend_from(&mut self, s: &str, i: usize, out: &mut Vec<Command>)
        requires
            i <= s@.len(),
        ensures
            final(self).head_view() == old(self).head_view() + s@.skip(i as int),
            final(self).tail_view() == old(self).tail_view(),
            old(self).same_prompts(*final(self)),
            final(out)@ == old(out)@ + extend_cmds(
                old(self).head_view(),
                old(self).tail_view(),
                old(self).begin_view(),
                old(self).again_view(),
                s@.skip(i as int),
            ),
        decreases s@.len() - i,
    {
        let ghost h = self.head@;
        let ghost t = self.tail@;
        let ghost base = out@;
        let ghost rest = s@.skip(i as int);
        let n = s.unicode_len();
        if i >= n {
            proof {
                assert(rest.len() == 0);
                assert(self.head@ =~= h + rest);
                assert(out@ =~= base + extend_cmds(h, t, self.begin@, self.again@, rest));
            }
            return;
        }
        let c = s.get_char(i);
        self.push(c, out);
        self.extend_from(s, i + 1, out);
        proof {
            assert(rest[0] == c);
            assert(rest.drop_first() =~= s@.skip(i + 1));
            assert(h.push(c) + s@.skip(i + 1) =~= h + rest);
            lemma_add_assoc(
                base,
                push_cmds(h, t, self.begin@, self.again@, c),
                extend_cmds(h.push(c), t, self.begin@, self.again@, s@.skip(i + 1)),
            );
        }
    }

    /// Erases backwards through the trailing word: characters are popped
    /// until the one popped is a blank, or the buffer runs out.
    pub fn erase_word(&mut self, out: &mut Vec<Command>)
        ensures
            final(self).head_view() == erase_word_head(old(self).head_view()),
            final(self).tail_view() == old(self).tail_view(),
            old(self).same_prompts(*final(self)),
            final(out)@ == old(out)@ + erase_word_cmds(
                old(self).head_view(),
                old(self).tail_view(),
                old(self).begin_view(),
                old(self).again_view(),
            ),
        decreases old(self).head_view().len(),
    {
        let ghost h = self.head@;
        let ghost t = self.tail@;
        let ghost base = out@;
        match self.pop(out) {
            None => {
                proof {
                    assert(out@ =~= base + erase_word_cmds(h, t, self.begin@, self.again@));
                }
            },
            Some(c) => {
                if !c.is_whitespace() {
                    self.erase_word(out);
                    proof {
                        lemma_add_assoc(
                            base,
                            pop_cmds(h, t, self.begin@, self.again@),
                            erase_word_cmds(h.drop_last(), t, self.begin@, self.again@),
                        );
                    }
                }
            },
        }
    }

    /// Steps the cursor back over the trailing run of one word-boundary
    /// class: starting next to an alphanumeric or newline character it
    /// skips back over that class, otherwise over the class of blanks and
    /// punctuation, and stops as soon as the class next to it flips.
    pub fn word_back(&mut self, out: &mut Vec<Command>)
        ensures
            old(self).head_view().len() == 0 ==> final(self).head_view() == old(self).head_view()
                && final(self).tail_view() == old(self).tail_view(),
            old(self).head_view().len() > 0 ==> {
                let cls = is_word_char(old(self).head_view().last());
                let k = word_run_start(old(self).head_view(), cls);
                final(self).head_view() == old(self).head_view().take(k) && final(self).tail_view()
                    == old(self).head_view().skip(k) + old(self).tail_view()
            },
            old(self).same_prompts(*final(self)),
            old(self).head_view().len() == 0 ==> final(out)@ == old(out)@,
            old(self).head_view().len() > 0 ==> final(out)@ == old(out)@ + word_back_cmds(
                old(self).head_view(),
                old(self).tail_view(),
                old(self).begin_view(),
                old(self).again_view(),
                is_word_char(old(self).head_view().last()),
            ),
    {
        let n = self.head.len();
        if n == 0 {
            return;
        }
        let cls = word_char(self.head[n - 1]);
        proof {
            assert(cls == is_word_char(self.head@.last()));
        }
        self.word_back_go(cls, out);
    }

    /// The backwards word motion proper: steps back while the character
    /// next to the cursor keeps the class `cls`.
    fn word_back_go(&mut self, cls: bool, out: &mut Vec<Command>)
        ensures
            final(self).head_view() == old(self).head_view().take(
                word_run_start(old(self).head_view(), cls),
            ),
            final(self).tail_view() == old(self).head_view().skip(
                word_run_start(old(self).head_view(), cls),
            ) + old(self).tail_view(),
            old(self).same_prompts(*final(self)),
            final(out)@ == old(out)@ + word_back_cmds(
                old(self).head_view(),
                old(self).tail_view(),
                old(self).begin_view(),
                old(self).again_view(),
                cls,
            ),
        decreases old(self).head_view().len(),
    {
        let ghost h = self.head@;
        let ghost t = self.tail@;
        let ghost base = out@;
        proof {
            lemma_word_run_start_bounds(h, cls);
        }
        let n = self.head.len();
        if n == 0 {
            proof {
                assert(final(self).head_view() =~= h.take(word_run_start(h, cls)));
                assert(final(self).tail_view() =~= h.skip(word_run_start(h, cls)) + t);
                assert(out@ =~= base + word_back_cmds(h, t, self.begin@, self.again@, cls));
            }
            return;
        }
        if word_char(self.head[n - 1]) != cls {
            proof {
                assert(word_run_start(h, cls) == h.len());
                assert(final(self).head_view() =~= h.take(word_run_start(h, cls)));
                assert(final(self).tail_view() =~= h.skip(word_run_start(h, cls)) + t);
                assert(out@ =~= base + word_back_cmds(h, t, self.begin@, self.again@, cls));
            }
            return;
        }
        self.back_one(out);
        self.word_back_go(cls, out);
        proof {
            let hd = h.drop_last();
            lemma_word_run_start_bounds(hd, cls);
            assert(word_run_start(h, cls) == word_run_start(hd, cls));
            assert(hd.take(word_run_start(hd, cls)) =~= h.take(word_run_start(h, cls)));
            assert(hd.skip(word_run_start(hd, cls)) + (seq![h.last()] + t) =~= h.skip(
                word_run_start(h, cls),
            ) + t);
            lemma_add_assoc(
                base,
                back_step_cmds(h, t, self.begin@, self.again@),
                word_back_cmds(hd, seq![h.last()] + t, self.begin@, self.again@, cls),
            );
        }
    }

    /// Steps the cursor forward over the leading run of one word-boundary
    /// class, stopping as soon as the class next to it flips.
    pub fn word_forward(&mut self, out: &mut Vec<Command>)
        ensures
            old(self).tail_view().len() == 0 ==> final(self).head_view() == old(self).head_view()
                && final(self).tail_view() == old(self).tail_view(),
            old(self).tail_view().len() > 0 ==> {
                let cls = is_word_char(old(self).tail_view()[0]);
                let k = word_run_end(old(self).tail_view(), cls);
                final(self).head_view() == old(self).head_view() + old(self).tail_view().take(k)
                    && final(self).tail_view() == old(self).tail_view().skip(k)
            },
            old(self).same_prompts(*final(self)),
            old(self).tail_view().len() == 0 ==> final(out)@ == old(out)@,
            old(self).tail_view().len() > 0 ==> final(out)@ == old(out)@ + word_fwd_cmds(
                old(self).head_view(),
                old(self).tail_view(),
                old(self).begin_view(),
                old(self).again_view(),
                is_word_char(old(self).tail_view()[0]),
            ),
    {
        if self.tail.len() == 0 {
            return;
        }
        let cls = word_char(self.tail[0]);
        self.word_forward_go(cls, out);
    }

    /// The forwards word motion proper: steps forward while the character
    /// at the cursor keeps the class `cls`.
    fn word_forward_go(&mut self, cls: bool, out: &mut Vec<Command>)
        ensures
            final(self).head_view() == old(self).head_view() + old(self).tail_view().take(
                word_run_end(old(self).tail_view(), cls),
            ),
            final(self).tail_view() == old(self).tail_view().skip(
                word_run_end(old(self).tail_view(), cls),
            ),
            old(self).same_prompts(*final(self)),
            final(out)@ == old(out)@ + word_fwd_cmds(
                old(self).head_view(),
                old(self).tail_view(),
                old(self).begin_view(),
                old(self).again_view(),
                cls,
            ),
        decreases old(self).tail_view().len(),
    {
        let ghost h = self.head@;
        let ghost t = self.tail@;
        let ghost base = out@;
        proof {
            lemma_word_run_end_bounds(t, cls);
        }
        let tn = self.tail.len();
        if tn == 0 {
            proof {
                assert(final(self).head_view() =~= h + t.take(word_run_end(t, cls)));
                assert(final(self).tail_view() =~= t.skip(word_run_end(t, cls)));
                assert(out@ =~= base + word_fwd_cmds(h, t, self.begin@, self.again@, cls));
            }
            return;
        }
        if word_char(self.tail[0]) != cls {
            proof {
                assert(word_run_end(t, cls) == 0);
                assert(final(self).head_view() =~= h + t.take(word_run_end(t, cls)));
                assert(final(self).tail_view() =~= t.skip(word_run_end(t, cls)));
                assert(out@ =~= base + word_fwd_cmds(h, t, self.begin@, self.again@, cls));
            }
            return;
        }
        self.forward_one(out);
        self.word_forward_go(cls, out);
        proof {
            let td = t.drop_first();
            lemma_word_run_end_bounds(td, cls);
            assert(word_run_end(t, cls) == 1 + word_run_end(td, cls));
            assert(h.push(t[0]) + td.take(word_run_end(td, cls)) =~= h + t.take(
                word_run_end(t, cls),
            ));
            assert(td.skip(word_run_end(td, cls)) =~= t.skip(word_run_end(t, cls)));
            lemma_add_assoc(
                base,
                fwd_step_cmds(h, t, self.begin@, self.again@),
                word_fwd_cmds(h.push(t[0]), td, self.begin@, self.again@, cls),
            );
        }
    }

    /// Advances the cursor up to `cols` columns within the current line,
    /// stopping early at a newline or at the buffer's end.
    fn advance(&mut self, cols: usize, out: &mut Vec<Command>)
        ensures
            final(self).head_view() == advance_state(
                old(self).head_view(),
                old(self).tail_view(),
                cols as int,
            ).0,
            final(self).tail_view() == advance_state(
                old(self).head_view(),
                old(self).tail_view(),
                cols as int,
            ).1,
            old(self).same_prompts(*final(self)),
            final(out)@ == old(out)@ + advance_cmds(
                old(self).head_view(),
                old(self).tail_view(),
                old(self).begin_view(),
                old(self).again_view(),
                cols as int,
            ),
        decreases cols,
    {
        let ghost h = self.head@;
        let ghost t = self.tail@;
        let ghost base = out@;
        if cols == 0 {
            proof {
                assert(out@ =~= base + advance_cmds(h, t, self.begin@, self.again@, cols as int));
            }
            return;
        }
        if self.tail.len() == 0 {
            proof {
                assert(out@ =~= base + advance_cmds(h, t, self.begin@, self.again@, cols as int));
            }
            return;
        }
        if self.tail[0] == '\n' {
            proof {
                assert(out@ =~= base + advance_cmds(h, t, self.begin@, self.again@, cols as int));
            }
            return;
        }
        self.forward_one(out);
        self.advance(cols - 1, out);
        proof {
            lemma_add_assoc(
                base,
                fwd_step_cmds(h, t, self.begin@, self.again@),
                advance_cmds(h.push(t[0]), t.drop_first(), self.begin@, self.again@, cols - 1),
            );
        }
    }

    /// Moves the cursor up one line, holding its column and clamping at
    /// the target line's end; on the first line it stays put.
    pub fn cursor_up(&mut self, out: &mut Vec<Command>)
        ensures
            final(self).head_view() == up_state(old(self).head_view(), old(self).tail_view()).0,
            final(self).tail_view() == up_state(old(self).head_view(), old(self).tail_view()).1,
            old(self).same_prompts(*final(self)),
            final(out)@ == old(out)@ + up_cmds(
                old(self).head_view(),
                old(self).tail_view(),
                old(self).begin_view(),
                old(self).again_view(),
            ),
    {
        let ghost h = self.head@;
        let ghost t = self.tail@;
        let ghost base = out@;
        let ls = self.line_start_index();
        proof {
            lemma_line_start_bounds(h);
        }
        if ls == 0 {
            proof {
                assert(out@ =~= base + up_cmds(h, t, self.begin@, self.again@));
            }
            return;
        }
        let col = self.head.len() - ls;
        self.home(out);
        let ghost o1 = out@;
        self.back_one(out);
        proof {
            assert(h.take(ls as int).last() == h[ls - 1]);
            assert(h[ls - 1] == '\n');
            assert(h.take(ls as int).drop_last() =~= h.take(ls - 1));
            assert(seq![h.take(ls as int).last()] + (h.skip(ls as int) + t) =~= seq!['\n'] + (
            h.skip(ls as int) + t));
        }
        self.home(out);
        let ghost h2 = h.take(ls - 1);
        let ghost pls = line_start(h2);
        self.advance(col, out);
        proof {
            let t1 = h.skip(ls as int) + t;
            let t2 = seq!['\n'] + t1;
            assert(seq![h.take(ls as int).last()] + (h.skip(ls as int) + t) =~= t2);
            assert(out@ =~= base + up_cmds(h, t, self.begin@, self.again@));
        }
        proof {
            assert(final(self).head_view() == advance_state(
                h2.take(pls),
                h2.skip(pls) + (seq!['\n'] + (h.skip(ls as int) + t)),
                col as int,
            ).0);
            assert(h2.skip(pls) + (seq!['\n'] + (h.skip(ls as int) + t)) =~= h2.skip(pls) + (seq![
                '\n',
            ] + (h.skip(ls as int) + t)));
            assert(up_state(h, t).0 == advance_state(
                h2.take(pls),
                h2.skip(pls) + (seq!['\n'] + (h.skip(ls as int) + t)),
                col as int,
            ).0) by {
                assert(h2.skip(pls) + (seq!['\n'] + (h.skip(ls as int) + t)) =~= h2.skip(pls)
                    + (seq!['\n'] + (h.skip(ls as int) + t)));
            }
        }
    }

    /// Moves the cursor down one line, holding its column and clamping at
    /// the target line's end; on the last line it stays put.
    pub fn cursor_down(&mut self, out: &mut Vec<Command>)
        ensures
            final(self).head_view() == down_state(old(self).head_view(), old(self).tail_view()).0,
            final(self).tail_view() == down_state(old(self).head_view(), old(self).tail_view()).1,
            old(self).same_prompts(*final(self)),
            final(out)@ == old(out)@ + down_cmds(
                old(self).head_view(),
                old(self).tail_view(),
                old(self).begin_view(),
                old(self).again_view(),
            ),
    {
        let ghost h = self.head@;
        let ghost t = self.tail@;
        let ghost base = out@;
        let fnl = self.first_newline_index();
        proof {
            lemma_first_newline_bounds(t);
        }
        if fnl == self.tail.len() {
            proof {
                assert(out@ =~= base + down_cmds(h, t, self.begin@, self.again@));
            }
            return;
        }
        let ls = self.line_start_index();
        proof {
            lemma_line_start_bounds(h);
        }
        let col = self.head.len() - ls;
        self.end(out);
        self.forward_one(out);
        proof {
            assert(t.skip(fnl as int)[0] == t[fnl as int]);
            assert(t[fnl as int] == '\n');
            assert((h + t.take(fnl as int)).push('\n') =~= (h + t.take(fnl as int)).push(
                t.skip(fnl as int)[0],
            ));
            assert(t.skip(fnl as int).drop_first() =~= t.skip(fnl + 1));
        }
        self.advance(col, out);
        proof {
            assert(out@ =~= base + down_cmds(h, t, self.begin@, self.again@));
            assert(down_state(h, t).0 == advance_state(
                (h + t.take(fnl as int)).push('\n'),
                t.skip(fnl as int).drop_first(),
                col as int,
            ).0);
        }
    }
}

/// Both bounds of [`word_run_start`].
pub proof fn lemma_word_run_start_bounds(h: Seq<char>, cls: bool)
    ensures
        0 <= word_run_start(h, cls) <= h.len(),
    decreases h.len(),
{
    if h.len() == 0 || is_word_char(h.last()) != cls {
    } else {
        lemma_word_run_start_bounds(h.drop_last(), cls);
    }
}

/// Both bounds of [`word_run_end`].
pub proof fn lemma_word_run_end_bounds(t: Seq<char>, cls: bool)
    ensures
        0 <= word_run_end(t, cls) <= t.len(),
    decreases t.len(),
{
    if t.len() == 0 || is_word_char(t[0]) != cls {
    } else {
        lemma_word_run_end_bounds(t.drop_first(), cls);
    }
}

/// The word-boundary class of one character.
fn word_char(c: char) -> (r: bool)
    ensures
        r == is_word_char(c),
{
    c.is_alphanumeric() || c == '\n'
}

/// One abstract edit at the cursor, as the buffer sees it.
pub enum EditOp {
    /// Insert one character at the cursor.
    Insert(char),
    /// Erase the character just before the cursor, when there is one.
    EraseBefore,
    /// Erase the character at the cursor, when there is one.
    EraseAfter,
}

/// One edit applied to the dual-buffer model: the pair of runs before and
/// after the cursor.
pub open spec fn apply_split(st: (Seq<char>, Seq<char>), op: EditOp) -> (Seq<char>, Seq<char>) {
    match op {
        EditOp::Insert(c) => (st.0.push(c), st.1),
        EditOp::EraseBefore => if st.0.len() > 0 {
            (st.0.drop_last(), st.1)
        } else {
            st
        },
        EditOp::EraseAfter => if st.1.len() > 0 {
            (st.0, st.1.drop_first())
        } else {
            st
        },
    }
}

/// A whole edit sequence applied to the dual-buffer model.
pub open spec fn apply_split_all(st: (Seq<char>, Seq<char>), ops: Seq<EditOp>) -> (
    Seq<char>,
    Seq<char>,
)
    decreases ops.len(),
{
    if ops.len() == 0 {
        st
    } else {
        apply_split_all(apply_split(st, ops[0]), ops.drop_first())
    }
}

/// One edit applied to the plain model: the whole text with an explicit
/// cursor offset.
pub open spec fn apply_flat(st: (Seq<char>, int), op: EditOp) -> (Seq<char>, int) {
    match op {
        EditOp::Insert(c) => (st.0.take(st.1) + seq![c] + st.0.skip(st.1), st.1 + 1),
        EditOp::EraseBefore => if st.1 > 0 {
            (st.0.take(st.1 - 1) + st.0.skip(st.1), st.1 - 1)
        } else {
            st
        },
        EditOp::EraseAfter => if st.1 < st.0.len() {
            (st.0.take(st.1) + st.0.skip(st.1 + 1), st.1)
        } else {
            st
        },
    }
}

/// A whole edit sequence applied to the plain model.
pub open spec fn apply_flat_all(st: (Seq<char>, int), ops: Seq<EditOp>) -> (Seq<char>, int)
    decreases ops.len(),
{
    if ops.len() == 0 {
        st
    } else {
        apply_flat_all(apply_flat(st, ops[0]), ops.drop_first())
    }
}

/// Law: under any sequence of inserts and erasures, the two cursor-split
/// runs concatenate to exactly the text of the plain model, and the run
/// before the cursor is exactly as long as the cursor offset.  Erasures
/// on an empty side change nothing, so the length of the text is the
/// number of characters ever inserted minus the number the erasures
/// actually removed.
pub proof fn lemma_split_reconstructs_text(h: Seq<char>, t: Seq<char>, ops: Seq<EditOp>)
    ensures
        ({
            let split = apply_split_all((h, t), ops);
            let flat = apply_flat_all((h + t, h.len() as int), ops);
            split.0 + split.1 == flat.0 && split.0.len() == flat.1
        }),
    decreases ops.len(),
{
    if ops.len() == 0 {
    } else {
        let st1 = apply_split((h, t), ops[0]);
        match ops[0] {
            EditOp::Insert(c) => {
                assert(h.push(c) + t =~= (h + t).take(h.len() as int) + seq![c] + (h + t).skip(
                    h.len() as int,
                ));
            },
            EditOp::EraseBefore => {
                if h.len() > 0 {
                    assert(h.drop_last() + t =~= (h + t).take(h.len() - 1) + (h + t).skip(
                        h.len() as int,
                    ));
                }
            },
            EditOp::EraseAfter => {
                if t.len() > 0 {
                    assert(h + t.drop_first() =~= (h + t).take(h.len() as int) + (h + t).skip(h.len() as int + 1));
                }
            },
        }
        lemma_split_reconstructs_text(st1.0, st1.1, ops.drop_first());
    }
}

} // verus!
