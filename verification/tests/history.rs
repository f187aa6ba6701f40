//! Bounded, deduplicating history and edit-preserving recall.

use repline::Repline;

fn session(bytes: &[u8]) -> Repline {
    Repline::with_input(bytes.to_vec(), "\x1b[33m", " >", " ?>")
}

fn submit(rl: &mut Repline, line: &str) {
    let mut bytes = line.as_bytes().to_vec();
    bytes.push(b'\r');
    rl.feed(&mut bytes);
    let mut out = Vec::new();
    rl.read(&mut out).unwrap();
    rl.accept();
}

fn entries(rl: &Repline) -> Vec<String> {
    let mut r = Vec::new();
    let mut i = 0;
    while let Some(e) = rl.history_get(i) {
        r.push(e);
        i += 1;
    }
    r
}

#[test]
fn accepted_lines_are_stored_without_the_newline() {
    let mut rl = session(b"");
    submit(&mut rl, "hello");
    assert_eq!(entries(&rl), vec!["hello"]);
}

#[test]
fn trailing_whitespace_is_trimmed() {
    let mut rl = session(b"");
    submit(&mut rl, "x  \t");
    assert_eq!(entries(&rl), vec!["x"]);
}

#[test]
fn resubmitting_a_line_moves_it_to_most_recent() {
    // "x", then "y", then "x" again: the old "x" goes, the new one is
    // most recent, and the history holds two lines
    let mut rl = session(b"");
    submit(&mut rl, "x");
    submit(&mut rl, "y");
    submit(&mut rl, "x");
    assert_eq!(entries(&rl), vec!["y", "x"]);
    assert_eq!(rl.history_len(), 2);
}

#[test]
fn capacity_evicts_the_oldest_first() {
    let mut rl = session(b"");
    rl.set_history_capacity(3);
    for line in ["a", "b", "c", "d"] {
        submit(&mut rl, line);
    }
    assert_eq!(entries(&rl), vec!["b", "c", "d"]);
}

#[test]
fn denied_lines_are_not_recorded() {
    let mut rl = session(b"no\r");
    let mut out = Vec::new();
    rl.read(&mut out).unwrap();
    rl.deny();
    assert_eq!(rl.history_len(), 0);
    assert_eq!(rl.text(), "");
}

#[test]
fn recall_back_shows_the_most_recent_entry() {
    let mut rl = session(b"");
    submit(&mut rl, "one");
    submit(&mut rl, "two");
    let mut out = Vec::new();
    for c in ['\x1b', '[', 'A'] {
        rl.step(c, &mut out).unwrap();
    }
    assert_eq!(rl.text(), "two");
}

#[test]
fn recall_preserves_edits() {
    // recall the newest entry, edit it, recall further back, then come
    // forward again: the edited version is still there
    let mut rl = session(b"");
    submit(&mut rl, "one");
    submit(&mut rl, "two");
    let mut out = Vec::new();
    for c in ['\x1b', '[', 'A'] {
        rl.step(c, &mut out).unwrap();
    }
    assert_eq!(rl.text(), "two");
    // the cursor sits at the buffer's start; edit the recalled line
    rl.step('X', &mut out).unwrap();
    assert_eq!(rl.text(), "Xtwo");
    // back to the line's start, then recall further back
    for c in ['\x1b', '[', 'H', '\x1b', '[', 'A'] {
        rl.step(c, &mut out).unwrap();
    }
    assert_eq!(rl.text(), "one");
    // to the buffer's end, then recall forward: the edit survived
    for c in ['\x1b', '[', '6', '~', '\x1b', '[', 'B'] {
        rl.step(c, &mut out).unwrap();
    }
    assert_eq!(rl.text(), "Xtwo");
}

#[test]
fn arrows_off_the_preconditions_move_the_cursor_instead() {
    // with the cursor mid-line, the up arrow is line motion, not recall
    let mut rl = session(b"");
    submit(&mut rl, "entry");
    let mut out = Vec::new();
    for c in ['a', 'b'] {
        rl.step(c, &mut out).unwrap();
    }
    // cursor is at the end of "ab", not at the buffer's start: recall
    // must not fire, and with one line there is nowhere to go
    for c in ['\x1b', '[', 'A'] {
        rl.step(c, &mut out).unwrap();
    }
    assert_eq!(rl.text(), "ab");
    assert_eq!(rl.history_len(), 1);
}
