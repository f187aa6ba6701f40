//! The dual-buffer editor: insertion, erasure, motion and redraw
//! commands.

use repline::editor::{Command, Editor};

fn editor() -> Editor {
    Editor::new("\x1b[33m", " >", " ?>")
}

#[test]
fn push_and_text() {
    let mut ed = editor();
    let mut out = Vec::new();
    ed.push('h', &mut out);
    ed.push('i', &mut out);
    assert_eq!(ed.to_text(), "hi");
    assert_eq!(ed.len(), 2);
    assert!(!ed.is_empty());
}

#[test]
fn push_at_end_emits_one_put() {
    let mut ed = editor();
    let mut out = Vec::new();
    ed.push('a', &mut out);
    assert_eq!(out, vec![Command::Put('a' as u32)]);
}

#[test]
fn push_before_tail_rewrites_rest_of_row() {
    let mut ed = editor();
    let mut out = Vec::new();
    ed.push('b', &mut out);
    ed.cursor_back(1, &mut out);
    out.clear();
    ed.push('a', &mut out);
    assert_eq!(ed.to_text(), "ab");
    assert_eq!(
        out,
        vec![
            Command::Put('a' as u32),
            Command::Save,
            Command::ClearLine,
            Command::Put('b' as u32),
            Command::Restore,
        ]
    );
}

#[test]
fn pop_returns_erased_character() {
    let mut ed = editor();
    let mut out = Vec::new();
    ed.push('a', &mut out);
    ed.push('b', &mut out);
    assert_eq!(ed.pop(&mut out), Some('b'));
    assert_eq!(ed.to_text(), "a");
    assert_eq!(ed.pop(&mut out), Some('a'));
    assert_eq!(ed.pop(&mut out), None);
    assert!(ed.is_empty());
}

#[test]
fn insert_then_erase_restores_length() {
    // any run of inserts and erasures leaves exactly the characters that
    // were inserted and not erased, head and tail concatenated in order
    let mut ed = editor();
    let mut out = Vec::new();
    for c in "abcd".chars() {
        ed.push(c, &mut out);
    }
    ed.cursor_back(2, &mut out);
    let _ = ed.pop(&mut out);
    let _ = ed.delete(&mut out);
    assert_eq!(ed.to_text(), "ad");
    assert_eq!(ed.len(), 2);
    assert_eq!(ed.head_len(), 1);
    assert_eq!(ed.tail_len(), 1);
}

#[test]
fn delete_on_empty_tail_reports_end_of_input() {
    let mut ed = editor();
    let mut out = Vec::new();
    ed.push('a', &mut out);
    assert!(matches!(ed.delete(&mut out), Err(repline::Error::EndOfInput)));
}

#[test]
fn home_and_end_stay_within_the_line() {
    let mut ed = editor();
    let mut out = Vec::new();
    for c in "ab\ncd".chars() {
        ed.push(c, &mut out);
    }
    ed.home(&mut out);
    assert_eq!(ed.head_len(), 3); // after "ab\n"
    ed.end(&mut out);
    assert_eq!(ed.head_len(), 5);
    ed.buffer_start(&mut out);
    assert_eq!(ed.head_len(), 0);
    ed.buffer_end(&mut out);
    assert_eq!(ed.tail_len(), 0);
}

#[test]
fn word_back_lands_before_trailing_word() {
    // with the cursor at the end of "foo, bar", one word-back step lands
    // immediately before "bar": the comma and the blank belong to the
    // other boundary class
    let mut ed = editor();
    let mut out = Vec::new();
    for c in "foo, bar".chars() {
        ed.push(c, &mut out);
    }
    ed.word_back(&mut out);
    assert_eq!(ed.head_len(), 5);
    assert_eq!(ed.tail_len(), 3);
}

#[test]
fn word_back_from_separator_stops_after_word() {
    let mut ed = editor();
    let mut out = Vec::new();
    for c in "foo, ".chars() {
        ed.push(c, &mut out);
    }
    ed.word_back(&mut out);
    assert_eq!(ed.head_len(), 3); // "foo" kept; ", " crossed
}

#[test]
fn word_forward_crosses_leading_run() {
    let mut ed = editor();
    let mut out = Vec::new();
    for c in "foo, bar".chars() {
        ed.push(c, &mut out);
    }
    ed.buffer_start(&mut out);
    ed.word_forward(&mut out);
    assert_eq!(ed.head_len(), 3);
}

#[test]
fn erase_word_takes_word_and_one_blank() {
    let mut ed = editor();
    let mut out = Vec::new();
    for c in "one two".chars() {
        ed.push(c, &mut out);
    }
    ed.erase_word(&mut out);
    assert_eq!(ed.to_text(), "one");
}

#[test]
fn cursor_up_holds_column_and_clamps() {
    let mut ed = editor();
    let mut out = Vec::new();
    for c in "ab\nwxyz".chars() {
        ed.push(c, &mut out);
    }
    // column 4 on the second row; the first row is shorter, so the
    // cursor clamps to its end
    ed.cursor_up(&mut out);
    assert_eq!(ed.head_len(), 2); // after "ab"
    ed.cursor_down(&mut out);
    assert_eq!(ed.head_len(), 5); // re-advanced two columns into "wxyz"
}

#[test]
fn ends_with_looks_before_the_cursor() {
    let mut ed = editor();
    let mut out = Vec::new();
    for c in "    ".chars() {
        ed.push(c, &mut out);
    }
    assert!(ed.ends_with("    "));
    assert!(ed.ends_with(""));
    assert!(!ed.ends_with("x   "));
}

#[test]
fn restore_places_cursor_at_end() {
    let mut ed = editor();
    ed.restore("two\nlines");
    assert_eq!(ed.to_text(), "two\nlines");
    assert_eq!(ed.tail_len(), 0);
    ed.clear();
    assert!(ed.is_empty());
}

#[test]
fn newline_redraw_uses_continuation_prompt() {
    let mut ed = editor();
    let mut out = Vec::new();
    ed.push('\n', &mut out);
    // a newline at the buffer's end opens a prompted row: the row break,
    // the cursor at column zero, and the continuation prompt
    assert_eq!(
        out,
        vec![
            Command::Newline,
            Command::Column(0),
            Command::Color,
            Command::Put(' ' as u32),
            Command::Put('?' as u32),
            Command::Put('>' as u32),
            Command::Uncolor,
            Command::Put(' ' as u32),
        ]
    );
}

#[test]
fn pop_across_newline_moves_up_and_redraws() {
    let mut ed = editor();
    let mut out = Vec::new();
    ed.push('a', &mut out);
    ed.push('\n', &mut out);
    out.clear();
    assert_eq!(ed.pop(&mut out), Some('\n'));
    // up over the one drawn newline, wipe, then a full redraw of "a"
    assert_eq!(
        out,
        vec![
            Command::Up(1),
            Command::Column(0),
            Command::ClearDown,
            Command::Color,
            Command::Put(' ' as u32),
            Command::Put('>' as u32),
            Command::Uncolor,
            Command::Put(' ' as u32),
            Command::Put('a' as u32),
            Command::Save,
            Command::Restore,
        ]
    );
}

#[test]
fn print_head_keeps_the_opening_prompt_on_the_first_line() {
    // the cursor is still on the very first line, so the row keeps the
    // opening prompt even though text already stands before the cursor
    let mut ed = editor();
    let mut out = Vec::new();
    ed.restore("hi");
    ed.print_head(&mut out);
    assert_eq!(
        out,
        vec![
            Command::Column(0),
            Command::Color,
            Command::Put(' ' as u32),
            Command::Put('>' as u32),
            Command::Uncolor,
            Command::Put(' ' as u32),
            Command::Put('h' as u32),
            Command::Put('i' as u32),
        ]
    );
}

#[test]
fn print_head_uses_the_continuation_prompt_past_a_newline() {
    let mut ed = editor();
    let mut out = Vec::new();
    ed.restore("a
b");
    ed.print_head(&mut out);
    assert_eq!(
        out,
        vec![
            Command::Column(0),
            Command::Color,
            Command::Put(' ' as u32),
            Command::Put('?' as u32),
            Command::Put('>' as u32),
            Command::Uncolor,
            Command::Put(' ' as u32),
            Command::Put('b' as u32),
        ]
    );
}
