//! The read session: submission, control bytes, escape sequences and
//! indentation.

use repline::editor::Command;
use repline::repline::{Repline, Step};
use repline::{Error, Repline as Rl};

fn session(bytes: &[u8]) -> Repline {
    Rl::with_input(bytes.to_vec(), "\x1b[33m", " >", " ?>")
}

#[test]
fn plain_line_submits_on_carriage_return() {
    let mut rl = session(b"hi\r");
    let mut out = Vec::new();
    assert_eq!(rl.read(&mut out).unwrap(), "hi\n");
}

#[test]
fn line_feed_alone_is_swallowed() {
    let mut rl = session(b"a\nb\r");
    let mut out = Vec::new();
    assert_eq!(rl.read(&mut out).unwrap(), "ab\n");
}

#[test]
fn carriage_return_mid_buffer_breaks_line_without_submitting() {
    // type "abcd", step the cursor back over "cd", and press enter: the
    // newline lands mid-buffer, so nothing is submitted until a later
    // enter at the buffer's very end
    let mut input = Vec::new();
    input.extend_from_slice(b"ab");
    input.extend_from_slice(b"cd");
    input.extend_from_slice(b"\x1b[D\x1b[D");
    input.push(b'\r');
    // jump to the buffer's end, then submit for real
    input.extend_from_slice(b"\x1b[6~");
    input.push(b'\r');
    let mut rl = session(&input);
    let mut out = Vec::new();
    assert_eq!(rl.read(&mut out).unwrap(), "ab\ncd\n");
}

#[test]
fn interrupt_carries_in_progress_text() {
    let mut rl = session(b"abc\x03");
    let mut out = Vec::new();
    match rl.read(&mut out) {
        Err(Error::CtrlC(text)) => assert_eq!(text, "abc"),
        other => panic!("expected an interrupt, got {:?}", other),
    }
}

#[test]
fn end_of_transmission_carries_in_progress_text() {
    let mut rl = session(b"abc\x04");
    let mut out = Vec::new();
    match rl.read(&mut out) {
        Err(Error::CtrlD(text)) => assert_eq!(text, "abc"),
        other => panic!("expected end of transmission, got {:?}", other),
    }
}

#[test]
fn exhausted_input_is_end_of_input() {
    let mut rl = session(b"abc");
    let mut out = Vec::new();
    assert!(matches!(rl.read(&mut out), Err(Error::EndOfInput)));
    assert_eq!(rl.text(), "abc");
}

#[test]
fn malformed_byte_fails_the_read() {
    let mut rl = session(&[0xC3, 0x28]);
    let mut out = Vec::new();
    match rl.read(&mut out) {
        Err(Error::BadUnicode(v)) => assert_eq!(v, 0x03),
        other => panic!("expected a malformed sequence, got {:?}", other),
    }
}

#[test]
fn tab_inserts_four_blanks_and_backspace_removes_them_at_once() {
    let mut rl = session(b"");
    let mut out = Vec::new();
    assert!(matches!(rl.step('\t', &mut out), Ok(Step::Pending)));
    assert_eq!(rl.text(), "    ");
    assert!(matches!(rl.step('\x7f', &mut out), Ok(Step::Pending)));
    assert_eq!(rl.text(), "");
}

#[test]
fn backspace_after_one_blank_removes_one_character() {
    let mut rl = session(b"");
    let mut out = Vec::new();
    let _ = rl.step('a', &mut out);
    let _ = rl.step(' ', &mut out);
    let _ = rl.step('\x7f', &mut out);
    assert_eq!(rl.text(), "a");
}

#[test]
fn erase_word_control_byte() {
    let mut rl = session(b"one two\x17\r");
    let mut out = Vec::new();
    assert_eq!(rl.read(&mut out).unwrap(), "one\n");
}

#[test]
fn escape_then_carriage_return_closes_the_input() {
    let mut rl = session(b"\x1b\r");
    let mut out = Vec::new();
    assert!(matches!(rl.read(&mut out), Err(Error::EndOfInput)));
}

#[test]
fn unrecognized_escape_returns_to_normal() {
    let mut rl = session(b"\x1bqab\r");
    let mut out = Vec::new();
    assert_eq!(rl.read(&mut out).unwrap(), "ab\n");
}

#[test]
fn unrecognized_csi_returns_to_normal() {
    let mut rl = session(b"\x1b[Zab\r");
    let mut out = Vec::new();
    assert_eq!(rl.read(&mut out).unwrap(), "ab\n");
}

#[test]
fn delete_key_erases_forward() {
    // "ab", home, delete, submit at the end
    let mut rl = session(b"ab\x1b[H\x1b[3~\x1b[F\r");
    let mut out = Vec::new();
    assert_eq!(rl.read(&mut out).unwrap(), "b\n");
}

#[test]
fn word_motion_modifier_sequence() {
    let mut rl = session(b"foo, bar");
    let mut out = Vec::new();
    let _ = rl.read(&mut out); // consumes everything; ends with end-of-input
    for c in ['\x1b', '[', '1', ';', '5', 'D'] {
        let _ = rl.step(c, &mut out);
    }
    // the cursor sits immediately before "bar"; inserting here shows it
    let _ = rl.step('X', &mut out);
    assert_eq!(rl.text(), "foo, Xbar");
}

#[test]
fn control_bytes_without_meaning_are_ignored() {
    let mut rl = session(b"a\x01\x02b\r");
    let mut out = Vec::new();
    assert_eq!(rl.read(&mut out).unwrap(), "ab\n");
}
