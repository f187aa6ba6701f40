//! The prepared menu loop.

use repline::{read_and, Error, Response};

#[test]
fn menu_hands_each_submitted_line_to_the_judgement() {
    let mut seen: Vec<String> = Vec::new();
    let mut out = Vec::new();
    let r = read_and(
        b"ab\rcd\rstop\r".to_vec(),
        "\x1b[33m",
        " >",
        " ?>",
        &mut out,
        |line: &str| {
            seen.push(line.to_string());
            if line.starts_with("stop") {
                Ok(Response::Break)
            } else {
                Ok(Response::Accept)
            }
        },
    );
    assert!(r.is_ok());
    assert_eq!(seen, vec!["ab\n", "cd\n", "stop\n"]);
}

#[test]
fn menu_ends_quietly_on_interrupt() {
    let mut out = Vec::new();
    let r = read_and(b"x\r\x03".to_vec(), "", ">", ">", &mut out, |_line: &str| {
        Ok(Response::Accept)
    });
    assert!(r.is_ok());
}

#[test]
fn menu_reports_exhausted_input() {
    let mut out = Vec::new();
    let r = read_and(b"half a line".to_vec(), "", ">", ">", &mut out, |_line: &str| {
        Ok(Response::Continue)
    });
    assert!(matches!(r, Err(Error::EndOfInput)));
}

#[test]
fn judgement_errors_are_written_out() {
    let mut out = Vec::new();
    let r = read_and(b"oops\r".to_vec(), "", ">", ">", &mut out, |_line: &str| {
        Err("no good".to_string())
    });
    // the message was written, and the loop went on to the input's end
    assert!(matches!(r, Err(Error::EndOfInput)));
    let written: Vec<u32> = out
        .iter()
        .filter_map(|c| match c {
            repline::editor::Command::Put(v) => Some(*v),
            _ => None,
        })
        .collect();
    let msg: Vec<u32> = "no good".chars().map(|c| c as u32).collect();
    assert!(written.windows(msg.len()).any(|w| w == &msg[..]));
}
