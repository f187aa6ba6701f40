//! A menu loop prepared earlier: reads lines and obeys a caller-supplied
//! judgement on each.

use crate::editor::Command;
use crate::error::Error;
use crate::repline::Repline;
use vstd::prelude::*;

verus! {

/// Control codes for the menu loop of [`read_and`].
#[derive(Clone, Copy, Debug, PartialEq, Eq, Hash, Structural)]
pub enum Response {
    /// Accept the line, and save it to history.
    Accept,
    /// Reject the line, and clear the buffer.
    Deny,
    /// End the loop.
    Break,
    /// Gather more input and try again.
    Continue,
}

/// Writes a short message at the cursor.
fn put_message(msg: &str, out: &mut Vec<Command>) {
    let n = msg.unicode_len();
    let mut i: usize = 0;
    while i < n
        invariant
            n == msg@.len(),
            i <= n,
        decreases n - i,
    {
        out.push(Command::Put(msg.get_char(i) as u32));
        i = i + 1;
    }
}

/// A basic menu loop over an embedded [`Repline`] reading the given raw
/// bytes: each line read is handed to the caller's judgement `f`, and the
/// loop accepts, rejects, stops or keeps gathering as `f` answers.  An
/// interrupt ends the loop quietly; an end-of-transmission rejects the
/// line but still consults `f` with the old text; a message returned as
/// `f`'s error is written to the output.  The loop itself only ends with
/// the end of the input or a malformed byte sequence.
pub fn read_and<F: FnMut(&str) -> Result<Response, String>>(
    input: Vec<u8>,
    color: &str,
    begin: &str,
    again: &str,
    out: &mut Vec<Command>,
    f: F,
) -> (r: Result<(), Error>)
    requires
        forall|s: &str| #[trigger] call_requires(f, (s,)),
    ensures
        r matches Err(e) ==> (e is BadUnicode || e is EndOfInput || e is IoFailure),
{
    let mut f = f;
    let mut rl = Repline::with_input(input, color, begin, again);
    loop
        invariant
            rl.wf(),
            forall|s: &str| #[trigger] call_requires(f, (s,)),
        decreases rl.input_view().len(),
    {
        let line = match rl.read(out) {
            Err(Error::CtrlC(_)) => {
                return Ok(());
            },
            Err(Error::CtrlD(line)) => {
                rl.deny();
                line
            },
            Ok(line) => line,
            Err(e) => {
                return Err(e);
            },
        };
        out.push(Command::Column(0));
        out.push(Command::ClearDown);
        match f(line.as_str()) {
            Ok(Response::Accept) => {
                rl.accept();
            },
            Ok(Response::Deny) => {
                rl.deny();
            },
            Ok(Response::Break) => {
                return Ok(());
            },
            Ok(Response::Continue) => {},
            Err(msg) => {
                put_message(msg.as_str(), out);
            },
        }
    }
}

} // verus!
