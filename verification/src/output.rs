//! What goes to the standard output.

use vstd::prelude::*;

verus! {

/// A line with its end.
pub fn say(s: &str) -> (line: String)
    ensures
        line@ == s@ + "\n"@,
{
    let mut line = s.to_owned();
    line.append("\n");
    line
}

/// Why a write to the standard output failed.
#[derive(Debug)]
pub enum WriteError<E> {
    /// The reader has gone.
    BrokenPipe,
    /// Anything else.
    Other(E),
}

/// The outcome of a write to the standard output. A reader that has gone, as `head` does, is no
/// error.
pub fn write_output<E>(written: Result<(), WriteError<E>>) -> (outcome: Result<(), E>)
    ensures
        outcome == match written {
            Ok(_) => Ok(()),
            Err(WriteError::BrokenPipe) => Ok(()),
            Err(WriteError::Other(e)) => Err(e),
        },
{
    match written {
        Ok(_) => Ok(()),
        Err(WriteError::BrokenPipe) => Ok(()),
        Err(WriteError::Other(e)) => Err(e),
    }
}

} // verus!
