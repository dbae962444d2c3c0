//! The command line: a mode, and the flag that marks the detached child
//! process. Parsing is done by the program with `clap` on a copy of these
//! types.
use vstd::prelude::*;

verus! {

/// The parsed command line.
#[derive(Debug, Clone, Copy, PartialEq, Eq)]
pub struct Cli {
    pub command: Command,
    /// Set in the child process, so that it does not detach again.
    pub detached: bool,
}

/// The two modes of the program.
#[derive(Debug, Clone, Copy, PartialEq, Eq)]
pub enum Command {
    /// Encode text as QR codes and show them in turn.
    Generate,
    /// Scan a screen region for QR codes and reassemble the text.
    Read,
}

} // verus!
