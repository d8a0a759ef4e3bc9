//! The debug crash command's argument surface. The command itself only
//! asks the build daemon to crash and reports success; the transport
//! lives outside the library.

use vstd::prelude::*;

verus! {

/// The `crash` debug command: no arguments.
#[derive(Debug)]
pub struct CrashCommand {}

impl CrashCommand {
    /// The command's name on the command line.
    pub fn command_name(&self) -> (r: &'static str)
        ensures
            r@ == "crash"@,
    {
        "crash"
    }

    /// The command only talks to an already-running daemon and never
    /// starts one.
    pub fn existing_only() -> (r: bool)
        ensures
            r,
    {
        true
    }
}

} // verus!
