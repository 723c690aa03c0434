//! The debuggers that can watch a live virtual machine.
use vstd::prelude::*;

verus! {

/// A debugger that does nothing with the debugging information and therefore has no
/// performance penalty.
#[derive(Copy, Clone, Debug, PartialEq, Eq, Structural)]
pub struct DefaultDebugger;

impl Default for DefaultDebugger {
    fn default() -> (r: DefaultDebugger)
        ensures
            r == DefaultDebugger,
    {
        DefaultDebugger
    }
}

/// A debugger that logs all instructions, to standard error or to the log.
#[derive(Copy, Clone, Debug, PartialEq, Eq, Structural)]
pub enum LogDebugger {
    /// Write each instruction to standard error.
    Stderr,
    /// Write each instruction to the log, at the info level.
    Log,
}

impl Default for LogDebugger {
    /// Standard error.
    fn default() -> (r: LogDebugger)
        ensures
            r == LogDebugger::Stderr,
    {
        LogDebugger::Stderr
    }
}

} // verus!
