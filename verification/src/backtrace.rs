//! An error that records where it was raised.
use std::backtrace::Backtrace;
use vstd::prelude::*;
use vstd::std_specs::cmp::PartialEqSpecImpl;

verus! {

#[verifier::external_type_specification]
#[verifier::external_body]
pub struct ExBacktrace(Backtrace);

/// `Backtrace::capture`: whether a trace is recorded depends on the environment, and what it
/// holds on the call stack, so nothing is stated of the result.
#[verifier::external_body]
fn backtrace_capture() -> Backtrace {
    Backtrace::capture()
}

/// Describes a generic error along with its stacktrace.
#[derive(Debug)]
pub struct BacktraceError(Backtrace);

impl BacktraceError {
    /// The recorded backtrace.
    pub closed spec fn trace(&self) -> Backtrace {
        self.0
    }

    /// An error with the backtrace of the caller, when the environment enables backtraces.
    pub fn capture() -> BacktraceError {
        BacktraceError(backtrace_capture())
    }

    /// The recorded backtrace.
    pub fn backtrace(&self) -> (r: &Backtrace)
        ensures
            *r == self.trace(),
    {
        &self.0
    }
}

/// No two backtrace errors are equal, not even an error and itself: backtraces cannot be
/// compared, and tests then accept any of them.
impl PartialEq for BacktraceError {
    fn eq(&self, other: &Self) -> (r: bool) {
        false
    }
}

impl PartialEqSpecImpl for BacktraceError {
    open spec fn obeys_eq_spec() -> bool {
        true
    }

    open spec fn eq_spec(&self, other: &Self) -> bool {
        false
    }
}

} // verus!
