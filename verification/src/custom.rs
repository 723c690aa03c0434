//! Errors of access to custom values, and the decision that produces them.
use vstd::prelude::*;
use vstd::string::StringExecFns;

verus! {

/// Why a custom value could not be accessed.
#[derive(Copy, Clone, Debug, PartialEq, Eq)]
pub enum CustomValError {
    /// The lock is poisoned.
    LockPoisoned,
    /// The lock is held elsewhere.
    LockNotAvailable,
    /// The value holds another type.
    WrongType { expected: &'static str, actual: &'static str },
}

/// The outcome of trying to take the lock of a custom value without blocking.
#[derive(Copy, Clone, Debug, PartialEq, Eq, Structural)]
pub enum LockAttempt {
    /// The lock was taken.
    Acquired,
    /// A holder of the lock panicked.
    Poisoned,
    /// The lock is held elsewhere and taking it would block.
    WouldBlock,
}

impl CustomValError {
    /// The message that describes the error.
    pub fn message(&self) -> (r: String)
        ensures
            r@ == match *self {
                CustomValError::LockPoisoned => "Lock is poisoned"@,
                CustomValError::LockNotAvailable => "Lock is not available"@,
                CustomValError::WrongType { expected, actual } => "expected type "@ + expected@
                    + " but found type "@ + actual@,
            },
    {
        match self {
            CustomValError::LockPoisoned => "Lock is poisoned".to_owned(),
            CustomValError::LockNotAvailable => "Lock is not available".to_owned(),
            CustomValError::WrongType { expected, actual } => {
                let mut s = "expected type ".to_owned();
                s.append(expected);
                s.append(" but found type ");
                s.append(actual);
                s
            },
        }
    }
}

/// The error for a failed lock attempt: `None` when the lock was taken.
pub fn lock_error(attempt: LockAttempt) -> (r: Option<CustomValError>)
    ensures
        r == match attempt {
            LockAttempt::Acquired => None,
            LockAttempt::Poisoned => Some(CustomValError::LockPoisoned),
            LockAttempt::WouldBlock => Some(CustomValError::LockNotAvailable),
        },
{
    match attempt {
        LockAttempt::Acquired => None,
        LockAttempt::Poisoned => Some(CustomValError::LockPoisoned),
        LockAttempt::WouldBlock => Some(CustomValError::LockNotAvailable),
    }
}

/// Decides an access to a custom value: the lock must have been taken, then the value must
/// hold the wanted type. `expected` and `actual` name the wanted type and the held one.
pub fn check_access(
    attempt: LockAttempt,
    same_type: bool,
    expected: &'static str,
    actual: &'static str,
) -> (r: Result<(), CustomValError>)
    ensures
        r == match attempt {
            LockAttempt::Acquired => if same_type {
                Ok(())
            } else {
                Err(CustomValError::WrongType { expected, actual })
            },
            LockAttempt::Poisoned => Err(CustomValError::LockPoisoned),
            LockAttempt::WouldBlock => Err(CustomValError::LockNotAvailable),
        },
{
    match lock_error(attempt) {
        Some(e) => Err(e),
        None => if same_type {
            Ok(())
        } else {
            Err(CustomValError::WrongType { expected, actual })
        },
    }
}

} // verus!
