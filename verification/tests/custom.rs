use spore_vm::custom::{check_access, lock_error, CustomValError, LockAttempt};
use spore_vm::debugger::{DefaultDebugger, LogDebugger};
use spore_vm::settings::Settings;

#[test]
fn custom_val_error_messages() {
    assert_eq!(CustomValError::LockPoisoned.message(), "Lock is poisoned");
    assert_eq!(CustomValError::LockNotAvailable.message(), "Lock is not available");
    assert_eq!(
        CustomValError::WrongType { expected: "a::A", actual: "b::B" }.message(),
        "expected type a::A but found type b::B"
    );
}

#[test]
fn lock_attempts_map_to_errors() {
    assert_eq!(lock_error(LockAttempt::Acquired), None);
    assert_eq!(lock_error(LockAttempt::Poisoned), Some(CustomValError::LockPoisoned));
    assert_eq!(lock_error(LockAttempt::WouldBlock), Some(CustomValError::LockNotAvailable));
}

#[test]
fn access_needs_the_lock_then_the_type() {
    assert_eq!(check_access(LockAttempt::Acquired, true, "A", "A"), Ok(()));
    assert_eq!(
        check_access(LockAttempt::Acquired, false, "A", "B"),
        Err(CustomValError::WrongType { expected: "A", actual: "B" })
    );
    assert_eq!(check_access(LockAttempt::WouldBlock, false, "A", "B"), Err(CustomValError::LockNotAvailable));
    assert_eq!(check_access(LockAttempt::Poisoned, true, "A", "A"), Err(CustomValError::LockPoisoned));
}

#[test]
fn defaults() {
    let settings = Settings::default();
    assert!(!settings.enable_aggressive_inline);
    assert!(settings.enable_source_maps);
    assert_eq!(LogDebugger::default(), LogDebugger::Stderr);
    assert_eq!(DefaultDebugger::default(), DefaultDebugger);
}

