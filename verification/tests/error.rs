use std::sync::Arc;

use spore_vm::ast::AstParseError;
use spore_vm::backtrace::BacktraceError;
use spore_vm::custom::CustomValError;
use spore_vm::error::{CompileError, VmError};
use spore_vm::span::Span;

#[test]
fn backtraces_are_all_eq() {
    // Backtraces are abstract so we assume (mostly for tests sake) that they are not
    // equivalent.
    assert_ne!(BacktraceError::capture(), BacktraceError::capture());
}

#[test]
fn backtrace_error_is_not_equal_to_itself() {
    let e = BacktraceError::capture();
    assert!(e != e);
    let _ = format!("{:?}", e.backtrace());
}

fn type_error(src: Option<spore_vm::span::SpanWithSource<Arc<str>>>) -> VmError {
    VmError::TypeError {
        src,
        context: "+",
        expected: "int",
        actual: "string",
        value: "\"string\"".to_string(),
    }
}

#[test]
fn with_src_sets_source_of_type_error() {
    let src: Arc<str> = "(+ 1 \"string\")".into();
    let err = type_error(None).with_src(Span::new(0, 14).with_src(src.clone()));
    match err {
        VmError::TypeError { src: Some(s), context, value, .. } => {
            assert_eq!(s.span, Span::new(0, 14));
            assert_eq!(&*s.src, "(+ 1 \"string\")");
            assert_eq!(context, "+");
            assert_eq!(value, "\"string\"");
        }
        other => panic!("unexpected {other:?}"),
    }
}

#[test]
fn with_src_twice_keeps_the_last_source() {
    let src: Arc<str> = "(a b)".into();
    let err = type_error(None)
        .with_src(Span::new(0, 1).with_src(src.clone()))
        .with_src(Span::new(1, 4).with_src(src.clone()));
    match err {
        VmError::TypeError { src: Some(s), .. } => assert_eq!(s.span, Span::new(1, 4)),
        other => panic!("unexpected {other:?}"),
    }
}

#[test]
fn with_src_sets_source_of_undefined_symbol() {
    let src: Arc<str> = "x".into();
    let err = VmError::SymbolNotDefined { src: None, symbol: "x".to_string() }
        .with_src(Span::new(0, 1).with_src(src));
    match err {
        VmError::SymbolNotDefined { src: Some(s), symbol } => {
            assert_eq!(s.span, Span::new(0, 1));
            assert_eq!(symbol, "x");
        }
        other => panic!("unexpected {other:?}"),
    }
}

#[test]
fn with_src_leaves_other_errors_alone() {
    let src: Arc<str> = "x".into();
    let span = Span::new(0, 1);
    match VmError::CustomError("boom".to_string()).with_src(span.with_src(src.clone())) {
        VmError::CustomError(s) => assert_eq!(s, "boom"),
        other => panic!("unexpected {other:?}"),
    }
    match VmError::CompileError(CompileError::EmptyExpression).with_src(span.with_src(src.clone())) {
        VmError::CompileError(CompileError::EmptyExpression) => {}
        other => panic!("unexpected {other:?}"),
    }
    match VmError::CustomValError(CustomValError::LockPoisoned).with_src(span.with_src(src)) {
        VmError::CustomValError(CustomValError::LockPoisoned) => {}
        other => panic!("unexpected {other:?}"),
    }
}

#[test]
fn error_hacks_for_code_coverage() {
    // A collection of functions that are not worth testing.
    assert!(matches!(VmError::CustomError("".to_string()), VmError::CustomError(_)));
    assert_ne!(AstParseError::UnclosedParen.message(), "");
    assert_ne!(format!("{:?}", CompileError::EmptyExpression), "");
    assert_ne!(BacktraceError::capture().backtrace().to_string(), "");
    assert_ne!(format!("{:?}", BacktraceError::capture()), "");
}
