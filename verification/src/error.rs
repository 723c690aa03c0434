//! Errors of the virtual machine and of compilation.
use std::sync::Arc;

use compact_str::CompactString;
use vstd::prelude::*;

use crate::ast::AstParseError;
use crate::backtrace::BacktraceError;
use crate::compact::compact_chars;
use crate::custom::CustomValError;
use crate::span::SpanWithSource;

verus! {

/// Describes an error encountered when running the Vm.
#[derive(Debug)]
#[allow(inconsistent_fields)]
pub enum VmError {
    /// A value of the wrong type was given.
    TypeError {
        src: Option<SpanWithSource<Arc<str>>>,
        context: &'static str,
        expected: &'static str,
        actual: &'static str,
        value: String,
    },
    /// A function was called with the wrong number of arguments.
    ArityError { function: CompactString, expected: usize, actual: usize },
    /// The source could not be compiled.
    CompileError(CompileError),
    /// The machine reached a state that it should never reach.
    InvalidVmState(BacktraceError),
    /// A symbol was dereferenced before it was defined.
    SymbolNotDefined { src: Option<SpanWithSource<Arc<str>>>, symbol: String },
    /// The call stack grew beyond its limit.
    MaximumFunctionCallDepth { max_depth: usize, call_stack: Vec<CompactString> },
    /// A custom value could not be accessed.
    CustomValError(CustomValError),
    /// An error raised by user code.
    CustomError(String),
}

/// `e` with the source context `src`: the errors that point into the source now point at `src`;
/// every other error is unchanged.
pub open spec fn spec_with_src(e: VmError, src: SpanWithSource<Arc<str>>) -> VmError {
    match e {
        VmError::TypeError { src: _, context, expected, actual, value } => VmError::TypeError {
            src: Some(src),
            context,
            expected,
            actual,
            value,
        },
        VmError::SymbolNotDefined { src: _, symbol } => VmError::SymbolNotDefined {
            src: Some(src),
            symbol,
        },
        other => other,
    }
}

impl VmError {
    /// Return the error with the given source context added.
    pub fn with_src(self, src: SpanWithSource<Arc<str>>) -> (r: VmError)
        ensures
            r == spec_with_src(self, src),
    {
        match self {
            VmError::TypeError { src: _src, context, expected, actual, value } => VmError::TypeError {
                src: Some(src),
                context,
                expected,
                actual,
                value,
            },
            VmError::ArityError { function, expected, actual } => VmError::ArityError {
                function,
                expected,
                actual,
            },
            VmError::CompileError(e) => VmError::CompileError(e),
            VmError::InvalidVmState(e) => VmError::InvalidVmState(e),
            VmError::SymbolNotDefined { symbol, .. } => VmError::SymbolNotDefined {
                src: Some(src),
                symbol,
            },
            VmError::MaximumFunctionCallDepth { max_depth, call_stack } =>
                VmError::MaximumFunctionCallDepth { max_depth, call_stack },
            VmError::CustomValError(e) => VmError::CustomValError(e),
            VmError::CustomError(e) => VmError::CustomError(e),
        }
    }
}

/// Adding a source context twice keeps only the second: the first is overwritten.
pub proof fn lemma_with_src_last_wins(
    e: VmError,
    first: SpanWithSource<Arc<str>>,
    second: SpanWithSource<Arc<str>>,
)
    ensures
        spec_with_src(spec_with_src(e, first), second) == spec_with_src(e, second),
{
}

/// Adding a source context changes only where an error points: its kind is kept.
pub proof fn lemma_with_src_keeps_kind(e: VmError, src: SpanWithSource<Arc<str>>)
    ensures
        spec_with_src(e, src) is TypeError <==> e is TypeError,
        spec_with_src(e, src) is SymbolNotDefined <==> e is SymbolNotDefined,
        !(e is TypeError) && !(e is SymbolNotDefined) ==> spec_with_src(e, src) == e,
{
}

/// Describes an error during compilation to Spore bytecode.
#[derive(Debug, PartialEq)]
pub enum CompileError {
    /// A syntax error.
    AstError(AstParseError),
    /// Found an unexpected empty expression.
    EmptyExpression,
    /// A constant, whose text is held, was called as a function.
    ConstantNotCallable(String),
    /// An expression had the wrong number of arguments.
    ExpressionHasWrongArgs { expression: &'static str, expected: usize, actual: usize },
    /// Expected an identifier.
    ExpectedIdentifier,
    /// A sub-expression is not a valid expression.
    ExpectedExpression { context: &'static str },
    /// `define` is only allowed at the top level.
    DefineNotAllowed,
    /// Expected an identifier list.
    ExpectedIdentifierList { context: &'static str },
    /// A `let` does not have the form `(let ([binding-a expr-a] ..) exprs..)`.
    BadLetBindings,
    /// An argument was defined multiple times.
    ArgumentDefinedMultipleTimes(CompactString),
}

/// The mathematical value of a [`CompileError`]: its texts as character sequences.
pub enum SpecCompileError {
    AstError(AstParseError),
    EmptyExpression,
    ConstantNotCallable(Seq<char>),
    ExpressionHasWrongArgs { expression: Seq<char>, expected: usize, actual: usize },
    ExpectedIdentifier,
    ExpectedExpression { context: Seq<char> },
    DefineNotAllowed,
    ExpectedIdentifierList { context: Seq<char> },
    BadLetBindings,
    ArgumentDefinedMultipleTimes(Seq<char>),
}

impl CompileError {
    pub open spec fn spec_view(self) -> SpecCompileError {
        match self {
            CompileError::AstError(e) => SpecCompileError::AstError(e),
            CompileError::EmptyExpression => SpecCompileError::EmptyExpression,
            CompileError::ConstantNotCallable(s) => SpecCompileError::ConstantNotCallable(s@),
            CompileError::ExpressionHasWrongArgs { expression, expected, actual } =>
                SpecCompileError::ExpressionHasWrongArgs {
                expression: expression@,
                expected,
                actual,
            },
            CompileError::ExpectedIdentifier => SpecCompileError::ExpectedIdentifier,
            CompileError::ExpectedExpression { context } => SpecCompileError::ExpectedExpression {
                context: context@,
            },
            CompileError::DefineNotAllowed => SpecCompileError::DefineNotAllowed,
            CompileError::ExpectedIdentifierList { context } =>
                SpecCompileError::ExpectedIdentifierList { context: context@ },
            CompileError::BadLetBindings => SpecCompileError::BadLetBindings,
            CompileError::ArgumentDefinedMultipleTimes(s) =>
                SpecCompileError::ArgumentDefinedMultipleTimes(compact_chars(s)),
        }
    }
}

} // verus!
