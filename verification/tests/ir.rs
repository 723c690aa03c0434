use spore_vm::ast::{AstParseError, Node};
use spore_vm::error::CompileError;
use spore_vm::ir::{Constant, Ir, IrReturnType};
use spore_vm::span::Span;

fn compile(src: &str) -> Result<Vec<Ir<'_>>, CompileError> {
    Ir::new_from_source(src)
}

fn single(src: &str) -> Ir<'_> {
    let mut irs = compile(src).unwrap();
    assert_eq!(irs.len(), 1);
    irs.pop().unwrap()
}

#[test]
fn constants_compile_to_constants() {
    assert!(matches!(single("true"), Ir::Constant(s, Constant::Bool(true)) if s == Span::new(0, 4)));
    assert!(matches!(single("42"), Ir::Constant(_, Constant::Int(42))));
    assert!(matches!(single("void"), Ir::Constant(_, Constant::Void)));
    assert!(matches!(single("1.5"), Ir::Constant(_, Constant::Float(s)) if s == Span::new(0, 3)));
    match single("\"a\\\"b\\nc\"") {
        Ir::Constant(_, Constant::String(s)) => assert_eq!(s.as_str(), "a\"b\nc"),
        other => panic!("unexpected {other:?}"),
    }
}

#[test]
fn identifier_is_dereffed() {
    assert!(matches!(single("my-variable"), Ir::Deref(s, "my-variable") if s == Span::new(0, 11)));
}

#[test]
fn function_call_holds_function_and_args() {
    match single("(+ 1 2)") {
        Ir::FunctionCall { span, function, args } => {
            assert_eq!(span, Span::new(0, 7));
            assert!(matches!(*function, Ir::Deref(_, "+")));
            assert_eq!(args.len(), 2);
            assert!(matches!(args[1], Ir::Constant(_, Constant::Int(2))));
        }
        other => panic!("unexpected {other:?}"),
    }
}

#[test]
fn define_of_value_and_of_function() {
    match single("(define x 10)") {
        Ir::Define { identifier, expr, .. } => {
            assert_eq!(identifier, "x");
            assert!(matches!(*expr, Ir::Constant(_, Constant::Int(10))));
        }
        other => panic!("unexpected {other:?}"),
    }
    match single("(define (add a b) (+ a b))") {
        Ir::Define { span, identifier, expr } => {
            assert_eq!(identifier, "add");
            assert_eq!(span, Span::new(9, 12));
            match *expr {
                Ir::Lambda { span, name, args, expressions } => {
                    assert_eq!(span, Span::new(8, 25));
                    assert_eq!(name, Some("add"));
                    assert_eq!(args, vec!["a", "b"]);
                    assert_eq!(expressions.len(), 1);
                }
                other => panic!("unexpected {other:?}"),
            }
        }
        other => panic!("unexpected {other:?}"),
    }
}

#[test]
fn define_errors() {
    assert!(matches!(compile("(define)"), Err(CompileError::ExpressionHasWrongArgs { expression: "define", expected: 2, actual: 0 })));
    assert!(matches!(compile("(define 1 2)"), Err(CompileError::ExpectedIdentifier)));
    assert!(matches!(
        compile("(define (1 a) a)"),
        Err(CompileError::ExpectedIdentifierList { context: "function definition" })
    ));
}

#[test]
fn if_with_two_or_three_args() {
    match single("(if true 1)") {
        Ir::If { false_expr, .. } => assert!(false_expr.is_none()),
        other => panic!("unexpected {other:?}"),
    }
    match single("(if true 1 2)") {
        Ir::If { false_expr, .. } => assert!(matches!(false_expr.as_deref(), Some(Ir::Constant(_, Constant::Int(2))))),
        other => panic!("unexpected {other:?}"),
    }
    assert!(matches!(compile("(if)"), Err(CompileError::ExpressionHasWrongArgs { expression: "if", expected: 2, actual: 0 })));
    assert!(matches!(compile("(if 1 2 3 4)"), Err(CompileError::ExpressionHasWrongArgs { expression: "if", expected: 3, actual: 4 })));
}

#[test]
fn lambda_and_its_errors() {
    match single("(lambda (x y) x)") {
        Ir::Lambda { name, args, expressions, .. } => {
            assert_eq!(name, None);
            assert_eq!(args, vec!["x", "y"]);
            assert_eq!(expressions.len(), 1);
        }
        other => panic!("unexpected {other:?}"),
    }
    assert!(matches!(compile("(lambda)"), Err(CompileError::ExpressionHasWrongArgs { expression: "lambda", expected: 2, actual: 0 })));
    assert!(matches!(
        compile("(lambda x x)"),
        Err(CompileError::ExpectedIdentifierList { context: "lambda/function definition" })
    ));
    assert!(matches!(
        compile("(lambda (1) 1)"),
        Err(CompileError::ExpectedIdentifierList { context: "lambda/function definition" })
    ));
}

#[test]
fn let_and_its_errors() {
    match single("(let ((x 1) (y 2)) (+ x y))") {
        Ir::Let { bindings, expressions, .. } => {
            assert_eq!(bindings.len(), 2);
            assert_eq!(bindings[0].0, "x");
            assert_eq!(bindings[1].0, "y");
            assert!(matches!(bindings[1].1, Ir::Constant(_, Constant::Int(2))));
            assert_eq!(expressions.len(), 1);
        }
        other => panic!("unexpected {other:?}"),
    }
    assert!(matches!(compile("(let)"), Err(CompileError::ExpressionHasWrongArgs { expression: "let", expected: 1, actual: 0 })));
    assert!(matches!(compile("(let x 1)"), Err(CompileError::BadLetBindings)));
    assert!(matches!(compile("(let ((x)) 1)"), Err(CompileError::BadLetBindings)));
    assert!(matches!(compile("(let ((1 2)) 1)"), Err(CompileError::BadLetBindings)));
}

#[test]
fn or_and_and_expand_to_let_and_if() {
    assert!(matches!(single("(or)"), Ir::Constant(_, Constant::Bool(false))));
    assert!(matches!(single("(and)"), Ir::Constant(_, Constant::Bool(true))));
    assert!(matches!(single("(or 7)"), Ir::Constant(_, Constant::Int(7))));
    match single("(or a b)") {
        Ir::Let { bindings, expressions, .. } => {
            assert_eq!(bindings[0].0, "__or_internal");
            match &expressions[0] {
                Ir::If { predicate, true_expr, false_expr, .. } => {
                    assert!(matches!(**predicate, Ir::Deref(_, "__or_internal")));
                    assert!(matches!(**true_expr, Ir::Deref(_, "__or_internal")));
                    assert!(matches!(false_expr.as_deref(), Some(Ir::Deref(_, "b"))));
                }
                other => panic!("unexpected {other:?}"),
            }
        }
        other => panic!("unexpected {other:?}"),
    }
    match single("(and a b)") {
        Ir::Let { bindings, expressions, .. } => {
            assert_eq!(bindings[0].0, "__and_internal");
            match &expressions[0] {
                Ir::If { predicate, .. } => match &**predicate {
                    Ir::FunctionCall { function, args, .. } => {
                        assert!(matches!(**function, Ir::Deref(_, "not")));
                        assert!(matches!(args[0], Ir::Deref(_, "__and_internal")));
                    }
                    other => panic!("unexpected {other:?}"),
                },
                other => panic!("unexpected {other:?}"),
            }
        }
        other => panic!("unexpected {other:?}"),
    }
}

#[test]
fn return_is_an_early_return() {
    let ir = single("(return 1)");
    assert_eq!(ir.return_type(), IrReturnType::EarlyReturn);
    assert_eq!(single("1").return_type(), IrReturnType::Value);
    assert!(matches!(compile("(return)"), Err(CompileError::ExpressionHasWrongArgs { expression: "return", expected: 1, actual: 0 })));
}

#[test]
fn calling_a_constant_is_an_error() {
    match compile("(1 2)") {
        Err(CompileError::ConstantNotCallable(s)) => assert_eq!(s, "(1 2)"),
        other => panic!("unexpected {other:?}"),
    }
    assert!(matches!(compile("()"), Err(CompileError::EmptyExpression)));
}

#[test]
fn parse_errors_become_compile_errors() {
    assert!(matches!(compile(")"), Err(CompileError::AstError(AstParseError::UnexpectedCloseParen))));
    assert!(matches!(compile("(a"), Err(CompileError::AstError(AstParseError::UnclosedParen))));
}

#[test]
fn ir_new_compiles_a_parsed_node() {
    let src = "(f \"x\")";
    let nodes = Node::parse_to_vec(src).unwrap();
    let ir = Ir::new(src, &nodes[0]).unwrap();
    assert!(matches!(ir, Ir::FunctionCall { .. }));
    let many = Ir::new_many(src, &nodes).unwrap();
    assert_eq!(many.len(), 1);
}
