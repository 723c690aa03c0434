use compact_str::CompactString;
use spore_vm::ast::AstParseError;
use spore_vm::bytecode::{ByteCode, Const, GlobalVal, Instruction};
use spore_vm::compiler::Compiler;
use spore_vm::error::CompileError;
use spore_vm::settings::Settings;
use spore_vm::span::Span;

const ADD: u32 = 0;

fn compile(src: &str) -> Result<ByteCode<'_>, CompileError> {
    assert!(Compiler::source_fits(src));
    Compiler::compile(src, Settings::default(), &[])
}

fn compile_inlined<'a>(
    src: &'a str,
    globals: &'a [(&'a str, GlobalVal)],
) -> Result<ByteCode<'a>, CompileError> {
    let settings = Settings {
        enable_aggressive_inline: true,
        enable_source_maps: false,
    };
    assert!(Compiler::source_fits(src));
    Compiler::compile(src, settings, globals)
}

fn push_int(x: i64) -> Instruction<'static> {
    Instruction::PushConst(Const::Int(x))
}

fn span(start: u32, end: u32) -> Span {
    Span { start, end }
}

fn module<'a>(src: &'a str, instructions: Vec<Instruction<'a>>, spans: Vec<Span>) -> ByteCode<'a> {
    ByteCode {
        name: "",
        arg_count: 0,
        local_bindings: 0,
        instructions,
        source: Some(src),
        instruction_source: spans,
    }
}

fn function<'a>(instr: &'a Instruction<'a>) -> &'a ByteCode<'a> {
    match instr {
        Instruction::PushConst(Const::Function(b)) => b,
        other => panic!("expected a function, found {:?}", other),
    }
}

#[test]
fn mod_empty_expression_is_empty() {
    assert_eq!(compile("").unwrap(), module("", vec![], vec![]));
}

#[test]
fn mod_ast_error_is_returned() {
    assert_eq!(
        compile(")").unwrap_err(),
        CompileError::AstError(AstParseError::UnexpectedCloseParen)
    );
}

#[test]
fn mod_literal_value_produces_single_push_const() {
    assert_eq!(
        compile("true").unwrap(),
        module("true", vec![Instruction::PushConst(Const::Bool(true))], vec![Span::new(0, 4)])
    );
    assert_eq!(compile("1").unwrap(), module("1", vec![push_int(1)], vec![Span::new(0, 1)]));
    assert_eq!(
        compile("1.0").unwrap(),
        module(
            "1.0",
            vec![Instruction::PushConst(Const::Float(Span::new(0, 3)))],
            vec![Span::new(0, 3)]
        )
    );
    assert_eq!(
        compile("\"string\"").unwrap(),
        module(
            "\"string\"",
            vec![Instruction::PushConst(Const::String(CompactString::new("string")))],
            vec![Span::new(0, 8)]
        )
    );
}

#[test]
fn mod_single_identifier_is_dereffed() {
    assert_eq!(
        compile("my-variable").unwrap(),
        module("my-variable", vec![Instruction::Deref("my-variable")], vec![Span::new(0, 11)])
    );
}

#[test]
fn mod_single_identifier_with_aggressive_inline_is_push_const() {
    let globals = [("+", GlobalVal::NativeFunction(ADD))];
    assert_eq!(
        compile_inlined("+", &globals).unwrap(),
        ByteCode {
            name: "",
            arg_count: 0,
            local_bindings: 0,
            instructions: vec![Instruction::PushConst(Const::Global(GlobalVal::NativeFunction(
                ADD
            )))],
            source: None,
            instruction_source: vec![Span::new(0, 1)],
        }
    );
}

#[test]
fn mod_aggressive_inline_with_builtin_function_inlines_function_value() {
    let globals = [("+", GlobalVal::NativeFunction(ADD))];
    assert_eq!(
        compile_inlined("(+ 1 2)", &globals).unwrap(),
        ByteCode {
            name: "",
            arg_count: 0,
            local_bindings: 0,
            instructions: vec![
                push_int(1),
                push_int(2),
                Instruction::EvalNative {
                    func: ADD,
                    arg_count: 2
                },
            ],
            source: None,
            instruction_source: vec![span(3, 4), span(5, 6), span(0, 7)],
        }
    );
}

#[test]
fn mod_aggressive_inline_with_nonexistant_function_falls_back_to_deref() {
    let globals = [("+", GlobalVal::NativeFunction(ADD))];
    assert_eq!(
        compile_inlined("(does-not-exist 1 2)", &globals).unwrap(),
        ByteCode {
            name: "",
            arg_count: 0,
            local_bindings: 0,
            instructions: vec![
                Instruction::Deref("does-not-exist"),
                push_int(1),
                push_int(2),
                Instruction::Eval(3),
            ],
            source: None,
            instruction_source: vec![span(1, 15), span(16, 17), span(18, 19), span(0, 20)],
        }
    );
    assert_eq!(
        compile_inlined("((get-fn) 1 2)", &globals).unwrap(),
        ByteCode {
            name: "",
            arg_count: 0,
            local_bindings: 0,
            instructions: vec![
                Instruction::Deref("get-fn"),
                Instruction::Eval(1),
                push_int(1),
                push_int(2),
                Instruction::Eval(3),
            ],
            source: None,
            instruction_source: vec![span(2, 8), span(1, 9), span(10, 11), span(12, 13), span(0, 14)],
        }
    );
}

#[test]
fn inlined_value_global_is_pushed_and_called_with_eval() {
    let globals = [("x", GlobalVal::Value(7)), ("f", GlobalVal::Value(9))];
    assert_eq!(
        compile_inlined("(f x)", &globals).unwrap(),
        ByteCode {
            name: "",
            arg_count: 0,
            local_bindings: 0,
            instructions: vec![
                Instruction::PushConst(Const::Global(GlobalVal::Value(9))),
                Instruction::PushConst(Const::Global(GlobalVal::Value(7))),
                Instruction::Eval(2),
            ],
            source: None,
            instruction_source: vec![span(1, 2), span(3, 4), span(0, 5)],
        }
    );
}

#[test]
fn mod_function_call_with_no_args_evalutes_function() {
    assert_eq!(
        compile("(+)").unwrap(),
        module("(+)", vec![Instruction::Deref("+"), Instruction::Eval(1)], vec![span(1, 2), span(0, 3)])
    );
}

#[test]
fn mod_function_call_args_evalutes_function_on_args() {
    assert_eq!(
        compile("(+ 1 2)").unwrap(),
        module(
            "(+ 1 2)",
            vec![Instruction::Deref("+"), push_int(1), push_int(2), Instruction::Eval(3)],
            vec![span(1, 2), span(3, 4), span(5, 6), span(0, 7)]
        )
    );
}

#[test]
fn mod_multiple_expressions_are_evaluated_in_order() {
    let src = "(+ 1 2) (+ 3 4)";
    assert_eq!(
        compile(src).unwrap(),
        module(
            src,
            vec![
                Instruction::Deref("+"),
                push_int(1),
                push_int(2),
                Instruction::Eval(3),
                Instruction::Deref("+"),
                push_int(3),
                push_int(4),
                Instruction::Eval(3),
            ],
            vec![
                span(1, 2),
                span(3, 4),
                span(5, 6),
                span(0, 7),
                span(9, 10),
                span(11, 12),
                span(13, 14),
                span(8, 15)
            ]
        )
    );
}

#[test]
fn mod_nested_expressions_are_evaluated() {
    let src = "(+ 1 2 (+ 3 4))";
    assert_eq!(
        compile(src).unwrap(),
        module(
            src,
            vec![
                Instruction::Deref("+"),
                push_int(1),
                push_int(2),
                Instruction::Deref("+"),
                push_int(3),
                push_int(4),
                Instruction::Eval(3),
                Instruction::Eval(4),
            ],
            vec![
                span(1, 2),
                span(3, 4),
                span(5, 6),
                span(8, 9),
                span(10, 11),
                span(12, 13),
                span(7, 14),
                span(0, 15)
            ]
        )
    );
}

#[test]
fn mod_define_in_function_args_produces_error() {
    assert_eq!(compile("(+ 1 (define x 12))").unwrap_err(), CompileError::DefineNotAllowed);
}

#[test]
fn mod_define_in_function_call_produces_error() {
    assert_eq!(compile("((define x 12))").unwrap_err(), CompileError::DefineNotAllowed);
}

#[test]
fn mod_define_defines_a_new_value() {
    assert_eq!(
        compile("(define x 12)").unwrap(),
        module(
            "(define x 12)",
            vec![push_int(12), Instruction::Define("x")],
            vec![span(10, 12), span(0, 13)]
        )
    );
}

#[test]
fn mod_define_with_list_identifier_produces_lambda() {
    let src = "(define (foo a b) (+ a b))";
    let actual = compile(src).unwrap();
    let inner = ByteCode {
        name: "foo",
        arg_count: 2,
        local_bindings: 0,
        instructions: vec![
            Instruction::Deref("+"),
            Instruction::GetArg(0),
            Instruction::GetArg(1),
            Instruction::Eval(3),
        ],
        source: Some(src),
        instruction_source: vec![span(19, 20), span(21, 22), span(23, 24), span(18, 25)],
    };
    assert_eq!(
        actual,
        module(
            src,
            vec![
                Instruction::PushConst(Const::Function(Box::new(inner))),
                Instruction::Define("foo"),
            ],
            vec![span(8, 25), span(9, 12)]
        ),
        "Inner bytecode is: {:?}",
        function(&actual.instructions[0])
    );
}

#[test]
fn mod_define_with_subexpression_evaluates_subexpr() {
    assert_eq!(
        compile("(define x (+ 1 2))").unwrap(),
        module(
            "(define x (+ 1 2))",
            vec![
                Instruction::Deref("+"),
                push_int(1),
                push_int(2),
                Instruction::Eval(3),
                Instruction::Define("x"),
            ],
            vec![span(11, 12), span(13, 14), span(15, 16), span(10, 17), span(0, 18)]
        )
    );
}

#[test]
fn mod_define_in_define_expr_produces_error() {
    assert_eq!(compile("(define y (define x 12))").unwrap_err(), CompileError::DefineNotAllowed);
}

#[test]
fn mod_if_expression_produces_branching_instructions() {
    let src = "(if (< 1 2) (+ 3 4 5) (+ 6 7 8 9))";
    assert_eq!(
        compile(src).unwrap(),
        module(
            src,
            vec![
                Instruction::Deref("<"),
                push_int(1),
                push_int(2),
                Instruction::Eval(3),
                Instruction::JumpIf(7),
                Instruction::Deref("+"),
                push_int(6),
                push_int(7),
                push_int(8),
                push_int(9),
                Instruction::Eval(5),
                Instruction::Jump(5),
                Instruction::Deref("+"),
                push_int(3),
                push_int(4),
                push_int(5),
                Instruction::Eval(4),
            ],
            vec![
                span(5, 6),
                span(7, 8),
                span(9, 10),
                span(4, 11),
                span(0, 34),
                span(23, 24),
                span(25, 26),
                span(27, 28),
                span(29, 30),
                span(31, 32),
                span(22, 33),
                span(0, 34),
                span(13, 14),
                span(15, 16),
                span(17, 18),
                span(19, 20),
                span(12, 21)
            ]
        )
    );
}

#[test]
fn mod_if_expression_with_empty_false_branch_defaults_to_void() {
    let src = "(if (< 1 2) (+ 4 5 6))";
    assert_eq!(
        compile(src).unwrap(),
        module(
            src,
            vec![
                Instruction::Deref("<"),
                push_int(1),
                push_int(2),
                Instruction::Eval(3),
                Instruction::JumpIf(2),
                Instruction::PushConst(Const::Void),
                Instruction::Jump(5),
                Instruction::Deref("+"),
                push_int(4),
                push_int(5),
                push_int(6),
                Instruction::Eval(4)
            ],
            vec![
                span(5, 6),
                span(7, 8),
                span(9, 10),
                span(4, 11),
                span(0, 22),
                span(0, 0),
                span(0, 22),
                span(13, 14),
                span(15, 16),
                span(17, 18),
                span(19, 20),
                span(12, 21)
            ]
        )
    );
}

#[test]
fn mod_if_expression_allows_early_return_on_branches() {
    let src = "(if true (return 1) (return 2))";
    assert_eq!(
        compile(src).unwrap(),
        module(
            src,
            vec![
                Instruction::PushConst(Const::Bool(true)),
                Instruction::JumpIf(3),
                push_int(2),
                Instruction::Return,
                Instruction::Jump(2),
                push_int(1),
                Instruction::Return
            ],
            vec![
                span(4, 8),
                span(0, 31),
                span(28, 29),
                span(0, 0),
                span(0, 31),
                span(17, 18),
                span(0, 0)
            ]
        )
    );
}

#[test]
fn mod_early_return_on_predicate_produces_error() {
    assert_eq!(
        compile("(if (return 10) 1 2)").unwrap_err(),
        CompileError::ExpectedExpression {
            context: "if predicate"
        },
    );
}

#[test]
fn mod_if_expression_with_non_expression_produces_error() {
    assert_eq!(compile("(if (define x 1) 1 2)").unwrap_err(), CompileError::DefineNotAllowed);
    assert_eq!(compile("(if true (define x 1) 2)").unwrap_err(), CompileError::DefineNotAllowed);
    assert_eq!(compile("(if true 1 (define x 2))").unwrap_err(), CompileError::DefineNotAllowed);
}

#[test]
fn mod_if_with_wrong_number_of_args_produces_arity_error() {
    assert_eq!(
        compile("(if)").unwrap_err(),
        CompileError::ExpressionHasWrongArgs {
            expression: "if",
            expected: 2,
            actual: 0
        },
    );
    assert_eq!(
        compile("(if true 1 2 3)").unwrap_err(),
        CompileError::ExpressionHasWrongArgs {
            expression: "if",
            expected: 3,
            actual: 4
        },
    );
}

#[test]
fn mod_lambda_produces_lambda_expr() {
    let src = "(lambda () 1)";
    let actual = compile(src).unwrap();
    let inner = ByteCode {
        name: "",
        arg_count: 0,
        local_bindings: 0,
        instructions: vec![push_int(1)],
        source: Some(src),
        instruction_source: vec![span(11, 12)],
    };
    assert_eq!(
        actual,
        module(
            src,
            vec![Instruction::PushConst(Const::Function(Box::new(inner)))],
            vec![Span::new(0, 13)]
        ),
        "Inner bytecode is: {:?}",
        function(&actual.instructions[0])
    );
}

#[test]
fn mod_lambda_can_reference_args() {
    let src = "(lambda (arg0 arg1 arg2) (arg1 arg0 arg2))";
    let actual = compile(src).unwrap();
    let inner = ByteCode {
        name: "",
        arg_count: 3,
        local_bindings: 0,
        instructions: vec![
            Instruction::GetArg(1),
            Instruction::GetArg(0),
            Instruction::GetArg(2),
            Instruction::Eval(3),
        ],
        source: Some("(lambda (arg0 arg1 arg2) (arg1 arg0 arg2))"),
        instruction_source: vec![span(26, 30), span(31, 35), span(36, 40), span(25, 41)],
    };
    assert_eq!(
        actual,
        module(
            src,
            vec![Instruction::PushConst(Const::Function(Box::new(inner)))],
            vec![Span::new(0, 42)]
        ),
        "Inner bytecode is: {:?}",
        function(&actual.instructions[0])
    );
}

#[test]
fn mod_lambda_that_calls_self_with_push_current_function_instruction() {
    let src = "(define (foo n) (foo n))";
    let actual = compile(src).unwrap();
    let inner = ByteCode {
        name: "foo",
        arg_count: 1,
        local_bindings: 0,
        instructions: vec![
            Instruction::PushCurrentFunction,
            Instruction::GetArg(0),
            Instruction::Eval(2),
        ],
        source: Some(src),
        instruction_source: vec![span(17, 20), span(21, 22), span(16, 23)],
    };
    assert_eq!(
        actual,
        module(
            src,
            vec![
                Instruction::PushConst(Const::Function(Box::new(inner))),
                Instruction::Define("foo"),
            ],
            vec![span(8, 23), span(9, 12)]
        ),
        "Inner bytecode is {:?}",
        function(&actual.instructions[0])
    );
}

#[test]
fn lambda_with_same_arg_defined_multiple_times_produces_error() {
    assert_eq!(
        compile("(lambda (arg0 arg0) 0)").unwrap_err(),
        CompileError::ArgumentDefinedMultipleTimes("arg0".into())
    );
    assert!(compile("(lambda (arg0 arg1 arg2 arg3 arg4 arg5 arg6) 0)").is_ok());
    assert_eq!(
        compile("(lambda (arg0 arg0 arg0 arg0 arg0 arg0 arg0) 0)").unwrap_err(),
        CompileError::ArgumentDefinedMultipleTimes("arg0".into())
    );
}

#[test]
fn mod_lambda_with_no_expr_produces_error() {
    assert_eq!(
        compile("(lambda ())").unwrap_err(),
        CompileError::ExpectedExpression {
            context: "lambda definition expressions"
        }
    );
}

#[test]
fn mod_lambda_with_define_statement_produces_error() {
    assert_eq!(compile("(lambda () (define x 12))").unwrap_err(), CompileError::DefineNotAllowed);
}

#[test]
fn mod_lambda_with_invalid_expression_produces_error() {
    assert_eq!(compile("(lambda () (+ ()))").unwrap_err(), CompileError::EmptyExpression);
}

#[test]
fn or_produces_jumps_to_end_on_first_true() {
    let src = "(or false 1 2)";
    assert_eq!(
        compile(src).unwrap(),
        ByteCode {
            name: "",
            arg_count: 0,
            local_bindings: 2,
            instructions: vec![
                Instruction::PushConst(Const::Bool(false)),
                Instruction::BindArg(0),
                Instruction::GetArg(0),
                Instruction::JumpIf(8),
                push_int(1),
                Instruction::BindArg(1),
                Instruction::GetArg(1),
                Instruction::JumpIf(2),
                push_int(2),
                Instruction::Jump(1),
                Instruction::GetArg(1),
                Instruction::Jump(1),
                Instruction::GetArg(0)
            ],
            source: Some(src),
            instruction_source: vec![
                span(4, 9),
                span(0, 14),
                span(4, 9),
                span(0, 14),
                span(10, 11),
                span(10, 14),
                span(10, 11),
                span(10, 14),
                span(12, 13),
                span(10, 14),
                span(10, 11),
                span(0, 14),
                span(4, 9),
            ],
        },
    );
}

#[test]
fn and_produces_jumps_to_end_on_first_false() {
    let src = "(and false 1 2)";
    assert_eq!(
        compile(src).unwrap(),
        ByteCode {
            name: "",
            arg_count: 0,
            local_bindings: 2,
            instructions: vec![
                Instruction::PushConst(Const::Bool(false)),
                Instruction::BindArg(0),
                Instruction::Deref("not"),
                Instruction::GetArg(0),
                Instruction::Eval(2),
                Instruction::JumpIf(10),
                push_int(1),
                Instruction::BindArg(1),
                Instruction::Deref("not"),
                Instruction::GetArg(1),
                Instruction::Eval(2),
                Instruction::JumpIf(2),
                push_int(2),
                Instruction::Jump(1),
                Instruction::GetArg(1),
                Instruction::Jump(1),
                Instruction::GetArg(0)
            ],
            source: Some(src),
            instruction_source: vec![
                span(5, 10),
                span(0, 15),
                span(5, 10),
                span(5, 10),
                span(5, 10),
                span(0, 15),
                span(11, 12),
                span(11, 15),
                span(11, 12),
                span(11, 12),
                span(11, 12),
                span(11, 15),
                span(13, 14),
                span(11, 15),
                span(11, 12),
                span(0, 15),
                span(5, 10)
            ],
        },
    );
}

#[test]
fn mod_return_produces_return_instruction() {
    let src = "(return (if true 1 2))";
    assert_eq!(
        compile(src).unwrap(),
        module(
            src,
            vec![
                Instruction::PushConst(Const::Bool(true)),
                Instruction::JumpIf(2),
                push_int(2),
                Instruction::Jump(1),
                push_int(1),
                Instruction::Return,
            ],
            vec![span(12, 16), span(8, 21), span(19, 20), span(8, 21), span(17, 18), span(0, 0)]
        )
    );
}

#[test]
fn mod_return_with_non_expression_produces_error() {
    assert_eq!(compile("(return (define x 0))").unwrap_err(), CompileError::DefineNotAllowed);
}

#[test]
fn mod_return_with_no_expr_produces_error() {
    assert_eq!(
        compile("(return)").unwrap_err(),
        CompileError::ExpressionHasWrongArgs {
            expression: "return",
            expected: 1,
            actual: 0
        }
    );
}

#[test]
fn mod_return_with_too_many_exprs_produces_error() {
    assert_eq!(
        compile("(return 0 1 2)").unwrap_err(),
        CompileError::ExpressionHasWrongArgs {
            expression: "return",
            expected: 1,
            actual: 3
        }
    );
}

#[test]
fn let_bindings_take_slots_after_the_arguments() {
    let src = "(lambda (a) (let ((x 1) (y a)) x y))";
    let actual = compile(src).unwrap();
    let inner = ByteCode {
        name: "",
        arg_count: 1,
        local_bindings: 2,
        instructions: vec![
            push_int(1),
            Instruction::BindArg(1),
            Instruction::GetArg(0),
            Instruction::BindArg(2),
            Instruction::GetArg(1),
            Instruction::Pop(1),
            Instruction::GetArg(2),
        ],
        source: Some(src),
        instruction_source: vec![
            span(21, 22),
            span(12, 35),
            span(27, 28),
            span(12, 35),
            span(31, 32),
            span(0, 0),
            span(33, 34),
        ],
    };
    assert_eq!(*function(&actual.instructions[0]), inner);
}

#[test]
fn empty_let_body_leaves_void() {
    let src = "(let ((x 1)))";
    assert_eq!(
        compile(src).unwrap(),
        ByteCode {
            name: "",
            arg_count: 0,
            local_bindings: 1,
            instructions: vec![push_int(1), Instruction::BindArg(0), Instruction::PushConst(Const::Void)],
            source: Some(src),
            instruction_source: vec![span(9, 10), span(0, 13), span(0, 0)],
        }
    );
}

#[test]
fn parse_error_after_compile_error_is_not_reported() {
    assert_eq!(compile("(+ (define x 1)) )").unwrap_err(), CompileError::DefineNotAllowed);
    assert_eq!(
        compile("(+ 1) )").unwrap_err(),
        CompileError::AstError(AstParseError::UnexpectedCloseParen)
    );
}

fn check_code(code: &ByteCode) {
    assert_eq!(code.instructions.len(), code.instruction_source.len());
    for (k, instruction) in code.instructions.iter().enumerate() {
        let jump = match instruction {
            Instruction::JumpIf(n) | Instruction::Jump(n) => *n,
            Instruction::PushConst(Const::Function(f)) => {
                check_code(f);
                0
            }
            _ => 0,
        };
        assert!(k + 1 + jump <= code.instructions.len());
    }
}

#[test]
fn every_instruction_has_a_span_and_every_jump_stays_inside() {
    let src = "(define (f x) (if (< x 1) (lambda (y) (or y x)) (and x 2 (if x 3)))) (f 0)";
    let code = compile(src).unwrap();
    check_code(&code);
    let jumps = format!("{code:?}").matches("Jump").count();
    assert!(jumps >= 6);
}
