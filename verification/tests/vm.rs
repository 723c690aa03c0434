use spore_vm::builtins::{string_join, string_length, ArgValue, BuiltinArg};
use spore_vm::bytecode::float_spans;
use spore_vm::compiler::Compiler;
use spore_vm::equality;
use spore_vm::error::{CompileError, VmError};
use spore_vm::formatter::{FormatPiece, ValFormatter};
use spore_vm::memory::{MemoryManager, UnsafeVal};
use spore_vm::natives::{self, NativeError};
use spore_vm::settings::Settings;
use spore_vm::span::Span;
use spore_vm::vm::{ExecError, Step, Vm};

type Machine = Vm<'static, ()>;

/// The native functions that these tests give the machine, by number.
const NATIVES: &[&str] = &[
    "+",
    "<",
    "list",
    "not",
    "=",
    "global-values",
    "new-box",
    "set-box!",
    "unbox",
    "list-length",
    "string-length",
    "string-join",
];

/// Why an evaluation failed.
#[derive(Debug)]
enum Failure {
    Compile(CompileError),
    Exec(ExecError),
    /// A native function of the library refused its arguments.
    Native(NativeError),
    /// A builtin of the library refused its arguments.
    Builtin(VmError),
    /// A native function of these tests refused its arguments.
    Host(&'static str),
}

fn new_vm(settings: Settings) -> Machine {
    let mut vm = Machine::new(7, settings);
    for (func, name) in NATIVES.iter().enumerate() {
        vm = vm.with_native_function(name, func as u32);
    }
    vm
}

fn default_vm() -> Machine {
    new_vm(Settings::default())
}

/// `+` of these tests: ints add up; a float makes the sum a float.
fn add(args: &[UnsafeVal]) -> Result<UnsafeVal, Failure> {
    let mut ints: i64 = 0;
    let mut floats: f64 = 0.0;
    for arg in args {
        match arg {
            UnsafeVal::Int(x) => ints += x,
            UnsafeVal::Float(x) => floats += f64::from_bits(*x),
            _ => return Err(Failure::Host("+")),
        }
    }
    if floats != 0.0 {
        Ok(UnsafeVal::Float((floats + ints as f64).to_bits()))
    } else {
        Ok(UnsafeVal::Int(ints))
    }
}

/// `<` of these tests, on ints.
fn less(args: &[UnsafeVal]) -> Result<UnsafeVal, Failure> {
    let mut ok = true;
    for pair in args.windows(2) {
        match (pair[0], pair[1]) {
            (UnsafeVal::Int(a), UnsafeVal::Int(b)) => ok = ok && a < b,
            _ => return Err(Failure::Host("<")),
        }
    }
    Ok(UnsafeVal::Bool(ok))
}

/// What the string builtins of the library read of `v`.
fn builtin_arg(vm: &Machine, v: UnsafeVal) -> BuiltinArg {
    let m = vm.memory();
    let value = match v {
        UnsafeVal::String(id) => ArgValue::Str(m.get_str(id).to_string()),
        UnsafeVal::List(id) => ArgValue::List(m.get_list(id).iter().map(|item| builtin_arg(vm, *item)).collect()),
        _ => ArgValue::Other,
    };
    BuiltinArg { value, shown_type: natives::kind_name(v), quoted: quoted_text(m, v) }
}

fn call_native(vm: &mut Machine, func: u32) -> Result<UnsafeVal, Failure> {
    let args = vm.native_args();
    match NATIVES[func as usize] {
        "+" => add(&args),
        "<" => less(&args),
        "list" => Ok(natives::list(vm.memory_mut(), &args)),
        "not" => natives::not(&args).map_err(Failure::Native),
        "=" => match equality::equal(vm.memory(), &args, 64).map_err(Failure::Native)? {
            Some(b) => Ok(UnsafeVal::Bool(b)),
            None => Err(Failure::Host("=")),
        },
        "global-values" => vm.global_values(&args).map_err(Failure::Native),
        "new-box" => natives::new_box(vm.memory_mut(), &args).map_err(Failure::Native),
        "set-box!" => natives::set_box(vm.memory_mut(), &args).map_err(Failure::Native),
        "unbox" => natives::unbox(vm.memory(), &args).map_err(Failure::Native),
        "list-length" => natives::list_length(vm.memory(), &args).map_err(Failure::Native),
        "string-length" => {
            let args: Vec<BuiltinArg> = args.iter().map(|v| builtin_arg(vm, *v)).collect();
            string_length(&args).map(UnsafeVal::Int).map_err(Failure::Builtin)
        }
        "string-join" => {
            let args: Vec<BuiltinArg> = args.iter().map(|v| builtin_arg(vm, *v)).collect();
            let joined = string_join(&args).map_err(Failure::Builtin)?;
            Ok(UnsafeVal::String(vm.memory_mut().insert_string(joined)))
        }
        _ => unreachable!(),
    }
}

/// Runs the machine to the end, answering its native calls.
fn run(vm: &mut Machine, first: Step) -> Result<UnsafeVal, Failure> {
    let mut step = first;
    loop {
        match step {
            Step::Continue => {}
            Step::Done(v) => return Ok(v),
            Step::CallNative(func) => {
                let v = call_native(vm, func)?;
                vm.return_from_native(v).map_err(Failure::Exec)?;
            }
        }
        step = vm.run_next().map_err(Failure::Exec)?;
    }
}

fn eval(vm: &mut Machine, src: &str) -> Result<UnsafeVal, Failure> {
    let src: &'static str = Box::leak(src.to_owned().into_boxed_str());
    let (code, inlined) = {
        let (names, inlined) = vm.inline_globals();
        let code = Compiler::compile(src, vm.settings(), &names).map_err(Failure::Compile)?;
        (code, inlined)
    };
    let floats: Vec<(Span, u64)> = float_spans(&code)
        .into_iter()
        .map(|s| (s, src[s.start as usize..s.end as usize].parse::<f64>().unwrap().to_bits()))
        .collect();
    vm.load_module(code, &floats, &inlined).map_err(Failure::Exec)?;
    vm.run_gc();
    run(vm, Step::Continue)
}

fn eval_function_by_name(vm: &mut Machine, name: &str, args: &[UnsafeVal]) -> Result<UnsafeVal, Failure> {
    let n = vm.prepare_call(name, &args.to_vec()).map_err(Failure::Exec)?;
    vm.run_gc();
    let first = vm.execute_eval(n).map_err(Failure::Exec)?;
    run(vm, first)
}

fn as_int(v: Result<UnsafeVal, Failure>) -> i64 {
    match v {
        Ok(UnsafeVal::Int(x)) => x,
        other => panic!("expected an int, found {other:?}"),
    }
}

fn boolean(v: Result<UnsafeVal, Failure>) -> bool {
    match v {
        Ok(UnsafeVal::Bool(x)) => x,
        other => panic!("expected a bool, found {other:?}"),
    }
}

fn is_void(v: Result<UnsafeVal, Failure>) -> bool {
    matches!(v, Ok(UnsafeVal::Void))
}

fn render(pieces: Vec<FormatPiece>) -> String {
    let mut out = String::new();
    for piece in pieces {
        match piece {
            FormatPiece::Text(t) => out.push_str(t.as_str()),
            FormatPiece::Float(bits) => out.push_str(&f64::from_bits(bits).to_string()),
            FormatPiece::Custom(_) => out.push_str("<custom>"),
        }
    }
    out
}

fn text(m: &MemoryManager<'static, ()>, v: UnsafeVal) -> String {
    let formatter = ValFormatter::new(m, v);
    assert!(formatter.can_format(16));
    render(formatter.pieces())
}

fn quoted_text(m: &MemoryManager<'static, ()>, v: UnsafeVal) -> String {
    let formatter = ValFormatter::new_quoted(m, v);
    assert!(formatter.can_format(16));
    render(formatter.pieces())
}

fn string(vm: &Machine, v: Result<UnsafeVal, Failure>) -> String {
    match v {
        Ok(UnsafeVal::String(id)) => vm.memory().get_str(id).to_string(),
        other => panic!("expected a string, found {other:?}"),
    }
}

/// The context, expected type, type and text of the value of a type error, and where it was.
fn type_error(vm: &Machine, e: Failure) -> (String, String, String, String, Span) {
    let (context, expected, actual, value) = match e {
        Failure::Native(NativeError::TypeError { context, expected, value }) => {
            (context.to_string(), expected.to_string(), natives::kind_name(value).to_string(), text(vm.memory(), value))
        }
        Failure::Builtin(VmError::TypeError { context, expected, actual, value, .. }) => {
            (context.to_string(), expected.to_string(), actual.to_string(), value)
        }
        other => panic!("expected a type error, found {other:?}"),
    };
    let (span, _) = vm.error_source().unwrap();
    (context, expected, actual, value, span)
}

fn arity(e: Failure) -> (String, usize, usize) {
    match e {
        Failure::Exec(ExecError::ArityError { function, expected, actual }) => (function.to_string(), expected, actual),
        Failure::Native(NativeError::ArityError { function, expected, actual }) => (function.to_string(), expected, actual),
        Failure::Builtin(VmError::ArityError { function, expected, actual }) => (function.to_string(), expected, actual),
        other => panic!("expected an arity error, found {other:?}"),
    }
}

#[test]
fn constant_expression_evaluates_to_constant() {
    let mut vm = default_vm();
    assert_eq!(as_int(eval(&mut vm, "42")), 42);
}

#[test]
fn expression_can_evaluate() {
    let mut vm = default_vm();
    match eval(&mut vm, "(+ 1 2 3 4.0)") {
        Ok(UnsafeVal::Float(bits)) => assert_eq!(f64::from_bits(bits), 10.0),
        other => panic!("expected a float, found {other:?}"),
    }
}

#[test]
fn list_function_returns_list() {
    let mut vm = default_vm();
    let v = eval(&mut vm, "(list 1 2.3 \"three\")").unwrap();
    assert_eq!(text(vm.memory(), v), "(1 2.3 \"three\")");
}

#[test]
fn vm_error_is_reported() {
    let mut vm = default_vm();
    let src = "(+ true false)";
    match eval(&mut vm, src) {
        Err(Failure::Host("+")) => {}
        other => panic!("expected `+` to refuse its arguments, found {other:?}"),
    }
    let (span, at) = vm.error_source().unwrap();
    assert_eq!(span, Span::new(0, 14));
    assert_eq!(at, src);
}

#[test]
fn compile_error_is_reported() {
    let mut vm = default_vm();
    match eval(&mut vm, "((define x 12))") {
        Err(Failure::Compile(e)) => assert_eq!(e, CompileError::DefineNotAllowed),
        other => panic!("expected a compile error, found {other:?}"),
    }
}

#[test]
fn defined_variable_can_be_referenced() {
    let mut vm = default_vm();
    assert_eq!(as_int(eval(&mut vm, "(define x 12) (+ x x)")), 24);
    assert_eq!(as_int(eval(&mut vm, "(+ x 10)")), 22);
}

#[test]
fn if_statement_can_return_any_of() {
    let mut vm = default_vm();
    assert_eq!(as_int(eval(&mut vm, "(if true (+ 1 2))")), 3);
    assert_eq!(as_int(eval(&mut vm, "(if true (+ 1 2) (+ 3 4))")), 3);
    assert_eq!(as_int(eval(&mut vm, "(if false (+ 1 2) (+ 3 4))")), 7);
    assert!(is_void(eval(&mut vm, "(if false (+ 1 2))")));
}

#[test]
fn if_statement_with_truthy_predicate_true_branch() {
    let mut vm = default_vm();
    assert_eq!(as_int(eval(&mut vm, "(if 1 (+ 1 2) (+ 3 4))")), 3);
    assert_eq!(as_int(eval(&mut vm, "(if 1 (+ 1 2))")), 3);
}

#[test]
fn lambda_can_be_evaluated() {
    let mut vm = default_vm();
    assert_eq!(as_int(eval(&mut vm, "((lambda () 7))")), 7);
    assert_eq!(as_int(eval(&mut vm, "((lambda () (+ 1 2 3)))")), 6);
}

#[test]
fn lambda_with_args_can_be_evaluated() {
    let mut vm = default_vm();
    assert_eq!(as_int(eval(&mut vm, "((lambda (a b) 4) 1 2)")), 4);
    assert_eq!(as_int(eval(&mut vm, "((lambda (a b) (+ a b)) 1 2)")), 3);
}

#[test]
fn function_called_with_wrong_number_of_args_returns_error() {
    let mut vm = default_vm();
    assert_eq!(arity(eval(&mut vm, "((lambda () 10) 1)").unwrap_err()), ("".to_string(), 0, 1));
    assert_eq!(arity(eval(&mut vm, "((lambda (a) a))").unwrap_err()), ("".to_string(), 1, 0));
    assert!(is_void(eval(&mut vm, "(define (takes-two-args arg1 arg2) (+ arg1 arg2))")));
    assert_eq!(
        arity(eval(&mut vm, "(takes-two-args 1)").unwrap_err()),
        ("takes-two-args".to_string(), 2, 1)
    );
}

#[test]
fn can_get_val_by_name() {
    let mut vm = default_vm();
    eval(&mut vm, "(define one 1) (define two 2)").unwrap();
    assert!(matches!(vm.val_by_name("one"), Some(UnsafeVal::Int(1))));
    assert!(matches!(vm.val_by_name("two"), Some(UnsafeVal::Int(2))));
}

#[test]
fn getting_val_that_does_not_exist_returns_err() {
    let mut vm = default_vm();
    eval(&mut vm, "(define one 1) (define two 2)").unwrap();
    assert!(vm.val_by_name("three").is_none());
}

#[test]
fn can_eval_by_function_with_native_function() {
    let mut vm = default_vm();
    let ans = eval_function_by_name(&mut vm, "+", &[UnsafeVal::Int(10), UnsafeVal::Int(5)]);
    assert_eq!(as_int(ans), 15);
}

#[test]
fn eval_function_that_does_not_exist_returns_error() {
    let mut vm = default_vm();
    eval(&mut vm, "(define (foo) 1)").unwrap();
    match eval_function_by_name(&mut vm, "bar", &[]) {
        Err(Failure::Exec(ExecError::SymbolNotDefined { symbol })) => assert_eq!(symbol, "bar"),
        other => panic!("expected an undefined symbol, found {other:?}"),
    }
}

#[test]
fn eval_function_that_is_not_function_returns_error() {
    let mut vm = default_vm();
    eval(&mut vm, "(define foo 100)").unwrap();
    match eval_function_by_name(&mut vm, "foo", &[]) {
        Err(Failure::Exec(ExecError::TypeError { context, expected, value })) => {
            assert_eq!(context, "function invocation");
            assert_eq!(expected, "function");
            assert_eq!(natives::kind_name(value), "int");
            assert_eq!(text(vm.memory(), value), "100");
        }
        other => panic!("expected a type error, found {other:?}"),
    }
}

#[test]
fn can_call_function_recursively() {
    let mut vm = default_vm();
    eval(&mut vm, "(define (fib n) (if (< n 2) n (+ (fib (+ n -1)) (fib (+ n -2)))))").unwrap();
    let ans = eval_function_by_name(&mut vm, "fib", &[UnsafeVal::Int(10)]);
    assert_eq!(as_int(ans), 55);
}

#[test]
fn infinite_recursion_halts() {
    let mut vm = default_vm();
    assert!(is_void(eval(&mut vm, "(define (recurse) (recurse))")));
    match eval(&mut vm, "(recurse)") {
        Err(Failure::Exec(ExecError::MaximumFunctionCallDepth { max_depth, call_stack })) => {
            assert_eq!(max_depth, 65);
            let expected: Vec<String> =
                std::iter::once("").chain(std::iter::repeat("recurse").take(64)).map(Into::into).collect();
            let got: Vec<String> = call_stack.iter().map(|s| s.to_string()).collect();
            assert_eq!(got, expected);
        }
        other => panic!("expected the call depth limit, found {other:?}"),
    }
}

#[test]
fn aggressive_inline_returns_same_results_when_there_are_no_redefinitions() {
    let mut aggressive_inline_vm = new_vm(Settings { enable_aggressive_inline: true, enable_source_maps: false });
    let mut default_vm = new_vm(Settings { enable_aggressive_inline: false, enable_source_maps: true });
    let srcs = ["(define x 12)", "x", "(+ x x)"];
    for src in srcs {
        let a = eval(&mut aggressive_inline_vm, src).unwrap();
        let b = eval(&mut default_vm, src).unwrap();
        assert_eq!(text(aggressive_inline_vm.memory(), a), text(default_vm.memory(), b));
    }
}

#[test]
fn let_statement() {
    let mut vm = default_vm();
    assert_eq!(as_int(eval(&mut vm, "(let ([x 10] [y 20] [z (+ x y)]) (+ x y z))")), 60);
}

#[test]
fn when_multiple_bindings_exist_last_one_is_used() {
    let mut vm = default_vm();
    let src = r#"
(let ([x 1])
  (let ([x 2]
        [x (+ x x)])
    x))
"#;
    assert_eq!(as_int(eval(&mut vm, src)), 4);
}

#[test]
fn multiple_bindings_dont_affect_previous_binding_when_out_of_scope() {
    let mut vm = default_vm();
    let src = r#"
(let ([x 1])
  (let ([x 2]
        [x (+ x x)])
    x)
x)
"#;
    assert_eq!(as_int(eval(&mut vm, src)), 1);
}

#[test]
fn local_bindings_take_precedence_over_arguments() {
    let mut vm = default_vm();
    let src = r#"
(define (foo x)
  (let ([old-x x]
        [x     10])
    (+ old-x x)))

(foo 100)
"#;
    assert_eq!(as_int(eval(&mut vm, src)), 110);
}

#[test]
fn empty_or_returns_false() {
    let mut vm = default_vm();
    assert!(!boolean(eval(&mut vm, "(or)")));
}

#[test]
fn or_with_true_returns_true() {
    let mut vm = default_vm();
    assert!(boolean(eval(&mut vm, "(or false false true false)")));
}

#[test]
fn or_with_truthy_values_returns_first_truthy_value() {
    let mut vm = default_vm();
    assert_eq!(as_int(eval(&mut vm, "(or false false 5 4 3 2)")), 5);
}

#[test]
fn or_with_all_false_or_void_returns_last_arg() {
    let mut vm = default_vm();
    assert!(is_void(eval(&mut vm, "(or void false void false void)")));
    assert!(!boolean(eval(&mut vm, "(or void false void false void false)")));
}

#[test]
fn and_with_no_args_returns_true() {
    let mut vm = default_vm();
    assert!(boolean(eval(&mut vm, "(and)")));
}

#[test]
fn and_with_all_truthy_args_returns_last_arg() {
    let mut vm = default_vm();
    assert_eq!(as_int(eval(&mut vm, "(and 1 2 3 4)")), 4);
}

#[test]
fn and_with_false_arg_returns_first_false_arg() {
    let mut vm = default_vm();
    assert!(!boolean(eval(&mut vm, "(and 1 2 false 3 4)")));
    assert!(is_void(eval(&mut vm, "(and 1 2 void 3 4)")));
}

#[test]
fn define_then_read_back_gives_value() {
    let mut vm = default_vm();
    eval(&mut vm, "(define answer (+ 40 2))").unwrap();
    assert_eq!(as_int(eval(&mut vm, "answer")), 42);
    assert!(matches!(vm.val_by_name("answer"), Some(UnsafeVal::Int(42))));
}

#[test]
fn undefined_symbol_is_reported() {
    let mut vm = default_vm();
    match eval(&mut vm, "(+ 1 nothing-here)") {
        Err(Failure::Exec(ExecError::SymbolNotDefined { symbol })) => assert_eq!(symbol, "nothing-here"),
        other => panic!("expected an undefined symbol, found {other:?}"),
    }
    let (span, _) = vm.error_source().unwrap();
    assert_eq!(span, Span::new(5, 17));
}

#[test]
fn calling_a_non_function_is_a_type_error() {
    let mut vm = default_vm();
    match eval(&mut vm, "(define x 3) (x)") {
        Err(Failure::Exec(ExecError::TypeError { value, .. })) => assert!(matches!(value, UnsafeVal::Int(3))),
        other => panic!("expected a type error, found {other:?}"),
    }
}

#[test]
fn garbage_collection_keeps_global_values() {
    let mut vm = default_vm();
    eval(&mut vm, "(define l (list 1 2 3))").unwrap();
    eval(&mut vm, "(list 4 5 6)").unwrap();
    vm.run_gc();
    let l = vm.val_by_name("l").unwrap();
    assert_eq!(text(vm.memory(), l), "(1 2 3)");
}

#[test]
fn native_answer_replaces_the_call() {
    let mut vm = default_vm();
    let n = vm.prepare_call("+", &vec![UnsafeVal::Int(1), UnsafeVal::Int(2)]).unwrap();
    assert_eq!(n, 3);
    let step = vm.execute_eval(n).unwrap();
    assert!(matches!(step, Step::CallNative(0)));
    let args = vm.native_args();
    assert_eq!(args.len(), 2);
    assert!(matches!(vm.return_from_native(UnsafeVal::Int(3)), Ok(Step::Continue)));
    assert!(matches!(vm.run_next(), Ok(Step::Done(UnsafeVal::Int(3)))));
}

#[test]
fn stack_trace_names_the_running_functions() {
    let vm = default_vm();
    let trace: Vec<String> = vm.stack_trace().iter().map(|s| s.to_string()).collect();
    assert_eq!(trace, vec!["native-call".to_string()]);
}

#[test]
fn global_values_lists_every_global() {
    let mut vm = default_vm();
    eval(&mut vm, "(define a 1)").unwrap();
    let list = vm.global_values(&[]).unwrap();
    assert_eq!(
        text(vm.memory(), list),
        "('+ '< 'list 'not '= 'global-values 'new-box 'set-box! 'unbox 'list-length 'string-length 'string-join 'a)"
    );
    assert!(vm.global_values(&[UnsafeVal::Int(1)]).is_err());
}

#[test]
fn inlined_globals_name_their_values() {
    let mut vm = default_vm();
    eval(&mut vm, "(define x 12)").unwrap();
    let (names, inlined) = vm.inline_globals();
    let names: Vec<&str> = names.iter().map(|(n, _)| *n).collect();
    assert_eq!(names.len(), NATIVES.len() + 1);
    assert_eq!(names[0], "+");
    assert_eq!(names[NATIVES.len()], "x");
    assert_eq!(inlined.len(), 1);
    assert!(matches!(inlined[0], UnsafeVal::Int(12)));
}

#[test]
fn global_values_returns_list() {
    let mut vm = default_vm();
    assert_ne!(as_int(eval(&mut vm, "(list-length (global-values))")), 0);
}

#[test]
fn global_values_with_args_returns_error() {
    let mut vm = default_vm();
    assert_eq!(arity(eval(&mut vm, "(global-values 0)").unwrap_err()), ("global-values".to_string(), 0, 1));
}

#[test]
fn mod_equal_with_wrong_number_of_args_produces_arity_error() {
    let mut vm = default_vm();
    assert_eq!(arity(eval(&mut vm, "(=)").unwrap_err()), ("=".to_string(), 2, 0));
    assert_eq!(arity(eval(&mut vm, "(= 1)").unwrap_err()), ("=".to_string(), 2, 1));
    assert_eq!(arity(eval(&mut vm, "(= 1 2 3)").unwrap_err()), ("=".to_string(), 2, 3));
}

#[test]
fn equal_with_same_list_ref_returns_true() {
    let mut vm = default_vm();
    eval(&mut vm, "(define my-list (list 1 2))").unwrap();
    assert!(boolean(eval(&mut vm, "(= my-list my-list)")));
}

#[test]
fn mod_not_inverts_bool() {
    let mut vm = default_vm();
    assert!(!boolean(eval(&mut vm, "(not true)")));
    assert!(boolean(eval(&mut vm, "(not false)")));
}

#[test]
fn mod_not_with_wrong_not_just_one_arg_produces_arity_error() {
    let mut vm = default_vm();
    assert_eq!(arity(eval(&mut vm, "(not)").unwrap_err()), ("not".to_string(), 1, 0));
    assert_eq!(arity(eval(&mut vm, "(not true false)").unwrap_err()), ("not".to_string(), 1, 2));
}

#[test]
fn mod_not_with_void_values_returns_true() {
    let mut vm = default_vm();
    assert!(boolean(eval(&mut vm, "(not void)")));
}

#[test]
fn mod_not_with_truthy_values_returns_true() {
    let mut vm = default_vm();
    assert!(!boolean(eval(&mut vm, "(not true)")));
    assert!(!boolean(eval(&mut vm, "(not 1)")));
    assert!(!boolean(eval(&mut vm, "(not 1.0)")));
}

#[test]
fn boxes_new_box_with_wrong_args_returns_error() {
    let mut vm = default_vm();
    assert_eq!(arity(eval(&mut vm, "(new-box)").unwrap_err()), ("new-box".to_string(), 1, 0));
    assert_eq!(arity(eval(&mut vm, "(new-box 0 1)").unwrap_err()), ("new-box".to_string(), 1, 2));
}

#[test]
fn boxes_referencing_box_does_not_return_inner_value() {
    let mut vm = default_vm();
    eval(&mut vm, "(define val (new-box \"foo\"))").unwrap();
    assert!(!matches!(eval(&mut vm, "val"), Ok(UnsafeVal::String(_))));
}

#[test]
fn boxes_get_box_returns_value_inside_box() {
    let mut vm = default_vm();
    eval(&mut vm, "(define val (new-box \"foo\"))").unwrap();
    let got = eval(&mut vm, "(unbox val)");
    assert_eq!(string(&vm, got), "foo");
}

#[test]
fn boxes_get_box_with_wrong_args_returns_error() {
    let mut vm = default_vm();
    assert_eq!(arity(eval(&mut vm, "(unbox)").unwrap_err()), ("unbox".to_string(), 1, 0));
    assert_eq!(arity(eval(&mut vm, "(unbox (new-box 0) 1)").unwrap_err()), ("unbox".to_string(), 1, 2));
    let e = eval(&mut vm, "(unbox 0)").unwrap_err();
    assert_eq!(
        type_error(&vm, e),
        ("unbox".to_string(), "mutable-box".to_string(), "int".to_string(), "0".to_string(), Span::new(0, 9))
    );
}

#[test]
fn boxes_set_box_changes_value_for_subsequent_get_box_calls() {
    let mut vm = default_vm();
    eval(&mut vm, "(define val (new-box \"foo\"))").unwrap();
    assert!(!matches!(eval(&mut vm, "val"), Ok(UnsafeVal::String(_))));
    let got = eval(&mut vm, "(unbox val)");
    assert_eq!(string(&vm, got), "foo");
    eval(&mut vm, "(set-box! val \"bar\")").unwrap();
    let got = eval(&mut vm, "(unbox val)");
    assert_eq!(string(&vm, got), "bar");
}

#[test]
fn boxes_set_box_with_wrong_args_returns_error() {
    let mut vm = default_vm();
    assert_eq!(arity(eval(&mut vm, "(set-box!)").unwrap_err()), ("set-box!".to_string(), 2, 0));
    assert_eq!(arity(eval(&mut vm, "(set-box! (new-box 0))").unwrap_err()), ("set-box!".to_string(), 2, 1));
    let e = eval(&mut vm, "(set-box! 0 (new-box 0))").unwrap_err();
    assert_eq!(
        type_error(&vm, e),
        ("set-box!".to_string(), "mutable-box".to_string(), "int".to_string(), "0".to_string(), Span::new(0, 24))
    );
    assert_eq!(arity(eval(&mut vm, "(set-box! (new-box 0) 1 2)").unwrap_err()), ("set-box!".to_string(), 2, 3));
}

#[test]
fn list_length_with_wrong_args_returns_error() {
    let mut vm = default_vm();
    assert_eq!(arity(eval(&mut vm, "(list-length)").unwrap_err()), ("list-length".to_string(), 1, 0));
    assert_eq!(arity(eval(&mut vm, "(list-length (list) 0)").unwrap_err()), ("list-length".to_string(), 1, 2));
    let e = eval(&mut vm, "(list-length 0)").unwrap_err();
    assert_eq!(
        type_error(&vm, e),
        ("list-length".to_string(), "list".to_string(), "int".to_string(), "0".to_string(), Span::new(0, 15))
    );
}

#[test]
fn list_length_on_empty_list_returns_zero() {
    let mut vm = default_vm();
    assert_eq!(as_int(eval(&mut vm, "(list-length (list))")), 0);
}

#[test]
fn list_length_on_list_returns_its_length() {
    let mut vm = default_vm();
    assert_eq!(as_int(eval(&mut vm, "(list-length (list 1 2 3 4 5))")), 5);
}

#[test]
fn strings_string_length_with_empty_string_is_zero() {
    let mut vm = default_vm();
    assert_eq!(as_int(eval(&mut vm, "(string-length \"\")")), 0);
}

#[test]
fn strings_string_length_gives_string_length() {
    let mut vm = default_vm();
    assert_eq!(as_int(eval(&mut vm, "(string-length \"1234\")")), 4);
}

#[test]
fn strings_string_join_on_empty_list_is_empty() {
    let mut vm = default_vm();
    let got = eval(&mut vm, "(string-join (list))");
    assert_eq!(string(&vm, got), "");
}

#[test]
fn strings_string_join_with_wrong_number_of_args_is_arity_error() {
    let mut vm = default_vm();
    assert_eq!(arity(eval(&mut vm, "(string-join)").unwrap_err()), ("string-join".to_string(), 1, 0));
    assert_eq!(
        arity(eval(&mut vm, "(string-join (list) \"\" 3)").unwrap_err()),
        ("string-join".to_string(), 2, 3)
    );
}

#[test]
fn strings_string_join_with_wrong_type_args_is_type_error() {
    let mut vm = default_vm();
    let e = eval(&mut vm, "(string-join 2)").unwrap_err();
    assert_eq!(
        type_error(&vm, e),
        ("string-join arg(idx=0)".to_string(), "list".to_string(), "int".to_string(), "2".to_string(), Span::new(0, 15))
    );
    let e = eval(&mut vm, "(string-join 3 \",\")").unwrap_err();
    assert_eq!(
        type_error(&vm, e),
        ("string-join arg(idx=0)".to_string(), "list".to_string(), "int".to_string(), "3".to_string(), Span::new(0, 19))
    );
    let e = eval(&mut vm, "(string-join (list \"ok string\" 42))").unwrap_err();
    assert_eq!(
        type_error(&vm, e),
        (
            "string-join arg(idx=0) list subelement".to_string(),
            "string".to_string(),
            "int".to_string(),
            "42".to_string(),
            Span::new(0, 35)
        )
    );
    let e = eval(&mut vm, "(string-join (list) 3)").unwrap_err();
    assert_eq!(
        type_error(&vm, e),
        ("string-join arg(idx=1)".to_string(), "string".to_string(), "int".to_string(), "3".to_string(), Span::new(0, 22))
    );
}

#[test]
fn strings_string_join_with_no_separator_concatenates() {
    let mut vm = default_vm();
    let got = eval(&mut vm, "(string-join (list \"one\" \"two\"))");
    assert_eq!(string(&vm, got), "onetwo");
}

#[test]
fn strings_string_join_with_custom_separator_concatenates_with_separator() {
    let mut vm = default_vm();
    let got = eval(&mut vm, "(string-join (list \"one\" \"two\") \" fish \")");
    assert_eq!(string(&vm, got), "one fish two");
}

#[test]
fn equal_compares_atoms_lists_and_functions() {
    let mut vm = default_vm();
    assert!(boolean(eval(&mut vm, "(= false false)")));
    assert!(boolean(eval(&mut vm, "(= 1 1)")));
    assert!(boolean(eval(&mut vm, "(= 2.0 2.0)")));
    assert!(boolean(eval(&mut vm, "(= \"string\" \"string\")")));
    assert!(boolean(eval(&mut vm, "(= (list \"list\") (list \"list\"))")));
    eval(&mut vm, "(define (foo) 42) (define (bar) 42)").unwrap();
    assert!(boolean(eval(&mut vm, "(= foo foo)")));
    assert!(boolean(eval(&mut vm, "(= (foo) (foo))")));
    assert!(boolean(eval(&mut vm, "(= + +)")));
    assert!(boolean(eval(&mut vm, "(= void void)")));
    assert!(!boolean(eval(&mut vm, "(= 1 1.0)")));
    assert!(!boolean(eval(&mut vm, "(= 1.0 2.0)")));
    assert!(!boolean(eval(&mut vm, "(= (list) (list 0))")));
    assert!(!boolean(eval(&mut vm, "(= (list \"list\" 1) (list \"list\" 2))")));
    assert!(!boolean(eval(&mut vm, "(= foo bar)")));
    assert!(!boolean(eval(&mut vm, "(= + <)")));
}

#[test]
fn float_equality_follows_ieee() {
    let zero = 0.0f64.to_bits();
    let negative_zero = (-0.0f64).to_bits();
    let nan = f64::NAN.to_bits();
    assert!(equality::float_eq(zero, negative_zero));
    assert!(!equality::float_eq(nan, nan));
    assert!(equality::float_eq(1.5f64.to_bits(), 1.5f64.to_bits()));
    assert!(!equality::float_eq(1.5f64.to_bits(), 2.5f64.to_bits()));
}

#[test]
fn val_format_bool_is_true_or_false() {
    let vm = default_vm();
    assert_eq!(text(vm.memory(), UnsafeVal::Bool(true)), "true");
    assert_eq!(text(vm.memory(), UnsafeVal::Bool(false)), "false");
}

#[test]
fn val_format_int_prints_number() {
    let vm = default_vm();
    assert_eq!(text(vm.memory(), UnsafeVal::Int(0)), "0");
    assert_eq!(text(vm.memory(), UnsafeVal::Int(-1)), "-1");
}

#[test]
fn val_format_float_prints_number() {
    let vm = default_vm();
    assert_eq!(text(vm.memory(), UnsafeVal::Float(0.0f64.to_bits())), "0");
    assert_eq!(text(vm.memory(), UnsafeVal::Float((-1.5f64).to_bits())), "-1.5");
}

#[test]
fn val_format_string_produces_string() {
    let mut vm = default_vm();
    let string_id = vm.memory_mut().insert_string("my string".into());
    assert_eq!(text(vm.memory(), UnsafeVal::String(string_id)), "my string");
}

#[test]
fn val_format_function_prints_name() {
    let mut vm = default_vm();
    let v = eval(&mut vm, "(define (foo) 10) foo").unwrap();
    assert_eq!(text(vm.memory(), v), "<function foo>");
}

#[test]
fn val_format_native_function_prints_native_function() {
    let mut vm = default_vm();
    let v = eval(&mut vm, "+").unwrap();
    assert_eq!(text(vm.memory(), v), "<native-function>");
}
