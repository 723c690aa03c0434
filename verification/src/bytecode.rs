//! Bytecode: the instructions that compiled expressions become, and what each compiles to.
//!
//! The bytecode names its symbols by their text and holds its string constants and functions
//! in place; a machine interns and stores them when it loads the bytecode.
use compact_str::CompactString;
use vstd::prelude::*;

use crate::compact::compact_chars;
use crate::compiler::duplicate_index;
use crate::error::SpecCompileError;
use crate::ast::{spec_parse, AstParseError, SpecNode};
use crate::ir::{spec_new, SpecConstant, SpecIr};
use crate::settings::Settings;
use crate::span::Span;

verus! {

/// A global value that aggressive inlining may copy into bytecode: a native function, named
/// by its number, or any other value, named by the machine's handle for it.
#[derive(Copy, Clone, Debug, PartialEq, Eq, Structural)]
pub enum GlobalVal {
    NativeFunction(u32),
    Value(u64),
}

/// A constant that an instruction pushes.
#[derive(Debug, PartialEq)]
pub enum Const<'a> {
    Void,
    Bool(bool),
    Int(i64),
    /// A float, as the span of its literal in the compiled source.
    Float(Span),
    String(CompactString),
    /// A global value copied at compile time.
    Global(GlobalVal),
    /// A function compiled from a lambda.
    Function(Box<ByteCode<'a>>),
}

/// An instruction for the VM to execute.
#[derive(Debug, PartialEq)]
pub enum Instruction<'a> {
    /// Push a constant onto the stack.
    PushConst(Const<'a>),
    /// Push the current function onto the stack.
    PushCurrentFunction,
    /// Get the nth argument (or local binding) of the current call.
    GetArg(usize),
    /// Pop the top value of the stack into the nth argument (or local binding).
    BindArg(usize),
    /// Get the value of a symbol and push it onto the stack.
    Deref(&'a str),
    /// Pop the top value of the stack and assign it to the given symbol.
    Define(&'a str),
    /// Pop the top `n` values of the stack: the deepest is the function, the rest its arguments.
    Eval(usize),
    /// Call the native function `func` on the top `arg_count` values of the stack.
    EvalNative { func: u32, arg_count: usize },
    /// Pop the top value of the stack. If it is truthy, then jump `n` instructions.
    JumpIf(usize),
    /// Jump `n` instructions.
    Jump(usize),
    /// Pop the top `n` values of the stack.
    Pop(usize),
    /// Return from the current function.
    Return,
}

/// Contains a set of instructions for the Spore VM to evaluate.
#[derive(Debug, PartialEq)]
pub struct ByteCode<'a> {
    /// The name of the function; empty for a module.
    pub name: &'a str,
    /// The number of arguments for the bytecode.
    pub arg_count: usize,
    /// The number of local bindings that the bytecode needs beyond its arguments.
    pub local_bindings: usize,
    /// The instructions for the bytecode.
    pub instructions: Vec<Instruction<'a>>,
    /// The source code for the bytecode, when source maps are kept.
    pub source: Option<&'a str>,
    /// The span of source code that each instruction comes from.
    pub instruction_source: Vec<Span>,
}

/// The mathematical value of a [`Const`].
pub enum SpecConst {
    Void,
    Bool(bool),
    Int(i64),
    Float(Span),
    String(Seq<char>),
    Global(GlobalVal),
    Function(Box<SpecByteCode>),
}

/// The mathematical value of an [`Instruction`].
pub enum SpecInstr {
    PushConst(SpecConst),
    PushCurrentFunction,
    GetArg(nat),
    BindArg(nat),
    Deref(Seq<char>),
    Define(Seq<char>),
    Eval(nat),
    EvalNative(u32, nat),
    JumpIf(nat),
    Jump(nat),
    Pop(nat),
    Return,
}

/// The mathematical value of a [`ByteCode`].
pub struct SpecByteCode {
    pub name: Seq<char>,
    pub arg_count: nat,
    pub local_bindings: nat,
    pub instructions: Seq<SpecInstr>,
    pub source: Option<Seq<char>>,
    pub instruction_source: Seq<Span>,
}

impl<'a> Const<'a> {
    pub open spec fn spec_view(self) -> SpecConst
        decreases self,
    {
        match self {
            Const::Void => SpecConst::Void,
            Const::Bool(b) => SpecConst::Bool(b),
            Const::Int(x) => SpecConst::Int(x),
            Const::Float(s) => SpecConst::Float(s),
            Const::String(s) => SpecConst::String(compact_chars(s)),
            Const::Global(g) => SpecConst::Global(g),
            Const::Function(b) => SpecConst::Function(Box::new((*b).spec_view())),
        }
    }
}

impl<'a> Instruction<'a> {
    pub open spec fn spec_view(self) -> SpecInstr
        decreases self,
    {
        match self {
            Instruction::PushConst(c) => SpecInstr::PushConst(c.spec_view()),
            Instruction::PushCurrentFunction => SpecInstr::PushCurrentFunction,
            Instruction::GetArg(n) => SpecInstr::GetArg(n as nat),
            Instruction::BindArg(n) => SpecInstr::BindArg(n as nat),
            Instruction::Deref(s) => SpecInstr::Deref(s@),
            Instruction::Define(s) => SpecInstr::Define(s@),
            Instruction::Eval(n) => SpecInstr::Eval(n as nat),
            Instruction::EvalNative { func, arg_count } => SpecInstr::EvalNative(
                func,
                arg_count as nat,
            ),
            Instruction::JumpIf(n) => SpecInstr::JumpIf(n as nat),
            Instruction::Jump(n) => SpecInstr::Jump(n as nat),
            Instruction::Pop(n) => SpecInstr::Pop(n as nat),
            Instruction::Return => SpecInstr::Return,
        }
    }
}

impl<'a> ByteCode<'a> {
    pub open spec fn spec_view(self) -> SpecByteCode
        decreases self,
    {
        SpecByteCode {
            name: self.name@,
            arg_count: self.arg_count as nat,
            local_bindings: self.local_bindings as nat,
            instructions: instrs_view(self.instructions@),
            source: match self.source {
                Some(s) => Some(s@),
                None => None,
            },
            instruction_source: self.instruction_source@,
        }
    }
}

/// The values of a sequence of instructions.
pub open spec fn instrs_view<'a>(v: Seq<Instruction<'a>>) -> Seq<SpecInstr>
    decreases v,
{
    if v.len() == 0 {
        Seq::empty()
    } else {
        instrs_view(v.drop_last()).push(v.last().spec_view())
    }
}

/// The spans of the float literals of `b`, nested functions included, in order.
pub open spec fn code_floats(b: SpecByteCode) -> Seq<Span>
    decreases b, 2int,
{
    instrs_floats(b.instructions)
}

/// The spans of the float literals of the instructions `v`, in order.
pub open spec fn instrs_floats(v: Seq<SpecInstr>) -> Seq<Span>
    decreases v, 1int,
{
    if v.len() == 0 {
        Seq::empty()
    } else {
        instrs_floats(v.drop_last()) + instr_floats(v.last())
    }
}

/// The spans of the float literals of the instruction `i`.
pub open spec fn instr_floats(i: SpecInstr) -> Seq<Span>
    decreases i, 0int,
{
    match i {
        SpecInstr::PushConst(SpecConst::Float(s)) => seq![s],
        SpecInstr::PushConst(SpecConst::Function(f)) => code_floats(*f),
        _ => Seq::empty(),
    }
}

/// The spans of the float literals of `code`, nested functions included, in order: where the
/// host is to read the floats that loading the code needs.
pub fn float_spans<'a>(code: &ByteCode<'a>) -> (r: Vec<Span>)
    ensures
        r@ == code_floats(code.spec_view()),
    decreases code.spec_view(),
{
    let ghost v = code.instructions@;
    let ghost b = code.spec_view();
    proof {
        lemma_instrs_view_index(v);
    }
    let mut r: Vec<Span> = Vec::new();
    let mut i: usize = 0;
    proof {
        assert(instrs_view(v.take(0)) =~= Seq::<SpecInstr>::empty());
    }
    while i < code.instructions.len()
        invariant
            v == code.instructions@,
            b == code.spec_view(),
            b.instructions == instrs_view(v),
            instrs_view(v).len() == v.len(),
            forall|j: int| 0 <= j < v.len() ==> #[trigger] instrs_view(v)[j] == v[j].spec_view(),
            i <= v.len(),
            r@ == instrs_floats(instrs_view(v.take(i as int))),
        decreases v.len() - i,
    {
        let ghost before = r@;
        proof {
            lemma_instrs_view_index(v.take(i + 1));
            lemma_instrs_view_index(v.take(i as int));
            assert(instrs_view(v.take(i + 1)).drop_last() =~= instrs_view(v.take(i as int)));
            assert(instrs_view(v.take(i + 1)).last() == v[i as int].spec_view());
            assert(instrs_floats(instrs_view(v.take(i + 1))) == before + instr_floats(v[i as int].spec_view()));
        }
        match &code.instructions[i] {
            Instruction::PushConst(Const::Float(s)) => {
                r.push(*s);
                proof {
                    assert(r@ =~= before + instr_floats(v[i as int].spec_view()));
                }
            },
            Instruction::PushConst(Const::Function(inner)) => {
                proof {
                    let sc = SpecConst::Function(Box::new((**inner).spec_view()));
                    assert(b.instructions[i as int] == SpecInstr::PushConst(sc));
                    assert(decreases_to!(b => b.instructions));
                    assert(decreases_to!(b.instructions => b.instructions[i as int]));
                    let ins = b.instructions[i as int];
                    assert(decreases_to!(ins => ins->PushConst_0));
                    assert(ins->PushConst_0 == sc);
                    assert(decreases_to!(sc => sc->Function_0));
                }
                let mut more = float_spans(inner);
                r.append(&mut more);
                proof {
                    assert(instr_floats(v[i as int].spec_view()) == code_floats((**inner).spec_view()));
                    assert(r@ =~= before + instr_floats(v[i as int].spec_view()));
                }
            },
            _ => {
                proof {
                    assert(instr_floats(v[i as int].spec_view()) =~= Seq::<Span>::empty());
                    assert(r@ =~= before + instr_floats(v[i as int].spec_view()));
                }
            },
        }
        i = i + 1;
    }
    proof {
        assert(v.take(i as int) =~= v);
    }
    r
}

pub proof fn lemma_instrs_view_index<'a>(v: Seq<Instruction<'a>>)
    ensures
        instrs_view(v).len() == v.len(),
        forall|i: int| 0 <= i < v.len() ==> #[trigger] instrs_view(v)[i] == v[i].spec_view(),
    decreases v.len(),
{
    if v.len() > 0 {
        lemma_instrs_view_index(v.drop_last());
        assert forall|i: int| 0 <= i < v.len() implies #[trigger] instrs_view(v)[i]
            == v[i].spec_view() by {
            if i < v.len() - 1 {
                assert(v.drop_last()[i] == v[i]);
            }
        }
    }
}

/// What the compiler reads besides the expression: its settings, the global values known at
/// compile time (for inlining), and the source that the bytecode keeps.
pub struct CompileEnv {
    pub settings: Settings,
    pub globals: Seq<(Seq<char>, GlobalVal)>,
    pub source: Option<Seq<char>>,
}

/// The names in scope while compiling: the function's arguments, the local bindings of the
/// enclosing lets (innermost last) and the function's own name.
pub struct Scope {
    pub args: Seq<Seq<char>>,
    pub locals: Seq<Seq<char>>,
    pub name: Option<Seq<char>>,
}

/// What compiling adds: instructions, the span of each, and the local space now required.
pub type Gen = (Seq<SpecInstr>, Seq<Span>, nat);

/// The value of the first global named `name`.
pub open spec fn global_of(globals: Seq<(Seq<char>, GlobalVal)>, name: Seq<char>) -> Option<
    GlobalVal,
>
    decreases globals.len(),
{
    if globals.len() == 0 {
        None
    } else if globals[0].0 == name {
        Some(globals[0].1)
    } else {
        global_of(globals.drop_first(), name)
    }
}

/// The index of the last occurrence of `name` in `v`.
pub open spec fn last_index(v: Seq<Seq<char>>, name: Seq<char>) -> Option<int>
    decreases v.len(),
{
    if v.len() == 0 {
        None
    } else if v.last() == name {
        Some(v.len() - 1)
    } else {
        last_index(v.drop_last(), name)
    }
}

/// The slot of `name` among the arguments and local bindings: the innermost local binding of
/// that name, else the last argument of that name.
pub open spec fn arg_slot(scope: Scope, name: Seq<char>) -> Option<int> {
    match last_index(scope.locals, name) {
        Some(i) => Some(i + scope.args.len()),
        None => last_index(scope.args, name),
    }
}

/// The constant a constant expression pushes.
pub open spec fn const_of(c: SpecConstant) -> SpecConst {
    match c {
        SpecConstant::Void => SpecConst::Void,
        SpecConstant::Bool(b) => SpecConst::Bool(b),
        SpecConstant::Int(x) => SpecConst::Int(x),
        SpecConstant::Float(s) => SpecConst::Float(s),
        SpecConstant::String(s) => SpecConst::String(s),
    }
}

/// The instruction that dereferences `name`: an argument or local binding, the function itself,
/// an inlined global, or a symbol looked up when run.
pub open spec fn deref_instr(env: CompileEnv, scope: Scope, name: Seq<char>) -> SpecInstr {
    match arg_slot(scope, name) {
        Some(i) => SpecInstr::GetArg(i as nat),
        None => if scope.name == Some(name) {
            SpecInstr::PushCurrentFunction
        } else if env.settings.enable_aggressive_inline && global_of(env.globals, name) is Some {
            SpecInstr::PushConst(SpecConst::Global(global_of(env.globals, name)->0))
        } else {
            SpecInstr::Deref(name)
        },
    }
}

/// The native function that a call of `function` runs directly, under aggressive inlining.
pub open spec fn inlined_native(env: CompileEnv, function: SpecIr) -> Option<u32> {
    if env.settings.enable_aggressive_inline {
        match function {
            SpecIr::Deref(_, name) => match global_of(env.globals, name) {
                Some(GlobalVal::NativeFunction(f)) => Some(f),
                _ => None,
            },
            _ => None,
        }
    } else {
        None
    }
}

/// `g` followed by `h`.
pub open spec fn then_gen(g: Gen, h: Gen) -> Gen {
    (g.0 + h.0, g.1 + h.1, h.2)
}

/// One more instruction at the end of `g`.
pub open spec fn push_gen(g: Gen, i: SpecInstr, s: Span) -> Gen {
    (g.0.push(i), g.1.push(s), g.2)
}

/// `g` in front of the code of a successful result of compiling bindings.
pub open spec fn bindings_then(g: Gen, r: Result<(Gen, Scope), SpecCompileError>) -> Result<
    (Gen, Scope),
    SpecCompileError,
> {
    match r {
        Err(e) => Err(e),
        Ok((rest, last)) => Ok((then_gen(g, rest), last)),
    }
}

/// The empty span that instructions with no source of their own carry.
pub open spec fn no_span() -> Span {
    Span { start: 0, end: 0 }
}

/// Compiles one expression; `module` tells whether it stands at the top level, where only
/// `define` is allowed.
pub open spec fn spec_one(env: CompileEnv, scope: Scope, space: nat, ir: SpecIr, module: bool) -> Result<
    Gen,
    SpecCompileError,
>
    decreases ir, 3int,
{
    match ir {
        SpecIr::Constant(span, c) => Ok((seq![SpecInstr::PushConst(const_of(c))], seq![span], space)),
        SpecIr::Deref(span, name) => Ok((seq![deref_instr(env, scope, name)], seq![span], space)),
        SpecIr::FunctionCall(span, function, args) => match inlined_native(env, *function) {
            Some(f) => match spec_all(env, scope, space, args) {
                Err(e) => Err(e),
                Ok(a) => Ok(push_gen(a, SpecInstr::EvalNative(f, args.len()), span)),
            },
            None => match spec_one(env, scope, space, *function, false) {
                Err(e) => Err(e),
                Ok(fg) => match spec_all(env, scope, fg.2, args) {
                    Err(e) => Err(e),
                    Ok(a) => Ok(push_gen(then_gen(fg, a), SpecInstr::Eval(args.len() + 1), span)),
                },
            },
        },
        SpecIr::Define(span, name, expr) => if !module {
            Err(SpecCompileError::DefineNotAllowed)
        } else if *expr is Return {
            Err(SpecCompileError::ExpectedExpression { context: "define"@ })
        } else {
            match spec_one(env, scope, space, *expr, false) {
                Err(e) => Err(e),
                Ok(g) => Ok(push_gen(g, SpecInstr::Define(name), span)),
            }
        },
        SpecIr::If(span, predicate, true_expr, false_expr) => if *predicate is Return {
            Err(SpecCompileError::ExpectedExpression { context: "if predicate"@ })
        } else {
            match spec_one(env, scope, space, *predicate, false) {
                Err(e) => Err(e),
                Ok(p) => {
                    let f = match false_expr {
                        Some(e) => spec_one(env, scope, p.2, *e, false),
                        None => Ok((seq![SpecInstr::PushConst(SpecConst::Void)], seq![no_span()], p.2)),
                    };
                    match f {
                        Err(e) => Err(e),
                        Ok(fg) => match spec_one(env, scope, fg.2, *true_expr, false) {
                            Err(e) => Err(e),
                            Ok(t) => Ok(
                                then_gen(
                                    push_gen(
                                        then_gen(
                                            push_gen(p, SpecInstr::JumpIf(fg.0.len() + 1), span),
                                            fg,
                                        ),
                                        SpecInstr::Jump(t.0.len()),
                                        span,
                                    ),
                                    t,
                                ),
                            ),
                        },
                    }
                },
            }
        },
        SpecIr::Lambda(span, name, args, exprs) => match spec_lambda(env, name, args, exprs) {
            Err(e) => Err(e),
            Ok(b) => Ok((seq![SpecInstr::PushConst(SpecConst::Function(Box::new(b)))], seq![span], space)),
        },
        SpecIr::Let(span, bindings, exprs) => match spec_bindings(env, scope, space, span, bindings) {
            Err(e) => Err(e),
            Ok((b, inner)) => match spec_many(env, inner, b.2, exprs, true) {
                Err(e) => Err(e),
                Ok(body) => {
                    let g = then_gen(b, body);
                    let n = inner.locals.len();
                    Ok((g.0, g.1, if g.2 >= n { g.2 } else { n }))
                },
            },
        },
        SpecIr::Return(expr) => match spec_one(env, scope, space, *expr, false) {
            Err(e) => Err(e),
            Ok(g) => Ok(push_gen(g, SpecInstr::Return, no_span())),
        },
    }
}

/// Compiles each expression in turn, keeping every value; the first error wins.
pub open spec fn spec_all(env: CompileEnv, scope: Scope, space: nat, exprs: Seq<SpecIr>) -> Result<
    Gen,
    SpecCompileError,
>
    decreases exprs, 2int,
{
    if exprs.len() == 0 {
        Ok((Seq::empty(), Seq::empty(), space))
    } else {
        match spec_all(env, scope, space, exprs.drop_last()) {
            Err(e) => Err(e),
            Ok(g) => match spec_one(env, scope, g.2, exprs.last(), false) {
                Err(e) => Err(e),
                Ok(h) => Ok(then_gen(g, h)),
            },
        }
    }
}

/// Compiles the body of a function or a let: every value is kept (`keep_single` false), or only
/// the last one (`keep_single` true), in which case an empty body leaves `void`.
pub open spec fn spec_many(
    env: CompileEnv,
    scope: Scope,
    space: nat,
    exprs: Seq<SpecIr>,
    keep_single: bool,
) -> Result<Gen, SpecCompileError>
    decreases exprs, 2int,
{
    if exprs.len() == 0 {
        if keep_single {
            Ok((seq![SpecInstr::PushConst(SpecConst::Void)], seq![no_span()], space))
        } else {
            Ok((Seq::empty(), Seq::empty(), space))
        }
    } else {
        let init = exprs.drop_last();
        match spec_all(env, scope, space, init) {
            Err(e) => Err(e),
            Ok(g) => {
                let g2 = if init.len() > 0 && keep_single {
                    push_gen(g, SpecInstr::Pop(init.len()), no_span())
                } else {
                    g
                };
                match spec_one(env, scope, g2.2, exprs.last(), false) {
                    Err(e) => Err(e),
                    Ok(h) => Ok(then_gen(g2, h)),
                }
            },
        }
    }
}

/// Compiles let bindings in turn: each value is computed with the earlier bindings in scope,
/// then bound to a new local; each binding carries the let's `span`. Returns the code and the
/// scope with every binding.
pub open spec fn spec_bindings(
    env: CompileEnv,
    scope: Scope,
    space: nat,
    span: Span,
    bindings: Seq<(Seq<char>, SpecIr)>,
) -> Result<(Gen, Scope), SpecCompileError>
    decreases bindings, 2int,
{
    if bindings.len() == 0 {
        Ok(((Seq::empty(), Seq::empty(), space), scope))
    } else {
        match spec_one(env, scope, space, bindings[0].1, false) {
            Err(e) => Err(e),
            Ok(v) => {
                let slot = scope.args.len() + scope.locals.len();
                let inner = Scope { locals: scope.locals.push(bindings[0].0), ..scope };
                match spec_bindings(env, inner, v.2, span, bindings.drop_first()) {
                    Err(e) => Err(e),
                    Ok((rest, last)) => Ok(
                        (then_gen(push_gen(v, SpecInstr::BindArg(slot as nat), span), rest), last),
                    ),
                }
            },
        }
    }
}

/// Compiles a lambda into a function: its body must not be empty and its arguments must be
/// distinct; the body keeps every value.
pub open spec fn spec_lambda(
    env: CompileEnv,
    name: Option<Seq<char>>,
    args: Seq<Seq<char>>,
    exprs: Seq<SpecIr>,
) -> Result<SpecByteCode, SpecCompileError>
    decreases exprs, 3int,
{
    if exprs.len() == 0 {
        Err(SpecCompileError::ExpectedExpression { context: "lambda definition expressions"@ })
    } else if exists|k: int| duplicate_index(args, k) {
        Err(
            SpecCompileError::ArgumentDefinedMultipleTimes(
                args[choose|k: int| duplicate_index(args, k)],
            ),
        )
    } else {
        let scope = Scope { args, locals: Seq::empty(), name };
        match spec_many(env, scope, 0, exprs, false) {
            Err(e) => Err(e),
            Ok(g) => Ok(
                SpecByteCode {
                    name: match name {
                        Some(n) => n,
                        None => Seq::empty(),
                    },
                    arg_count: args.len(),
                    local_bindings: g.2,
                    instructions: g.0,
                    source: env.source,
                    instruction_source: g.1,
                },
            ),
        }
    }
}

/// Compiles the results of parsing a source in turn: each node becomes an expression that is
/// compiled at once; the first error, of parsing or of compiling, wins.
pub open spec fn spec_module(
    env: CompileEnv,
    scope: Scope,
    space: nat,
    src: &str,
    rs: Seq<Result<SpecNode, AstParseError>>,
    module: bool,
) -> Result<Gen, SpecCompileError>
    decreases rs.len(),
{
    if rs.len() == 0 {
        Ok((Seq::empty(), Seq::empty(), space))
    } else {
        match rs[0] {
            Err(e) => Err(SpecCompileError::AstError(e)),
            Ok(n) => match spec_new(src, n) {
                Err(e) => Err(e),
                Ok(ir) => match spec_one(env, scope, space, ir, module) {
                    Err(e) => Err(e),
                    Ok(g) => match spec_module(env, scope, g.2, src, rs.drop_first(), module) {
                        Err(e) => Err(e),
                        Ok(h) => Ok(then_gen(g, h)),
                    },
                },
            },
        }
    }
}

/// The environment of a module compiled from `src`: the source is kept only with source maps.
pub open spec fn module_env(
    settings: Settings,
    globals: Seq<(Seq<char>, GlobalVal)>,
    src: Seq<char>,
) -> CompileEnv {
    CompileEnv {
        settings,
        globals,
        source: if settings.enable_source_maps {
            Some(src)
        } else {
            None
        },
    }
}

/// The scope at the top level of a module: no arguments, no local bindings, no name.
pub open spec fn module_scope() -> Scope {
    Scope { args: Seq::empty(), locals: Seq::empty(), name: None }
}

/// Compiles a whole source into the bytecode of a module: no name, no arguments, the local
/// space that its lets require.
pub open spec fn spec_compile(
    settings: Settings,
    globals: Seq<(Seq<char>, GlobalVal)>,
    src: &str,
) -> Result<SpecByteCode, SpecCompileError> {
    let env = module_env(settings, globals, src@);
    match spec_module(env, module_scope(), 0, src, spec_parse(src@), true) {
        Err(e) => Err(e),
        Ok(g) => Ok(
            SpecByteCode {
                name: Seq::empty(),
                arg_count: 0,
                local_bindings: g.2,
                instructions: g.0,
                source: env.source,
                instruction_source: g.1,
            },
        ),
    }
}

/// Every expression compiled from `src` has a size that fits in a `usize`, as it does in any
/// source a machine can hold.
pub open spec fn sizes_fit(src: &str) -> bool {
    forall|k: int|
        0 <= k < spec_parse(src@).len() ==> (#[trigger] spec_parse(src@)[k] matches Ok(n) ==> (
        spec_new(src, n) matches Ok(ir) ==> ir_size(ir) <= usize::MAX))
}

/// Each instruction of `b` comes with its span and every jump of `b` lands inside `b` (at most
/// one past its last instruction, where a function returns); so for every function that `b`
/// holds, however deeply nested.
pub open spec fn code_wf(b: SpecByteCode) -> bool
    decreases b, 2int,
{
    &&& b.instructions.len() == b.instruction_source.len()
    &&& jumps_within(b.instructions)
    &&& instrs_wf(b.instructions)
}

/// How far an instruction jumps past the next one.
pub open spec fn jump_len(i: SpecInstr) -> nat {
    match i {
        SpecInstr::JumpIf(n) => n,
        SpecInstr::Jump(n) => n,
        _ => 0,
    }
}

/// Every jump of `v` lands at most one past its last instruction.
pub open spec fn jumps_within(v: Seq<SpecInstr>) -> bool {
    forall|k: int| 0 <= k < v.len() ==> k + 1 + jump_len(#[trigger] v[k]) <= v.len()
}

/// Every function that the instructions hold is well formed.
pub open spec fn instrs_wf(v: Seq<SpecInstr>) -> bool
    decreases v, 1int,
{
    if v.len() == 0 {
        true
    } else {
        instrs_wf(v.drop_last()) && instr_wf(v.last())
    }
}

/// A function that the instruction holds is well formed.
pub open spec fn instr_wf(i: SpecInstr) -> bool
    decreases i, 0int,
{
    match i {
        SpecInstr::PushConst(SpecConst::Function(f)) => code_wf(*f),
        _ => true,
    }
}

/// Generated code gives a span to each instruction, its jumps land inside it, and its
/// functions are well formed.
pub open spec fn gen_wf(g: Gen) -> bool {
    g.0.len() == g.1.len() && jumps_within(g.0) && instrs_wf(g.0)
}

proof fn lemma_instrs_wf_concat(a: Seq<SpecInstr>, b: Seq<SpecInstr>)
    ensures
        instrs_wf(a + b) == (instrs_wf(a) && instrs_wf(b)),
    decreases b.len(),
{
    if b.len() == 0 {
        assert(a + b =~= a);
    } else {
        assert((a + b).drop_last() =~= a + b.drop_last());
        lemma_instrs_wf_concat(a, b.drop_last());
    }
}

proof fn lemma_then_wf(g: Gen, h: Gen)
    requires
        gen_wf(g),
        gen_wf(h),
    ensures
        gen_wf(then_gen(g, h)),
{
    lemma_instrs_wf_concat(g.0, h.0);
    let v = g.0 + h.0;
    assert forall|k: int| 0 <= k < v.len() implies k + 1 + jump_len(#[trigger] v[k]) <= v.len() by {
        if k >= g.0.len() {
            assert(v[k] == h.0[k - g.0.len()]);
        } else {
            assert(v[k] == g.0[k]);
        }
    }
}

proof fn lemma_push_wf(g: Gen, i: SpecInstr, s: Span)
    requires
        gen_wf(g),
        instr_wf(i),
        jump_len(i) == 0,
    ensures
        gen_wf(push_gen(g, i, s)),
{
    assert(g.0.push(i).drop_last() =~= g.0);
    let v = g.0.push(i);
    assert forall|k: int| 0 <= k < v.len() implies k + 1 + jump_len(#[trigger] v[k]) <= v.len() by {
        if k < g.0.len() {
            assert(v[k] == g.0[k]);
        }
    }
}

/// The code of an `if`: the predicate, a jump over the false branch, the false branch, a jump
/// over the true branch, the true branch.
proof fn lemma_if_wf(p: Gen, fg: Gen, t: Gen, span: Span)
    requires
        gen_wf(p),
        gen_wf(fg),
        gen_wf(t),
    ensures
        gen_wf(
            then_gen(
                push_gen(
                    then_gen(push_gen(p, SpecInstr::JumpIf(fg.0.len() + 1), span), fg),
                    SpecInstr::Jump(t.0.len()),
                    span,
                ),
                t,
            ),
        ),
{
    let a = push_gen(p, SpecInstr::JumpIf(fg.0.len() + 1), span);
    assert(a.0.drop_last() =~= p.0);
    assert(a.0.last() == SpecInstr::JumpIf(fg.0.len() + 1));
    assert(instr_wf(SpecInstr::JumpIf(fg.0.len() + 1)));
    assert(instrs_wf(a.0));
    let b = then_gen(a, fg);
    lemma_instrs_wf_concat(a.0, fg.0);
    assert(instrs_wf(b.0));
    let c = push_gen(b, SpecInstr::Jump(t.0.len()), span);
    assert(c.0.drop_last() =~= b.0);
    assert(c.0.last() == SpecInstr::Jump(t.0.len()));
    assert(instr_wf(SpecInstr::Jump(t.0.len())));
    assert(instrs_wf(c.0));
    let d = then_gen(c, t);
    lemma_instrs_wf_concat(c.0, t.0);
    assert(instrs_wf(d.0));
    assert(d.1.len() == d.0.len());
    let v = d.0;
    assert(v.len() == p.0.len() + fg.0.len() + t.0.len() + 2);
    assert forall|k: int| 0 <= k < v.len() implies k + 1 + jump_len(#[trigger] v[k]) <= v.len() by {
        if k < p.0.len() {
            assert(v[k] == p.0[k]);
        } else if k == p.0.len() {
            assert(v[k] == SpecInstr::JumpIf(fg.0.len() + 1));
        } else if k < p.0.len() + 1 + fg.0.len() {
            assert(v[k] == fg.0[k - p.0.len() - 1]);
        } else if k == p.0.len() + 1 + fg.0.len() {
            assert(v[k] == SpecInstr::Jump(t.0.len()));
        } else {
            assert(v[k] == t.0[k - p.0.len() - 2 - fg.0.len()]);
        }
    }
}

proof fn lemma_single_wf(i: SpecInstr, s: Span, space: nat)
    requires
        instr_wf(i),
        jump_len(i) == 0,
    ensures
        gen_wf((seq![i], seq![s], space)),
{
    assert(seq![i].drop_last() =~= Seq::<SpecInstr>::empty());
    assert(instrs_wf(Seq::<SpecInstr>::empty()));
    assert(seq![i].last() == i);
}

proof fn lemma_one_wf(env: CompileEnv, scope: Scope, space: nat, ir: SpecIr, module: bool)
    ensures
        spec_one(env, scope, space, ir, module) matches Ok(g) ==> gen_wf(g),
    decreases ir, 3int,
{
    match ir {
        SpecIr::Constant(span, c) => lemma_single_wf(SpecInstr::PushConst(const_of(c)), span, space),
        SpecIr::Deref(span, name) => lemma_single_wf(deref_instr(env, scope, name), span, space),
        SpecIr::FunctionCall(span, function, args) => {
            lemma_one_wf(env, scope, space, *function, false);
            lemma_all_wf(env, scope, space, args);
            if let Ok(fg) = spec_one(env, scope, space, *function, false) {
                lemma_all_wf(env, scope, fg.2, args);
                if let Ok(a) = spec_all(env, scope, fg.2, args) {
                    lemma_then_wf(fg, a);
                    lemma_push_wf(then_gen(fg, a), SpecInstr::Eval(args.len() + 1), span);
                }
            }
            if let Some(f) = inlined_native(env, *function) {
                if let Ok(a) = spec_all(env, scope, space, args) {
                    lemma_push_wf(a, SpecInstr::EvalNative(f, args.len()), span);
                }
            }
        },
        SpecIr::Define(span, name, expr) => {
            lemma_one_wf(env, scope, space, *expr, false);
            if let Ok(g) = spec_one(env, scope, space, *expr, false) {
                lemma_push_wf(g, SpecInstr::Define(name), span);
            }
        },
        SpecIr::If(span, predicate, true_expr, false_expr) => {
            lemma_one_wf(env, scope, space, *predicate, false);
            if let Ok(p) = spec_one(env, scope, space, *predicate, false) {
                let f = match false_expr {
                    Some(e) => spec_one(env, scope, p.2, *e, false),
                    None => Ok((seq![SpecInstr::PushConst(SpecConst::Void)], seq![no_span()], p.2)),
                };
                match false_expr {
                    Some(e) => lemma_one_wf(env, scope, p.2, *e, false),
                    None => lemma_single_wf(SpecInstr::PushConst(SpecConst::Void), no_span(), p.2),
                }
                if let Ok(fg) = f {
                    lemma_one_wf(env, scope, fg.2, *true_expr, false);
                    if let Ok(t) = spec_one(env, scope, fg.2, *true_expr, false) {
                        lemma_if_wf(p, fg, t, span);
                    }
                }
            }
        },
        SpecIr::Lambda(span, name, args, exprs) => {
            lemma_lambda_wf(env, name, args, exprs);
            if let Ok(b) = spec_lambda(env, name, args, exprs) {
                lemma_single_wf(SpecInstr::PushConst(SpecConst::Function(Box::new(b))), span, space);
            }
        },
        SpecIr::Let(span, bindings, exprs) => {
            lemma_bindings_wf(env, scope, space, span, bindings);
            if let Ok((b, inner)) = spec_bindings(env, scope, space, span, bindings) {
                lemma_many_wf(env, inner, b.2, exprs, true);
                if let Ok(body) = spec_many(env, inner, b.2, exprs, true) {
                    lemma_then_wf(b, body);
                }
            }
        },
        SpecIr::Return(expr) => {
            lemma_one_wf(env, scope, space, *expr, false);
            if let Ok(g) = spec_one(env, scope, space, *expr, false) {
                lemma_push_wf(g, SpecInstr::Return, no_span());
            }
        },
    }
}

proof fn lemma_all_wf(env: CompileEnv, scope: Scope, space: nat, exprs: Seq<SpecIr>)
    ensures
        spec_all(env, scope, space, exprs) matches Ok(g) ==> gen_wf(g),
    decreases exprs, 2int,
{
    if exprs.len() == 0 {
        assert(gen_wf((Seq::empty(), Seq::empty(), space)));
    } else {
        lemma_all_wf(env, scope, space, exprs.drop_last());
        if let Ok(g) = spec_all(env, scope, space, exprs.drop_last()) {
            assert(decreases_to!(exprs => exprs[exprs.len() - 1]));
            lemma_one_wf(env, scope, g.2, exprs.last(), false);
            if let Ok(h) = spec_one(env, scope, g.2, exprs.last(), false) {
                lemma_then_wf(g, h);
            }
        }
    }
}

proof fn lemma_many_wf(
    env: CompileEnv,
    scope: Scope,
    space: nat,
    exprs: Seq<SpecIr>,
    keep_single: bool,
)
    ensures
        spec_many(env, scope, space, exprs, keep_single) matches Ok(g) ==> gen_wf(g),
    decreases exprs, 2int,
{
    if exprs.len() == 0 {
        if keep_single {
            lemma_single_wf(SpecInstr::PushConst(SpecConst::Void), no_span(), space);
        } else {
            assert(gen_wf((Seq::empty(), Seq::empty(), space)));
        }
    } else {
        let init = exprs.drop_last();
        lemma_all_wf(env, scope, space, init);
        if let Ok(g) = spec_all(env, scope, space, init) {
            if init.len() > 0 && keep_single {
                lemma_push_wf(g, SpecInstr::Pop(init.len()), no_span());
            }
            let g2 = if init.len() > 0 && keep_single {
                push_gen(g, SpecInstr::Pop(init.len()), no_span())
            } else {
                g
            };
            assert(decreases_to!(exprs => exprs[exprs.len() - 1]));
            lemma_one_wf(env, scope, g2.2, exprs.last(), false);
            if let Ok(h) = spec_one(env, scope, g2.2, exprs.last(), false) {
                lemma_then_wf(g2, h);
            }
        }
    }
}

proof fn lemma_bindings_wf(
    env: CompileEnv,
    scope: Scope,
    space: nat,
    span: Span,
    bindings: Seq<(Seq<char>, SpecIr)>,
)
    ensures
        spec_bindings(env, scope, space, span, bindings) matches Ok((g, _)) ==> gen_wf(g),
    decreases bindings, 2int,
{
    if bindings.len() == 0 {
        assert(gen_wf((Seq::empty(), Seq::empty(), space)));
    } else {
        assert(decreases_to!(bindings => bindings[0]));
        assert(decreases_to!(bindings[0] => bindings[0].1));
        lemma_one_wf(env, scope, space, bindings[0].1, false);
        if let Ok(v) = spec_one(env, scope, space, bindings[0].1, false) {
            let slot = scope.args.len() + scope.locals.len();
            let inner = Scope { locals: scope.locals.push(bindings[0].0), ..scope };
            lemma_bindings_wf(env, inner, v.2, span, bindings.drop_first());
            if let Ok((rest, last)) = spec_bindings(env, inner, v.2, span, bindings.drop_first()) {
                lemma_push_wf(v, SpecInstr::BindArg(slot as nat), span);
                lemma_then_wf(push_gen(v, SpecInstr::BindArg(slot as nat), span), rest);
            }
        }
    }
}

proof fn lemma_lambda_wf(
    env: CompileEnv,
    name: Option<Seq<char>>,
    args: Seq<Seq<char>>,
    exprs: Seq<SpecIr>,
)
    ensures
        spec_lambda(env, name, args, exprs) matches Ok(b) ==> code_wf(b),
    decreases exprs, 3int,
{
    let scope = Scope { args, locals: Seq::empty(), name };
    lemma_many_wf(env, scope, 0, exprs, false);
}

proof fn lemma_module_wf(
    env: CompileEnv,
    scope: Scope,
    space: nat,
    src: &str,
    rs: Seq<Result<SpecNode, AstParseError>>,
    module: bool,
)
    ensures
        spec_module(env, scope, space, src, rs, module) matches Ok(g) ==> gen_wf(g),
    decreases rs.len(),
{
    if rs.len() == 0 {
        assert(gen_wf((Seq::empty(), Seq::empty(), space)));
    } else if let Ok(n) = rs[0] {
        if let Ok(ir) = spec_new(src, n) {
            lemma_one_wf(env, scope, space, ir, module);
            if let Ok(g) = spec_one(env, scope, space, ir, module) {
                lemma_module_wf(env, scope, g.2, src, rs.drop_first(), module);
                if let Ok(h) = spec_module(env, scope, g.2, src, rs.drop_first(), module) {
                    lemma_then_wf(g, h);
                }
            }
        }
    }
}

/// The layout of a compiled `if`: the predicate's code, a jump past the false branch when the
/// predicate is truthy, the false branch (`void` when there is none), a jump past the true
/// branch, and the true branch. So a truthy predicate runs the true branch, and a falsy one runs
/// the false branch and then jumps past the end of the true branch.
pub proof fn lemma_if_layout(
    env: CompileEnv,
    scope: Scope,
    space: nat,
    span: Span,
    p: SpecIr,
    t: SpecIr,
    f: Option<Box<SpecIr>>,
    module: bool,
    pg: Gen,
    fg: Gen,
    tg: Gen,
)
    requires
        !(p is Return),
        spec_one(env, scope, space, p, false) == Ok::<Gen, SpecCompileError>(pg),
        match f {
            Some(e) => spec_one(env, scope, pg.2, *e, false) == Ok::<Gen, SpecCompileError>(fg),
            None => fg == (seq![SpecInstr::PushConst(SpecConst::Void)], seq![no_span()], pg.2),
        },
        spec_one(env, scope, fg.2, t, false) == Ok::<Gen, SpecCompileError>(tg),
    ensures
        spec_one(env, scope, space, SpecIr::If(span, Box::new(p), Box::new(t), f), module) matches Ok(g)
            && g.0 == pg.0 + seq![SpecInstr::JumpIf(fg.0.len() + 1)] + fg.0 + seq![SpecInstr::Jump(tg.0.len())] + tg.0,
{
    let g = then_gen(
        push_gen(then_gen(push_gen(pg, SpecInstr::JumpIf(fg.0.len() + 1), span), fg), SpecInstr::Jump(tg.0.len()), span),
        tg,
    );
    assert(spec_one(env, scope, space, SpecIr::If(span, Box::new(p), Box::new(t), f), module) == Ok::<Gen, SpecCompileError>(g));
    assert(g.0 =~= pg.0 + seq![SpecInstr::JumpIf(fg.0.len() + 1)] + fg.0 + seq![SpecInstr::Jump(tg.0.len())] + tg.0);
}

/// A compiled module gives each of its instructions a span and none of its jumps leaves it;
/// so for every function that it holds, however deeply nested. The module itself has no name
/// and no arguments, and keeps its source exactly when source maps are on.
pub proof fn lemma_compile_code_wf(
    settings: Settings,
    globals: Seq<(Seq<char>, GlobalVal)>,
    src: &str,
)
    ensures
        spec_compile(settings, globals, src) matches Ok(b) ==> code_wf(b),
        spec_compile(settings, globals, src) matches Ok(b) ==> b.name == Seq::<char>::empty() && b.arg_count == 0
            && b.instructions.len() == b.instruction_source.len()
            && b.source == (if settings.enable_source_maps { Some(src@) } else { None }),
{
    let env = module_env(settings, globals, src@);
    lemma_module_wf(env, module_scope(), 0, src, spec_parse(src@), true);
}

/// The number of nodes of an expression; a lambda counts its arguments too.
pub open spec fn ir_size(ir: SpecIr) -> nat
    decreases ir, 1int,
{
    match ir {
        SpecIr::Constant(_, _) => 1,
        SpecIr::Deref(_, _) => 1,
        SpecIr::FunctionCall(_, function, args) => 1 + ir_size(*function) + irs_size(args),
        SpecIr::Define(_, _, expr) => 1 + ir_size(*expr),
        SpecIr::If(_, predicate, true_expr, false_expr) => 1 + ir_size(*predicate) + ir_size(
            *true_expr,
        ) + match false_expr {
            Some(e) => ir_size(*e),
            None => 0,
        },
        SpecIr::Lambda(_, _, args, exprs) => 1 + args.len() + irs_size(exprs),
        SpecIr::Let(_, bindings, exprs) => 1 + bindings_size(bindings) + irs_size(exprs),
        SpecIr::Return(expr) => 1 + ir_size(*expr),
    }
}

/// The number of nodes of a sequence of expressions.
pub open spec fn irs_size(v: Seq<SpecIr>) -> nat
    decreases v, 0int,
{
    if v.len() == 0 {
        0
    } else {
        irs_size(v.drop_last()) + ir_size(v.last())
    }
}

/// The number of nodes of let bindings, each binding counting one for its name.
pub open spec fn bindings_size(bs: Seq<(Seq<char>, SpecIr)>) -> nat
    decreases bs, 0int,
{
    if bs.len() == 0 {
        0
    } else {
        1 + ir_size(bs[0].1) + bindings_size(bs.drop_first())
    }
}

pub proof fn lemma_ir_size_pos(ir: SpecIr)
    ensures
        ir_size(ir) >= 1,
{
}

pub proof fn lemma_irs_size(v: Seq<SpecIr>)
    ensures
        irs_size(v) >= v.len(),
        forall|i: int| 0 <= i < v.len() ==> ir_size(#[trigger] v[i]) <= irs_size(v),
        v.len() > 0 ==> irs_size(v.drop_last()) + ir_size(v.last()) == irs_size(v),
    decreases v.len(),
{
    if v.len() > 0 {
        lemma_irs_size(v.drop_last());
        lemma_ir_size_pos(v.last());
        assert forall|i: int| 0 <= i < v.len() implies ir_size(#[trigger] v[i]) <= irs_size(v) by {
            if i < v.len() - 1 {
                assert(v.drop_last()[i] == v[i]);
            }
        }
    }
}

pub proof fn lemma_bindings_size(bs: Seq<(Seq<char>, SpecIr)>)
    ensures
        bindings_size(bs) >= bs.len(),
        forall|i: int| 0 <= i < bs.len() ==> i + 1 + ir_size(#[trigger] bs[i].1) <= bindings_size(bs),
    decreases bs.len(),
{
    if bs.len() > 0 {
        lemma_bindings_size(bs.drop_first());
        assert forall|i: int| 0 <= i < bs.len() implies i + 1 + ir_size(#[trigger] bs[i].1) <= bindings_size(bs) by {
            if i > 0 {
                assert(bs.drop_first()[i - 1] == bs[i]);
            }
        }
    }
}

/// Keeping every value is compiling each expression in turn.
pub proof fn lemma_many_keep_all(env: CompileEnv, scope: Scope, space: nat, exprs: Seq<SpecIr>)
    ensures
        spec_many(env, scope, space, exprs, false) == spec_all(env, scope, space, exprs),
{
}

pub proof fn lemma_instrs_view_update<'a>(v: Seq<Instruction<'a>>, i: int, x: Instruction<'a>)
    requires
        0 <= i < v.len(),
    ensures
        instrs_view(v.update(i, x)) == instrs_view(v).update(i, x.spec_view()),
{
    lemma_instrs_view_index(v);
    lemma_instrs_view_index(v.update(i, x));
    assert(instrs_view(v.update(i, x)) =~= instrs_view(v).update(i, x.spec_view()));
}

} // verus!
