//! The virtual machine: a stack of values, the global values by symbol, and a stack of call
//! frames over the functions that memory holds.
//!
//! The machine runs one instruction at a time ([`Vm::run_next`]). Native functions are the
//! host's: when an instruction calls one, the step hands the call out ([`Step::CallNative`])
//! and the host answers it with [`Vm::return_from_native`].
use compact_str::CompactString;
use vstd::prelude::*;

use crate::bytecode::{ByteCode, Const, GlobalVal, Instruction, SpecByteCode, SpecConst, SpecInstr, lemma_instrs_view_index, instrs_view};
use crate::span::Span;
use crate::compact::{compact_chars, compact_new};
use crate::keep_reachable::GcKind;
use crate::memory::{field_names, field_values, gc_reachable, lemma_fields_map_dom, lemma_fields_map_index, truthy, Function, FunctionSlot, MemoryManager, ObjKind, StructVal, UnsafeVal};
use crate::natives::{is_arity, NativeError};
use crate::object_store::{ObjectStore, ValId};
use crate::settings::Settings;
use crate::symbol::Symbol;

verus! {

/// The most frames that may wait below a function that calls a function of bytecode.
pub const MAX_CALL_DEPTH: usize = 64;

/// What the machine runs: the function (none for a call into the host), the index of its
/// next instruction, and where the function's values start on the stack.
#[derive(Copy, Clone, Debug)]
pub struct StackFrame {
    pub function: Option<ValId<FunctionSlot>>,
    pub instruction_idx: usize,
    pub stack_start: usize,
}

impl Default for StackFrame {
    /// A frame that runs nothing, at the bottom of the stack.
    fn default() -> (r: StackFrame)
        ensures
            r == spec_default_frame(),
    {
        StackFrame { function: None, instruction_idx: 0, stack_start: 0 }
    }
}

/// The frame that runs nothing, at the bottom of the stack.
pub open spec fn spec_default_frame() -> StackFrame {
    StackFrame { function: None, instruction_idx: 0, stack_start: 0 }
}

/// What one step of the machine leads to.
#[derive(Copy, Clone, Debug)]
pub enum Step {
    /// The machine can go on.
    Continue,
    /// The evaluation ended with this value.
    Done(UnsafeVal),
    /// The host is to call its native function with this number on [`Vm::native_args`], and
    /// answer with [`Vm::return_from_native`].
    CallNative(u32),
}

/// Why a step of the machine failed.
#[derive(Debug)]
#[allow(inconsistent_fields)]
pub enum ExecError {
    /// A value of the wrong type was given.
    TypeError { context: &'static str, expected: &'static str, value: UnsafeVal },
    /// A function was called with the wrong number of arguments.
    ArityError { function: CompactString, expected: usize, actual: usize },
    /// A symbol was dereferenced before it was defined.
    SymbolNotDefined { symbol: String },
    /// The call stack grew beyond its limit.
    MaximumFunctionCallDepth { max_depth: usize, call_stack: Vec<CompactString> },
    /// The stack or the frames are in a state that compiled code never leads to.
    InvalidVmState,
}

/// The mathematical value of an [`ExecError`].
pub enum SpecExecError {
    /// The context, the expected type, and the value given.
    TypeError(Seq<char>, Seq<char>, UnsafeVal),
    Arity(Seq<char>, nat, nat),
    NotDefined(Seq<char>),
    /// The depth reported, and the call stack.
    MaxDepth(nat, Seq<Seq<char>>),
    Invalid,
}

/// The error of calling the value `v`, which is not a function.
pub open spec fn not_a_function(v: UnsafeVal) -> SpecExecError {
    SpecExecError::TypeError("function invocation"@, "function"@, v)
}

/// The error of a call stack `trace` that is full.
pub open spec fn max_depth(trace: Seq<Seq<char>>) -> SpecExecError {
    SpecExecError::MaxDepth(trace.len(), trace)
}

impl ExecError {
    pub open spec fn spec_view(&self) -> SpecExecError {
        match self {
            ExecError::TypeError { context, expected, value } => SpecExecError::TypeError(
                context@,
                expected@,
                *value,
            ),
            ExecError::ArityError { function, expected, actual } => SpecExecError::Arity(
                compact_chars(*function),
                *expected as nat,
                *actual as nat,
            ),
            ExecError::SymbolNotDefined { symbol } => SpecExecError::NotDefined(symbol@),
            ExecError::MaximumFunctionCallDepth { max_depth, call_stack } => SpecExecError::MaxDepth(
                *max_depth as nat,
                call_stack@.map_values(|s: CompactString| compact_chars(s)),
            ),
            ExecError::InvalidVmState => SpecExecError::Invalid,
        }
    }
}

/// The state of a machine, as its steps see it.
pub struct VmState {
    pub stack: Seq<UnsafeVal>,
    pub globals: Map<Symbol, UnsafeVal>,
    pub frame: StackFrame,
    pub frames: Seq<StackFrame>,
    pub native_slot: usize,
    pub symbols: Seq<Seq<char>>,
}

/// What a step leads to: the next state and what to do, or an error.
pub enum Outcome {
    Next(VmState, Step),
    Fail(SpecExecError),
}

/// The function that the frame `f` runs, when memory holds it.
pub open spec fn frame_function<'a, C>(m: MemoryManager<'a, C>, f: StackFrame) -> Option<Function<'a>> {
    match f.function {
        Some(id) => if m.bytecodes().live(id.idx as int) {
            Some(m.bytecodes().object(id.idx as int))
        } else {
            None
        },
        None => None,
    }
}

/// The name that a call stack shows for the frame `f`.
pub open spec fn frame_name<'a, C>(m: MemoryManager<'a, C>, f: StackFrame) -> Seq<char> {
    match frame_function(m, f) {
        Some(func) => func.code.name@,
        None => "native-call"@,
    }
}

/// The call stack of `s`, from the bottom frame to the running one.
pub open spec fn spec_stack_trace<'a, C>(m: MemoryManager<'a, C>, s: VmState) -> Seq<Seq<char>> {
    s.frames.push(s.frame).map_values(|f: StackFrame| frame_name(m, f))
}

/// The symbol of `name` in a machine with the id `vm_id` and the interned strings `symbols`.
pub open spec fn symbol_named(vm_id: u16, symbols: Seq<Seq<char>>, name: Seq<char>) -> Option<Symbol> {
    if symbols.contains(name) {
        Some(Symbol { vm_id, idx: symbols.index_of(name) as u32 })
    } else {
        None
    }
}

/// The global value named `name`, if one is defined.
pub open spec fn global_named(vm_id: u16, s: VmState, name: Seq<char>) -> Option<UnsafeVal> {
    match symbol_named(vm_id, s.symbols, name) {
        Some(sym) => if s.globals.contains_key(sym) {
            Some(s.globals[sym])
        } else {
            None
        },
        None => None,
    }
}

/// The instruction `idx` of `f`; `Return` past its end, and for a frame without a function.
pub open spec fn instr_at<'a>(f: Option<Function<'a>>, idx: int) -> Instruction<'a> {
    match f {
        Some(func) => if 0 <= idx < func.code.instructions@.len() {
            func.code.instructions@[idx]
        } else {
            Instruction::Return
        },
        None => Instruction::Return,
    }
}

/// The value that memory holds for the constant of instruction `idx` of `f`, if any.
pub open spec fn const_at<'a>(f: Option<Function<'a>>, idx: int) -> Option<UnsafeVal> {
    match f {
        Some(func) => if 0 <= idx < func.consts@.len() {
            func.consts@[idx]
        } else {
            None
        },
        None => None,
    }
}

/// The value that `PushConst(c)` pushes: the one that memory holds for it, else `c` itself
/// when it is `void`, a bool or an int.
pub open spec fn pushed<'a>(c: Const<'a>, slot: Option<UnsafeVal>) -> Option<UnsafeVal> {
    match slot {
        Some(v) => Some(v),
        None => match c {
            Const::Void => Some(UnsafeVal::Void),
            Const::Bool(b) => Some(UnsafeVal::Bool(b)),
            Const::Int(x) => Some(UnsafeVal::Int(x)),
            _ => None,
        },
    }
}

/// The first `k` values of `v`, or all of them when there are fewer.
pub open spec fn spec_truncate(v: Seq<UnsafeVal>, k: int) -> Seq<UnsafeVal> {
    if k < v.len() {
        v.take(k)
    } else {
        v
    }
}

/// `s` with another stack.
pub open spec fn with_stack(s: VmState, stack: Seq<UnsafeVal>) -> VmState {
    VmState {
        stack,
        globals: s.globals,
        frame: s.frame,
        frames: s.frames,
        native_slot: s.native_slot,
        symbols: s.symbols,
    }
}

/// `s` with other interned strings.
pub open spec fn with_symbols(s: VmState, symbols: Seq<Seq<char>>) -> VmState {
    VmState {
        stack: s.stack,
        globals: s.globals,
        frame: s.frame,
        frames: s.frames,
        native_slot: s.native_slot,
        symbols,
    }
}

/// `s` with its running frame at the instruction `idx`.
pub open spec fn at_instruction(s: VmState, idx: int) -> VmState {
    VmState {
        stack: s.stack,
        globals: s.globals,
        frame: StackFrame {
            function: s.frame.function,
            instruction_idx: idx as usize,
            stack_start: s.frame.stack_start,
        },
        frames: s.frames,
        native_slot: s.native_slot,
        symbols: s.symbols,
    }
}

/// `s` with a call into the host on top: the running frame waits, the arguments start at
/// `start` and the result is to go at `slot`.
pub open spec fn native_call(s: VmState, start: int, slot: int) -> VmState {
    VmState {
        stack: s.stack,
        globals: s.globals,
        frame: StackFrame { function: None, instruction_idx: 0, stack_start: start as usize },
        frames: s.frames.push(s.frame),
        native_slot: slot as usize,
        symbols: s.symbols,
    }
}

/// `s` after a jump of `n` instructions past the next one.
pub open spec fn spec_jump(s: VmState, n: usize) -> Outcome {
    if s.frame.instruction_idx + n <= usize::MAX {
        Outcome::Next(at_instruction(s, s.frame.instruction_idx + n), Step::Continue)
    } else {
        Outcome::Fail(SpecExecError::Invalid)
    }
}

/// `s` after its top value is assigned to the global `sym`, with the interned strings
/// `symbols`.
pub open spec fn spec_define(s: VmState, sym: Symbol, symbols: Seq<Seq<char>>) -> VmState {
    VmState {
        stack: s.stack.drop_last(),
        globals: s.globals.insert(sym, s.stack.last()),
        frame: s.frame,
        frames: s.frames,
        native_slot: s.native_slot,
        symbols,
    }
}

/// Calling the top `n` values of the stack of `s`: the deepest is the function, the others its
/// arguments. A native function is handed to the host; a function of bytecode gets a frame
/// of its own, after its local bindings are pushed as `void`.
pub open spec fn spec_eval<'a, C>(m: MemoryManager<'a, C>, s: VmState, n: usize) -> Outcome {
    if n == 0 || n > s.stack.len() {
        Outcome::Fail(SpecExecError::Invalid)
    } else {
        let fidx = s.stack.len() - n;
        match s.stack[fidx] {
            UnsafeVal::NativeFunction(func) => Outcome::Next(
                native_call(s, fidx + 1, fidx),
                Step::CallNative(func),
            ),
            UnsafeVal::ByteCodeFunction(id) => if !m.bytecodes().live(id.idx as int) {
                Outcome::Fail(SpecExecError::Invalid)
            } else {
                let code = m.bytecodes().object(id.idx as int).code;
                if code.arg_count != n - 1 {
                    Outcome::Fail(SpecExecError::Arity(code.name@, code.arg_count as nat, (n - 1) as nat))
                } else if s.frames.len() >= MAX_CALL_DEPTH {
                    Outcome::Fail(max_depth(spec_stack_trace(m, s)))
                } else if s.stack.len() + code.local_bindings > usize::MAX {
                    Outcome::Fail(SpecExecError::Invalid)
                } else {
                    Outcome::Next(
                        VmState {
                            stack: s.stack + Seq::new(code.local_bindings as nat, |i: int| UnsafeVal::Void),
                            globals: s.globals,
                            frame: StackFrame {
                                function: Some(id),
                                instruction_idx: 0,
                                stack_start: (fidx + 1) as usize,
                            },
                            frames: s.frames.push(s.frame),
                            native_slot: s.native_slot,
                            symbols: s.symbols,
                        },
                        Step::Continue,
                    )
                }
            },
            v => Outcome::Fail(not_a_function(v)),
        }
    }
}

/// Returning from the running frame of `s`. Its top value, if it has one, is the result
/// (else `void`). Into a function of bytecode, the result replaces the function called; into
/// the host, or from the bottom frame, the evaluation ends with it.
pub open spec fn spec_return(s: VmState) -> Outcome {
    let start = s.frame.stack_start as int;
    let has = start < s.stack.len();
    let ret = if has {
        s.stack.last()
    } else {
        UnsafeVal::Void
    };
    let st1 = if has {
        s.stack.drop_last()
    } else {
        s.stack
    };
    if s.frames.len() == 0 {
        Outcome::Next(
            VmState {
                stack: Seq::empty(),
                globals: s.globals,
                frame: spec_default_frame(),
                frames: s.frames,
                native_slot: s.native_slot,
                symbols: s.symbols,
            },
            Step::Done(ret),
        )
    } else {
        let c = s.frames.last();
        let st2 = spec_truncate(st1, start);
        let s2 = VmState {
            stack: st2,
            globals: s.globals,
            frame: c,
            frames: s.frames.drop_last(),
            native_slot: s.native_slot,
            symbols: s.symbols,
        };
        if c.function is Some {
            if st2.len() == 0 {
                Outcome::Fail(SpecExecError::Invalid)
            } else {
                Outcome::Next(with_stack(s2, st2.update(st2.len() - 1, ret)), Step::Continue)
            }
        } else {
            Outcome::Next(s2, Step::Done(ret))
        }
    }
}

/// Running the instruction `instr`, whose constant is `slot`, in `s`, where the running frame
/// already points past it.
pub open spec fn spec_exec<'a, C>(
    m: MemoryManager<'a, C>,
    s: VmState,
    instr: Instruction<'a>,
    slot: Option<UnsafeVal>,
) -> Outcome {
    let len = s.stack.len();
    let start = s.frame.stack_start as int;
    match instr {
        Instruction::PushConst(c) => match pushed(c, slot) {
            Some(v) => Outcome::Next(with_stack(s, s.stack.push(v)), Step::Continue),
            None => Outcome::Fail(SpecExecError::Invalid),
        },
        Instruction::PushCurrentFunction => match s.frame.function {
            Some(id) => Outcome::Next(
                with_stack(s, s.stack.push(UnsafeVal::ByteCodeFunction(id))),
                Step::Continue,
            ),
            None => Outcome::Fail(SpecExecError::Invalid),
        },
        Instruction::GetArg(n) => if start + n < len {
            Outcome::Next(with_stack(s, s.stack.push(s.stack[start + n])), Step::Continue)
        } else {
            Outcome::Fail(SpecExecError::Invalid)
        },
        Instruction::BindArg(n) => if len > 0 && start + n < len - 1 {
            Outcome::Next(
                with_stack(s, s.stack.drop_last().update(start + n, s.stack.last())),
                Step::Continue,
            )
        } else {
            Outcome::Fail(SpecExecError::Invalid)
        },
        Instruction::Deref(name) => match global_named(m.spec_vm_id(), s, name@) {
            Some(v) => Outcome::Next(with_stack(s, s.stack.push(v)), Step::Continue),
            None => Outcome::Fail(SpecExecError::NotDefined(name@)),
        },
        Instruction::Define(name) => if len == 0 {
            Outcome::Fail(SpecExecError::Invalid)
        } else if s.symbols.contains(name@) {
            Outcome::Next(
                spec_define(s, Symbol { vm_id: m.spec_vm_id(), idx: s.symbols.index_of(name@) as u32 }, s.symbols),
                Step::Continue,
            )
        } else if s.symbols.len() < u32::MAX {
            Outcome::Next(
                spec_define(s, Symbol { vm_id: m.spec_vm_id(), idx: s.symbols.len() as u32 }, s.symbols.push(name@)),
                Step::Continue,
            )
        } else {
            Outcome::Fail(SpecExecError::Invalid)
        },
        Instruction::Eval(n) => spec_eval(m, s, n),
        Instruction::EvalNative { func, arg_count } => if arg_count <= len {
            Outcome::Next(native_call(s, len - arg_count, len - arg_count), Step::CallNative(func))
        } else {
            Outcome::Fail(SpecExecError::Invalid)
        },
        Instruction::JumpIf(n) => if len == 0 {
            Outcome::Fail(SpecExecError::Invalid)
        } else if truthy(s.stack.last()) {
            spec_jump(with_stack(s, s.stack.drop_last()), n)
        } else {
            Outcome::Next(with_stack(s, s.stack.drop_last()), Step::Continue)
        },
        Instruction::Jump(n) => spec_jump(s, n),
        Instruction::Pop(n) => if n <= len {
            Outcome::Next(with_stack(s, s.stack.take(len - n)), Step::Continue)
        } else {
            Outcome::Fail(SpecExecError::Invalid)
        },
        Instruction::Return => spec_return(s),
    }
}

/// One step of the machine in state `s` over the memory `m`: the running frame's next
/// instruction is run, and the frame moves past it.
pub open spec fn spec_next<'a, C>(m: MemoryManager<'a, C>, s: VmState) -> Outcome {
    let f = frame_function(m, s.frame);
    let idx = s.frame.instruction_idx as int;
    match instr_at(f, idx) {
        Instruction::Return => spec_return(s),
        instr => spec_exec(m, at_instruction(s, idx + 1), instr, const_at(f, idx)),
    }
}

/// The state that a failed step leaves: the running frame points past the instruction that
/// failed (a failed return leaves the state as it was), and nothing else changed.
pub open spec fn spec_failed<'a, C>(m: MemoryManager<'a, C>, s: VmState) -> VmState {
    let idx = s.frame.instruction_idx as int;
    match instr_at(frame_function(m, s.frame), idx) {
        Instruction::Return => s,
        _ => at_instruction(s, idx + 1),
    }
}

/// The host answers a call of a native function with `v`: the call's frame goes, and `v`
/// replaces what was called.
pub open spec fn spec_native_return(s: VmState, v: UnsafeVal) -> Outcome {
    if s.frame.function is None && s.frames.len() > 0 && s.native_slot <= s.stack.len() {
        Outcome::Next(
            VmState {
                stack: s.stack.take(s.native_slot as int).push(v),
                globals: s.globals,
                frame: s.frames.last(),
                frames: s.frames.drop_last(),
                native_slot: s.native_slot,
                symbols: s.symbols,
            },
            Step::Continue,
        )
    } else {
        Outcome::Fail(SpecExecError::Invalid)
    }
}

/// The bits of the float that `floats` gives for the literal at `span`: those of the first
/// pair with that span.
pub open spec fn float_for(floats: Seq<(Span, u64)>, span: Span) -> Option<u64>
    decreases floats.len(),
{
    if floats.len() == 0 {
        None
    } else if floats[0].0 == span {
        Some(floats[0].1)
    } else {
        float_for(floats.drop_first(), span)
    }
}

/// Every object that `m1` holds, `m2` holds too, unchanged, in the stores of strings and of
/// functions.
pub open spec fn extends<'a, C>(m1: MemoryManager<'a, C>, m2: MemoryManager<'a, C>) -> bool {
    &&& forall|i: int| #[trigger] m1.strings().live(i) ==> m2.strings().live(i) && m2.strings().object(i) == m1.strings().object(i)
    &&& forall|i: int| #[trigger] m1.bytecodes().live(i) ==> m2.bytecodes().live(i) && m2.bytecodes().object(i) == m1.bytecodes().object(i)
}

/// The function `f` in memory `m` is the bytecode `b` loaded: each string constant is a
/// string of `m`, each nested function a function of `m` loaded in turn (both instructions
/// now push `void` but for their value in memory), each float the value that `floats` gives
/// for its literal, each inlined global its value (`inlined` holds the values by their
/// handles). Every other instruction is kept as it was and has no value in memory.
pub open spec fn loaded<'a, C>(
    m: MemoryManager<'a, C>,
    f: Function<'a>,
    b: SpecByteCode,
    floats: Seq<(Span, u64)>,
    inlined: Seq<UnsafeVal>,
) -> bool
    decreases b, 1int,
{
    &&& f.code.name@ == b.name
    &&& f.code.arg_count as nat == b.arg_count
    &&& f.code.local_bindings as nat == b.local_bindings
    &&& f.code.instruction_source@ == b.instruction_source
    &&& (match f.code.source {
        Some(t) => Some(t@),
        None => None,
    }) == b.source
    &&& f.code.instructions@.len() == b.instructions.len()
    &&& f.consts@.len() == b.instructions.len()
    &&& forall|i: int|
        0 <= i < b.instructions.len() ==> loaded_instr(
            m,
            f.code.instructions@[i].spec_view(),
            #[trigger] f.consts@[i],
            b.instructions[i],
            floats,
            inlined,
        )
}

/// The instruction `orig` was loaded into `m` as the instruction `stored`, whose value in
/// memory is `slot` (see [`loaded`]).
pub open spec fn loaded_instr<'a, C>(
    m: MemoryManager<'a, C>,
    stored: SpecInstr,
    slot: Option<UnsafeVal>,
    orig: SpecInstr,
    floats: Seq<(Span, u64)>,
    inlined: Seq<UnsafeVal>,
) -> bool
    decreases orig, 0int,
{
    match orig {
        SpecInstr::PushConst(SpecConst::String(text)) => {
            &&& stored == SpecInstr::PushConst(SpecConst::Void)
            &&& slot matches Some(UnsafeVal::String(id))
            &&& m.strings().live(id.idx as int)
            &&& compact_chars(m.strings().object(id.idx as int)) == text
        },
        SpecInstr::PushConst(SpecConst::Function(nb)) => {
            &&& stored == SpecInstr::PushConst(SpecConst::Void)
            &&& slot matches Some(UnsafeVal::ByteCodeFunction(id))
            &&& m.bytecodes().live(id.idx as int)
            &&& loaded(m, m.bytecodes().object(id.idx as int), *nb, floats, inlined)
        },
        SpecInstr::PushConst(SpecConst::Float(span)) => {
            &&& stored == orig
            &&& float_for(floats, span) matches Some(bits)
            &&& slot == Some(UnsafeVal::Float(bits))
        },
        SpecInstr::PushConst(SpecConst::Global(GlobalVal::NativeFunction(k))) => {
            &&& stored == orig
            &&& slot == Some(UnsafeVal::NativeFunction(k))
        },
        SpecInstr::PushConst(SpecConst::Global(GlobalVal::Value(k))) => {
            &&& stored == orig
            &&& k < inlined.len()
            &&& slot == Some(inlined[k as int])
        },
        _ => stored == orig && slot is None,
    }
}

/// What is loaded into memory stays loaded when memory only grows.
pub proof fn lemma_loaded_stable<'a, C>(
    m1: MemoryManager<'a, C>,
    m2: MemoryManager<'a, C>,
    f: Function<'a>,
    b: SpecByteCode,
    floats: Seq<(Span, u64)>,
    inlined: Seq<UnsafeVal>,
)
    requires
        loaded(m1, f, b, floats, inlined),
        extends(m1, m2),
    ensures
        loaded(m2, f, b, floats, inlined),
    decreases b, 1int,
{
    assert forall|i: int| 0 <= i < b.instructions.len() implies loaded_instr(
        m2,
        f.code.instructions@[i].spec_view(),
        #[trigger] f.consts@[i],
        b.instructions[i],
        floats,
        inlined,
    ) by {
        lemma_loaded_instr_stable(m1, m2, f.code.instructions@[i].spec_view(), f.consts@[i], b.instructions[i], floats, inlined);
    }
}

proof fn lemma_loaded_instr_stable<'a, C>(
    m1: MemoryManager<'a, C>,
    m2: MemoryManager<'a, C>,
    stored: SpecInstr,
    slot: Option<UnsafeVal>,
    orig: SpecInstr,
    floats: Seq<(Span, u64)>,
    inlined: Seq<UnsafeVal>,
)
    requires
        loaded_instr(m1, stored, slot, orig, floats, inlined),
        extends(m1, m2),
    ensures
        loaded_instr(m2, stored, slot, orig, floats, inlined),
    decreases orig, 0int,
{
    match orig {
        SpecInstr::PushConst(SpecConst::String(text)) => {
            let id = slot.unwrap()->String_0;
            assert(m1.strings().live(id.idx as int));
        },
        SpecInstr::PushConst(SpecConst::Function(nb)) => {
            let id = slot.unwrap()->ByteCodeFunction_0;
            assert(m1.bytecodes().live(id.idx as int));
            lemma_loaded_stable(m1, m2, m1.bytecodes().object(id.idx as int), *nb, floats, inlined);
        },
        _ => {},
    }
}

/// `m2` is `m1` with objects added to the stores of strings and functions only.
pub open spec fn grown<'a, C>(m1: MemoryManager<'a, C>, m2: MemoryManager<'a, C>) -> bool {
    &&& extends(m1, m2)
    &&& m2.boxes() == m1.boxes()
    &&& m2.lists() == m1.lists()
    &&& m2.structs() == m1.structs()
    &&& m2.customs() == m1.customs()
    &&& m2.kept_set() == m1.kept_set()
    &&& m2.spec_reachable_color() == m1.spec_reachable_color()
    &&& m2.spec_vm_id() == m1.spec_vm_id()
    &&& m2.symbols() == m1.symbols()
    &&& forall|kind: GcKind, idx: u32| #[trigger] m2.kept(kind, idx) == m1.kept(kind, idx)
}

proof fn lemma_grown_trans<'a, C>(m1: MemoryManager<'a, C>, m2: MemoryManager<'a, C>, m3: MemoryManager<'a, C>)
    requires
        grown(m1, m2),
        grown(m2, m3),
    ensures
        grown(m1, m3),
{
}

/// A store that took the object `x` in the free slot `r` keeps every other object.
proof fn lemma_store_insert<T>(a: ObjectStore<T>, b: ObjectStore<T>, r: int, x: T)
    requires
        b.view_map() == a.view_map().insert(r, x),
        !a.live(r),
    ensures
        forall|i: int| #[trigger] a.live(i) ==> b.live(i) && b.object(i) == a.object(i),
        b.live(r),
        b.object(r) == x,
{
    assert forall|i: int| #[trigger] a.live(i) implies b.live(i) && b.object(i) == a.object(i) by {
        assert(a.view_map().contains_key(i));
        assert(b.view_map().contains_key(i));
        assert(b.view_map()[i] == a.view_map()[i]);
    }
    assert(b.view_map().contains_key(r));
    assert(b.view_map()[r] == x);
}

/// The bits that `floats` gives for the literal at `span`.
fn find_float(floats: &Vec<(Span, u64)>, span: Span) -> (r: Option<u64>)
    ensures
        r == float_for(floats@, span),
{
    let mut i: usize = 0;
    proof {
        assert(floats@.skip(0) =~= floats@);
    }
    while i < floats.len()
        invariant
            i <= floats@.len(),
            float_for(floats@, span) == float_for(floats@.skip(i as int), span),
        decreases floats@.len() - i,
    {
        let (sp, bits) = floats[i];
        proof {
            assert(floats@.skip(i as int)[0] == floats@[i as int]);
            assert(floats@.skip(i as int).drop_first() =~= floats@.skip(i + 1));
        }
        if sp == span {
            return Some(bits);
        }
        i = i + 1;
    }
    proof {
        assert(floats@.skip(i as int).len() == 0);
    }
    None
}

/// The functions that the frames run, as values (`void` for a call into the host).
pub open spec fn frame_roots(frames: Seq<StackFrame>) -> Seq<UnsafeVal> {
    frames.map_values(
        |f: StackFrame|
            match f.function {
                Some(id) => UnsafeVal::ByteCodeFunction(id),
                None => UnsafeVal::Void,
            },
    )
}

/// The source location of the instruction that the frame `f` ran last, and the source it
/// points into, when its function keeps its source.
pub open spec fn frame_source<'a, C>(m: MemoryManager<'a, C>, f: StackFrame) -> Option<(Span, Seq<char>)> {
    match frame_function(m, f) {
        Some(func) => match func.code.source {
            Some(text) => {
                let k = if f.instruction_idx == 0 {
                    0
                } else {
                    f.instruction_idx - 1
                };
                if k < func.code.instruction_source@.len() {
                    Some((func.code.instruction_source@[k], text@))
                } else {
                    None
                }
            },
            None => None,
        },
        None => None,
    }
}

/// The source location of the first of `frames` that has one.
pub open spec fn first_source<'a, C>(m: MemoryManager<'a, C>, frames: Seq<StackFrame>) -> Option<(Span, Seq<char>)>
    decreases frames.len(),
{
    if frames.len() == 0 {
        None
    } else {
        match frame_source(m, frames[0]) {
            Some(x) => Some(x),
            None => first_source(m, frames.drop_first()),
        }
    }
}

/// Some entry of `names` has the name `t`.
pub open spec fn has_name<'n>(names: Seq<(&'n str, GlobalVal)>, t: Seq<char>) -> bool {
    exists|j: int| 0 <= j < names.len() && names[j].0@ == t
}

/// How an inlined global is named: a native function by its number, any other value by its
/// index in `inlined`.
pub open spec fn names_value(g: GlobalVal, inlined: Seq<UnsafeVal>, v: UnsafeVal) -> bool {
    match g {
        GlobalVal::NativeFunction(n) => v == UnsafeVal::NativeFunction(n),
        GlobalVal::Value(k) => k < inlined.len() && inlined[k as int] == v && !(v is NativeFunction),
    }
}

/// A global defined by a step reads back: after `Define(name)` succeeds, `name` names the
/// value that was on top of the stack, and `Deref(name)` pushes it.
pub proof fn lemma_define_then_deref<'a, C>(
    m: MemoryManager<'a, C>,
    s: VmState,
    name: &'a str,
    slot: Option<UnsafeVal>,
    t: VmState,
    slot2: Option<UnsafeVal>,
)
    requires
        forall|a: int, b: int| 0 <= a < b < s.symbols.len() ==> s.symbols[a] != s.symbols[b],
        spec_exec(m, s, Instruction::Define(name), slot) == Outcome::Next(t, Step::Continue),
    ensures
        global_named(m.spec_vm_id(), t, name@) == Some(s.stack.last()),
        spec_exec(m, t, Instruction::Deref(name), slot2) == Outcome::Next(
            with_stack(t, t.stack.push(s.stack.last())),
            Step::Continue,
        ),
{
    if s.symbols.contains(name@) {
        let i = s.symbols.index_of(name@);
        assert(t.symbols == s.symbols);
        lemma_index_of_distinct(s.symbols, i);
    } else {
        let n = s.symbols.len() as int;
        assert(t.symbols == s.symbols.push(name@));
        assert(t.symbols[n] == name@);
        assert forall|a: int, b: int| 0 <= a < b < t.symbols.len() implies t.symbols[a] != t.symbols[b] by {
            if b == n {
                assert(s.symbols[a] == t.symbols[a]);
                assert(!s.symbols.contains(name@));
            } else {
                assert(s.symbols[a] == t.symbols[a] && s.symbols[b] == t.symbols[b]);
            }
        }
        lemma_index_of_distinct(t.symbols, n);
    }
}

/// A return undoes a call of a function of bytecode: however the callee's stack grew, the
/// caller runs on from where it was, and the callee's result (its top value, else `void`)
/// replaces the function called and its arguments. When the caller is the host (a frame
/// without a function), the evaluation ends with the result instead.
pub proof fn lemma_call_then_return<'a, C>(m: MemoryManager<'a, C>, s: VmState, n: usize, t: VmState, u: VmState)
    requires
        spec_eval(m, s, n) == Outcome::Next(t, Step::Continue),
        u.frame.stack_start == t.frame.stack_start,
        u.frames == t.frames,
        t.frame.stack_start <= u.stack.len(),
        u.stack.subrange(0, t.frame.stack_start as int) == t.stack.subrange(0, t.frame.stack_start as int),
    ensures
        ({
            let ret = if t.frame.stack_start < u.stack.len() {
                u.stack.last()
            } else {
                UnsafeVal::Void
            };
            let back = VmState {
                stack: s.stack.take(s.stack.len() - n).push(ret),
                globals: u.globals,
                frame: s.frame,
                frames: s.frames,
                native_slot: u.native_slot,
                symbols: u.symbols,
            };
            let ended = VmState {
                stack: s.stack.take(s.stack.len() - n + 1),
                globals: u.globals,
                frame: s.frame,
                frames: s.frames,
                native_slot: u.native_slot,
                symbols: u.symbols,
            };
            if s.frame.function is Some {
                spec_return(u) == Outcome::Next(back, Step::Continue)
            } else {
                spec_return(u) == Outcome::Next(ended, Step::Done(ret))
            }
        }),
{
    let fidx = s.stack.len() - n;
    let start = fidx + 1;
    assert(t.frame.stack_start == start);
    assert(t.frames == s.frames.push(s.frame));
    assert(t.stack.subrange(0, start) =~= s.stack.subrange(0, start));
    let has = start < u.stack.len();
    let ret = if has {
        u.stack.last()
    } else {
        UnsafeVal::Void
    };
    let st1 = if has {
        u.stack.drop_last()
    } else {
        u.stack
    };
    let st2 = spec_truncate(st1, start);
    assert(st2 =~= u.stack.subrange(0, start));
    assert(st2 =~= s.stack.take(start));
    assert(st2.update(st2.len() - 1, ret) =~= s.stack.take(fidx).push(ret));
    assert(u.frames.drop_last() =~= s.frames);
    assert(u.frames.last() == s.frame);
}

/// The host's answer undoes a call of a native function: the caller runs on from where it
/// was, and the answer replaces the function called and its arguments.
pub proof fn lemma_native_call_then_return<'a, C>(m: MemoryManager<'a, C>, s: VmState, n: usize, func: u32, t: VmState, v: UnsafeVal)
    requires
        spec_eval(m, s, n) == Outcome::Next(t, Step::CallNative(func)),
        s.stack.len() <= usize::MAX,
    ensures
        spec_native_return(t, v) == Outcome::Next(
            VmState {
                stack: s.stack.take(s.stack.len() - n).push(v),
                globals: s.globals,
                frame: s.frame,
                frames: s.frames,
                native_slot: t.native_slot,
                symbols: s.symbols,
            },
            Step::Continue,
        ),
{
    let fidx = s.stack.len() - n;
    assert(s.stack[fidx] == UnsafeVal::NativeFunction(func));
    assert(t == native_call(s, fidx + 1, fidx));
    assert(t.frames.drop_last() =~= s.frames);
    assert(t.frames.last() == s.frame);
    assert(t.stack.take(t.native_slot as int).push(v) =~= s.stack.take(fidx).push(v));
}

/// An instruction as a step runs it: a constant is already the value it pushes (`None` when
/// memory holds none for it).
#[derive(Copy, Clone)]
enum Op<'a> {
    Push(Option<UnsafeVal>),
    PushCurrentFunction,
    GetArg(usize),
    BindArg(usize),
    Deref(&'a str),
    Define(&'a str),
    Eval(usize),
    EvalNative(u32, usize),
    JumpIf(usize),
    Jump(usize),
    Pop(usize),
    Return,
}

/// The step's view of the instruction `instr` whose constant is `slot`.
spec fn decode<'a>(instr: Instruction<'a>, slot: Option<UnsafeVal>) -> Op<'a> {
    match instr {
        Instruction::PushConst(c) => Op::Push(pushed(c, slot)),
        Instruction::PushCurrentFunction => Op::PushCurrentFunction,
        Instruction::GetArg(n) => Op::GetArg(n),
        Instruction::BindArg(n) => Op::BindArg(n),
        Instruction::Deref(name) => Op::Deref(name),
        Instruction::Define(name) => Op::Define(name),
        Instruction::Eval(n) => Op::Eval(n),
        Instruction::EvalNative { func, arg_count } => Op::EvalNative(func, arg_count),
        Instruction::JumpIf(n) => Op::JumpIf(n),
        Instruction::Jump(n) => Op::Jump(n),
        Instruction::Pop(n) => Op::Pop(n),
        Instruction::Return => Op::Return,
    }
}

/// In a sequence without repeats, the index of an item is where it stands.
proof fn lemma_index_of_distinct(v: Seq<Seq<char>>, i: int)
    requires
        forall|a: int, b: int| 0 <= a < b < v.len() ==> v[a] != v[b],
        0 <= i < v.len(),
    ensures
        v.contains(v[i]),
        v.index_of(v[i]) == i,
{
    assert(v[i] == v[i]);
    let j = v.index_of(v[i]);
    assert(0 <= j < v.len() && v[j] == v[i]);
    if j < i {
        assert(v[j] != v[i]);
    } else if i < j {
        assert(v[i] != v[j]);
    }
}

/// The Spore virtual machine. `C` is the type of custom values.
#[derive(Debug)]
pub struct Vm<'a, C> {
    /// The data stack: the functions called, their arguments and their temporary values.
    stack: Vec<UnsafeVal>,
    /// The global values by symbol.
    values: StructVal,
    /// The frame that runs.
    current: StackFrame,
    /// The frames that wait for the one above them to return, the bottom one first.
    previous: Vec<StackFrame>,
    /// The objects that values name.
    objects: MemoryManager<'a, C>,
    /// Compilation settings.
    settings: Settings,
    /// Where the result of the native call that the host makes goes on the stack.
    native_slot: usize,
}

impl<'a, C> Vm<'a, C> {
    /// The state that the steps of the machine see.
    pub closed spec fn state(&self) -> VmState {
        VmState {
            stack: self.stack@,
            globals: self.values.view_map(),
            frame: self.current,
            frames: self.previous@,
            native_slot: self.native_slot,
            symbols: self.objects.symbols(),
        }
    }

    /// The memory of the machine.
    pub closed spec fn objects(&self) -> MemoryManager<'a, C> {
        self.objects
    }

    pub closed spec fn spec_settings(&self) -> Settings {
        self.settings
    }

    /// The memory is well formed and no global name is set twice.
    pub closed spec fn wf(&self) -> bool {
        &&& self.objects.wf()
        &&& self.values.wf()
    }

    /// The memory of a well-formed machine is well formed.
    pub proof fn lemma_memory_wf(&self)
        requires
            self.wf(),
        ensures
            self.objects().wf(),
    {
    }

    /// A new machine with the id `vm_id`, no global values and nothing to run.
    pub fn new(vm_id: u16, settings: Settings) -> (r: Vm<'a, C>)
        ensures
            r.wf(),
            r.state().stack.len() == 0,
            r.state().globals == Map::<Symbol, UnsafeVal>::empty(),
            r.state().frame == spec_default_frame(),
            r.state().frames.len() == 0,
            r.state().symbols.len() == 0,
            r.objects().spec_vm_id() == vm_id,
            forall|k: ObjKind, i: int| !#[trigger] r.objects().live(k, i),
            r.spec_settings() == settings,
    {
        let r = Vm {
            stack: Vec::new(),
            values: StructVal::new(),
            current: StackFrame::default(),
            previous: Vec::new(),
            objects: MemoryManager::new(vm_id),
            settings,
            native_slot: 0,
        };
        proof {
            assert(r.values.view_map() =~= Map::<Symbol, UnsafeVal>::empty());
        }
        r
    }

    /// The name that a call stack shows for the frame `f`.
    fn name_of_frame(&self, f: StackFrame) -> (r: CompactString)
        ensures
            compact_chars(r) == frame_name(self.objects(), f),
    {
        proof {
            reveal_strlit("native-call");
        }
        match f.function {
            Some(id) => match self.objects.get_bytecode(id) {
                Some(func) => compact_new(func.code.name),
                None => compact_new("native-call"),
            },
            None => compact_new("native-call"),
        }
    }

    /// The call stack, from the bottom frame to the running one: the name of each function,
    /// or `native-call` for a call into the host.
    pub fn stack_trace(&self) -> (r: Vec<CompactString>)
        ensures
            r@.map_values(|s: CompactString| compact_chars(s)) == spec_stack_trace(self.objects(), self.state()),
    {
        let mut out: Vec<CompactString> = Vec::new();
        let mut i: usize = 0;
        while i < self.previous.len()
            invariant
                i <= self.previous@.len(),
                out@.len() == i,
                forall|j: int| 0 <= j < i ==> compact_chars(#[trigger] out@[j]) == frame_name(self.objects(), self.previous@[j]),
            decreases self.previous@.len() - i,
        {
            let name = self.name_of_frame(self.previous[i]);
            out.push(name);
            i = i + 1;
        }
        let name = self.name_of_frame(self.current);
        out.push(name);
        proof {
            assert(out@.map_values(|s: CompactString| compact_chars(s)) =~= spec_stack_trace(self.objects(), self.state()));
        }
        out
    }

    /// Return from the running frame (see [`spec_return`]).
    fn execute_return(&mut self) -> (r: Result<Step, ExecError>)
        requires
            old(self).wf(),
        ensures
            final(self).wf(),
            final(self).objects() == old(self).objects(),
            final(self).spec_settings() == old(self).spec_settings(),
            match r {
                Ok(step) => spec_return(old(self).state()) == Outcome::Next(final(self).state(), step),
                Err(e) => spec_return(old(self).state()) == Outcome::Fail(e.spec_view()),
            },
            r is Err ==> final(self).state() == old(self).state(),
    {
        let ghost s = self.state();
        let start = self.current.stack_start;
        let len = self.stack.len();
        let kept = if start < len {
            len - 1
        } else {
            len
        };
        let frames = self.previous.len();
        if frames > 0 && self.previous[frames - 1].function.is_some() && (start == 0 || kept == 0) {
            return Err(ExecError::InvalidVmState);
        }
        let ret = if start < self.stack.len() {
            self.stack.pop().unwrap()
        } else {
            UnsafeVal::Void
        };
        let ghost st1 = self.stack@;
        match self.previous.pop() {
            Some(c) => {
                self.stack.truncate(start);
                proof {
                    assert(self.stack@ =~= spec_truncate(st1, start as int));
                }
                match c.function {
                    Some(_) => {
                        let n = self.stack.len();
                        if n == 0 {
                            return Err(ExecError::InvalidVmState);
                        }
                        self.stack.set(n - 1, ret);
                        self.current = c;
                        proof {
                            assert(self.previous@ =~= s.frames.drop_last());
                        }
                        Ok(Step::Continue)
                    },
                    None => {
                        self.current = c;
                        proof {
                            assert(self.previous@ =~= s.frames.drop_last());
                        }
                        Ok(Step::Done(ret))
                    },
                }
            },
            None => {
                self.stack.clear();
                self.current = StackFrame::default();
                proof {
                    assert(self.stack@ =~= Seq::<UnsafeVal>::empty());
                }
                Ok(Step::Done(ret))
            },
        }
    }

    /// Call the top `n` values of the stack (see [`spec_eval`]).
    pub fn execute_eval(&mut self, n: usize) -> (r: Result<Step, ExecError>)
        requires
            old(self).wf(),
        ensures
            final(self).wf(),
            final(self).objects() == old(self).objects(),
            final(self).spec_settings() == old(self).spec_settings(),
            match r {
                Ok(step) => spec_eval(old(self).objects(), old(self).state(), n) == Outcome::Next(
                    final(self).state(),
                    step,
                ),
                Err(e) => spec_eval(old(self).objects(), old(self).state(), n) == Outcome::Fail(e.spec_view()),
            },
            r is Err ==> final(self).state() == old(self).state(),
    {
        proof {
            reveal_strlit("function invocation");
            reveal_strlit("function");
        }
        let ghost s = self.state();
        let len = self.stack.len();
        if n == 0 || n > len {
            return Err(ExecError::InvalidVmState);
        }
        let fidx = len - n;
        let func_val = self.stack[fidx];
        match func_val {
            UnsafeVal::NativeFunction(func) => {
                self.previous.push(self.current);
                self.current = StackFrame { function: None, instruction_idx: 0, stack_start: fidx + 1 };
                self.native_slot = fidx;
                Ok(Step::CallNative(func))
            },
            UnsafeVal::ByteCodeFunction(id) => {
                let local_bindings = match self.objects.get_bytecode(id) {
                    Some(f) => {
                        if f.code.arg_count != n - 1 {
                            return Err(
                                ExecError::ArityError {
                                    function: compact_new(f.code.name),
                                    expected: f.code.arg_count,
                                    actual: n - 1,
                                },
                            );
                        }
                        f.code.local_bindings
                    },
                    None => {
                        return Err(ExecError::InvalidVmState);
                    },
                };
                if self.previous.len() >= MAX_CALL_DEPTH {
                    let call_stack = self.stack_trace();
                    let max_depth = call_stack.len();
                    return Err(ExecError::MaximumFunctionCallDepth { max_depth, call_stack });
                }
                if local_bindings > usize::MAX - len {
                    return Err(ExecError::InvalidVmState);
                }
                let mut voids: Vec<UnsafeVal> = Vec::new();
                let mut i: usize = 0;
                while i < local_bindings
                    invariant
                        i <= local_bindings,
                        voids@ =~= Seq::new(i as nat, |j: int| UnsafeVal::Void),
                    decreases local_bindings - i,
                {
                    voids.push(UnsafeVal::Void);
                    i = i + 1;
                }
                self.stack.append(&mut voids);
                self.previous.push(self.current);
                self.current = StackFrame { function: Some(id), instruction_idx: 0, stack_start: fidx + 1 };
                proof {
                    assert(self.stack@ =~= s.stack + Seq::new(local_bindings as nat, |j: int| UnsafeVal::Void));
                }
                Ok(Step::Continue)
            },
            _ => Err(ExecError::TypeError { context: "function invocation", expected: "function", value: func_val }),
        }
    }

    /// The running frame's next instruction, as the step runs it.
    fn fetch(&self) -> (r: Op<'a>)
        ensures
            r == decode(
                instr_at(frame_function(self.objects(), self.current), self.current.instruction_idx as int),
                const_at(frame_function(self.objects(), self.current), self.current.instruction_idx as int),
            ),
    {
        let idx = self.current.instruction_idx;
        let func = match self.current.function {
            Some(id) => self.objects.get_bytecode(id),
            None => None,
        };
        match func {
            Some(f) => {
                if idx < f.code.instructions.len() {
                    let slot = if idx < f.consts.len() {
                        f.consts[idx]
                    } else {
                        None
                    };
                    match &f.code.instructions[idx] {
                        Instruction::PushConst(c) => {
                            let v = match slot {
                                Some(v) => Some(v),
                                None => match c {
                                    Const::Void => Some(UnsafeVal::Void),
                                    Const::Bool(b) => Some(UnsafeVal::Bool(*b)),
                                    Const::Int(x) => Some(UnsafeVal::Int(*x)),
                                    _ => None,
                                },
                            };
                            Op::Push(v)
                        },
                        Instruction::PushCurrentFunction => Op::PushCurrentFunction,
                        Instruction::GetArg(n) => Op::GetArg(*n),
                        Instruction::BindArg(n) => Op::BindArg(*n),
                        Instruction::Deref(name) => Op::Deref(*name),
                        Instruction::Define(name) => Op::Define(*name),
                        Instruction::Eval(n) => Op::Eval(*n),
                        Instruction::EvalNative { func, arg_count } => Op::EvalNative(*func, *arg_count),
                        Instruction::JumpIf(n) => Op::JumpIf(*n),
                        Instruction::Jump(n) => Op::Jump(*n),
                        Instruction::Pop(n) => Op::Pop(*n),
                        Instruction::Return => Op::Return,
                    }
                } else {
                    Op::Return
                }
            },
            None => Op::Return,
        }
    }

    /// Run the next instruction of the running frame (see [`spec_next`]). `Done` carries the
    /// value the evaluation ends with; `CallNative` asks the host to call a native function.
    pub fn run_next(&mut self) -> (r: Result<Step, ExecError>)
        requires
            old(self).wf(),
        ensures
            final(self).wf(),
            MemoryManager::same_stores(old(self).objects(), final(self).objects()),
            final(self).spec_settings() == old(self).spec_settings(),
            match r {
                Ok(step) => spec_next(old(self).objects(), old(self).state()) == Outcome::Next(
                    final(self).state(),
                    step,
                ),
                Err(e) => spec_next(old(self).objects(), old(self).state()) == Outcome::Fail(e.spec_view()),
            },
            r is Err ==> final(self).state() == spec_failed(old(self).objects(), old(self).state()),
    {
        let ghost s = self.state();
        let ghost m = self.objects;
        let op = self.fetch();
        if let Op::Return = op {
            return self.execute_return();
        }
        let idx = self.current.instruction_idx;
        proof {
            let f = frame_function(m, s.frame);
            assert(idx < f.unwrap().code.instructions@.len());
            assert(idx < f.unwrap().code.instructions.len());
        }
        self.current.instruction_idx = idx + 1;
        let len = self.stack.len();
        let start = self.current.stack_start;
        match op {
            Op::Push(v) => match v {
                Some(v) => {
                    self.stack.push(v);
                    Ok(Step::Continue)
                },
                None => Err(ExecError::InvalidVmState),
            },
            Op::PushCurrentFunction => match self.current.function {
                Some(id) => {
                    self.stack.push(UnsafeVal::ByteCodeFunction(id));
                    Ok(Step::Continue)
                },
                None => Err(ExecError::InvalidVmState),
            },
            Op::GetArg(n) => {
                if start < len && n < len - start {
                    let v = self.stack[start + n];
                    self.stack.push(v);
                    Ok(Step::Continue)
                } else {
                    Err(ExecError::InvalidVmState)
                }
            },
            Op::BindArg(n) => {
                if len > 0 && start < len - 1 && n < len - 1 - start {
                    let v = self.stack.pop().unwrap();
                    self.stack.set(start + n, v);
                    Ok(Step::Continue)
                } else {
                    Err(ExecError::InvalidVmState)
                }
            },
            Op::Deref(name) => {
                let found = match self.objects.get_symbol(name) {
                    Some(sym) => {
                        proof {
                            m.lemma_symbols_distinct();
                            lemma_index_of_distinct(m.symbols(), sym.idx as int);
                        }
                        self.values.get(sym)
                    },
                    None => None,
                };
                match found {
                    Some(v) => {
                        self.stack.push(v);
                        Ok(Step::Continue)
                    },
                    None => Err(ExecError::SymbolNotDefined { symbol: name.to_owned() }),
                }
            },
            Op::Define(name) => {
                if len == 0 {
                    return Err(ExecError::InvalidVmState);
                }
                let known = self.objects.get_symbol(name).is_some();
                if !known && self.objects.symbol_count() >= 4294967295usize {
                    return Err(ExecError::InvalidVmState);
                }
                let v = self.stack.pop().unwrap();
                let sym = self.objects.get_or_create_symbol(name);
                proof {
                    m.lemma_symbols_distinct();
                    if known {
                        lemma_index_of_distinct(m.symbols(), sym.idx as int);
                    }
                }
                self.values.set(sym, v);
                Ok(Step::Continue)
            },
            Op::Eval(n) => self.execute_eval(n),
            Op::EvalNative(func, arg_count) => {
                if arg_count <= len {
                    self.previous.push(self.current);
                    self.current = StackFrame { function: None, instruction_idx: 0, stack_start: len - arg_count };
                    self.native_slot = len - arg_count;
                    Ok(Step::CallNative(func))
                } else {
                    Err(ExecError::InvalidVmState)
                }
            },
            Op::JumpIf(n) => {
                if len == 0 {
                    return Err(ExecError::InvalidVmState);
                }
                let truthy = self.stack[len - 1].is_truthy();
                if truthy && n > usize::MAX - (idx + 1) {
                    return Err(ExecError::InvalidVmState);
                }
                let _ = self.stack.pop();
                if truthy {
                    self.current.instruction_idx = idx + 1 + n;
                }
                Ok(Step::Continue)
            },
            Op::Jump(n) => {
                if n > usize::MAX - (idx + 1) {
                    return Err(ExecError::InvalidVmState);
                }
                self.current.instruction_idx = idx + 1 + n;
                Ok(Step::Continue)
            },
            Op::Pop(n) => {
                if n <= len {
                    self.stack.truncate(len - n);
                    Ok(Step::Continue)
                } else {
                    Err(ExecError::InvalidVmState)
                }
            },
            Op::Return => Err(ExecError::InvalidVmState),
        }
    }

    /// The host answers the call of a native function with `v` (see [`spec_native_return`]).
    pub fn return_from_native(&mut self, v: UnsafeVal) -> (r: Result<Step, ExecError>)
        requires
            old(self).wf(),
        ensures
            final(self).wf(),
            final(self).objects() == old(self).objects(),
            final(self).spec_settings() == old(self).spec_settings(),
            match r {
                Ok(step) => spec_native_return(old(self).state(), v) == Outcome::Next(final(self).state(), step),
                Err(e) => spec_native_return(old(self).state(), v) == Outcome::Fail(e.spec_view()),
            },
            r is Err ==> final(self).state() == old(self).state(),
    {
        let ghost s = self.state();
        if self.current.function.is_some() || self.native_slot > self.stack.len() {
            return Err(ExecError::InvalidVmState);
        }
        match self.previous.pop() {
            Some(c) => {
                self.stack.truncate(self.native_slot);
                self.stack.push(v);
                self.current = c;
                proof {
                    assert(self.stack@ =~= s.stack.take(s.native_slot as int).push(v));
                    assert(self.previous@ =~= s.frames.drop_last());
                }
                Ok(Step::Continue)
            },
            None => Err(ExecError::InvalidVmState),
        }
    }

    /// Load the bytecode `code` into memory as a function, and the functions it holds as
    /// functions of their own (see [`loaded`]). Fails with `InvalidVmState` when a float's
    /// literal has no value in `floats`, an inlined global has no value in `inlined`, or a
    /// store of memory is full.
    #[verifier::loop_isolation(false)]
    fn load_function(&mut self, code: ByteCode<'a>, floats: &Vec<(Span, u64)>, inlined: &Vec<UnsafeVal>) -> (r: Result<
        ValId<FunctionSlot>,
        ExecError,
    >)
        requires
            old(self).wf(),
        ensures
            final(self).wf(),
            final(self).state() == old(self).state(),
            final(self).spec_settings() == old(self).spec_settings(),
            grown(old(self).objects(), final(self).objects()),
            match r {
                Ok(id) => {
                    &&& !old(self).objects().bytecodes().live(id.idx as int)
                    &&& final(self).objects().bytecodes().live(id.idx as int)
                    &&& loaded(
                        final(self).objects(),
                        final(self).objects().bytecodes().object(id.idx as int),
                        code.spec_view(),
                        floats@,
                        inlined@,
                    )
                },
                Err(e) => e is InvalidVmState,
            },
        decreases code.spec_view(),
    {
        let ghost m0 = self.objects;
        let ghost s0 = self.state();
        let ghost b = code.spec_view();
        let ghost orig = code.instructions@;
        let ghost code0 = code;
        proof {
            lemma_instrs_view_index(orig);
        }
        let mut code = code;
        let n = code.instructions.len();
        let mut consts: Vec<Option<UnsafeVal>> = Vec::new();
        let mut i: usize = 0;
        while i < n
            invariant
                self.wf(),
                self.state() == s0,
                s0 == old(self).state(),
                m0 == old(self).objects(),
                self.spec_settings() == old(self).spec_settings(),
                grown(m0, self.objects),
                n == orig.len(),
                b == code0.spec_view(),
                orig == code0.instructions@,
                instrs_view(orig) == b.instructions,
                b.instructions.len() == orig.len(),
                forall|j: int| 0 <= j < orig.len() ==> #[trigger] b.instructions[j] == orig[j].spec_view(),
                code.instructions@.len() == n,
                code.name == code0.name,
                code.arg_count == code0.arg_count,
                code.local_bindings == code0.local_bindings,
                code.source == code0.source,
                code.instruction_source == code0.instruction_source,
                i <= n,
                consts@.len() == i,
                forall|j: int| i <= j < n ==> #[trigger] code.instructions@[j] == orig[j],
                forall|j: int|
                    0 <= j < i ==> loaded_instr(
                        self.objects,
                        code.instructions@[j].spec_view(),
                        #[trigger] consts@[j],
                        b.instructions[j],
                        floats@,
                        inlined@,
                    ),
            decreases n - i,
        {
            let ghost m1 = self.objects;
            let mut tmp = Instruction::Return;
            std::mem::swap(&mut code.instructions[i], &mut tmp);
            assert(tmp == orig[i as int]);
            let (next, c): (Instruction<'a>, Option<UnsafeVal>) = match tmp {
                Instruction::PushConst(Const::String(text)) => {
                    if !self.objects.can_insert(ObjKind::String) {
                        return Err(ExecError::InvalidVmState);
                    }
                    let ghost ms = self.objects;
                    let ghost t = text;
                    let id = self.objects.insert_string(text);
                    proof {
                        lemma_store_insert(ms.strings(), self.objects.strings(), id.idx as int, t);
                        assert(grown(ms, self.objects));
                        lemma_grown_trans(m0, ms, self.objects);
                    }
                    (Instruction::PushConst(Const::Void), Some(UnsafeVal::String(id)))
                },
                Instruction::PushConst(Const::Function(inner)) => {
                    proof {
                        let sc = SpecConst::Function(Box::new((*inner).spec_view()));
                        assert(b.instructions[i as int] == SpecInstr::PushConst(sc));
                        assert(decreases_to!(b => b.instructions));
                        assert(decreases_to!(b.instructions => b.instructions[i as int]));
                        let ins = b.instructions[i as int];
                        assert(decreases_to!(ins => ins->PushConst_0));
                        assert(ins->PushConst_0 == sc);
                        assert(decreases_to!(sc => sc->Function_0));
                        assert(sc->Function_0 == Box::new((*inner).spec_view()));
                        assert(decreases_to!(b => (*inner).spec_view()));
                    }
                    let id = match self.load_function(*inner, floats, inlined) {
                        Ok(id) => id,
                        Err(e) => {
                            return Err(e);
                        },
                    };
                    (Instruction::PushConst(Const::Void), Some(UnsafeVal::ByteCodeFunction(id)))
                },
                Instruction::PushConst(Const::Float(span)) => {
                    match find_float(floats, span) {
                        Some(bits) => (Instruction::PushConst(Const::Float(span)), Some(UnsafeVal::Float(bits))),
                        None => {
                            return Err(ExecError::InvalidVmState);
                        },
                    }
                },
                Instruction::PushConst(Const::Global(GlobalVal::NativeFunction(k))) => (
                    Instruction::PushConst(Const::Global(GlobalVal::NativeFunction(k))),
                    Some(UnsafeVal::NativeFunction(k)),
                ),
                Instruction::PushConst(Const::Global(GlobalVal::Value(k))) => {
                    if k >= inlined.len() as u64 {
                        return Err(ExecError::InvalidVmState);
                    }
                    (Instruction::PushConst(Const::Global(GlobalVal::Value(k))), Some(inlined[k as usize]))
                },
                other => (other, None),
            };
            code.instructions.set(i, next);
            consts.push(c);
            proof {
                assert forall|j: int|
                    0 <= j < i + 1 implies loaded_instr(
                        self.objects,
                        code.instructions@[j].spec_view(),
                        #[trigger] consts@[j],
                        b.instructions[j],
                        floats@,
                        inlined@,
                    ) by {
                    if j < i {
                        lemma_loaded_instr_stable(m1, self.objects, code.instructions@[j].spec_view(), consts@[j], b.instructions[j], floats@, inlined@);
                    }
                }
            }
            i = i + 1;
        }
        if !self.objects.can_insert(ObjKind::ByteCode) {
            return Err(ExecError::InvalidVmState);
        }
        let ghost m2 = self.objects;
        let ghost f = Function { code, consts };
        let id = self.objects.insert_bytecode(Function { code, consts });
        proof {
            lemma_store_insert(m2.bytecodes(), self.objects.bytecodes(), id.idx as int, f);
            assert(grown(m2, self.objects));
            lemma_grown_trans(m0, m2, self.objects);
            assert(self.objects.bytecodes().object(id.idx as int) == f);
            assert forall|j: int| 0 <= j < b.instructions.len() implies loaded_instr(
                self.objects,
                f.code.instructions@[j].spec_view(),
                #[trigger] f.consts@[j],
                b.instructions[j],
                floats@,
                inlined@,
            ) by {
                lemma_loaded_instr_stable(m2, self.objects, f.code.instructions@[j].spec_view(), f.consts@[j], b.instructions[j], floats@, inlined@);
            }
        }
        Ok(id)
    }

    /// The values from which the garbage collector starts: the stack, then the global
    /// values, then the functions of the frames from the bottom one to the running one.
    pub closed spec fn roots(&self) -> Seq<UnsafeVal> {
        self.stack@ + field_values(self.values.fields()) + frame_roots(self.previous@.push(self.current))
    }

    /// The roots are the stack, every global value and the function of every frame, and
    /// nothing else.
    pub proof fn lemma_roots(&self)
        requires
            self.wf(),
        ensures
            self.roots().subrange(0, self.state().stack.len() as int) == self.state().stack,
            forall|sym: Symbol| #[trigger] self.state().globals.contains_key(sym) ==> self.roots().contains(self.state().globals[sym]),
            forall|id: ValId<FunctionSlot>|
                (self.state().frame.function == Some(id) || exists|k: int| 0 <= k < self.state().frames.len() && #[trigger] self.state().frames[k].function == Some(id))
                    ==> self.roots().contains(UnsafeVal::ByteCodeFunction(id)),
            forall|j: int|
                0 <= j < self.roots().len() ==> {
                    ||| self.state().stack.contains(#[trigger] self.roots()[j])
                    ||| exists|sym: Symbol| self.state().globals.contains_key(sym) && self.state().globals[sym] == self.roots()[j]
                    ||| self.roots()[j] is Void
                    ||| self.roots()[j] matches UnsafeVal::ByteCodeFunction(id) && (self.state().frame.function == Some(id) || exists|k: int| 0 <= k < self.state().frames.len() && self.state().frames[k].function == Some(id))
                },
    {
        let st = self.stack@;
        let gv = field_values(self.values.fields());
        let fr = frame_roots(self.previous@.push(self.current));
        let r = self.roots();
        assert(r.subrange(0, st.len() as int) =~= st);
        let fields = self.values.fields();
        assert forall|sym: Symbol| #[trigger] self.state().globals.contains_key(sym) implies r.contains(self.state().globals[sym]) by {
            lemma_fields_map_dom(fields, sym);
            let k = choose|k: int| 0 <= k < field_names(fields).len() && field_names(fields)[k] == sym;
            lemma_fields_map_index(fields, k);
            assert(r[st.len() + k] == gv[k]);
        }
        let frames = self.previous@.push(self.current);
        assert forall|id: ValId<FunctionSlot>|
            (self.state().frame.function == Some(id) || exists|k: int| 0 <= k < self.state().frames.len() && #[trigger] self.state().frames[k].function == Some(id))
                implies r.contains(UnsafeVal::ByteCodeFunction(id)) by {
            if self.state().frame.function == Some(id) {
                assert(r[st.len() + gv.len() + frames.len() - 1] == UnsafeVal::ByteCodeFunction(id));
            } else {
                let k = choose|k: int| 0 <= k < self.state().frames.len() && #[trigger] self.state().frames[k].function == Some(id);
                assert(frames[k] == self.previous@[k]);
                assert(r[st.len() + gv.len() + k] == UnsafeVal::ByteCodeFunction(id));
            }
        }
        assert forall|j: int| 0 <= j < r.len() implies {
            ||| self.state().stack.contains(#[trigger] r[j])
            ||| exists|sym: Symbol| self.state().globals.contains_key(sym) && self.state().globals[sym] == r[j]
            ||| r[j] is Void
            ||| r[j] matches UnsafeVal::ByteCodeFunction(id) && (self.state().frame.function == Some(id) || exists|k: int| 0 <= k < self.state().frames.len() && self.state().frames[k].function == Some(id))
        } by {
            if j < st.len() {
                assert(r[j] == st[j]);
                assert(self.state().stack.contains(r[j]));
            } else if j < st.len() + gv.len() {
                let k = j - st.len();
                assert(r[j] == gv[k]);
                lemma_fields_map_index(fields, k);
                let sym = fields[k].0;
                assert(self.state().globals.contains_key(sym) && self.state().globals[sym] == r[j]);
            } else {
                let k = j - st.len() - gv.len();
                assert(r[j] == fr[k]);
                if k < self.previous@.len() {
                    assert(frames[k] == self.previous@[k]);
                    if let Some(id) = frames[k].function {
                        assert(self.state().frames[k].function == Some(id));
                    }
                } else {
                    assert(frames[k] == self.current);
                }
            }
        }
    }

    /// The roots, gathered.
    fn roots_vec(&self) -> (r: Vec<UnsafeVal>)
        ensures
            r@ == self.roots(),
    {
        let mut r: Vec<UnsafeVal> = Vec::new();
        let mut i: usize = 0;
        while i < self.stack.len()
            invariant
                i <= self.stack@.len(),
                r@ == self.stack@.take(i as int),
            decreases self.stack@.len() - i,
        {
            r.push(self.stack[i]);
            proof {
                assert(self.stack@.take(i + 1) =~= self.stack@.take(i as int).push(self.stack@[i as int]));
            }
            i = i + 1;
        }
        proof {
            assert(self.stack@.take(i as int) =~= self.stack@);
        }
        let mut globals = self.values.values();
        r.append(&mut globals);
        let ghost base = r@;
        let ghost all = frame_roots(self.previous@.push(self.current));
        let frames_len = self.previous.len();
        let mut k: usize = 0;
        while k < frames_len
            invariant
                frames_len == self.previous@.len(),
                all == frame_roots(self.previous@.push(self.current)),
                k <= frames_len,
                r@ == base + all.take(k as int),
            decreases frames_len - k,
        {
            let f = self.previous[k];
            let v = match f.function {
                Some(id) => UnsafeVal::ByteCodeFunction(id),
                None => UnsafeVal::Void,
            };
            proof {
                assert(self.previous@.push(self.current)[k as int] == f);
                assert(all.take(k + 1) =~= all.take(k as int).push(v));
            }
            r.push(v);
            k = k + 1;
        }
        let v = match self.current.function {
            Some(id) => UnsafeVal::ByteCodeFunction(id),
            None => UnsafeVal::Void,
        };
        proof {
            assert(self.previous@.push(self.current)[k as int] == self.current);
            assert(all.take(k + 1) =~= all.take(k as int).push(v));
            assert(all.take(k + 1) =~= all);
        }
        r.push(v);
        r
    }

    /// Run the garbage collector over the roots of the machine (see [`Vm::lemma_roots`]):
    /// every object that no root reaches, directly or through the values that objects hold,
    /// is freed; every object reached stays as it was. Strings are never freed.
    pub fn run_gc(&mut self)
        requires
            old(self).wf(),
        ensures
            final(self).wf(),
            final(self).state() == old(self).state(),
            final(self).spec_settings() == old(self).spec_settings(),
            final(self).objects().spec_vm_id() == old(self).objects().spec_vm_id(),
            final(self).objects().kept_set() == old(self).objects().kept_set(),
            final(self).objects().strings().view_map() == old(self).objects().strings().view_map(),
            forall|k: ObjKind, i: u32|
                k != ObjKind::String ==> (#[trigger] final(self).objects().live(k, i as int) <==> old(self).objects().live(
                    k,
                    i as int,
                ) && gc_reachable(old(self).objects(), old(self).roots(), (k, i))),
            forall|i: int| #[trigger] final(self).objects().boxes().live(i) ==> final(self).objects().boxes().object(i) == old(self).objects().boxes().object(i),
            forall|i: int| #[trigger] final(self).objects().lists().live(i) ==> final(self).objects().lists().object(i) == old(self).objects().lists().object(i),
            forall|i: int| #[trigger] final(self).objects().structs().live(i) ==> final(self).objects().structs().object(i) == old(self).objects().structs().object(i),
            forall|i: int| #[trigger] final(self).objects().bytecodes().live(i) ==> final(self).objects().bytecodes().object(i) == old(self).objects().bytecodes().object(i),
            forall|i: int| #[trigger] final(self).objects().customs().live(i) ==> final(self).objects().customs().object(i) == old(self).objects().customs().object(i),
    {
        let roots = self.roots_vec();
        self.objects.run_gc(&roots);
    }

    /// Load the compiled module `code` (see [`loaded`]) and make it the only frame, with its
    /// local bindings as `void` on an otherwise empty stack. Fails with `InvalidVmState`, and
    /// leaves the stack and frames as they were, when a float's literal has no value in
    /// `floats`, an inlined global has no value in `inlined`, or a store of memory is full.
    pub fn load_module(&mut self, code: ByteCode<'a>, floats: &Vec<(Span, u64)>, inlined: &Vec<UnsafeVal>) -> (r: Result<
        ValId<FunctionSlot>,
        ExecError,
    >)
        requires
            old(self).wf(),
        ensures
            final(self).wf(),
            final(self).spec_settings() == old(self).spec_settings(),
            grown(old(self).objects(), final(self).objects()),
            match r {
                Ok(id) => {
                    &&& !old(self).objects().bytecodes().live(id.idx as int)
                    &&& final(self).objects().bytecodes().live(id.idx as int)
                    &&& loaded(
                        final(self).objects(),
                        final(self).objects().bytecodes().object(id.idx as int),
                        code.spec_view(),
                        floats@,
                        inlined@,
                    )
                    &&& final(self).state() == (VmState {
                        stack: Seq::new(code.local_bindings as nat, |i: int| UnsafeVal::Void),
                        globals: old(self).state().globals,
                        frame: StackFrame { function: Some(id), instruction_idx: 0, stack_start: 0 },
                        frames: Seq::empty(),
                        native_slot: old(self).state().native_slot,
                        symbols: old(self).state().symbols,
                    })
                },
                Err(e) => e is InvalidVmState && final(self).state() == old(self).state(),
            },
    {
        let local_bindings = code.local_bindings;
        let id = match self.load_function(code, floats, inlined) {
            Ok(id) => id,
            Err(e) => {
                return Err(e);
            },
        };
        let mut stack: Vec<UnsafeVal> = Vec::new();
        let mut i: usize = 0;
        while i < local_bindings
            invariant
                i <= local_bindings,
                stack@ =~= Seq::new(i as nat, |j: int| UnsafeVal::Void),
            decreases local_bindings - i,
        {
            stack.push(UnsafeVal::Void);
            i = i + 1;
        }
        self.stack = stack;
        self.previous = Vec::new();
        self.current = StackFrame { function: Some(id), instruction_idx: 0, stack_start: 0 };
        proof {
            assert(self.previous@ =~= Seq::<StackFrame>::empty());
        }
        Ok(id)
    }

    /// Make ready to call the global function `name` on `args`: the stack holds the function
    /// and then the arguments, under a single frame that runs nothing. Returns how many values
    /// [`Vm::execute_eval`] is to call; fails when `name` has no global value.
    pub fn prepare_call(&mut self, name: &str, args: &Vec<UnsafeVal>) -> (r: Result<usize, ExecError>)
        requires
            old(self).wf(),
            args@.len() < usize::MAX,
        ensures
            final(self).wf(),
            final(self).objects() == old(self).objects(),
            final(self).spec_settings() == old(self).spec_settings(),
            match global_named(old(self).objects().spec_vm_id(), old(self).state(), name@) {
                Some(f) => r == Ok::<usize, ExecError>((args@.len() + 1) as usize) && final(self).state() == (VmState {
                    stack: seq![f] + args@,
                    globals: old(self).state().globals,
                    frame: spec_default_frame(),
                    frames: Seq::empty(),
                    native_slot: old(self).state().native_slot,
                    symbols: old(self).state().symbols,
                }),
                None => r matches Err(e) && e.spec_view() == SpecExecError::NotDefined(name@) && final(self).state()
                    == old(self).state(),
            },
    {
        let f = match self.val_by_name(name) {
            Some(f) => f,
            None => {
                return Err(ExecError::SymbolNotDefined { symbol: name.to_owned() });
            },
        };
        let mut stack: Vec<UnsafeVal> = Vec::new();
        stack.push(f);
        let mut i: usize = 0;
        while i < args.len()
            invariant
                i <= args@.len(),
                stack@ =~= seq![f] + args@.take(i as int),
            decreases args@.len() - i,
        {
            stack.push(args[i]);
            proof {
                assert(args@.take(i + 1) =~= args@.take(i as int).push(args@[i as int]));
            }
            i = i + 1;
        }
        self.stack = stack;
        self.previous = Vec::new();
        self.current = StackFrame::default();
        proof {
            assert(args@.take(i as int) =~= args@);
            assert(self.previous@ =~= Seq::<StackFrame>::empty());
        }
        Ok(args.len() + 1)
    }

    /// The global value named `name`, if one is defined.
    pub fn val_by_name(&self, name: &str) -> (r: Option<UnsafeVal>)
        requires
            self.wf(),
        ensures
            r == global_named(self.objects().spec_vm_id(), self.state(), name@),
    {
        match self.objects.get_symbol(name) {
            Some(sym) => {
                proof {
                    self.objects.lemma_symbols_distinct();
                    lemma_index_of_distinct(self.objects.symbols(), sym.idx as int);
                }
                self.values.get(sym)
            },
            None => None,
        }
    }

    /// Set the global value `name` to `v`, interning `name` when it is new.
    pub fn register_value(&mut self, name: &str, v: UnsafeVal)
        requires
            old(self).wf(),
            !old(self).state().symbols.contains(name@) ==> old(self).state().symbols.len() < u32::MAX,
        ensures
            final(self).wf(),
            MemoryManager::same_stores(old(self).objects(), final(self).objects()),
            final(self).spec_settings() == old(self).spec_settings(),
            final(self).state().stack == old(self).state().stack,
            final(self).state().frame == old(self).state().frame,
            final(self).state().frames == old(self).state().frames,
            final(self).state().native_slot == old(self).state().native_slot,
            old(self).state().symbols.contains(name@) ==> final(self).state().symbols == old(self).state().symbols,
            !old(self).state().symbols.contains(name@) ==> final(self).state().symbols == old(self).state().symbols.push(name@),
            final(self).state().symbols.contains(name@),
            final(self).state().globals == old(self).state().globals.insert(
                Symbol {
                    vm_id: old(self).objects().spec_vm_id(),
                    idx: final(self).state().symbols.index_of(name@) as u32,
                },
                v,
            ),
    {
        let sym = self.objects.get_or_create_symbol(name);
        proof {
            self.objects.lemma_symbols_distinct();
            lemma_index_of_distinct(self.objects.symbols(), sym.idx as int);
        }
        self.values.set(sym, v);
    }

    /// The machine with the native function numbered `func` as the global value `name`.
    pub fn with_native_function(self, name: &str, func: u32) -> (r: Self)
        requires
            self.wf(),
            !self.state().symbols.contains(name@) ==> self.state().symbols.len() < u32::MAX,
        ensures
            r.wf(),
            r.state().symbols.contains(name@),
            global_named(r.objects().spec_vm_id(), r.state(), name@) == Some(UnsafeVal::NativeFunction(func)),
            r.state().stack == self.state().stack,
            r.state().frame == self.state().frame,
            r.state().frames == self.state().frames,
            MemoryManager::same_stores(self.objects(), r.objects()),
            r.spec_settings() == self.spec_settings(),
    {
        let mut vm = self;
        vm.register_value(name, UnsafeVal::NativeFunction(func));
        vm
    }

    /// The machine with the custom value `val` as the global value `name`.
    pub fn with_custom_value(self, name: &str, val: C) -> (r: Self)
        requires
            self.wf(),
            self.objects().has_room(ObjKind::Custom),
            !self.state().symbols.contains(name@) ==> self.state().symbols.len() < u32::MAX,
        ensures
            r.wf(),
            r.state().symbols.contains(name@),
            global_named(r.objects().spec_vm_id(), r.state(), name@) matches Some(UnsafeVal::Custom(id))
                && r.objects().customs().live(id.idx as int) && r.objects().customs().object(id.idx as int) == val,
            r.state().stack == self.state().stack,
            r.state().frame == self.state().frame,
            r.state().frames == self.state().frames,
            r.spec_settings() == self.spec_settings(),
    {
        let mut vm = self;
        let ghost m0 = vm.objects;
        let id = vm.objects.insert_custom(val);
        proof {
            assert(vm.objects.customs().view_map().contains_key(id.idx as int));
        }
        proof {
            assert(vm.objects.customs().live(id.idx as int));
            assert(vm.objects.customs().object(id.idx as int) == vm.objects.customs().view_map()[id.idx as int]);
        }
        vm.register_value(name, UnsafeVal::Custom(id));
        proof {
            vm.objects.lemma_symbols_distinct();
            assert(global_named(vm.objects().spec_vm_id(), vm.state(), name@) == Some(UnsafeVal::Custom(id)));
        }
        vm
    }

    /// Get the symbol for `s`, or `None` if it was never interned.
    pub fn get_symbol(&self, s: &str) -> (r: Option<Symbol>)
        requires
            self.wf(),
        ensures
            r == symbol_named(self.objects().spec_vm_id(), self.state().symbols, s@),
    {
        let r = self.objects.get_symbol(s);
        proof {
            if let Some(sym) = r {
                self.objects.lemma_symbols_distinct();
                lemma_index_of_distinct(self.objects.symbols(), sym.idx as int);
            }
        }
        r
    }

    /// Get the symbol for `s`, interning it first when it is new.
    pub fn get_or_create_symbol(&mut self, s: &str) -> (r: Symbol)
        requires
            old(self).wf(),
            !old(self).state().symbols.contains(s@) ==> old(self).state().symbols.len() < u32::MAX,
        ensures
            final(self).wf(),
            MemoryManager::same_stores(old(self).objects(), final(self).objects()),
            final(self).spec_settings() == old(self).spec_settings(),
            old(self).state().symbols.contains(s@) ==> final(self).state() == old(self).state(),
            !old(self).state().symbols.contains(s@) ==> final(self).state() == with_symbols(
                old(self).state(),
                old(self).state().symbols.push(s@),
            ),
            Some(r) == symbol_named(final(self).objects().spec_vm_id(), final(self).state().symbols, s@),
    {
        let r = self.objects.get_or_create_symbol(s);
        proof {
            self.objects.lemma_symbols_distinct();
            lemma_index_of_distinct(self.objects.symbols(), r.idx as int);
        }
        r
    }

    /// The string of the symbol `sym`, or `None` when it is not a symbol of this machine.
    pub fn symbol_to_str(&self, sym: Symbol) -> (r: Option<&str>)
        requires
            self.wf(),
        ensures
            match r {
                Some(text) => sym.vm_id == self.objects().spec_vm_id() && sym.idx < self.state().symbols.len()
                    && text@ == self.state().symbols[sym.idx as int],
                None => sym.vm_id != self.objects().spec_vm_id() || sym.idx >= self.state().symbols.len(),
            },
    {
        self.objects.symbol_to_str(sym)
    }

    /// The arguments of the native call that the running frame makes: the stack from where
    /// the frame starts.
    pub fn native_args(&self) -> (r: Vec<UnsafeVal>)
        ensures
            r@ == if self.state().frame.stack_start <= self.state().stack.len() {
                self.state().stack.skip(self.state().frame.stack_start as int)
            } else {
                Seq::empty()
            },
    {
        let mut r: Vec<UnsafeVal> = Vec::new();
        let start = self.current.stack_start;
        if start > self.stack.len() {
            return r;
        }
        let mut i: usize = start;
        while i < self.stack.len()
            invariant
                start <= i <= self.stack@.len(),
                r@ == self.stack@.subrange(start as int, i as int),
            decreases self.stack@.len() - i,
        {
            r.push(self.stack[i]);
            proof {
                assert(self.stack@.subrange(start as int, i + 1) =~= self.stack@.subrange(start as int, i as int).push(self.stack@[i as int]));
            }
            i = i + 1;
        }
        proof {
            assert(self.stack@.subrange(start as int, i as int) =~= self.stack@.skip(start as int));
        }
        r
    }

    /// The memory of the machine.
    pub fn memory(&self) -> (r: &MemoryManager<'a, C>)
        ensures
            *r == self.objects(),
    {
        &self.objects
    }

    /// The memory of the machine, to change it; the machine stays well formed when memory
    /// does.
    pub fn memory_mut(&mut self) -> (r: &mut MemoryManager<'a, C>)
        ensures
            *r == old(self).objects(),
            final(self).objects() == *final(r),
            final(self).spec_settings() == old(self).spec_settings(),
            final(self).state() == with_symbols(old(self).state(), final(r).symbols()),
            old(self).wf() && final(r).wf() ==> final(self).wf(),
    {
        &mut self.objects
    }

    /// The global values that compiled code may inline: the name of each and how it is
    /// named (see [`names_value`]); `inlined` holds the values named by their index. Each
    /// name is that of a global value of the machine, whose value it names.
    pub fn inline_globals(&self) -> (r: (Vec<(&str, GlobalVal)>, Vec<UnsafeVal>))
        requires
            self.wf(),
        ensures
            forall|j: int|
                0 <= j < r.0@.len() ==> (global_named(self.objects().spec_vm_id(), self.state(), (#[trigger] r.0@[j]).0@)
                    matches Some(v) && names_value(r.0@[j].1, r.1@, v)),
            forall|sym: Symbol|
                #[trigger] self.state().globals.contains_key(sym) && sym.vm_id == self.objects().spec_vm_id()
                    && sym.idx < self.state().symbols.len() ==> has_name(r.0@, self.state().symbols[sym.idx as int]),
    {
        let fields = self.values.iter();
        let mut names: Vec<(&str, GlobalVal)> = Vec::new();
        let mut inlined: Vec<UnsafeVal> = Vec::new();
        let mut i: usize = 0;
        proof {
            self.objects.lemma_symbols_distinct();
        }
        while i < fields.len()
            invariant
                self.wf(),
                fields@ == self.values.fields(),
                i <= fields@.len(),
                forall|j: int|
                    0 <= j < names@.len() ==> (global_named(self.objects().spec_vm_id(), self.state(), (#[trigger] names@[j]).0@)
                        matches Some(v) && names_value(names@[j].1, inlined@, v)),
                forall|a: int, b: int| 0 <= a < b < self.objects.symbols().len() ==> self.objects.symbols()[a] != self.objects.symbols()[b],
                forall|k: int|
                    0 <= k < i && (#[trigger] fields@[k]).0.vm_id == self.objects().spec_vm_id() && fields@[k].0.idx
                        < self.objects.symbols().len() ==> has_name(names@, self.objects.symbols()[fields@[k].0.idx as int]),
            decreases fields@.len() - i,
        {
            let ghost before = names@;
            let (sym, v) = fields[i];
            proof {
                lemma_fields_map_index(fields@, i as int);
            }
            match self.objects.symbol_to_str(sym) {
                Some(text) => {
                    proof {
                        lemma_index_of_distinct(self.objects.symbols(), sym.idx as int);
                    }
                    let g = match v {
                        UnsafeVal::NativeFunction(n) => GlobalVal::NativeFunction(n),
                        _ => {
                            let k = inlined.len() as u64;
                            inlined.push(v);
                            GlobalVal::Value(k)
                        },
                    };
                    names.push((text, g));
                    proof {
                        assert forall|t: Seq<char>| has_name(before, t) implies has_name(names@, t) by {
                            let j = choose|j: int| 0 <= j < before.len() && before[j].0@ == t;
                            assert(names@[j] == before[j]);
                        }
                        assert(names@[before.len() as int].0@ == text@);
                    }
                },
                None => {},
            }
            i = i + 1;
        }
        proof {
            assert forall|sym: Symbol|
                #[trigger] self.state().globals.contains_key(sym) && sym.vm_id == self.objects().spec_vm_id()
                    && sym.idx < self.state().symbols.len() implies has_name(names@, self.state().symbols[sym.idx as int]) by {
                lemma_fields_map_dom(fields@, sym);
                let k = choose|k: int| 0 <= k < field_names(fields@).len() && field_names(fields@)[k] == sym;
                assert(fields@[k].0 == sym);
            }
        }
        (names, inlined)
    }

    /// The source location of the instruction that the first frame with a source map ran
    /// last, from the bottom frame up, and the source it points into.
    pub fn error_source(&self) -> (r: Option<(Span, &'a str)>)
        ensures
            match r {
                Some((span, text)) => first_source(self.objects(), self.state().frames.push(self.state().frame))
                    == Some((span, text@)),
                None => first_source(self.objects(), self.state().frames.push(self.state().frame)) is None,
            },
    {
        let ghost all = self.previous@.push(self.current);
        let n = self.previous.len();
        let mut k: usize = 0;
        proof {
            assert(all.skip(0) =~= all);
        }
        while k < n
            invariant
                n == self.previous@.len(),
                all == self.previous@.push(self.current),
                k <= n,
                first_source(self.objects(), all) == first_source(self.objects(), all.skip(k as int)),
            decreases n - k,
        {
            let f = self.previous[k];
            proof {
                assert(all.skip(k as int)[0] == f);
                assert(all.skip(k as int).drop_first() =~= all.skip(k + 1));
            }
            match self.source_of_frame(f) {
                Some(x) => {
                    proof {
                        assert(all.skip(k as int).len() > 0);
                        assert(first_source(self.objects(), all.skip(k as int)) == Some((x.0, x.1@)));
                    }
                    return Some(x);
                },
                None => {},
            }
            k = k + 1;
        }
        proof {
            assert(all.skip(k as int) =~= seq![self.current]);
            assert(seq![self.current].drop_first() =~= Seq::<StackFrame>::empty());
            assert(first_source(self.objects(), Seq::<StackFrame>::empty()) is None);
        }
        let r = self.source_of_frame(self.current);
        proof {
            let one = seq![self.current];
            assert(one[0] == self.current);
            assert(first_source(self.objects(), one) == match frame_source(self.objects(), self.current) {
                Some(x) => Some(x),
                None => first_source(self.objects(), one.drop_first()),
            });
        }
        r
    }

    fn source_of_frame(&self, f: StackFrame) -> (r: Option<(Span, &'a str)>)
        ensures
            match r {
                Some((span, text)) => frame_source(self.objects(), f) == Some((span, text@)),
                None => frame_source(self.objects(), f) is None,
            },
    {
        let id = match f.function {
            Some(id) => id,
            None => {
                return None;
            },
        };
        let func = match self.objects.get_bytecode(id) {
            Some(func) => func,
            None => {
                return None;
            },
        };
        let text = match func.code.source {
            Some(text) => text,
            None => {
                return None;
            },
        };
        let k = if f.instruction_idx == 0 {
            0
        } else {
            f.instruction_idx - 1
        };
        if k < func.code.instruction_source.len() {
            Some((func.code.instruction_source[k], text))
        } else {
            None
        }
    }

    /// The symbols of the global values, in the order they were first set.
    pub closed spec fn global_order(&self) -> Seq<Symbol> {
        field_names(self.values.fields())
    }

    /// Each global value's symbol occurs once in [`Vm::global_order`], and nothing else does.
    pub proof fn lemma_global_order(&self)
        requires
            self.wf(),
        ensures
            self.global_order().no_duplicates(),
            forall|sym: Symbol| #[trigger] self.state().globals.contains_key(sym) <==> self.global_order().contains(sym),
    {
        assert forall|sym: Symbol| #[trigger] self.state().globals.contains_key(sym) <==> self.global_order().contains(sym) by {
            lemma_fields_map_dom(self.values.fields(), sym);
        }
    }

    /// `(global-values)`: a new list of the symbols of all global values, in the order they
    /// were first set.
    pub fn global_values(&mut self, args: &[UnsafeVal]) -> (r: Result<UnsafeVal, NativeError>)
        requires
            old(self).wf(),
            old(self).objects().has_room(ObjKind::List),
        ensures
            final(self).wf(),
            final(self).state() == old(self).state(),
            final(self).spec_settings() == old(self).spec_settings(),
            final(self).global_order() == old(self).global_order(),
            args@.len() != 0 ==> (r matches Err(e) && is_arity(e, "global-values"@, 0, args@.len() as usize)
                && final(self).objects() == old(self).objects()),
            args@.len() == 0 ==> (r matches Ok(UnsafeVal::List(id)) && MemoryManager::same_but(old(self).objects(), final(self).objects(), ObjKind::List)
                && !old(self).objects().lists().live(id.idx as int) && final(self).objects().lists().live(id.idx as int)
                && final(self).objects().lists().object(id.idx as int)@ == old(self).global_order().map_values(|sym: Symbol| UnsafeVal::Symbol(sym))),
    {
        if args.len() != 0 {
            proof {
                reveal_strlit("global-values");
            }
            return Err(NativeError::ArityError { function: compact_new("global-values"), expected: 0, actual: args.len() });
        }
        let fields = self.values.iter();
        let mut items: Vec<UnsafeVal> = Vec::new();
        let mut i: usize = 0;
        while i < fields.len()
            invariant
                i <= fields@.len(),
                fields@ == self.values.fields(),
                items@ == field_names(fields@).take(i as int).map_values(|sym: Symbol| UnsafeVal::Symbol(sym)),
            decreases fields@.len() - i,
        {
            items.push(UnsafeVal::Symbol(fields[i].0));
            proof {
                assert(field_names(fields@).take(i + 1) =~= field_names(fields@).take(i as int).push(fields@[i as int].0));
                assert(items@ =~= field_names(fields@).take(i + 1).map_values(|sym: Symbol| UnsafeVal::Symbol(sym)));
            }
            i = i + 1;
        }
        proof {
            assert(field_names(fields@).take(i as int) =~= field_names(fields@));
        }
        let ghost v = items;
        let id = self.objects.insert_list(items);
        proof {
            assert(self.objects.lists().view_map().contains_key(id.idx as int));
            assert(self.objects.lists().view_map()[id.idx as int] == v);
        }
        Ok(UnsafeVal::List(id))
    }

    /// The compilation settings.
    pub fn settings(&self) -> (r: Settings)
        ensures
            r == self.spec_settings(),
    {
        self.settings
    }
}

} // verus!
