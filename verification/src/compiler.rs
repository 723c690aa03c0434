//! The compiler from the intermediate representation to bytecode.
use compact_str::CompactString;
use vstd::prelude::*;
use vstd::string::StringSliceAdditionalSpecFns;

use crate::bytecode::{
    SpecByteCode,
    arg_slot, bindings_size, const_of, deref_instr, global_of, inlined_native, instrs_view,
    ir_size, irs_size, last_index, lemma_bindings_size, lemma_instrs_view_index, lemma_irs_size,
    lemma_instrs_view_update, lemma_many_keep_all, no_span, push_gen, spec_all, spec_bindings,
    spec_lambda, spec_many, bindings_then, module_env, module_scope, sizes_fit, spec_compile,
    spec_module, spec_one, then_gen, ByteCode, CompileEnv, Const, Gen, GlobalVal, Instruction,
    Scope, SpecConst, SpecInstr,
};
use crate::ast::{result_view, spec_parse, AstParseError, Node, SpecNode};
use crate::wellformed::lemma_parse_wf;
use crate::compact::{compact_as_str, compact_chars, compact_clone, compact_new};
use crate::error::{CompileError, SpecCompileError};
use crate::ir::{
    bindings_view, ir_result_view, irs_view, lemma_bindings_view_index, lemma_irs_view_index,
    node_wf, spec_new, strs_view, Constant, Ir, IrReturnType, SpecIr,
};
use crate::settings::Settings;
use crate::span::Span;
use crate::text::str_eq;

verus! {

/// The characters of each string.
pub open spec fn strings_view(v: Seq<CompactString>) -> Seq<Seq<char>> {
    Seq::new(v.len(), |i: int| compact_chars(v[i]))
}

/// The string at `i` occurs again after `i`.
pub open spec fn repeated_later(v: Seq<Seq<char>>, i: int) -> bool {
    exists|j: int| i < j < v.len() && v[j] == v[i]
}

/// The string at `j` occurred already before `j`.
pub open spec fn repeated_earlier(v: Seq<Seq<char>>, j: int) -> bool {
    exists|i: int| 0 <= i < j && v[i] == v[j]
}

/// No string occurs twice.
pub open spec fn all_distinct(v: Seq<Seq<char>>) -> bool {
    forall|a: int, b: int| 0 <= a < b < v.len() ==> v[a] != v[b]
}

/// The index of the duplicate that [`find_duplicate`] reports. Below five strings it is the
/// first string that occurs again later; from five on, the first string that occurred before.
pub open spec fn duplicate_index(v: Seq<Seq<char>>, k: int) -> bool {
    &&& 0 <= k < v.len()
    &&& if v.len() < 5 {
        repeated_later(v, k) && forall|m: int| 0 <= m < k ==> !repeated_later(v, m)
    } else {
        repeated_earlier(v, k) && forall|m: int| 0 <= m < k ==> !repeated_earlier(v, m)
    }
}

/// At most one index is the one that [`duplicate_index`] describes: it is the first of its kind.
pub proof fn lemma_duplicate_index_unique(v: Seq<Seq<char>>, k1: int, k2: int)
    requires
        duplicate_index(v, k1),
        duplicate_index(v, k2),
    ensures
        k1 == k2,
{
}

/// A string that occurs more than once in `vec`, or `None` when all are distinct. Below five
/// strings it is the first string that occurs again later; from five on, the first string
/// that occurred before (see [`duplicate_index`]).
pub fn find_duplicate(vec: &[CompactString]) -> (r: Option<CompactString>)
    ensures
        match r {
            Some(d) => (exists|k: int|
                duplicate_index(strings_view(vec@), k) && compact_chars(d) == strings_view(
                    vec@,
                )[k]) && (forall|k: int| #[trigger] duplicate_index(strings_view(vec@), k) ==> compact_chars(d) == strings_view(vec@)[k]),
            None => all_distinct(strings_view(vec@)),
        },
{
    let ghost v = strings_view(vec@);
    let n = vec.len();
    assert(v.len() == n);
    if n < 5 {
        let mut a: usize = 0;
        while a < n
            invariant
                n == vec@.len(),
                v == strings_view(vec@),
                v.len() == n,
                forall|x: int| 0 <= x < n ==> #[trigger] v[x] == compact_chars(vec@[x]),
                a <= n,
                n < 5,
                forall|m: int| 0 <= m < a ==> !repeated_later(v, m),
            decreases n - a,
        {
            let mut b: usize = a + 1;
            while b < n
                invariant
                    n == vec@.len(),
                    v == strings_view(vec@),
                    v.len() == n,
                forall|x: int| 0 <= x < n ==> #[trigger] v[x] == compact_chars(vec@[x]),
                    a < n,
                    a + 1 <= b <= n,
                    forall|j: int| a < j < b ==> v[j] != v[a as int],
                    n < 5,
                    forall|m: int| 0 <= m < a ==> !repeated_later(v, m),
                decreases n - b,
            {
                if same_string(&vec[a], &vec[b]) {
                    proof {
                        assert(v[b as int] == v[a as int]);
                        assert(repeated_later(v, a as int));
                        assert(duplicate_index(v, a as int));
                    }
                    return Some(compact_clone(&vec[a]));
                }
                b = b + 1;
            }
            a = a + 1;
        }
        proof {
            assert forall|x: int, y: int| 0 <= x < y < v.len() implies v[x] != v[y] by {
                assert(!repeated_later(v, x));
            }
        }
        return None;
    }
    let mut j: usize = 0;
    while j < n
        invariant
            n == vec@.len(),
            v == strings_view(vec@),
            v.len() == n,
            forall|x: int| 0 <= x < n ==> #[trigger] v[x] == compact_chars(vec@[x]),
            j <= n,
            n >= 5,
            forall|m: int| 0 <= m < j ==> !repeated_earlier(v, m),
        decreases n - j,
    {
        let mut i: usize = 0;
        while i < j
            invariant
                n == vec@.len(),
                v == strings_view(vec@),
                v.len() == n,
                forall|x: int| 0 <= x < n ==> #[trigger] v[x] == compact_chars(vec@[x]),
                i <= j < n,
                forall|x: int| 0 <= x < i ==> v[x] != v[j as int],
                n >= 5,
                forall|m: int| 0 <= m < j ==> !repeated_earlier(v, m),
            decreases j - i,
        {
            if same_string(&vec[i], &vec[j]) {
                proof {
                    assert(v[i as int] == v[j as int]);
                    assert(repeated_earlier(v, j as int));
                    assert(duplicate_index(v, j as int));
                }
                return Some(compact_clone(&vec[j]));
            }
            i = i + 1;
        }
        j = j + 1;
    }
    proof {
        assert forall|x: int, y: int| 0 <= x < y < v.len() implies v[x] != v[y] by {
            assert(!repeated_earlier(v, y));
        }
    }
    None

}

/// The expression `(if predicate true_expr [false_expr])`.
pub open spec fn if_view<'a>(
    span: Span,
    predicate: &Ir<'a>,
    true_expr: &Ir<'a>,
    false_expr: &Option<Box<Ir<'a>>>,
) -> SpecIr {
    SpecIr::If(
        span,
        Box::new(predicate.spec_view()),
        Box::new(true_expr.spec_view()),
        match false_expr {
            Some(e) => Some(Box::new((**e).spec_view())),
            None => None,
        },
    )
}

/// A list with a duplicate is not made of distinct strings.
proof fn lemma_duplicate_not_distinct(v: Seq<Seq<char>>, k: int)
    requires
        duplicate_index(v, k),
    ensures
        !all_distinct(v),
{
    if v.len() < 5 {
        let j = choose|j: int| k < j < v.len() && v[j] == v[k];
        assert(v[k] == v[j]);
    } else {
        let i = choose|i: int| 0 <= i < k && v[i] == v[k];
        assert(v[i] == v[k]);
    }
}

/// Once compiling a prefix fails, compiling any longer prefix fails the same way.
proof fn lemma_all_prefix_err(env: CompileEnv, scope: Scope, space: nat, v: Seq<SpecIr>, k: int)
    requires
        0 <= k <= v.len(),
        spec_all(env, scope, space, v.take(k)) is Err,
    ensures
        spec_all(env, scope, space, v) == spec_all(env, scope, space, v.take(k)),
    decreases v.len() - k,
{
    if k < v.len() {
        assert(v.take(k + 1).drop_last() =~= v.take(k));
        lemma_all_prefix_err(env, scope, space, v, k + 1);
    } else {
        assert(v.take(k) =~= v);
    }
}

/// The two strings hold the same characters.
fn same_string(a: &CompactString, b: &CompactString) -> (r: bool)
    ensures
        r == (compact_chars(*a) == compact_chars(*b)),
{
    str_eq(compact_as_str(a), compact_as_str(b))
}

/// Where an expression stands.
#[derive(Copy, Clone, Debug, PartialEq, Eq, Structural)]
pub enum CompilerContext {
    /// At the top level of a module, where `define` is allowed.
    Module,
    /// Inside another expression.
    Subexpression,
}

/// What a body keeps on the stack.
#[derive(Copy, Clone, Debug, PartialEq, Eq, Structural)]
pub enum CompileManyBehavior {
    /// Keep all expressions on the stack. Requires one less instruction.
    KeepAll,
    /// Only keep the last expression on the stack. All other expressions are discarded.
    KeepSingleReturn,
}

/// The names and values of the globals known at compile time.
pub open spec fn globals_view<'a>(g: Seq<(&'a str, GlobalVal)>) -> Seq<(Seq<char>, GlobalVal)> {
    Seq::new(g.len(), |i: int| (g[i].0@, g[i].1))
}

/// The characters of an optional text.
pub open spec fn opt_text<'a>(t: Option<&'a str>) -> Option<Seq<char>> {
    match t {
        Some(s) => Some(s@),
        None => None,
    }
}

/// `n` as a `usize`, when it fits.
pub open spec fn fitting(n: nat) -> Option<usize> {
    if n <= usize::MAX {
        Some(n as usize)
    } else {
        None
    }
}

/// The number of nodes of an expression, when it fits in a `usize`.
fn size_of_ir(ir: &Ir) -> (r: Option<usize>)
    ensures
        r == fitting(ir_size(ir.spec_view())),
    decreases ir.spec_view(), 2int,
{
    match ir {
        Ir::Constant(_, _) => Some(1),
        Ir::Deref(_, _) => Some(1),
        Ir::FunctionCall { span, function, args } => {
            let f = size_of_ir(function)?;
            let a = size_of_irs(args)?;
            let fa = f.checked_add(a)?;
            fa.checked_add(1)
        },
        Ir::Define { span, identifier, expr } => {
            let e = size_of_ir(expr)?;
            e.checked_add(1)
        },
        Ir::If { span, predicate, true_expr, false_expr } => {
            let p = size_of_ir(predicate)?;
            let t = size_of_ir(true_expr)?;
            let f = match false_expr {
                Some(e) => size_of_ir(e)?,
                None => 0,
            };
            let pt = p.checked_add(t)?;
            let ptf = pt.checked_add(f)?;
            ptf.checked_add(1)
        },
        Ir::Lambda { span, name, args, expressions } => {
            let e = size_of_irs(expressions)?;
            let ae = e.checked_add(args.len())?;
            ae.checked_add(1)
        },
        Ir::Let { span, bindings, expressions } => {
            let b = size_of_bindings(bindings)?;
            let e = size_of_irs(expressions)?;
            let be = b.checked_add(e)?;
            be.checked_add(1)
        },
        Ir::Return { expr } => {
            let e = size_of_ir(expr)?;
            e.checked_add(1)
        },
    }
}

/// The number of nodes of a sequence of expressions, when it fits in a `usize`.
fn size_of_irs(v: &Vec<Ir>) -> (r: Option<usize>)
    ensures
        r == fitting(irs_size(irs_view(v@))),
    decreases irs_view(v@), 1int,
{
    let ghost all = irs_view(v@);
    proof {
        lemma_irs_view_index(v@);
        lemma_irs_size(all);
        assert(all.take(0) =~= Seq::<SpecIr>::empty());
    }
    let mut total: usize = 0;
    let mut i: usize = 0;
    while i < v.len()
        invariant
            i <= v@.len(),
            all == irs_view(v@),
            all.len() == v@.len(),
            forall|k: int| 0 <= k < v@.len() ==> #[trigger] all[k] == v@[k].spec_view(),
            total == irs_size(all.take(i as int)),
        decreases v@.len() - i,
    {
        proof {
            assert(all.take(i + 1).drop_last() =~= all.take(i as int));
            assert(all.take(i + 1).last() == all[i as int]);
            assert(decreases_to!(all => all[i as int]));
            lemma_irs_size(all.take(i + 1));
            lemma_irs_size_prefix(all, i + 1);
        }
        let s = match size_of_ir(&v[i]) {
            Some(s) => s,
            None => {
                return None;
            },
        };
        total = match total.checked_add(s) {
            Some(t) => t,
            None => {
                return None;
            },
        };
        i = i + 1;
    }
    proof {
        assert(all.take(i as int) =~= all);
    }
    Some(total)
}

/// The sizes of the prefixes of a sequence of expressions grow up to its size.
proof fn lemma_irs_size_prefix(v: Seq<SpecIr>, k: int)
    requires
        0 <= k <= v.len(),
    ensures
        irs_size(v.take(k)) <= irs_size(v),
    decreases v.len() - k,
{
    if k < v.len() {
        lemma_irs_size_prefix(v, k + 1);
        assert(v.take(k + 1).drop_last() =~= v.take(k));
    } else {
        assert(v.take(k) =~= v);
    }
}

/// The number of nodes of let bindings, when it fits in a `usize`.
fn size_of_bindings(bindings: &Vec<(&str, Ir)>) -> (r: Option<usize>)
    ensures
        r == fitting(bindings_size(bindings_view(bindings@))),
    decreases bindings_view(bindings@), 1int,
{
    let ghost bv = bindings_view(bindings@);
    proof {
        lemma_bindings_view_index(bindings@);
        lemma_bindings_size(bv);
        assert(bv.skip(bv.len() as int) =~= Seq::<(Seq<char>, SpecIr)>::empty());
    }
    let mut total: usize = 0;
    let mut i: usize = bindings.len();
    while i > 0
        invariant
            i <= bindings@.len(),
            bv == bindings_view(bindings@),
            bv.len() == bindings@.len(),
            forall|k: int| 0 <= k < bv.len() ==> #[trigger] bv[k] == (bindings@[k].0@, bindings@[k].1.spec_view()),
            total == bindings_size(bv.skip(i as int)),
        decreases i,
    {
        proof {
            assert(bv.skip(i - 1).drop_first() =~= bv.skip(i as int));
            assert(bv.skip(i - 1)[0] == bv[i - 1]);
            assert(decreases_to!(bv => bv[i - 1]));
            assert(decreases_to!(bv[i - 1] => bv[i - 1].1));
            lemma_bindings_size_suffix(bv, i - 1);
        }
        let s = match size_of_ir(&bindings[i - 1].1) {
            Some(s) => s,
            None => {
                return None;
            },
        };
        let s1 = match s.checked_add(1) {
            Some(t) => t,
            None => {
                return None;
            },
        };
        total = match total.checked_add(s1) {
            Some(t) => t,
            None => {
                return None;
            },
        };
        i = i - 1;
    }
    proof {
        assert(bv.skip(0) =~= bv);
    }
    Some(total)
}

/// The sizes of the suffixes of let bindings grow up to their size.
proof fn lemma_bindings_size_suffix(bs: Seq<(Seq<char>, SpecIr)>, k: int)
    requires
        0 <= k <= bs.len(),
    ensures
        bindings_size(bs.skip(k)) <= bindings_size(bs),
    decreases k,
{
    if k > 0 {
        lemma_bindings_size_suffix(bs, k - 1);
        assert(bs.skip(k - 1).drop_first() =~= bs.skip(k));
    } else {
        assert(bs.skip(0) =~= bs);
    }
}

/// Compiles expressions into the instructions of one function (or module).
pub struct Compiler<'a, 'g> {
    settings: Settings,
    globals: &'g [(&'g str, GlobalVal)],
    source: Option<&'a str>,
    function_name: Option<&'a str>,
    arguments: Vec<CompactString>,
    local_bindings: Vec<CompactString>,
    local_space_required: usize,
    instructions: Vec<Instruction<'a>>,
    instruction_source: Vec<Span>,
}

impl<'a, 'g> Compiler<'a, 'g> {
    /// What the compiler reads besides the expression.
    pub closed spec fn env(&self) -> CompileEnv {
        CompileEnv {
            settings: self.settings,
            globals: globals_view(self.globals@),
            source: opt_text(self.source),
        }
    }

    /// The names in scope.
    pub closed spec fn scope(&self) -> Scope {
        Scope {
            args: strings_view(self.arguments@),
            locals: strings_view(self.local_bindings@),
            name: opt_text(self.function_name),
        }
    }

    /// The instructions so far, their spans, and the local space required so far.
    pub closed spec fn code(&self) -> (Seq<SpecInstr>, Seq<Span>, nat) {
        (instrs_view(self.instructions@), self.instruction_source@, self.local_space_required as nat)
    }

    /// The arguments and local bindings leave room for `extra` more slots.
    pub closed spec fn room(&self, extra: nat) -> bool {
        &&& self.arguments@.len() + self.local_bindings@.len() + extra <= usize::MAX
        &&& self.aligned()
    }

    /// Each instruction has its span.
    pub closed spec fn aligned(&self) -> bool {
        self.instructions@.len() == self.instruction_source@.len()
    }

    /// Appends one instruction with its span.
    fn push(&mut self, instruction: Instruction<'a>, span: Span)
        ensures
            final(self).code() == push_gen(old(self).code(), instruction.spec_view(), span),
            final(self).instructions@.len() == old(self).instructions@.len() + 1,
            final(self).instruction_source@.len() == old(self).instruction_source@.len() + 1,
            final(self).env() == old(self).env(),
            final(self).scope() == old(self).scope(),
            final(self).arguments@ == old(self).arguments@,
            final(self).local_bindings@ == old(self).local_bindings@,
    {
        let ghost before = self.instructions@;
        self.instruction_source.push(span);
        self.instructions.push(instruction);
        proof {
            assert(self.instructions@.drop_last() =~= before);
        }
    }

    /// Compiles a whole source into the bytecode of a module. `globals` are the global values
    /// known when compiling, which aggressive inlining copies into the bytecode.
    pub fn compile(
        src: &'a str,
        settings: Settings,
        globals: &'g [(&'g str, GlobalVal)],
    ) -> (r: Result<ByteCode<'a>, CompileError>)
        requires
            src.spec_bytes().len() <= u32::MAX,
            sizes_fit(src),
        ensures
            match r {
                Ok(b) => spec_compile(settings, globals_view(globals@), src) == Ok::<
                    SpecByteCode,
                    SpecCompileError,
                >(b.spec_view()),
                Err(e) => spec_compile(settings, globals_view(globals@), src) == Err::<
                    SpecByteCode,
                    SpecCompileError,
                >(e.spec_view()),
            },
    {
        let source = if settings.enable_source_maps {
            Some(src)
        } else {
            None
        };
        let mut compiler = Compiler {
            settings,
            globals,
            source,
            function_name: None,
            arguments: Vec::new(),
            local_bindings: Vec::new(),
            local_space_required: 0,
            instructions: Vec::new(),
            instruction_source: Vec::new(),
        };
        proof {
            assert(compiler.env() == module_env(settings, globals_view(globals@), src@));
            assert(compiler.scope().args =~= Seq::<Seq<char>>::empty());
            assert(compiler.scope().locals =~= Seq::<Seq<char>>::empty());
            assert(compiler.scope() == module_scope());
            assert(compiler.code().0 =~= Seq::<SpecInstr>::empty());
            assert(compiler.code().1 =~= Seq::<Span>::empty());
        }
        compiler.compile_impl(src, CompilerContext::Module)?;
        proof {
            reveal_strlit("");
            assert(""@ =~= Seq::<char>::empty());
        }
        let bytecode = ByteCode {
            name: "",
            arg_count: 0,
            local_bindings: compiler.local_space_required,
            instructions: compiler.instructions,
            source,
            instruction_source: compiler.instruction_source,
        };
        proof {
            let g = spec_module(
                module_env(settings, globals_view(globals@), src@),
                module_scope(),
                0,
                src,
                spec_parse(src@),
                true,
            )->Ok_0;
            assert(instrs_view(bytecode.instructions@) =~= g.0);
            assert(bytecode.instruction_source@ =~= g.1);
        }
        Ok(bytecode)
    }

    /// Whether every expression of `src` is small enough for [`Compiler::compile`], as it is in
    /// any source a machine can hold.
    pub fn source_fits(src: &str) -> (r: bool)
        requires
            src.spec_bytes().len() <= u32::MAX,
        ensures
            r == sizes_fit(src),
    {
        let results = Node::parse(src);
        let ghost rs = spec_parse(src@);
        proof {
            lemma_parse_wf(src);
        }
        let mut k: usize = 0;
        while k < results.len()
            invariant
                k <= results@.len(),
                results@.len() == rs.len(),
                rs == spec_parse(src@),
                forall|q: int| 0 <= q < results@.len() ==> result_view(#[trigger] results@[q]) == rs[q],
                forall|q: int| 0 <= q < rs.len() ==> (#[trigger] rs[q] matches Ok(n) ==> node_wf(src, n)),
                forall|q: int| 0 <= q < k ==> (#[trigger] rs[q] matches Ok(n) ==> (spec_new(src, n) matches Ok(ir) ==> ir_size(ir) <= usize::MAX)),
            decreases results@.len() - k,
        {
            proof {
                assert(result_view(results@[k as int]) == rs[k as int]);
            }
            match &results[k] {
                Err(_) => {},
                Ok(n) => {
                    match Ir::new(src, n) {
                        Err(_) => {},
                        Ok(ir) => {
                            if size_of_ir(&ir).is_none() {
                                return false;
                            }
                        },
                    }
                },
            }
            k = k + 1;
        }
        true
    }

    /// Compiles each node of `src` as soon as it is parsed; the first error, of parsing or of
    /// compiling, wins.
    fn compile_impl(&mut self, src: &'a str, ctx: CompilerContext) -> (r: Result<(), CompileError>)
        requires
            src.spec_bytes().len() <= u32::MAX,
            sizes_fit(src),
            old(self).arguments@.len() == 0,
            old(self).local_bindings@.len() == 0,
            old(self).aligned(),
        ensures
            Self::compiled(
                *old(self),
                *final(self),
                r,
                spec_module(
                    old(self).env(),
                    old(self).scope(),
                    old(self).code().2,
                    src,
                    spec_parse(src@),
                    ctx == CompilerContext::Module,
                ),
            ),
    {
        let ghost start = *self;
        let ghost env = self.env();
        let ghost scope = self.scope();
        let ghost module = ctx == CompilerContext::Module;
        let results = Node::parse(src);
        let ghost rs = spec_parse(src@);
        proof {
            lemma_parse_wf(src);
            assert(rs.skip(0) =~= rs);
            assert(start.code().0 + Seq::<SpecInstr>::empty() =~= start.code().0);
            assert(start.code().1 + Seq::<Span>::empty() =~= start.code().1);
            let r0 = spec_module(env, scope, start.code().2, src, rs, module);
            match r0 {
                Ok(h) => {
                    assert(then_gen((Seq::empty(), Seq::empty(), start.code().2), h) =~= h);
                },
                Err(_) => {},
            }
        }
        let ghost mut g: Gen = (Seq::empty(), Seq::empty(), start.code().2);
        let mut k: usize = 0;
        while k < results.len()
            invariant
                k <= results@.len(),
                results@.len() == rs.len(),
                rs == spec_parse(src@),
                forall|q: int| 0 <= q < results@.len() ==> result_view(#[trigger] results@[q]) == rs[q],
                forall|q: int| 0 <= q < rs.len() ==> (#[trigger] rs[q] matches Ok(n) ==> node_wf(src, n)),
                sizes_fit(src),
                src.spec_bytes().len() <= u32::MAX,
                *old(self) == start,
                env == start.env(),
                scope == start.scope(),
                module == (ctx == CompilerContext::Module),
                self.env() == env,
                self.scope() == scope,
                self.aligned(),
                self.arguments@ == start.arguments@,
                self.local_bindings@ == start.local_bindings@,
                self.arguments@.len() == 0,
                self.local_bindings@.len() == 0,
                self.code() == (start.code().0 + g.0, start.code().1 + g.1, g.2),
                spec_module(env, scope, start.code().2, src, rs, module) == match spec_module(
                    env,
                    scope,
                    g.2,
                    src,
                    rs.skip(k as int),
                    module,
                ) {
                    Ok(h) => Ok(then_gen(g, h)),
                    Err(e) => Err(e),
                },
            decreases results@.len() - k,
        {
            let ghost cur = *self;
            proof {
                assert(rs.skip(k as int).drop_first() =~= rs.skip(k + 1));
                assert(rs.skip(k as int)[0] == rs[k as int]);
                assert(result_view(results@[k as int]) == rs[k as int]);
            }
            let node = match &results[k] {
                Err(e) => {
                    return Err(CompileError::AstError(*e));
                },
                Ok(n) => n,
            };
            let ir = match Ir::new(src, node) {
                Err(e) => {
                    return Err(e);
                },
                Ok(ir) => ir,
            };
            proof {
                assert(rs[k as int] matches Ok(n) && spec_new(src, n) == Ok::<SpecIr, SpecCompileError>(ir.spec_view()));
                assert(ir_size(ir.spec_view()) <= usize::MAX);
            }
            let res = self.compile_one(&ir, ctx);
            match res {
                Err(e) => {
                    return Err(e);
                },
                Ok(()) => {},
            }
            proof {
                let h = spec_one(env, scope, g.2, ir.spec_view(), module)->Ok_0;
                let rest = spec_module(env, scope, h.2, src, rs.skip(k + 1), module);
                match rest {
                    Ok(t) => {
                        assert(then_gen(g, then_gen(h, t)) =~= then_gen(then_gen(g, h), t));
                    },
                    Err(_) => {},
                }
                assert(self.code().0 =~= start.code().0 + then_gen(g, h).0);
                assert(self.code().1 =~= start.code().1 + then_gen(g, h).1);
                g = then_gen(g, h);
            }
            k = k + 1;
        }
        proof {
            assert(rs.skip(k as int) =~= Seq::<Result<SpecNode, AstParseError>>::empty());
            assert(then_gen(g, (Seq::empty(), Seq::empty(), g.2)) =~= g);
        }
        Ok(())
    }

    /// The slot of `symbol` among the arguments and local bindings.
    fn arg_idx(&self, symbol: &str) -> (r: Option<usize>)
        requires
            self.room(0),
        ensures
            match r {
                Some(i) => arg_slot(self.scope(), symbol@) == Some(i as int),
                None => arg_slot(self.scope(), symbol@) is None,
            },
    {
        let ghost locals = strings_view(self.local_bindings@);
        let ghost args = strings_view(self.arguments@);
        let mut i: usize = self.local_bindings.len();
        proof {
            assert(locals.take(i as int) =~= locals);
        }
        while i > 0
            invariant
                i <= locals.len(),
                locals == strings_view(self.local_bindings@),
                locals.len() == self.local_bindings@.len(),
                self.arguments@.len() + self.local_bindings@.len() <= usize::MAX,
                last_index(locals, symbol@) == last_index(locals.take(i as int), symbol@),
            decreases i,
        {
            proof {
                assert(locals.take(i as int).drop_last() =~= locals.take(i - 1));
                assert(locals.take(i as int).last() == compact_chars(self.local_bindings@[i - 1]));
            }
            if str_eq(compact_as_str(&self.local_bindings[i - 1]), symbol) {
                return Some(i - 1 + self.arguments.len());
            }
            i = i - 1;
        }
        proof {
            assert(locals.take(0) =~= Seq::<Seq<char>>::empty());
        }
        let mut j: usize = self.arguments.len();
        proof {
            assert(args.take(j as int) =~= args);
        }
        while j > 0
            invariant
                j <= args.len(),
                args == strings_view(self.arguments@),
                args.len() == self.arguments@.len(),
                locals == strings_view(self.local_bindings@),
                last_index(locals, symbol@) is None,
                last_index(args, symbol@) == last_index(args.take(j as int), symbol@),
            decreases j,
        {
            proof {
                assert(args.take(j as int).drop_last() =~= args.take(j - 1));
                assert(args.take(j as int).last() == compact_chars(self.arguments@[j - 1]));
            }
            if str_eq(compact_as_str(&self.arguments[j - 1]), symbol) {
                proof {
                    assert(last_index(args.take(j as int), symbol@) == Some(j - 1));
                }
                return Some(j - 1);
            }
            j = j - 1;
        }
        proof {
            assert(args.take(0) =~= Seq::<Seq<char>>::empty());
        }
        None
    }

    /// The value of the first global named `name`.
    fn global(&self, name: &str) -> (r: Option<GlobalVal>)
        ensures
            r == global_of(self.env().globals, name@),
    {
        let ghost g = globals_view(self.globals@);
        let mut i: usize = 0;
        proof {
            assert(g.skip(0) =~= g);
        }
        while i < self.globals.len()
            invariant
                i <= g.len(),
                g == globals_view(self.globals@),
                g.len() == self.globals@.len(),
                global_of(g, name@) == global_of(g.skip(i as int), name@),
            decreases g.len() - i,
        {
            proof {
                assert(g.skip(i as int).drop_first() =~= g.skip(i + 1));
                assert(g.skip(i as int)[0] == (self.globals@[i as int].0@, self.globals@[i as int].1));
            }
            if str_eq(self.globals[i].0, name) {
                return Some(self.globals[i].1);
            }
            i = i + 1;
        }
        proof {
            assert(g.skip(i as int) =~= Seq::<(Seq<char>, GlobalVal)>::empty());
        }
        None
    }

    fn compile_one_constant(&mut self, span: Span, val: &Constant)
        ensures
            final(self).code() == push_gen(
                old(self).code(),
                SpecInstr::PushConst(const_of(val.spec_view())),
                span,
            ),
            final(self).instructions@.len() == old(self).instructions@.len() + 1,
            final(self).instruction_source@.len() == old(self).instruction_source@.len() + 1,
            final(self).env() == old(self).env(),
            final(self).scope() == old(self).scope(),
            final(self).arguments@ == old(self).arguments@,
            final(self).local_bindings@ == old(self).local_bindings@,
    {
        let instruction = match val {
            Constant::Void => Instruction::PushConst(Const::Void),
            Constant::Bool(x) => Instruction::PushConst(Const::Bool(*x)),
            Constant::Int(x) => Instruction::PushConst(Const::Int(*x)),
            Constant::Float(x) => Instruction::PushConst(Const::Float(*x)),
            Constant::String(x) => Instruction::PushConst(Const::String(compact_clone(x))),
        };
        self.push(instruction, span);
    }

    fn compile_one_deref(&mut self, span: Span, ident: &'a str)
        requires
            old(self).room(0),
        ensures
            final(self).code() == push_gen(
                old(self).code(),
                deref_instr(old(self).env(), old(self).scope(), ident@),
                span,
            ),
            final(self).instructions@.len() == old(self).instructions@.len() + 1,
            final(self).instruction_source@.len() == old(self).instruction_source@.len() + 1,
            final(self).env() == old(self).env(),
            final(self).scope() == old(self).scope(),
            final(self).arguments@ == old(self).arguments@,
            final(self).local_bindings@ == old(self).local_bindings@,
    {
        let instruction = match self.arg_idx(ident) {
            Some(idx) => Instruction::GetArg(idx),
            None => {
                let is_current = match self.function_name {
                    Some(name) => str_eq(name, ident),
                    None => false,
                };
                if is_current {
                    Instruction::PushCurrentFunction
                } else {
                    let inlined = if self.settings.enable_aggressive_inline {
                        self.global(ident)
                    } else {
                        None
                    };
                    match inlined {
                        Some(v) => Instruction::PushConst(Const::Global(v)),
                        None => Instruction::Deref(ident),
                    }
                }
            },
        };
        self.push(instruction, span);
    }

    /// Compiling left `new` as `spec` says: on success, the code extended by what `spec` gives
    /// and the scope as it was; on failure, the error that `spec` gives.
    pub closed spec fn compiled(
        old: Compiler<'a, 'g>,
        new: Compiler<'a, 'g>,
        r: Result<(), CompileError>,
        spec: Result<Gen, SpecCompileError>,
    ) -> bool {
        &&& new.env() == old.env()
        &&& match spec {
            Ok(g) => {
                &&& r is Ok
                &&& new.scope() == old.scope()
                &&& new.arguments@ == old.arguments@
                &&& new.local_bindings@ == old.local_bindings@
                &&& new.code() == (old.code().0 + g.0, old.code().1 + g.1, g.2)
                &&& new.aligned()
            },
            Err(e) => r matches Err(x) && x.spec_view() == e,
        }
    }

    /// Compiles one expression.
    fn compile_one(&mut self, ir: &Ir<'a>, ctx: CompilerContext) -> (r: Result<(), CompileError>)
        requires
            old(self).room(ir_size(ir.spec_view())),
        ensures
            Self::compiled(
                *old(self),
                *final(self),
                r,
                spec_one(
                    old(self).env(),
                    old(self).scope(),
                    old(self).code().2,
                    ir.spec_view(),
                    ctx == CompilerContext::Module,
                ),
            ),
        decreases ir.spec_view(), 3int,
    {
        let ghost start = *self;
        match ir {
            Ir::Constant(span, const_val) => {
                self.compile_one_constant(*span, const_val);
                proof {
                    assert(self.code().0 =~= start.code().0 + seq![SpecInstr::PushConst(const_of(const_val.spec_view()))]);
                    assert(self.code().1 =~= start.code().1 + seq![*span]);
                }
                Ok(())
            },
            Ir::Deref(span, ident) => {
                self.compile_one_deref(*span, ident);
                proof {
                    assert(self.code().0 =~= start.code().0 + seq![deref_instr(start.env(), start.scope(), ident@)]);
                    assert(self.code().1 =~= start.code().1 + seq![*span]);
                }
                Ok(())
            },
            Ir::FunctionCall { span, function, args } => self.compile_one_function_call(
                *span,
                function,
                args,
            ),
            Ir::Define { span, identifier, expr } => self.compile_one_define(
                ctx,
                *span,
                identifier,
                expr,
            ),
            Ir::If { span, predicate, true_expr, false_expr } => self.compile_one_if(
                *span,
                predicate,
                true_expr,
                false_expr,
            ),
            Ir::Lambda { span, name, args, expressions } => self.compile_one_lambda(
                *span,
                *name,
                args,
                expressions,
            ),
            Ir::Let { span, bindings, expressions } => self.compile_one_let(
                *span,
                bindings,
                expressions,
            ),
            Ir::Return { expr } => self.compile_one_return(expr),
        }
    }

    /// Compiles each expression in turn; the first error wins.
    fn compile_many(&mut self, expressions: &Vec<Ir<'a>>, behavior: CompileManyBehavior) -> (r:
        Result<(), CompileError>)
        requires
            old(self).room(irs_size(irs_view(expressions@))),
        ensures
            Self::compiled(
                *old(self),
                *final(self),
                r,
                spec_many(
                    old(self).env(),
                    old(self).scope(),
                    old(self).code().2,
                    irs_view(expressions@),
                    behavior == CompileManyBehavior::KeepSingleReturn,
                ),
            ),
        decreases irs_view(expressions@), 1int,
    {
        let ghost all = irs_view(expressions@);
        let ghost start = *self;
        let ghost env = self.env();
        let ghost scope = self.scope();
        proof {
            lemma_irs_view_index(expressions@);
            lemma_irs_size(all);
        }
        let n = expressions.len();
        if n == 0 {
            if behavior == CompileManyBehavior::KeepSingleReturn {
                self.compile_one_constant(Span::new(0, 0), &Constant::Void);
            }
            proof {
                assert(self.code().0 =~= start.code().0 + (spec_many(env, scope, start.code().2, all, behavior == CompileManyBehavior::KeepSingleReturn)->Ok_0).0);
                assert(self.code().1 =~= start.code().1 + (spec_many(env, scope, start.code().2, all, behavior == CompileManyBehavior::KeepSingleReturn)->Ok_0).1);
            }
            return Ok(());
        }
        let ghost init = all.drop_last();
        let mut i: usize = 0;
        proof {
            assert(init.take(0) =~= Seq::<SpecIr>::empty());
            assert(start.code().0 + Seq::<SpecInstr>::empty() =~= start.code().0);
            assert(start.code().1 + Seq::<Span>::empty() =~= start.code().1);
        }
        while i < n - 1
            invariant
                n == expressions@.len(),
                n > 0,
                all == irs_view(expressions@),
                all.len() == n,
                init == all.drop_last(),
                i <= n - 1,
                forall|k: int| 0 <= k < n ==> #[trigger] all[k] == expressions@[k].spec_view(),
                forall|k: int| 0 <= k < n ==> ir_size(#[trigger] all[k]) <= irs_size(all),
                start.room(irs_size(all)),
                env == start.env(),
                scope == start.scope(),
                self.env() == env,
                self.scope() == scope,
                self.arguments@ == start.arguments@,
                self.local_bindings@ == start.local_bindings@,
                self.aligned(),
                *old(self) == start,
                spec_all(env, scope, start.code().2, init.take(i as int)) matches Ok(g) && self.code()
                    == (start.code().0 + g.0, start.code().1 + g.1, g.2),
            decreases n - 1 - i,
        {
            let ghost before = *self;
            let ghost g = spec_all(env, scope, start.code().2, init.take(i as int))->Ok_0;
            proof {
                assert(init.take(i + 1).drop_last() =~= init.take(i as int));
                assert(init.take(i + 1).last() == all[i as int]);
                assert(decreases_to!(all => all[i as int]));
            }
            let res = self.compile_one(&expressions[i], CompilerContext::Subexpression);
            match res {
                Err(e) => {
                    proof {
                        let one = spec_one(env, scope, g.2, all[i as int], false);
                        assert(spec_all(env, scope, start.code().2, init.take(i + 1)) == one);
                        lemma_all_prefix_err(env, scope, start.code().2, init, i + 1);
                        let keep = behavior == CompileManyBehavior::KeepSingleReturn;
                        assert(spec_many(env, scope, start.code().2, all, keep) == one);
                    }
                    return Err(e);
                },
                Ok(()) => {},
            }
            proof {
                let h = spec_one(env, scope, g.2, all[i as int], false)->Ok_0;
                assert(self.code().0 =~= start.code().0 + then_gen(g, h).0);
                assert(self.code().1 =~= start.code().1 + then_gen(g, h).1);
            }
            i = i + 1;
        }
        proof {
            assert(init.take(i as int) =~= init);
        }
        let ghost g = spec_all(env, scope, start.code().2, init)->Ok_0;
        if n > 1 && behavior == CompileManyBehavior::KeepSingleReturn {
            self.push(Instruction::Pop(n - 1), Span::new(0, 0));
            proof {
                assert(self.code().0 =~= start.code().0 + push_gen(g, SpecInstr::Pop(init.len()), no_span()).0);
                assert(self.code().1 =~= start.code().1 + push_gen(g, SpecInstr::Pop(init.len()), no_span()).1);
            }
        }
        let ghost g2 = if init.len() > 0 && behavior == CompileManyBehavior::KeepSingleReturn {
            push_gen(g, SpecInstr::Pop(init.len()), no_span())
        } else {
            g
        };
        proof {
            assert(decreases_to!(all => all[n - 1]));
            assert(all.last() == all[n - 1]);
        }
        let res = self.compile_one(&expressions[n - 1], CompilerContext::Subexpression);
        match res {
            Err(e) => {
                proof {
                    let keep = behavior == CompileManyBehavior::KeepSingleReturn;
                    assert(spec_many(env, scope, start.code().2, all, keep) == spec_one(
                        env,
                        scope,
                        g2.2,
                        all.last(),
                        false,
                    ));
                }
                return Err(e);
            },
            Ok(()) => {},
        }
        proof {
            let h = spec_one(env, scope, g2.2, all.last(), false)->Ok_0;
            assert(self.code().0 =~= start.code().0 + then_gen(g2, h).0);
            assert(self.code().1 =~= start.code().1 + then_gen(g2, h).1);
        }
        Ok(())
    }

    fn compile_one_function_call(
        &mut self,
        span: Span,
        function: &Ir<'a>,
        args: &Vec<Ir<'a>>,
    ) -> (r: Result<(), CompileError>)
        requires
            old(self).room(
                ir_size(SpecIr::FunctionCall(span, Box::new(function.spec_view()), irs_view(args@))),
            ),
        ensures
            Self::compiled(
                *old(self),
                *final(self),
                r,
                spec_one(
                    old(self).env(),
                    old(self).scope(),
                    old(self).code().2,
                    SpecIr::FunctionCall(span, Box::new(function.spec_view()), irs_view(args@)),
                    false,
                ),
            ),
        decreases SpecIr::FunctionCall(span, Box::new(function.spec_view()), irs_view(args@)), 2int,
    {
        let ghost start = *self;
        let ghost env = self.env();
        let ghost av = irs_view(args@);
        proof {
            lemma_irs_view_index(args@);
            lemma_irs_size(av);
            lemma_many_keep_all(env, start.scope(), start.code().2, av);
        }
        let maybe_native: Option<u32> = if self.settings.enable_aggressive_inline {
            match function {
                Ir::Deref(_, ident) => match self.global(ident) {
                    Some(GlobalVal::NativeFunction(func)) => Some(func),
                    _ => None,
                },
                _ => None,
            }
        } else {
            None
        };
        proof {
            assert(maybe_native == inlined_native(env, function.spec_view()));
        }
        if maybe_native.is_none() {
            self.compile_one(function, CompilerContext::Subexpression)?;
        }
        let ghost mid = *self;
        let ghost fg: Gen = if maybe_native is Some {
            (Seq::empty(), Seq::empty(), start.code().2)
        } else {
            spec_one(env, start.scope(), start.code().2, function.spec_view(), false)->Ok_0
        };
        proof {
            lemma_many_keep_all(env, start.scope(), fg.2, av);
            assert(mid.code().0 =~= start.code().0 + fg.0);
            assert(mid.code().1 =~= start.code().1 + fg.1);
            assert(mid.code().2 == fg.2);
        }
        self.compile_many(args, CompileManyBehavior::KeepAll)?;
        let ghost a = spec_all(env, start.scope(), fg.2, av)->Ok_0;
        match maybe_native {
            Some(func) => {
                self.push(Instruction::EvalNative { func, arg_count: args.len() }, span);
            },
            None => {
                self.push(Instruction::Eval(args.len() + 1), span);
            },
        }
        proof {
            let spec = spec_one(env, start.scope(), start.code().2, SpecIr::FunctionCall(span, Box::new(function.spec_view()), av), false);
            let g = match maybe_native {
                Some(func) => push_gen(a, SpecInstr::EvalNative(func, av.len()), span),
                None => push_gen(then_gen(fg, a), SpecInstr::Eval(av.len() + 1), span),
            };
            assert(spec == Ok::<Gen, SpecCompileError>(g));
            assert(self.code().0 =~= start.code().0 + g.0);
            assert(self.code().1 =~= start.code().1 + g.1);
        }
        Ok(())
    }

    fn compile_one_define(
        &mut self,
        ctx: CompilerContext,
        span: Span,
        ident: &'a str,
        expr: &Ir<'a>,
    ) -> (r: Result<(), CompileError>)
        requires
            old(self).room(ir_size(SpecIr::Define(span, ident@, Box::new(expr.spec_view())))),
        ensures
            Self::compiled(
                *old(self),
                *final(self),
                r,
                spec_one(
                    old(self).env(),
                    old(self).scope(),
                    old(self).code().2,
                    SpecIr::Define(span, ident@, Box::new(expr.spec_view())),
                    ctx == CompilerContext::Module,
                ),
            ),
        decreases SpecIr::Define(span, ident@, Box::new(expr.spec_view())), 2int,
    {
        let ghost start = *self;
        if ctx != CompilerContext::Module {
            return Err(CompileError::DefineNotAllowed);
        }
        if expr.return_type() != IrReturnType::Value {
            return Err(CompileError::ExpectedExpression { context: "define" });
        }
        self.compile_one(expr, CompilerContext::Subexpression)?;
        self.push(Instruction::Define(ident), span);
        proof {
            let g = spec_one(start.env(), start.scope(), start.code().2, expr.spec_view(), false)->Ok_0;
            assert(self.code().0 =~= start.code().0 + push_gen(g, SpecInstr::Define(ident@), span).0);
            assert(self.code().1 =~= start.code().1 + push_gen(g, SpecInstr::Define(ident@), span).1);
        }
        Ok(())
    }

    fn compile_one_return(&mut self, expr: &Ir<'a>) -> (r: Result<(), CompileError>)
        requires
            old(self).room(ir_size(SpecIr::Return(Box::new(expr.spec_view())))),
        ensures
            Self::compiled(
                *old(self),
                *final(self),
                r,
                spec_one(
                    old(self).env(),
                    old(self).scope(),
                    old(self).code().2,
                    SpecIr::Return(Box::new(expr.spec_view())),
                    false,
                ),
            ),
        decreases SpecIr::Return(Box::new(expr.spec_view())), 2int,
    {
        let ghost start = *self;
        self.compile_one(expr, CompilerContext::Subexpression)?;
        self.push(Instruction::Return, Span::new(0, 0));
        proof {
            let g = spec_one(start.env(), start.scope(), start.code().2, expr.spec_view(), false)->Ok_0;
            assert(self.code().0 =~= start.code().0 + push_gen(g, SpecInstr::Return, no_span()).0);
            assert(self.code().1 =~= start.code().1 + push_gen(g, SpecInstr::Return, no_span()).1);
        }
        Ok(())
    }

    #[verifier::rlimit(60)]
    fn compile_one_if(
        &mut self,
        span: Span,
        predicate: &Ir<'a>,
        true_expr: &Ir<'a>,
        false_expr: &Option<Box<Ir<'a>>>,
    ) -> (r: Result<(), CompileError>)
        requires
            old(self).room(ir_size(if_view(span, predicate, true_expr, false_expr))),
        ensures
            Self::compiled(
                *old(self),
                *final(self),
                r,
                spec_one(
                    old(self).env(),
                    old(self).scope(),
                    old(self).code().2,
                    if_view(span, predicate, true_expr, false_expr),
                    false,
                ),
            ),
        decreases if_view(span, predicate, true_expr, false_expr), 2int,
    {
        let ghost start = *self;
        let ghost env = self.env();
        let ghost scope = self.scope();
        if predicate.return_type() != IrReturnType::Value {
            return Err(CompileError::ExpectedExpression { context: "if predicate" });
        }
        self.compile_one(predicate, CompilerContext::Subexpression)?;
        let ghost p = spec_one(env, scope, start.code().2, predicate.spec_view(), false)->Ok_0;
        proof {
            lemma_instrs_view_index(self.instructions@);
        }
        let true_jump_idx = self.instructions.len();
        self.push(Instruction::PushConst(Const::Void), span);
        let ghost after_jump_if = *self;
        match false_expr {
            Some(e) => {
                self.compile_one(e, CompilerContext::Subexpression)?;
            },
            None => {
                self.push(Instruction::PushConst(Const::Void), Span::new(0, 0));
            },
        }
        let ghost fg = match false_expr {
            Some(e) => spec_one(env, scope, p.2, e.spec_view(), false)->Ok_0,
            None => (seq![SpecInstr::PushConst(SpecConst::Void)], seq![no_span()], p.2),
        };
        proof {
            assert(self.code().0 =~= after_jump_if.code().0 + fg.0);
            assert(self.code().1 =~= after_jump_if.code().1 + fg.1);
        }
        proof {
            lemma_instrs_view_index(self.instructions@);
        }
        let false_jump_idx = self.instructions.len();
        self.push(Instruction::PushConst(Const::Void), span);
        let ghost after_jump = *self;
        self.compile_one(true_expr, CompilerContext::Subexpression)?;
        let ghost t = spec_one(env, scope, fg.2, true_expr.spec_view(), false)->Ok_0;
        let ghost before_patch = self.instructions@;
        let ghost spans = self.instruction_source@;
        proof {
            lemma_instrs_view_index(before_patch);
            assert(self.code().0 =~= after_jump.code().0 + t.0);
            assert(self.code().1 =~= after_jump.code().1 + t.1);
            lemma_instrs_view_index(after_jump.instructions@);
            assert(after_jump.code().0.len() == false_jump_idx + 1);
            assert(after_jump.code().1[false_jump_idx as int] == span);
            assert(false_jump_idx == true_jump_idx + 1 + fg.0.len());
            assert(before_patch.len() == false_jump_idx + 1 + t.0.len());
        }
        self.instructions[true_jump_idx] = Instruction::JumpIf(false_jump_idx - true_jump_idx);
        self.instruction_source[false_jump_idx] = span;
        let end = self.instructions.len();
        self.instructions[false_jump_idx] = Instruction::Jump(end - false_jump_idx - 1);
        proof {
            let w = before_patch.update(true_jump_idx as int, Instruction::JumpIf((false_jump_idx - true_jump_idx) as usize));
            lemma_instrs_view_update(before_patch, true_jump_idx as int, Instruction::JumpIf((false_jump_idx - true_jump_idx) as usize));
            lemma_instrs_view_update(w, false_jump_idx as int, Instruction::Jump((end - false_jump_idx - 1) as usize));
            assert(self.instructions@ == w.update(false_jump_idx as int, Instruction::Jump((end - false_jump_idx - 1) as usize)));
            let g = then_gen(
                push_gen(
                    then_gen(push_gen(p, SpecInstr::JumpIf(fg.0.len() + 1), span), fg),
                    SpecInstr::Jump(t.0.len()),
                    span,
                ),
                t,
            );
            assert(self.code().0 =~= start.code().0 + g.0);
            assert(spans[false_jump_idx as int] == span);
            assert(self.code().1 =~= start.code().1 + g.1);
        }
        Ok(())
    }

    fn compile_one_lambda(
        &mut self,
        span: Span,
        name: Option<&'a str>,
        args: &Vec<&'a str>,
        expressions: &Vec<Ir<'a>>,
    ) -> (r: Result<(), CompileError>)
        requires
            old(self).room(
                ir_size(SpecIr::Lambda(span, opt_text(name), strs_view(args@), irs_view(expressions@))),
            ),
        ensures
            Self::compiled(
                *old(self),
                *final(self),
                r,
                spec_one(
                    old(self).env(),
                    old(self).scope(),
                    old(self).code().2,
                    SpecIr::Lambda(span, opt_text(name), strs_view(args@), irs_view(expressions@)),
                    false,
                ),
            ),
        decreases SpecIr::Lambda(span, opt_text(name), strs_view(args@), irs_view(expressions@)),
            2int,
    {
        let ghost start = *self;
        let ghost av = strs_view(args@);
        let ghost ev = irs_view(expressions@);
        proof {
            lemma_irs_view_index(expressions@);
        }
        if expressions.len() == 0 {
            return Err(CompileError::ExpectedExpression { context: "lambda definition expressions" });
        }
        let mut arguments_vec: Vec<CompactString> = Vec::new();
        let mut i: usize = 0;
        while i < args.len()
            invariant
                i <= args@.len(),
                av == strs_view(args@),
                strings_view(arguments_vec@) =~= av.take(i as int),
                arguments_vec@.len() == i,
            decreases args@.len() - i,
        {
            let ghost before = arguments_vec@;
            arguments_vec.push(compact_new(args[i]));
            proof {
                assert(strings_view(arguments_vec@) =~= strings_view(before).push(args@[i as int]@));
                assert(av.take(i + 1) =~= av.take(i as int).push(av[i as int]));
            }
            i = i + 1;
        }
        proof {
            assert(av.take(i as int) =~= av);
        }
        let mut lambda_compiler = Compiler {
            settings: self.settings,
            globals: self.globals,
            source: self.source,
            function_name: name,
            arguments: arguments_vec,
            local_bindings: Vec::new(),
            local_space_required: 0,
            instructions: Vec::new(),
            instruction_source: Vec::new(),
        };
        proof {
            assert(lambda_compiler.scope().args == av);
            assert(lambda_compiler.scope().locals =~= Seq::<Seq<char>>::empty());
            assert(lambda_compiler.code().0 =~= Seq::<SpecInstr>::empty());
            assert(lambda_compiler.code().1 =~= Seq::<Span>::empty());
        }
        match find_duplicate(lambda_compiler.arguments.as_slice()) {
            Some(dupe) => {
                proof {
                    let k = choose|k: int| duplicate_index(av, k) && compact_chars(dupe) == av[k];
                    let c = choose|k: int| duplicate_index(av, k);
                    lemma_duplicate_index_unique(av, k, c);
                }
                return Err(CompileError::ArgumentDefinedMultipleTimes(dupe));
            },
            None => {
                proof {
                    if exists|k: int| duplicate_index(av, k) {
                        let k = choose|k: int| duplicate_index(av, k);
                        lemma_duplicate_not_distinct(av, k);
                    }
                }
            },
        }
        proof {
            lemma_many_keep_all(lambda_compiler.env(), lambda_compiler.scope(), 0, ev);
            assert(decreases_to!(SpecIr::Lambda(span, opt_text(name), av, ev) => ev));
        }
        lambda_compiler.compile_many(expressions, CompileManyBehavior::KeepAll)?;
        proof {
            reveal_strlit("");
            assert(""@ =~= Seq::<char>::empty());
            assert(lambda_compiler.env() == start.env());
        }
        let bytecode = ByteCode {
            name: match name {
                Some(n) => n,
                None => "",
            },
            arg_count: args.len(),
            local_bindings: lambda_compiler.local_space_required,
            instructions: lambda_compiler.instructions,
            source: lambda_compiler.source,
            instruction_source: lambda_compiler.instruction_source,
        };
        self.push(Instruction::PushConst(Const::Function(Box::new(bytecode))), span);
        proof {
            let b = spec_lambda(start.env(), opt_text(name), av, ev)->Ok_0;
            assert(bytecode.spec_view() == b);
            let instr = SpecInstr::PushConst(SpecConst::Function(Box::new(b)));
            assert(self.code().0 =~= start.code().0 + seq![instr]);
            assert(self.code().1 =~= start.code().1 + seq![span]);
        }
        Ok(())
    }

    fn compile_one_let(
        &mut self,
        span: Span,
        bindings: &Vec<(&'a str, Ir<'a>)>,
        expressions: &Vec<Ir<'a>>,
    ) -> (r: Result<(), CompileError>)
        requires
            old(self).room(ir_size(SpecIr::Let(span, bindings_view(bindings@), irs_view(expressions@)))),
        ensures
            Self::compiled(
                *old(self),
                *final(self),
                r,
                spec_one(
                    old(self).env(),
                    old(self).scope(),
                    old(self).code().2,
                    SpecIr::Let(span, bindings_view(bindings@), irs_view(expressions@)),
                    false,
                ),
            ),
        decreases SpecIr::Let(span, bindings_view(bindings@), irs_view(expressions@)), 2int,
    {
        let ghost start = *self;
        let ghost env = self.env();
        let ghost scope0 = self.scope();
        let ghost bv = bindings_view(bindings@);
        let ghost ev = irs_view(expressions@);
        let ghost whole = SpecIr::Let(span, bv, ev);
        proof {
            lemma_bindings_view_index(bindings@);
            lemma_bindings_size(bv);
            lemma_irs_size(ev);
            assert(bv.skip(0) =~= bv);
            assert(start.code().0 + Seq::<SpecInstr>::empty() =~= start.code().0);
            assert(start.code().1 + Seq::<Span>::empty() =~= start.code().1);
            let r0 = spec_bindings(env, scope0, start.code().2, span, bv);
            assert(bindings_then((Seq::empty(), Seq::empty(), start.code().2), r0) == r0) by {
                match r0 {
                    Ok((rest, last)) => {
                        assert(then_gen((Seq::empty(), Seq::empty(), start.code().2), rest) =~= rest);
                    },
                    Err(_) => {},
                }
            }
        }
        let ghost mut g: Gen = (Seq::empty(), Seq::empty(), start.code().2);
        let mut i: usize = 0;
        while i < bindings.len()
            invariant
                i <= bindings@.len(),
                bv == bindings_view(bindings@),
                bv.len() == bindings@.len(),
                forall|k: int| 0 <= k < bv.len() ==> #[trigger] bv[k] == (bindings@[k].0@, bindings@[k].1.spec_view()),
                forall|k: int| 0 <= k < bv.len() ==> k + 1 + ir_size(#[trigger] bv[k].1) <= bindings_size(bv),
                start.room(ir_size(whole)),
                whole == SpecIr::Let(span, bv, ev),
                env == start.env(),
                scope0 == start.scope(),
                self.env() == env,
                self.aligned(),
                *old(self) == start,
                self.arguments@ == start.arguments@,
                self.local_bindings@.len() == start.local_bindings@.len() + i,
                self.local_bindings@.subrange(0, start.local_bindings@.len() as int) == start.local_bindings@,
                self.scope().args == scope0.args,
                self.scope().name == scope0.name,
                self.scope().locals == scope0.locals + Seq::new(i as nat, |k: int| bv[k].0),
                self.code() == (start.code().0 + g.0, start.code().1 + g.1, self.code().2),
                g.2 == self.code().2,
                spec_bindings(env, scope0, start.code().2, span, bv) == bindings_then(
                    g,
                    spec_bindings(env, self.scope(), self.code().2, span, bv.skip(i as int)),
                ),
            decreases bindings@.len() - i,
        {
            let ghost cur = *self;
            let ghost rest = bv.skip(i as int);
            proof {
                assert(rest[0] == bv[i as int]);
                assert(rest.drop_first() =~= bv.skip(i + 1));
                assert(decreases_to!(whole => bv));
                assert(decreases_to!(bv => bv[i as int]));
                assert(decreases_to!(bv[i as int] => bv[i as int].1));
            }
            let binding = bindings[i].0;
            let res = self.compile_one(&bindings[i].1, CompilerContext::Subexpression);
            match res {
                Err(e) => {
                    proof {
                        let one = spec_one(env, cur.scope(), cur.code().2, bv[i as int].1, false);
                        assert(one is Err);
                        assert(spec_bindings(env, cur.scope(), cur.code().2, span, rest) == Err::<(Gen, Scope), SpecCompileError>(one->Err_0));
                        assert(spec_bindings(env, scope0, start.code().2, span, bv) == Err::<(Gen, Scope), SpecCompileError>(one->Err_0));
                    }
                    return Err(e);
                },
                Ok(()) => {},
            }
            let ghost v = spec_one(env, cur.scope(), cur.code().2, bv[i as int].1, false)->Ok_0;
            let ghost before_push = self.local_bindings@;
            self.local_bindings.push(compact_new(binding));
            proof {
                assert(self.local_bindings@.subrange(0, start.local_bindings@.len() as int) =~= before_push.subrange(0, start.local_bindings@.len() as int));
                assert(strings_view(self.local_bindings@) =~= strings_view(before_push).push(binding@));
                assert(last_index(strings_view(self.local_bindings@), binding@) == Some(before_push.len() as int));
            }
            let idx = self.arg_idx(binding).unwrap();
            self.push(Instruction::BindArg(idx), span);
            proof {
                let slot = cur.scope().args.len() + cur.scope().locals.len();
                let x = push_gen(v, SpecInstr::BindArg(slot as nat), span);
                assert(self.scope().locals =~= scope0.locals + Seq::new((i + 1) as nat, |k: int| bv[k].0));
                assert(self.scope() == Scope { locals: cur.scope().locals.push(bv[i as int].0), ..cur.scope() });
                let r = spec_bindings(env, self.scope(), self.code().2, span, bv.skip(i + 1));
                assert(bindings_then(g, bindings_then(x, r)) == bindings_then(then_gen(g, x), r)) by {
                    match r {
                        Ok((rest2, last)) => {
                            assert(then_gen(g, then_gen(x, rest2)) =~= then_gen(then_gen(g, x), rest2));
                        },
                        Err(_) => {},
                    }
                }
                assert(self.code().0 =~= start.code().0 + then_gen(g, x).0);
                assert(self.code().1 =~= start.code().1 + then_gen(g, x).1);
                g = then_gen(g, x);
            }
            i = i + 1;
        }
        let ghost inner = self.scope();
        proof {
            assert(bv.skip(i as int) =~= Seq::<(Seq<char>, SpecIr)>::empty());
            assert(then_gen(g, (Seq::empty(), Seq::empty(), self.code().2)) =~= g);
            lemma_bindings_view_index(bindings@);
        }
        let ghost before_body = *self;
        self.compile_many(expressions, CompileManyBehavior::KeepSingleReturn)?;
        let ghost body = spec_many(env, inner, g.2, ev, true)->Ok_0;
        let n_locals = self.local_bindings.len();
        if n_locals > self.local_space_required {
            self.local_space_required = n_locals;
        }
        let ghost after_body = *self;
        let mut k: usize = 0;
        while k < bindings.len()
            invariant
                k <= bindings@.len(),
                self.env() == after_body.env(),
                self.code() == after_body.code(),
                self.aligned(),
                self.instructions@ == after_body.instructions@,
                self.instruction_source@ == after_body.instruction_source@,
                self.arguments@ == after_body.arguments@,
                self.function_name == after_body.function_name,
                self.local_bindings@.len() == start.local_bindings@.len() + bindings@.len() - k,
                self.local_bindings@.subrange(0, start.local_bindings@.len() as int) == start.local_bindings@,
            decreases bindings@.len() - k,
        {
            let ghost before_pop = self.local_bindings@;
            self.local_bindings.pop();
            proof {
                assert(self.local_bindings@.subrange(0, start.local_bindings@.len() as int) =~= before_pop.subrange(0, start.local_bindings@.len() as int));
            }
            k = k + 1;
        }
        proof {
            assert(self.local_bindings@ =~= start.local_bindings@);
            let gg = then_gen(g, body);
            assert(self.code().0 =~= start.code().0 + gg.0);
            assert(self.code().1 =~= start.code().1 + gg.1);
        }
        Ok(())
    }


}

} // verus!
