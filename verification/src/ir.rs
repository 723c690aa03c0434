//! The intermediate representation: the syntax tree with the special forms recognized.
use compact_str::CompactString;
use vstd::prelude::*;
use vstd::string::StringSliceAdditionalSpecFns;

use crate::ast::{
    lemma_nodes_view_index, nodes_view, result_view, span_text, spec_extend_end, spec_parse,
    spec_string_literal, string_literal_readable, AstParseError, Node, SpecNode,
};
use crate::compact::compact_chars;
use crate::error::{CompileError, SpecCompileError};
use crate::span::{str_slice, Span};
use crate::text::{str_eq, valid_byte_range};
use crate::wellformed::lemma_parse_wf;

verus! {

/// Contains a constant. A float is kept as the span of its literal text.
#[derive(Debug)]
pub enum Constant {
    /// Just void, nothing.
    Void,
    /// A boolean constant.
    Bool(bool),
    /// An integer constant.
    Int(i64),
    /// A float constant, as the span of its literal.
    Float(Span),
    /// A string constant, with its escapes resolved.
    String(CompactString),
}

/// Contains the intermediate representation. This is a slightly more processed AST that is useful
/// for compiling.
#[derive(Debug)]
#[allow(inconsistent_fields)]
pub enum Ir<'a> {
    /// A constant literal.
    Constant(Span, Constant),
    /// Dereference a symbol.
    Deref(Span, &'a str),
    /// A function call expression of the form: (<function> <args>...)
    FunctionCall { span: Span, function: Box<Ir<'a>>, args: Vec<Ir<'a>> },
    /// A define expression of the form: (define <name> <expr>)
    Define { span: Span, identifier: &'a str, expr: Box<Ir<'a>> },
    /// An if expression.
    If {
        span: Span,
        predicate: Box<Ir<'a>>,
        true_expr: Box<Ir<'a>>,
        false_expr: Option<Box<Ir<'a>>>,
    },
    /// A lambda.
    Lambda { span: Span, name: Option<&'a str>, args: Vec<&'a str>, expressions: Vec<Ir<'a>> },
    /// A let expression.
    Let { span: Span, bindings: Vec<(&'a str, Ir<'a>)>, expressions: Vec<Ir<'a>> },
    /// Return the result of the given expression.
    Return { expr: Box<Ir<'a>> },
}

/// Whether an expression leaves a value or returns from the function.
#[derive(Copy, Clone, Debug, PartialEq, Eq, Structural)]
pub enum IrReturnType {
    /// A value is pushed to the top of the stack.
    Value,
    /// The current function is returned, exiting the current function call frame.
    EarlyReturn,
}

/// The mathematical value of a [`Constant`].
pub enum SpecConstant {
    Void,
    Bool(bool),
    Int(i64),
    Float(Span),
    String(Seq<char>),
}

/// The mathematical value of an [`Ir`].
pub enum SpecIr {
    Constant(Span, SpecConstant),
    Deref(Span, Seq<char>),
    FunctionCall(Span, Box<SpecIr>, Seq<SpecIr>),
    Define(Span, Seq<char>, Box<SpecIr>),
    If(Span, Box<SpecIr>, Box<SpecIr>, Option<Box<SpecIr>>),
    Lambda(Span, Option<Seq<char>>, Seq<Seq<char>>, Seq<SpecIr>),
    Let(Span, Seq<(Seq<char>, SpecIr)>, Seq<SpecIr>),
    Return(Box<SpecIr>),
}

impl Constant {
    pub open spec fn spec_view(self) -> SpecConstant {
        match self {
            Constant::Void => SpecConstant::Void,
            Constant::Bool(b) => SpecConstant::Bool(b),
            Constant::Int(x) => SpecConstant::Int(x),
            Constant::Float(s) => SpecConstant::Float(s),
            Constant::String(s) => SpecConstant::String(compact_chars(s)),
        }
    }
}

impl<'a> Ir<'a> {
    pub open spec fn spec_view(self) -> SpecIr
        decreases self,
    {
        match self {
            Ir::Constant(s, c) => SpecIr::Constant(s, c.spec_view()),
            Ir::Deref(s, id) => SpecIr::Deref(s, id@),
            Ir::FunctionCall { span, function, args } => SpecIr::FunctionCall(
                span,
                Box::new((*function).spec_view()),
                irs_view(args@),
            ),
            Ir::Define { span, identifier, expr } => SpecIr::Define(
                span,
                identifier@,
                Box::new((*expr).spec_view()),
            ),
            Ir::If { span, predicate, true_expr, false_expr } => SpecIr::If(
                span,
                Box::new((*predicate).spec_view()),
                Box::new((*true_expr).spec_view()),
                match false_expr {
                    Some(e) => Some(Box::new((*e).spec_view())),
                    None => None,
                },
            ),
            Ir::Lambda { span, name, args, expressions } => SpecIr::Lambda(
                span,
                match name {
                    Some(n) => Some(n@),
                    None => None,
                },
                strs_view(args@),
                irs_view(expressions@),
            ),
            Ir::Let { span, bindings, expressions } => SpecIr::Let(
                span,
                bindings_view(bindings@),
                irs_view(expressions@),
            ),
            Ir::Return { expr } => SpecIr::Return(Box::new((*expr).spec_view())),
        }
    }
}

/// The values of a sequence of expressions.
pub open spec fn irs_view<'a>(v: Seq<Ir<'a>>) -> Seq<SpecIr>
    decreases v,
{
    if v.len() == 0 {
        Seq::empty()
    } else {
        irs_view(v.drop_last()).push(v.last().spec_view())
    }
}

/// The values of a sequence of let bindings.
pub open spec fn bindings_view<'a>(v: Seq<(&'a str, Ir<'a>)>) -> Seq<(Seq<char>, SpecIr)>
    decreases v,
{
    if v.len() == 0 {
        Seq::empty()
    } else {
        bindings_view(v.drop_last()).push((v.last().0@, v.last().1.spec_view()))
    }
}

/// The characters of a sequence of names.
pub open spec fn strs_view<'a>(v: Seq<&'a str>) -> Seq<Seq<char>> {
    Seq::new(v.len(), |i: int| v[i]@)
}

/// The view of a result.
pub open spec fn ir_result_view<'a>(r: Result<Ir<'a>, CompileError>) -> Result<
    SpecIr,
    SpecCompileError,
> {
    match r {
        Ok(ir) => Ok(ir.spec_view()),
        Err(e) => Err(e.spec_view()),
    }
}

/// Every node of a tree can be read from `src`: identifiers and trees lie on character
/// boundaries, and string literals are readable and hold no unescaped quote.
pub open spec fn node_wf(src: &str, n: SpecNode) -> bool
    decreases n,
{
    match n {
        SpecNode::Identifier(span) => valid_byte_range(
            src.spec_bytes(),
            span.start as int,
            span.end as int,
        ),
        SpecNode::String(span) => string_literal_readable(src, span) && spec_string_literal(
            src,
            span,
        ) is Some,
        SpecNode::Tree(span, ch) => valid_byte_range(
            src.spec_bytes(),
            span.start as int,
            span.end as int,
        ) && nodes_wf(src, ch),
        _ => true,
    }
}

/// Every node of `ns` is well formed for `src`.
pub open spec fn nodes_wf(src: &str, ns: Seq<SpecNode>) -> bool
    decreases ns,
{
    if ns.len() == 0 {
        true
    } else {
        node_wf(src, ns[0]) && nodes_wf(src, ns.drop_first())
    }
}

pub open spec fn wrong_args(expression: Seq<char>, expected: usize, actual: int) -> SpecCompileError {
    SpecCompileError::ExpressionHasWrongArgs { expression, expected, actual: actual as usize }
}

/// Compiles a node.
pub open spec fn spec_new(src: &str, n: SpecNode) -> Result<SpecIr, SpecCompileError>
    decreases n, 0int,
{
    match n {
        SpecNode::Void(span) => Ok(SpecIr::Constant(span, SpecConstant::Void)),
        SpecNode::Bool(span, b) => Ok(SpecIr::Constant(span, SpecConstant::Bool(b))),
        SpecNode::Int(span, x) => Ok(SpecIr::Constant(span, SpecConstant::Int(x))),
        SpecNode::Float(span) => Ok(SpecIr::Constant(span, SpecConstant::Float(span))),
        SpecNode::String(span) => Ok(
            SpecIr::Constant(span, SpecConstant::String(spec_string_literal(src, span)->0)),
        ),
        SpecNode::Identifier(span) => Ok(SpecIr::Deref(span, span_text(src, span))),
        SpecNode::Tree(span, tree) => spec_tree(src, span, tree),
    }
}

/// Compiles each node in turn; the first error wins.
pub open spec fn spec_many(src: &str, ns: Seq<SpecNode>) -> Result<Seq<SpecIr>, SpecCompileError>
    decreases ns, 0int,
{
    if ns.len() == 0 {
        Ok(Seq::empty())
    } else {
        match spec_new(src, ns[0]) {
            Err(e) => Err(e),
            Ok(first) => match spec_many(src, ns.drop_first()) {
                Err(e) => Err(e),
                Ok(rest) => Ok(seq![first] + rest),
            },
        }
    }
}

/// Compiles the tree `(<head> <rest>...)`: a special form or a function call.
pub open spec fn spec_tree(src: &str, span: Span, tree: Seq<SpecNode>) -> Result<
    SpecIr,
    SpecCompileError,
>
    decreases tree, 5int,
{
    if tree.len() == 0 {
        Err(SpecCompileError::EmptyExpression)
    } else {
        let rest = tree.drop_first();
        match tree[0] {
            SpecNode::Identifier(lead) => {
                let word = span_text(src, lead);
                if word == "define"@ {
                    spec_define(src, span, rest)
                } else if word == "if"@ {
                    if rest.len() == 2 || rest.len() == 3 {
                        match spec_new(src, rest[0]) {
                            Err(e) => Err(e),
                            Ok(p) => match spec_new(src, rest[1]) {
                                Err(e) => Err(e),
                                Ok(t) => if rest.len() == 2 {
                                    Ok(SpecIr::If(span, Box::new(p), Box::new(t), None))
                                } else {
                                    match spec_new(src, rest[2]) {
                                        Err(e) => Err(e),
                                        Ok(f) => Ok(
                                            SpecIr::If(
                                                span,
                                                Box::new(p),
                                                Box::new(t),
                                                Some(Box::new(f)),
                                            ),
                                        ),
                                    }
                                },
                            },
                        }
                    } else {
                        Err(wrong_args("if"@, if rest.len() > 3 { 3 } else { 2 }, rest.len() as int))
                    }
                } else if word == "lambda"@ {
                    if rest.len() == 0 {
                        Err(wrong_args("lambda"@, 2, 0))
                    } else {
                        match rest[0] {
                            SpecNode::Tree(_, largs) => spec_lambda(
                                src,
                                span,
                                None,
                                largs,
                                rest.drop_first(),
                            ),
                            _ => Err(
                                SpecCompileError::ExpectedIdentifierList {
                                    context: "lambda/function definition"@,
                                },
                            ),
                        }
                    }
                } else if word == "let"@ {
                    if rest.len() == 0 {
                        Err(wrong_args("let"@, 1, 0))
                    } else {
                        spec_let(src, span, rest)
                    }
                } else if word == "or"@ {
                    spec_or(src, span, rest)
                } else if word == "and"@ {
                    spec_and(src, span, rest)
                } else if word == "return"@ {
                    if rest.len() == 1 {
                        match spec_new(src, rest[0]) {
                            Err(e) => Err(e),
                            Ok(x) => Ok(SpecIr::Return(Box::new(x))),
                        }
                    } else {
                        Err(wrong_args("return"@, 1, rest.len() as int))
                    }
                } else {
                    spec_call(src, span, tree)
                }
            },
            SpecNode::Tree(_, _) => spec_call(src, span, tree),
            _ => Err(SpecCompileError::ConstantNotCallable(span_text(src, span))),
        }
    }
}

/// Compiles the function call `(<function> <args>...)`; the arguments are compiled first.
pub open spec fn spec_call(src: &str, span: Span, tree: Seq<SpecNode>) -> Result<
    SpecIr,
    SpecCompileError,
>
    decreases tree, 4int,
{
    if tree.len() == 0 {
        Err(SpecCompileError::EmptyExpression)
    } else {
        match spec_many(src, tree.drop_first()) {
            Err(e) => Err(e),
            Ok(args) => match spec_new(src, tree[0]) {
                Err(e) => Err(e),
                Ok(f) => Ok(SpecIr::FunctionCall(span, Box::new(f), args)),
            },
        }
    }
}

/// Compiles `(define <name> <expr>)` or `(define (<name> <args>...) <exprs>...)`.
pub open spec fn spec_define(src: &str, span: Span, args: Seq<SpecNode>) -> Result<
    SpecIr,
    SpecCompileError,
>
    decreases args, 4int,
{
    if args.len() >= 1 && args[0] is Tree {
        let sig_span = args[0]->Tree_0;
        let sig = args[0]->Tree_1;
        let exprs = args.drop_first();
        let lambda_span = if exprs.len() > 0 {
            spec_extend_end(sig_span, exprs.last().span().end)
        } else {
            sig_span
        };
        if sig.len() >= 1 && sig[0] is Identifier {
            let ident_span = sig[0]->Identifier_0;
            let name = span_text(src, ident_span);
            match spec_lambda(src, lambda_span, Some(name), sig.drop_first(), exprs) {
                Err(e) => Err(e),
                Ok(l) => Ok(SpecIr::Define(ident_span, name, Box::new(l))),
            }
        } else {
            Err(SpecCompileError::ExpectedIdentifierList { context: "function definition"@ })
        }
    } else if args.len() == 2 && args[0] is Identifier {
        match spec_new(src, args[1]) {
            Err(e) => Err(e),
            Ok(x) => Ok(SpecIr::Define(span, span_text(src, args[0]->Identifier_0), Box::new(x))),
        }
    } else if args.len() == 2 {
        Err(SpecCompileError::ExpectedIdentifier)
    } else {
        Err(wrong_args("define"@, 2, args.len() as int))
    }
}

/// The names of a lambda's arguments, which must all be identifiers.
pub open spec fn spec_idents(src: &str, largs: Seq<SpecNode>) -> Result<
    Seq<Seq<char>>,
    SpecCompileError,
>
    decreases largs.len(),
{
    if largs.len() == 0 {
        Ok(Seq::empty())
    } else {
        match largs[0] {
            SpecNode::Identifier(s) => match spec_idents(src, largs.drop_first()) {
                Err(e) => Err(e),
                Ok(rest) => Ok(seq![span_text(src, s)] + rest),
            },
            _ => Err(
                SpecCompileError::ExpectedIdentifierList { context: "lambda/function definition"@ },
            ),
        }
    }
}

/// Compiles a lambda with the given arguments and body.
pub open spec fn spec_lambda(
    src: &str,
    span: Span,
    name: Option<Seq<char>>,
    largs: Seq<SpecNode>,
    exprs: Seq<SpecNode>,
) -> Result<SpecIr, SpecCompileError>
    decreases exprs, 3int,
{
    match spec_idents(src, largs) {
        Err(e) => Err(e),
        Ok(names) => match spec_many(src, exprs) {
            Err(e) => Err(e),
            Ok(body) => Ok(SpecIr::Lambda(span, name, names, body)),
        },
    }
}

/// Compiles `(let (<bindings>...) <exprs>...)`, where `rest` holds the bindings and the exprs.
pub open spec fn spec_let(src: &str, span: Span, rest: Seq<SpecNode>) -> Result<
    SpecIr,
    SpecCompileError,
>
    decreases rest, 2int,
{
    if rest.len() == 0 {
        Err(SpecCompileError::BadLetBindings)
    } else {
        match rest[0] {
            SpecNode::Tree(_, bs) => match spec_let_bindings(src, bs) {
                Err(e) => Err(e),
                Ok(bindings) => match spec_many(src, rest.drop_first()) {
                    Err(e) => Err(e),
                    Ok(body) => Ok(SpecIr::Let(span, bindings, body)),
                },
            },
            _ => Err(SpecCompileError::BadLetBindings),
        }
    }
}

/// Compiles let bindings, each of the form `(<identifier> <expr>)`.
pub open spec fn spec_let_bindings(src: &str, bs: Seq<SpecNode>) -> Result<
    Seq<(Seq<char>, SpecIr)>,
    SpecCompileError,
>
    decreases bs, 1int,
{
    if bs.len() == 0 {
        Ok(Seq::empty())
    } else {
        match bs[0] {
            SpecNode::Tree(_, b) => if b.len() == 2 && b[0] is Identifier {
                match spec_new(src, b[1]) {
                    Err(e) => Err(e),
                    Ok(x) => match spec_let_bindings(src, bs.drop_first()) {
                        Err(e) => Err(e),
                        Ok(rest) => Ok(seq![(span_text(src, b[0]->Identifier_0), x)] + rest),
                    },
                }
            } else {
                Err(SpecCompileError::BadLetBindings)
            },
            _ => Err(SpecCompileError::BadLetBindings),
        }
    }
}

/// `(or a rest...)` binds `a` and yields it when truthy, else the `or` of the rest.
pub open spec fn spec_or(src: &str, span: Span, exprs: Seq<SpecNode>) -> Result<
    SpecIr,
    SpecCompileError,
>
    decreases exprs, 2int,
{
    if exprs.len() == 0 {
        Ok(SpecIr::Constant(span, SpecConstant::Bool(false)))
    } else if exprs.len() == 1 {
        spec_new(src, exprs[0])
    } else {
        match spec_new(src, exprs[0]) {
            Err(e) => Err(e),
            Ok(first) => {
                let rest = exprs.drop_first();
                let rest_span = spec_extend_end(rest[0].span(), span.end);
                match spec_or(src, rest_span, rest) {
                    Err(e) => Err(e),
                    Ok(rest_ir) => {
                        let d = SpecIr::Deref(exprs[0].span(), "__or_internal"@);
                        let branch = SpecIr::If(
                            span,
                            Box::new(d),
                            Box::new(d),
                            Some(Box::new(rest_ir)),
                        );
                        Ok(SpecIr::Let(span, seq![("__or_internal"@, first)], seq![branch]))
                    },
                }
            },
        }
    }
}

/// `(and a rest...)` binds `a` and yields it when falsy, else the `and` of the rest.
pub open spec fn spec_and(src: &str, span: Span, exprs: Seq<SpecNode>) -> Result<
    SpecIr,
    SpecCompileError,
>
    decreases exprs, 2int,
{
    if exprs.len() == 0 {
        Ok(SpecIr::Constant(span, SpecConstant::Bool(true)))
    } else if exprs.len() == 1 {
        spec_new(src, exprs[0])
    } else {
        match spec_new(src, exprs[0]) {
            Err(e) => Err(e),
            Ok(first) => {
                let rest = exprs.drop_first();
                let rest_span = spec_extend_end(rest[0].span(), span.end);
                match spec_and(src, rest_span, rest) {
                    Err(e) => Err(e),
                    Ok(rest_ir) => {
                        let es = exprs[0].span();
                        let d = SpecIr::Deref(es, "__and_internal"@);
                        let not_d = SpecIr::FunctionCall(
                            es,
                            Box::new(SpecIr::Deref(es, "not"@)),
                            seq![d],
                        );
                        let branch = SpecIr::If(
                            span,
                            Box::new(not_d),
                            Box::new(d),
                            Some(Box::new(rest_ir)),
                        );
                        Ok(SpecIr::Let(span, seq![("__and_internal"@, first)], seq![branch]))
                    },
                }
            },
        }
    }
}

/// Compiles the results of parsing a source in turn; the first error, of parsing or of
/// compiling, wins.
pub open spec fn spec_compile_results(src: &str, rs: Seq<Result<SpecNode, AstParseError>>) -> Result<
    Seq<SpecIr>,
    SpecCompileError,
>
    decreases rs.len(),
{
    if rs.len() == 0 {
        Ok(Seq::empty())
    } else {
        match rs[0] {
            Err(e) => Err(SpecCompileError::AstError(e)),
            Ok(n) => match spec_new(src, n) {
                Err(e) => Err(e),
                Ok(x) => match spec_compile_results(src, rs.drop_first()) {
                    Ok(rest) => Ok(seq![x] + rest),
                    Err(e) => Err(e),
                },
            },
        }
    }
}

pub proof fn lemma_irs_view_push<'a>(v: Seq<Ir<'a>>, x: Ir<'a>)
    ensures
        irs_view(v.push(x)) == irs_view(v).push(x.spec_view()),
{
    assert(v.push(x).drop_last() =~= v);
}

pub proof fn lemma_irs_view_index<'a>(v: Seq<Ir<'a>>)
    ensures
        irs_view(v).len() == v.len(),
        forall|i: int| 0 <= i < v.len() ==> #[trigger] irs_view(v)[i] == v[i].spec_view(),
    decreases v.len(),
{
    if v.len() > 0 {
        lemma_irs_view_index(v.drop_last());
        assert forall|i: int| 0 <= i < v.len() implies #[trigger] irs_view(v)[i] == v[i].spec_view() by {
            if i < v.len() - 1 {
                assert(v.drop_last()[i] == v[i]);
            }
        }
    }
}

pub proof fn lemma_bindings_view_index<'a>(v: Seq<(&'a str, Ir<'a>)>)
    ensures
        bindings_view(v).len() == v.len(),
        forall|i: int|
            0 <= i < v.len() ==> #[trigger] bindings_view(v)[i] == (v[i].0@, v[i].1.spec_view()),
    decreases v.len(),
{
    if v.len() > 0 {
        lemma_bindings_view_index(v.drop_last());
        assert forall|i: int| 0 <= i < v.len() implies #[trigger] bindings_view(v)[i] == (
            v[i].0@,
            v[i].1.spec_view(),
        ) by {
            if i < v.len() - 1 {
                assert(v.drop_last()[i] == v[i]);
            }
        }
    }
}

pub proof fn lemma_bindings_view_push<'a>(v: Seq<(&'a str, Ir<'a>)>, x: (&'a str, Ir<'a>))
    ensures
        bindings_view(v.push(x)) == bindings_view(v).push((x.0@, x.1.spec_view())),
{
    assert(v.push(x).drop_last() =~= v);
}

/// The views of a slice of nodes are the slice of the views.
pub proof fn lemma_nodes_view_subrange(v: Seq<Node>, a: int, b: int)
    requires
        0 <= a <= b <= v.len(),
    ensures
        nodes_view(v.subrange(a, b)) == nodes_view(v).subrange(a, b),
        nodes_view(v).len() == v.len(),
{
    lemma_nodes_view_index(v);
    lemma_nodes_view_index(v.subrange(a, b));
    assert(nodes_view(v.subrange(a, b)) =~= nodes_view(v).subrange(a, b));
}

/// A sequence of nodes is well formed when each node is.
pub proof fn lemma_nodes_wf(src: &str, ns: Seq<SpecNode>)
    ensures
        nodes_wf(src, ns) <==> forall|i: int| 0 <= i < ns.len() ==> node_wf(src, #[trigger] ns[i]),
    decreases ns.len(),
{
    if ns.len() > 0 {
        lemma_nodes_wf(src, ns.drop_first());
        if nodes_wf(src, ns) {
            assert forall|i: int| 0 <= i < ns.len() implies node_wf(src, #[trigger] ns[i]) by {
                if i > 0 {
                    assert(ns[i] == ns.drop_first()[i - 1]);
                }
            }
        }
        if forall|i: int| 0 <= i < ns.len() ==> node_wf(src, #[trigger] ns[i]) {
            assert forall|i: int| 0 <= i < ns.drop_first().len() implies node_wf(
                src,
                #[trigger] ns.drop_first()[i],
            ) by {
                assert(ns.drop_first()[i] == ns[i + 1]);
            }
        }
    }
}

/// The text of an identifier or tree span of `src`.
fn span_str<'a>(src: &'a str, span: Span) -> (r: &'a str)
    requires
        valid_byte_range(src.spec_bytes(), span.start as int, span.end as int),
    ensures
        r@ == span_text(src, span),
{
    str_slice(src, span.start as usize, span.end as usize)
}

impl<'a> Ir<'a> {
    /// Whether the expression leaves a value or returns early.
    pub fn return_type(&self) -> (r: IrReturnType)
        ensures
            r == (if self is Return {
                IrReturnType::EarlyReturn
            } else {
                IrReturnType::Value
            }),
    {
        match self {
            Ir::Return { .. } => IrReturnType::EarlyReturn,
            _ => IrReturnType::Value,
        }
    }

    /// Compiles a node of `src`.
    pub fn new(src: &'a str, node: &Node) -> (r: Result<Ir<'a>, CompileError>)
        requires
            node_wf(src, node.spec_view()),
        ensures
            ir_result_view(r) == spec_new(src, node.spec_view()),
        decreases node.spec_view(), 0int,
    {
        match node {
            Node::Void(span) => Ok(Ir::Constant(*span, Constant::Void)),
            Node::Bool(span, b) => Ok(Ir::Constant(*span, Constant::Bool(*b))),
            Node::Int(span, x) => Ok(Ir::Constant(*span, Constant::Int(*x))),
            Node::Float(span) => Ok(Ir::Constant(*span, Constant::Float(*span))),
            Node::String(span) => {
                // `node_wf` makes the literal readable, so the `None` arm cannot be taken.
                let s = match node.to_string_literal(src) {
                    Some(x) => x,
                    None => crate::compact::compact_new(""),
                };
                Ok(Ir::Constant(*span, Constant::String(s)))
            },
            Node::Identifier(span) => Ok(Ir::Deref(*span, span_str(src, *span))),
            Node::Tree(span, tree) => {
                proof {
                    assert(node.spec_view() == SpecNode::Tree(*span, nodes_view(tree@)));
                    assert(decreases_to!(node.spec_view() => nodes_view(tree@)));
                }
                Self::new_tree(src, *span, tree.as_slice())
            },
        }
    }

    /// Parses `src` and compiles each of its nodes in turn; the first error, of parsing or of
    /// compiling, wins.
    pub fn new_from_source(src: &'a str) -> (r: Result<Vec<Ir<'a>>, CompileError>)
        requires
            src.spec_bytes().len() <= u32::MAX,
        ensures
            match r {
                Ok(v) => spec_compile_results(src, spec_parse(src@)) == Ok::<
                    Seq<SpecIr>,
                    SpecCompileError,
                >(irs_view(v@)),
                Err(e) => spec_compile_results(src, spec_parse(src@)) == Err::<
                    Seq<SpecIr>,
                    SpecCompileError,
                >(e.spec_view()),
            },
    {
        let results = Node::parse(src);
        let ghost rs = spec_parse(src@);
        proof {
            lemma_parse_wf(src);
            assert(rs.skip(0) =~= rs);
        }
        let mut res: Vec<Ir<'a>> = Vec::new();
        let mut k: usize = 0;
        while k < results.len()
            invariant
                k <= results@.len(),
                results@.len() == rs.len(),
                forall|q: int| 0 <= q < results@.len() ==> result_view(#[trigger] results@[q]) == rs[q],
                forall|q: int| 0 <= q < rs.len() ==> (#[trigger] rs[q] matches Ok(n) ==> node_wf(src, n)),
                rs == spec_parse(src@),
                spec_compile_results(src, rs) == match spec_compile_results(src, rs.skip(k as int)) {
                    Ok(rest) => Ok(irs_view(res@) + rest),
                    Err(e) => Err(e),
                },
            decreases results@.len() - k,
        {
            proof {
                assert(rs.skip(k as int).drop_first() =~= rs.skip(k + 1));
                assert(rs.skip(k as int)[0] == rs[k as int]);
                assert(result_view(results@[k as int]) == rs[k as int]);
            }
            match &results[k] {
                Err(e) => {
                    return Err(CompileError::AstError(*e));
                },
                Ok(n) => {
                    let ir = Self::new(src, n)?;
                    let ghost before = res@;
                    let ghost iv = ir.spec_view();
                    res.push(ir);
                    proof {
                        lemma_irs_view_push(before, ir);
                        match spec_compile_results(src, rs.skip(k + 1)) {
                            Ok(rest) => {
                                assert(irs_view(before) + (seq![iv] + rest) =~= irs_view(
                                    before,
                                ).push(iv) + rest);
                            },
                            Err(_) => {},
                        }
                    }
                },
            }
            k = k + 1;
        }
        proof {
            assert(rs.skip(k as int) =~= Seq::<Result<SpecNode, AstParseError>>::empty());
            assert(irs_view(res@) + Seq::<SpecIr>::empty() =~= irs_view(res@));
        }
        Ok(res)
    }

    /// Compiles each node in turn; the first error wins.
    pub fn new_many(src: &'a str, nodes: &[Node]) -> (r: Result<Vec<Ir<'a>>, CompileError>)
        requires
            nodes_wf(src, nodes_view(nodes@)),
        ensures
            match r {
                Ok(v) => spec_many(src, nodes_view(nodes@)) == Ok::<
                    Seq<SpecIr>,
                    SpecCompileError,
                >(irs_view(v@)),
                Err(e) => spec_many(src, nodes_view(nodes@)) == Err::<
                    Seq<SpecIr>,
                    SpecCompileError,
                >(e.spec_view()),
            },
        decreases nodes_view(nodes@), 0int,
    {
        let ghost all = nodes_view(nodes@);
        proof {
            lemma_nodes_view_index(nodes@);
            lemma_nodes_wf(src, all);
            assert(all.skip(0) =~= all);
        }
        let mut res: Vec<Ir<'a>> = Vec::new();
        let mut k: usize = 0;
        while k < nodes.len()
            invariant
                k <= nodes@.len(),
                all == nodes_view(nodes@),
                all.len() == nodes@.len(),
                forall|i: int| 0 <= i < nodes@.len() ==> #[trigger] all[i] == nodes@[i].spec_view(),
                forall|i: int| 0 <= i < all.len() ==> node_wf(src, #[trigger] all[i]),
                spec_many(src, all) == match spec_many(src, all.skip(k as int)) {
                    Ok(rest) => Ok(irs_view(res@) + rest),
                    Err(e) => Err(e),
                },
            decreases nodes@.len() - k,
        {
            proof {
                assert(all.skip(k as int)[0] == all[k as int]);
                assert(all.skip(k as int).drop_first() =~= all.skip(k + 1));
                assert(decreases_to!(all => all[k as int]));
            }
            let ir = Self::new(src, &nodes[k])?;
            let ghost before = res@;
            let ghost iv = ir.spec_view();
            res.push(ir);
            proof {
                lemma_irs_view_push(before, ir);
                assert(res@ == before.push(ir));
                match spec_many(src, all.skip(k + 1)) {
                    Ok(rest) => {
                        assert(irs_view(before) + (seq![iv] + rest) =~= irs_view(before).push(iv)
                            + rest);
                    },
                    Err(_) => {},
                }
            }
            k = k + 1;
        }
        proof {
            assert(all.skip(k as int) =~= Seq::<SpecNode>::empty());
            assert(irs_view(res@) + Seq::<SpecIr>::empty() =~= irs_view(res@));
        }
        Ok(res)
    }

    /// Compiles the tree `(<head> <rest>...)`: a special form or a function call.
    fn new_tree(src: &'a str, span: Span, tree: &[Node]) -> (r: Result<Ir<'a>, CompileError>)
        requires
            nodes_wf(src, nodes_view(tree@)),
            valid_byte_range(src.spec_bytes(), span.start as int, span.end as int),
        ensures
            ir_result_view(r) == spec_tree(src, span, nodes_view(tree@)),
        decreases nodes_view(tree@), 5int,
    {
        let ghost t = nodes_view(tree@);
        proof {
            lemma_nodes_view_index(tree@);
            lemma_nodes_wf(src, t);
        }
        if tree.len() == 0 {
            return Err(CompileError::EmptyExpression);
        }
        let n = tree.len();
        let rest = tree.split_at(1).1;
        proof {
            lemma_nodes_view_subrange(tree@, 1, n as int);
            assert(nodes_view(rest@) == t.drop_first());
            lemma_nodes_wf(src, t.drop_first());
            assert forall|i: int| 0 <= i < t.drop_first().len() implies node_wf(src, #[trigger] t.drop_first()[i]) by {
                assert(t.drop_first()[i] == t[i + 1]);
            }
            assert(t[0] == tree@[0].spec_view());
        }
        match &tree[0] {
            Node::Identifier(lead) => {
                let word = span_str(src, *lead);
                if str_eq(word, "define") {
                    Self::new_define(src, span, rest)
                } else if str_eq(word, "if") {
                    if rest.len() == 2 || rest.len() == 3 {
                        proof {
                            assert(t[1] == tree@[1].spec_view());
                            assert(t[2] == tree@[2].spec_view());
                            assert(decreases_to!(t => t[1]));
                            assert(decreases_to!(t => t[2]));
                        }
                        let predicate = Self::new(src, &tree[1])?;
                        let true_expr = Self::new(src, &tree[2])?;
                        if rest.len() == 2 {
                            Ok(
                                Ir::If {
                                    span,
                                    predicate: Box::new(predicate),
                                    true_expr: Box::new(true_expr),
                                    false_expr: None,
                                },
                            )
                        } else {
                            proof {
                                assert(t[3] == tree@[3].spec_view());
                                assert(decreases_to!(t => t[3]));
                            }
                            let false_expr = Self::new(src, &tree[3])?;
                            Ok(
                                Ir::If {
                                    span,
                                    predicate: Box::new(predicate),
                                    true_expr: Box::new(true_expr),
                                    false_expr: Some(Box::new(false_expr)),
                                },
                            )
                        }
                    } else {
                        Err(
                            CompileError::ExpressionHasWrongArgs {
                                expression: "if",
                                expected: if rest.len() > 3 {
                                    3
                                } else {
                                    2
                                },
                                actual: rest.len(),
                            },
                        )
                    }
                } else if str_eq(word, "lambda") {
                    if rest.len() == 0 {
                        return Err(
                            CompileError::ExpressionHasWrongArgs {
                                expression: "lambda",
                                expected: 2,
                                actual: 0,
                            },
                        );
                    }
                    match &rest[0] {
                        Node::Tree(_, largs) => {
                            proof {
                                lemma_nodes_view_subrange(tree@, 2, n as int);
                                assert(nodes_view(tree@.subrange(2, n as int)) == t.drop_first().drop_first());
                                assert(t.drop_first()[0] == rest@[0].spec_view());
                            }
                            Self::new_lambda(src, span, None, largs.as_slice(), tree.split_at(2).1)
                        },
                        _ => Err(
                            CompileError::ExpectedIdentifierList {
                                context: "lambda/function definition",
                            },
                        ),
                    }
                } else if str_eq(word, "let") {
                    if rest.len() == 0 {
                        return Err(
                            CompileError::ExpressionHasWrongArgs {
                                expression: "let",
                                expected: 1,
                                actual: 0,
                            },
                        );
                    }
                    Self::new_let(src, span, rest)
                } else if str_eq(word, "or") {
                    Self::new_or_expression(src, span, rest)
                } else if str_eq(word, "and") {
                    Self::new_and_expression(src, span, rest)
                } else if str_eq(word, "return") {
                    if rest.len() == 1 {
                        proof {
                            assert(t[1] == tree@[1].spec_view());
                            assert(decreases_to!(t => t[1]));
                        }
                        let expr = Self::new(src, &tree[1])?;
                        Ok(Ir::Return { expr: Box::new(expr) })
                    } else {
                        Err(
                            CompileError::ExpressionHasWrongArgs {
                                expression: "return",
                                expected: 1,
                                actual: rest.len(),
                            },
                        )
                    }
                } else {
                    Self::new_function_call(src, span, tree)
                }
            },
            Node::Tree(_, _) => Self::new_function_call(src, span, tree),
            _ => Err(CompileError::ConstantNotCallable(span_str(src, span).to_owned())),
        }
    }

    /// Compiles the function call `(<function> <args>...)`; the arguments are compiled first.
    fn new_function_call(src: &'a str, span: Span, tree: &[Node]) -> (r: Result<
        Ir<'a>,
        CompileError,
    >)
        requires
            nodes_wf(src, nodes_view(tree@)),
            tree@.len() > 0,
        ensures
            ir_result_view(r) == spec_call(src, span, nodes_view(tree@)),
        decreases nodes_view(tree@), 4int,
    {
        let ghost t = nodes_view(tree@);
        let n = tree.len();
        proof {
            lemma_nodes_view_index(tree@);
            lemma_nodes_wf(src, t);
            lemma_nodes_view_subrange(tree@, 1, n as int);
            lemma_nodes_wf(src, t.drop_first());
            assert forall|i: int| 0 <= i < t.drop_first().len() implies node_wf(src, #[trigger] t.drop_first()[i]) by {
                assert(t.drop_first()[i] == t[i + 1]);
            }
            assert(t[0] == tree@[0].spec_view());
            assert(decreases_to!(t => t[0]));
        }
        let args = Self::new_many(src, tree.split_at(1).1)?;
        let function = Self::new(src, &tree[0])?;
        Ok(Ir::FunctionCall { span, function: Box::new(function), args })
    }

    /// Compiles `(define <name> <expr>)` or `(define (<name> <args>...) <exprs>...)`.
    fn new_define(src: &'a str, span: Span, args: &[Node]) -> (r: Result<Ir<'a>, CompileError>)
        requires
            nodes_wf(src, nodes_view(args@)),
        ensures
            ir_result_view(r) == spec_define(src, span, nodes_view(args@)),
        decreases nodes_view(args@), 4int,
    {
        let ghost a = nodes_view(args@);
        let n = args.len();
        proof {
            lemma_nodes_view_index(args@);
            lemma_nodes_wf(src, a);
        }
        if n >= 1 {
            if let Node::Tree(sig_span, sig) = &args[0] {
                let ghost sv = nodes_view(sig@);
                proof {
                    assert(a[0] == args@[0].spec_view());
                    assert(node_wf(src, a[0]));
                    lemma_nodes_view_index(sig@);
                    lemma_nodes_wf(src, sv);
                    lemma_nodes_view_subrange(args@, 1, n as int);
                    lemma_nodes_wf_subrange(src, a, 1, n as int);
                    assert(a.subrange(1, n as int) =~= a.drop_first());
                }
                let exprs = args.split_at(1).1;
                let lambda_span = if n > 1 {
                    proof {
                        assert(a.drop_first().last() == a[n - 1]);
                        assert(a[n - 1] == args@[n - 1].spec_view());
                    }
                    sig_span.extend_end(args[n - 1].span().end)
                } else {
                    *sig_span
                };
                let m = sig.len();
                if m >= 1 {
                    if let Node::Identifier(ident_span) = &sig[0] {
                        proof {
                            assert(sv[0] == sig@[0].spec_view());
                            assert(node_wf(src, sv[0]));
                            lemma_nodes_view_subrange(sig@, 1, m as int);
                            lemma_nodes_wf_subrange(src, sv, 1, m as int);
                            assert(sv.subrange(1, m as int) =~= sv.drop_first());
                        }
                        let name = span_str(src, *ident_span);
                        let lambda = Self::new_lambda(
                            src,
                            lambda_span,
                            Some(name),
                            sig.split_at(1).1,
                            exprs,
                        )?;
                        return Ok(
                            Ir::Define { span: *ident_span, identifier: name, expr: Box::new(lambda) },
                        );
                    }
                }
                return Err(CompileError::ExpectedIdentifierList { context: "function definition" });
            }
        }
        if n == 2 {
            if let Node::Identifier(ident_span) = &args[0] {
                proof {
                    assert(a[0] == args@[0].spec_view());
                    assert(a[1] == args@[1].spec_view());
                    assert(node_wf(src, a[0]));
                    assert(decreases_to!(a => a[1]));
                }
                let identifier = span_str(src, *ident_span);
                let expr = Self::new(src, &args[1])?;
                return Ok(Ir::Define { span, identifier, expr: Box::new(expr) });
            }
            proof {
                assert(a[0] == args@[0].spec_view());
            }
            return Err(CompileError::ExpectedIdentifier);
        }
        proof {
            if n >= 1 {
                assert(a[0] == args@[0].spec_view());
            }
        }
        Err(CompileError::ExpressionHasWrongArgs { expression: "define", expected: 2, actual: n })
    }

    /// Compiles a lambda with the given arguments and body.
    fn new_lambda(
        src: &'a str,
        span: Span,
        name: Option<&'a str>,
        largs: &[Node],
        exprs: &[Node],
    ) -> (r: Result<Ir<'a>, CompileError>)
        requires
            nodes_wf(src, nodes_view(largs@)),
            nodes_wf(src, nodes_view(exprs@)),
        ensures
            ir_result_view(r) == spec_lambda(
                src,
                span,
                match name {
                    Some(x) => Some(x@),
                    None => None,
                },
                nodes_view(largs@),
                nodes_view(exprs@),
            ),
        decreases nodes_view(exprs@), 3int,
    {
        let args = lambda_idents(src, largs)?;
        let expressions = Self::new_many(src, exprs)?;
        Ok(Ir::Lambda { span, name, args, expressions })
    }

    /// Compiles `(let (<bindings>...) <exprs>...)`, where `rest` holds the bindings and the exprs.
    fn new_let(src: &'a str, span: Span, rest: &[Node]) -> (r: Result<Ir<'a>, CompileError>)
        requires
            nodes_wf(src, nodes_view(rest@)),
        ensures
            ir_result_view(r) == spec_let(src, span, nodes_view(rest@)),
        decreases nodes_view(rest@), 2int,
    {
        let ghost a = nodes_view(rest@);
        let n = rest.len();
        proof {
            lemma_nodes_view_index(rest@);
            lemma_nodes_wf(src, a);
        }
        if n == 0 {
            return Err(CompileError::BadLetBindings);
        }
        proof {
            assert(a[0] == rest@[0].spec_view());
            assert(node_wf(src, a[0]));
        }
        match &rest[0] {
            Node::Tree(_, bindings_ast) => {
                proof {
                    assert(decreases_to!(a => a[0]));
                    assert(decreases_to!(a[0] => nodes_view(bindings_ast@)));
                    lemma_nodes_view_subrange(rest@, 1, n as int);
                    lemma_nodes_wf_subrange(src, a, 1, n as int);
                    assert(a.subrange(1, n as int) =~= a.drop_first());
                }
                let bindings = Self::parse_let_bindings(src, bindings_ast.as_slice())?;
                let expressions = Self::new_many(src, rest.split_at(1).1)?;
                Ok(Ir::Let { span, bindings, expressions })
            },
            _ => Err(CompileError::BadLetBindings),
        }
    }

    /// Compiles let bindings, each of the form `(<identifier> <expr>)`.
    fn parse_let_bindings(src: &'a str, bindings: &[Node]) -> (r: Result<
        Vec<(&'a str, Ir<'a>)>,
        CompileError,
    >)
        requires
            nodes_wf(src, nodes_view(bindings@)),
        ensures
            match r {
                Ok(v) => spec_let_bindings(src, nodes_view(bindings@)) == Ok::<
                    Seq<(Seq<char>, SpecIr)>,
                    SpecCompileError,
                >(bindings_view(v@)),
                Err(e) => spec_let_bindings(src, nodes_view(bindings@)) == Err::<
                    Seq<(Seq<char>, SpecIr)>,
                    SpecCompileError,
                >(e.spec_view()),
            },
        decreases nodes_view(bindings@), 1int,
    {
        let ghost all = nodes_view(bindings@);
        proof {
            lemma_nodes_view_index(bindings@);
            lemma_nodes_wf(src, all);
            assert(all.skip(0) =~= all);
        }
        let mut ret: Vec<(&'a str, Ir<'a>)> = Vec::new();
        let mut k: usize = 0;
        while k < bindings.len()
            invariant
                k <= bindings@.len(),
                all == nodes_view(bindings@),
                all.len() == bindings@.len(),
                forall|i: int|
                    0 <= i < bindings@.len() ==> #[trigger] all[i] == bindings@[i].spec_view(),
                forall|i: int| 0 <= i < all.len() ==> node_wf(src, #[trigger] all[i]),
                spec_let_bindings(src, all) == match spec_let_bindings(src, all.skip(k as int)) {
                    Ok(rest) => Ok(bindings_view(ret@) + rest),
                    Err(e) => Err(e),
                },
            decreases bindings@.len() - k,
        {
            proof {
                assert(all.skip(k as int)[0] == all[k as int]);
                assert(all.skip(k as int).drop_first() =~= all.skip(k + 1));
                assert(node_wf(src, all[k as int]));
            }
            match &bindings[k] {
                Node::Tree(_, tree) => {
                    let ghost tv = nodes_view(tree@);
                    proof {
                        lemma_nodes_view_index(tree@);
                        lemma_nodes_wf(src, tv);
                    }
                    if tree.len() == 2 {
                        match &tree[0] {
                            Node::Identifier(ident) => {
                                proof {
                                    assert(tv[0] == tree@[0].spec_view());
                                    assert(tv[1] == tree@[1].spec_view());
                                    assert(node_wf(src, tv[0]));
                                    assert(node_wf(src, tv[1]));
                                    assert(decreases_to!(all => all[k as int]));
                                    assert(decreases_to!(all[k as int] => tv));
                                    assert(decreases_to!(tv => tv[1]));
                                }
                                let name = span_str(src, *ident);
                                let expr = Self::new(src, &tree[1])?;
                                let ghost before = ret@;
                                let ghost item = (name, expr);
                                ret.push((name, expr));
                                proof {
                                    lemma_bindings_view_push(before, item);
                                    let bv = (item.0@, item.1.spec_view());
                                    match spec_let_bindings(src, all.skip(k + 1)) {
                                        Ok(rest) => {
                                            assert(bindings_view(before) + (seq![bv] + rest)
                                                =~= bindings_view(before).push(bv) + rest);
                                        },
                                        Err(_) => {},
                                    }
                                }
                            },
                            _ => {
                                proof {
                                    assert(tv[0] == tree@[0].spec_view());
                                }
                                return Err(CompileError::BadLetBindings);
                            },
                        }
                    } else {
                        return Err(CompileError::BadLetBindings);
                    }
                },
                _ => {
                    return Err(CompileError::BadLetBindings);
                },
            }
            k = k + 1;
        }
        proof {
            assert(all.skip(k as int) =~= Seq::<SpecNode>::empty());
            assert(bindings_view(ret@) + Seq::<(Seq<char>, SpecIr)>::empty() =~= bindings_view(
                ret@,
            ));
        }
        Ok(ret)
    }

    /// `(or a rest...)` binds `a` and yields it when truthy, else the `or` of the rest.
    fn new_or_expression(src: &'a str, span: Span, exprs: &[Node]) -> (r: Result<
        Ir<'a>,
        CompileError,
    >)
        requires
            nodes_wf(src, nodes_view(exprs@)),
        ensures
            ir_result_view(r) == spec_or(src, span, nodes_view(exprs@)),
        decreases nodes_view(exprs@), 2int,
    {
        let ghost a = nodes_view(exprs@);
        let n = exprs.len();
        proof {
            lemma_nodes_view_index(exprs@);
            lemma_nodes_wf(src, a);
        }
        if n == 0 {
            return Ok(Ir::Constant(span, Constant::Bool(false)));
        }
        proof {
            assert(a[0] == exprs@[0].spec_view());
            assert(node_wf(src, a[0]));
            assert(decreases_to!(a => a[0]));
        }
        if n == 1 {
            return Self::new(src, &exprs[0]);
        }
        let expr = Self::new(src, &exprs[0])?;
        let first_span = exprs[0].span();
        proof {
            assert(a[1] == exprs@[1].spec_view());
            lemma_nodes_view_subrange(exprs@, 1, n as int);
            lemma_nodes_wf_subrange(src, a, 1, n as int);
            assert(a.subrange(1, n as int) =~= a.drop_first());
            assert(a.drop_first()[0] == a[1]);
        }
        let rest_span = exprs[1].span().extend_end(span.end);
        let rest_expr = Self::new_or_expression(src, rest_span, exprs.split_at(1).1)?;
        let deref = Ir::Deref(first_span, "__or_internal");
        let deref_again = Ir::Deref(first_span, "__or_internal");
        proof {
            assert(deref.spec_view() == SpecIr::Deref(a[0].span(), "__or_internal"@));
            assert(deref_again.spec_view() == deref.spec_view());
        }
        let branch = Ir::If {
            span,
            predicate: Box::new(deref),
            true_expr: Box::new(deref_again),
            false_expr: Some(Box::new(rest_expr)),
        };
        Ok(Self::single_let(span, "__or_internal", expr, branch))
    }

    /// `(and a rest...)` binds `a` and yields it when falsy, else the `and` of the rest.
    fn new_and_expression(src: &'a str, span: Span, exprs: &[Node]) -> (r: Result<
        Ir<'a>,
        CompileError,
    >)
        requires
            nodes_wf(src, nodes_view(exprs@)),
        ensures
            ir_result_view(r) == spec_and(src, span, nodes_view(exprs@)),
        decreases nodes_view(exprs@), 2int,
    {
        let ghost a = nodes_view(exprs@);
        let n = exprs.len();
        proof {
            lemma_nodes_view_index(exprs@);
            lemma_nodes_wf(src, a);
        }
        if n == 0 {
            return Ok(Ir::Constant(span, Constant::Bool(true)));
        }
        proof {
            assert(a[0] == exprs@[0].spec_view());
            assert(node_wf(src, a[0]));
            assert(decreases_to!(a => a[0]));
        }
        if n == 1 {
            return Self::new(src, &exprs[0]);
        }
        let expr = Self::new(src, &exprs[0])?;
        let es = exprs[0].span();
        proof {
            assert(a[1] == exprs@[1].spec_view());
            lemma_nodes_view_subrange(exprs@, 1, n as int);
            lemma_nodes_wf_subrange(src, a, 1, n as int);
            assert(a.subrange(1, n as int) =~= a.drop_first());
            assert(a.drop_first()[0] == a[1]);
        }
        let rest_span = exprs[1].span().extend_end(span.end);
        let rest_expr = Self::new_and_expression(src, rest_span, exprs.split_at(1).1)?;
        let deref = Ir::Deref(es, "__and_internal");
        let deref_again = Ir::Deref(es, "__and_internal");
        let not = Ir::Deref(es, "not");
        let ghost d = deref.spec_view();
        let mut not_args: Vec<Ir<'a>> = Vec::new();
        not_args.push(deref);
        proof {
            assert(d == SpecIr::Deref(a[0].span(), "__and_internal"@));
            assert(deref_again.spec_view() == d);
            assert(not.spec_view() == SpecIr::Deref(es, "not"@));
            lemma_irs_view_push(Seq::empty(), not_args@[0]);
            assert(Seq::<Ir<'a>>::empty().push(not_args@[0]) == not_args@);
            assert(irs_view(Seq::<Ir<'a>>::empty()) =~= Seq::empty());
            assert(irs_view(not_args@) =~= seq![d]);
        }
        let predicate = Ir::FunctionCall { span: es, function: Box::new(not), args: not_args };
        proof {
            assert(predicate.spec_view() == SpecIr::FunctionCall(
                es,
                Box::new(SpecIr::Deref(es, "not"@)),
                seq![d],
            ));
        }
        let branch = Ir::If {
            span,
            predicate: Box::new(predicate),
            true_expr: Box::new(deref_again),
            false_expr: Some(Box::new(rest_expr)),
        };
        Ok(Self::single_let(span, "__and_internal", expr, branch))
    }

    /// `(let ((<name> <value>)) <body>)` with one binding and one expression.
    fn single_let(span: Span, name: &'a str, value: Ir<'a>, body: Ir<'a>) -> (r: Ir<'a>)
        ensures
            r.spec_view() == SpecIr::Let(
                span,
                seq![(name@, value.spec_view())],
                seq![body.spec_view()],
            ),
    {
        let ghost bv = (name, value);
        let ghost b = body;
        let mut bindings: Vec<(&'a str, Ir<'a>)> = Vec::new();
        bindings.push((name, value));
        let mut expressions: Vec<Ir<'a>> = Vec::new();
        expressions.push(body);
        proof {
            lemma_bindings_view_push(Seq::empty(), bv);
            lemma_irs_view_push(Seq::empty(), b);
            assert(Seq::<(&'a str, Ir<'a>)>::empty().push(bv) == bindings@);
            assert(Seq::<Ir<'a>>::empty().push(b) == expressions@);
            assert(bindings_view(Seq::<(&'a str, Ir<'a>)>::empty()) =~= Seq::empty());
            assert(irs_view(Seq::<Ir<'a>>::empty()) =~= Seq::empty());
        }
        Ir::Let { span, bindings, expressions }
    }
}

/// The names of a lambda's arguments, which must all be identifiers.
fn lambda_idents<'a>(src: &'a str, largs: &[Node]) -> (r: Result<Vec<&'a str>, CompileError>)
    requires
        nodes_wf(src, nodes_view(largs@)),
    ensures
        match r {
            Ok(v) => spec_idents(src, nodes_view(largs@)) == Ok::<
                Seq<Seq<char>>,
                SpecCompileError,
            >(strs_view(v@)),
            Err(e) => spec_idents(src, nodes_view(largs@)) == Err::<
                Seq<Seq<char>>,
                SpecCompileError,
            >(e.spec_view()),
        },
{
    let ghost all = nodes_view(largs@);
    proof {
        lemma_nodes_view_index(largs@);
        lemma_nodes_wf(src, all);
        assert(all.skip(0) =~= all);
    }
    let mut res: Vec<&'a str> = Vec::new();
    let mut k: usize = 0;
    while k < largs.len()
        invariant
            k <= largs@.len(),
            all == nodes_view(largs@),
            all.len() == largs@.len(),
            forall|i: int| 0 <= i < largs@.len() ==> #[trigger] all[i] == largs@[i].spec_view(),
            forall|i: int| 0 <= i < all.len() ==> node_wf(src, #[trigger] all[i]),
            spec_idents(src, all) == match spec_idents(src, all.skip(k as int)) {
                Ok(rest) => Ok(strs_view(res@) + rest),
                Err(e) => Err(e),
            },
        decreases largs@.len() - k,
    {
        proof {
            assert(all.skip(k as int)[0] == all[k as int]);
            assert(all.skip(k as int).drop_first() =~= all.skip(k + 1));
            assert(node_wf(src, all[k as int]));
        }
        let ident = node_to_ident(src, &largs[k])?;
        let ghost before = res@;
        res.push(ident);
        proof {
            assert(strs_view(res@) =~= strs_view(before).push(ident@));
            match spec_idents(src, all.skip(k + 1)) {
                Ok(rest) => {
                    assert(strs_view(before) + (seq![ident@] + rest) =~= strs_view(before).push(
                        ident@,
                    ) + rest);
                },
                Err(_) => {},
            }
        }
        k = k + 1;
    }
    proof {
        assert(all.skip(k as int) =~= Seq::<SpecNode>::empty());
        assert(strs_view(res@) + Seq::<Seq<char>>::empty() =~= strs_view(res@));
    }
    Ok(res)
}

/// The text of an identifier node; any other node is refused.
fn node_to_ident<'a>(src: &'a str, node: &Node) -> (r: Result<&'a str, CompileError>)
    requires
        node_wf(src, node.spec_view()),
    ensures
        match node.spec_view() {
            SpecNode::Identifier(s) => r matches Ok(x) && x@ == span_text(src, s),
            _ => r matches Err(e) && e.spec_view() == SpecCompileError::ExpectedIdentifierList {
                context: "lambda/function definition"@,
            },
        },
{
    match node {
        Node::Identifier(ident) => Ok(span_str(src, *ident)),
        _ => Err(CompileError::ExpectedIdentifierList { context: "lambda/function definition" }),
    }
}

/// A slice of a well-formed sequence of nodes is well formed.
pub proof fn lemma_nodes_wf_subrange(src: &str, ns: Seq<SpecNode>, a: int, b: int)
    requires
        nodes_wf(src, ns),
        0 <= a <= b <= ns.len(),
    ensures
        nodes_wf(src, ns.subrange(a, b)),
{
    lemma_nodes_wf(src, ns);
    lemma_nodes_wf(src, ns.subrange(a, b));
    assert forall|i: int| 0 <= i < b - a implies node_wf(src, #[trigger] ns.subrange(a, b)[i]) by {
        assert(ns.subrange(a, b)[i] == ns[a + i]);
    }
}

} // verus!
