//! Parses tokens into a tree of nodes.
use compact_str::CompactString;
use vstd::prelude::*;
use vstd::string::StringSliceAdditionalSpecFns;
use vstd::utf8::*;

use crate::compact::{compact_chars, compact_push, compact_with_capacity};
use crate::literal::{
    is_float, is_float_literal, is_word, maybe_number, may_be_number, parse_i64, spec_parse_i64,
};
use crate::span::{spec_max, str_slice, Span};
use crate::text::{
    byte_pos, bytes_text, lemma_byte_pos_full, lemma_byte_pos_mono, lemma_str_view_bytes,
    valid_byte_range,
};
use crate::tokenizer::{
    char_token_is, char_tokens, lemma_tokens_from_ordered, spec_tokens, CharToken, SourceChars,
    SpecToken, TokenType,
};

verus! {

/// Describes an AST parsing error.
#[derive(Copy, Clone, Debug, PartialEq, Eq, Structural)]
pub enum AstParseError {
    /// An opening parenthesis was unclosed.
    UnclosedParen,
    /// Found an unexpected closing parenthesis.
    UnexpectedCloseParen,
    /// A string was not properly closed.
    UnclosedString(Span),
}

impl AstParseError {
    /// The message that describes the error.
    pub fn message(&self) -> (r: String)
        ensures
            r@ == match self {
                AstParseError::UnclosedParen => "opening parenthesis was unclosed"@,
                AstParseError::UnexpectedCloseParen => "found unexpected closing parenthesis"@,
                AstParseError::UnclosedString(_) => "string was not properly closed, did you forget \"?"@,
            },
    {
        match self {
            AstParseError::UnclosedParen => "opening parenthesis was unclosed".to_owned(),
            AstParseError::UnexpectedCloseParen => "found unexpected closing parenthesis".to_owned(),
            AstParseError::UnclosedString(_) => "string was not properly closed, did you forget \"?".to_owned(),
        }
    }
}

/// Describes a node in the AST.
///
/// A float literal is kept as the span of its text; `str::parse::<f64>` accepts that text.
#[derive(Debug, PartialEq)]
pub enum Node {
    /// A node containing the start and end points of the identifier.
    Identifier(Span),
    /// A node containing the void literal.
    Void(Span),
    /// A node containing a boolean literal.
    Bool(Span, bool),
    /// A node containing an int literal.
    Int(Span, i64),
    /// A node containing a float literal.
    Float(Span),
    /// A node containing a string literal.
    String(Span),
    /// A node containing a sub-tree.
    Tree(Span, Vec<Node>),
}

/// The mathematical value of a [`Node`].
pub enum SpecNode {
    Identifier(Span),
    Void(Span),
    Bool(Span, bool),
    Int(Span, i64),
    Float(Span),
    String(Span),
    Tree(Span, Seq<SpecNode>),
}

impl Node {
    pub open spec fn spec_view(self) -> SpecNode
        decreases self,
    {
        match self {
            Node::Identifier(s) => SpecNode::Identifier(s),
            Node::Void(s) => SpecNode::Void(s),
            Node::Bool(s, b) => SpecNode::Bool(s, b),
            Node::Int(s, x) => SpecNode::Int(s, x),
            Node::Float(s) => SpecNode::Float(s),
            Node::String(s) => SpecNode::String(s),
            Node::Tree(s, v) => SpecNode::Tree(s, nodes_view(v@)),
        }
    }
}

pub proof fn lemma_nodes_view_push(v: Seq<Node>, n: Node)
    ensures
        nodes_view(v.push(n)) == nodes_view(v).push(n.spec_view()),
{
    assert(v.push(n).drop_last() =~= v);
}

pub proof fn lemma_nodes_view_index(v: Seq<Node>)
    ensures
        nodes_view(v).len() == v.len(),
        forall|i: int| 0 <= i < v.len() ==> #[trigger] nodes_view(v)[i] == v[i].spec_view(),
    decreases v.len(),
{
    if v.len() > 0 {
        lemma_nodes_view_index(v.drop_last());
        assert forall|i: int| 0 <= i < v.len() implies #[trigger] nodes_view(v)[i] == v[i].spec_view() by {
            if i < v.len() - 1 {
                assert(v.drop_last()[i] == v[i]);
            }
        }
    }
}

/// The values of a sequence of nodes.
pub open spec fn nodes_view(v: Seq<Node>) -> Seq<SpecNode>
    decreases v,
{
    if v.len() == 0 {
        Seq::empty()
    } else {
        nodes_view(v.drop_last()).push(v.last().spec_view())
    }
}

impl SpecNode {
    pub open spec fn span(self) -> Span {
        match self {
            SpecNode::Identifier(s) => s,
            SpecNode::Void(s) => s,
            SpecNode::Bool(s, _) => s,
            SpecNode::Int(s, _) => s,
            SpecNode::Float(s) => s,
            SpecNode::String(s) => s,
            SpecNode::Tree(s, _) => s,
        }
    }
}

/// The view of a parse result.
pub open spec fn result_view(r: Result<Node, AstParseError>) -> Result<SpecNode, AstParseError> {
    match r {
        Ok(n) => Ok(n.spec_view()),
        Err(e) => Err(e),
    }
}

/// The byte span of a token of `s`.
pub open spec fn tok_span(s: Seq<char>, t: SpecToken) -> Span {
    Span { start: byte_pos(s, t.1) as u32, end: byte_pos(s, t.2) as u32 }
}

/// A span extended to `end`.
pub open spec fn spec_extend_end(span: Span, end: u32) -> Span {
    Span { start: span.start, end: spec_max(span.end, end) }
}

/// The node for an atom token (a string literal or other text).
pub open spec fn spec_atom(s: Seq<char>, t: SpecToken) -> SpecNode {
    let span = tok_span(s, t);
    let text = s.subrange(t.1, t.2);
    if t.0 == TokenType::String {
        SpecNode::String(span)
    } else if maybe_number(text) && spec_parse_i64(text) is Some {
        SpecNode::Int(span, spec_parse_i64(text)->0)
    } else if maybe_number(text) && is_float_literal(text) {
        SpecNode::Float(span)
    } else if text == seq!['v', 'o', 'i', 'd'] {
        SpecNode::Void(span)
    } else if text == seq!['t', 'r', 'u', 'e'] {
        SpecNode::Bool(span, true)
    } else if text == seq!['f', 'a', 'l', 's', 'e'] {
        SpecNode::Bool(span, false)
    } else {
        SpecNode::Identifier(span)
    }
}

/// Puts `prefix` in front of the nodes of a successful result.
pub open spec fn prepend_nodes(
    prefix: Seq<SpecNode>,
    r: (Result<(u32, Seq<SpecNode>), AstParseError>, int),
) -> (Result<(u32, Seq<SpecNode>), AstParseError>, int) {
    match r.0 {
        Ok((e, ns)) => (Ok((e, prefix + ns)), r.1),
        Err(x) => (Err(x), r.1),
    }
}

/// Parses the node that starts at token `i` of `s`. Returns the result and the index of the next
/// token to read, or `None` when no token is left.
pub open spec fn spec_parse_next(s: Seq<char>, i: int) -> Option<
    (Result<SpecNode, AstParseError>, int),
>
    decreases spec_tokens(s).len() - i, 1int,
{
    let toks = spec_tokens(s);
    if 0 <= i < toks.len() {
        let t = toks[i];
        if t.0 == TokenType::OpenParen {
            let (r, j) = spec_until_close(s, i + 1);
            match r {
                Ok((end, children)) => Some(
                    (Ok(SpecNode::Tree(spec_extend_end(tok_span(s, t), end), children)), j),
                ),
                Err(e) => Some((Err(e), j)),
            }
        } else if t.0 == TokenType::CloseParen {
            Some((Err(AstParseError::UnexpectedCloseParen), i + 1))
        } else if t.0 == TokenType::UnterminatedString {
            Some((Err(AstParseError::UnclosedString(tok_span(s, t))), i + 1))
        } else {
            Some((Ok(spec_atom(s, t)), i + 1))
        }
    } else {
        None
    }
}

/// Parses the nodes from token `i` of `s` up to the closing parenthesis. Returns the end of the
/// closing parenthesis and the nodes, and the index of the next token to read.
pub open spec fn spec_until_close(s: Seq<char>, i: int) -> (
    Result<(u32, Seq<SpecNode>), AstParseError>,
    int,
)
    decreases spec_tokens(s).len() - i, 0int,
{
    let toks = spec_tokens(s);
    if 0 <= i < toks.len() {
        let t = toks[i];
        if t.0 == TokenType::OpenParen {
            let (r, j) = spec_until_close(s, i + 1);
            match r {
                Err(e) => (Err(e), j),
                Ok((end, children)) => if i < j <= toks.len() {
                    prepend_nodes(
                        seq![SpecNode::Tree(spec_extend_end(tok_span(s, t), end), children)],
                        spec_until_close(s, j),
                    )
                } else {
                    (Err(AstParseError::UnclosedParen), toks.len() as int)
                },
            }
        } else if t.0 == TokenType::CloseParen {
            (Ok((tok_span(s, t).end, Seq::empty())), i + 1)
        } else if t.0 == TokenType::UnterminatedString {
            (Err(AstParseError::UnclosedString(tok_span(s, t))), i + 1)
        } else {
            prepend_nodes(seq![spec_atom(s, t)], spec_until_close(s, i + 1))
        }
    } else {
        (Err(AstParseError::UnclosedParen), toks.len() as int)
    }
}

/// The results of parsing every node of `s` from token `i` on, as `Node::parse` yields them.
pub open spec fn spec_parse_from(s: Seq<char>, i: int) -> Seq<Result<SpecNode, AstParseError>>
    decreases spec_tokens(s).len() - i,
{
    match spec_parse_next(s, i) {
        None => Seq::empty(),
        Some((r, j)) => if i < j <= spec_tokens(s).len() {
            seq![r] + spec_parse_from(s, j)
        } else {
            Seq::empty()
        },
    }
}

/// The results of parsing every node of `s`.
pub open spec fn spec_parse(s: Seq<char>) -> Seq<Result<SpecNode, AstParseError>> {
    spec_parse_from(s, 0)
}

/// The first error among `rs`, or all the nodes when there is none.
pub open spec fn spec_collect(rs: Seq<Result<SpecNode, AstParseError>>) -> Result<
    Seq<SpecNode>,
    AstParseError,
>
    decreases rs.len(),
{
    if rs.len() == 0 {
        Ok(Seq::empty())
    } else {
        match rs[0] {
            Err(e) => Err(e),
            Ok(n) => match spec_collect(rs.drop_first()) {
                Ok(ns) => Ok(seq![n] + ns),
                Err(e) => Err(e),
            },
        }
    }
}

/// The characters a string literal's body stands for: `\\n` is a newline, `\\t` a tab, and a
/// backslash before any other character keeps that character. `None` when an unescaped `"` occurs.
pub open spec fn unescape(t: Seq<char>, escaped: bool) -> Option<Seq<char>>
    decreases t.len(),
{
    if t.len() == 0 {
        Some(Seq::empty())
    } else {
        let c = t[0];
        let rest = t.drop_first();
        if escaped {
            let e = if c == 'n' {
                '\n'
            } else if c == 't' {
                '\t'
            } else {
                c
            };
            match unescape(rest, false) {
                Some(u) => Some(seq![e] + u),
                None => None,
            }
        } else if c == '\\' {
            unescape(rest, true)
        } else if c == '"' {
            None
        } else {
            match unescape(rest, false) {
                Some(u) => Some(seq![c] + u),
                None => None,
            }
        }
    }
}

/// `prefix` followed by the characters of `r`, if any.
pub open spec fn opt_prepend(prefix: Seq<char>, r: Option<Seq<char>>) -> Option<Seq<char>> {
    match r {
        Some(u) => Some(prefix + u),
        None => None,
    }
}

/// The text of a span of `src`.
pub open spec fn span_text(src: &str, span: Span) -> Seq<char> {
    bytes_text(src.spec_bytes(), span.start as int, span.end as int)
}

/// A string literal node's text can be read from `src`: it lies on character boundaries, holds the
/// two quotes, and both are single bytes.
pub open spec fn string_literal_readable(src: &str, span: Span) -> bool {
    let text = span_text(src, span);
    &&& valid_byte_range(src.spec_bytes(), span.start as int, span.end as int)
    &&& text.len() >= 2
    &&& (text[0] as u32) < 0x80
    &&& (text[text.len() - 1] as u32) < 0x80
}

/// The characters that a string literal spanning `span` of `src` stands for.
pub open spec fn spec_string_literal(src: &str, span: Span) -> Option<Seq<char>> {
    let text = span_text(src, span);
    unescape(text.subrange(1, text.len() - 1), false)
}

/// Reading resumes after the tokens that a node consumed.
pub proof fn lemma_parse_bounds(s: Seq<char>, i: int)
    requires
        0 <= i <= spec_tokens(s).len(),
    ensures
        spec_parse_next(s, i) matches Some((_, j)) ==> i < j <= spec_tokens(s).len(),
        i < spec_until_close(s, i).1 <= spec_tokens(s).len() || (i == spec_tokens(s).len()
            && spec_until_close(s, i).1 == i),
    decreases spec_tokens(s).len() - i,
{
    let toks = spec_tokens(s);
    if i < toks.len() {
        lemma_parse_bounds(s, i + 1);
        let t = toks[i];
        if t.0 == TokenType::OpenParen {
            let (r, j) = spec_until_close(s, i + 1);
            if let Ok(_) = r {
                if i < j <= toks.len() {
                    lemma_parse_bounds(s, j);
                }
            }
        }
    }
}

/// Extending a span to the end of a later token or tree keeps it within the source.
pub proof fn lemma_tok_span_facts(s: Seq<char>, k: int)
    requires
        0 <= k < spec_tokens(s).len(),
        encode_utf8(s).len() <= u32::MAX,
    ensures
        ({
            let t = spec_tokens(s)[k];
            &&& 0 <= t.1 < t.2 <= s.len()
            &&& tok_span(s, t).start == byte_pos(s, t.1)
            &&& tok_span(s, t).end == byte_pos(s, t.2)
        }),
{
    lemma_tokens_from_ordered(s, 0);
    let t = spec_tokens(s)[k];
    lemma_byte_pos_mono(s, t.1, t.2);
    lemma_byte_pos_mono(s, t.2, s.len() as int);
    lemma_byte_pos_full(s);
}

/// The tokens of a source, with the source's characters and byte offsets.
pub struct ParseInput {
    pub sc: SourceChars,
    pub toks: Vec<CharToken>,
}

impl ParseInput {
    pub open spec fn wf(&self) -> bool {
        &&& self.sc.wf_for(self.sc.chars@)
        &&& encode_utf8(self.sc.chars@).len() <= u32::MAX
        &&& self.toks@.len() == spec_tokens(self.sc.chars@).len()
        &&& forall|k: int|
            0 <= k < self.toks@.len() ==> char_token_is(
                #[trigger] self.toks@[k],
                spec_tokens(self.sc.chars@)[k],
            )
    }

    pub open spec fn src(&self) -> Seq<char> {
        self.sc.chars@
    }

    /// Tokenizes `src`.
    pub fn new(src: &str) -> (r: ParseInput)
        requires
            src.spec_bytes().len() <= u32::MAX,
        ensures
            r.wf(),
            r.src() == src@,
    {
        proof {
            lemma_str_view_bytes(src);
        }
        let sc = SourceChars::new(src);
        let toks = char_tokens(&sc.chars);
        ParseInput { sc, toks }
    }

    /// The byte span of token `k`.
    fn span_of(&self, k: usize) -> (r: Span)
        requires
            self.wf(),
            k < self.toks@.len(),
        ensures
            r == tok_span(self.src(), spec_tokens(self.src())[k as int]),
    {
        proof {
            lemma_tok_span_facts(self.src(), k as int);
        }
        let t = self.toks[k];
        Span { start: self.sc.offsets[t.start] as u32, end: self.sc.offsets[t.end] as u32 }
    }

    /// Parse an atom token (a string literal or other text).
    fn parse_atom(&self, k: usize) -> (r: Node)
        requires
            self.wf(),
            k < self.toks@.len(),
        ensures
            r.spec_view() == spec_atom(self.src(), spec_tokens(self.src())[k as int]),
    {
        proof {
            lemma_tok_span_facts(self.src(), k as int);
        }
        let t = self.toks[k];
        let span = self.span_of(k);
        let s = &self.sc.chars;
        if t.token_type == TokenType::String {
            return Node::String(span);
        }
        if may_be_number(s, t.start, t.end) {
            match parse_i64(s, t.start, t.end) {
                Some(x) => {
                    return Node::Int(span, x);
                },
                None => {},
            }
            if is_float(s, t.start, t.end) {
                return Node::Float(span);
            }
        }
        let void_word = ['v', 'o', 'i', 'd'];
        let true_word = ['t', 'r', 'u', 'e'];
        let false_word = ['f', 'a', 'l', 's', 'e'];
        proof {
            assert(void_word@ =~= seq!['v', 'o', 'i', 'd']);
            assert(true_word@ =~= seq!['t', 'r', 'u', 'e']);
            assert(false_word@ =~= seq!['f', 'a', 'l', 's', 'e']);
        }
        if is_word(s, t.start, t.end, &void_word) {
            Node::Void(span)
        } else if is_word(s, t.start, t.end, &true_word) {
            Node::Bool(span, true)
        } else if is_word(s, t.start, t.end, &false_word) {
            Node::Bool(span, false)
        } else {
            Node::Identifier(span)
        }
    }

    /// Parse the node that starts at token `i`.
    pub fn parse_next(&self, i: usize) -> (r: Option<(Result<Node, AstParseError>, usize)>)
        requires
            self.wf(),
            i <= self.toks@.len(),
        ensures
            match r {
                None => spec_parse_next(self.src(), i as int) is None,
                Some((n, j)) => spec_parse_next(self.src(), i as int) == Some(
                    (result_view(n), j as int),
                ),
            },
        decreases self.toks@.len() - i, 1int,
    {
        if i >= self.toks.len() {
            return None;
        }
        let t = self.toks[i];
        match t.token_type {
            TokenType::OpenParen => {
                let (r, j) = self.parse_until_close(i + 1);
                match r {
                    Ok((end, tree)) => {
                        let span = self.span_of(i).extend_end(end);
                        Some((Ok(Node::Tree(span, tree)), j))
                    },
                    Err(err) => Some((Err(err), j)),
                }
            },
            TokenType::CloseParen => Some((Err(AstParseError::UnexpectedCloseParen), i + 1)),
            TokenType::UnterminatedString => Some(
                (Err(AstParseError::UnclosedString(self.span_of(i))), i + 1),
            ),
            _ => Some((Ok(self.parse_atom(i)), i + 1)),
        }
    }

    /// Parse the nodes from token `i` until a closing parenthesis is encountered.
    ///
    /// An error is returned if no closing parenthesis is ever encountered.
    pub fn parse_until_close(&self, i: usize) -> (r: (Result<(u32, Vec<Node>), AstParseError>, usize))
        requires
            self.wf(),
            i <= self.toks@.len(),
        ensures
            r.1 == spec_until_close(self.src(), i as int).1,
            match r.0 {
                Ok((e, v)) => spec_until_close(self.src(), i as int).0 == Ok::<
                    (u32, Seq<SpecNode>),
                    AstParseError,
                >((e, nodes_view(v@))),
                Err(x) => spec_until_close(self.src(), i as int).0 == Err::<
                    (u32, Seq<SpecNode>),
                    AstParseError,
                >(x),
            },
        decreases self.toks@.len() - i, 0int,
    {
        let mut tree: Vec<Node> = Vec::new();
        let mut k = i;
        proof {
            assert(prepend_nodes(nodes_view(tree@), spec_until_close(self.src(), k as int))
                =~= spec_until_close(self.src(), i as int)) by {
                assert(nodes_view(tree@) =~= Seq::<SpecNode>::empty());
                match spec_until_close(self.src(), i as int).0 {
                    Ok((e, ns)) => {
                        assert(Seq::<SpecNode>::empty() + ns =~= ns);
                    },
                    Err(_) => {},
                }
            }
        }
        loop
            invariant
                self.wf(),
                i <= k <= self.toks@.len(),
                prepend_nodes(nodes_view(tree@), spec_until_close(self.src(), k as int))
                    == spec_until_close(self.src(), i as int),
            decreases self.toks@.len() - k,
        {
            let ghost before = nodes_view(tree@);
            if k >= self.toks.len() {
                return (Err(AstParseError::UnclosedParen), self.toks.len());
            }
            let t = self.toks[k];
            proof {
                lemma_parse_bounds(self.src(), k as int + 1);
            }
            match t.token_type {
                TokenType::OpenParen => {
                    let (r, j) = self.parse_until_close(k + 1);
                    match r {
                        Ok((end, children)) => {
                            let span = self.span_of(k).extend_end(end);
                            let node = Node::Tree(span, children);
                            let ghost nv = node.spec_view();
                            let ghost old_tree = tree@;
                            tree.push(node);
                            proof {
                                lemma_nodes_view_push(old_tree, node);
                                assert(tree@ == old_tree.push(node));
                                assert(nodes_view(tree@) =~= before + seq![nv]);
                                let rest = spec_until_close(self.src(), j as int);
                                match rest.0 {
                                    Ok((e2, ns)) => {
                                        assert(before + (seq![nv] + ns) =~= (before + seq![nv])
                                            + ns);
                                    },
                                    Err(_) => {},
                                }
                            }
                            k = j;
                        },
                        Err(err) => {
                            return (Err(err), j);
                        },
                    }
                },
                TokenType::CloseParen => {
                    proof {
                        assert(before + Seq::<SpecNode>::empty() =~= before);
                    }
                    return (Ok((self.span_of(k).end, tree)), k + 1);
                },
                TokenType::UnterminatedString => {
                    return (Err(AstParseError::UnclosedString(self.span_of(k))), k + 1);
                },
                _ => {
                    let node = self.parse_atom(k);
                    let ghost nv = node.spec_view();
                    let ghost old_tree = tree@;
                    tree.push(node);
                    proof {
                        lemma_nodes_view_push(old_tree, node);
                        assert(tree@ == old_tree.push(node));
                        assert(nodes_view(tree@) =~= before + seq![nv]);
                        let rest = spec_until_close(self.src(), k + 1);
                        match rest.0 {
                            Ok((e2, ns)) => {
                                assert(before + (seq![nv] + ns) =~= (before + seq![nv]) + ns);
                            },
                            Err(_) => {},
                        }
                    }
                    k = k + 1;
                },
            }
        }
    }
}

impl Node {
    /// Parse the contents of `src` into the results of parsing each of its nodes in turn. After an
    /// error, parsing resumes with the token that follows the ones the failed node consumed.
    pub fn parse(src: &str) -> (r: Vec<Result<Node, AstParseError>>)
        requires
            src.spec_bytes().len() <= u32::MAX,
        ensures
            r@.len() == spec_parse(src@).len(),
            forall|k: int| 0 <= k < r@.len() ==> result_view(#[trigger] r@[k]) == spec_parse(src@)[k],
    {
        let input = ParseInput::new(src);
        let ghost s = input.src();
        let mut r: Vec<Result<Node, AstParseError>> = Vec::new();
        let mut i: usize = 0;
        loop
            invariant
                input.wf(),
                s == input.src(),
                i <= input.toks@.len(),
                spec_parse(s) == r@.map_values(|x: Result<Node, AstParseError>| result_view(x))
                    + spec_parse_from(s, i as int),
            ensures
                spec_parse(s) == r@.map_values(|x: Result<Node, AstParseError>| result_view(x)),
            decreases input.toks@.len() - i,
        {
            proof {
                lemma_parse_bounds(s, i as int);
            }
            let ghost before = r@.map_values(|x: Result<Node, AstParseError>| result_view(x));
            match input.parse_next(i) {
                None => {
                    assert(spec_parse_from(s, i as int) =~= Seq::<
                        Result<SpecNode, AstParseError>,
                    >::empty());
                    assert(spec_parse(s) =~= before);
                    break ;
                },
                Some((n, j)) => {
                    let ghost nv = result_view(n);
                    r.push(n);
                    assert(r@.map_values(|x: Result<Node, AstParseError>| result_view(x)) =~= before.push(nv));
                    assert(before + (seq![nv] + spec_parse_from(s, j as int)) =~= before.push(nv) + spec_parse_from(s, j as int));
                    i = j;
                },
            }
        }
        assert forall|k: int| 0 <= k < r@.len() implies result_view(#[trigger] r@[k]) == spec_parse(src@)[k] by {
            assert(r@.map_values(|x: Result<Node, AstParseError>| result_view(x))[k] == result_view(r@[k]));
        }
        r
    }

    /// Parse the contents of `src` into its nodes, or the first error.
    pub fn parse_to_vec(src: &str) -> (r: Result<Vec<Node>, AstParseError>)
        requires
            src.spec_bytes().len() <= u32::MAX,
        ensures
            match r {
                Ok(v) => spec_collect(spec_parse(src@)) == Ok::<Seq<SpecNode>, AstParseError>(
                    nodes_view(v@),
                ),
                Err(e) => spec_collect(spec_parse(src@)) == Err::<Seq<SpecNode>, AstParseError>(e),
            },
    {
        let results = Node::parse(src);
        let ghost rs = spec_parse(src@);
        let mut nodes: Vec<Node> = Vec::new();
        let mut k: usize = 0;
        proof {
            assert(rs.skip(0) =~= rs);
        }
        while k < results.len()
            invariant
                k <= results@.len(),
                results@.len() == rs.len(),
                forall|q: int| 0 <= q < results@.len() ==> result_view(#[trigger] results@[q]) == rs[q],
                rs == spec_parse(src@),
                spec_collect(rs) == match spec_collect(rs.skip(k as int)) {
                    Ok(ns) => Ok(nodes_view(nodes@) + ns),
                    Err(e) => Err(e),
                },
            decreases results@.len() - k,
        {
            let ghost before = nodes_view(nodes@);
            assert(rs.skip(k as int).drop_first() =~= rs.skip(k + 1));
            assert(rs.skip(k as int)[0] == rs[k as int]);
            assert(result_view(results@[k as int]) == rs[k as int]);
            match &results[k] {
                Err(e) => {
                    return Err(*e);
                },
                Ok(n) => {
                    let ghost nv = n.spec_view();
                    let ghost old_nodes = nodes@;
                    let c = n.clone_node();
                    nodes.push(c);
                    proof {
                        lemma_nodes_view_push(old_nodes, c);
                        assert(nodes@ == old_nodes.push(c));
                        assert(nodes_view(nodes@) =~= before + seq![nv]);
                        match spec_collect(rs.skip(k + 1)) {
                            Ok(ns) => {
                                assert(before + (seq![nv] + ns) =~= (before + seq![nv]) + ns);
                            },
                            Err(_) => {},
                        }
                    }
                },
            }
            k = k + 1;
        }
        proof {
            assert(rs.skip(k as int) =~= Seq::<Result<SpecNode, AstParseError>>::empty());
            assert(nodes_view(nodes@) + Seq::<SpecNode>::empty() =~= nodes_view(nodes@));
        }
        Ok(nodes)
    }

    /// A copy of the node.
    pub fn clone_node(&self) -> (r: Node)
        ensures
            r.spec_view() == self.spec_view(),
        decreases self,
    {
        match self {
            Node::Identifier(s) => Node::Identifier(*s),
            Node::Void(s) => Node::Void(*s),
            Node::Bool(s, b) => Node::Bool(*s, *b),
            Node::Int(s, x) => Node::Int(*s, *x),
            Node::Float(s) => Node::Float(*s),
            Node::String(s) => Node::String(*s),
            Node::Tree(s, v) => {
                let mut c: Vec<Node> = Vec::new();
                let mut k: usize = 0;
                while k < v.len()
                    invariant
                        k <= v@.len(),
                        nodes_view(c@) == nodes_view(v@).take(k as int),
                        *self == Node::Tree(*s, *v),
                    decreases v@.len() - k,
                {
                    proof {
                        assert(*self == Node::Tree(*s, *v));
                        assert(decreases_to!(*self => (*self)->1));
                        assert((*self)->1 == *v);
                        assert(decreases_to!(*v => v@));
                        assert(decreases_to!(v@ => v@[k as int]));
                    }
                    let n = v[k].clone_node();
                    let ghost old_c = c@;
                    c.push(n);
                    proof {
                        lemma_nodes_view_push(old_c, n);
                        assert(c@ == old_c.push(n));
                        lemma_nodes_view_index(v@);
                        assert(nodes_view(c@) =~= nodes_view(v@).take(k + 1));
                    }
                    k = k + 1;
                }
                proof {
                    lemma_nodes_view_index(v@);
                    assert(nodes_view(v@).take(v@.len() as int) =~= nodes_view(v@));
                }
                Node::Tree(*s, c)
            },
        }
    }

    /// Returns the string literal contained in the node or `None` if `self` is not a
    /// [`Node::String`] or the literal holds an unescaped quote.
    pub fn to_string_literal(&self, src: &str) -> (r: Option<CompactString>)
        requires
            self matches Node::String(span) ==> string_literal_readable(src, *span),
        ensures
            match self {
                Node::String(span) => match r {
                    Some(c) => spec_string_literal(src, *span) == Some(compact_chars(c)),
                    None => spec_string_literal(src, *span) is None,
                },
                _ => r is None,
            },
    {
        let span = match self {
            Node::String(span) => *span,
            _ => {
                return None;
            },
        };
        let contents = str_slice(src, span.start as usize, span.end as usize);
        let chars = crate::text::collect_chars(contents);
        let n = chars.len();
        let ghost text = chars@;
        let ghost inner = text.subrange(1, n - 1);
        let mut res = compact_with_capacity(n - 2);
        let mut escaped = false;
        let mut k: usize = 1;
        proof {
            assert(text.subrange(1, n - 1) =~= inner);
            assert(compact_chars(res) + Seq::<char>::empty() =~= compact_chars(res));
        }
        while k < n - 1
            invariant
                2 <= n == text.len(),
                1 <= k <= n - 1,
                chars@ == text,
                text == span_text(src, span),
                self == Node::String(span),
                inner == text.subrange(1, n - 1),
                unescape(inner, false) == opt_prepend(
                    compact_chars(res),
                    unescape(text.subrange(k as int, n - 1), escaped),
                ),
            decreases n - 1 - k,
        {
            let c = chars[k];
            let ghost rest = text.subrange(k + 1, n - 1);
            let ghost before = compact_chars(res);
            proof {
                assert(text.subrange(k as int, n - 1).drop_first() =~= rest);
                assert(text.subrange(k as int, n - 1)[0] == c);
            }
            if escaped {
                let e = if c == 'n' {
                    '\n'
                } else if c == 't' {
                    '\t'
                } else {
                    c
                };
                compact_push(&mut res, e);
                escaped = false;
                proof {
                    match unescape(rest, false) {
                        Some(u) => {
                            assert(before + (seq![e] + u) =~= before.push(e) + u);
                        },
                        None => {},
                    }
                }
            } else {
                if c == '\\' {
                    escaped = true;
                } else if c == '"' {
                    return None;
                } else {
                    compact_push(&mut res, c);
                    proof {
                        match unescape(rest, false) {
                            Some(u) => {
                                assert(before + (seq![c] + u) =~= before.push(c) + u);
                            },
                            None => {},
                        }
                    }
                }
            }
            k = k + 1;
        }
        proof {
            assert(text.subrange(k as int, n - 1) =~= Seq::<char>::empty());
            assert(compact_chars(res) + Seq::<char>::empty() =~= compact_chars(res));
        }
        Some(res)
    }

    /// The span of the node.
    pub fn span(&self) -> (r: Span)
        ensures
            r == self.spec_view().span(),
    {
        match self {
            Node::Identifier(s) => *s,
            Node::Void(s) => *s,
            Node::Bool(s, _) => *s,
            Node::Int(s, _) => *s,
            Node::Float(s) => *s,
            Node::String(s) => *s,
            Node::Tree(s, _) => *s,
        }
    }
}

} // verus!
