//! Every node that the parser yields can be read back from its source.
use vstd::prelude::*;
use vstd::string::StringSliceAdditionalSpecFns;
use vstd::utf8::*;

use crate::ast::{
    lemma_parse_bounds, lemma_tok_span_facts, span_text, spec_atom, spec_extend_end, spec_parse,
    spec_parse_from, spec_parse_next, spec_string_literal, spec_until_close,
    string_literal_readable, tok_span, unescape, SpecNode,
};
use crate::ir::{lemma_nodes_wf, node_wf, nodes_wf};
use crate::span::spec_max;
use crate::text::{lemma_bytes_text_chars, lemma_str_view_bytes, valid_byte_range};
use crate::tokenizer::{
    lemma_next_token_bounds, lemma_string_end_bounds, next_token, spec_tokens, string_end,
    tokens_from, TokenType,
};

verus! {

/// A string literal token starts with a quote and ends where the scan of its body ends.
proof fn lemma_string_tokens(s: Seq<char>, i: int)
    requires
        0 <= i <= s.len(),
    ensures
        forall|k: int|
            0 <= k < tokens_from(s, i).len() && (#[trigger] tokens_from(s, i)[k]).0
                == TokenType::String ==> s[tokens_from(s, i)[k].1] == '"' && string_end(
                s,
                tokens_from(s, i)[k].1 + 1,
                false,
            ) == Some(tokens_from(s, i)[k].2),
    decreases s.len() - i,
{
    lemma_next_token_bounds(s, i);
    match next_token(s, i) {
        None => {},
        Some(t) => {
            if i < t.2 <= s.len() {
                lemma_string_tokens(s, t.2);
                let rest = tokens_from(s, t.2);
                assert forall|k: int|
                    0 <= k < tokens_from(s, i).len() && (#[trigger] tokens_from(s, i)[k]).0
                        == TokenType::String implies s[tokens_from(s, i)[k].1] == '"'
                    && string_end(s, tokens_from(s, i)[k].1 + 1, false) == Some(
                    tokens_from(s, i)[k].2,
                ) by {
                    if k > 0 {
                        assert(tokens_from(s, i)[k] == rest[k - 1]);
                    }
                }
            }
        },
    }
}

/// Where the scan of a string body ends, the body before the closing quote can be unescaped.
proof fn lemma_string_end_unescape(s: Seq<char>, i: int, escaped: bool)
    requires
        0 <= i,
        string_end(s, i, escaped) is Some,
    ensures
        unescape(s.subrange(i, string_end(s, i, escaped)->0 - 1), escaped) is Some,
    decreases s.len() - i,
{
    lemma_string_end_bounds(s, i, escaped);
    let e = string_end(s, i, escaped)->0;
    let t = s.subrange(i, e - 1);
    if s[i] == '"' && !escaped {
        assert(t =~= Seq::<char>::empty());
    } else {
        let next = if s[i] == '\\' {
            !escaped
        } else {
            false
        };
        assert(string_end(s, i + 1, next) == Some(e));
        lemma_string_end_bounds(s, i + 1, next);
        lemma_string_end_unescape(s, i + 1, next);
        assert(t[0] == s[i]);
        assert(t.drop_first() =~= s.subrange(i + 1, e - 1));
    }
}

/// The span of token `k` of `src` lies on character boundaries and holds the token's text.
proof fn lemma_token_span(src: &str, k: int)
    requires
        src.spec_bytes().len() <= u32::MAX,
        0 <= k < spec_tokens(src@).len(),
    ensures
        ({
            let s = src@;
            let t = spec_tokens(s)[k];
            let sp = tok_span(s, t);
            &&& 0 <= t.1 < t.2 <= s.len()
            &&& valid_byte_range(src.spec_bytes(), sp.start as int, sp.end as int)
            &&& span_text(src, sp) == s.subrange(t.1, t.2)
        }),
{
    let s = src@;
    lemma_str_view_bytes(src);
    lemma_tok_span_facts(s, k);
    let t = spec_tokens(s)[k];
    lemma_bytes_text_chars(s, t.1, t.2);
}

/// An atom token gives a readable node.
proof fn lemma_atom_wf(src: &str, k: int)
    requires
        src.spec_bytes().len() <= u32::MAX,
        0 <= k < spec_tokens(src@).len(),
        spec_tokens(src@)[k].0 == TokenType::String || spec_tokens(src@)[k].0
            == TokenType::Other,
    ensures
        node_wf(src, spec_atom(src@, spec_tokens(src@)[k])),
{
    let s = src@;
    let t = spec_tokens(s)[k];
    let sp = tok_span(s, t);
    lemma_token_span(src, k);
    if t.0 == TokenType::String {
        lemma_string_tokens(s, 0);
        assert(s[t.1] == '"' && string_end(s, t.1 + 1, false) == Some(t.2));
        lemma_string_end_bounds(s, t.1 + 1, false);
        lemma_string_end_unescape(s, t.1 + 1, false);
        let text = span_text(src, sp);
        assert(text.subrange(1, text.len() - 1) =~= s.subrange(t.1 + 1, t.2 - 1));
        assert(text[0] == '"');
        assert(text[text.len() - 1] == '"');
        assert(string_literal_readable(src, sp));
        assert(spec_string_literal(src, sp) is Some);
    }
}

/// A tree's span: from its opening parenthesis to `end`.
proof fn lemma_tree_span(src: &str, k: int, end: u32)
    requires
        src.spec_bytes().len() <= u32::MAX,
        0 <= k < spec_tokens(src@).len(),
        valid_byte_range(src.spec_bytes(), end as int, end as int),
    ensures
        ({
            let sp = spec_extend_end(tok_span(src@, spec_tokens(src@)[k]), end);
            valid_byte_range(src.spec_bytes(), sp.start as int, sp.end as int)
        }),
{
    lemma_token_span(src, k);
}

/// The node parsed from token `i` is readable, and so are the nodes up to a closing
/// parenthesis, which itself ends on a character boundary.
proof fn lemma_next_wf(src: &str, i: int)
    requires
        src.spec_bytes().len() <= u32::MAX,
        0 <= i,
    ensures
        spec_parse_next(src@, i) matches Some((Ok(n), _)) ==> node_wf(src, n),
    decreases spec_tokens(src@).len() - i, 1int,
{
    let s = src@;
    let toks = spec_tokens(s);
    if i < toks.len() {
        let t = toks[i];
        if t.0 == TokenType::OpenParen {
            lemma_until_wf(src, i + 1);
            let (r, j) = spec_until_close(s, i + 1);
            if let Ok((end, children)) = r {
                lemma_tree_span(src, i, end);
            }
        } else if t.0 == TokenType::String || t.0 == TokenType::Other {
            lemma_atom_wf(src, i);
        }
    }
}

proof fn lemma_until_wf(src: &str, i: int)
    requires
        src.spec_bytes().len() <= u32::MAX,
        0 <= i,
    ensures
        spec_until_close(src@, i).0 matches Ok((end, ns)) ==> nodes_wf(src, ns)
            && valid_byte_range(src.spec_bytes(), end as int, end as int),
    decreases spec_tokens(src@).len() - i, 0int,
{
    let s = src@;
    let toks = spec_tokens(s);
    if i < toks.len() {
        let t = toks[i];
        if t.0 == TokenType::OpenParen {
            lemma_parse_bounds(s, i + 1);
            lemma_until_wf(src, i + 1);
            let (r, j) = spec_until_close(s, i + 1);
            if let Ok((end, children)) = r {
                if i < j <= toks.len() {
                    lemma_tree_span(src, i, end);
                    lemma_until_wf(src, j);
                    let tree = SpecNode::Tree(spec_extend_end(tok_span(s, t), end), children);
                    assert(node_wf(src, tree));
                    if let Ok((e2, rest)) = spec_until_close(s, j).0 {
                        lemma_nodes_prepend_wf(src, tree, rest);
                    }
                }
            }
        } else if t.0 == TokenType::CloseParen {
            lemma_token_span(src, i);
            assert(nodes_wf(src, Seq::<SpecNode>::empty()));
        } else if t.0 == TokenType::String || t.0 == TokenType::Other {
            lemma_atom_wf(src, i);
            lemma_until_wf(src, i + 1);
            if let Ok((e2, rest)) = spec_until_close(s, i + 1).0 {
                lemma_nodes_prepend_wf(src, spec_atom(s, t), rest);
            }
        }
    }
}

proof fn lemma_nodes_prepend_wf(src: &str, n: SpecNode, ns: Seq<SpecNode>)
    requires
        node_wf(src, n),
        nodes_wf(src, ns),
    ensures
        nodes_wf(src, seq![n] + ns),
{
    assert((seq![n] + ns).drop_first() =~= ns);
}

/// Every node that parsing `src` yields from token `i` on is readable from `src`.
proof fn lemma_parse_from_wf(src: &str, i: int)
    requires
        src.spec_bytes().len() <= u32::MAX,
        0 <= i <= spec_tokens(src@).len(),
    ensures
        forall|k: int|
            0 <= k < spec_parse_from(src@, i).len() ==> (#[trigger] spec_parse_from(src@, i)[k]
                matches Ok(n) ==> node_wf(src, n)),
    decreases spec_tokens(src@).len() - i,
{
    let s = src@;
    lemma_parse_bounds(s, i);
    match spec_parse_next(s, i) {
        None => {},
        Some((r, j)) => {
            if i < j <= spec_tokens(s).len() {
                lemma_next_wf(src, i);
                lemma_parse_from_wf(src, j);
                let rest = spec_parse_from(s, j);
                assert forall|k: int|
                    0 <= k < spec_parse_from(s, i).len() implies (#[trigger] spec_parse_from(
                    s,
                    i,
                )[k] matches Ok(n) ==> node_wf(src, n)) by {
                    if k > 0 {
                        assert(spec_parse_from(s, i)[k] == rest[k - 1]);
                    }
                }
            }
        },
    }
}

/// Every node that the parser yields can be read back from its source: identifiers and trees
/// lie on character boundaries, and string literals hold their quotes and can be unescaped.
pub proof fn lemma_parse_wf(src: &str)
    requires
        src.spec_bytes().len() <= u32::MAX,
    ensures
        forall|k: int|
            0 <= k < spec_parse(src@).len() ==> (#[trigger] spec_parse(src@)[k] matches Ok(n)
                ==> node_wf(src, n)),
{
    lemma_parse_from_wf(src, 0);
}

} // verus!
