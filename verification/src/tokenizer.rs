//! Splits source text into tokens.
use vstd::prelude::*;
use vstd::string::StringSliceAdditionalSpecFns;
use vstd::utf8::*;

use crate::span::str_slice;
use crate::text::{
    byte_pos, bytes_text, char_byte_offsets, collect_chars, is_whitespace, is_ws,
    lemma_byte_pos_boundary, lemma_byte_pos_full, lemma_byte_pos_mono, lemma_bytes_text_chars,
    lemma_str_view_bytes, valid_byte_range,
};

verus! {

/// Describes the type of token.
#[derive(Copy, Clone, Debug, PartialEq, Eq, Structural)]
pub enum TokenType {
    /// An open parenthesis or bracket.
    OpenParen,
    /// A close parenthesis or bracket.
    CloseParen,
    /// A string literal.
    String,
    /// A string literal, but missing the closing quote.
    UnterminatedString,
    /// Something else. Usually an atom (int, float literal) or an identifier.
    Other,
}

/// Contains a token type and the portion of the text defining the token, as byte offsets.
#[derive(Copy, Clone, Debug, PartialEq, Eq, Structural)]
pub struct Token {
    pub token_type: TokenType,
    pub start: usize,
    pub end: usize,
}

/// A token located by character indices rather than byte offsets.
#[derive(Copy, Clone, Debug, PartialEq, Eq, Structural)]
pub struct CharToken {
    pub token_type: TokenType,
    pub start: usize,
    pub end: usize,
}

/// A token as the specification sees it: its type and the character indices it spans.
pub type SpecToken = (TokenType, int, int);

/// The first index at or after `i` that does not hold whitespace.
pub open spec fn skip_ws(s: Seq<char>, i: int) -> int
    decreases s.len() - i,
{
    if 0 <= i < s.len() && is_ws(s[i]) {
        skip_ws(s, i + 1)
    } else {
        i
    }
}

/// Scans a string literal's body from `i`. Returns the index just past the closing quote, or
/// `None` when the source ends first. A backslash escapes the character after it.
pub open spec fn string_end(s: Seq<char>, i: int, escaped: bool) -> Option<int>
    decreases s.len() - i,
{
    if 0 <= i < s.len() {
        if s[i] == '\\' {
            string_end(s, i + 1, !escaped)
        } else if s[i] == '"' && !escaped {
            Some(i + 1)
        } else {
            string_end(s, i + 1, false)
        }
    } else {
        None
    }
}

/// Characters that open a list: a parenthesis or a bracket.
pub open spec fn is_open(c: char) -> bool {
    c == '(' || c == '['
}

/// Characters that close a list: a parenthesis or a bracket.
pub open spec fn is_close(c: char) -> bool {
    c == ')' || c == ']'
}

/// Characters that end an atom.
pub open spec fn ends_atom(c: char) -> bool {
    is_open(c) || is_close(c) || is_ws(c)
}

/// The first index at or after `i` that ends an atom, or the end of `s`.
pub open spec fn atom_end(s: Seq<char>, i: int) -> int
    decreases s.len() - i,
{
    if 0 <= i < s.len() && !ends_atom(s[i]) {
        atom_end(s, i + 1)
    } else {
        i
    }
}

/// The token that starts at or after index `i`, if any.
pub open spec fn next_token(s: Seq<char>, i: int) -> Option<SpecToken> {
    let j = skip_ws(s, i);
    if j >= s.len() {
        None
    } else if s[j] == '"' {
        match string_end(s, j + 1, false) {
            Some(e) => Some((TokenType::String, j, e)),
            None => Some((TokenType::UnterminatedString, j, s.len() as int)),
        }
    } else if is_open(s[j]) {
        Some((TokenType::OpenParen, j, j + 1))
    } else if is_close(s[j]) {
        Some((TokenType::CloseParen, j, j + 1))
    } else {
        Some((TokenType::Other, j, atom_end(s, j + 1)))
    }
}

/// All tokens of `s` from index `i` on.
pub open spec fn tokens_from(s: Seq<char>, i: int) -> Seq<SpecToken>
    decreases s.len() - i,
{
    match next_token(s, i) {
        None => Seq::empty(),
        Some(t) => if i < t.2 <= s.len() {
            seq![t] + tokens_from(s, t.2)
        } else {
            Seq::empty()
        },
    }
}

/// All tokens of `s`.
pub open spec fn spec_tokens(s: Seq<char>) -> Seq<SpecToken> {
    tokens_from(s, 0)
}

/// `t` is the token `st` of `s`, located by byte offsets.
pub open spec fn token_is(t: Token, st: SpecToken, s: Seq<char>) -> bool {
    &&& t.token_type == st.0
    &&& t.start == byte_pos(s, st.1)
    &&& t.end == byte_pos(s, st.2)
}

/// `t` is the token `st`, located by character indices.
pub open spec fn char_token_is(t: CharToken, st: SpecToken) -> bool {
    &&& t.token_type == st.0
    &&& t.start == st.1
    &&& t.end == st.2
}

pub proof fn lemma_skip_ws_bounds(s: Seq<char>, i: int)
    requires
        0 <= i <= s.len(),
    ensures
        i <= skip_ws(s, i) <= s.len(),
        forall|k: int| i <= k < skip_ws(s, i) ==> is_ws(#[trigger] s[k]),
    decreases s.len() - i,
{
    if i < s.len() && is_ws(s[i]) {
        lemma_skip_ws_bounds(s, i + 1);
    }
}

pub proof fn lemma_string_end_bounds(s: Seq<char>, i: int, escaped: bool)
    requires
        0 <= i,
    ensures
        string_end(s, i, escaped) matches Some(e) ==> i < e <= s.len() && s[e - 1] == '"',
    decreases s.len() - i,
{
    if 0 <= i < s.len() {
        if s[i] == '\\' {
            lemma_string_end_bounds(s, i + 1, !escaped);
        } else if s[i] == '"' && !escaped {
        } else {
            lemma_string_end_bounds(s, i + 1, false);
        }
    }
}

pub proof fn lemma_atom_end_bounds(s: Seq<char>, i: int)
    requires
        0 <= i <= s.len(),
    ensures
        i <= atom_end(s, i) <= s.len(),
        forall|k: int| i <= k < atom_end(s, i) ==> !ends_atom(#[trigger] s[k]),
    decreases s.len() - i,
{
    if i < s.len() && !ends_atom(s[i]) {
        lemma_atom_end_bounds(s, i + 1);
    }
}

/// Every token lies within the source and after the index the search started from.
pub proof fn lemma_next_token_bounds(s: Seq<char>, i: int)
    requires
        0 <= i <= s.len(),
    ensures
        next_token(s, i) matches Some(t) ==> i <= t.1 < t.2 <= s.len(),
        next_token(s, i) is None ==> skip_ws(s, i) == s.len(),
{
    lemma_skip_ws_bounds(s, i);
    let j = skip_ws(s, i);
    if j < s.len() {
        lemma_string_end_bounds(s, j + 1, false);
        lemma_atom_end_bounds(s, j + 1);
    }
}

/// The tokens are in order, do not overlap and lie within the source.
pub proof fn lemma_tokens_from_ordered(s: Seq<char>, i: int)
    requires
        0 <= i <= s.len(),
    ensures
        forall|k: int|
            0 <= k < tokens_from(s, i).len() ==> i <= (#[trigger] tokens_from(s, i)[k]).1
                < tokens_from(s, i)[k].2 <= s.len(),
        forall|k: int|
            0 <= k < tokens_from(s, i).len() - 1 ==> (#[trigger] tokens_from(s, i)[k]).2 <= tokens_from(
                s,
                i,
            )[k + 1].1,
    decreases s.len() - i,
{
    lemma_next_token_bounds(s, i);
    match next_token(s, i) {
        None => {},
        Some(t) => {
            if i < t.2 <= s.len() {
                lemma_tokens_from_ordered(s, t.2);
                let rest = tokens_from(s, t.2);
                assert(tokens_from(s, i) == seq![t] + rest);
                assert forall|k: int| 0 <= k < tokens_from(s, i).len() - 1 implies (#[trigger] tokens_from(
                    s,
                    i,
                )[k]).2 <= tokens_from(s, i)[k + 1].1 by {
                    if k > 0 {
                        assert(tokens_from(s, i)[k] == rest[k - 1]);
                        assert(tokens_from(s, i)[k + 1] == rest[k]);
                    } else {
                        assert(tokens_from(s, i)[1] == rest[0]);
                    }
                }
                assert forall|k: int| 0 <= k < tokens_from(s, i).len() implies i <= (
                #[trigger] tokens_from(s, i)[k]).1 < tokens_from(s, i)[k].2 <= s.len() by {
                    if k > 0 {
                        assert(tokens_from(s, i)[k] == rest[k - 1]);
                    }
                }
            }
        },
    }
}

/// Index of the first non-whitespace character at or after `i`.
pub fn skip_whitespace(s: &Vec<char>, i: usize) -> (r: usize)
    requires
        i <= s@.len(),
    ensures
        r == skip_ws(s@, i as int),
{
    let mut k = i;
    while k < s.len() && is_whitespace(s[k])
        invariant
            i <= k <= s@.len(),
            skip_ws(s@, k as int) == skip_ws(s@, i as int),
        decreases s@.len() - k,
    {
        k = k + 1;
    }
    k
}

/// Index just past the closing quote of the string literal whose body starts at `i`, or `None`.
pub fn find_string_end(s: &Vec<char>, i: usize) -> (r: Option<usize>)
    requires
        i <= s@.len(),
    ensures
        r matches Some(e) ==> string_end(s@, i as int, false) == Some(e as int),
        r is None ==> string_end(s@, i as int, false) is None,
{
    let mut k = i;
    let mut escaped = false;
    while k < s.len()
        invariant
            i <= k <= s@.len(),
            string_end(s@, k as int, escaped) == string_end(s@, i as int, false),
        decreases s@.len() - k,
    {
        let c = s[k];
        if c == '\\' {
            escaped = !escaped;
        } else if c == '"' {
            if !escaped {
                return Some(k + 1);
            }
            escaped = false;
        } else {
            escaped = false;
        }
        k = k + 1;
    }
    None
}

/// Index of the first character at or after `i` that ends an atom.
pub fn find_atom_end(s: &Vec<char>, i: usize) -> (r: usize)
    requires
        i <= s@.len(),
    ensures
        r == atom_end(s@, i as int),
{
    let mut k = i;
    while k < s.len() && !(s[k] == '(' || s[k] == '[' || s[k] == ')' || s[k] == ']' || is_whitespace(s[k]))
        invariant
            i <= k <= s@.len(),
            atom_end(s@, k as int) == atom_end(s@, i as int),
        decreases s@.len() - k,
    {
        k = k + 1;
    }
    k
}

/// The next token at or after character index `i`.
pub fn next_char_token(s: &Vec<char>, i: usize) -> (r: Option<CharToken>)
    requires
        i <= s@.len(),
    ensures
        r matches Some(t) ==> next_token(s@, i as int) matches Some(st) && char_token_is(t, st),
        r is None ==> next_token(s@, i as int) is None,
{
    proof {
        lemma_skip_ws_bounds(s@, i as int);
    }
    let j = skip_whitespace(s, i);
    if j >= s.len() {
        return None;
    }
    let c = s[j];
    if c == '"' {
        match find_string_end(s, j + 1) {
            Some(e) => Some(CharToken { token_type: TokenType::String, start: j, end: e }),
            None => Some(
                CharToken { token_type: TokenType::UnterminatedString, start: j, end: s.len() },
            ),
        }
    } else if c == '(' || c == '[' {
        Some(CharToken { token_type: TokenType::OpenParen, start: j, end: j + 1 })
    } else if c == ')' || c == ']' {
        Some(CharToken { token_type: TokenType::CloseParen, start: j, end: j + 1 })
    } else {
        let e = find_atom_end(s, j + 1);
        Some(CharToken { token_type: TokenType::Other, start: j, end: e })
    }
}

/// All tokens of `s`, located by character indices.
pub fn char_tokens(s: &Vec<char>) -> (r: Vec<CharToken>)
    ensures
        r@.len() == spec_tokens(s@).len(),
        forall|k: int| 0 <= k < r@.len() ==> char_token_is(#[trigger] r@[k], spec_tokens(s@)[k]),
{
    let mut r: Vec<CharToken> = Vec::new();
    let mut i: usize = 0;
    loop
        invariant
            i <= s@.len(),
            spec_tokens(s@) == r@.map_values(|t: CharToken| (t.token_type, t.start as int, t.end as int)) + tokens_from(s@, i as int),
        ensures
            spec_tokens(s@) == r@.map_values(|t: CharToken| (t.token_type, t.start as int, t.end as int)),
        decreases s@.len() - i,
    {
        proof {
            lemma_next_token_bounds(s@, i as int);
        }
        match next_char_token(s, i) {
            None => {
                assert(tokens_from(s@, i as int) =~= Seq::<SpecToken>::empty());
                assert(spec_tokens(s@) =~= r@.map_values(|t: CharToken| (t.token_type, t.start as int, t.end as int)));
                break ;
            },
            Some(t) => {
                let ghost old_r = r@;
                r.push(t);
                assert(r@.map_values(|t: CharToken| (t.token_type, t.start as int, t.end as int)) =~= old_r.map_values(|t: CharToken| (t.token_type, t.start as int, t.end as int)).push((t.token_type, t.start as int, t.end as int)));
                i = t.end;
            },
        }
    }
    assert forall|k: int| 0 <= k < r@.len() implies char_token_is(#[trigger] r@[k], spec_tokens(s@)[k]) by {
        assert(spec_tokens(s@)[k] == r@.map_values(|t: CharToken| (t.token_type, t.start as int, t.end as int))[k]);
    }
    r
}

/// The characters of a source together with their byte offsets.
pub struct SourceChars {
    pub chars: Vec<char>,
    pub offsets: Vec<usize>,
}

impl SourceChars {
    pub open spec fn wf_for(&self, src: Seq<char>) -> bool {
        &&& self.chars@ == src
        &&& self.offsets@.len() == src.len() + 1
        &&& forall|i: int| 0 <= i <= src.len() ==> #[trigger] self.offsets@[i] == byte_pos(src, i)
    }

    /// Reads the characters of `src` and their byte offsets.
    pub fn new(src: &str) -> (r: SourceChars)
        requires
            src.spec_bytes().len() <= usize::MAX,
        ensures
            r.wf_for(src@),
    {
        proof {
            lemma_str_view_bytes(src);
        }
        let chars = collect_chars(src);
        let offsets = char_byte_offsets(&chars);
        SourceChars { chars, offsets }
    }

    /// The token located by byte offsets.
    pub fn to_token(&self, t: CharToken) -> (r: Token)
        requires
            t.end <= self.chars@.len(),
            t.start <= t.end,
            self.offsets@.len() == self.chars@.len() + 1,
        ensures
            r.token_type == t.token_type,
            r.start == self.offsets@[t.start as int],
            r.end == self.offsets@[t.end as int],
    {
        Token { token_type: t.token_type, start: self.offsets[t.start], end: self.offsets[t.end] }
    }

    /// The character index whose byte offset is `pos`.
    pub fn char_index(&self, pos: usize) -> (r: usize)
        requires
            exists|ci: int| 0 <= ci <= self.chars@.len() && #[trigger] byte_pos(self.chars@, ci) == pos,
            self.wf_for(self.chars@),
        ensures
            r <= self.chars@.len(),
            byte_pos(self.chars@, r as int) == pos,
    {
        let ghost ci = choose|ci: int| 0 <= ci <= self.chars@.len() && #[trigger] byte_pos(self.chars@, ci) == pos;
        let mut k: usize = 0;
        while k < self.chars.len() && self.offsets[k] != pos
            invariant
                k <= self.chars@.len(),
                k <= ci,
                self.wf_for(self.chars@),
                0 <= ci <= self.chars@.len(),
                byte_pos(self.chars@, ci) == pos,
            decreases self.chars@.len() - k,
        {
            proof {
                if k == ci {
                    assert(self.offsets@[k as int] == pos);
                }
            }
            k = k + 1;
        }
        proof {
            if k == self.chars@.len() && self.offsets@[k as int] != pos {
                assert(k == ci);
            }
        }
        k
    }
}

/// The bytes of a token of `s` are the text of the token.
pub proof fn lemma_token_text(src: &str, st: SpecToken)
    requires
        0 <= st.1 <= st.2 <= src@.len(),
    ensures
        valid_byte_range(src.spec_bytes(), byte_pos(src@, st.1) as int, byte_pos(src@, st.2) as int),
        bytes_text(src.spec_bytes(), byte_pos(src@, st.1) as int, byte_pos(src@, st.2) as int)
            == src@.subrange(st.1, st.2),
{
    lemma_str_view_bytes(src);
    lemma_bytes_text_chars(src@, st.1, st.2);
}

impl Token {
    /// The text of the token within `src`.
    pub fn as_str<'a>(&self, src: &'a str) -> (r: &'a str)
        requires
            valid_byte_range(src.spec_bytes(), self.start as int, self.end as int),
        ensures
            r@ == bytes_text(src.spec_bytes(), self.start as int, self.end as int),
    {
        str_slice(src, self.start, self.end)
    }

    /// Parse an input source into its tokens.
    pub fn parse_tokens(input_source: &str) -> (r: Vec<Token>)
        requires
            input_source.spec_bytes().len() <= usize::MAX,
        ensures
            r@.len() == spec_tokens(input_source@).len(),
            forall|k: int|
                0 <= k < r@.len() ==> token_is(
                    #[trigger] r@[k],
                    spec_tokens(input_source@)[k],
                    input_source@,
                ),
    {
        let sc = SourceChars::new(input_source);
        let ct = char_tokens(&sc.chars);
        proof {
            lemma_tokens_from_ordered(input_source@, 0);
        }
        let mut r: Vec<Token> = Vec::new();
        let mut k: usize = 0;
        while k < ct.len()
            invariant
                sc.wf_for(input_source@),
                ct@.len() == spec_tokens(input_source@).len(),
                forall|q: int| 0 <= q < ct@.len() ==> char_token_is(#[trigger] ct@[q], spec_tokens(input_source@)[q]),
                forall|q: int|
                    0 <= q < spec_tokens(input_source@).len() ==> 0 <= (
                    #[trigger] spec_tokens(input_source@)[q]).1 < spec_tokens(input_source@)[q].2
                        <= input_source@.len(),
                k <= ct@.len(),
                r@.len() == k,
                forall|q: int| 0 <= q < k ==> token_is(#[trigger] r@[q], spec_tokens(input_source@)[q], input_source@),
            decreases ct@.len() - k,
        {
            assert(char_token_is(ct@[k as int], spec_tokens(input_source@)[k as int]));
            let t = sc.to_token(ct[k]);
            r.push(t);
            k = k + 1;
        }
        r
    }

    /// Parse an input source into tokens paired with their text.
    pub fn parse_tokens_to_vec<'a>(input_src: &'a str) -> (r: Vec<(TokenType, &'a str)>)
        requires
            input_src.spec_bytes().len() <= usize::MAX,
        ensures
            r@.len() == spec_tokens(input_src@).len(),
            forall|k: int|
                0 <= k < r@.len() ==> (#[trigger] r@[k]).0 == spec_tokens(input_src@)[k].0 && r@[k].1@
                    == input_src@.subrange(spec_tokens(input_src@)[k].1, spec_tokens(input_src@)[k].2),
    {
        let tokens = Token::parse_tokens(input_src);
        proof {
            lemma_tokens_from_ordered(input_src@, 0);
        }
        let mut r: Vec<(TokenType, &'a str)> = Vec::new();
        let mut k: usize = 0;
        while k < tokens.len()
            invariant
                tokens@.len() == spec_tokens(input_src@).len(),
                forall|q: int|
                    0 <= q < tokens@.len() ==> token_is(
                        #[trigger] tokens@[q],
                        spec_tokens(input_src@)[q],
                        input_src@,
                    ),
                forall|q: int|
                    0 <= q < spec_tokens(input_src@).len() ==> 0 <= (
                    #[trigger] spec_tokens(input_src@)[q]).1 < spec_tokens(input_src@)[q].2
                        <= input_src@.len(),
                k <= tokens@.len(),
                r@.len() == k,
                forall|q: int|
                    0 <= q < k ==> (#[trigger] r@[q]).0 == spec_tokens(input_src@)[q].0 && r@[q].1@
                        == input_src@.subrange(spec_tokens(input_src@)[q].1, spec_tokens(input_src@)[q].2),
            decreases tokens@.len() - k,
        {
            let t = tokens[k];
            proof {
                lemma_token_text(input_src, spec_tokens(input_src@)[k as int]);
            }
            r.push((t.token_type, t.as_str(input_src)));
            k = k + 1;
        }
        r
    }

    /// Parse the next token of `src` at or after the byte offset `start`, or return `None`.
    pub fn parse_next(src: &str, start: usize) -> (r: Option<Token>)
        requires
            src.spec_bytes().len() <= usize::MAX,
            exists|ci: int| 0 <= ci <= src@.len() && #[trigger] byte_pos(src@, ci) == start,
        ensures
            forall|ci: int|
                0 <= ci <= src@.len() && #[trigger] byte_pos(src@, ci) == start ==> match r {
                    None => next_token(src@, ci) is None,
                    Some(t) => next_token(src@, ci) matches Some(st) && token_is(t, st, src@),
                },
    {
        let sc = SourceChars::new(src);
        let ci = sc.char_index(start);
        proof {
            lemma_next_token_bounds(src@, ci as int);
            assert forall|cj: int| 0 <= cj <= src@.len() && #[trigger] byte_pos(src@, cj) == start implies cj == ci by {
                if cj < ci {
                    lemma_byte_pos_mono(src@, cj, ci as int);
                } else if ci < cj {
                    lemma_byte_pos_mono(src@, ci as int, cj);
                }
            }
        }
        match next_char_token(&sc.chars, ci) {
            None => None,
            Some(t) => Some(sc.to_token(t)),
        }
    }

    /// Parse the string literal that starts at the byte offset `start`, which must hold a `"`.
    pub fn parse_next_string(src: &str, start: usize) -> (r: Token)
        requires
            src.spec_bytes().len() <= usize::MAX,
            exists|ci: int|
                0 <= ci < src@.len() && #[trigger] byte_pos(src@, ci) == start && src@[ci] == '"',
        ensures
            forall|ci: int|
                0 <= ci < src@.len() && #[trigger] byte_pos(src@, ci) == start ==> token_is(
                    r,
                    next_token(src@, ci)->0,
                    src@,
                ),
    {
        let sc = SourceChars::new(src);
        let ci = sc.char_index(start);
        proof {
            assert forall|cj: int| 0 <= cj <= src@.len() && #[trigger] byte_pos(src@, cj) == start implies cj == ci by {
                if cj < ci {
                    lemma_byte_pos_mono(src@, cj, ci as int);
                } else if ci < cj {
                    lemma_byte_pos_mono(src@, ci as int, cj);
                }
            }
            let w = choose|w: int| 0 <= w < src@.len() && #[trigger] byte_pos(src@, w) == start && src@[w] == '"';
            assert(w == ci);
            assert(skip_ws(src@, ci as int) == ci);
            lemma_next_token_bounds(src@, ci as int);
        }
        let t = next_char_token(&sc.chars, ci);
        sc.to_token(t.unwrap())
    }
}

} // verus!
