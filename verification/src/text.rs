//! Character classes and UTF-8 positions shared by the tokenizer, the parser and the spans.
use vstd::prelude::*;
use vstd::string::StringSliceAdditionalSpecFns;
use vstd::utf8::*;

verus! {

/// `char::is_whitespace`: the characters with the Unicode `White_Space` property.
pub open spec fn is_ws(c: char) -> bool {
    let v = c as u32;
    ||| 0x09 <= v <= 0x0D
    ||| v == 0x20
    ||| v == 0x85
    ||| v == 0xA0
    ||| v == 0x1680
    ||| 0x2000 <= v <= 0x200A
    ||| v == 0x2028
    ||| v == 0x2029
    ||| v == 0x202F
    ||| v == 0x205F
    ||| v == 0x3000
}

/// The whitespace characters are exactly the code points that carry the Unicode
/// `White_Space` property: tab, line feed, vertical tab, form feed, carriage return, space,
/// next line, no-break space, the Ogham space mark, the eleven spaces from en quad to hair
/// space, the line and paragraph separators, the narrow no-break space, the medium mathematical
/// space and the ideographic space.
pub proof fn lemma_whitespace_chars(c: char)
    ensures
        is_ws(c) <==> set![
            0x09u32, 0x0Au32, 0x0Bu32, 0x0Cu32, 0x0Du32, 0x20u32, 0x85u32, 0xA0u32, 0x1680u32,
            0x2000u32, 0x2001u32, 0x2002u32, 0x2003u32, 0x2004u32, 0x2005u32, 0x2006u32, 0x2007u32,
            0x2008u32, 0x2009u32, 0x200Au32, 0x2028u32, 0x2029u32, 0x202Fu32, 0x205Fu32, 0x3000u32,
        ].contains(c as u32),
        is_ws('\t') && is_ws('\n') && is_ws('\r') && is_ws(' '),
{
}

/// `char::is_ascii_digit`.
pub open spec fn is_digit(c: char) -> bool {
    '0' <= c <= '9'
}

/// Returns `true` if `c` is whitespace as defined by `char::is_whitespace`.
pub fn is_whitespace(c: char) -> (r: bool)
    ensures
        r == is_ws(c),
{
    let v = c as u32;
    (0x09 <= v && v <= 0x0D) || v == 0x20 || v == 0x85 || v == 0xA0 || v == 0x1680 || (0x2000
        <= v && v <= 0x200A) || v == 0x2028 || v == 0x2029 || v == 0x202F || v == 0x205F || v
        == 0x3000
}

/// The number of bytes in the UTF-8 encoding of `c`.
pub open spec fn char_width(c: char) -> nat {
    encode_scalar(c as u32).len()
}

/// The byte offset of the character at index `i` of `s` within the UTF-8 encoding of `s`.
pub open spec fn byte_pos(s: Seq<char>, i: int) -> nat {
    encode_utf8(s.take(i)).len()
}

/// The text between two byte offsets of a string's UTF-8 encoding.
pub open spec fn bytes_text(bytes: Seq<u8>, start: int, end: int) -> Seq<char> {
    decode_utf8(bytes.subrange(start, end))
}

/// `start..end` selects whole characters of `bytes`, as slicing a `str` requires.
pub open spec fn valid_byte_range(bytes: Seq<u8>, start: int, end: int) -> bool {
    &&& 0 <= start <= end <= bytes.len()
    &&& is_char_boundary(bytes, start)
    &&& is_char_boundary(bytes, end)
}

/// `char::len_utf8`.
pub fn utf8_width(c: char) -> (r: usize)
    ensures
        r == char_width(c),
        1 <= r <= 4,
{
    proof {
        char_is_scalar(c);
    }
    let v = c as u32;
    if v <= 0x7F {
        1
    } else if v <= 0x7FF {
        2
    } else if v <= 0xFFFF {
        3
    } else {
        4
    }
}

pub proof fn lemma_char_width_bounds(c: char)
    ensures
        1 <= char_width(c) <= 4,
{
    char_is_scalar(c);
}

pub proof fn lemma_encode_utf8_concat(a: Seq<char>, b: Seq<char>)
    ensures
        encode_utf8(a + b) == encode_utf8(a) + encode_utf8(b),
    decreases a.len(),
{
    if a.len() == 0 {
        assert(a + b =~= b);
    } else {
        lemma_encode_utf8_concat(a.drop_first(), b);
        assert((a + b).drop_first() =~= a.drop_first() + b);
        assert((a + b)[0] == a[0]);
    }
}

pub proof fn lemma_encode_utf8_single(c: char)
    ensures
        encode_utf8(seq![c]) == encode_scalar(c as u32),
{
    assert(seq![c].drop_first() =~= Seq::<char>::empty());
    assert(encode_utf8(Seq::<char>::empty()) =~= Seq::<u8>::empty());
    assert(encode_scalar(c as u32) + Seq::<u8>::empty() =~= encode_scalar(c as u32));
}

/// Moving one character forward moves the byte offset by that character's width.
pub proof fn lemma_byte_pos_step(s: Seq<char>, i: int)
    requires
        0 <= i < s.len(),
    ensures
        byte_pos(s, i + 1) == byte_pos(s, i) + char_width(s[i]),
{
    assert(s.take(i + 1) =~= s.take(i) + seq![s[i]]);
    lemma_encode_utf8_concat(s.take(i), seq![s[i]]);
    lemma_encode_utf8_single(s[i]);
}

pub proof fn lemma_byte_pos_zero(s: Seq<char>)
    ensures
        byte_pos(s, 0) == 0,
{
    assert(s.take(0) =~= Seq::<char>::empty());
}

pub proof fn lemma_byte_pos_full(s: Seq<char>)
    ensures
        byte_pos(s, s.len() as int) == encode_utf8(s).len(),
{
    assert(s.take(s.len() as int) =~= s);
}

/// Byte offsets grow strictly with character indices.
pub proof fn lemma_byte_pos_mono(s: Seq<char>, i: int, j: int)
    requires
        0 <= i <= j <= s.len(),
    ensures
        byte_pos(s, i) + (j - i) <= byte_pos(s, j),
        byte_pos(s, j) <= byte_pos(s, i) + 4 * (j - i),
    decreases j - i,
{
    if i < j {
        lemma_byte_pos_mono(s, i, j - 1);
        lemma_byte_pos_step(s, j - 1);
        lemma_char_width_bounds(s[j - 1]);
    }
}

/// The encoding of `s` splits at the byte offset of any character index.
pub proof fn lemma_encode_split(s: Seq<char>, i: int)
    requires
        0 <= i <= s.len(),
    ensures
        encode_utf8(s) == encode_utf8(s.take(i)) + encode_utf8(s.skip(i)),
{
    assert(s =~= s.take(i) + s.skip(i));
    lemma_encode_utf8_concat(s.take(i), s.skip(i));
}

/// The bytes between the offsets of two character indices encode exactly the characters between.
pub proof fn lemma_encode_subrange(s: Seq<char>, i: int, j: int)
    requires
        0 <= i <= j <= s.len(),
    ensures
        encode_utf8(s).subrange(byte_pos(s, i) as int, byte_pos(s, j) as int) == encode_utf8(
            s.subrange(i, j),
        ),
{
    let e = encode_utf8(s);
    lemma_encode_split(s, j);
    assert(s.take(j) =~= s.take(i) + s.subrange(i, j));
    lemma_encode_utf8_concat(s.take(i), s.subrange(i, j));
    assert(e.subrange(byte_pos(s, i) as int, byte_pos(s, j) as int) =~= encode_utf8(
        s.subrange(i, j),
    ));
}

/// The byte offset of every character index is a character boundary.
pub proof fn lemma_byte_pos_boundary(s: Seq<char>, i: int)
    requires
        0 <= i <= s.len(),
    ensures
        is_char_boundary(encode_utf8(s), byte_pos(s, i) as int),
        byte_pos(s, i) <= encode_utf8(s).len(),
    decreases i,
{
    broadcast use encode_utf8_valid_utf8;

    lemma_byte_pos_full(s);
    lemma_byte_pos_mono(s, i, s.len() as int);
    if i == 0 {
        lemma_byte_pos_zero(s);
    } else {
        let e = encode_utf8(s);
        encode_utf8_first_scalar(s);
        assert(pop_first_scalar(e) =~= encode_utf8(s.drop_first())) by {
            lemma_encode_split(s, 1);
            assert(s.skip(1) =~= s.drop_first());
            assert(s.take(1) =~= seq![s[0]]);
            lemma_encode_utf8_single(s[0]);
        }
        lemma_byte_pos_boundary(s.drop_first(), i - 1);
        assert(s.take(i) =~= seq![s[0]] + s.drop_first().take(i - 1));
        lemma_encode_utf8_concat(seq![s[0]], s.drop_first().take(i - 1));
        lemma_encode_utf8_single(s[0]);
        lemma_char_width_bounds(s[0]);
    }
}

/// Decoding the bytes between two character offsets gives back the characters between.
pub proof fn lemma_bytes_text_chars(s: Seq<char>, i: int, j: int)
    requires
        0 <= i <= j <= s.len(),
    ensures
        bytes_text(encode_utf8(s), byte_pos(s, i) as int, byte_pos(s, j) as int) == s.subrange(
            i,
            j,
        ),
        valid_byte_range(encode_utf8(s), byte_pos(s, i) as int, byte_pos(s, j) as int),
{
    lemma_encode_subrange(s, i, j);
    encode_utf8_decode_utf8(s.subrange(i, j));
    lemma_byte_pos_boundary(s, i);
    lemma_byte_pos_boundary(s, j);
    lemma_byte_pos_mono(s, i, j);
}

/// A string's characters are the decoding of its bytes.
pub proof fn lemma_str_view_bytes(s: &str)
    ensures
        s@ == decode_utf8(s.spec_bytes()),
        valid_utf8(s.spec_bytes()),
        s.spec_bytes() == encode_utf8(s@),
{
    encode_utf8_decode_utf8(s@);
    encode_utf8_valid_utf8(s@);
}

/// Collects the characters of `s`.
pub fn collect_chars(s: &str) -> (r: Vec<char>)
    ensures
        r@ == s@,
{
    let mut r: Vec<char> = Vec::new();
    for c in it: s.chars()
        invariant
            r@ == it.seq().take(it.index() as int),
            it.seq() == s@,
    {
        r.push(c);
    }
    r
}

/// `s` has exactly the characters of `w`.
pub fn str_eq(s: &str, w: &str) -> (r: bool)
    ensures
        r == (s@ == w@),
{
    let a = collect_chars(s);
    let b = collect_chars(w);
    if a.len() != b.len() {
        return false;
    }
    let mut i: usize = 0;
    while i < a.len()
        invariant
            a@ == s@,
            b@ == w@,
            a.len() == b.len(),
            i <= a.len(),
            forall|j: int| 0 <= j < i ==> a@[j] == b@[j],
        decreases a.len() - i,
    {
        if a[i] != b[i] {
            return false;
        }
        i = i + 1;
    }
    proof {
        assert(a@ =~= b@);
    }
    true
}

/// The byte offsets of every character index of `s`, the end of `s` included.
pub fn char_byte_offsets(s: &Vec<char>) -> (r: Vec<usize>)
    requires
        encode_utf8(s@).len() <= usize::MAX,
    ensures
        r@.len() == s@.len() + 1,
        forall|i: int| 0 <= i <= s@.len() ==> #[trigger] r@[i] == byte_pos(s@, i),
{
    let mut r: Vec<usize> = Vec::new();
    let mut pos: usize = 0;
    proof {
        lemma_byte_pos_zero(s@);
    }
    let mut i: usize = 0;
    while i < s.len()
        invariant
            i <= s@.len(),
            r@.len() == i,
            pos == byte_pos(s@, i as int),
            forall|k: int| 0 <= k < i ==> #[trigger] r@[k] == byte_pos(s@, k),
            encode_utf8(s@).len() <= usize::MAX,
        decreases s@.len() - i,
    {
        r.push(pos);
        proof {
            lemma_byte_pos_step(s@, i as int);
            lemma_byte_pos_mono(s@, i as int + 1, s@.len() as int);
            lemma_byte_pos_full(s@);
        }
        pos = pos + utf8_width(s[i]);
        i = i + 1;
    }
    r.push(pos);
    r
}

} // verus!
