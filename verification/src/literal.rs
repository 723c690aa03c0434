//! Recognition of the atom literals of the language: integers, floats and keywords.
use vstd::prelude::*;

use crate::text::is_digit;

verus! {

/// The value of a sequence of decimal digits.
pub open spec fn digits_value(d: Seq<char>) -> int
    decreases d.len(),
{
    if d.len() == 0 {
        0
    } else {
        digits_value(d.drop_last()) * 10 + (d.last() as int - '0' as int)
    }
}

pub open spec fn all_digits(d: Seq<char>) -> bool {
    forall|i: int| 0 <= i < d.len() ==> is_digit(#[trigger] d[i])
}

/// `str::parse::<i64>`: an optional `+` or `-`, then one or more ASCII digits, whose value fits.
pub open spec fn spec_parse_i64(s: Seq<char>) -> Option<i64> {
    let neg = s.len() > 0 && s[0] == '-';
    let d = if s.len() > 0 && (s[0] == '-' || s[0] == '+') {
        s.drop_first()
    } else {
        s
    };
    let v = if neg {
        -digits_value(d)
    } else {
        digits_value(d)
    };
    if d.len() > 0 && all_digits(d) && i64::MIN <= v <= i64::MAX {
        Some(v as i64)
    } else {
        None
    }
}

/// The value of an optional minus sign followed by digits, if it fits in an `i64`.
pub open spec fn signed_value(neg: bool, d: Seq<char>) -> Option<i64> {
    let v = if neg {
        -digits_value(d)
    } else {
        digits_value(d)
    };
    if d.len() > 0 && all_digits(d) && i64::MIN <= v <= i64::MAX {
        Some(v as i64)
    } else {
        None
    }
}

/// ASCII lowercase.
pub open spec fn lower(c: char) -> char {
    if 'A' <= c <= 'Z' {
        ((c as u32) + 32) as char
    } else {
        c
    }
}

/// `b` equals the lowercase word `w`, ignoring ASCII case.
pub open spec fn eq_ignore_case(b: Seq<char>, w: Seq<char>) -> bool {
    b.len() == w.len() && forall|i: int| 0 <= i < b.len() ==> lower(#[trigger] b[i]) == w[i]
}

/// The first index at or after `i` that does not hold an ASCII digit.
pub open spec fn digit_run(b: Seq<char>, i: int) -> int
    decreases b.len() - i,
{
    if 0 <= i < b.len() && is_digit(b[i]) {
        digit_run(b, i + 1)
    } else {
        i
    }
}

/// `Exp ::= 'e' Sign? Digit+`, case-insensitive, from index `p` to the end of `b`.
pub open spec fn is_exponent(b: Seq<char>, p: int) -> bool {
    let q = if p + 1 < b.len() && (b[p + 1] == '+' || b[p + 1] == '-') {
        p + 2
    } else {
        p + 1
    };
    &&& 0 <= p < b.len()
    &&& lower(b[p]) == 'e'
    &&& q < b.len()
    &&& digit_run(b, q) == b.len()
}

/// `Number ::= ( Digit+ | Digit+ '.' Digit* | Digit* '.' Digit+ ) Exp?`
pub open spec fn is_float_number(b: Seq<char>) -> bool {
    let lead = digit_run(b, 0);
    let has_dot = lead < b.len() && b[lead] == '.';
    let frac_end = if has_dot {
        digit_run(b, lead + 1)
    } else {
        lead
    };
    let mantissa = if has_dot {
        lead > 0 || frac_end > lead + 1
    } else {
        lead > 0
    };
    mantissa && (frac_end == b.len() || is_exponent(b, frac_end))
}

/// `str::parse::<f64>` succeeds: the text, lowercased, matches
/// `Sign? ( 'inf' | 'infinity' | 'nan' | Number )`.
pub open spec fn is_float_literal(s: Seq<char>) -> bool {
    let b = if s.len() > 0 && (s[0] == '+' || s[0] == '-') {
        s.drop_first()
    } else {
        s
    };
    ||| eq_ignore_case(b, seq!['i', 'n', 'f'])
    ||| eq_ignore_case(b, seq!['i', 'n', 'f', 'i', 'n', 'i', 't', 'y'])
    ||| eq_ignore_case(b, seq!['n', 'a', 'n'])
    ||| is_float_number(b)
}

/// An atom may be a number when it starts with a digit, or with a sign followed by more text.
pub open spec fn maybe_number(s: Seq<char>) -> bool {
    s.len() > 0 && (is_digit(s[0]) || (s.len() > 1 && (s[0] == '-' || s[0] == '+')))
}

proof fn lemma_digits_value_push(d: Seq<char>, c: char)
    ensures
        digits_value(d.push(c)) == digits_value(d) * 10 + (c as int - '0' as int),
{
    assert(d.push(c).drop_last() =~= d);
}

proof fn lemma_digits_value_nonneg(d: Seq<char>)
    requires
        all_digits(d),
    ensures
        digits_value(d) >= 0,
    decreases d.len(),
{
    if d.len() > 0 {
        assert(all_digits(d.drop_last())) by {
            assert forall|i: int| 0 <= i < d.drop_last().len() implies is_digit(
                #[trigger] d.drop_last()[i],
            ) by {
                assert(d.drop_last()[i] == d[i]);
            }
        }
        lemma_digits_value_nonneg(d.drop_last());
        assert(is_digit(d[d.len() - 1]));
    }
}

/// The value of a digit sequence is at least the value of any prefix.
proof fn lemma_digits_value_prefix(d: Seq<char>, k: int)
    requires
        all_digits(d),
        0 <= k <= d.len(),
    ensures
        digits_value(d.take(k)) <= digits_value(d),
    decreases d.len() - k,
{
    if k < d.len() {
        lemma_digits_value_prefix(d, k + 1);
        assert(d.take(k + 1) =~= d.take(k).push(d[k]));
        lemma_digits_value_push(d.take(k), d[k]);
        assert(all_digits(d.take(k))) by {
            assert forall|i: int| 0 <= i < d.take(k).len() implies is_digit(#[trigger] d.take(k)[i]) by {
                assert(d.take(k)[i] == d[i]);
            }
        }
        lemma_digits_value_nonneg(d.take(k));
        assert(is_digit(d[k]));
    } else {
        assert(d.take(k) =~= d);
    }
}

/// Parses `s[start..end]` as a signed 64 bit integer.
pub fn parse_i64(s: &Vec<char>, start: usize, end: usize) -> (r: Option<i64>)
    requires
        start <= end <= s@.len(),
    ensures
        r == spec_parse_i64(s@.subrange(start as int, end as int)),
{
    let ghost t = s@.subrange(start as int, end as int);
    let mut i = start;
    let mut neg = false;
    if start < end && (s[start] == '-' || s[start] == '+') {
        neg = s[start] == '-';
        i = start + 1;
    }
    let ghost d = s@.subrange(i as int, end as int);
    proof {
        if start < end && (t[0] == '-' || t[0] == '+') {
            assert(t.drop_first() =~= d);
        } else {
            assert(t =~= d);
        }
        assert(spec_parse_i64(t) == signed_value(neg, d));
    }
    if i == end {
        return None;
    }
    // The magnitude, bounded by 2^63.
    let mut m: u64 = 0;
    let mut k = i;
    while k < end
        invariant
            start <= i <= k <= end <= s@.len(),
            d == s@.subrange(i as int, end as int),
            all_digits(s@.subrange(i as int, k as int)),
            m == digits_value(s@.subrange(i as int, k as int)),
            m <= 0x8000_0000_0000_0000u64,
            t == s@.subrange(start as int, end as int),
            spec_parse_i64(t) == signed_value(neg, d),
        decreases end - k,
    {
        let c = s[k];
        if !('0' <= c && c <= '9') {
            proof {
                assert(d[k - i] == c);
            }
            return None;
        }
        let digit = (c as u32 - '0' as u32) as u64;
        proof {
            assert(s@.subrange(i as int, k + 1) =~= s@.subrange(i as int, k as int).push(c));
            lemma_digits_value_push(s@.subrange(i as int, k as int), c);
        }
        if m > (0x8000_0000_0000_0000u64 - digit) / 10 {
            // The magnitude exceeds 2^63: out of range, whatever the rest holds.
            proof {
                let p = s@.subrange(i as int, k + 1);
                if all_digits(d) {
                    assert(d.take(k + 1 - i) =~= p);
                    lemma_digits_value_prefix(d, k + 1 - i);
                }
            }
            return None;
        }
        m = m * 10 + digit;
        k = k + 1;
        proof {
            assert forall|q: int| 0 <= q < s@.subrange(i as int, k as int).len() implies is_digit(
                #[trigger] s@.subrange(i as int, k as int)[q],
            ) by {
                if q < k - 1 - i {
                    assert(s@.subrange(i as int, k as int)[q] == s@.subrange(i as int, k - 1)[q]);
                }
            }
        }
    }
    proof {
        assert(s@.subrange(i as int, k as int) =~= d);
    }
    if neg {
        if m == 0x8000_0000_0000_0000u64 {
            Some(i64::MIN)
        } else {
            Some(-(m as i64))
        }
    } else {
        if m > 0x7FFF_FFFF_FFFF_FFFFu64 {
            None
        } else {
            Some(m as i64)
        }
    }
}

/// Index of the first non-digit in `s[i..end]`, or `end`.
fn skip_digits(s: &Vec<char>, i: usize, end: usize) -> (r: usize)
    requires
        i <= end <= s@.len(),
    ensures
        r == digit_run(s@.subrange(0, end as int), i as int),
        i <= r <= end,
{
    let ghost b = s@.subrange(0, end as int);
    let mut k = i;
    while k < end && '0' <= s[k] && s[k] <= '9'
        invariant
            i <= k <= end <= s@.len(),
            b == s@.subrange(0, end as int),
            digit_run(b, k as int) == digit_run(b, i as int),
        decreases end - k,
    {
        proof {
            assert(b[k as int] == s@[k as int]);
        }
        k = k + 1;
    }
    proof {
        if k < end {
            assert(b[k as int] == s@[k as int]);
        }
    }
    k
}

/// The spec of a run of digits does not depend on what lies before the text.
proof fn lemma_digit_run_shift(s: Seq<char>, b0: int, i: int, end: int)
    requires
        0 <= b0 <= i <= end <= s.len(),
    ensures
        digit_run(s.subrange(0, end), i) - b0 == digit_run(s.subrange(b0, end), i - b0),
    decreases end - i,
{
    let a = s.subrange(0, end);
    let b = s.subrange(b0, end);
    if i < end {
        assert(a[i] == s[i]);
        assert(b[i - b0] == s[i]);
        if is_digit(s[i]) {
            lemma_digit_run_shift(s, b0, i + 1, end);
        }
    }
}

fn lower_char(c: char) -> (r: char)
    ensures
        r == lower(c),
{
    if 'A' <= c && c <= 'Z' {
        (((c as u32) + 32) as u8) as char
    } else {
        c
    }
}

/// `s[start..end]` equals the lowercase word `w`, ignoring ASCII case.
fn matches_word(s: &Vec<char>, start: usize, end: usize, w: &[char]) -> (r: bool)
    requires
        start <= end <= s@.len(),
    ensures
        r == eq_ignore_case(s@.subrange(start as int, end as int), w@),
{
    let ghost b = s@.subrange(start as int, end as int);
    if end - start != w.len() {
        return false;
    }
    let mut k: usize = 0;
    while k < w.len()
        invariant
            end - start == w@.len(),
            start <= end <= s@.len(),
            b == s@.subrange(start as int, end as int),
            k <= w@.len(),
            forall|q: int| 0 <= q < k ==> lower(#[trigger] b[q]) == w@[q],
        decreases w@.len() - k,
    {
        if lower_char(s[start + k]) != w[k] {
            proof {
                assert(b[k as int] == s@[start + k]);
            }
            return false;
        }
        proof {
            assert(b[k as int] == s@[start + k]);
        }
        k = k + 1;
    }
    true
}

/// Whether `s[start..end]` parses as a float.
pub fn is_float(s: &Vec<char>, start: usize, end: usize) -> (r: bool)
    requires
        start <= end <= s@.len(),
    ensures
        r == is_float_literal(s@.subrange(start as int, end as int)),
{
    let ghost t = s@.subrange(start as int, end as int);
    let mut i = start;
    if start < end && (s[start] == '-' || s[start] == '+') {
        i = start + 1;
    }
    let ghost b = s@.subrange(i as int, end as int);
    proof {
        if start < end && (t[0] == '-' || t[0] == '+') {
            assert(t.drop_first() =~= b);
        } else {
            assert(t =~= b);
        }
    }
    let inf = ['i', 'n', 'f'];
    let infinity = ['i', 'n', 'f', 'i', 'n', 'i', 't', 'y'];
    let nan = ['n', 'a', 'n'];
    proof {
        assert(inf@ =~= seq!['i', 'n', 'f']);
        assert(infinity@ =~= seq!['i', 'n', 'f', 'i', 'n', 'i', 't', 'y']);
        assert(nan@ =~= seq!['n', 'a', 'n']);
    }
    if matches_word(s, i, end, &inf) || matches_word(s, i, end, &infinity) || matches_word(
        s,
        i,
        end,
        &nan,
    ) {
        return true;
    }
    // Number ::= ( Digit+ | Digit+ '.' Digit* | Digit* '.' Digit+ ) Exp?
    let lead = skip_digits(s, i, end);
    proof {
        lemma_digit_run_shift(s@, i as int, i as int, end as int);
        assert(s@.subrange(i as int, end as int).subrange(0, 0) =~= Seq::<char>::empty());
    }
    let has_dot = lead < end && s[lead] == '.';
    proof {
        if lead < end {
            assert(b[lead - i] == s@[lead as int]);
        }
    }
    let frac_end = if has_dot {
        let f = skip_digits(s, lead + 1, end);
        proof {
            lemma_digit_run_shift(s@, i as int, lead + 1, end as int);
        }
        f
    } else {
        lead
    };
    let mantissa = if has_dot {
        lead > i || frac_end > lead + 1
    } else {
        lead > i
    };
    if !mantissa {
        return false;
    }
    if frac_end == end {
        return true;
    }
    // Exp ::= 'e' Sign? Digit+
    proof {
        assert(b[frac_end - i] == s@[frac_end as int]);
    }
    if lower_char(s[frac_end]) != 'e' {
        return false;
    }
    let mut q = frac_end + 1;
    if q < end && (s[q] == '+' || s[q] == '-') {
        proof {
            assert(b[q - i] == s@[q as int]);
        }
        q = q + 1;
    } else {
        proof {
            if q < end {
                assert(b[q - i] == s@[q as int]);
            }
        }
    }
    if q >= end {
        return false;
    }
    let e = skip_digits(s, q, end);
    proof {
        lemma_digit_run_shift(s@, i as int, q as int, end as int);
    }
    e == end
}

/// Whether the atom `s[start..end]` may be a number.
pub fn may_be_number(s: &Vec<char>, start: usize, end: usize) -> (r: bool)
    requires
        start <= end <= s@.len(),
    ensures
        r == maybe_number(s@.subrange(start as int, end as int)),
{
    if start == end {
        return false;
    }
    let c = s[start];
    ('0' <= c && c <= '9') || (end - start > 1 && (c == '-' || c == '+'))
}

/// `s[start..end]` is exactly the word `w`.
pub fn is_word(s: &Vec<char>, start: usize, end: usize, w: &[char]) -> (r: bool)
    requires
        start <= end <= s@.len(),
    ensures
        r == (s@.subrange(start as int, end as int) == w@),
{
    if end - start != w.len() {
        proof {
            assert(s@.subrange(start as int, end as int).len() != w@.len());
        }
        return false;
    }
    let mut k: usize = 0;
    while k < w.len()
        invariant
            end - start == w@.len(),
            start <= end <= s@.len(),
            k <= w@.len(),
            forall|q: int| 0 <= q < k ==> s@[start + q] == w@[q],
        decreases w@.len() - k,
    {
        if s[start + k] != w[k] {
            proof {
                assert(s@.subrange(start as int, end as int)[k as int] != w@[k as int]);
            }
            return false;
        }
        k = k + 1;
    }
    proof {
        assert(s@.subrange(start as int, end as int) =~= w@);
    }
    true
}

} // verus!
