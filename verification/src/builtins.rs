//! The string builtins: their arity and type checks and the string work itself.
use compact_str::CompactString;
use vstd::prelude::*;
use vstd::utf8::encode_utf8;

use crate::compact::{compact_chars, compact_default, compact_new, compact_push_str};
use crate::error::VmError;
use crate::span::str_slice;
use crate::text::{
    byte_pos, char_byte_offsets, collect_chars, lemma_bytes_text_chars, lemma_str_view_bytes,
};

verus! {

/// The display name of the string type.
pub const STRING_TYPE_NAME: &'static str = "string";

/// The display name of the list type.
pub const LIST_TYPE_NAME: &'static str = "list";

/// What a builtin function reads of an argument's value.
#[derive(Debug)]
pub enum ArgValue {
    /// A string.
    Str(String),
    /// A list of values.
    List(Vec<BuiltinArg>),
    /// Any other value.
    Other,
}

/// An argument of a builtin function: its value, the display name of its type, and its
/// printed form (a string in quotes).
#[derive(Debug)]
pub struct BuiltinArg {
    pub value: ArgValue,
    pub shown_type: &'static str,
    pub quoted: String,
}

/// The text of a string argument.
pub open spec fn arg_text(a: BuiltinArg) -> Option<Seq<char>> {
    match a.value {
        ArgValue::Str(s) => Some(s@),
        _ => None,
    }
}

/// `e` reports that `function` was called with `actual` arguments instead of `expected`.
pub open spec fn is_arity_error(e: VmError, function: Seq<char>, expected: usize, actual: usize) -> bool {
    e matches VmError::ArityError { function: f, expected: x, actual: y } && compact_chars(f)
        == function && x == expected && y == actual
}

/// The error for an argument `arg` of the wrong type.
pub open spec fn type_error(context: &'static str, expected: &'static str, arg: BuiltinArg) -> VmError {
    VmError::TypeError { src: None, context, expected, actual: arg.shown_type, value: arg.quoted }
}

fn new_type_error(context: &'static str, expected: &'static str, arg: &BuiltinArg) -> (r: VmError)
    ensures
        r == type_error(context, expected, *arg),
{
    VmError::TypeError {
        src: None,
        context,
        expected,
        actual: arg.shown_type,
        value: arg.quoted.clone(),
    }
}

fn new_arity_error(function: &str, expected: usize, actual: usize) -> (r: VmError)
    ensures
        is_arity_error(r, function@, expected, actual),
{
    VmError::ArityError { function: compact_new(function), expected, actual }
}

/// `(string-length s)`: the number of bytes of `s`.
pub fn string_length(args: &[BuiltinArg]) -> (r: Result<i64, VmError>)
    ensures
        args@.len() != 1 ==> (r matches Err(e) && is_arity_error(
            e,
            "string-length"@,
            1,
            args@.len() as usize,
        )),
        args@.len() == 1 ==> match args@[0].value {
            ArgValue::Str(s) => r == Ok::<i64, VmError>((encode_utf8(s@).len() as usize) as i64),
            _ => r == Err::<i64, VmError>(type_error("string-length", STRING_TYPE_NAME, args@[0])),
        },
{
    if args.len() != 1 {
        return Err(new_arity_error("string-length", 1, args.len()));
    }
    match &args[0].value {
        ArgValue::Str(s) => {
            let text = s.as_str();
            proof {
                lemma_str_view_bytes(text);
            }
            Ok(text.len() as i64)
        },
        _ => Err(new_type_error("string-length", STRING_TYPE_NAME, &args[0])),
    }
}

/// `items` with `sep` between each two.
pub open spec fn join(items: Seq<Seq<char>>, sep: Seq<char>) -> Seq<char>
    decreases items.len(),
{
    if items.len() == 0 {
        Seq::empty()
    } else if items.len() == 1 {
        items[0]
    } else {
        join(items.drop_last(), sep) + sep + items.last()
    }
}

/// The texts of string arguments; other arguments count as empty.
pub open spec fn texts(items: Seq<BuiltinArg>) -> Seq<Seq<char>> {
    Seq::new(
        items.len(),
        |i: int|
            match arg_text(items[i]) {
                Some(t) => t,
                None => Seq::empty(),
            },
    )
}

/// The index of the first argument of `items` that is not a string, or the length.
pub open spec fn first_non_str(items: Seq<BuiltinArg>) -> int
    decreases items.len(),
{
    if items.len() == 0 {
        0
    } else if items[0].value is Str {
        1 + first_non_str(items.drop_first())
    } else {
        0
    }
}

proof fn lemma_first_non_str(items: Seq<BuiltinArg>)
    ensures
        0 <= first_non_str(items) <= items.len(),
        forall|i: int| 0 <= i < first_non_str(items) ==> (#[trigger] items[i]).value is Str,
        first_non_str(items) < items.len() ==> !(items[first_non_str(items)].value is Str),
    decreases items.len(),
{
    if items.len() > 0 && items[0].value is Str {
        lemma_first_non_str(items.drop_first());
        assert forall|i: int| 0 <= i < first_non_str(items) implies (#[trigger] items[i]).value is Str by {
            if i > 0 {
                assert(items[i] == items.drop_first()[i - 1]);
            }
        }
    }
}

/// `(string-join list [separator])`: the strings of `list`, with `separator` (by default
/// nothing) between each two.
pub fn string_join(args: &[BuiltinArg]) -> (r: Result<CompactString, VmError>)
    ensures
        args@.len() == 0 ==> (r matches Err(e) && is_arity_error(e, "string-join"@, 1, 0)),
        args@.len() > 2 ==> (r matches Err(e) && is_arity_error(
            e,
            "string-join"@,
            2,
            args@.len() as usize,
        )),
        1 <= args@.len() <= 2 ==> match args@[0].value {
            ArgValue::List(items) => if args@.len() == 2 && arg_text(args@[1]) is None {
                r == Err::<CompactString, VmError>(
                    type_error("string-join arg(idx=1)", STRING_TYPE_NAME, args@[1]),
                )
            } else if first_non_str(items@) < items@.len() {
                r == Err::<CompactString, VmError>(
                    type_error(
                        "string-join arg(idx=0) list subelement",
                        STRING_TYPE_NAME,
                        items@[first_non_str(items@)],
                    ),
                )
            } else {
                r matches Ok(c) && compact_chars(c) == join(
                    texts(items@),
                    if args@.len() == 2 {
                        arg_text(args@[1])->0
                    } else {
                        Seq::empty()
                    },
                )
            },
            _ => r == Err::<CompactString, VmError>(
                type_error("string-join arg(idx=0)", LIST_TYPE_NAME, args@[0]),
            ),
        },
{
    let n = args.len();
    if n == 0 {
        return Err(new_arity_error("string-join", 1, 0));
    }
    if n > 2 {
        return Err(new_arity_error("string-join", 2, n));
    }
    let items = match &args[0].value {
        ArgValue::List(items) => items,
        _ => {
            return Err(new_type_error("string-join arg(idx=0)", LIST_TYPE_NAME, &args[0]));
        },
    };
    let separator: &str = if n == 2 {
        match &args[1].value {
            ArgValue::Str(s) => s.as_str(),
            _ => {
                return Err(new_type_error("string-join arg(idx=1)", STRING_TYPE_NAME, &args[1]));
            },
        }
    } else {
        ""
    };
    proof {
        reveal_strlit("");
        lemma_first_non_str(items@);
    }
    let ghost all = items@;
    let mut result = compact_default();
    let mut idx: usize = 0;
    while idx < items.len()
        invariant
            all == items@,
            n == args@.len(),
            1 <= n <= 2,
            args@[0].value == ArgValue::List(*items),
            n == 2 ==> arg_text(args@[1]) == Some(separator@),
            n == 1 ==> separator@ == Seq::<char>::empty(),
            idx <= all.len(),
            forall|i: int| 0 <= i < idx ==> (#[trigger] all[i]).value is Str,
            compact_chars(result) == join(texts(all).take(idx as int), separator@),
            0 <= first_non_str(all) <= all.len(),
            forall|i: int| 0 <= i < first_non_str(all) ==> (#[trigger] all[i]).value is Str,
            first_non_str(all) < all.len() ==> !(all[first_non_str(all)].value is Str),
        decreases all.len() - idx,
    {
        let ghost before = compact_chars(result);
        match &items[idx].value {
            ArgValue::Str(s) => {
                if idx > 0 {
                    compact_push_str(&mut result, separator);
                }
                compact_push_str(&mut result, s.as_str());
                proof {
                    let t = texts(all).take(idx + 1);
                    assert(t.drop_last() =~= texts(all).take(idx as int));
                    assert(t.last() == s@);
                    if idx == 0 {
                        assert(texts(all).take(0) =~= Seq::<Seq<char>>::empty());
                        assert(before =~= Seq::<char>::empty());
                        assert(compact_chars(result) =~= s@);
                    }
                }
            },
            _ => {
                proof {
                    if first_non_str(all) != idx as int {
                        assert(first_non_str(all) > idx);
                    }
                }
                return Err(
                    new_type_error(
                        "string-join arg(idx=0) list subelement",
                        STRING_TYPE_NAME,
                        &items[idx],
                    ),
                );
            },
        }
        idx = idx + 1;
    }
    proof {
        assert(texts(all).take(idx as int) =~= texts(all));
        if first_non_str(all) < all.len() {
            assert(all[first_non_str(all)].value is Str);
        }
    }
    Ok(result)
}

/// The first index at or after `i` where `sep` occurs in `s`.
pub open spec fn find_from(s: Seq<char>, sep: Seq<char>, i: int) -> Option<int>
    decreases s.len() + 1 - i,
{
    if i < 0 || i + sep.len() > s.len() {
        None
    } else if s.subrange(i, i + sep.len()) == sep {
        Some(i)
    } else {
        find_from(s, sep, i + 1)
    }
}

pub proof fn lemma_find_from(s: Seq<char>, sep: Seq<char>, i: int)
    requires
        0 <= i,
    ensures
        find_from(s, sep, i) matches Some(m) ==> i <= m && m + sep.len() <= s.len()
            && s.subrange(m, m + sep.len()) == sep,
    decreases s.len() + 1 - i,
{
    if i + sep.len() <= s.len() && s.subrange(i, i + sep.len()) != sep {
        lemma_find_from(s, sep, i + 1);
    }
}

/// The pieces of `s` from `i` on, cut at each occurrence of the non-empty `sep`, from left to
/// right.
pub open spec fn split_from(s: Seq<char>, sep: Seq<char>, i: int) -> Seq<Seq<char>>
    decreases s.len() + 1 - i,
{
    if sep.len() == 0 || i < 0 || i > s.len() {
        Seq::empty()
    } else {
        match find_from(s, sep, i) {
            None => seq![s.subrange(i, s.len() as int)],
            Some(m) => {
                proof {
                    lemma_find_from(s, sep, i);
                }
                seq![s.subrange(i, m)] + split_from(s, sep, m + sep.len())
            },
        }
    }
}

/// `str::split` with a string pattern: the pieces of `s` between the occurrences of `sep`.
/// An empty `sep` occurs before each character and at the end.
pub open spec fn spec_split(s: Seq<char>, sep: Seq<char>) -> Seq<Seq<char>> {
    if sep.len() == 0 {
        seq![Seq::<char>::empty()] + Seq::new(s.len(), |k: int| seq![s[k]]) + seq![
            Seq::<char>::empty(),
        ]
    } else {
        split_from(s, sep, 0)
    }
}

/// The texts of some strings.
pub open spec fn strings_of(v: Seq<String>) -> Seq<Seq<char>> {
    Seq::new(v.len(), |i: int| v[i]@)
}

/// The characters of `s` between character indices `a` and `b`, as a new string.
fn piece(s: &str, chars: &Vec<char>, offsets: &Vec<usize>, a: usize, b: usize) -> (r: String)
    requires
        chars@ == s@,
        offsets@.len() == chars@.len() + 1,
        forall|x: int| 0 <= x <= chars@.len() ==> #[trigger] offsets@[x] == byte_pos(s@, x),
        a <= b <= chars@.len(),
    ensures
        r@ == s@.subrange(a as int, b as int),
{
    proof {
        lemma_str_view_bytes(s);
        lemma_bytes_text_chars(s@, a as int, b as int);
    }
    str_slice(s, offsets[a], offsets[b]).to_owned()
}

/// `sep` occurs in `c` at `j`.
fn occurs_at(c: &Vec<char>, sep: &Vec<char>, j: usize) -> (r: bool)
    requires
        j + sep@.len() <= c@.len(),
    ensures
        r == (c@.subrange(j as int, j + sep@.len()) == sep@),
{
    let mut t: usize = 0;
    while t < sep.len()
        invariant
            j + sep@.len() <= c.len(),
            t <= sep@.len(),
            forall|x: int| 0 <= x < t ==> c@[j + x] == sep@[x],
        decreases sep@.len() - t,
    {
        if c[j + t] != sep[t] {
            proof {
                assert(c@.subrange(j as int, j + sep@.len())[t as int] != sep@[t as int]);
            }
            return false;
        }
        t = t + 1;
    }
    proof {
        assert(c@.subrange(j as int, j + sep@.len()) =~= sep@);
    }
    true
}

/// The first occurrence of the non-empty `sep` in `c` at or after `i`.
fn find_sep(c: &Vec<char>, sep: &Vec<char>, i: usize) -> (r: Option<usize>)
    requires
        i <= c@.len(),
        sep@.len() > 0,
    ensures
        match r {
            Some(m) => find_from(c@, sep@, i as int) == Some(m as int),
            None => find_from(c@, sep@, i as int) is None,
        },
{
    if sep.len() > c.len() {
        return None;
    }
    let last = c.len() - sep.len();
    let mut j: usize = i;
    while j <= last
        invariant
            last + sep@.len() == c.len(),
            sep@.len() > 0,
            i <= j,
            find_from(c@, sep@, i as int) == find_from(c@, sep@, j as int),
        decreases last + 1 - j,
    {
        if occurs_at(c, sep, j) {
            return Some(j);
        }
        j = j + 1;
    }
    None
}

/// The pieces of `s` between the occurrences of `sep`, as `str::split` cuts them.
pub fn split_str(s: &str, sep: &str) -> (r: Vec<String>)
    requires
        encode_utf8(s@).len() <= usize::MAX,
    ensures
        strings_of(r@) == spec_split(s@, sep@),
{
    let chars = collect_chars(s);
    let sep_chars = collect_chars(sep);
    let offsets = char_byte_offsets(&chars);
    let n = chars.len();
    let k = sep_chars.len();
    let mut out: Vec<String> = Vec::new();
    if k == 0 {
        out.push(String::new());
        let mut i: usize = 0;
        while i < n
            invariant
                chars@ == s@,
                n == s@.len(),
                offsets@.len() == n + 1,
                forall|x: int| 0 <= x <= n ==> #[trigger] offsets@[x] == byte_pos(s@, x),
                i <= n,
                strings_of(out@) == seq![Seq::<char>::empty()] + Seq::new(
                    i as nat,
                    |x: int| seq![s@[x]],
                ),
            decreases n - i,
        {
            let p = piece(s, &chars, &offsets, i, i + 1);
            let ghost before = strings_of(out@);
            out.push(p);
            proof {
                assert(s@.subrange(i as int, i + 1) =~= seq![s@[i as int]]);
                assert(strings_of(out@) =~= before.push(p@));
                assert(strings_of(out@) =~= seq![Seq::<char>::empty()] + Seq::new(
                    (i + 1) as nat,
                    |x: int| seq![s@[x]],
                ));
            }
            i = i + 1;
        }
        out.push(String::new());
        proof {
            assert(Seq::new(n as nat, |x: int| seq![s@[x]]) =~= Seq::new(
                s@.len(),
                |x: int| seq![s@[x]],
            ));
            assert(strings_of(out@) =~= spec_split(s@, sep@));
        }
        return out;
    }
    let mut start: usize = 0;
    loop
        invariant_except_break
            spec_split(s@, sep@) == strings_of(out@) + split_from(s@, sep@, start as int),
        invariant
            chars@ == s@,
            sep_chars@ == sep@,
            n == s@.len(),
            k == sep@.len(),
            k > 0,
            offsets@.len() == n + 1,
            forall|x: int| 0 <= x <= n ==> #[trigger] offsets@[x] == byte_pos(s@, x),
            start <= n,
        ensures
            spec_split(s@, sep@) == strings_of(out@),
        decreases n + 1 - start,
    {
        proof {
            lemma_find_from(s@, sep@, start as int);
        }
        match find_sep(&chars, &sep_chars, start) {
            None => {
                let p = piece(s, &chars, &offsets, start, n);
                let ghost before = strings_of(out@);
                out.push(p);
                proof {
                    assert(strings_of(out@) =~= before.push(p@));
                    assert(before + seq![p@] =~= before.push(p@));
                }
                break;
            },
            Some(m) => {
                let p = piece(s, &chars, &offsets, start, m);
                let ghost before = strings_of(out@);
                out.push(p);
                proof {
                    assert(strings_of(out@) =~= before.push(p@));
                    let rest = split_from(s@, sep@, m + k);
                    assert(before + (seq![p@] + rest) =~= before.push(p@) + rest);
                }
                start = m + k;
            },
        }
    }
    out
}

/// `(string-split s [separator])`: the pieces of `s` between the occurrences of `separator`
/// (by default a newline).
pub fn string_split(args: &[BuiltinArg]) -> (r: Result<Vec<String>, VmError>)
    requires
        forall|i: int|
            0 <= i < args@.len() ==> (#[trigger] arg_text(args@[i]) matches Some(t)
                ==> encode_utf8(t).len() <= usize::MAX),
    ensures
        args@.len() != 1 && args@.len() != 2 ==> (r matches Err(e) && is_arity_error(
            e,
            "string-split"@,
            if args@.len() == 0 {
                1
            } else {
                2
            },
            args@.len() as usize,
        )),
        args@.len() == 1 || args@.len() == 2 ==> match arg_text(args@[0]) {
            None => r == Err::<Vec<String>, VmError>(
                type_error("string-split arg(idx = 0)", STRING_TYPE_NAME, args@[0]),
            ),
            Some(text) => if args@.len() == 1 {
                r matches Ok(v) && strings_of(v@) == spec_split(text, seq!['\n'])
            } else {
                match arg_text(args@[1]) {
                    None => r == Err::<Vec<String>, VmError>(
                        type_error("string-split arg(idx = 1)", STRING_TYPE_NAME, args@[1]),
                    ),
                    Some(sep) => r matches Ok(v) && strings_of(v@) == spec_split(text, sep),
                }
            },
        },
{
    let n = args.len();
    if n != 1 && n != 2 {
        return Err(new_arity_error("string-split", if n == 0 { 1 } else { 2 }, n));
    }
    let text = match &args[0].value {
        ArgValue::Str(s) => s.as_str(),
        _ => {
            return Err(new_type_error("string-split arg(idx = 0)", STRING_TYPE_NAME, &args[0]));
        },
    };
    proof {
        assert(arg_text(args@[0]) == Some(text@));
        assert(encode_utf8(text@).len() <= usize::MAX);
    }
    if n == 1 {
        proof {
            reveal_strlit("\n");
            assert("\n"@ =~= seq!['\n']);
        }
        return Ok(split_str(text, "\n"));
    }
    match &args[1].value {
        ArgValue::Str(sep) => Ok(split_str(text, sep.as_str())),
        _ => Err(new_type_error("string-split arg(idx = 1)", STRING_TYPE_NAME, &args[1])),
    }
}

proof fn lemma_join_prepend(a: Seq<char>, rest: Seq<Seq<char>>, sep: Seq<char>)
    requires
        rest.len() > 0,
    ensures
        join(seq![a] + rest, sep) == a + sep + join(rest, sep),
    decreases rest.len(),
{
    let all = seq![a] + rest;
    assert(join(all, sep) == join(all.drop_last(), sep) + sep + all.last());
    if rest.len() == 1 {
        assert(all.drop_last() =~= seq![a]);
        assert(all.last() == rest[0]);
        assert(join(seq![a], sep) == a);
        assert(join(rest, sep) == rest[0]);
    } else {
        assert(all.drop_last() =~= seq![a] + rest.drop_last());
        assert(all.last() == rest.last());
        assert(join(rest, sep) == join(rest.drop_last(), sep) + sep + rest.last());
        lemma_join_prepend(a, rest.drop_last(), sep);
        assert(a + sep + join(rest.drop_last(), sep) + sep + rest.last() =~= a + sep + (join(
            rest.drop_last(),
            sep,
        ) + sep + rest.last()));
    }
}

proof fn lemma_split_from_join(s: Seq<char>, sep: Seq<char>, i: int)
    requires
        sep.len() > 0,
        0 <= i <= s.len(),
    ensures
        split_from(s, sep, i).len() > 0,
        join(split_from(s, sep, i), sep) == s.subrange(i, s.len() as int),
    decreases s.len() + 1 - i,
{
    lemma_find_from(s, sep, i);
    match find_from(s, sep, i) {
        None => {},
        Some(m) => {
            let k = sep.len();
            lemma_split_from_join(s, sep, m + k);
            let rest = split_from(s, sep, m + k);
            lemma_join_prepend(s.subrange(i, m), rest, sep);
            assert(s.subrange(i, m) + sep + s.subrange(m + k, s.len() as int) =~= s.subrange(
                i,
                s.len() as int,
            ));
        },
    }
}

proof fn lemma_join_chars(s: Seq<char>, n: int)
    requires
        0 <= n <= s.len(),
    ensures
        join(seq![Seq::<char>::empty()] + Seq::new(n as nat, |k: int| seq![s[k]]), Seq::empty())
            == s.take(n),
    decreases n,
{
    let x = seq![Seq::<char>::empty()] + Seq::new(n as nat, |k: int| seq![s[k]]);
    if n == 0 {
        assert(x =~= seq![Seq::<char>::empty()]);
        assert(s.take(0) =~= Seq::<char>::empty());
    } else {
        lemma_join_chars(s, n - 1);
        assert(x.drop_last() =~= seq![Seq::<char>::empty()] + Seq::new(
            (n - 1) as nat,
            |k: int| seq![s[k]],
        ));
        assert(x.last() == seq![s[n - 1]]);
        assert(s.take(n - 1) + Seq::<char>::empty() + seq![s[n - 1]] =~= s.take(n));
    }
}

/// Joining the pieces of a split with the separator gives back the string.
pub proof fn lemma_split_then_join(s: Seq<char>, sep: Seq<char>)
    ensures
        join(spec_split(s, sep), sep) == s,
{
    if sep.len() == 0 {
        let x = seq![Seq::<char>::empty()] + Seq::new(s.len(), |k: int| seq![s[k]]);
        lemma_join_chars(s, s.len() as int);
        assert(sep =~= Seq::<char>::empty());
        assert(x =~= seq![Seq::<char>::empty()] + Seq::new(
            (s.len() as int) as nat,
            |k: int| seq![s[k]],
        ));
        assert(spec_split(s, sep) =~= x.push(Seq::<char>::empty()));
        let y = x.push(Seq::<char>::empty());
        assert(y.drop_last() =~= x);
        assert(join(y, sep) == join(x, sep) + sep + Seq::<char>::empty());
        assert(s.take(s.len() as int) =~= s);
        assert(s + sep + Seq::<char>::empty() =~= s);
    } else {
        lemma_split_from_join(s, sep, 0);
        assert(s.subrange(0, s.len() as int) =~= s);
    }
}

} // verus!
