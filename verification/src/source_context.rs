//! Shows the lines of a source that a span touches, each with its line number.
use vstd::prelude::*;
use vstd::string::{StringExecFns, StringSliceAdditionalSpecFns};
use vstd::utf8::*;

use compact_str::CompactString;

use crate::compact::{compact_as_str, compact_chars, compact_default, compact_push};
use crate::formatter::push_decimal;
use crate::span::{spec_overlap, str_slice, Span, SpanWithSource};
use crate::text::{
    byte_pos, char_byte_offsets, collect_chars, lemma_byte_pos_full, lemma_byte_pos_mono,
    lemma_byte_pos_step, lemma_bytes_text_chars, lemma_str_view_bytes,
};

verus! {

/// The index of the first newline at or after `i`, or the length of `s` when there is none.
pub open spec fn line_end(s: Seq<char>, i: int) -> int
    decreases s.len() - i,
{
    if i < 0 || i >= s.len() {
        s.len() as int
    } else if s[i] == '\n' {
        i
    } else {
        line_end(s, i + 1)
    }
}

pub proof fn lemma_line_end(s: Seq<char>, i: int)
    requires
        0 <= i <= s.len(),
    ensures
        i <= line_end(s, i) <= s.len(),
        line_end(s, i) < s.len() ==> s[line_end(s, i)] == '\n',
        forall|k: int| i <= k < line_end(s, i) ==> s[k] != '\n',
    decreases s.len() - i,
{
    if i < s.len() && s[i] != '\n' {
        lemma_line_end(s, i + 1);
    }
}

/// The start of the last line, reached from the line that starts at `i`.
pub open spec fn last_line_start(s: Seq<char>, i: int) -> int
    decreases s.len() - i,
{
    if 0 <= i <= s.len() && line_end(s, i) < s.len() {
        proof {
            lemma_line_end(s, i);
        }
        last_line_start(s, line_end(s, i) + 1)
    } else {
        i
    }
}

/// The byte window of the line that starts at character `i`: the line and the newline after
/// it (one byte past the end of `s` for the last line).
pub open spec fn line_window(s: Seq<char>, i: int) -> Span {
    Span { start: byte_pos(s, i) as u32, end: (byte_pos(s, line_end(s, i)) + 1) as u32 }
}

/// The character of a decimal digit.
pub open spec fn digit_char(d: nat) -> char {
    (48 + d) as char
}

/// The decimal digits of `n`.
pub open spec fn decimal(n: nat) -> Seq<char>
    decreases n,
{
    if n < 10 {
        seq![digit_char(n)]
    } else {
        decimal(n / 10).push(digit_char(n % 10))
    }
}

/// `t` right-aligned in a field of three characters.
pub open spec fn pad3(t: Seq<char>) -> Seq<char> {
    if t.len() >= 3 {
        t
    } else {
        Seq::new((3 - t.len()) as nat, |_i: int| ' ') + t
    }
}

/// The lines shown for `span`, from the line that starts at `i`, which is line `k` (from 0).
/// Each line whose window overlaps `span` is shown as its number, `": "` and its text with its
/// newline.
pub open spec fn context_from(s: Seq<char>, i: int, k: int, span: Span) -> Seq<char>
    decreases s.len() - i,
{
    if 0 <= i <= s.len() {
        let j = line_end(s, i);
        let text_end = if j < s.len() {
            j + 1
        } else {
            j
        };
        let shown = spec_overlap(line_window(s, i), span) is Some;
        let text = if shown {
            pad3(decimal((k + 1) as nat)) + ": "@ + s.subrange(i, text_end)
        } else {
            Seq::empty()
        };
        if j < s.len() {
            proof {
                lemma_line_end(s, i);
            }
            text + context_from(s, j + 1, k + 1, span)
        } else {
            text
        }
    } else {
        Seq::empty()
    }
}

/// The number of decimal digits of `n`.
fn decimal_len(n: u64) -> (r: u64)
    ensures
        r == decimal(n as nat).len(),
        1 <= r <= n + 1,
    decreases n,
{
    if n < 10 {
        1
    } else {
        let r = decimal_len(n / 10) + 1;
        proof {
            assert(decimal(n as nat) == decimal((n / 10) as nat).push(digit_char((n % 10) as nat)));
        }
        r
    }
}

/// The decimal digits of `n`, right-aligned in a field of three characters.
fn line_number_text(n: u64) -> (r: CompactString)
    ensures
        compact_chars(r) == pad3(decimal(n as nat)),
{
    let len = decimal_len(n);
    let mut out = compact_default();
    let mut i: u64 = len;
    while i < 3
        invariant
            len <= i <= 3 || (len >= 3 && i == len),
            len == decimal(n as nat).len(),
            compact_chars(out) == Seq::new((i - len) as nat, |_j: int| ' '),
        decreases 3 - i,
    {
        compact_push(&mut out, ' ');
        proof {
            assert(compact_chars(out) =~= Seq::new((i + 1 - len) as nat, |_j: int| ' '));
        }
        i = i + 1;
    }
    push_decimal(&mut out, n);
    proof {
        if len >= 3 {
            assert(compact_chars(out) =~= decimal(n as nat));
        } else {
            assert(compact_chars(out) =~= Seq::new((3 - len) as nat, |_j: int| ' ') + decimal(n as nat));
        }
    }
    out
}

impl<'a> SpanWithSource<&'a str> {
    /// The source lines that the span touches, under a `Source:` heading, each prefixed with
    /// its line number (from 1) right-aligned in three columns.
    ///
    /// The last line's window reaches one byte past the end of the source; a span that
    /// touches it is not accepted.
    pub fn contextual_formatter(&self) -> (r: String)
        requires
            self.src.spec_bytes().len() < u32::MAX,
            spec_overlap(line_window(self.src@, last_line_start(self.src@, 0)), self.span) is None,
        ensures
            r@ == "Source:\n"@ + context_from(self.src@, 0, 0, self.span),
    {
        let ghost s = self.src@;
        proof {
            lemma_str_view_bytes(self.src);
            lemma_byte_pos_full(s);
        }
        let chars = collect_chars(self.src);
        let offsets = char_byte_offsets(&chars);
        let mut out = "Source:\n".to_owned();
        let mut i: usize = 0;
        let mut k: usize = 0;
        let ghost mut shown_so_far: Seq<char> = Seq::empty();
        loop
            invariant
                chars@ == s,
                s == self.src@,
                self.src.spec_bytes() == encode_utf8(s),
                encode_utf8(s).len() < u32::MAX,
                byte_pos(s, s.len() as int) == encode_utf8(s).len(),
                offsets@.len() == s.len() + 1,
                forall|x: int| 0 <= x <= s.len() ==> #[trigger] offsets@[x] == byte_pos(s, x),
                i <= s.len(),
                k <= i,
                last_line_start(s, i as int) == last_line_start(s, 0),
                spec_overlap(line_window(s, last_line_start(s, 0)), self.span) is None,
                out@ == "Source:\n"@ + shown_so_far,
                context_from(s, 0, 0, self.span) == shown_so_far + context_from(
                    s,
                    i as int,
                    k as int,
                    self.span,
                ),
            ensures
                out@ == "Source:\n"@ + context_from(s, 0, 0, self.span),
            decreases s.len() - i,
        {
            let mut j: usize = i;
            while j < chars.len() && chars[j] != '\n'
                invariant
                    chars@ == s,
                    i <= j <= s.len(),
                    forall|x: int| i <= x < j ==> s[x] != '\n',
                decreases s.len() - j,
            {
                j = j + 1;
            }
            proof {
                lemma_line_end(s, i as int);
                assert(line_end(s, i as int) == j as int) by {
                    lemma_line_end_at(s, i as int, j as int);
                }
                lemma_byte_pos_mono(s, j as int, s.len() as int);
            }
            let window = Span::new(offsets[i] as u32, (offsets[j] + 1) as u32);
            let shown = window.overlap(self.span).is_some();
            let ghost text: Seq<char> = Seq::empty();
            if shown {
                proof {
                    if j >= s.len() {
                        assert(last_line_start(s, i as int) == i as int);
                    }
                    assert(j < s.len());
                    lemma_byte_pos_step(s, j as int);
                    assert(encode_scalar('\n' as u32).len() == 1);
                    lemma_bytes_text_chars(s, i as int, j + 1);
                }
                let number = line_number_text((k + 1) as u64);
                out.append(compact_as_str(&number));
                out.append(": ");
                out.append(str_slice(self.src, offsets[i], offsets[j + 1]));
                proof {
                    text = pad3(decimal((k + 1) as nat)) + ": "@ + s.subrange(i as int, j + 1);
                }
            }
            proof {
                assert(out@ == "Source:\n"@ + (shown_so_far + text));
                shown_so_far = shown_so_far + text;
            }
            if j >= chars.len() {
                proof {
                    assert(context_from(s, i as int, k as int, self.span) == text);
                    assert(context_from(s, 0, 0, self.span) == shown_so_far);
                }
                break;
            }
            proof {
                assert(context_from(s, i as int, k as int, self.span) == text + context_from(
                    s,
                    j + 1,
                    k + 1,
                    self.span,
                ));
                assert(last_line_start(s, i as int) == last_line_start(s, j + 1));
            }
            i = j + 1;
            k = k + 1;
        }
        out
    }
}

impl<'a> SpanWithSource<&'a str> {
    /// Whether the span touches the window of the source's last line, which reaches one byte past
    /// the end of the source: [`Self::contextual_formatter`] does not accept such a span.
    pub fn touches_last_line(&self) -> (r: bool)
        requires
            self.src.spec_bytes().len() < u32::MAX,
        ensures
            r == (spec_overlap(line_window(self.src@, last_line_start(self.src@, 0)), self.span)
                is Some),
    {
        let ghost s = self.src@;
        proof {
            lemma_str_view_bytes(self.src);
            lemma_byte_pos_full(s);
        }
        let chars = collect_chars(self.src);
        let offsets = char_byte_offsets(&chars);
        let mut i: usize = 0;
        let mut j: usize = 0;
        while j < chars.len()
            invariant
                chars@ == s,
                i <= j <= s.len(),
                last_line_start(s, i as int) == last_line_start(s, 0),
                forall|x: int| i <= x < j ==> s[x] != '\n',
            decreases s.len() - j,
        {
            if chars[j] == '\n' {
                proof {
                    lemma_line_end_at(s, i as int, j as int);
                }
                i = j + 1;
            }
            j = j + 1;
        }
        proof {
            lemma_line_end_at(s, i as int, s.len() as int);
            assert(last_line_start(s, i as int) == i as int);
            lemma_byte_pos_mono(s, i as int, s.len() as int);
        }
        let window = Span::new(offsets[i] as u32, (offsets[chars.len()] + 1) as u32);
        window.overlap(self.span).is_some()
    }
}

/// The first newline at or after `i` is at `j`.
proof fn lemma_line_end_at(s: Seq<char>, i: int, j: int)
    requires
        0 <= i <= j <= s.len(),
        forall|x: int| i <= x < j ==> s[x] != '\n',
        j < s.len() ==> s[j] == '\n',
    ensures
        line_end(s, i) == j,
    decreases j - i,
{
    if i < j {
        lemma_line_end_at(s, i + 1, j);
    }
}

} // verus!
