//! The text of a value. Floats and custom values are written by the host, so the text comes as
//! pieces: text, and the floats and custom values to write between.
use compact_str::CompactString;
use vstd::prelude::*;

use crate::compact::{compact_as_str, compact_chars, compact_new, compact_push, compact_push_str};
use crate::memory::{field_values, CustomSlot, MemoryManager, UnsafeVal};
use crate::object_store::ValId;
use crate::source_context::{decimal, digit_char};
use crate::symbol::Symbol;

verus! {

/// A piece of the text of a value.
#[derive(Debug)]
pub enum FormatPiece {
    /// Text as it is.
    Text(CompactString),
    /// A float, by the bits of its IEEE 754 representation, to be written in its shortest form.
    Float(u64),
    /// A custom value, to be written as its type displays it.
    Custom(ValId<CustomSlot>),
}

/// The mathematical value of a [`FormatPiece`].
pub enum SpecPiece {
    Text(Seq<char>),
    Float(u64),
    Custom(u32),
}

impl FormatPiece {
    pub open spec fn spec_view(self) -> SpecPiece {
        match self {
            FormatPiece::Text(t) => SpecPiece::Text(compact_chars(t)),
            FormatPiece::Float(bits) => SpecPiece::Float(bits),
            FormatPiece::Custom(id) => SpecPiece::Custom(id.idx),
        }
    }
}

/// The values of a sequence of pieces.
pub open spec fn pieces_view(v: Seq<FormatPiece>) -> Seq<SpecPiece> {
    Seq::new(v.len(), |i: int| v[i].spec_view())
}

/// The decimal text of an integer, with a minus sign when it is negative.
pub open spec fn int_text(x: i64) -> Seq<char> {
    if x < 0 {
        seq!['-'] + decimal((-x) as nat)
    } else {
        decimal(x as nat)
    }
}

/// What `format!("{:?}", s)` gives for the text `s`: the text in double quotes, with the
/// characters that need it escaped.
pub uninterp spec fn debug_text(s: Seq<char>) -> Seq<char>;

/// `format!("{:?}", s)`: the text quoted and escaped as `Debug` writes it. The escaping rules
/// follow Unicode's tables, so they are named, not stated.
#[verifier::external_body]
fn quoted_text(s: &str) -> (r: CompactString)
    ensures
        compact_chars(r) == debug_text(s@),
{
    CompactString::from(format!("{s:?}"))
}

/// Appends the decimal digits of `n`.
pub(crate) fn push_decimal(out: &mut CompactString, n: u64)
    ensures
        compact_chars(*final(out)) == compact_chars(*old(out)) + decimal(n as nat),
    decreases n,
{
    if n >= 10 {
        push_decimal(out, n / 10);
    }
    let d = (n % 10) as u8;
    let c = (48u8 + d) as char;
    proof {
        assert(c == digit_char((n % 10) as nat));
    }
    compact_push(out, c);
    proof {
        if n >= 10 {
            assert(decimal(n as nat) == decimal((n / 10) as nat).push(digit_char((n % 10) as nat)));
        } else {
            assert(decimal(n as nat) == seq![digit_char(n as nat)]);
        }
    }
}

/// The decimal text of an integer.
pub fn int_to_text(x: i64) -> (r: CompactString)
    ensures
        compact_chars(r) == int_text(x),
{
    let mut out = compact_new("");
    proof {
        reveal_strlit("");
    }
    if x < 0 {
        compact_push(&mut out, '-');
        let magnitude = (0i128 - x as i128) as u64;
        push_decimal(&mut out, magnitude);
    } else {
        push_decimal(&mut out, x as u64);
    }
    proof {
        assert(""@ =~= Seq::<char>::empty());
    }
    out
}

/// The name of a function for display: `_` when it has none.
pub open spec fn function_name(name: Seq<char>) -> Seq<char> {
    if name.len() == 0 {
        "_"@
    } else {
        name
    }
}

/// Formatting `v` needs no more than `depth` nested values, and every box, struct and custom
/// value it holds is there. A value that holds itself has no such depth.
pub open spec fn formattable<'a, C>(m: MemoryManager<'a, C>, v: UnsafeVal, depth: nat) -> bool
    decreases depth, 0int, 0int,
{
    depth > 0 && match v {
        UnsafeVal::MutableBox(id) => m.boxes().live(id.idx as int) && formattable(
            m,
            m.boxes().object(id.idx as int),
            (depth - 1) as nat,
        ),
        UnsafeVal::List(id) => all_formattable(
            m,
            if m.lists().live(id.idx as int) {
                m.lists().object(id.idx as int)@
            } else {
                Seq::empty()
            },
            (depth - 1) as nat,
        ),
        UnsafeVal::Struct(id) => m.structs().live(id.idx as int) && all_formattable(
            m,
            field_values(m.structs().object(id.idx as int).fields()),
            (depth - 1) as nat,
        ),
        UnsafeVal::Custom(id) => m.customs().live(id.idx as int),
        _ => true,
    }
}

/// Every value of `items` can be formatted within `depth` nested values.
pub open spec fn all_formattable<'a, C>(m: MemoryManager<'a, C>, items: Seq<UnsafeVal>, depth: nat) -> bool
    decreases depth, 1int, items.len(),
{
    items.len() == 0 || (all_formattable(m, items.drop_last(), depth) && formattable(
        m,
        items.last(),
        depth,
    ))
}

proof fn lemma_all_formattable<'a, C>(m: MemoryManager<'a, C>, items: Seq<UnsafeVal>, depth: nat)
    ensures
        all_formattable(m, items, depth) <==> forall|x: int|
            0 <= x < items.len() ==> formattable(m, #[trigger] items[x], depth),
    decreases items.len(),
{
    if items.len() > 0 {
        lemma_all_formattable(m, items.drop_last(), depth);
        assert forall|x: int| 0 <= x < items.len() - 1 implies #[trigger] items.drop_last()[x] == items[x] by {}
        if forall|x: int| 0 <= x < items.len() ==> formattable(m, #[trigger] items[x], depth) {
            assert forall|x: int| 0 <= x < items.drop_last().len() implies formattable(m, #[trigger] items.drop_last()[x], depth) by {
                assert(items.drop_last()[x] == items[x]);
            }
            assert(formattable(m, items[items.len() - 1], depth));
        }
        if all_formattable(m, items, depth) {
            assert forall|x: int| 0 <= x < items.len() implies formattable(m, #[trigger] items[x], depth) by {
                if x < items.len() - 1 {
                    assert(items.drop_last()[x] == items[x]);
                }
            }
        }
    }
}

/// The text of the string `id`: empty when it is not there.
pub open spec fn string_text<'a, C>(m: MemoryManager<'a, C>, id: u32) -> Seq<char> {
    if m.strings().live(id as int) {
        compact_chars(m.strings().object(id as int))
    } else {
        Seq::empty()
    }
}

/// The text of a symbol: its interned string, empty when it is not interned.
pub open spec fn symbol_text<'a, C>(m: MemoryManager<'a, C>, s: Symbol) -> Seq<char> {
    if s.vm_id == m.spec_vm_id() && s.idx < m.symbols().len() {
        m.symbols()[s.idx as int]
    } else {
        Seq::empty()
    }
}

/// The pieces of the text of `v`, strings in quotes when `quoted`; the values that `v` holds are
/// written with their strings in quotes. `depth` bounds the nesting (see [`formattable`]).
pub open spec fn spec_format<'a, C>(m: MemoryManager<'a, C>, v: UnsafeVal, quoted: bool, depth: nat) -> Seq<SpecPiece>
    decreases depth, 0int, 0int,
{
    if depth == 0 {
        Seq::empty()
    } else {
        match v {
            UnsafeVal::Void => seq![SpecPiece::Text("<void>"@)],
            UnsafeVal::Bool(b) => seq![SpecPiece::Text(if b { "true"@ } else { "false"@ })],
            UnsafeVal::Int(x) => seq![SpecPiece::Text(int_text(x))],
            UnsafeVal::Float(bits) => seq![SpecPiece::Float(bits)],
            UnsafeVal::Symbol(s) => seq![SpecPiece::Text("'"@ + symbol_text(m, s))],
            UnsafeVal::String(id) => seq![SpecPiece::Text(if quoted {
                debug_text(string_text(m, id.idx))
            } else {
                string_text(m, id.idx)
            })],
            UnsafeVal::MutableBox(id) => seq![SpecPiece::Text("box<"@)] + spec_format(
                m,
                m.boxes().object(id.idx as int),
                true,
                (depth - 1) as nat,
            ) + seq![SpecPiece::Text(">"@)],
            UnsafeVal::List(id) => seq![SpecPiece::Text("("@)] + format_items(
                m,
                if m.lists().live(id.idx as int) {
                    m.lists().object(id.idx as int)@
                } else {
                    Seq::empty()
                },
                (depth - 1) as nat,
            ) + seq![SpecPiece::Text(")"@)],
            UnsafeVal::Struct(id) => seq![SpecPiece::Text("(struct"@)] + format_fields(
                m,
                m.structs().object(id.idx as int).fields(),
                (depth - 1) as nat,
            ) + seq![SpecPiece::Text(")"@)],
            UnsafeVal::ByteCodeFunction(id) => seq![SpecPiece::Text("<function "@ + (if m.bytecodes().live(id.idx as int) {
                function_name(m.bytecodes().object(id.idx as int).code.name@)
            } else {
                "_"@
            }) + ">"@)],
            UnsafeVal::NativeFunction(_) => seq![SpecPiece::Text("<native-function>"@)],
            UnsafeVal::Custom(id) => seq![SpecPiece::Custom(id.idx)],
        }
    }
}

/// The pieces of the items of a list, quoted and separated by spaces.
pub open spec fn format_items<'a, C>(m: MemoryManager<'a, C>, items: Seq<UnsafeVal>, depth: nat) -> Seq<SpecPiece>
    decreases depth, 1int, items.len(),
{
    if items.len() == 0 {
        Seq::empty()
    } else {
        format_items(m, items.drop_last(), depth) + (if items.len() > 1 {
            seq![SpecPiece::Text(" "@)]
        } else {
            Seq::empty()
        }) + spec_format(m, items.last(), true, depth)
    }
}

/// The pieces of the fields of a struct: each as a space, a quote, its name, a space and its
/// value, quoted.
pub open spec fn format_fields<'a, C>(m: MemoryManager<'a, C>, fields: Seq<(Symbol, UnsafeVal)>, depth: nat) -> Seq<SpecPiece>
    decreases depth, 1int, fields.len(),
{
    if fields.len() == 0 {
        Seq::empty()
    } else {
        format_fields(m, fields.drop_last(), depth) + seq![SpecPiece::Text(" '"@ + symbol_text(m, fields.last().0) + " "@)]
            + spec_format(m, fields.last().1, true, depth)
    }
}

/// A depth that formatting `v` does not exceed, when there is one.
pub open spec fn format_depth<'a, C>(m: MemoryManager<'a, C>, v: UnsafeVal) -> nat {
    choose|d: nat| formattable(m, v, d)
}

/// Formats a value for display.
pub struct ValFormatter<'m, 'a, C> {
    vm: &'m MemoryManager<'a, C>,
    val: UnsafeVal,
    quote_strings: bool,
}

impl<'m, 'a, C> ValFormatter<'m, 'a, C> {
    pub closed spec fn memory(&self) -> MemoryManager<'a, C> {
        *self.vm
    }

    pub closed spec fn value(&self) -> UnsafeVal {
        self.val
    }

    pub closed spec fn quoted(&self) -> bool {
        self.quote_strings
    }

    /// Create a new value formatter.
    pub fn new(vm: &'m MemoryManager<'a, C>, v: UnsafeVal) -> (r: ValFormatter<'m, 'a, C>)
        ensures
            r.memory() == *vm,
            r.value() == v,
            !r.quoted(),
    {
        ValFormatter { vm, val: v, quote_strings: false }
    }

    /// Create a new value formatter. Strings are written in quotes. For example, a string
    /// containing the string test-string will print to "test-string".
    pub fn new_quoted(vm: &'m MemoryManager<'a, C>, v: UnsafeVal) -> (r: ValFormatter<'m, 'a, C>)
        ensures
            r.memory() == *vm,
            r.value() == v,
            r.quoted(),
    {
        ValFormatter { vm, val: v, quote_strings: true }
    }

    /// The pieces of the text of the value.
    pub fn pieces(&self) -> (r: Vec<FormatPiece>)
        requires
            self.memory().wf(),
            exists|d: nat| formattable(self.memory(), self.value(), d),
        ensures
            pieces_view(r@) == spec_format(
                self.memory(),
                self.value(),
                self.quoted(),
                format_depth(self.memory(), self.value()),
            ),
    {
        let ghost d = format_depth(*self.vm, self.val);
        let mut out: Vec<FormatPiece> = Vec::new();
        format_into(self.vm, self.val, self.quote_strings, &mut out, Ghost(d));
        proof {
            assert(pieces_view(Seq::<FormatPiece>::empty()) =~= Seq::<SpecPiece>::empty());
            assert(Seq::<SpecPiece>::empty() + spec_format(*self.vm, self.val, self.quote_strings, d) =~= spec_format(*self.vm, self.val, self.quote_strings, d));
        }
        out
    }
}

/// Appends a piece of text.
fn push_text(out: &mut Vec<FormatPiece>, text: CompactString)
    ensures
        pieces_view(final(out)@) == pieces_view(old(out)@).push(SpecPiece::Text(compact_chars(text))),
{
    out.push(FormatPiece::Text(text));
    proof {
        assert(pieces_view(out@) =~= pieces_view(old(out)@).push(SpecPiece::Text(compact_chars(text))));
    }
}

/// Appends the pieces of the text of `v`.
fn format_into<'a, C>(
    m: &MemoryManager<'a, C>,
    v: UnsafeVal,
    quoted: bool,
    out: &mut Vec<FormatPiece>,
    Ghost(depth): Ghost<nat>,
)
    requires
        m.wf(),
        formattable(*m, v, depth),
    ensures
        pieces_view(final(out)@) == pieces_view(old(out)@) + spec_format(*m, v, quoted, depth),
    decreases depth, 0int, 0int,
{
    let ghost start = pieces_view(out@);
    match v {
        UnsafeVal::Void => {
            proof {
                reveal_strlit("<void>");
            }
            push_text(out, compact_new("<void>"));
        },
        UnsafeVal::Bool(b) => {
            proof {
                reveal_strlit("true");
                reveal_strlit("false");
            }
            push_text(out, compact_new(if b { "true" } else { "false" }));
        },
        UnsafeVal::Int(x) => {
            push_text(out, int_to_text(x));
        },
        UnsafeVal::Float(bits) => {
            out.push(FormatPiece::Float(bits));
            proof {
                assert(pieces_view(out@) =~= start.push(SpecPiece::Float(bits)));
            }
        },
        UnsafeVal::Symbol(s) => {
            let mut t = compact_new("'");
            match m.symbol_to_str(s) {
                Some(name) => compact_push_str(&mut t, name),
                None => {},
            }
            proof {
                reveal_strlit("'");
                assert(compact_chars(t) =~= "'"@ + symbol_text(*m, s));
            }
            push_text(out, t);
        },
        UnsafeVal::String(id) => {
            let text = m.get_str(id);
            if quoted {
                push_text(out, quoted_text(text));
            } else {
                push_text(out, compact_new(text));
            }
        },
        UnsafeVal::MutableBox(id) => {
            proof {
                reveal_strlit("box<");
                reveal_strlit(">");
            }
            push_text(out, compact_new("box<"));
            let inner = *m.get_mutable_box(id);
            format_into(m, inner, true, out, Ghost((depth - 1) as nat));
            push_text(out, compact_new(">"));
            proof {
                let f = spec_format(*m, inner, true, (depth - 1) as nat);
                assert(pieces_view(out@) =~= start + (seq![SpecPiece::Text("box<"@)] + f + seq![SpecPiece::Text(">"@)]));
            }
        },
        UnsafeVal::List(id) => {
            proof {
                reveal_strlit("(");
                reveal_strlit(")");
                reveal_strlit(" ");
            }
            push_text(out, compact_new("("));
            let items = m.get_list(id);
            let ghost all = items@;
            let ghost d = (depth - 1) as nat;
            let mut i: usize = 0;
            proof {
                assert(all.take(0) =~= Seq::<UnsafeVal>::empty());
                lemma_all_formattable(*m, all, d);
            }
            while i < items.len()
                invariant
                    i <= all.len(),
                    all == items@,
                    m.wf(),
                    depth > 0,
                    d == depth - 1,
                    forall|x: int| 0 <= x < all.len() ==> formattable(*m, #[trigger] all[x], d),
                    pieces_view(out@) == start + seq![SpecPiece::Text("("@)] + format_items(*m, all.take(i as int), d),
                decreases all.len() - i,
            {
                proof {
                    assert(all.take(i + 1).drop_last() =~= all.take(i as int));
                    assert(all.take(i + 1).last() == all[i as int]);
                }
                if i > 0 {
                    push_text(out, compact_new(" "));
                }
                let ghost before = pieces_view(out@);
                format_into(m, items[i], true, out, Ghost(d));
                proof {
                    let sep = if i + 1 > 1 { seq![SpecPiece::Text(" "@)] } else { Seq::<SpecPiece>::empty() };
                    assert(format_items(*m, all.take(i + 1), d) == format_items(*m, all.take(i as int), d) + sep + spec_format(*m, all[i as int], true, d));
                    assert(pieces_view(out@) =~= start + seq![SpecPiece::Text("("@)] + format_items(*m, all.take(i + 1), d));
                }
                i = i + 1;
            }
            push_text(out, compact_new(")"));
            proof {
                assert(all.take(i as int) =~= all);
                assert(pieces_view(out@) =~= start + (seq![SpecPiece::Text("("@)] + format_items(*m, all, d) + seq![SpecPiece::Text(")"@)]));
            }
        },
        UnsafeVal::Struct(id) => {
            proof {
                reveal_strlit("(struct");
                reveal_strlit(")");
                reveal_strlit(" '");
                reveal_strlit(" ");
            }
            push_text(out, compact_new("(struct"));
            let fields = m.get_struct(id).iter();
            let ghost all = fields@;
            let ghost d = (depth - 1) as nat;
            let mut i: usize = 0;
            proof {
                assert(all.take(0) =~= Seq::<(Symbol, UnsafeVal)>::empty());
                lemma_all_formattable(*m, field_values(all), d);
                assert forall|x: int| 0 <= x < all.len() implies formattable(*m, #[trigger] all[x].1, d) by {
                    assert(field_values(all)[x] == all[x].1);
                }
            }
            while i < fields.len()
                invariant
                    i <= all.len(),
                    all == fields@,
                    m.wf(),
                    depth > 0,
                    d == depth - 1,
                    forall|x: int| 0 <= x < all.len() ==> formattable(*m, #[trigger] all[x].1, d),
                    pieces_view(out@) == start + seq![SpecPiece::Text("(struct"@)] + format_fields(*m, all.take(i as int), d),
                decreases all.len() - i,
            {
                proof {
                    assert(all.take(i + 1).drop_last() =~= all.take(i as int));
                    assert(all.take(i + 1).last() == all[i as int]);
                }
                let (name, val) = fields[i];
                let mut t = compact_new(" '");
                match m.symbol_to_str(name) {
                    Some(text) => compact_push_str(&mut t, text),
                    None => {},
                }
                compact_push_str(&mut t, " ");
                proof {
                    assert(compact_chars(t) =~= " '"@ + symbol_text(*m, name) + " "@);
                }
                push_text(out, t);
                format_into(m, val, true, out, Ghost(d));
                proof {
                    assert(pieces_view(out@) =~= start + seq![SpecPiece::Text("(struct"@)] + format_fields(*m, all.take(i + 1), d));
                }
                i = i + 1;
            }
            push_text(out, compact_new(")"));
            proof {
                assert(all.take(i as int) =~= all);
                assert(pieces_view(out@) =~= start + (seq![SpecPiece::Text("(struct"@)] + format_fields(*m, all, d) + seq![SpecPiece::Text(")"@)]));
            }
        },
        UnsafeVal::ByteCodeFunction(id) => {
            proof {
                reveal_strlit("<function ");
                reveal_strlit("_");
                reveal_strlit(">");
            }
            let mut t = compact_new("<function ");
            match m.get_bytecode(id) {
                Some(bc) => {
                    if bc.code.name.is_empty() {
                        compact_push_str(&mut t, "_");
                    } else {
                        compact_push_str(&mut t, bc.code.name);
                    }
                },
                None => compact_push_str(&mut t, "_"),
            }
            compact_push_str(&mut t, ">");
            proof {
                let name = if m.bytecodes().live(id.idx as int) {
                    function_name(m.bytecodes().object(id.idx as int).code.name@)
                } else {
                    "_"@
                };
                assert(compact_chars(t) =~= "<function "@ + name + ">"@);
            }
            push_text(out, t);
        },
        UnsafeVal::NativeFunction(_) => {
            proof {
                reveal_strlit("<native-function>");
            }
            push_text(out, compact_new("<native-function>"));
        },
        UnsafeVal::Custom(id) => {
            out.push(FormatPiece::Custom(id));
            proof {
                assert(pieces_view(out@) =~= start.push(SpecPiece::Custom(id.idx)));
            }
        },
    }
}


/// Whether `v` can be formatted within `depth` nested values (see [`formattable`]).
fn formattable_within<'a, C>(m: &MemoryManager<'a, C>, v: UnsafeVal, depth: u64) -> (r: bool)
    requires
        m.wf(),
    ensures
        r == formattable(*m, v, depth as nat),
    decreases depth,
{
    if depth == 0 {
        return false;
    }
    match v {
        UnsafeVal::MutableBox(id) => {
            if !m.box_exists(id) {
                return false;
            }
            formattable_within(m, *m.get_mutable_box(id), depth - 1)
        },
        UnsafeVal::List(id) => {
            let items = m.get_list(id);
            let ghost all = items@;
            let mut i: usize = 0;
            proof {
                assert(all.take(0) =~= Seq::<UnsafeVal>::empty());
            }
            while i < items.len()
                invariant
                    i <= all.len(),
                    all == items@,
                    m.wf(),
                    depth > 0,
                    v == UnsafeVal::List(id),
                    all == (if m.lists().live(id.idx as int) {
                        m.lists().object(id.idx as int)@
                    } else {
                        Seq::empty()
                    }),
                    all_formattable(*m, all.take(i as int), (depth - 1) as nat),
                decreases all.len() - i,
            {
                proof {
                    assert(all.take(i + 1).drop_last() =~= all.take(i as int));
                    assert(all.take(i + 1).last() == all[i as int]);
                }
                if !formattable_within(m, items[i], depth - 1) {
                    proof {
                        lemma_all_formattable(*m, all, (depth - 1) as nat);
                        assert(!formattable(*m, all[i as int], (depth - 1) as nat));
                        assert(!all_formattable(*m, all, (depth - 1) as nat));
                        assert(((depth as nat) - 1) as nat == (depth - 1) as nat);
                        assert(!formattable(*m, v, depth as nat));
                    }
                    return false;
                }
                i = i + 1;
            }
            proof {
                assert(all.take(i as int) =~= all);
            }
            true
        },
        UnsafeVal::Struct(id) => {
            if !m.struct_exists(id) {
                return false;
            }
            let values = m.get_struct(id).values();
            let ghost all = values@;
            let mut i: usize = 0;
            proof {
                assert(all.take(0) =~= Seq::<UnsafeVal>::empty());
            }
            while i < values.len()
                invariant
                    i <= all.len(),
                    all == values@,
                    m.wf(),
                    depth > 0,
                    v == UnsafeVal::Struct(id),
                    m.structs().live(id.idx as int),
                    all == field_values(m.structs().object(id.idx as int).fields()),
                    all_formattable(*m, all.take(i as int), (depth - 1) as nat),
                decreases all.len() - i,
            {
                proof {
                    assert(all.take(i + 1).drop_last() =~= all.take(i as int));
                    assert(all.take(i + 1).last() == all[i as int]);
                }
                if !formattable_within(m, values[i], depth - 1) {
                    proof {
                        lemma_all_formattable(*m, all, (depth - 1) as nat);
                        assert(!formattable(*m, all[i as int], (depth - 1) as nat));
                        assert(!all_formattable(*m, all, (depth - 1) as nat));
                        assert(((depth as nat) - 1) as nat == (depth - 1) as nat);
                        assert(!formattable(*m, v, depth as nat));
                    }
                    return false;
                }
                i = i + 1;
            }
            proof {
                assert(all.take(i as int) =~= all);
            }
            true
        },
        UnsafeVal::Custom(id) => m.custom_exists(id),
        _ => true,
    }
}

impl<'m, 'a, C> ValFormatter<'m, 'a, C> {
    /// Whether the value can be formatted within `depth` nested values. A value that holds
    /// itself cannot be formatted within any depth; one that does not can be within the number
    /// of boxes, lists and structs plus one.
    pub fn can_format(&self, depth: u64) -> (r: bool)
        requires
            self.memory().wf(),
        ensures
            r == formattable(self.memory(), self.value(), depth as nat),
    {
        formattable_within(self.vm, self.val, depth)
    }
}

} // verus!
