//! Equality of values, as the native function `=` decides it: atoms by value, strings by text,
//! lists item by item and structs field by field, other objects by identity.
use compact_str::CompactString;
use vstd::prelude::*;

use crate::compact::compact_chars;
use crate::memory::{MemoryManager, StructVal, UnsafeVal};
use crate::natives::{is_arity, NativeError};
use crate::object_store::ValId;
use crate::symbol::Symbol;

verus! {

/// The bits of a float that is not a number: all exponent bits set, some fraction bit set.
pub open spec fn is_nan_bits(x: u64) -> bool {
    (x & 0x7FF0_0000_0000_0000u64) == 0x7FF0_0000_0000_0000u64 && (x & 0x000F_FFFF_FFFF_FFFFu64) != 0
}

/// IEEE 754 equality of two floats given by their bits: no NaN equals anything, the two zeros
/// are equal, and any other two floats are equal when their bits are.
pub open spec fn float_bits_eq(a: u64, b: u64) -> bool {
    !is_nan_bits(a) && !is_nan_bits(b) && (a == b || ((a | b) & 0x7FFF_FFFF_FFFF_FFFFu64) == 0)
}

/// Whether the floats with bits `a` and `b` are equal (see [`float_bits_eq`]).
pub fn float_eq(a: u64, b: u64) -> (r: bool)
    ensures
        r == float_bits_eq(a, b),
{
    let nan_a = (a & 0x7FF0_0000_0000_0000u64) == 0x7FF0_0000_0000_0000u64 && (a & 0x000F_FFFF_FFFF_FFFFu64) != 0;
    let nan_b = (b & 0x7FF0_0000_0000_0000u64) == 0x7FF0_0000_0000_0000u64 && (b & 0x000F_FFFF_FFFF_FFFFu64) != 0;
    !nan_a && !nan_b && (a == b || ((a | b) & 0x7FFF_FFFF_FFFF_FFFFu64) == 0)
}

/// Whether `a` and `b` are the same value: the same atom (floats compared as floats) or a
/// handle to the same object.
pub open spec fn same_value(a: UnsafeVal, b: UnsafeVal) -> bool {
    match (a, b) {
        (UnsafeVal::Void, UnsafeVal::Void) => true,
        (UnsafeVal::Bool(x), UnsafeVal::Bool(y)) => x == y,
        (UnsafeVal::Int(x), UnsafeVal::Int(y)) => x == y,
        (UnsafeVal::Float(x), UnsafeVal::Float(y)) => float_bits_eq(x, y),
        (UnsafeVal::Symbol(x), UnsafeVal::Symbol(y)) => x == y,
        (UnsafeVal::String(x), UnsafeVal::String(y)) => x.idx == y.idx,
        (UnsafeVal::MutableBox(x), UnsafeVal::MutableBox(y)) => x.idx == y.idx,
        (UnsafeVal::List(x), UnsafeVal::List(y)) => x.idx == y.idx,
        (UnsafeVal::Struct(x), UnsafeVal::Struct(y)) => x.idx == y.idx,
        (UnsafeVal::ByteCodeFunction(x), UnsafeVal::ByteCodeFunction(y)) => x.idx == y.idx,
        (UnsafeVal::NativeFunction(x), UnsafeVal::NativeFunction(y)) => x == y,
        (UnsafeVal::Custom(x), UnsafeVal::Custom(y)) => x.idx == y.idx,
        _ => false,
    }
}

/// Whether `a` and `b` are the same value (see [`same_value`]).
pub fn is_same_value(a: UnsafeVal, b: UnsafeVal) -> (r: bool)
    ensures
        r == same_value(a, b),
{
    match (a, b) {
        (UnsafeVal::Void, UnsafeVal::Void) => true,
        (UnsafeVal::Bool(x), UnsafeVal::Bool(y)) => x == y,
        (UnsafeVal::Int(x), UnsafeVal::Int(y)) => x == y,
        (UnsafeVal::Float(x), UnsafeVal::Float(y)) => float_eq(x, y),
        (UnsafeVal::Symbol(x), UnsafeVal::Symbol(y)) => x == y,
        (UnsafeVal::String(x), UnsafeVal::String(y)) => x.idx == y.idx,
        (UnsafeVal::MutableBox(x), UnsafeVal::MutableBox(y)) => x.idx == y.idx,
        (UnsafeVal::List(x), UnsafeVal::List(y)) => x.idx == y.idx,
        (UnsafeVal::Struct(x), UnsafeVal::Struct(y)) => x.idx == y.idx,
        (UnsafeVal::ByteCodeFunction(x), UnsafeVal::ByteCodeFunction(y)) => x.idx == y.idx,
        (UnsafeVal::NativeFunction(x), UnsafeVal::NativeFunction(y)) => x == y,
        (UnsafeVal::Custom(x), UnsafeVal::Custom(y)) => x.idx == y.idx,
        _ => false,
    }
}

/// The items of the list `id`; none when it is gone.
pub open spec fn list_items<'a, C>(m: MemoryManager<'a, C>, idx: u32) -> Seq<UnsafeVal> {
    if m.lists().live(idx as int) {
        m.lists().object(idx as int)@
    } else {
        Seq::empty()
    }
}

/// The text of the string `id`; empty when it is gone.
pub open spec fn string_text<'a, C>(m: MemoryManager<'a, C>, idx: u32) -> Seq<char> {
    if m.strings().live(idx as int) {
        compact_chars(m.strings().object(idx as int))
    } else {
        Seq::empty()
    }
}

/// The lists `a` and `b` hold the same values, one for one.
pub open spec fn same_items(a: Seq<UnsafeVal>, b: Seq<UnsafeVal>) -> bool {
    a.len() == b.len() && forall|i: int| 0 <= i < a.len() ==> same_value(#[trigger] a[i], b[i])
}

/// Whether `a` and `b` are equal, looking at most `fuel` lists and structs deep; `None` when
/// that is not deep enough, or when a struct compared is gone. Atoms are equal by value (floats
/// as floats), strings by text, functions by identity. Lists are equal when they hold the same
/// values, or else when they have the same length and their items are equal, compared in order
/// until one pair is not. Structs are equal when they are the same struct, or else when they
/// have as many fields and each field of `a`, in order, has an equal value in `b`. Nothing else
/// is equal to anything.
pub open spec fn spec_equal<'a, C>(m: MemoryManager<'a, C>, a: UnsafeVal, b: UnsafeVal, fuel: nat) -> Option<bool>
    decreases fuel, 0nat,
{
    match (a, b) {
        (UnsafeVal::Void, UnsafeVal::Void) => Some(true),
        (UnsafeVal::Bool(x), UnsafeVal::Bool(y)) => Some(x == y),
        (UnsafeVal::Int(x), UnsafeVal::Int(y)) => Some(x == y),
        (UnsafeVal::Float(x), UnsafeVal::Float(y)) => Some(float_bits_eq(x, y)),
        (UnsafeVal::String(x), UnsafeVal::String(y)) => Some(string_text(m, x.idx) == string_text(m, y.idx)),
        (UnsafeVal::List(x), UnsafeVal::List(y)) => {
            let la = list_items(m, x.idx);
            let lb = list_items(m, y.idx);
            if same_items(la, lb) {
                Some(true)
            } else if la.len() != lb.len() {
                Some(false)
            } else if fuel == 0 {
                None
            } else {
                items_equal(m, la, lb, (fuel - 1) as nat)
            }
        },
        (UnsafeVal::Struct(x), UnsafeVal::Struct(y)) => if x.idx == y.idx {
            Some(true)
        } else if !m.structs().live(x.idx as int) || !m.structs().live(y.idx as int) {
            None
        } else {
            let sa = m.structs().object(x.idx as int);
            let sb = m.structs().object(y.idx as int);
            if sa.fields().len() != sb.fields().len() {
                Some(false)
            } else if fuel == 0 {
                None
            } else {
                fields_equal(m, sa.fields(), sb.view_map(), (fuel - 1) as nat)
            }
        },
        (UnsafeVal::ByteCodeFunction(x), UnsafeVal::ByteCodeFunction(y)) => Some(x.idx == y.idx),
        (UnsafeVal::NativeFunction(x), UnsafeVal::NativeFunction(y)) => Some(x == y),
        _ => Some(false),
    }
}

/// The items of `a` and `b`, of the same length, compared in order until a pair is not equal.
pub open spec fn items_equal<'a, C>(m: MemoryManager<'a, C>, a: Seq<UnsafeVal>, b: Seq<UnsafeVal>, fuel: nat) -> Option<bool>
    decreases fuel, a.len() + 1,
{
    if a.len() == 0 {
        Some(true)
    } else {
        match spec_equal(m, a[0], b[0], fuel) {
            Some(true) => items_equal(m, a.drop_first(), b.drop_first(), fuel),
            other => other,
        }
    }
}

/// The fields of `a`, compared in order with the values of the same names in `b` until one is
/// missing or not equal.
pub open spec fn fields_equal<'a, C>(
    m: MemoryManager<'a, C>,
    a: Seq<(Symbol, UnsafeVal)>,
    b: Map<Symbol, UnsafeVal>,
    fuel: nat,
) -> Option<bool>
    decreases fuel, a.len() + 1,
{
    if a.len() == 0 {
        Some(true)
    } else if !b.contains_key(a[0].0) {
        Some(false)
    } else {
        match spec_equal(m, a[0].1, b[a[0].0], fuel) {
            Some(true) => fields_equal(m, a.drop_first(), b, fuel),
            other => other,
        }
    }
}

/// Whether `a` and `b` are equal, looking at most `fuel` lists and structs deep (see
/// [`spec_equal`]).
pub fn equal_within<'a, C>(m: &MemoryManager<'a, C>, a: UnsafeVal, b: UnsafeVal, fuel: u64) -> (r: Option<bool>)
    requires
        m.wf(),
    ensures
        r == spec_equal(*m, a, b, fuel as nat),
    decreases fuel, 0nat,
{
    match (a, b) {
        (UnsafeVal::Void, UnsafeVal::Void) => Some(true),
        (UnsafeVal::Bool(x), UnsafeVal::Bool(y)) => Some(x == y),
        (UnsafeVal::Int(x), UnsafeVal::Int(y)) => Some(x == y),
        (UnsafeVal::Float(x), UnsafeVal::Float(y)) => Some(float_eq(x, y)),
        (UnsafeVal::String(x), UnsafeVal::String(y)) => Some(crate::text::str_eq(m.get_str(x), m.get_str(y))),
        (UnsafeVal::List(x), UnsafeVal::List(y)) => {
            let la = m.get_list(x);
            let lb = m.get_list(y);
            if la.len() != lb.len() {
                return Some(false);
            }
            let mut i: usize = 0;
            let mut same = true;
            while same && i < la.len()
                invariant
                    la@.len() == lb@.len(),
                    i <= la@.len(),
                    forall|j: int| 0 <= j < i ==> same_value(#[trigger] la@[j], lb@[j]),
                    !same ==> i < la@.len() && !same_value(la@[i as int], lb@[i as int]),
                decreases la@.len() - i, if same { 1nat } else { 0nat },
            {
                if is_same_value(la[i], lb[i]) {
                    i = i + 1;
                } else {
                    same = false;
                }
            }
            if same {
                return Some(true);
            }
            if fuel == 0 {
                return None;
            }
            items_within(m, la, lb, fuel - 1)
        },
        (UnsafeVal::Struct(x), UnsafeVal::Struct(y)) => {
            if x.idx == y.idx {
                return Some(true);
            }
            if !m.struct_exists(x) || !m.struct_exists(y) {
                return None;
            }
            let sa = m.get_struct(x);
            let sb = m.get_struct(y);
            proof {
                assert(m.structs().view_map().contains_key(y.idx as int));
            }
            if sa.len() != sb.len() {
                return Some(false);
            }
            if fuel == 0 {
                return None;
            }
            fields_within(m, sa, sb, fuel - 1)
        },
        (UnsafeVal::ByteCodeFunction(x), UnsafeVal::ByteCodeFunction(y)) => Some(x.idx == y.idx),
        (UnsafeVal::NativeFunction(x), UnsafeVal::NativeFunction(y)) => Some(x == y),
        _ => Some(false),
    }
}

fn items_within<'a, C>(m: &MemoryManager<'a, C>, la: &Vec<UnsafeVal>, lb: &Vec<UnsafeVal>, fuel: u64) -> (r: Option<bool>)
    requires
        m.wf(),
        la@.len() == lb@.len(),
    ensures
        r == items_equal(*m, la@, lb@, fuel as nat),
    decreases fuel, 1nat,
{
    let mut i: usize = 0;
    proof {
        assert(la@.skip(0) =~= la@);
        assert(lb@.skip(0) =~= lb@);
    }
    while i < la.len()
        invariant
            m.wf(),
            la@.len() == lb@.len(),
            i <= la@.len(),
            items_equal(*m, la@, lb@, fuel as nat) == items_equal(*m, la@.skip(i as int), lb@.skip(i as int), fuel as nat),
        decreases la@.len() - i,
    {
        let e = equal_within(m, la[i], lb[i], fuel);
        proof {
            assert(la@.skip(i as int)[0] == la@[i as int]);
            assert(lb@.skip(i as int)[0] == lb@[i as int]);
            assert(la@.skip(i as int).drop_first() =~= la@.skip(i + 1));
            assert(lb@.skip(i as int).drop_first() =~= lb@.skip(i + 1));
        }
        match e {
            Some(true) => {},
            other => {
                return other;
            },
        }
        i = i + 1;
    }
    proof {
        assert(la@.skip(i as int).len() == 0);
    }
    Some(true)
}

fn fields_within<'a, C>(m: &MemoryManager<'a, C>, sa: &StructVal, sb: &StructVal, fuel: u64) -> (r: Option<bool>)
    requires
        m.wf(),
        sb.wf(),
    ensures
        r == fields_equal(*m, sa.fields(), sb.view_map(), fuel as nat),
    decreases fuel, 1nat,
{
    let fa = sa.iter();
    let mut i: usize = 0;
    proof {
        assert(fa@.skip(0) =~= fa@);
    }
    while i < fa.len()
        invariant
            m.wf(),
            sb.wf(),
            fa@ == sa.fields(),
            i <= fa@.len(),
            fields_equal(*m, fa@, sb.view_map(), fuel as nat) == fields_equal(*m, fa@.skip(i as int), sb.view_map(), fuel as nat),
        decreases fa@.len() - i,
    {
        let (k, v) = fa[i];
        proof {
            assert(fa@.skip(i as int)[0] == fa@[i as int]);
            assert(fa@.skip(i as int).drop_first() =~= fa@.skip(i + 1));
        }
        let other = match sb.get(k) {
            Some(other) => other,
            None => {
                return Some(false);
            },
        };
        match equal_within(m, v, other, fuel) {
            Some(true) => {},
            r => {
                return r;
            },
        }
        i = i + 1;
    }
    proof {
        assert(fa@.skip(i as int).len() == 0);
    }
    Some(true)
}

/// Float equality does not depend on the order of the two floats.
pub proof fn lemma_float_eq_symmetric(a: u64, b: u64)
    ensures
        float_bits_eq(a, b) == float_bits_eq(b, a),
{
    assert((a | b) == (b | a)) by (bit_vector);
}

/// A value is equal to itself, at any depth, unless it is a symbol, a box or a custom value
/// (which `=` never finds equal), a float that is not a number, or a list holding such a float.
pub proof fn lemma_equal_reflexive<'a, C>(m: MemoryManager<'a, C>, a: UnsafeVal, fuel: nat)
    requires
        !(a is Symbol || a is MutableBox || a is Custom),
        a matches UnsafeVal::Float(x) ==> !is_nan_bits(x),
        a matches UnsafeVal::List(id) ==> forall|i: int|
            0 <= i < list_items(m, id.idx).len() ==> !(#[trigger] list_items(m, id.idx)[i] matches UnsafeVal::Float(x) && is_nan_bits(x)),
    ensures
        spec_equal(m, a, a, fuel) == Some(true),
{
    match a {
        UnsafeVal::List(id) => {
            let la = list_items(m, id.idx);
            assert forall|i: int| 0 <= i < la.len() implies same_value(#[trigger] la[i], la[i]) by {
                if let UnsafeVal::Float(x) = la[i] {
                    assert(!is_nan_bits(x));
                }
            }
        },
        _ => {},
    }
}

/// Two strings are `=` exactly when they hold the same characters, one for one: strings of the
/// same length with a character that differs are not equal. The answer never waits on depth.
pub proof fn lemma_string_equality<'a, C>(
    m: MemoryManager<'a, C>,
    x: ValId<CompactString>,
    y: ValId<CompactString>,
    fuel: nat,
)
    ensures
        spec_equal(m, UnsafeVal::String(x), UnsafeVal::String(y), fuel) is Some,
        spec_equal(m, UnsafeVal::String(x), UnsafeVal::String(y), fuel) == Some(true) <==> (string_text(
            m,
            x.idx,
        ).len() == string_text(m, y.idx).len() && forall|i: int|
            0 <= i < string_text(m, x.idx).len() ==> #[trigger] string_text(m, x.idx)[i] == string_text(
                m,
                y.idx,
            )[i]),
{
    let a = string_text(m, x.idx);
    let b = string_text(m, y.idx);
    if a.len() == b.len() && forall|i: int| 0 <= i < a.len() ==> #[trigger] a[i] == b[i] {
        assert(a =~= b);
    }
}

/// Float equality is IEEE 754 equality: two floats with different bits are equal only when
/// both are zeros (of either sign), so a float that is not zero never equals its negation; a
/// float that is not a number equals nothing; every other float equals itself; and the two
/// zeros are equal.
pub proof fn lemma_float_equality(a: u64, b: u64)
    ensures
        float_bits_eq(a, b) && a != b ==> (a & 0x7FFF_FFFF_FFFF_FFFFu64) == 0 && (b & 0x7FFF_FFFF_FFFF_FFFFu64) == 0,
        (a & 0x7FFF_FFFF_FFFF_FFFFu64) != 0 ==> !float_bits_eq(a, a ^ 0x8000_0000_0000_0000u64),
        (a & 0x7FF0_0000_0000_0000u64) == 0x7FF0_0000_0000_0000u64 && (a & 0x000F_FFFF_FFFF_FFFFu64) != 0
            ==> !float_bits_eq(a, b) && !float_bits_eq(b, a),
        (a & 0x7FF0_0000_0000_0000u64) != 0x7FF0_0000_0000_0000u64 ==> float_bits_eq(a, a),
        (a & 0x7FFF_FFFF_FFFF_FFFFu64) == 0 && (b & 0x7FFF_FFFF_FFFF_FFFFu64) == 0 ==> float_bits_eq(a, b),
{
    assert(((a | b) & 0x7FFF_FFFF_FFFF_FFFFu64) == 0 ==> (a & 0x7FFF_FFFF_FFFF_FFFFu64) == 0
        && (b & 0x7FFF_FFFF_FFFF_FFFFu64) == 0) by (bit_vector);
    assert((a & 0x7FFF_FFFF_FFFF_FFFFu64) == 0 && (b & 0x7FFF_FFFF_FFFF_FFFFu64) == 0 ==> ((a | b)
        & 0x7FFF_FFFF_FFFF_FFFFu64) == 0) by (bit_vector);
    assert((a & 0x7FFF_FFFF_FFFF_FFFFu64) != 0 ==> (a ^ 0x8000_0000_0000_0000u64) != a && ((a | (a
        ^ 0x8000_0000_0000_0000u64)) & 0x7FFF_FFFF_FFFF_FFFFu64) != 0) by (bit_vector);
    assert((a & 0x7FFF_FFFF_FFFF_FFFFu64) == 0 ==> (a & 0x7FF0_0000_0000_0000u64)
        != 0x7FF0_0000_0000_0000u64) by (bit_vector);
    assert((b & 0x7FFF_FFFF_FFFF_FFFFu64) == 0 ==> (b & 0x7FF0_0000_0000_0000u64)
        != 0x7FF0_0000_0000_0000u64) by (bit_vector);
    assert((a & 0x7FF0_0000_0000_0000u64) != 0x7FF0_0000_0000_0000u64 ==> !((a & 0x7FF0_0000_0000_0000u64)
        == 0x7FF0_0000_0000_0000u64 && (a & 0x000F_FFFF_FFFF_FFFFu64) != 0)) by (bit_vector);
}

/// `(= a b)`: whether `a` and `b` are equal, looking at most `fuel` lists and structs deep
/// (see [`spec_equal`]); `None` inside when that is not deep enough or a struct compared is gone.
pub fn equal<'a, C>(m: &MemoryManager<'a, C>, args: &[UnsafeVal], fuel: u64) -> (r: Result<Option<bool>, NativeError>)
    requires
        m.wf(),
    ensures
        args@.len() == 2 ==> r == Ok::<Option<bool>, NativeError>(spec_equal(*m, args@[0], args@[1], fuel as nat)),
        args@.len() != 2 ==> (r matches Err(e) && is_arity(e, "="@, 2, args@.len() as usize)),
{
    if args.len() == 2 {
        Ok(equal_within(m, args[0], args[1], fuel))
    } else {
        proof {
            reveal_strlit("=");
        }
        Err(NativeError::ArityError { function: crate::compact::compact_new("="), expected: 2, actual: args.len() })
    }
}

} // verus!
