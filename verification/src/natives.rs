//! Native functions on the objects of the memory manager: boxes, lists and structs, and `not`.
//!
//! A type error names the value that was wrong; the host writes it into the error message, as
//! writing a value may need floats.
use compact_str::CompactString;
use vstd::prelude::*;

use crate::compact::{compact_chars, compact_new};
use crate::memory::{lemma_struct_change_keeps_wf, truthy, MemoryManager, ObjKind, StructVal, UnsafeVal};

verus! {

/// The display name for the type of a value.
pub open spec fn spec_kind_name(v: UnsafeVal) -> Seq<char> {
    match v {
        UnsafeVal::Void => "void"@,
        UnsafeVal::Bool(_) => "bool"@,
        UnsafeVal::Int(_) => "int"@,
        UnsafeVal::Float(_) => "float"@,
        UnsafeVal::Symbol(_) => "symbol"@,
        UnsafeVal::String(_) => "string"@,
        UnsafeVal::MutableBox(_) => "mutable-box"@,
        UnsafeVal::List(_) => "list"@,
        UnsafeVal::Struct(_) => "struct"@,
        UnsafeVal::ByteCodeFunction(_) => "function"@,
        UnsafeVal::NativeFunction(_) => "function"@,
        UnsafeVal::Custom(_) => "custom"@,
    }
}

/// Get the display name for the type of `v`.
pub fn kind_name(v: UnsafeVal) -> (r: &'static str)
    ensures
        r@ == spec_kind_name(v),
{
    proof {
        reveal_strlit("void");
        reveal_strlit("bool");
        reveal_strlit("int");
        reveal_strlit("float");
        reveal_strlit("symbol");
        reveal_strlit("string");
        reveal_strlit("mutable-box");
        reveal_strlit("list");
        reveal_strlit("struct");
        reveal_strlit("function");
        reveal_strlit("custom");
    }
    match v {
        UnsafeVal::Void => "void",
        UnsafeVal::Bool(_) => "bool",
        UnsafeVal::Int(_) => "int",
        UnsafeVal::Float(_) => "float",
        UnsafeVal::Symbol(_) => "symbol",
        UnsafeVal::String(_) => "string",
        UnsafeVal::MutableBox(_) => "mutable-box",
        UnsafeVal::List(_) => "list",
        UnsafeVal::Struct(_) => "struct",
        UnsafeVal::ByteCodeFunction(_) => "function",
        UnsafeVal::NativeFunction(_) => "function",
        UnsafeVal::Custom(_) => "custom",
    }
}

/// Why a native function failed.
#[derive(Debug)]
#[allow(inconsistent_fields)]
pub enum NativeError {
    /// The function was called with the wrong number of arguments.
    ArityError { function: CompactString, expected: usize, actual: usize },
    /// An argument had the wrong type: `value` was given where `expected` was needed.
    TypeError { context: &'static str, expected: &'static str, value: UnsafeVal },
}

/// The arity error of `function`.
pub open spec fn is_arity(e: NativeError, function: Seq<char>, expected: usize, actual: usize) -> bool {
    e matches NativeError::ArityError { function: f, expected: x, actual: a } && compact_chars(f)
        == function && x == expected && a == actual
}

/// The type error of `value` in `context`.
pub open spec fn is_type_error(e: NativeError, context: Seq<char>, expected: Seq<char>, value: UnsafeVal) -> bool {
    e matches NativeError::TypeError { context: c, expected: x, value: v } && c@ == context && x@
        == expected && v == value
}

fn arity_error(function: &str, expected: usize, actual: usize) -> (r: NativeError)
    ensures
        is_arity(r, function@, expected, actual),
{
    NativeError::ArityError { function: compact_new(function), expected, actual }
}

/// `(not v)`: `true` when `v` is not truthy.
pub fn not(args: &[UnsafeVal]) -> (r: Result<UnsafeVal, NativeError>)
    ensures
        args@.len() == 1 ==> r == Ok::<UnsafeVal, NativeError>(UnsafeVal::Bool(!truthy(args@[0]))),
        args@.len() != 1 ==> (r matches Err(e) && is_arity(e, "not"@, 1, args@.len() as usize)),
{
    if args.len() == 1 {
        Ok(UnsafeVal::Bool(!args[0].is_truthy()))
    } else {
        Err(arity_error("not", 1, args.len()))
    }
}

/// `(new-box v)`: a new box holding `v`.
pub fn new_box<'a, C>(m: &mut MemoryManager<'a, C>, args: &[UnsafeVal]) -> (r: Result<UnsafeVal, NativeError>)
    requires
        old(m).wf(),
        old(m).has_room(ObjKind::MutableBox),
    ensures
        final(m).wf(),
        args@.len() == 1 ==> (r matches Ok(UnsafeVal::MutableBox(id)) && MemoryManager::same_but(
            *old(m),
            *final(m),
            ObjKind::MutableBox,
        ) && !old(m).boxes().live(id.idx as int) && final(m).boxes().view_map()
            == old(m).boxes().view_map().insert(id.idx as int, args@[0])),
        args@.len() != 1 ==> (r matches Err(e) && is_arity(e, "new-box"@, 1, args@.len() as usize)
            && *final(m) == *old(m)),
{
    if args.len() == 1 {
        let id = m.insert_mutable_box(args[0]);
        Ok(UnsafeVal::MutableBox(id))
    } else {
        Err(arity_error("new-box", 1, args.len()))
    }
}

/// `(set-box! b v)`: puts `v` in the box `b` and gives back what it held.
pub fn set_box<'a, C>(m: &mut MemoryManager<'a, C>, args: &[UnsafeVal]) -> (r: Result<UnsafeVal, NativeError>)
    requires
        old(m).wf(),
        args@.len() == 2 ==> (args@[0] matches UnsafeVal::MutableBox(id) ==> old(m).boxes().live(
            id.idx as int,
        )),
    ensures
        final(m).wf(),
        args@.len() != 2 ==> (r matches Err(e) && is_arity(e, "set-box!"@, 2, args@.len() as usize)
            && *final(m) == *old(m)),
        args@.len() == 2 ==> match args@[0] {
            UnsafeVal::MutableBox(id) => r == Ok::<UnsafeVal, NativeError>(
                old(m).boxes().object(id.idx as int),
            ) && MemoryManager::same_but(*old(m), *final(m), ObjKind::MutableBox)
                && final(m).boxes().view_map() == old(m).boxes().view_map().insert(
                id.idx as int,
                args@[1],
            ),
            other => (r matches Err(e) && is_type_error(e, "set-box!"@, "mutable-box"@, other))
                && *final(m) == *old(m),
        },
{
    if args.len() != 2 {
        return Err(arity_error("set-box!", 2, args.len()));
    }
    match args[0] {
        UnsafeVal::MutableBox(id) => Ok(m.set_mutable_box(id, args[1])),
        other => {
            proof {
                reveal_strlit("set-box!");
                reveal_strlit("mutable-box");
            }
            Err(NativeError::TypeError { context: "set-box!", expected: "mutable-box", value: other })
        },
    }
}

/// `(unbox b)`: what the box `b` holds.
pub fn unbox<'a, C>(m: &MemoryManager<'a, C>, args: &[UnsafeVal]) -> (r: Result<UnsafeVal, NativeError>)
    requires
        args@.len() == 1 ==> (args@[0] matches UnsafeVal::MutableBox(id) ==> m.boxes().live(
            id.idx as int,
        )),
    ensures
        args@.len() != 1 ==> (r matches Err(e) && is_arity(e, "unbox"@, 1, args@.len() as usize)),
        args@.len() == 1 ==> match args@[0] {
            UnsafeVal::MutableBox(id) => r == Ok::<UnsafeVal, NativeError>(
                m.boxes().object(id.idx as int),
            ),
            other => (r matches Err(e) && is_type_error(e, "unbox"@, "mutable-box"@, other)),
        },
{
    if args.len() != 1 {
        return Err(arity_error("unbox", 1, args.len()));
    }
    match args[0] {
        UnsafeVal::MutableBox(id) => Ok(*m.get_mutable_box(id)),
        other => {
            proof {
                reveal_strlit("unbox");
                reveal_strlit("mutable-box");
            }
            Err(NativeError::TypeError { context: "unbox", expected: "mutable-box", value: other })
        },
    }
}

/// `(list v...)`: a new list of the arguments.
pub fn list<'a, C>(m: &mut MemoryManager<'a, C>, args: &[UnsafeVal]) -> (r: UnsafeVal)
    requires
        old(m).wf(),
        old(m).has_room(ObjKind::List),
    ensures
        final(m).wf(),
        (r matches UnsafeVal::List(id) && MemoryManager::same_but(*old(m), *final(m), ObjKind::List)
            && !old(m).lists().live(id.idx as int) && final(m).lists().live(id.idx as int)
            && final(m).lists().object(id.idx as int)@ == args@),
{
    let mut items: Vec<UnsafeVal> = Vec::new();
    let mut i: usize = 0;
    while i < args.len()
        invariant
            i <= args@.len(),
            items@ == args@.take(i as int),
        decreases args@.len() - i,
    {
        items.push(args[i]);
        proof {
            assert(args@.take(i + 1) =~= args@.take(i as int).push(args@[i as int]));
        }
        i = i + 1;
    }
    proof {
        assert(args@.take(i as int) =~= args@);
    }
    let ghost before = *m;
    let ghost v = items;
    let id = m.insert_list(items);
    proof {
        assert(m.lists().view_map().contains_key(id.idx as int));
        assert(m.lists().view_map()[id.idx as int] == v);
    }
    UnsafeVal::List(id)
}

/// `(list-length l)`: the number of items of the list `l`; a list that is gone has none.
pub fn list_length<'a, C>(m: &MemoryManager<'a, C>, args: &[UnsafeVal]) -> (r: Result<UnsafeVal, NativeError>)
    requires
        m.wf(),
    ensures
        args@.len() != 1 ==> (r matches Err(e) && is_arity(e, "list-length"@, 1, args@.len() as usize)),
        args@.len() == 1 ==> match args@[0] {
            UnsafeVal::List(id) => r == Ok::<UnsafeVal, NativeError>(
                UnsafeVal::Int(
                    if m.lists().live(id.idx as int) {
                        m.lists().object(id.idx as int)@.len() as i64
                    } else {
                        0
                    },
                ),
            ),
            other => (r matches Err(e) && is_type_error(e, "list-length"@, "list"@, other)),
        },
{
    if args.len() != 1 {
        return Err(arity_error("list-length", 1, args.len()));
    }
    match args[0] {
        UnsafeVal::List(id) => Ok(UnsafeVal::Int(m.get_list(id).len() as i64)),
        other => {
            proof {
                reveal_strlit("list-length");
                reveal_strlit("list");
            }
            Err(NativeError::TypeError { context: "list-length", expected: "list", value: other })
        },
    }
}


/// The fields that the arguments of `(struct name value ...)` give, in order: each name with
/// the value after it. The last value given for a name wins.
pub open spec fn struct_map(args: Seq<UnsafeVal>) -> Map<crate::symbol::Symbol, UnsafeVal>
    decreases args.len(),
{
    if args.len() < 2 {
        Map::empty()
    } else {
        let init = args.subrange(0, args.len() - 2);
        match args[args.len() - 2] {
            UnsafeVal::Symbol(s) => struct_map(init).insert(s, args[args.len() - 1]),
            _ => struct_map(init),
        }
    }
}

/// The position of the first name of `(struct name value ...)`, from the `k`-th pair on, that
/// is not a symbol, when there is one.
pub open spec fn first_bad_name(args: Seq<UnsafeVal>, k: int) -> Option<int>
    decreases args.len() - 2 * k,
{
    if k < 0 || 2 * k + 1 >= args.len() {
        None
    } else if !(args[2 * k] is Symbol) {
        Some(2 * k)
    } else {
        first_bad_name(args, k + 1)
    }
}

/// `(struct name value ...)`: a new struct with the given fields. The names must be symbols and
/// come with a value each.
pub fn strct<'a, C>(m: &mut MemoryManager<'a, C>, args: &[UnsafeVal]) -> (r: Result<UnsafeVal, NativeError>)
    requires
        old(m).wf(),
        old(m).has_room(ObjKind::Struct),
        args@.len() < usize::MAX,
    ensures
        final(m).wf(),
        args@.len() % 2 != 0 ==> (r matches Err(e) && is_arity(
            e,
            "struct needs an even amount of args, "@,
            (args@.len() + 1) as usize,
            args@.len() as usize,
        )) && *final(m) == *old(m),
        args@.len() % 2 == 0 && first_bad_name(args@, 0) is Some ==> (r matches Err(e)
            && is_type_error(e, "struct field name"@, "symbol"@, args@[first_bad_name(args@, 0)->0]))
            && *final(m) == *old(m),
        args@.len() % 2 == 0 && first_bad_name(args@, 0) is None ==> (r matches Ok(UnsafeVal::Struct(id))
            && MemoryManager::same_but(*old(m), *final(m), ObjKind::Struct) && !old(m).structs().live(
            id.idx as int,
        ) && final(m).structs().live(id.idx as int) && final(m).structs().object(
            id.idx as int,
        ).view_map() == struct_map(args@)),
{
    if args.len() % 2 != 0 {
        return Err(arity_error("struct needs an even amount of args, ", args.len() + 1, args.len()));
    }
    let mut strct = StructVal::with_capacity(args.len() / 2);
    let mut i: usize = 0;
    proof {
        assert(args@.subrange(0, 0) =~= Seq::<UnsafeVal>::empty());
        assert(strct.view_map() =~= Map::<crate::symbol::Symbol, UnsafeVal>::empty());
    }
    while i < args.len()
        invariant
            i % 2 == 0,
            i <= args@.len(),
            args@.len() % 2 == 0,
            strct.wf(),
            strct.view_map() == struct_map(args@.subrange(0, i as int)),
            first_bad_name(args@, 0) == first_bad_name(args@, (i / 2) as int),
            m.wf(),
            *m == *old(m),
        decreases args@.len() - i,
    {
        proof {
            assert(args@.subrange(0, i + 2).subrange(0, i as int) =~= args@.subrange(0, i as int));
            assert(args@.subrange(0, i + 2)[i as int] == args@[i as int]);
            assert(args@.subrange(0, i + 2)[i + 1] == args@[i + 1]);
        }
        match args[i] {
            UnsafeVal::Symbol(name) => {
                strct.set(name, args[i + 1]);
            },
            other => {
                proof {
                    reveal_strlit("struct field name");
                    reveal_strlit("symbol");
                }
                return Err(
                    NativeError::TypeError { context: "struct field name", expected: "symbol", value: other },
                );
            },
        }
        i = i + 2;
    }
    proof {
        assert(args@.subrange(0, i as int) =~= args@);
    }
    let ghost before = *m;
    let ghost made = strct;
    let id = m.insert_struct(strct);
    proof {
        assert(m.structs().view_map().contains_key(id.idx as int));
        assert(m.structs().view_map()[id.idx as int] == made);
    }
    Ok(UnsafeVal::Struct(id))
}

/// `(struct-get s name)`: the value of the field `name` of the struct `s`; `void` when it has
/// none.
pub fn struct_get<'a, C>(m: &MemoryManager<'a, C>, args: &[UnsafeVal]) -> (r: Result<UnsafeVal, NativeError>)
    requires
        m.wf(),
        args@.len() == 2 ==> (args@[0] matches UnsafeVal::Struct(id) ==> m.structs().live(
            id.idx as int,
        )),
    ensures
        args@.len() != 2 ==> (r matches Err(e) && is_arity(e, "struct-get"@, 2, args@.len() as usize)),
        args@.len() == 2 ==> match (args@[0], args@[1]) {
            (UnsafeVal::Struct(id), UnsafeVal::Symbol(name)) => {
                let fields = m.structs().object(id.idx as int).view_map();
                r == Ok::<UnsafeVal, NativeError>(
                    if fields.contains_key(name) {
                        fields[name]
                    } else {
                        UnsafeVal::Void
                    },
                )
            },
            (_, UnsafeVal::Symbol(_)) => (r matches Err(e) && is_type_error(
                e,
                "struct-get arg(idx=0)"@,
                "struct"@,
                args@[0],
            )),
            (_, other) => (r matches Err(e) && is_type_error(e, "struct-get arg(idx=1)"@, "symbol"@, other)),
        },
{
    proof {
        reveal_strlit("struct-get arg(idx=0)");
        reveal_strlit("struct-get arg(idx=1)");
        reveal_strlit("struct");
        reveal_strlit("symbol");
    }
    if args.len() != 2 {
        return Err(arity_error("struct-get", 2, args.len()));
    }
    let name = match args[1] {
        UnsafeVal::Symbol(name) => name,
        other => {
            return Err(
                NativeError::TypeError { context: "struct-get arg(idx=1)", expected: "symbol", value: other },
            );
        },
    };
    match args[0] {
        UnsafeVal::Struct(id) => {
            let strct = m.get_struct(id);
            proof {
                assert(m.structs().view_map().contains_key(id.idx as int));
            }
            match strct.get(name) {
                Some(v) => Ok(v),
                None => Ok(UnsafeVal::Void),
            }
        },
        other => Err(
            NativeError::TypeError { context: "struct-get arg(idx=0)", expected: "struct", value: other },
        ),
    }
}

/// `(struct-set! s name value)`: sets the field `name` of the struct `s` to `value`.
pub fn struct_set<'a, C>(m: &mut MemoryManager<'a, C>, args: &[UnsafeVal]) -> (r: Result<UnsafeVal, NativeError>)
    requires
        old(m).wf(),
        args@.len() == 3 ==> (args@[0] matches UnsafeVal::Struct(id) ==> old(m).structs().live(
            id.idx as int,
        )),
    ensures
        final(m).wf(),
        args@.len() != 3 ==> (r matches Err(e) && is_arity(e, "struct-set!"@, 3, args@.len() as usize))
            && *final(m) == *old(m),
        args@.len() == 3 ==> match (args@[0], args@[1]) {
            (UnsafeVal::Struct(id), UnsafeVal::Symbol(name)) => {
                &&& r == Ok::<UnsafeVal, NativeError>(UnsafeVal::Void)
                &&& MemoryManager::same_but(*old(m), *final(m), ObjKind::Struct)
                &&& forall|i: int| #[trigger] final(m).structs().live(i) == old(m).structs().live(i)
                &&& final(m).structs().object(id.idx as int).view_map() == old(m).structs().object(
                    id.idx as int,
                ).view_map().insert(name, args@[2])
                &&& forall|i: int|
                    i != id.idx && #[trigger] final(m).structs().live(i) ==> final(m).structs().object(i)
                        == old(m).structs().object(i)
            },
            (_, UnsafeVal::Symbol(_)) => (r matches Err(e) && is_type_error(
                e,
                "struct-set! arg(idx=0)"@,
                "struct"@,
                args@[0],
            )) && *final(m) == *old(m),
            (_, other) => (r matches Err(e) && is_type_error(e, "struct-set! arg(idx=1)"@, "symbol"@, other))
                && *final(m) == *old(m),
        },
{
    proof {
        reveal_strlit("struct-set! arg(idx=0)");
        reveal_strlit("struct-set! arg(idx=1)");
        reveal_strlit("struct");
        reveal_strlit("symbol");
    }
    if args.len() != 3 {
        return Err(arity_error("struct-set!", 3, args.len()));
    }
    let name = match args[1] {
        UnsafeVal::Symbol(name) => name,
        other => {
            return Err(
                NativeError::TypeError { context: "struct-set! arg(idx=1)", expected: "symbol", value: other },
            );
        },
    };
    match args[0] {
        UnsafeVal::Struct(id) => {
            let ghost before = *m;
            let strct = m.get_struct_mut(id);
            strct.set(name, args[2]);
            let ghost changed = *strct;
            proof {
                lemma_struct_change_keeps_wf(before, *m, id.idx as int, changed);
                assert forall|i: int| i != id.idx && #[trigger] m.structs().live(i) implies m.structs().object(i) == before.structs().object(i) by {
                    assert(m.structs().view_map().contains_key(i));
                    assert(before.structs().view_map().contains_key(i));
                    assert(m.structs().view_map()[i] == before.structs().view_map()[i]);
                }
                assert(m.structs().view_map().contains_key(id.idx as int));
            }
            Ok(UnsafeVal::Void)
        },
        other => Err(
            NativeError::TypeError { context: "struct-set! arg(idx=0)", expected: "struct", value: other },
        ),
    }
}

} // verus!
