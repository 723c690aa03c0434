use compact_str::CompactString;
use spore_vm::memory::{MemoryManager, UnsafeVal};
use spore_vm::natives::{
    kind_name, list, list_length, new_box, not, set_box, strct, struct_get, struct_set, unbox,
    NativeError,
};

type Memory = MemoryManager<'static, String>;

fn arity(e: NativeError) -> (String, usize, usize) {
    match e {
        NativeError::ArityError { function, expected, actual } => (function.to_string(), expected, actual),
        other => panic!("expected an arity error, found {other:?}"),
    }
}

fn type_error(e: NativeError) -> (&'static str, &'static str) {
    match e {
        NativeError::TypeError { context, expected, .. } => (context, expected),
        other => panic!("expected a type error, found {other:?}"),
    }
}

#[test]
fn not_negates_truthiness() {
    assert!(matches!(not(&[UnsafeVal::Void]), Ok(UnsafeVal::Bool(true))));
    assert!(matches!(not(&[UnsafeVal::Bool(false)]), Ok(UnsafeVal::Bool(true))));
    assert!(matches!(not(&[UnsafeVal::Int(0)]), Ok(UnsafeVal::Bool(false))));
    assert_eq!(arity(not(&[]).unwrap_err()), ("not".to_string(), 1, 0));
}

#[test]
fn boxes_hold_and_swap_values() {
    let mut m = Memory::new(1);
    assert_eq!(arity(new_box(&mut m, &[]).unwrap_err()), ("new-box".to_string(), 1, 0));
    assert_eq!(
        arity(new_box(&mut m, &[UnsafeVal::Int(0), UnsafeVal::Int(1)]).unwrap_err()),
        ("new-box".to_string(), 1, 2)
    );
    let b = new_box(&mut m, &[UnsafeVal::Int(1)]).unwrap();
    assert!(matches!(unbox(&m, &[b]), Ok(UnsafeVal::Int(1))));
    assert!(matches!(set_box(&mut m, &[b, UnsafeVal::Int(2)]), Ok(UnsafeVal::Int(1))));
    assert!(matches!(unbox(&m, &[b]), Ok(UnsafeVal::Int(2))));
    assert_eq!(type_error(unbox(&m, &[UnsafeVal::Int(2)]).unwrap_err()), ("unbox", "mutable-box"));
    assert_eq!(
        type_error(set_box(&mut m, &[UnsafeVal::Void, UnsafeVal::Int(2)]).unwrap_err()),
        ("set-box!", "mutable-box")
    );
    assert_eq!(arity(set_box(&mut m, &[b]).unwrap_err()), ("set-box!".to_string(), 2, 1));
    assert_eq!(arity(unbox(&m, &[]).unwrap_err()), ("unbox".to_string(), 1, 0));
}

#[test]
fn lists_count_their_items() {
    let mut m = Memory::new(1);
    let empty = list(&mut m, &[]);
    let three = list(&mut m, &[UnsafeVal::Int(1), UnsafeVal::Int(2), empty]);
    assert!(matches!(list_length(&m, &[empty]), Ok(UnsafeVal::Int(0))));
    assert!(matches!(list_length(&m, &[three]), Ok(UnsafeVal::Int(3))));
    assert_eq!(type_error(list_length(&m, &[UnsafeVal::Int(1)]).unwrap_err()), ("list-length", "list"));
    assert_eq!(
        arity(list_length(&m, &[empty, empty]).unwrap_err()),
        ("list-length".to_string(), 1, 2)
    );
}

#[test]
fn structs_get_and_set_fields() {
    let mut m = Memory::new(1);
    let a = UnsafeVal::Symbol(m.get_or_create_symbol("a"));
    let b = UnsafeVal::Symbol(m.get_or_create_symbol("b"));
    let s = strct(&mut m, &[a, UnsafeVal::Int(1), b, UnsafeVal::Int(2), a, UnsafeVal::Int(3)]).unwrap();
    assert!(matches!(struct_get(&m, &[s, a]), Ok(UnsafeVal::Int(3))));
    assert!(matches!(struct_get(&m, &[s, b]), Ok(UnsafeVal::Int(2))));
    let c = UnsafeVal::Symbol(m.get_or_create_symbol("c"));
    assert!(matches!(struct_get(&m, &[s, c]), Ok(UnsafeVal::Void)));
    assert!(matches!(struct_set(&mut m, &[s, c, UnsafeVal::Bool(true)]), Ok(UnsafeVal::Void)));
    assert!(matches!(struct_get(&m, &[s, c]), Ok(UnsafeVal::Bool(true))));
    let empty = strct(&mut m, &[]).unwrap();
    assert!(matches!(struct_get(&m, &[empty, a]), Ok(UnsafeVal::Void)));
}

#[test]
fn struct_errors_name_the_bad_argument() {
    let mut m = Memory::new(1);
    let a = UnsafeVal::Symbol(m.get_or_create_symbol("a"));
    assert_eq!(
        arity(strct(&mut m, &[a]).unwrap_err()),
        ("struct needs an even amount of args, ".to_string(), 2, 1)
    );
    match strct(&mut m, &[a, UnsafeVal::Int(1), UnsafeVal::Int(2), UnsafeVal::Int(3)]).unwrap_err() {
        NativeError::TypeError { context, expected, value } => {
            assert_eq!((context, expected), ("struct field name", "symbol"));
            assert!(matches!(value, UnsafeVal::Int(2)));
        }
        other => panic!("expected a type error, found {other:?}"),
    }
    let s = strct(&mut m, &[]).unwrap();
    assert_eq!(type_error(struct_get(&m, &[s, UnsafeVal::Int(1)]).unwrap_err()), ("struct-get arg(idx=1)", "symbol"));
    assert_eq!(type_error(struct_get(&m, &[UnsafeVal::Int(1), a]).unwrap_err()), ("struct-get arg(idx=0)", "struct"));
    assert_eq!(arity(struct_get(&m, &[s]).unwrap_err()), ("struct-get".to_string(), 2, 1));
    assert_eq!(
        type_error(struct_set(&mut m, &[s, UnsafeVal::Int(1), UnsafeVal::Void]).unwrap_err()),
        ("struct-set! arg(idx=1)", "symbol")
    );
    assert_eq!(
        type_error(struct_set(&mut m, &[UnsafeVal::Void, a, UnsafeVal::Void]).unwrap_err()),
        ("struct-set! arg(idx=0)", "struct")
    );
    assert_eq!(arity(struct_set(&mut m, &[s, a]).unwrap_err()), ("struct-set!".to_string(), 3, 2));
}

#[test]
fn kinds_have_display_names() {
    let mut m = Memory::new(1);
    let s = m.insert_string(CompactString::new("x"));
    assert_eq!(kind_name(UnsafeVal::Void), "void");
    assert_eq!(kind_name(UnsafeVal::Float(0)), "float");
    assert_eq!(kind_name(UnsafeVal::String(s)), "string");
    assert_eq!(kind_name(UnsafeVal::NativeFunction(0)), "function");
}
