use compact_str::CompactString;
use spore_vm::memory::{is_garbage_collected, Function, MemoryManager, ObjKind, StructVal, UnsafeVal};
use spore_vm::object_store::ValId;
use spore_vm::symbol::Symbol;
use spore_vm::compiler::Compiler;
use spore_vm::settings::Settings;

type Memory = MemoryManager<'static, String>;

fn sym(idx: u32) -> Symbol {
    Symbol { vm_id: 1, idx }
}

#[test]
fn struct_fields_keep_their_first_place_and_last_value() {
    let mut s = StructVal::new();
    assert!(s.is_empty());
    s.set(sym(1), UnsafeVal::Int(1));
    s.set(sym(2), UnsafeVal::Int(2));
    s.set(sym(1), UnsafeVal::Int(3));
    assert_eq!(s.len(), 2);
    assert!(matches!(s.get(sym(1)), Some(UnsafeVal::Int(3))));
    assert!(matches!(s.get(sym(2)), Some(UnsafeVal::Int(2))));
    assert!(s.get(sym(3)).is_none());
    let fields = s.iter();
    assert_eq!(fields[0].0, sym(1));
    assert_eq!(fields[1].0, sym(2));
    let values = s.values();
    assert!(matches!(values[..], [UnsafeVal::Int(3), UnsafeVal::Int(2)]));
    let t = StructVal::with_capacity(4);
    assert_eq!(t.len(), 0);
}

#[test]
fn truthiness_and_collected_values() {
    assert!(!UnsafeVal::Void.is_truthy());
    assert!(!UnsafeVal::Bool(false).is_truthy());
    assert!(UnsafeVal::Bool(true).is_truthy());
    assert!(UnsafeVal::Int(0).is_truthy());
    assert!(UnsafeVal::Float(0).is_truthy());
    assert!(!is_garbage_collected(UnsafeVal::Int(1)));
    assert!(!is_garbage_collected(UnsafeVal::NativeFunction(3)));
    assert!(is_garbage_collected(UnsafeVal::String(ValId::new(0))));
    assert!(is_garbage_collected(UnsafeVal::List(ValId::new(0))));
}

#[test]
fn symbols_are_interned_once() {
    let mut m = Memory::new(1);
    assert!(m.get_symbol("x").is_none());
    let x = m.get_or_create_symbol("x");
    let y = m.get_or_create_symbol("y");
    assert_eq!(m.get_or_create_symbol("x"), x);
    assert_ne!(x, y);
    assert_eq!(m.symbol_to_str(y), Some("y"));
    assert_eq!(m.get_symbol("x"), Some(x));
}

#[test]
fn objects_reached_from_roots_survive_collection() {
    let mut m = Memory::new(1);
    let s = m.insert_string(CompactString::new("hello"));
    let list = m.insert_list(vec![UnsafeVal::String(s), UnsafeVal::Int(1)]);
    let b = m.insert_mutable_box(UnsafeVal::List(list));
    let garbage = m.insert_list(vec![UnsafeVal::Int(2)]);
    m.run_gc(&vec![UnsafeVal::MutableBox(b)]);
    assert!(matches!(m.get_mutable_box(b), UnsafeVal::List(_)));
    assert_eq!(m.get_list(list).len(), 2);
    assert_eq!(m.get_str(s), "hello");
    assert!(m.get_list(garbage).is_empty());
}

#[test]
fn unreachable_objects_are_freed_and_strings_are_kept() {
    let mut m = Memory::new(1);
    let s = m.insert_string(CompactString::new("kept"));
    let b = m.insert_mutable_box(UnsafeVal::Int(7));
    let code = m.insert_custom(String::from("custom"));
    m.run_gc(&vec![]);
    assert_eq!(m.get_str(s), "kept");
    assert!(m.can_insert(ObjKind::MutableBox));
    let again = m.insert_mutable_box(UnsafeVal::Int(8));
    assert_eq!(again.idx, b.idx);
    let again_custom = m.insert_custom(String::from("other"));
    assert_eq!(again_custom.idx, code.idx);
}

#[test]
fn cycles_are_collected_when_unreachable_and_kept_when_reachable() {
    let mut m = Memory::new(1);
    let a = m.insert_mutable_box(UnsafeVal::Void);
    m.set_mutable_box(a, UnsafeVal::MutableBox(a));
    let b = m.insert_mutable_box(UnsafeVal::Void);
    let old = m.set_mutable_box(b, UnsafeVal::MutableBox(b));
    assert!(matches!(old, UnsafeVal::Void));
    m.run_gc(&vec![UnsafeVal::MutableBox(a)]);
    assert!(matches!(m.get_mutable_box(a), UnsafeVal::MutableBox(id) if id.idx == a.idx));
    let reused = m.insert_mutable_box(UnsafeVal::Int(0));
    assert_eq!(reused.idx, b.idx);
}

#[test]
fn kept_values_survive_until_released() {
    let mut m = Memory::new(1);
    let list = m.insert_list(vec![UnsafeVal::Int(1)]);
    m.keep_reachable(UnsafeVal::List(list));
    m.keep_reachable(UnsafeVal::List(list));
    m.run_gc(&vec![]);
    assert_eq!(m.get_list(list).len(), 1);
    m.allow_unreachable(UnsafeVal::List(list));
    m.run_gc(&vec![]);
    assert_eq!(m.get_list(list).len(), 1);
    m.allow_unreachable(UnsafeVal::List(list));
    m.run_gc(&vec![]);
    assert!(m.get_list(list).is_empty());
}

#[test]
fn struct_fields_keep_objects_reachable() {
    let mut m = Memory::new(1);
    let inner = m.insert_list(vec![]);
    let mut s = StructVal::new();
    s.set(sym(0), UnsafeVal::List(inner));
    let id = m.insert_struct(s);
    m.get_struct_mut(id).set(sym(1), UnsafeVal::Bool(true));
    assert_eq!(m.get_struct(id).len(), 2);
    m.run_gc(&vec![UnsafeVal::Struct(id)]);
    assert!(matches!(m.get_struct(id).get(sym(0)), Some(UnsafeVal::List(l)) if l.idx == inner.idx));
    let other = m.insert_list(vec![UnsafeVal::Int(5)]);
    assert_ne!(other.idx, inner.idx);
}

#[test]
fn functions_are_kept_by_their_handles() {
    let code = Compiler::compile("(+ 1 2)", Settings::default(), &[]).unwrap();
    let mut m: MemoryManager<'static, String> = MemoryManager::new(1);
    let f = m.insert_bytecode(Function { code, consts: Vec::new() });
    m.run_gc(&vec![UnsafeVal::ByteCodeFunction(f)]);
    assert_eq!(m.get_bytecode(f).unwrap().code.instructions.len(), 4);
    m.run_gc(&vec![]);
    assert!(m.get_bytecode(f).is_none());
}

#[test]
fn kept_structs_survive_until_released() {
    let mut m = Memory::new(1);
    let inner = m.insert_list(vec![UnsafeVal::Int(7)]);
    let mut s = StructVal::new();
    s.set(sym(0), UnsafeVal::List(inner));
    let id = m.insert_struct(s);
    m.keep_reachable(UnsafeVal::Struct(id));
    m.run_gc(&vec![]);
    assert!(m.struct_exists(id));
    assert_eq!(m.get_list(inner).len(), 1);
    m.allow_unreachable(UnsafeVal::Struct(id));
    m.run_gc(&vec![]);
    assert!(!m.struct_exists(id));
    assert!(m.get_list(inner).is_empty());
}
