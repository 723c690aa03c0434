use spore_vm::memory::{StructVal, UnsafeVal};
use spore_vm::settings::Settings;
use spore_vm::val::Val;
use spore_vm::vm::Vm;

type Machine = Vm<'static, ()>;

#[test]
fn static_values_can_be_created_outside_of_vm() {
    assert!(Val::new_void().is_void());
    assert_eq!(Val::new_bool(true).try_bool().unwrap(), true);
    assert_eq!(Val::new_int(1).try_int().unwrap(), 1);
    assert!(Val::new_int(1).try_bool().is_err());
    assert_eq!(Val::new_int(1).kind_name(), "int");
    assert!(!Val::new_bool(false).is_truthy());
}

#[test]
fn values_read_strings_lists_boxes_and_structs() {
    let mut vm = Machine::new(3, Settings::default());
    let s = vm.memory_mut().insert_string("text".into());
    let l = vm.memory_mut().insert_list(vec![UnsafeVal::Int(1), UnsafeVal::Int(2)]);
    let b = vm.memory_mut().insert_mutable_box(UnsafeVal::Int(9));
    let field = vm.get_or_create_symbol("field");
    let mut strct = StructVal::new();
    strct.set(field, UnsafeVal::Int(5));
    let st = vm.memory_mut().insert_struct(strct);

    assert_eq!(Val::from_unsafe_val(UnsafeVal::String(s)).try_str(&vm).unwrap(), "text");
    assert_eq!(Val::from_unsafe_val(UnsafeVal::List(l)).try_list(&vm).unwrap().len(), 2);
    let inner = Val::from_unsafe_val(UnsafeVal::MutableBox(b)).try_mutable_box_ref(&vm).unwrap();
    assert_eq!(inner.try_int().unwrap(), 9);
    let v = Val::from_unsafe_val(UnsafeVal::Struct(st));
    assert!(v.is_struct());
    assert_eq!(v.try_struct(&vm).unwrap().len(), 1);
    assert_eq!(v.try_struct_get(&vm, "field").unwrap().unwrap().try_int().unwrap(), 5);
    vm.get_or_create_symbol("other");
    assert!(v.try_struct_get(&vm, "other").unwrap().is_none());
    assert!(v.try_struct_get(&vm, "never-interned").is_err());
    assert!(Val::new_int(0).try_str(&vm).is_err());
    assert!(Val::new_int(0).try_list(&vm).is_err());
}
