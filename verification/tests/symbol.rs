use spore_vm::symbol::{Symbol, SymbolInterner};

#[test]
fn interning_the_same_string_gives_the_same_symbol() {
    let mut interner = SymbolInterner::new(3);
    let a = interner.get_or_create_symbol(3, "apple");
    let b = interner.get_or_create_symbol(3, "banana");
    let a2 = interner.get_or_create_symbol(3, "apple");
    assert_eq!(a, a2);
    assert_ne!(a, b);
    assert_eq!(a, Symbol { vm_id: 3, idx: 0 });
    assert_eq!(b, Symbol { vm_id: 3, idx: 1 });
}

#[test]
fn symbol_gives_back_its_string() {
    let mut interner = SymbolInterner::new(1);
    let sym = interner.get_or_create_symbol(1, "hello");
    assert_eq!(interner.symbol_to_str(sym), Some("hello"));
    assert_eq!(interner.get_symbol("hello"), Some(sym));
    assert_eq!(interner.get_symbol("other"), None);
}

#[test]
fn symbol_of_other_machine_or_unknown_index_has_no_string() {
    let mut interner = SymbolInterner::new(1);
    interner.get_or_create_symbol(1, "x");
    assert_eq!(interner.symbol_to_str(Symbol { vm_id: 2, idx: 0 }), None);
    assert_eq!(interner.symbol_to_str(Symbol { vm_id: 1, idx: 5 }), None);
}

#[test]
fn default_symbol_is_first_of_first_machine() {
    assert_eq!(Symbol::default(), Symbol { vm_id: 0, idx: 0 });
}
