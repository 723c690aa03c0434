use compact_str::CompactString;
use spore_vm::bytecode::{Const, Instruction};
use spore_vm::compiler::Compiler;
use spore_vm::formatter::{int_to_text, FormatPiece, ValFormatter};
use spore_vm::memory::{Function, MemoryManager, StructVal, UnsafeVal};
use spore_vm::settings::Settings;

type Memory = MemoryManager<'static, String>;

fn render(m: &Memory, pieces: Vec<FormatPiece>) -> String {
    let mut out = String::new();
    for piece in pieces {
        match piece {
            FormatPiece::Text(t) => out.push_str(t.as_str()),
            FormatPiece::Float(bits) => out.push_str(&f64::from_bits(bits).to_string()),
            FormatPiece::Custom(id) => out.push_str(m.get_custom(id)),
        }
    }
    out
}

fn formatted(m: &Memory, v: UnsafeVal) -> String {
    render(m, ValFormatter::new(m, v).pieces())
}

fn quoted(m: &Memory, v: UnsafeVal) -> String {
    render(m, ValFormatter::new_quoted(m, v).pieces())
}

#[test]
fn formatter_format_void_is_empty() {
    assert_eq!(formatted(&Memory::new(1), UnsafeVal::Void), "<void>");
}

#[test]
fn formatter_format_bool_is_true_or_false() {
    let m = Memory::new(1);
    assert_eq!(formatted(&m, UnsafeVal::Bool(true)), "true");
    assert_eq!(formatted(&m, UnsafeVal::Bool(false)), "false");
}

#[test]
fn formatter_format_int_prints_number() {
    let m = Memory::new(1);
    assert_eq!(formatted(&m, UnsafeVal::Int(0)), "0");
    assert_eq!(formatted(&m, UnsafeVal::Int(-1)), "-1");
}

#[test]
fn formatter_format_float_prints_number() {
    let m = Memory::new(1);
    assert_eq!(formatted(&m, UnsafeVal::Float(0.0f64.to_bits())), "0");
    assert_eq!(formatted(&m, UnsafeVal::Float((-1.5f64).to_bits())), "-1.5");
}

#[test]
fn formatter_format_string_produces_string() {
    let mut m = Memory::new(1);
    let id = m.insert_string(CompactString::new("my string"));
    assert_eq!(formatted(&m, UnsafeVal::String(id)), "my string");
    assert_eq!(quoted(&m, UnsafeVal::String(id)), "\"my string\"");
}

#[test]
fn format_struct_produces_all_key_values() {
    let mut m = Memory::new(1);
    let f1 = m.get_or_create_symbol("field-1");
    let f2 = m.get_or_create_symbol("field-2");
    let two = m.insert_string(CompactString::new("2"));
    let mut s = StructVal::new();
    s.set(f1, UnsafeVal::Int(1));
    s.set(f2, UnsafeVal::String(two));
    let id = m.insert_struct(s);
    assert_eq!(formatted(&m, UnsafeVal::Struct(id)), "(struct 'field-1 1 'field-2 \"2\")");
}

#[test]
fn format_mutable_box_produces_underlying_value() {
    let mut m = Memory::new(1);
    let s = m.insert_string(CompactString::new("string"));
    let b = m.insert_mutable_box(UnsafeVal::String(s));
    assert_eq!(formatted(&m, UnsafeVal::MutableBox(b)), "box<\"string\">");
}

#[test]
fn formatter_format_function_prints_name() {
    let mut m = Memory::new(1);
    let module = Compiler::compile("(define (foo) 10)", Settings::default(), &[]).unwrap();
    let mut instructions = module.instructions;
    let foo = match instructions.remove(0) {
        Instruction::PushConst(Const::Function(f)) => *f,
        other => panic!("expected a function, found {other:?}"),
    };
    let id = m.insert_bytecode(Function { code: foo, consts: Vec::new() });
    assert_eq!(formatted(&m, UnsafeVal::ByteCodeFunction(id)), "<function foo>");
    let lambda = Compiler::compile("(lambda () 1)", Settings::default(), &[]).unwrap();
    let mut instructions = lambda.instructions;
    let anonymous = match instructions.remove(0) {
        Instruction::PushConst(Const::Function(f)) => *f,
        other => panic!("expected a function, found {other:?}"),
    };
    let id = m.insert_bytecode(Function { code: anonymous, consts: Vec::new() });
    assert_eq!(formatted(&m, UnsafeVal::ByteCodeFunction(id)), "<function _>");
}

#[test]
fn formatter_format_native_function_prints_native_function() {
    assert_eq!(formatted(&Memory::new(1), UnsafeVal::NativeFunction(0)), "<native-function>");
}

#[test]
fn lists_are_written_with_their_items_quoted() {
    let mut m = Memory::new(1);
    let s = m.insert_string(CompactString::new("a"));
    let custom = m.insert_custom(String::from("#custom"));
    let inner = m.insert_list(vec![]);
    let list = m.insert_list(vec![
        UnsafeVal::Int(1),
        UnsafeVal::String(s),
        UnsafeVal::List(inner),
        UnsafeVal::Custom(custom),
        UnsafeVal::Float(2.5f64.to_bits()),
    ]);
    assert_eq!(formatted(&m, UnsafeVal::List(list)), "(1 \"a\" () #custom 2.5)");
}

#[test]
fn integers_print_in_decimal() {
    assert_eq!(int_to_text(i64::MIN).as_str(), "-9223372036854775808");
    assert_eq!(int_to_text(i64::MAX).as_str(), "9223372036854775807");
    assert_eq!(int_to_text(10).as_str(), "10");
}

#[test]
fn a_box_that_holds_itself_cannot_be_formatted() {
    let mut m = Memory::new(1);
    let b = m.insert_mutable_box(UnsafeVal::Void);
    m.set_mutable_box(b, UnsafeVal::MutableBox(b));
    let f = ValFormatter::new(&m, UnsafeVal::MutableBox(b));
    assert!(!f.can_format(m.container_slots() + 1));
    let inner = m.insert_mutable_box(UnsafeVal::Int(1));
    let outer = m.insert_mutable_box(UnsafeVal::MutableBox(inner));
    let g = ValFormatter::new(&m, UnsafeVal::MutableBox(outer));
    assert!(g.can_format(3));
    assert!(!g.can_format(2));
    assert_eq!(formatted(&m, UnsafeVal::MutableBox(outer)), "box<box<1>>");
}
