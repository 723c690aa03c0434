use spore_vm::builtins::{
    split_str, string_join, string_length, string_split, ArgValue, BuiltinArg, LIST_TYPE_NAME,
    STRING_TYPE_NAME,
};
use spore_vm::error::VmError;

fn s(text: &str) -> BuiltinArg {
    BuiltinArg { value: ArgValue::Str(text.to_string()), shown_type: STRING_TYPE_NAME, quoted: format!("{text:?}") }
}

fn int_arg(x: i64) -> BuiltinArg {
    BuiltinArg { value: ArgValue::Other, shown_type: "int", quoted: x.to_string() }
}

fn list(items: Vec<BuiltinArg>) -> BuiltinArg {
    BuiltinArg { value: ArgValue::List(items), shown_type: LIST_TYPE_NAME, quoted: "(..)".to_string() }
}

fn assert_arity(e: VmError, function: &str, expected: usize, actual: usize) {
    match e {
        VmError::ArityError { function: f, expected: x, actual: y } => {
            assert_eq!(f.as_str(), function);
            assert_eq!((x, y), (expected, actual));
        }
        other => panic!("unexpected {other:?}"),
    }
}

fn assert_type_error(e: VmError, context: &str, expected: &str, actual: &str, value: &str) {
    match e {
        VmError::TypeError { src, context: c, expected: x, actual: a, value: v } => {
            assert!(src.is_none());
            assert_eq!((c, x, a, v.as_str()), (context, expected, actual, value));
        }
        other => panic!("unexpected {other:?}"),
    }
}

#[test]
fn string_length_with_empty_string_is_zero() {
    assert_eq!(string_length(&[s("")]).unwrap(), 0);
}

#[test]
fn string_length_gives_string_length() {
    assert_eq!(string_length(&[s("1234")]).unwrap(), 4);
    assert_eq!(string_length(&[s("é")]).unwrap(), 2);
}

#[test]
fn string_length_with_wrong_args_returns_error() {
    assert_arity(string_length(&[]).unwrap_err(), "string-length", 1, 0);
    assert_arity(string_length(&[s(""), s("")]).unwrap_err(), "string-length", 1, 2);
    assert_type_error(string_length(&[int_arg(0)]).unwrap_err(), "string-length", "string", "int", "0");
}

fn split(args: &[BuiltinArg]) -> Vec<String> {
    string_split(args).unwrap()
}

#[test]
fn string_split_splits_by_line() {
    assert_eq!(split(&[s("one\ntwo\n")]), vec!["one", "two", ""]);
}

#[test]
fn string_split_with_custom_separator_splits_by_separator() {
    assert_eq!(split(&[s("one, two, three"), s(", ")]), vec!["one", "two", "three"]);
}

#[test]
fn string_split_matches_std_split() {
    for (text, sep) in [("", ""), ("ab", ""), ("a,,b,", ","), ("", ","), ("aaa", "aa"), ("héllo wörld", "ö")] {
        let expected: Vec<String> = text.split(sep).map(str::to_string).collect();
        assert_eq!(split_str(text, sep), expected, "{text:?} split by {sep:?}");
    }
}

#[test]
fn string_split_with_wrong_args_returns_error() {
    assert_arity(string_split(&[]).unwrap_err(), "string-split", 1, 0);
    assert_arity(string_split(&[s(""), s(""), s("")]).unwrap_err(), "string-split", 2, 3);
    assert_type_error(string_split(&[int_arg(1)]).unwrap_err(), "string-split arg(idx = 0)", "string", "int", "1");
    assert_type_error(string_split(&[s(""), int_arg(1)]).unwrap_err(), "string-split arg(idx = 1)", "string", "int", "1");
    assert_type_error(string_split(&[int_arg(1), s("")]).unwrap_err(), "string-split arg(idx = 0)", "string", "int", "1");
}

#[test]
fn string_join_on_empty_list_is_empty() {
    assert_eq!(string_join(&[list(vec![])]).unwrap().as_str(), "");
}

#[test]
fn string_join_with_wrong_number_of_args_is_arity_error() {
    assert_arity(string_join(&[]).unwrap_err(), "string-join", 1, 0);
    assert_arity(string_join(&[list(vec![]), s(""), int_arg(3)]).unwrap_err(), "string-join", 2, 3);
}

#[test]
fn string_join_with_wrong_type_args_is_type_error() {
    assert_type_error(string_join(&[int_arg(2)]).unwrap_err(), "string-join arg(idx=0)", "list", "int", "2");
    assert_type_error(string_join(&[int_arg(3), s(",")]).unwrap_err(), "string-join arg(idx=0)", "list", "int", "3");
    assert_type_error(
        string_join(&[list(vec![s("ok string"), int_arg(42)])]).unwrap_err(),
        "string-join arg(idx=0) list subelement",
        "string",
        "int",
        "42",
    );
    assert_type_error(string_join(&[list(vec![]), int_arg(3)]).unwrap_err(), "string-join arg(idx=1)", "string", "int", "3");
}

#[test]
fn string_join_with_no_separator_concatenates() {
    assert_eq!(string_join(&[list(vec![s("one"), s("two")])]).unwrap().as_str(), "onetwo");
}

#[test]
fn string_join_with_custom_separator_concatenates_with_separator() {
    assert_eq!(
        string_join(&[list(vec![s("one"), s("two")]), s(" fish ")]).unwrap().as_str(),
        "one fish two"
    );
}

#[test]
fn split_then_join_gives_back_the_string() {
    for (text, sep) in [("a,b,,c", ","), ("no separator", "--"), ("xyz", ""), ("", "")] {
        let pieces: Vec<BuiltinArg> = split_str(text, sep).iter().map(|p| s(p)).collect();
        let joined = string_join(&[list(pieces), s(sep)]).unwrap();
        assert_eq!(joined.as_str(), text);
    }
}
