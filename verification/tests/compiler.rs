use compact_str::CompactString;
use spore_vm::compiler::find_duplicate;

fn strs(v: &[&str]) -> Vec<CompactString> {
    v.iter().map(|s| CompactString::new(s)).collect()
}

#[test]
fn no_duplicate_in_distinct_strings() {
    assert_eq!(find_duplicate(&strs(&[])), None);
    assert_eq!(find_duplicate(&strs(&["a", "b", "c"])), None);
    assert_eq!(find_duplicate(&strs(&["a", "b", "c", "d", "e", "f"])), None);
}

#[test]
fn duplicate_is_found_in_short_and_long_lists() {
    assert_eq!(find_duplicate(&strs(&["a", "b", "a"])).unwrap().as_str(), "a");
    assert_eq!(find_duplicate(&strs(&["x", "y", "z", "w", "y"])).unwrap().as_str(), "y");
}

#[test]
fn which_duplicate_depends_on_length() {
    // Below five: the first string that occurs again later.
    assert_eq!(find_duplicate(&strs(&["a", "b", "b", "a"])).unwrap().as_str(), "a");
    // From five on: the first string that occurred before.
    assert_eq!(find_duplicate(&strs(&["a", "b", "b", "a", "c"])).unwrap().as_str(), "b");
}
