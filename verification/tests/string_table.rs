use coolc::semantic_analysis::builtins::{INT_ID, OBJECT_ID, SUBSTR_ID};
use coolc::string_table::StringTable;

#[test]
fn builtin_names_have_fixed_numbers() {
    let table = StringTable::new();
    assert_eq!(table.len(), 19);
    assert_eq!(table.lookup("Object"), Some(OBJECT_ID));
    assert_eq!(table.lookup("Int"), Some(INT_ID));
    assert_eq!(table.lookup("substr"), Some(SUBSTR_ID));
    assert_eq!(table.lookup("s"), Some(18));
    assert_eq!(table.lookup("Main"), None);
}

#[test]
fn insert_gives_the_next_number_once() {
    let mut table = StringTable::new();
    let main = table.insert(String::from("Main"));
    assert_eq!(main, 19);
    // Interning again changes nothing and gives the same number.
    assert_eq!(table.insert(String::from("Main")), main);
    assert_eq!(table.len(), 20);
    // A lookup after an insert gives what the insert returned.
    assert_eq!(table.lookup("Main"), Some(main));
    assert_eq!(table.string_from_id(main).map(|s| s.as_str()), Some("Main"));
    assert!(table.string_from_id(20).is_none());
    // Builtin names keep their numbers.
    assert_eq!(table.insert(String::from("Int")), INT_ID);
}
