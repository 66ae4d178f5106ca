use coolc::semantic_analysis::symbol_table::SymbolTable;

#[test]
fn lookup_searches_from_the_innermost_scope() {
    let mut table: SymbolTable<usize, &str> = SymbolTable::new();
    assert_eq!(table.scopes_len(), 0);
    table.enter_scope();
    table.add_id(1, "outer");
    table.add_id(2, "two");
    table.enter_scope();
    // Entering a scope hides nothing.
    assert_eq!(table.lookup(&1), Some(&"outer"));
    table.add_id(1, "inner");
    // A lookup after binding finds the new data; other symbols keep theirs.
    assert_eq!(table.lookup(&1), Some(&"inner"));
    assert_eq!(table.lookup(&2), Some(&"two"));
    assert_eq!(table.probe(&2), None);
    assert_eq!(table.probe(&1), Some(&"inner"));
    // Exiting the scope undoes what entering it did.
    table.exit_scope();
    assert_eq!(table.lookup(&1), Some(&"outer"));
    assert_eq!(table.scopes_len(), 1);
    assert_eq!(table.lookup(&3), None);
}
