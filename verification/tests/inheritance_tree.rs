use coolc::semantic_analysis::builtins::{BOOL_ID, INT_ID, IO_ID, OBJECT_ID, STRING_ID};
use coolc::semantic_analysis::inheritance_tree::InheritanceTree;
use coolc::semantic_analysis::{SemanticError, SemanticErrorKind};
use coolc::utils::parse_program;

#[test]
fn is_seeded() {
    let (s_table, program) = parse_program(
        r#"
                class A {};
            "#,
    );

    let tree = InheritanceTree::build(&program).unwrap();
    let a = s_table.lookup("A").unwrap();

    assert_eq!(tree.parent(a), Some(OBJECT_ID));

    assert!(tree.contains(OBJECT_ID));
    assert!(tree.contains(BOOL_ID));
    assert!(tree.contains(STRING_ID));
    assert!(tree.contains(INT_ID));
    assert!(tree.contains(IO_ID));

    assert_eq!(tree.parent(BOOL_ID), Some(OBJECT_ID));
    assert_eq!(tree.parent(STRING_ID), Some(OBJECT_ID));
    assert_eq!(tree.parent(INT_ID), Some(OBJECT_ID));
    assert_eq!(tree.parent(IO_ID), Some(OBJECT_ID));
}
#[test]
fn valid_hierarchy() {
    let (s_table, program) = parse_program(
        r#"
                class A {};
                class B inherits A {};
                class C inherits A {};
                class D inherits B {};
            "#,
    );

    let tree = InheritanceTree::build(&program).unwrap();

    let a = s_table.lookup("A").unwrap();
    let b = s_table.lookup("B").unwrap();
    let c = s_table.lookup("C").unwrap();
    let d = s_table.lookup("D").unwrap();

    assert_eq!(tree.parent(a), Some(OBJECT_ID));
    assert_eq!(tree.parent(b), Some(a));
    assert_eq!(tree.parent(c), Some(a));
    assert_eq!(tree.parent(d), Some(b));
}

#[test]
fn circular_hierarchy() {
    let (_, program) = parse_program(
        r#"
                class A inherits B {};
                class B inherits A {};
            "#,
    );

    let errors = InheritanceTree::build(&program).unwrap_err();

    assert_eq!(errors.len(), 1);
    assert_eq!(
        errors[0],
        SemanticError {
            kind: SemanticErrorKind::InheritanceCycle,
            span: None
        }
    );
}

#[test]
fn nonexistent_parent() {
    let (s_table, program) = parse_program(
        r#"
                class A inherits B {};
            "#,
    );

    let b = s_table.lookup("B").unwrap();
    let errors = InheritanceTree::build(&program).unwrap_err();

    assert_eq!(errors.len(), 1);
    assert_eq!(
        errors[0],
        SemanticError {
            kind: SemanticErrorKind::UndefinedClass { name: b },
            span: None
        }
    );
}

#[test]
fn duplicate_class() {
    let (s_table, program) = parse_program(
        r#"
                class A {};
                class A {};
            "#,
    );

    let errors = InheritanceTree::build(&program).unwrap_err();
    let a = s_table.lookup("A").unwrap();

    assert_eq!(errors.len(), 1);
    assert_eq!(
        errors[0],
        SemanticError {
            kind: SemanticErrorKind::DuplicateClass { name: a },
            span: None
        }
    );
}

#[test]
fn subtype_and_ancestor() {
    let (s_table, program) = parse_program(
        r#"
                class A {};
                class B inherits A {};
                class C inherits B {};
            "#,
    );

    let tree = InheritanceTree::build(&program).unwrap();

    let a = s_table.lookup("A").unwrap();
    let b = s_table.lookup("B").unwrap();
    let c = s_table.lookup("C").unwrap();

    assert!(tree.is_ancestor(a, b));
    assert!(tree.is_ancestor(a, c));
    assert!(tree.is_ancestor(b, c));

    assert!(!tree.is_ancestor(c, b));
    assert!(!tree.is_ancestor(c, a));

    assert!(tree.is_subtype(c, a));
    assert!(tree.is_subtype(c, b));
    assert!(tree.is_subtype(c, c));

    assert!(!tree.is_subtype(a, c));
}

#[test]
fn lub() {
    let (s_table, program) = parse_program(
        r#"
                class A {};
                class B inherits A {};
                class C inherits A {};
                class D inherits B {};
            "#,
    );

    let tree = InheritanceTree::build(&program).unwrap();

    let a = s_table.lookup("A").unwrap();
    let b = s_table.lookup("B").unwrap();
    let c = s_table.lookup("C").unwrap();
    let d = s_table.lookup("D").unwrap();

    assert_eq!(tree.lub(d, d), d);
    assert_eq!(tree.lub(d, b), b);
    assert_eq!(tree.lub(d, c), a);
    assert_eq!(tree.lub(b, c), a);
    assert_eq!(tree.lub(c, a), a);
}

#[test]
fn subtyping_is_transitive_and_antisymmetric() {
    let (s_table, program) = parse_program(
        r#"
            class A {};
            class B inherits A {};
            class C inherits B {};
        "#,
    );
    let tree = InheritanceTree::build(&program).unwrap();
    let a = s_table.lookup("A").unwrap();
    let b = s_table.lookup("B").unwrap();
    let c = s_table.lookup("C").unwrap();
    assert!(tree.is_subtype(c, b) && tree.is_subtype(b, a) && tree.is_subtype(c, a));
    assert!(tree.is_subtype(a, OBJECT_ID));
    assert!(!(tree.is_subtype(a, b) && tree.is_subtype(b, a)));
}

#[test]
fn lub_is_symmetric_and_least() {
    let (s_table, program) = parse_program(
        r#"
            class A {};
            class B inherits A {};
            class C inherits A {};
            class D inherits B {};
            class E {};
        "#,
    );
    let tree = InheritanceTree::build(&program).unwrap();
    let a = s_table.lookup("A").unwrap();
    let c = s_table.lookup("C").unwrap();
    let d = s_table.lookup("D").unwrap();
    let e = s_table.lookup("E").unwrap();
    assert_eq!(tree.lub(d, c), tree.lub(c, d));
    assert_eq!(tree.lub(d, c), a);
    assert_eq!(tree.lub(d, e), OBJECT_ID);
    assert_eq!(tree.lub(INT_ID, STRING_ID), OBJECT_ID);
    assert!(tree.have_common_ancestor(d, e));
    assert!(!tree.have_common_ancestor(d, 1000));
}

#[test]
fn hierarchy_knows_only_builtin_and_declared_classes() {
    let (s_table, program) = parse_program(
        r#"
                class A inherits IO {};
                class B { x: A; };
            "#,
    );

    let tree = InheritanceTree::build(&program).unwrap();
    let a = s_table.lookup("A").unwrap();
    let b = s_table.lookup("B").unwrap();
    let x = s_table.lookup("x").unwrap();

    assert_eq!(tree.parent(a), Some(IO_ID));
    assert_eq!(tree.parent(b), Some(OBJECT_ID));
    assert_eq!(tree.parent(OBJECT_ID), None);
    assert!(!tree.contains(x));
    assert_eq!(tree.parent(x), None);
}
