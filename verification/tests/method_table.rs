use coolc::semantic_analysis::method_table::{FormalInfo, MethodInfo, MethodTable, ReturnType};
use coolc::semantic_analysis::builtins::{
    ABORT_ID, INT_ID, IO_ID, I_ID, LENGTH_ID, L_ID, OBJECT_ID, OUT_STRING_ID, STRING_ID, SUBSTR_ID, X_ID,
};
use coolc::utils::parse_program;

#[test]
fn valid_methods() {
    let (s_table, program) = parse_program(
        r#"
            class A {
                foo() : Int { 0 };
            };
            class B {
                foo() : Bool { true };
            };
            class C {
                foo(x: Int, y: Bool): Int {
                    x
                };
            };
            class D {
                foo(): SELF_TYPE { new SELF_TYPE };
            };

            class E inherits A {
                add(x: Int, y: Int): Int {
                    x + y;
                };
            };
        "#,
    );

    let tbl = MethodTable::build(&program).unwrap();

    let a = s_table.lookup("A").unwrap();
    let b = s_table.lookup("B").unwrap();
    let c = s_table.lookup("C").unwrap();
    let d = s_table.lookup("D").unwrap();
    let e = s_table.lookup("E").unwrap();

    let x = s_table.lookup("x").unwrap();
    let y = s_table.lookup("y").unwrap();

    let foo = s_table.lookup("foo").unwrap();
    let add = s_table.lookup("add").unwrap();

    let int = s_table.lookup("Int").unwrap();
    let boolean = s_table.lookup("Bool").unwrap();

    assert_eq!(
        tbl.get(a, foo),
        Some(&MethodInfo::new(vec![], ReturnType::Type(int)))
    );
    assert_eq!(
        tbl.get(b, foo),
        Some(&MethodInfo::new(vec![], ReturnType::Type(boolean)))
    );
    assert_eq!(
        tbl.get(c, foo),
        Some(&MethodInfo::new(
            vec![FormalInfo::new(x, int), FormalInfo::new(y, boolean)],
            ReturnType::Type(int)
        ))
    );
    assert_eq!(
        tbl.get(d, foo),
        Some(&MethodInfo::new(vec![], ReturnType::SelfType))
    );
    assert_eq!(
        tbl.get(e, add),
        Some(&MethodInfo::new(
            vec![FormalInfo::new(x, int), FormalInfo::new(y, int)],
            ReturnType::Type(int)
        ))
    );
    assert!(tbl.get(a, add).is_none());
    assert!(tbl.get(e, foo).is_none());
}

#[test]
fn duplicate_methods_inside_class() {
    let (_, program) = parse_program(
        r#"
            class A {
                foo() : Int { 0 };
                foo() : Int { 1 };
            };
        "#,
    );

    assert!(MethodTable::build(&program).is_err())
}

#[test]
fn builtin_methods_are_in_the_table() {
    let (s_table, program) = parse_program(
        r#"
            class A {
                foo() : Int { 0 };
            };
        "#,
    );
    let tbl = MethodTable::build(&program).unwrap();
    let a = s_table.lookup("A").unwrap();

    assert_eq!(
        tbl.get(IO_ID, OUT_STRING_ID),
        Some(&MethodInfo::new(vec![FormalInfo::new(X_ID, STRING_ID)], ReturnType::SelfType))
    );
    assert_eq!(
        tbl.get(OBJECT_ID, ABORT_ID),
        Some(&MethodInfo::new(vec![], ReturnType::Type(OBJECT_ID)))
    );
    assert_eq!(
        tbl.get(STRING_ID, SUBSTR_ID),
        Some(&MethodInfo::new(
            vec![FormalInfo::new(I_ID, INT_ID), FormalInfo::new(L_ID, INT_ID)],
            ReturnType::Type(STRING_ID)
        ))
    );
    assert!(tbl.get(INT_ID, LENGTH_ID).is_none());
    assert!(tbl.get(a, OUT_STRING_ID).is_none());
    assert!(tbl.contains(a, s_table.lookup("foo").unwrap()));
}

#[test]
fn builtin_method_redefined_in_its_class() {
    let (_, program) = parse_program(
        r#"
            class IO {
                out_string(x: String) : SELF_TYPE { self };
            };
        "#,
    );
    assert!(MethodTable::build(&program).is_err())
}
