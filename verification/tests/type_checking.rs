use coolc::semantic_analysis::builtins::{BOOL_ID, INT_ID, OUT_INT_ID, STRING_ID};
use coolc::utils::ReturnType;
use coolc::semantic_analysis::{SemanticAnalyzer, SemanticError, SemanticErrorKind};
use coolc::{ast, utils::parse_program};

#[test]
fn object_inheritance() {
    let (_, program) = parse_program(
        r#"
            class Main inherits Object {
                x: Int <- 1;
                y: Bool <- true;
                z: String <- "String";
            };
        "#,
    );

    assert!(SemanticAnalyzer::analyze(&program).is_ok());
}

#[test]
fn constant_attributes() {
    let (s_table, program) = parse_program(
        r#"
            class Main {
                x: Int <- 1;
                y: Bool <- true;
                z: String <- "String";
            };
        "#,
    );

    let ast = match SemanticAnalyzer::analyze(&program) {
        Ok(p) => p,
        Err(e) => panic!("Failed semantic analysis: {:#?}", e),
    };

    let expected = ast::Root {
        classes: vec![ast::ClassNode {
            name: s_table.lookup("Main").unwrap(),
            parent: None,
            features: vec![
                ast::FeatureNode::Attribute {
                    name: s_table.lookup("x").unwrap(),
                    type_dec: ReturnType::Type(INT_ID),
                    init: Some(Box::new(ast::ExprNode {
                        kind: ast::ExprKind::IntConstant(1),
                        ty: ReturnType::Type(INT_ID),
                    })),
                },
                ast::FeatureNode::Attribute {
                    name: s_table.lookup("y").unwrap(),
                    type_dec: ReturnType::Type(BOOL_ID),
                    init: Some(Box::new(ast::ExprNode {
                        kind: ast::ExprKind::BoolConstant(true),
                        ty: ReturnType::Type(BOOL_ID),
                    })),
                },
                ast::FeatureNode::Attribute {
                    name: s_table.lookup("z").unwrap(),
                    type_dec: ReturnType::Type(STRING_ID),
                    init: Some(Box::new(ast::ExprNode {
                        kind: ast::ExprKind::StringConstant(s_table.lookup("String").unwrap()),
                        ty: ReturnType::Type(STRING_ID),
                    })),
                },
            ],
        }],
    };

    assert_eq!(ast, expected);
}

#[test]
fn analysis_reports_errors_of_the_first_failing_stage() {
    let (s_table, program) = parse_program(
        r#"
        class Main {
            x: Int <- true;
            f(): Int { y };
        };
    "#,
    );
    let x = s_table.lookup("x").unwrap();
    let y = s_table.lookup("y").unwrap();
    let errors = SemanticAnalyzer::analyze(&program).unwrap_err();
    assert_eq!(errors.len(), 2);
    assert_eq!(
        errors[0],
        SemanticError {
            kind: SemanticErrorKind::AttributeMismatch { attribute: x, found: ReturnType::Type(BOOL_ID) },
            span: None
        }
    );
    assert_eq!(
        errors[1],
        SemanticError { kind: SemanticErrorKind::UndeclaredIdentifier { name: y }, span: None }
    );
}

#[test]
fn analysis_stops_without_a_common_ancestor() {
    let (_, program) = parse_program(
        r#"
        class Main {
            x: Missing;
            f(): Object { if true then x else 1 fi };
        };
    "#,
    );
    assert!(SemanticAnalyzer::analyze_checked(&program).is_none());
}

#[test]
fn conditional_takes_the_least_upper_bound() {
    let (s_table, program) = parse_program(
        r#"
        class A {};
        class B inherits A {};
        class C inherits A {};
        class Main {
            f(): A { if true then new B else new C fi };
        };
    "#,
    );
    let a = s_table.lookup("A").unwrap();
    let root = SemanticAnalyzer::analyze(&program).unwrap();
    match &root.classes[3].features[0] {
        ast::FeatureNode::Method { body, .. } => assert_eq!(body.ty, ReturnType::Type(a)),
        other => panic!("not a method: {:?}", other),
    }
}

#[test]
fn hello_world_type_checks() {
    let (_, program) = parse_program(
        r#"
        class Main inherits IO {
            main(): SELF_TYPE {
                out_string("Hello, World.\n")
            };
        };
    "#,
    );
    let root = SemanticAnalyzer::analyze(&program).unwrap();
    match &root.classes[0].features[0] {
        ast::FeatureNode::Method { body, .. } => assert_eq!(body.ty, ReturnType::SelfType),
        other => panic!("not a method: {:?}", other),
    }
}

#[test]
fn builtin_string_methods_type_check() {
    let (_, program) = parse_program(
        r#"
        class Main {
            s: String <- "abc";
            n: Int <- s.length();
            t: String <- s.concat("d").substr(0, 1);
            o: Object <- s.copy().type_name();
        };
    "#,
    );
    assert!(SemanticAnalyzer::analyze(&program).is_ok());
}

#[test]
fn builtin_method_argument_of_wrong_type() {
    let (_, program) = parse_program(
        r#"
        class Main inherits IO {
            main(): SELF_TYPE { out_string(1) };
        };
    "#,
    );
    let errors = SemanticAnalyzer::analyze(&program).unwrap_err();
    assert_eq!(errors.len(), 1);
    assert_eq!(
        errors[0].kind,
        SemanticErrorKind::TypeMismatch { expected: ReturnType::Type(STRING_ID), found: ReturnType::Type(INT_ID) }
    );
}

#[test]
fn builtin_method_overridden_with_another_signature() {
    let (s_table, program) = parse_program(
        r#"
        class Main inherits IO {
            out_int(x: String): SELF_TYPE { self };
        };
    "#,
    );
    let main = s_table.lookup("Main").unwrap();
    let errors = SemanticAnalyzer::analyze(&program).unwrap_err();
    assert_eq!(errors.len(), 1);
    assert_eq!(
        errors[0].kind,
        SemanticErrorKind::WrongOverrideSignature { class: main, method: OUT_INT_ID }
    );
}
