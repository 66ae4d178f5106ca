use coolc::semantic_analysis::builtins::{BOOL_ID, INT_ID};
use coolc::semantic_analysis::{SemanticAnalyzer, SemanticError, SemanticErrorKind};
use coolc::string_table::StringTable;
use coolc::utils::{parse_program, ReturnType};

fn errors_of(src: &str) -> (StringTable, Vec<SemanticError>) {
    let (table, program) = parse_program(src);
    let errors = SemanticAnalyzer::analyze_checked(&program).unwrap().unwrap_err();
    (table, errors)
}

#[test]
fn redefined_method() {
    let (t, errors) = errors_of("class A { f(): Int { 1 }; f(): Int { 2 }; };");
    let a = t.lookup("A").unwrap();
    let f = t.lookup("f").unwrap();
    assert_eq!(errors[0].kind, SemanticErrorKind::RedefinedMethod { class: a, method: f });
}

#[test]
fn wrong_override_signature() {
    let (t, errors) =
        errors_of("class A { f(): Int { 1 }; }; class B inherits A { f(): Bool { true }; };");
    let b = t.lookup("B").unwrap();
    let f = t.lookup("f").unwrap();
    assert_eq!(errors, vec![SemanticError { kind: SemanticErrorKind::WrongOverrideSignature { class: b, method: f }, span: None }]);
}

#[test]
fn undefined_method() {
    let (t, errors) = errors_of("class Main { f(): Int { g() }; };");
    let main = t.lookup("Main").unwrap();
    let g = t.lookup("g").unwrap();
    assert_eq!(errors[0].kind, SemanticErrorKind::UndefinedMethod { class: main, method: g });
}

#[test]
fn assignment_to_self() {
    let (_, errors) = errors_of("class Main { f(): Object { self <- 1 }; };");
    assert_eq!(errors[0].kind, SemanticErrorKind::AssignmentToSelf);
}

#[test]
fn arithmetic_needs_integers() {
    let (_, errors) = errors_of("class Main { f(): Int { 1 + true }; };");
    assert_eq!(
        errors[0].kind,
        SemanticErrorKind::TypeMismatch { expected: ReturnType::Type(INT_ID), found: ReturnType::Type(BOOL_ID) }
    );
    assert!(errors[0].span.is_some());
}

#[test]
fn negation_needs_an_integer() {
    let (_, errors) = errors_of("class Main { f(): Int { ~true }; };");
    assert_eq!(
        errors[0].kind,
        SemanticErrorKind::TypeMismatch { expected: ReturnType::Type(INT_ID), found: ReturnType::Type(BOOL_ID) }
    );
}

#[test]
fn body_must_conform_to_the_return_type() {
    let (_, errors) = errors_of("class Main { f(): Int { true }; };");
    assert_eq!(
        errors[0].kind,
        SemanticErrorKind::TypeMismatch { expected: ReturnType::Type(INT_ID), found: ReturnType::Type(BOOL_ID) }
    );
    assert!(errors[0].span.is_some());
}

#[test]
fn wrong_number_of_arguments() {
    let (_, errors) = errors_of("class Main { f(y: Int): Int { y }; g(): Int { f() }; };");
    assert_eq!(errors[0].kind, SemanticErrorKind::WrongNumberOfArguments { expected: 1, found: 0 });
}

#[test]
fn duplicate_case_branch_type() {
    let (_, errors) =
        errors_of("class Main { f(): Int { case 1 of a: Int => 1; b: Int => 2; esac }; };");
    assert_eq!(errors[0].kind, SemanticErrorKind::DuplicateCaseBranchType { ty: INT_ID });
}
