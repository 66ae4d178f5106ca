use coolc::grammar;
use coolc::lexer::{ErrorKind, ErrorToken, LexerWrapper, Spanned, Token};
use coolc::parse_tree::{self, CaseBranch, Class, Expr, ExprKind, Feature, Program};
use coolc::parser::{ErrorRecovery, ParseError};
use coolc::string_table::StringTable;
use coolc::utils::{ReturnType, Span};

/// The tokens of `input`, interned into `s_table`, in the file "test".
fn lex(input: &str, s_table: &mut StringTable) -> Vec<Spanned<Token, usize, ErrorToken>> {
    let table = std::mem::replace(s_table, StringTable::new());
    let mut lexer = LexerWrapper::new(input, table, String::from("test"));
    let tokens = lexer.tokens();
    *s_table = lexer.into_table();
    tokens
}

fn copy_error(e: &ParseError) -> ParseError {
    match e {
        ParseError::InvalidToken { location } => ParseError::InvalidToken { location: *location },
        ParseError::UnrecognizedEof { location, expected } => {
            ParseError::UnrecognizedEof { location: *location, expected: expected.clone() }
        }
        ParseError::UnrecognizedToken { token, expected } => ParseError::UnrecognizedToken {
            token: (token.0, token.1.duplicate(), token.2),
            expected: expected.clone(),
        },
        ParseError::ExtraToken { token } => {
            ParseError::ExtraToken { token: (token.0, token.1.duplicate(), token.2) }
        }
        ParseError::User { error } => ParseError::User { error: error.duplicate() },
    }
}

/// The same expression with every span left out, to compare trees by
/// their shape.
fn strip(e: Expr) -> Expr {
    let kind = match e.kind {
        ExprKind::Assignment { var, expr } => ExprKind::Assignment { var, expr: bx(*expr) },
        ExprKind::Dispatch { expr, name, args } => {
            ExprKind::Dispatch { expr: bx(*expr), name, args: args.into_iter().map(strip).collect() }
        }
        ExprKind::StaticDispatch { expr, type_dec, name, args } => ExprKind::StaticDispatch {
            expr: bx(*expr),
            type_dec,
            name,
            args: args.into_iter().map(strip).collect(),
        },
        ExprKind::SelfDispatch { name, args } => {
            ExprKind::SelfDispatch { name, args: args.into_iter().map(strip).collect() }
        }
        ExprKind::Conditional { cond, happy_path, sad_path } => ExprKind::Conditional {
            cond: bx(*cond),
            happy_path: bx(*happy_path),
            sad_path: bx(*sad_path),
        },
        ExprKind::Loop { cond, body } => ExprKind::Loop { cond: bx(*cond), body: bx(*body) },
        ExprKind::Block(items) => ExprKind::Block(items.into_iter().map(strip).collect()),
        ExprKind::Let { name, type_dec, init, body } => ExprKind::Let {
            name,
            type_dec,
            init: init.map(|x| bx(*x)),
            body: bx(*body),
        },
        ExprKind::Case { cond, branches } => ExprKind::Case {
            cond: bx(*cond),
            branches: branches
                .into_iter()
                .map(|b| CaseBranch { name: b.name, type_dec: b.type_dec, body: bx(*b.body) })
                .collect(),
        },
        ExprKind::IsVoid(x) => ExprKind::IsVoid(bx(*x)),
        ExprKind::Add(a, b) => ExprKind::Add(bx(*a), bx(*b)),
        ExprKind::Sub(a, b) => ExprKind::Sub(bx(*a), bx(*b)),
        ExprKind::Mul(a, b) => ExprKind::Mul(bx(*a), bx(*b)),
        ExprKind::Div(a, b) => ExprKind::Div(bx(*a), bx(*b)),
        ExprKind::Neg(x) => ExprKind::Neg(bx(*x)),
        ExprKind::Lt(a, b) => ExprKind::Lt(bx(*a), bx(*b)),
        ExprKind::Eq(a, b) => ExprKind::Eq(bx(*a), bx(*b)),
        ExprKind::Le(a, b) => ExprKind::Le(bx(*a), bx(*b)),
        ExprKind::Not(x) => ExprKind::Not(bx(*x)),
        other => other,
    };
    Expr { kind, span: Span::default() }
}

fn bx(e: Expr) -> Box<Expr> {
    Box::new(strip(e))
}

fn strip_program(p: Program) -> Program {
    Program {
        classes: p
            .classes
            .into_iter()
            .map(|c| match c {
                Class::Valid { name, parent, features } => Class::Valid {
                    name,
                    parent,
                    features: features
                        .into_iter()
                        .map(|f| match f {
                            Feature::Attribute { name, type_dec, init } => {
                                Feature::Attribute { name, type_dec, init: init.map(|x| bx(*x)) }
                            }
                            Feature::Method { name, params, type_dec, body } => {
                                Feature::Method { name, params, type_dec, body: bx(*body) }
                            }
                            Feature::Invalid => Feature::Invalid,
                        })
                        .collect(),
                },
                Class::Invalid => Class::Invalid,
            })
            .collect(),
    }
}

/// Parses `input` as the file "test"; fails with the first error, when
/// there is any. The tree is given without its spans.
fn parse(
    input: &str,
    s_table: &mut StringTable,
    errors: &mut Vec<ErrorRecovery>,
) -> Result<parse_tree::Program, ParseError> {
    let tokens = lex(input, s_table);
    let program = grammar::ProgramParser::new().parse("test", errors, tokens)?;

    if !errors.is_empty() {
        return Err(copy_error(&errors[0].error));
    }

    Ok(strip_program(program))
}

fn i(s_table: &mut StringTable, s: &str) -> usize {
    s_table.insert(s.to_string())
}

fn e(kind: ExprKind) -> parse_tree::Expr {
    parse_tree::Expr {
        kind,
        span: Span::default(),
    }
}

fn b(kind: ExprKind) -> Box<parse_tree::Expr> {
    Box::new(e(kind))
}

#[test]
fn one_class_one_constant_attribute() {
    let mut s_table = StringTable::new();
    let mut errors = Vec::new();
    let input = r#"
        class Main {
            x: Int <- 10;
        };"#;

    assert!(parse(input, &mut s_table, &mut errors).is_ok());
    assert!(errors.is_empty());

    let mut errors = Vec::new();
    let expected = parse_tree::Program {
        classes: vec![parse_tree::Class::Valid {
            name: i(&mut s_table, "Main"),
            parent: None,
            features: vec![parse_tree::Feature::Attribute {
                name: i(&mut s_table, "x"),
                type_dec: ReturnType::Type(i(&mut s_table, "Int")),
                init: Some(b(ExprKind::IntConstant(10))),
            }],
        }],
    };

    assert_eq!(parse(input, &mut s_table, &mut errors).unwrap(), expected);
    assert!(errors.is_empty());
}

#[test]
fn one_class_many_constant_attributes() {
    let mut s_table = StringTable::new();
    let mut errors = Vec::new();
    let input = r#"
        class Main {
            x: Int <- 10;
            y: String <- "Hello World";
            z: Bool <- false;
            a: Int;
            b: String;
            c: Bool;
            d: IO;
        };"#;

    assert!(parse(input, &mut s_table, &mut errors).is_ok());
    assert!(errors.is_empty());

    let hello_world = i(&mut s_table, "Hello World");
    let mut errors = Vec::new();
    let expected = parse_tree::Program {
        classes: vec![parse_tree::Class::Valid {
            name: i(&mut s_table, "Main"),
            parent: None,
            features: vec![
                parse_tree::Feature::Attribute {
                    name: i(&mut s_table, "x"),
                    type_dec: ReturnType::Type(i(&mut s_table, "Int")),
                    init: Some(b(ExprKind::IntConstant(10))),
                },
                parse_tree::Feature::Attribute {
                    name: i(&mut s_table, "y"),
                    type_dec: ReturnType::Type(i(&mut s_table, "String")),
                    init: Some(b(ExprKind::StringConstant(hello_world))),
                },
                parse_tree::Feature::Attribute {
                    name: i(&mut s_table, "z"),
                    type_dec: ReturnType::Type(i(&mut s_table, "Bool")),
                    init: Some(b(ExprKind::BoolConstant(false))),
                },
                parse_tree::Feature::Attribute {
                    name: i(&mut s_table, "a"),
                    type_dec: ReturnType::Type(i(&mut s_table, "Int")),
                    init: None,
                },
                parse_tree::Feature::Attribute {
                    name: i(&mut s_table, "b"),
                    type_dec: ReturnType::Type(i(&mut s_table, "String")),
                    init: None,
                },
                parse_tree::Feature::Attribute {
                    name: i(&mut s_table, "c"),
                    type_dec: ReturnType::Type(i(&mut s_table, "Bool")),
                    init: None,
                },
                parse_tree::Feature::Attribute {
                    name: i(&mut s_table, "d"),
                    type_dec: ReturnType::Type(i(&mut s_table, "IO")),
                    init: None,
                },
            ],
        }],
    };

    assert_eq!(parse(input, &mut s_table, &mut errors).unwrap(), expected);
    assert!(errors.is_empty());
}

#[test]
fn class_inheritance() {
    let mut s_table = StringTable::new();
    let mut errors = Vec::new();
    let input = r#"
        class Main {};
        class A {};
        class B inherits A {};
        class C inherits B {};
        class D inherits A {};
        "#;

    assert!(parse(input, &mut s_table, &mut errors).is_ok());
    assert!(errors.is_empty());

    let mut errors = Vec::new();
    let expected = parse_tree::Program {
        classes: vec![
            parse_tree::Class::Valid {
                name: i(&mut s_table, "Main"),
                parent: None,
                features: Vec::new(),
            },
            parse_tree::Class::Valid {
                name: i(&mut s_table, "A"),
                parent: None,
                features: Vec::new(),
            },
            parse_tree::Class::Valid {
                name: i(&mut s_table, "B"),
                parent: Some(i(&mut s_table, "A")),
                features: Vec::new(),
            },
            parse_tree::Class::Valid {
                name: i(&mut s_table, "C"),
                parent: Some(i(&mut s_table, "B")),
                features: Vec::new(),
            },
            parse_tree::Class::Valid {
                name: i(&mut s_table, "D"),
                parent: Some(i(&mut s_table, "A")),
                features: Vec::new(),
            },
        ],
    };

    assert_eq!(parse(input, &mut s_table, &mut errors).unwrap(), expected);
    assert!(errors.is_empty());
}

#[test]
fn multiple_classes_constant_attributes() {
    let mut s_table = StringTable::new();
    let mut errors = Vec::new();
    let input = r#"
        class Main {
            x: Int <- 1;
        };
        class Test {
            y: Bool <- true;
        };
        class Test2 {
            z: String <- "String";
        };
        "#;

    assert!(parse(input, &mut s_table, &mut errors).is_ok());
    assert!(errors.is_empty());

    let string_id = i(&mut s_table, "String");
    let mut errors = Vec::new();
    let expected = parse_tree::Program {
        classes: vec![
            parse_tree::Class::Valid {
                name: i(&mut s_table, "Main"),
                parent: None,
                features: vec![parse_tree::Feature::Attribute {
                    name: i(&mut s_table, "x"),
                    type_dec: ReturnType::Type(i(&mut s_table, "Int")),
                    init: Some(b(ExprKind::IntConstant(1))),
                }],
            },
            parse_tree::Class::Valid {
                name: i(&mut s_table, "Test"),
                parent: None,
                features: vec![parse_tree::Feature::Attribute {
                    name: i(&mut s_table, "y"),
                    type_dec: ReturnType::Type(i(&mut s_table, "Bool")),
                    init: Some(b(ExprKind::BoolConstant(true))),
                }],
            },
            parse_tree::Class::Valid {
                name: i(&mut s_table, "Test2"),
                parent: None,
                features: vec![parse_tree::Feature::Attribute {
                    name: i(&mut s_table, "z"),
                    type_dec: ReturnType::Type(string_id),
                    init: Some(b(ExprKind::StringConstant(string_id))),
                }],
            },
        ],
    };

    assert_eq!(parse(input, &mut s_table, &mut errors).unwrap(), expected);
    assert!(errors.is_empty());
}

#[test]
fn method_no_params() {
    let mut s_table = StringTable::new();
    let mut errors = Vec::new();
    let input = r#"
        class Main {
            doStuff(): Int { 42 };
        };"#;

    assert!(parse(input, &mut s_table, &mut errors).is_ok());
    assert!(errors.is_empty());

    let mut errors = Vec::new();
    let expected = parse_tree::Program {
        classes: vec![parse_tree::Class::Valid {
            name: i(&mut s_table, "Main"),
            parent: None,
            features: vec![parse_tree::Feature::Method {
                name: i(&mut s_table, "doStuff"),
                params: vec![],
                type_dec: ReturnType::Type(i(&mut s_table, "Int")),
                body: b(ExprKind::IntConstant(42)),
            }],
        }],
    };

    assert_eq!(parse(input, &mut s_table, &mut errors).unwrap(), expected);
    assert!(errors.is_empty());
}

#[test]
fn method_with_params() {
    let mut s_table = StringTable::new();
    let mut errors = Vec::new();
    let input = r#"
        class Main {
            isNull(o: Object): Bool { false };
        };"#;

    assert!(parse(input, &mut s_table, &mut errors).is_ok());
    assert!(errors.is_empty());

    let mut errors = Vec::new();
    let expected = parse_tree::Program {
        classes: vec![parse_tree::Class::Valid {
            name: i(&mut s_table, "Main"),
            parent: None,
            features: vec![parse_tree::Feature::Method {
                name: i(&mut s_table, "isNull"),
                params: vec![parse_tree::Formal {
                    name: i(&mut s_table, "o"),
                    type_dec: i(&mut s_table, "Object"),
                }],
                type_dec: ReturnType::Type(i(&mut s_table, "Bool")),
                body: b(ExprKind::BoolConstant(false)),
            }],
        }],
    };

    assert_eq!(parse(input, &mut s_table, &mut errors).unwrap(), expected);
    assert!(errors.is_empty());
}

#[test]
fn method_with_body_and_params() {
    let mut s_table = StringTable::new();
    let mut errors = Vec::new();
    let input = r#"
        class Main {
            add(x: Int): Int { 42 };
        };"#;

    assert!(parse(input, &mut s_table, &mut errors).is_ok());
    assert!(errors.is_empty());

    let mut errors = Vec::new();
    let expected = parse_tree::Program {
        classes: vec![parse_tree::Class::Valid {
            name: i(&mut s_table, "Main"),
            parent: None,
            features: vec![parse_tree::Feature::Method {
                name: i(&mut s_table, "add"),
                params: vec![parse_tree::Formal {
                    name: i(&mut s_table, "x"),
                    type_dec: i(&mut s_table, "Int"),
                }],
                type_dec: ReturnType::Type(i(&mut s_table, "Int")),
                body: b(ExprKind::IntConstant(42)),
            }],
        }],
    };

    assert_eq!(parse(input, &mut s_table, &mut errors).unwrap(), expected);
    assert!(errors.is_empty());
}

#[test]
fn method_with_assignment() {
    let mut s_table = StringTable::new();
    let mut errors = Vec::new();
    let input = r#"
        class Main {
            changeValue(from: Int, to: Int): Int { from <- to };
        };"#;

    assert!(parse(input, &mut s_table, &mut errors).is_ok());
    assert!(errors.is_empty());

    let to_id = i(&mut s_table, "to");
    let mut errors = Vec::new();
    let expected = parse_tree::Program {
        classes: vec![parse_tree::Class::Valid {
            name: i(&mut s_table, "Main"),
            parent: None,
            features: vec![parse_tree::Feature::Method {
                name: i(&mut s_table, "changeValue"),
                params: vec![
                    parse_tree::Formal {
                        name: i(&mut s_table, "from"),
                        type_dec: i(&mut s_table, "Int"),
                    },
                    parse_tree::Formal {
                        name: to_id,
                        type_dec: i(&mut s_table, "Int"),
                    },
                ],
                type_dec: ReturnType::Type(i(&mut s_table, "Int")),
                body: b(ExprKind::Assignment {
                    var: parse_tree::Var::Id(i(&mut s_table, "from")),
                    expr: b(ExprKind::Object(to_id)),
                }),
            }],
        }],
    };

    assert_eq!(parse(input, &mut s_table, &mut errors).unwrap(), expected);
    assert!(errors.is_empty());
}

#[test]
fn conditional_basic() {
    let mut s_table = StringTable::new();
    let mut errors = Vec::new();
    let input = r#"
        class Main {
            test(): Int { if true then 1 else 0 fi };
        };"#;

    assert!(parse(input, &mut s_table, &mut errors).is_ok());
    assert!(errors.is_empty());

    let mut errors = Vec::new();
    let expected = parse_tree::Program {
        classes: vec![parse_tree::Class::Valid {
            name: i(&mut s_table, "Main"),
            parent: None,
            features: vec![parse_tree::Feature::Method {
                name: i(&mut s_table, "test"),
                params: vec![],
                type_dec: ReturnType::Type(i(&mut s_table, "Int")),
                body: b(ExprKind::Conditional {
                    cond: b(ExprKind::BoolConstant(true)),
                    happy_path: b(ExprKind::IntConstant(1)),
                    sad_path: b(ExprKind::IntConstant(0)),
                }),
            }],
        }],
    };

    assert_eq!(parse(input, &mut s_table, &mut errors).unwrap(), expected);
    assert!(errors.is_empty());
}

#[test]
fn while_loop_basic() {
    let mut s_table = StringTable::new();
    let mut errors = Vec::new();
    let input = r#"
        class Main {
            test(): Int { while true loop 1 pool };
        };"#;

    assert!(parse(input, &mut s_table, &mut errors).is_ok());
    assert!(errors.is_empty());

    let mut errors = Vec::new();
    let expected = parse_tree::Program {
        classes: vec![parse_tree::Class::Valid {
            name: i(&mut s_table, "Main"),
            parent: None,
            features: vec![parse_tree::Feature::Method {
                name: i(&mut s_table, "test"),
                params: vec![],
                type_dec: ReturnType::Type(i(&mut s_table, "Int")),
                body: b(ExprKind::Loop {
                    cond: b(ExprKind::BoolConstant(true)),
                    body: b(ExprKind::IntConstant(1)),
                }),
            }],
        }],
    };

    assert_eq!(parse(input, &mut s_table, &mut errors).unwrap(), expected);
    assert!(errors.is_empty());
}

#[test]
fn block_single_expr() {
    let mut s_table = StringTable::new();
    let mut errors = Vec::new();
    let input = r#"
        class Main {
            test(): Int { { 42; } };
        };"#;

    assert!(parse(input, &mut s_table, &mut errors).is_ok());
    assert!(errors.is_empty());

    let mut errors = Vec::new();
    let expected = parse_tree::Program {
        classes: vec![parse_tree::Class::Valid {
            name: i(&mut s_table, "Main"),
            parent: None,
            features: vec![parse_tree::Feature::Method {
                name: i(&mut s_table, "test"),
                params: vec![],
                type_dec: ReturnType::Type(i(&mut s_table, "Int")),
                body: b(ExprKind::Block(vec![e(ExprKind::IntConstant(42))])),
            }],
        }],
    };

    assert_eq!(parse(input, &mut s_table, &mut errors).unwrap(), expected);
    assert!(errors.is_empty());
}

#[test]
fn block_multiple_exprs() {
    let mut s_table = StringTable::new();
    let mut errors = Vec::new();
    let input = r#"
        class Main {
            test(): Int { { 1; 2; 3; } };
        };"#;

    assert!(parse(input, &mut s_table, &mut errors).is_ok());
    assert!(errors.is_empty());

    let mut errors = Vec::new();
    let expected = parse_tree::Program {
        classes: vec![parse_tree::Class::Valid {
            name: i(&mut s_table, "Main"),
            parent: None,
            features: vec![parse_tree::Feature::Method {
                name: i(&mut s_table, "test"),
                params: vec![],
                type_dec: ReturnType::Type(i(&mut s_table, "Int")),
                body: b(ExprKind::Block(vec![
                    e(ExprKind::IntConstant(1)),
                    e(ExprKind::IntConstant(2)),
                    e(ExprKind::IntConstant(3)),
                ])),
            }],
        }],
    };

    assert_eq!(parse(input, &mut s_table, &mut errors).unwrap(), expected);
    assert!(errors.is_empty());
}

#[test]
fn new_object() {
    let mut s_table = StringTable::new();
    let mut errors = Vec::new();
    let input = r#"
        class Main {
            test(): Object { new Object };
        };"#;

    assert!(parse(input, &mut s_table, &mut errors).is_ok());
    assert!(errors.is_empty());

    let mut errors = Vec::new();
    let expected = parse_tree::Program {
        classes: vec![parse_tree::Class::Valid {
            name: i(&mut s_table, "Main"),
            parent: None,
            features: vec![parse_tree::Feature::Method {
                name: i(&mut s_table, "test"),
                params: vec![],
                type_dec: ReturnType::Type(i(&mut s_table, "Object")),
                body: b(ExprKind::New(ReturnType::Type(i(&mut s_table, "Object")))),
            }],
        }],
    };

    assert_eq!(parse(input, &mut s_table, &mut errors).unwrap(), expected);
    assert!(errors.is_empty());
}

#[test]
fn isvoid_expr() {
    let mut s_table = StringTable::new();
    let mut errors = Vec::new();
    let input = r#"
        class Main {
            test(): Bool { isvoid 42 };
        };"#;

    assert!(parse(input, &mut s_table, &mut errors).is_ok());
    assert!(errors.is_empty());

    let mut errors = Vec::new();
    let expected = parse_tree::Program {
        classes: vec![parse_tree::Class::Valid {
            name: i(&mut s_table, "Main"),
            parent: None,
            features: vec![parse_tree::Feature::Method {
                name: i(&mut s_table, "test"),
                params: vec![],
                type_dec: ReturnType::Type(i(&mut s_table, "Bool")),
                body: b(ExprKind::IsVoid(b(ExprKind::IntConstant(42)))),
            }],
        }],
    };

    assert_eq!(parse(input, &mut s_table, &mut errors).unwrap(), expected);
    assert!(errors.is_empty());
}

#[test]
fn negation_expr() {
    let mut s_table = StringTable::new();
    let mut errors = Vec::new();
    let input = r#"
        class Main {
            test(): Int { ~42 };
        };"#;

    assert!(parse(input, &mut s_table, &mut errors).is_ok());
    assert!(errors.is_empty());

    let mut errors = Vec::new();
    let expected = parse_tree::Program {
        classes: vec![parse_tree::Class::Valid {
            name: i(&mut s_table, "Main"),
            parent: None,
            features: vec![parse_tree::Feature::Method {
                name: i(&mut s_table, "test"),
                params: vec![],
                type_dec: ReturnType::Type(i(&mut s_table, "Int")),
                body: b(ExprKind::Neg(b(ExprKind::IntConstant(42)))),
            }],
        }],
    };

    assert_eq!(parse(input, &mut s_table, &mut errors).unwrap(), expected);
    assert!(errors.is_empty());
}

#[test]
fn not_expr() {
    let mut s_table = StringTable::new();
    let mut errors = Vec::new();
    let input = r#"
        class Main {
            test(): Bool { not true };
        };"#;

    assert!(parse(input, &mut s_table, &mut errors).is_ok());
    assert!(errors.is_empty());

    let mut errors = Vec::new();
    let expected = parse_tree::Program {
        classes: vec![parse_tree::Class::Valid {
            name: i(&mut s_table, "Main"),
            parent: None,
            features: vec![parse_tree::Feature::Method {
                name: i(&mut s_table, "test"),
                params: vec![],
                type_dec: ReturnType::Type(i(&mut s_table, "Bool")),
                body: b(ExprKind::Not(b(ExprKind::BoolConstant(true)))),
            }],
        }],
    };

    assert_eq!(parse(input, &mut s_table, &mut errors).unwrap(), expected);
    assert!(errors.is_empty());
}

#[test]
fn arithmetic_add() {
    let mut s_table = StringTable::new();
    let mut errors = Vec::new();
    let input = r#"
        class Main {
            test(): Int { 1 + 2 };
        };"#;

    assert!(parse(input, &mut s_table, &mut errors).is_ok());
    assert!(errors.is_empty());

    let mut errors = Vec::new();
    let expected = parse_tree::Program {
        classes: vec![parse_tree::Class::Valid {
            name: i(&mut s_table, "Main"),
            parent: None,
            features: vec![parse_tree::Feature::Method {
                name: i(&mut s_table, "test"),
                params: vec![],
                type_dec: ReturnType::Type(i(&mut s_table, "Int")),
                body: b(ExprKind::Add(
                    b(ExprKind::IntConstant(1)),
                    b(ExprKind::IntConstant(2)),
                )),
            }],
        }],
    };

    assert_eq!(parse(input, &mut s_table, &mut errors).unwrap(), expected);
    assert!(errors.is_empty());
}

#[test]
fn arithmetic_sub() {
    let mut s_table = StringTable::new();
    let mut errors = Vec::new();
    let input = r#"
        class Main {
            test(): Int { 5 - 3 };
        };"#;

    assert!(parse(input, &mut s_table, &mut errors).is_ok());
    assert!(errors.is_empty());

    let mut errors = Vec::new();
    let expected = parse_tree::Program {
        classes: vec![parse_tree::Class::Valid {
            name: i(&mut s_table, "Main"),
            parent: None,
            features: vec![parse_tree::Feature::Method {
                name: i(&mut s_table, "test"),
                params: vec![],
                type_dec: ReturnType::Type(i(&mut s_table, "Int")),
                body: b(ExprKind::Sub(
                    b(ExprKind::IntConstant(5)),
                    b(ExprKind::IntConstant(3)),
                )),
            }],
        }],
    };

    assert_eq!(parse(input, &mut s_table, &mut errors).unwrap(), expected);
    assert!(errors.is_empty());
}

#[test]
fn arithmetic_mul() {
    let mut s_table = StringTable::new();
    let mut errors = Vec::new();
    let input = r#"
        class Main {
            test(): Int { 3 * 4 };
        };"#;

    assert!(parse(input, &mut s_table, &mut errors).is_ok());
    assert!(errors.is_empty());

    let mut errors = Vec::new();
    let expected = parse_tree::Program {
        classes: vec![parse_tree::Class::Valid {
            name: i(&mut s_table, "Main"),
            parent: None,
            features: vec![parse_tree::Feature::Method {
                name: i(&mut s_table, "test"),
                params: vec![],
                type_dec: ReturnType::Type(i(&mut s_table, "Int")),
                body: b(ExprKind::Mul(
                    b(ExprKind::IntConstant(3)),
                    b(ExprKind::IntConstant(4)),
                )),
            }],
        }],
    };

    assert_eq!(parse(input, &mut s_table, &mut errors).unwrap(), expected);
    assert!(errors.is_empty());
}

#[test]
fn arithmetic_div() {
    let mut s_table = StringTable::new();
    let mut errors = Vec::new();
    let input = r#"
        class Main {
            test(): Int { 10 / 2 };
        };"#;

    assert!(parse(input, &mut s_table, &mut errors).is_ok());
    assert!(errors.is_empty());

    let mut errors = Vec::new();
    let expected = parse_tree::Program {
        classes: vec![parse_tree::Class::Valid {
            name: i(&mut s_table, "Main"),
            parent: None,
            features: vec![parse_tree::Feature::Method {
                name: i(&mut s_table, "test"),
                params: vec![],
                type_dec: ReturnType::Type(i(&mut s_table, "Int")),
                body: b(ExprKind::Div(
                    b(ExprKind::IntConstant(10)),
                    b(ExprKind::IntConstant(2)),
                )),
            }],
        }],
    };

    assert_eq!(parse(input, &mut s_table, &mut errors).unwrap(), expected);
    assert!(errors.is_empty());
}

#[test]
fn comparison_lt() {
    let mut s_table = StringTable::new();
    let mut errors = Vec::new();
    let input = r#"
        class Main {
            test(): Bool { 1 < 2 };
        };"#;

    assert!(parse(input, &mut s_table, &mut errors).is_ok());
    assert!(errors.is_empty());

    let mut errors = Vec::new();
    let expected = parse_tree::Program {
        classes: vec![parse_tree::Class::Valid {
            name: i(&mut s_table, "Main"),
            parent: None,
            features: vec![parse_tree::Feature::Method {
                name: i(&mut s_table, "test"),
                params: vec![],
                type_dec: ReturnType::Type(i(&mut s_table, "Bool")),
                body: b(ExprKind::Lt(
                    b(ExprKind::IntConstant(1)),
                    b(ExprKind::IntConstant(2)),
                )),
            }],
        }],
    };

    assert_eq!(parse(input, &mut s_table, &mut errors).unwrap(), expected);
    assert!(errors.is_empty());
}

#[test]
fn comparison_le() {
    let mut s_table = StringTable::new();
    let mut errors = Vec::new();
    let input = r#"
        class Main {
            test(): Bool { 1 <= 2 };
        };"#;

    assert!(parse(input, &mut s_table, &mut errors).is_ok());
    assert!(errors.is_empty());

    let mut errors = Vec::new();
    let expected = parse_tree::Program {
        classes: vec![parse_tree::Class::Valid {
            name: i(&mut s_table, "Main"),
            parent: None,
            features: vec![parse_tree::Feature::Method {
                name: i(&mut s_table, "test"),
                params: vec![],
                type_dec: ReturnType::Type(i(&mut s_table, "Bool")),
                body: b(ExprKind::Le(
                    b(ExprKind::IntConstant(1)),
                    b(ExprKind::IntConstant(2)),
                )),
            }],
        }],
    };

    assert_eq!(parse(input, &mut s_table, &mut errors).unwrap(), expected);
    assert!(errors.is_empty());
}

#[test]
fn comparison_gt() {
    let mut s_table = StringTable::new();
    let mut errors = Vec::new();
    let input = r#"
        class Main {
            test(): Bool {
                2 > 1
            };
        };"#;

    assert!(parse(input, &mut s_table, &mut errors).is_ok());
    assert!(errors.is_empty());

    let mut errors = Vec::new();
    let expected = parse_tree::Program {
        classes: vec![parse_tree::Class::Valid {
            name: i(&mut s_table, "Main"),
            parent: None,
            features: vec![parse_tree::Feature::Method {
                name: i(&mut s_table, "test"),
                params: Vec::new(),
                type_dec: ReturnType::Type(i(&mut s_table, "Bool")),
                body: b(ExprKind::Lt(
                    b(ExprKind::IntConstant(1)),
                    b(ExprKind::IntConstant(2)),
                )),
            }],
        }],
    };

    assert_eq!(parse(input, &mut s_table, &mut errors).unwrap(), expected);
    assert!(errors.is_empty());
}

#[test]
fn comparison_ge() {
    let mut s_table = StringTable::new();
    let mut errors = Vec::new();
    let input = r#"
        class Main {
            test(): Bool {
                2 >= 1
            };
        };"#;

    assert!(parse(input, &mut s_table, &mut errors).is_ok());
    assert!(errors.is_empty());

    let mut errors = Vec::new();
    let expected = parse_tree::Program {
        classes: vec![parse_tree::Class::Valid {
            name: i(&mut s_table, "Main"),
            parent: None,
            features: vec![parse_tree::Feature::Method {
                name: i(&mut s_table, "test"),
                params: Vec::new(),
                type_dec: ReturnType::Type(i(&mut s_table, "Bool")),
                body: b(ExprKind::Le(
                    b(ExprKind::IntConstant(1)),
                    b(ExprKind::IntConstant(2)),
                )),
            }],
        }],
    };

    assert_eq!(parse(input, &mut s_table, &mut errors).unwrap(), expected);
    assert!(errors.is_empty());
}

#[test]
fn comparison_eq() {
    let mut s_table = StringTable::new();
    let mut errors = Vec::new();
    let input = r#"
        class Main {
            test(): Bool { 1 = 1 };
        };"#;

    assert!(parse(input, &mut s_table, &mut errors).is_ok());
    assert!(errors.is_empty());

    let mut errors = Vec::new();
    let expected = parse_tree::Program {
        classes: vec![parse_tree::Class::Valid {
            name: i(&mut s_table, "Main"),
            parent: None,
            features: vec![parse_tree::Feature::Method {
                name: i(&mut s_table, "test"),
                params: vec![],
                type_dec: ReturnType::Type(i(&mut s_table, "Bool")),
                body: b(ExprKind::Eq(
                    b(ExprKind::IntConstant(1)),
                    b(ExprKind::IntConstant(1)),
                )),
            }],
        }],
    };

    assert_eq!(parse(input, &mut s_table, &mut errors).unwrap(), expected);
    assert!(errors.is_empty());
}

#[test]
fn case_single_branch() {
    let mut s_table = StringTable::new();
    let mut errors = Vec::new();
    let input = r#"
        class Main {
            test(): Int { case 42 of x: Int => 1; esac };
        };"#;

    assert!(parse(input, &mut s_table, &mut errors).is_ok());
    assert!(errors.is_empty());

    let mut errors = Vec::new();
    let expected = parse_tree::Program {
        classes: vec![parse_tree::Class::Valid {
            name: i(&mut s_table, "Main"),
            parent: None,
            features: vec![parse_tree::Feature::Method {
                name: i(&mut s_table, "test"),
                params: vec![],
                type_dec: ReturnType::Type(i(&mut s_table, "Int")),
                body: b(ExprKind::Case {
                    cond: b(ExprKind::IntConstant(42)),
                    branches: vec![parse_tree::CaseBranch {
                        name: i(&mut s_table, "x"),
                        type_dec: i(&mut s_table, "Int"),
                        body: b(ExprKind::IntConstant(1)),
                    }],
                }),
            }],
        }],
    };

    assert_eq!(parse(input, &mut s_table, &mut errors).unwrap(), expected);
    assert!(errors.is_empty());
}

#[test]
fn case_multiple_branches() {
    let mut s_table = StringTable::new();
    let mut errors = Vec::new();
    let input = r#"
        class Main {
            test(): Int { case 42 of x: Int => 1; y: Bool => 2; esac };
        };"#;

    assert!(parse(input, &mut s_table, &mut errors).is_ok());
    assert!(errors.is_empty());

    let mut errors = Vec::new();
    let expected = parse_tree::Program {
        classes: vec![parse_tree::Class::Valid {
            name: i(&mut s_table, "Main"),
            parent: None,
            features: vec![parse_tree::Feature::Method {
                name: i(&mut s_table, "test"),
                params: vec![],
                type_dec: ReturnType::Type(i(&mut s_table, "Int")),
                body: b(ExprKind::Case {
                    cond: b(ExprKind::IntConstant(42)),
                    branches: vec![
                        parse_tree::CaseBranch {
                            name: i(&mut s_table, "x"),
                            type_dec: i(&mut s_table, "Int"),
                            body: b(ExprKind::IntConstant(1)),
                        },
                        parse_tree::CaseBranch {
                            name: i(&mut s_table, "y"),
                            type_dec: i(&mut s_table, "Bool"),
                            body: b(ExprKind::IntConstant(2)),
                        },
                    ],
                }),
            }],
        }],
    };

    assert_eq!(parse(input, &mut s_table, &mut errors).unwrap(), expected);
    assert!(errors.is_empty());
}

#[test]
fn precedence_mul_over_add() {
    let mut s_table = StringTable::new();
    let mut errors = Vec::new();
    let input = r#"
        class Main {
            test(): Int { 1 + 2 * 3 };
        };"#;

    assert!(parse(input, &mut s_table, &mut errors).is_ok());
    assert!(errors.is_empty());

    let mut errors = Vec::new();
    let expected = parse_tree::Program {
        classes: vec![parse_tree::Class::Valid {
            name: i(&mut s_table, "Main"),
            parent: None,
            features: vec![parse_tree::Feature::Method {
                name: i(&mut s_table, "test"),
                params: vec![],
                type_dec: ReturnType::Type(i(&mut s_table, "Int")),
                body: b(ExprKind::Add(
                    b(ExprKind::IntConstant(1)),
                    b(ExprKind::Mul(
                        b(ExprKind::IntConstant(2)),
                        b(ExprKind::IntConstant(3)),
                    )),
                )),
            }],
        }],
    };

    assert_eq!(parse(input, &mut s_table, &mut errors).unwrap(), expected);
    assert!(errors.is_empty());
}

#[test]
fn precedence_parens_override() {
    let mut s_table = StringTable::new();
    let mut errors = Vec::new();
    let input = r#"
        class Main {
            test(): Int { (1 + 2) * 3 };
        };"#;

    assert!(parse(input, &mut s_table, &mut errors).is_ok());
    assert!(errors.is_empty());

    let mut errors = Vec::new();
    let expected = parse_tree::Program {
        classes: vec![parse_tree::Class::Valid {
            name: i(&mut s_table, "Main"),
            parent: None,
            features: vec![parse_tree::Feature::Method {
                name: i(&mut s_table, "test"),
                params: vec![],
                type_dec: ReturnType::Type(i(&mut s_table, "Int")),
                body: b(ExprKind::Mul(
                    b(ExprKind::Add(
                        b(ExprKind::IntConstant(1)),
                        b(ExprKind::IntConstant(2)),
                    )),
                    b(ExprKind::IntConstant(3)),
                )),
            }],
        }],
    };

    assert_eq!(parse(input, &mut s_table, &mut errors).unwrap(), expected);
    assert!(errors.is_empty());
}

#[test]
fn examples_hello_world_cl() {
    let mut s_table = StringTable::new();
    let mut errors = Vec::new();
    let input = "class Main inherits IO {\n   main(): SELF_TYPE {\n\tout_string(\"Hello, World.\\n\")\n   };\n};\n";

    assert!(parse(input, &mut s_table, &mut errors).is_ok());
    assert!(errors.is_empty());

    let mut errors = Vec::new();
    let expected = parse_tree::Program {
        classes: vec![parse_tree::Class::Valid {
            name: i(&mut s_table, "Main"),
            parent: Some(i(&mut s_table, "IO")),
            features: vec![parse_tree::Feature::Method {
                name: i(&mut s_table, "main"),
                params: Vec::new(),
                type_dec: ReturnType::SelfType,
                body: b(ExprKind::SelfDispatch {
                    name: i(&mut s_table, "out_string"),
                    args: vec![e(ExprKind::StringConstant(i(
                        &mut s_table,
                        "Hello, World.\n",
                    )))],
                }),
            }],
        }],
    };

    assert_eq!(parse(input, &mut s_table, &mut errors).unwrap(), expected);
    assert!(errors.is_empty());
}

#[test]
fn simple_let() {
    let mut s_table = StringTable::new();
    let mut errors = Vec::new();
    let input = r#"
        class Main {
            main(): Int {
                plus(1, 2)
            };

            plus(num1: Int, num2: Int): Int {
                let x: Int in
                {
                    x <- num1 + num2;
                    x;
                }
            };
        };"#;

    assert!(parse(input, &mut s_table, &mut errors).is_ok());
    assert!(errors.is_empty());

    let mut errors = Vec::new();
    let expected = parse_tree::Program {
        classes: vec![parse_tree::Class::Valid {
            name: i(&mut s_table, "Main"),
            parent: None,
            features: vec![
                parse_tree::Feature::Method {
                    name: i(&mut s_table, "main"),
                    params: Vec::new(),
                    type_dec: ReturnType::Type(i(&mut s_table, "Int")),
                    body: b(ExprKind::SelfDispatch {
                        name: i(&mut s_table, "plus"),
                        args: vec![e(ExprKind::IntConstant(1)), e(ExprKind::IntConstant(2))],
                    }),
                },
                parse_tree::Feature::Method {
                    name: i(&mut s_table, "plus"),
                    params: vec![
                        parse_tree::Formal {
                            name: i(&mut s_table, "num1"),
                            type_dec: i(&mut s_table, "Int"),
                        },
                        parse_tree::Formal {
                            name: i(&mut s_table, "num2"),
                            type_dec: i(&mut s_table, "Int"),
                        },
                    ],
                    type_dec: ReturnType::Type(i(&mut s_table, "Int")),
                    body: b(ExprKind::Let {
                        name: i(&mut s_table, "x"),
                        type_dec: ReturnType::Type(i(&mut s_table, "Int")),
                        init: None,
                        body: b(ExprKind::Block(vec![
                            e(ExprKind::Assignment {
                                var: parse_tree::Var::Id(i(&mut s_table, "x")),
                                expr: b(ExprKind::Add(
                                    b(ExprKind::Object(i(&mut s_table, "num1"))),
                                    b(ExprKind::Object(i(&mut s_table, "num2"))),
                                )),
                            }),
                            e(ExprKind::Object(i(&mut s_table, "x"))),
                        ])),
                    }),
                },
            ],
        }],
    };

    assert_eq!(parse(input, &mut s_table, &mut errors).unwrap(), expected);
    assert!(errors.is_empty());
}

#[test]
fn multi_binding_let() {
    let mut s_table = StringTable::new();
    let mut errors = Vec::new();
    let input = r#"
        class Main {
            main(): Int {
                let x: Int, y: Int <- 5, z: Bool in
                {
                    x <- 1;
                    y;
                }
            };
        };"#;

    assert!(parse(input, &mut s_table, &mut errors).is_ok());
    assert!(errors.is_empty());

    let mut errors = Vec::new();
    let expected = parse_tree::Program {
        classes: vec![parse_tree::Class::Valid {
            name: i(&mut s_table, "Main"),
            parent: None,
            features: vec![parse_tree::Feature::Method {
                name: i(&mut s_table, "main"),
                params: Vec::new(),
                type_dec: ReturnType::Type(i(&mut s_table, "Int")),
                body: b(ExprKind::Let {
                    name: i(&mut s_table, "x"),
                    type_dec: ReturnType::Type(i(&mut s_table, "Int")),
                    init: None,
                    body: b(ExprKind::Let {
                        name: i(&mut s_table, "y"),
                        type_dec: ReturnType::Type(i(&mut s_table, "Int")),
                        init: Some(b(ExprKind::IntConstant(5))),
                        body: b(ExprKind::Let {
                            name: i(&mut s_table, "z"),
                            type_dec: ReturnType::Type(i(&mut s_table, "Bool")),
                            init: None,
                            body: b(ExprKind::Block(vec![
                                e(ExprKind::Assignment {
                                    var: parse_tree::Var::Id(i(&mut s_table, "x")),
                                    expr: b(ExprKind::IntConstant(1)),
                                }),
                                e(ExprKind::Object(i(&mut s_table, "y"))),
                            ])),
                        }),
                    }),
                }),
            }],
        }],
    };

    assert_eq!(parse(input, &mut s_table, &mut errors).unwrap(), expected);
    assert!(errors.is_empty());
}

#[test]
fn let_extends_rightmost() {
    let mut s_table = StringTable::new();
    let mut errors = Vec::new();
    let input = r#"
        class Main {
            main(): Int {
                let x: Int <- 1 in
                let y: Int <- 2 in
                    x + y
            };
        };"#;

    assert!(parse(input, &mut s_table, &mut errors).is_ok());
    assert!(errors.is_empty());

    let mut errors = Vec::new();
    let expected = parse_tree::Program {
        classes: vec![parse_tree::Class::Valid {
            name: i(&mut s_table, "Main"),
            parent: None,
            features: vec![parse_tree::Feature::Method {
                name: i(&mut s_table, "main"),
                params: Vec::new(),
                type_dec: ReturnType::Type(i(&mut s_table, "Int")),
                body: b(ExprKind::Let {
                    name: i(&mut s_table, "x"),
                    type_dec: ReturnType::Type(i(&mut s_table, "Int")),
                    init: Some(b(ExprKind::IntConstant(1))),
                    body: b(ExprKind::Let {
                        name: i(&mut s_table, "y"),
                        type_dec: ReturnType::Type(i(&mut s_table, "Int")),
                        init: Some(b(ExprKind::IntConstant(2))),
                        body: b(ExprKind::Add(
                            b(ExprKind::Object(i(&mut s_table, "x"))),
                            b(ExprKind::Object(i(&mut s_table, "y"))),
                        )),
                    }),
                }),
            }],
        }],
    };

    assert_eq!(parse(input, &mut s_table, &mut errors).unwrap(), expected);
    assert!(errors.is_empty());
}

#[test]
fn let_body_extends_through_block_statement() {
    let mut s_table = StringTable::new();
    let mut errors = Vec::new();
    let input = r#"
        class Main {
            main(): Int {
                {
                    let x: Int <- 1 in
                    let y: Int <- 2 in
                        x + y;
                    3;
                }
            };
        };"#;

    assert!(parse(input, &mut s_table, &mut errors).is_ok());
    assert!(errors.is_empty());

    let mut errors = Vec::new();
    let expected = parse_tree::Program {
        classes: vec![parse_tree::Class::Valid {
            name: i(&mut s_table, "Main"),
            parent: None,
            features: vec![parse_tree::Feature::Method {
                name: i(&mut s_table, "main"),
                params: Vec::new(),
                type_dec: ReturnType::Type(i(&mut s_table, "Int")),
                body: b(ExprKind::Block(vec![
                    e(ExprKind::Let {
                        name: i(&mut s_table, "x"),
                        type_dec: ReturnType::Type(i(&mut s_table, "Int")),
                        init: Some(b(ExprKind::IntConstant(1))),
                        body: b(ExprKind::Let {
                            name: i(&mut s_table, "y"),
                            type_dec: ReturnType::Type(i(&mut s_table, "Int")),
                            init: Some(b(ExprKind::IntConstant(2))),
                            body: b(ExprKind::Add(
                                b(ExprKind::Object(i(&mut s_table, "x"))),
                                b(ExprKind::Object(i(&mut s_table, "y"))),
                            )),
                        }),
                    }),
                    e(ExprKind::IntConstant(3)),
                ])),
            }],
        }],
    };

    assert_eq!(parse(input, &mut s_table, &mut errors).unwrap(), expected);
    assert!(errors.is_empty());
}

#[test]
fn let_as_first_of_multiple_block_statements() {
    let mut s_table = StringTable::new();
    let mut errors = Vec::new();
    let input = r#"
        class Main {
            main(): Int {
                {
                    let x: Int <- 1 in x;
                    3;
                }
            };
        };"#;

    assert!(parse(input, &mut s_table, &mut errors).is_ok());
    assert!(errors.is_empty());
}

#[test]
fn paren_let() {
    let mut s_table = StringTable::new();
    let mut errors = Vec::new();
    let input = r#"
        class Main {
            method3(num : Int) : C {
                (let x : Int in
                    {
                        x <- ~num;
                        (new C).set_var(x);
                    }
                )
            };
        };"#;

    assert!(parse(input, &mut s_table, &mut errors).is_ok());
    assert!(errors.is_empty());
}

#[test]
fn op_as_dispatch_param() {
    let mut s_table = StringTable::new();
    let mut errors = Vec::new();
    let input = r#"
        class Main {
            main(s: String) : String {
                s.substr(1, s.length() - 2);
            };
        };"#;

    let res = parse(input, &mut s_table, &mut errors);
    assert!(res.is_ok());
    assert!(errors.is_empty());
}

#[test]
fn let_inside_assignment() {
    let mut s_table = StringTable::new();
    let mut errors = Vec::new();
    let input = r#"
        class Main {
            main() : Int {
                y <- let x : Int <- 5 in x + 1;
            };
        };
        "#;

    assert!(parse(input, &mut s_table, &mut errors).is_ok());
    assert!(errors.is_empty());
}

#[test]
fn adding_if_results() {
    let mut s_table = StringTable::new();
    let mut errors = Vec::new();
    let input = r#"
        class Main {
            cell_at_next_evolution(position : Int) : String {
                if (if cell(position) = "X" then 1 else 0 fi
                    + if cell_left_neighbor(position) = "X" then 1 else 0 fi
                    + if cell_right_neighbor(position) = "X" then 1 else 0 fi
                    = 1)
                then
                    "X"
                else
                    "."
                fi
            };
        };
        "#;

    assert!(parse(input, &mut s_table, &mut errors).is_ok());
    assert!(errors.is_empty());

    let mut errors = Vec::new();
    let expected = parse_tree::Program {
        classes: vec![parse_tree::Class::Valid {
            name: i(&mut s_table, "Main"),
            parent: None,
            features: vec![parse_tree::Feature::Method {
                name: i(&mut s_table, "cell_at_next_evolution"),
                params: vec![parse_tree::Formal {
                    name: i(&mut s_table, "position"),
                    type_dec: i(&mut s_table, "Int"),
                }],
                type_dec: ReturnType::Type(i(&mut s_table, "String")),
                body: b(ExprKind::Conditional {
                    cond: b(ExprKind::Eq(
                        b(ExprKind::Add(
                            b(ExprKind::Add(
                                b(ExprKind::Conditional {
                                    cond: b(ExprKind::Eq(
                                        b(ExprKind::SelfDispatch {
                                            name: i(&mut s_table, "cell"),
                                            args: vec![e(ExprKind::Object(i(
                                                &mut s_table,
                                                "position",
                                            )))],
                                        }),
                                        b(ExprKind::StringConstant(i(&mut s_table, "X"))),
                                    )),
                                    happy_path: b(ExprKind::IntConstant(1)),
                                    sad_path: b(ExprKind::IntConstant(0)),
                                }),
                                b(ExprKind::Conditional {
                                    cond: b(ExprKind::Eq(
                                        b(ExprKind::SelfDispatch {
                                            name: i(&mut s_table, "cell_left_neighbor"),
                                            args: vec![e(ExprKind::Object(i(
                                                &mut s_table,
                                                "position",
                                            )))],
                                        }),
                                        b(ExprKind::StringConstant(i(&mut s_table, "X"))),
                                    )),
                                    happy_path: b(ExprKind::IntConstant(1)),
                                    sad_path: b(ExprKind::IntConstant(0)),
                                }),
                            )),
                            b(ExprKind::Conditional {
                                cond: b(ExprKind::Eq(
                                    b(ExprKind::SelfDispatch {
                                        name: i(&mut s_table, "cell_right_neighbor"),
                                        args: vec![e(ExprKind::Object(i(
                                            &mut s_table,
                                            "position",
                                        )))],
                                    }),
                                    b(ExprKind::StringConstant(i(&mut s_table, "X"))),
                                )),
                                happy_path: b(ExprKind::IntConstant(1)),
                                sad_path: b(ExprKind::IntConstant(0)),
                            }),
                        )),
                        b(ExprKind::IntConstant(1)),
                    )),
                    happy_path: b(ExprKind::StringConstant(i(&mut s_table, "X"))),
                    sad_path: b(ExprKind::StringConstant(i(&mut s_table, "."))),
                }),
            }],
        }],
    };

    assert_eq!(parse(input, &mut s_table, &mut errors).unwrap(), expected);
    assert!(errors.is_empty());
}



#[test]
fn empty_string() {
    let mut s_table = StringTable::new();
    let mut errors = Vec::new();
    let input = r#""#;

    assert!(parse(input, &mut s_table, &mut errors).is_err());
}

#[test]
fn error_recovery_invalid_class() {
    let mut s_table = StringTable::new();
    let mut errors = Vec::new();

    let input = r#"
            class main {

            };

            class foo {

            };

            class bar {

            };

            class Main {
                x: Int <- 10;
            };

            class foobar {

            };
        "#;

    assert!(parse(input, &mut s_table, &mut errors).is_err());
    assert_eq!(errors.len(), 4);
    assert!(matches!(
        errors[0].error,
        ParseError::UnrecognizedToken { .. }
    ));
    assert!(matches!(
        errors[1].error,
        ParseError::UnrecognizedToken { .. }
    ));
    assert!(matches!(
        errors[2].error,
        ParseError::UnrecognizedToken { .. }
    ));
    assert!(matches!(
        errors[3].error,
        ParseError::UnrecognizedToken { .. }
    ));
}

#[test]
fn lexing_error_unterminated_string() {
    let mut s_table = StringTable::new();
    let mut errors = Vec::new();
    let input = "class Main {
            x: String <- \"This is \n a string\";
        };";

    let result = parse(input, &mut s_table, &mut errors);

    match result {
        Err(ParseError::User { error }) => {
            assert_eq!(
                error,
                ErrorToken::new(
                    ErrorKind::UnterminatedStringConstant,
                    String::from("Unterminated string constant"),
                    Span::new("test".to_string(), 38, 47)
                )
            );
        }
        _ => panic!("Expected lexer error"),
    }
}

#[test]
fn error_recovery_malformed_feature() {
    let mut s_table = StringTable::new();
    let mut errors = Vec::new();
    let input = r#"
        class Main {
            x: Int <- 10;
            y: integer <- 10;
            z: Int <- 20;
        };
    "#;

    let program = grammar::ProgramParser::new()
        .parse(
            "test",
            &mut errors,
            lex(input, &mut s_table),
        )
        .expect("recovery should still yield a partial AST");

    assert_eq!(errors.len(), 1);
    assert!(matches!(
        errors[0].error,
        ParseError::UnrecognizedToken { .. }
    ));

    let features = match program.classes.get(0) {
        Some(class) => match class {
            parse_tree::Class::Valid { features, .. } => features,
            parse_tree::Class::Invalid => panic!("Expected a valid class definition"),
        },
        None => panic!("Expected at least one class in the program"),
    };

    assert_eq!(features.len(), 3);

    let x = i(&mut s_table, "x");
    let z = i(&mut s_table, "z");
    assert!(matches!(&features[0], parse_tree::Feature::Attribute { name, .. } if *name == x));
    assert!(matches!(&features[1], parse_tree::Feature::Invalid));
    assert!(matches!(&features[2], parse_tree::Feature::Attribute { name, .. } if *name == z));
}

#[test]
fn error_recovery_multiple_malformed_features() {
    let mut s_table = StringTable::new();
    let mut errors = Vec::new();
    let input = r#"
        class Main {
            a: Int <- 1;
            b: integer <- 2;
            c: Int <- 3;
            d: boolean;
            e: Int <- 5;
        };
    "#;

    let program = grammar::ProgramParser::new()
        .parse(
            "test",
            &mut errors,
            lex(input, &mut s_table),
        )
        .expect("recovery should still yield a partial AST");

    assert_eq!(errors.len(), 2);

    let parse_tree::Class::Valid { features, .. } = &program.classes[0] else {
        panic!()
    };
    assert_eq!(features.len(), 5);

    let a = i(&mut s_table, "a");
    let c = i(&mut s_table, "c");
    let e = i(&mut s_table, "e");
    assert!(matches!(&features[0], parse_tree::Feature::Attribute { name, .. } if *name == a));
    assert!(matches!(&features[1], parse_tree::Feature::Invalid));
    assert!(matches!(&features[2], parse_tree::Feature::Attribute { name, .. } if *name == c));
    assert!(matches!(&features[3], parse_tree::Feature::Invalid));
    assert!(matches!(&features[4], parse_tree::Feature::Attribute { name, .. } if *name == e));
}

#[test]
fn comparisons_do_not_chain() {
    let mut s_table = StringTable::new();
    let mut errors = Vec::new();
    let input = "class Main { f(): Bool { 1 < 2 < 3 }; };";
    let tokens = lex(input, &mut s_table);
    let program = grammar::ProgramParser::new().parse("test", &mut errors, tokens).unwrap();
    assert_eq!(errors.len(), 1);
    match &errors[0].error {
        ParseError::UnrecognizedToken { token, expected } => {
            assert_eq!(token.1, Token::Lt);
            assert_eq!((token.0, token.2), (31, 32));
            assert!(expected.is_empty());
        }
        other => panic!("unexpected error: {:?}", other),
    }
    // The tokens from the second `<` up to and with the `;` are skipped.
    assert_eq!(errors[0].dropped_tokens.len(), 4);
    match &program.classes[0] {
        Class::Valid { features, .. } => assert!(matches!(features[0], Feature::Invalid)),
        Class::Invalid => panic!("expected a valid class"),
    }
}

#[test]
fn empty_input_ends_too_early() {
    let mut s_table = StringTable::new();
    let mut errors = Vec::new();
    let result = grammar::ProgramParser::new().parse("test", &mut errors, lex("", &mut s_table));
    assert_eq!(
        result,
        Err(ParseError::UnrecognizedEof { location: 0, expected: vec![String::from("\"class\"")] })
    );
    assert!(errors.is_empty());
}

#[test]
fn missing_semicolon_at_the_end() {
    let mut s_table = StringTable::new();
    let mut errors = Vec::new();
    let result =
        grammar::ProgramParser::new().parse("test", &mut errors, lex("class A {}", &mut s_table));
    assert_eq!(
        result,
        Err(ParseError::UnrecognizedEof { location: 10, expected: vec![String::from("\";\"")] })
    );
}

#[test]
fn dispatch_forms_and_greater_than() {
    let mut s_table = StringTable::new();
    let mut errors = Vec::new();
    let input = "class Main { f(): Bool { x@A.g(1).h() > ~y }; };";
    parse(input, &mut s_table, &mut errors).unwrap();
    let x = i(&mut s_table, "x");
    let y = i(&mut s_table, "y");
    let a = i(&mut s_table, "A");
    let g = i(&mut s_table, "g");
    let h = i(&mut s_table, "h");
    let program = parse(input, &mut s_table, &mut errors).unwrap();
    let expected_body = b(ExprKind::Lt(
        b(ExprKind::Neg(b(ExprKind::Object(y)))),
        b(ExprKind::Dispatch {
            expr: b(ExprKind::StaticDispatch {
                expr: b(ExprKind::Object(x)),
                type_dec: a,
                name: g,
                args: vec![e(ExprKind::IntConstant(1))],
            }),
            name: h,
            args: vec![],
        }),
    ));
    match &program.classes[0] {
        Class::Valid { features, .. } => match &features[0] {
            Feature::Method { body, .. } => assert_eq!(body, &expected_body),
            other => panic!("not a method: {:?}", other),
        },
        Class::Invalid => panic!("expected a valid class"),
    }
}

#[test]
fn expressions_carry_their_spans() {
    let mut s_table = StringTable::new();
    let mut errors = Vec::new();
    let input = "class Main { f(): Int { 1 + 23 }; };";
    let program =
        grammar::ProgramParser::new().parse("test", &mut errors, lex(input, &mut s_table)).unwrap();
    match &program.classes[0] {
        Class::Valid { features, .. } => match &features[0] {
            Feature::Method { body, .. } => {
                assert_eq!(body.span, Span::new(String::from("test"), 24, 30));
                match &body.kind {
                    ExprKind::Add(l, r) => {
                        assert_eq!(l.span, Span::new(String::from("test"), 24, 25));
                        assert_eq!(r.span, Span::new(String::from("test"), 28, 30));
                    }
                    other => panic!("not an addition: {:?}", other),
                }
            }
            other => panic!("not a method: {:?}", other),
        },
        Class::Invalid => panic!("expected a valid class"),
    }
}

#[test]
fn recovered_errors_come_before_a_lexical_error() {
    let mut s_table = StringTable::new();
    let mut parser = coolc::parser::Parser::new("test");
    let input = "class a {}; class B { x: Int <- \"open\n; };";
    let result = parser.parse(lex(input, &mut s_table));
    assert!(result.is_none());
    let errors = parser.errors();
    assert_eq!(errors.len(), 2);
    assert!(matches!(errors[0].error, ParseError::UnrecognizedToken { .. }));
    assert!(matches!(
        &errors[1].error,
        ParseError::User { error } if error.kind == ErrorKind::UnterminatedStringConstant
    ));
    assert!(errors[1].dropped_tokens.is_empty());
}

#[test]
fn parser_gives_a_program_only_without_errors() {
    let mut s_table = StringTable::new();
    let mut parser = coolc::parser::Parser::new("test");
    let ok = parser.parse(lex("class A { f(): Int { 1; }; };", &mut s_table));
    assert!(ok.is_some());
    assert!(parser.errors().is_empty());
    let bad = parser.parse(lex("class A { f: ; };", &mut s_table));
    assert!(bad.is_none());
    assert_eq!(parser.errors().len(), 1);
}

#[test]
fn diagnostics_keep_the_parse_errors_in_order() {
    let mut s_table = StringTable::new();
    let mut parser = coolc::parser::Parser::new("test");
    let input = "class a {}; class B { x Int; };";
    assert!(parser.parse(lex(input, &mut s_table)).is_none());
    let diagnostic = coolc::diagnostic::Diagnostic::new(
        String::from("test"),
        String::from(input),
        parser.into_errors(),
    );
    assert_eq!(diagnostic.errors.len(), 2);
    assert_eq!(diagnostic.errors[0].span(), Span::new(String::from("test"), 6, 7));
    assert_eq!(diagnostic.errors[1].span(), Span::new(String::from("test"), 24, 27));
    assert!(matches!(
        &diagnostic.errors[1],
        coolc::diagnostic::CompileError::UnrecognizedToken { token: Token::TypeIdentifier(_), .. }
    ));
}
