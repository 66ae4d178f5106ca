use coolc::diagnostic::CompileError;
use coolc::lexer::{ErrorKind, ErrorToken, Token};
use coolc::utils::Span;

fn span() -> Span {
    Span::new("test.cl".to_string(), 3, 4)
}

#[test]
fn invalid_token_message() {
    let e = CompileError::InvalidToken { span: span() };
    assert_eq!(e.message(), "Invalid token");
}

#[test]
fn unrecognized_eof_lists_what_was_expected() {
    let e = CompileError::UnrecognizedEof {
        span: span(),
        expected: vec!["\"class\"".to_string(), "\";\"".to_string()],
    };
    assert_eq!(e.message(), "Unrecognized EOF, expected one of: \"class\", \";\"");
}

#[test]
fn unrecognized_eof_with_nothing_expected() {
    let e = CompileError::UnrecognizedEof { span: span(), expected: vec![] };
    assert_eq!(e.message(), "Unrecognized EOF, expected one of: ");
}

#[test]
fn unrecognized_token_names_the_token() {
    let e = CompileError::UnrecognizedToken {
        span: span(),
        token: Token::Semicolon,
        expected: vec!["\"}\"".to_string()],
    };
    assert_eq!(e.message(), "Unexpected token: Semicolon, expected one of: \"}\"");
}

#[test]
fn extra_token_names_the_token() {
    let e = CompileError::ExtraToken { span: span(), token: Token::ObjectIdentifier(7) };
    assert_eq!(e.message(), "Extra token: ObjectIdentifier(7)");
}

#[test]
fn lexical_error_keeps_its_message() {
    let t = ErrorToken::new(ErrorKind::EofInComment, "EOF in comment".to_string(), span());
    let e = CompileError::from(t);
    assert_eq!(e.message(), "EOF in comment");
    assert_eq!(e.span(), span());
}
