use coolc::lexer::{ErrorKind, ErrorToken, LexerWrapper, Spanned, Token, MAX_STR_CONST_LEN};
use coolc::string_table::StringTable;
use coolc::utils::Span;

fn lex_all(input: &str) -> (Vec<Spanned<Token, usize, ErrorToken>>, StringTable) {
    let mut lexer = LexerWrapper::new(input, StringTable::new(), String::from("f.cl"));
    let tokens = lexer.tokens();
    (tokens, lexer.into_table())
}

fn kinds(input: &str) -> Vec<Token> {
    lex_all(input)
        .0
        .into_iter()
        .map(|t| match t {
            Ok((_, tok, _)) => tok,
            Err(e) => Token::Error(e),
        })
        .collect()
}

#[test]
fn keywords_ignore_case_but_bools_start_lower() {
    let toks = kinds("CLASS Class class iF Fi tRUE True fALSE False");
    let (_, table) = lex_all("CLASS Class class iF Fi tRUE True fALSE False");
    let true_id = table.lookup("True").unwrap();
    let false_id = table.lookup("False").unwrap();
    assert_eq!(
        toks,
        vec![
            Token::Class,
            Token::Class,
            Token::Class,
            Token::If,
            Token::Fi,
            Token::BoolConst(true),
            Token::TypeIdentifier(true_id),
            Token::BoolConst(false),
            Token::TypeIdentifier(false_id),
        ]
    );
}

#[test]
fn self_and_self_type_are_case_sensitive() {
    let (toks, table) = lex_all("self SELF_TYPE Self");
    let self_id = table.lookup("Self").unwrap();
    let toks: Vec<Token> = toks.into_iter().map(|t| t.unwrap().1).collect();
    assert_eq!(toks, vec![Token::SelfValue, Token::SelfType, Token::TypeIdentifier(self_id)]);
}

#[test]
fn identifiers_are_interned_once() {
    let (toks, table) = lex_all("foo Bar foo_1 foo");
    let foo = table.lookup("foo").unwrap();
    let bar = table.lookup("Bar").unwrap();
    let foo1 = table.lookup("foo_1").unwrap();
    let toks: Vec<Token> = toks.into_iter().map(|t| t.unwrap().1).collect();
    assert_eq!(
        toks,
        vec![
            Token::ObjectIdentifier(foo),
            Token::TypeIdentifier(bar),
            Token::ObjectIdentifier(foo1),
            Token::ObjectIdentifier(foo),
        ]
    );
    // The builtin names come first: 19 of them.
    assert_eq!(foo, 19);
    assert_eq!(bar, 20);
    assert_eq!(foo1, 21);
    assert_eq!(table.len(), 22);
}

#[test]
fn operators_take_the_longest_match() {
    let toks = kinds("<= <- < => = >= > ( ) ~ @ . , : ; { } + - * /");
    assert_eq!(
        toks,
        vec![
            Token::Le,
            Token::Assign,
            Token::Lt,
            Token::FatArrow,
            Token::Eq,
            Token::Ge,
            Token::Gt,
            Token::LParen,
            Token::RParen,
            Token::Tilde,
            Token::At,
            Token::Dot,
            Token::Comma,
            Token::Colon,
            Token::Semicolon,
            Token::LBrace,
            Token::RBrace,
            Token::Plus,
            Token::Minus,
            Token::Star,
            Token::Slash,
        ]
    );
}

#[test]
fn spans_are_byte_offsets() {
    let (toks, _) = lex_all("x <- \"é\"; y");
    let spans: Vec<(usize, usize)> = toks.iter().map(|t| {
        let (s, _, e) = t.as_ref().unwrap();
        (*s, *e)
    }).collect();
    // "é" takes two bytes.
    assert_eq!(spans, vec![(0, 1), (2, 4), (5, 9), (9, 10), (11, 12)]);
}

#[test]
fn comments_are_skipped_and_nest() {
    let toks = kinds("1 -- two\n(* a (* nested *) comment *) 3");
    assert_eq!(toks, vec![Token::Integers(1), Token::Integers(3)]);
}

#[test]
fn string_escapes_are_read() {
    let (toks, table) = lex_all("\"a\\nb\\tc\\qd\"");
    let id = match &toks[0] {
        Ok((_, Token::StringConstant(id), _)) => *id,
        other => panic!("not a string constant: {:?}", other),
    };
    assert_eq!(table.string_from_id(id).unwrap(), "a\nb\tcqd");
}

#[test]
fn unterminated_string_reports_and_goes_on() {
    let (toks, _) = lex_all("\"ab\ncd");
    assert_eq!(
        toks[0],
        Err(ErrorToken::new(
            ErrorKind::UnterminatedStringConstant,
            String::from("Unterminated string constant"),
            Span::new(String::from("f.cl"), 0, 3)
        ))
    );
    assert!(matches!(toks[1], Ok((4, Token::ObjectIdentifier(_), 6))));
}

#[test]
fn null_character_in_string() {
    let (toks, _) = lex_all("\"a\0b\" 7");
    assert_eq!(
        toks[0],
        Err(ErrorToken::new(
            ErrorKind::StringContainsNullCharacter,
            String::from("String contains null character"),
            Span::new(String::from("f.cl"), 0, 5)
        ))
    );
    assert_eq!(toks[1], Ok((6, Token::Integers(7), 7)));
}

#[test]
fn eof_in_string_and_comment() {
    let (toks, _) = lex_all("\"abc");
    assert_eq!(
        toks,
        vec![Err(ErrorToken::new(
            ErrorKind::EofInString,
            String::from("EOF in string constant"),
            Span::new(String::from("f.cl"), 0, 4)
        ))]
    );
    let (toks, _) = lex_all("1 (* open");
    assert_eq!(
        toks[1],
        Err(ErrorToken::new(
            ErrorKind::EofInComment,
            String::from("EOF in comment"),
            Span::new(String::from("f.cl"), 2, 9)
        ))
    );
}

#[test]
fn unmatched_close_comment() {
    let (toks, _) = lex_all("a *) b");
    assert_eq!(
        toks[1],
        Err(ErrorToken::new(
            ErrorKind::UnmatchedCloseComment,
            String::from("Unmatched *)"),
            Span::new(String::from("f.cl"), 2, 4)
        ))
    );
    assert_eq!(toks.len(), 3);
}

#[test]
fn string_too_long() {
    let long = "a".repeat(MAX_STR_CONST_LEN + 1);
    let input = format!("\"{}\" 5", long);
    let (toks, _) = lex_all(&input);
    let end = MAX_STR_CONST_LEN + 3;
    assert_eq!(
        toks[0],
        Err(ErrorToken::new(
            ErrorKind::StringConstantTooLong,
            String::from("String constant too long"),
            Span::new(String::from("f.cl"), 0, end)
        ))
    );
    assert_eq!(toks[1], Ok((end + 1, Token::Integers(5), end + 2)));
    let fits = format!("\"{}\"", "a".repeat(MAX_STR_CONST_LEN));
    assert!(matches!(lex_all(&fits).0[0], Ok((_, Token::StringConstant(_), _))));
}

#[test]
fn invalid_character_is_a_token() {
    let (toks, _) = lex_all("a # b");
    assert_eq!(
        toks[1],
        Ok((
            2,
            Token::Error(ErrorToken::new(
                ErrorKind::InvalidCharacter,
                String::from("#"),
                Span::new(String::from("f.cl"), 2, 3)
            )),
            3
        ))
    );
}

#[test]
fn integer_too_large() {
    let (toks, _) = lex_all("9223372036854775807 9223372036854775808");
    assert_eq!(toks[0], Ok((0, Token::Integers(i64::MAX), 19)));
    assert_eq!(toks[1], Err(ErrorToken::default()));
}

#[test]
fn next_token_reads_one_at_a_time() {
    let mut lexer = LexerWrapper::new("  x  ", StringTable::new(), String::new());
    assert!(matches!(lexer.next_token(), Some(Ok((2, Token::ObjectIdentifier(_), 3)))));
    assert!(lexer.next_token().is_none());
    assert!(lexer.next_token().is_none());
}
