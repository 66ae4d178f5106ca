//! Compile errors gathered for reporting: what each one says happened,
//! and where.
use vstd::prelude::*;

use crate::lexer::{ErrorToken, Token};
use crate::parser::{ErrorRecovery, ParseError};
use crate::semantic_analysis::SemanticError;
use crate::utils::Span;

verus! {

/// An error found while compiling, with the span it concerns.
#[derive(Debug)]
pub enum CompileError {
    LexicalError(ErrorToken),
    InvalidToken { span: Span },
    UnrecognizedEof { span: Span, expected: Vec<String> },
    UnrecognizedToken { span: Span, token: Token, expected: Vec<String> },
    ExtraToken { span: Span, token: Token },
    Semantic(SemanticError),
}

/// `s` covers the bytes `start..end` of the file `file`.
pub open spec fn span_is(s: Span, file: Seq<char>, start: usize, end: usize) -> bool {
    s.file@ == file && s.start == start && s.end == end
}

/// `c` is the parse error `e` of the file `file`: a location becomes an
/// empty span there, a token its own span, and a lexical error stays as
/// it is.
pub open spec fn converted(c: CompileError, e: ParseError, file: Seq<char>) -> bool {
    match e {
        ParseError::InvalidToken { location } => c matches CompileError::InvalidToken { span } && span_is(
            span,
            file,
            location,
            location,
        ),
        ParseError::UnrecognizedEof { location, expected } => c matches CompileError::UnrecognizedEof {
            span,
            expected: x,
        } && span_is(span, file, location, location) && x == expected,
        ParseError::UnrecognizedToken { token, expected } => c matches CompileError::UnrecognizedToken {
            span,
            token: t,
            expected: x,
        } && span_is(span, file, token.0, token.2) && t == token.1 && x == expected,
        ParseError::ExtraToken { token } => c matches CompileError::ExtraToken { span, token: t } && span_is(
            span,
            file,
            token.0,
            token.2,
        ) && t == token.1,
        ParseError::User { error } => c == CompileError::LexicalError(error),
    }
}

impl From<ErrorToken> for CompileError {
    fn from(e: ErrorToken) -> (c: Self) {
        CompileError::LexicalError(e)
    }
}

impl vstd::std_specs::convert::FromSpecImpl<ErrorToken> for CompileError {
    open spec fn obeys_from_spec() -> bool {
        true
    }

    open spec fn from_spec(e: ErrorToken) -> Self {
        CompileError::LexicalError(e)
    }
}

/// The text of a token as `{:?}` writes it.
pub uninterp spec fn token_debug_text(t: Token) -> Seq<char>;

/// std's `{:?}` formatting of a token, through the `Debug` impl that
/// `derive` wrote for `Token`. Its text is a function of the token alone;
/// what that text is, character by character, is left unsaid.
#[verifier::external_body]
fn debug_text(token: &Token) -> (s: String)
    ensures
        s@ == token_debug_text(*token),
{
    format!("{:?}", token)
}

/// The items of `xs` in order, with `", "` between each two.
pub open spec fn joined(xs: Seq<Seq<char>>) -> Seq<char>
    decreases xs.len(),
{
    if xs.len() == 0 {
        Seq::empty()
    } else if xs.len() == 1 {
        xs[0]
    } else {
        joined(xs.drop_last()) + ", "@ + xs.last()
    }
}

/// The texts of a list of strings.
pub open spec fn texts(xs: Seq<String>) -> Seq<Seq<char>> {
    xs.map_values(|x: String| x@)
}

/// What an error says, for the errors that lexing and parsing report.
pub open spec fn message_text(e: CompileError) -> Seq<char> {
    match e {
        CompileError::LexicalError(t) => t.message@,
        CompileError::InvalidToken { .. } => "Invalid token"@,
        CompileError::UnrecognizedEof { expected, .. } => "Unrecognized EOF, expected one of: "@ + joined(
            texts(expected@),
        ),
        CompileError::UnrecognizedToken { token, expected, .. } => "Unexpected token: "@ + token_debug_text(token)
            + ", expected one of: "@ + joined(texts(expected@)),
        CompileError::ExtraToken { token, .. } => "Extra token: "@ + token_debug_text(token),
        CompileError::Semantic(_) => Seq::empty(),
    }
}

/// The strings of `expected`, with `", "` between each two.
fn join_expected(expected: &Vec<String>) -> (s: String)
    ensures
        s@ == joined(texts(expected@)),
{
    let mut s = String::new();
    let mut i: usize = 0;
    while i < expected.len()
        invariant
            i <= expected@.len(),
            s@ == joined(texts(expected@.take(i as int))),
        decreases expected@.len() - i,
    {
        let ghost before = s@;
        if i > 0 {
            s.append(", ");
        }
        s.append(expected[i].as_str());
        proof {
            let t = texts(expected@.take(i + 1));
            assert(t.drop_last() =~= texts(expected@.take(i as int)));
            assert(t.last() == expected@[i as int]@);
            if i == 0 {
                assert(before =~= Seq::<char>::empty());
                assert(s@ =~= t[0]);
            }
        }
        i = i + 1;
    }
    proof {
        assert(expected@.take(i as int) =~= expected@);
    }
    s
}

impl CompileError {
    /// What the error says. A semantic error has no message of its own.
    pub fn message(&self) -> (m: String)
        requires
            !(self is Semantic),
        ensures
            m@ == message_text(*self),
    {
        match self {
            CompileError::LexicalError(e) => e.message.clone(),
            CompileError::InvalidToken { .. } => String::from_str("Invalid token"),
            CompileError::UnrecognizedEof { expected, .. } => {
                let mut m = String::from_str("Unrecognized EOF, expected one of: ");
                let list = join_expected(expected);
                m.append(list.as_str());
                m
            },
            CompileError::UnrecognizedToken { token, expected, .. } => {
                let mut m = String::from_str("Unexpected token: ");
                let t = debug_text(token);
                m.append(t.as_str());
                m.append(", expected one of: ");
                let list = join_expected(expected);
                m.append(list.as_str());
                m
            },
            CompileError::ExtraToken { token, .. } => {
                let mut m = String::from_str("Extra token: ");
                let t = debug_text(token);
                m.append(t.as_str());
                m
            },
            CompileError::Semantic(_) => String::new(),
        }
    }

    /// The compile error that the parse error `err` of the file `file`
    /// stands for.
    pub fn from_parse_error(err: ParseError, file: &str) -> (c: Self)
        ensures
            converted(c, err, file@),
    {
        match err {
            ParseError::InvalidToken { location } => CompileError::InvalidToken {
                span: Span::new(file.to_owned(), location, location),
            },
            ParseError::UnrecognizedEof { location, expected } => CompileError::UnrecognizedEof {
                span: Span::new(file.to_owned(), location, location),
                expected,
            },
            ParseError::UnrecognizedToken { token, expected } => {
                let (start, t, end) = token;
                CompileError::UnrecognizedToken { span: Span::new(file.to_owned(), start, end), token: t, expected }
            },
            ParseError::ExtraToken { token } => {
                let (start, t, end) = token;
                CompileError::ExtraToken { span: Span::new(file.to_owned(), start, end), token: t }
            },
            ParseError::User { error } => CompileError::LexicalError(error),
        }
    }

    /// Where the error lies; a semantic error that names no place lies
    /// nowhere in particular: the empty span at the start of no file.
    pub fn span(&self) -> (s: Span)
        ensures
            match self {
                CompileError::LexicalError(e) => s == e.span,
                CompileError::InvalidToken { span } => s == *span,
                CompileError::UnrecognizedEof { span, .. } => s == *span,
                CompileError::UnrecognizedToken { span, .. } => s == *span,
                CompileError::ExtraToken { span, .. } => s == *span,
                CompileError::Semantic(e) => match e.span {
                    Some(sp) => s == sp,
                    None => span_is(s, Seq::empty(), 0, 0),
                },
            },
    {
        match self {
            CompileError::LexicalError(e) => e.span.duplicate(),
            CompileError::InvalidToken { span } => span.duplicate(),
            CompileError::UnrecognizedEof { span, .. } => span.duplicate(),
            CompileError::UnrecognizedToken { span, .. } => span.duplicate(),
            CompileError::ExtraToken { span, .. } => span.duplicate(),
            CompileError::Semantic(e) => match &e.span {
                Some(sp) => sp.duplicate(),
                None => Span::default(),
            },
        }
    }
}

/// The errors of one source file, ready to be reported.
pub struct Diagnostic {
    pub file: String,
    pub source: String,
    pub errors: Vec<CompileError>,
}

impl Diagnostic {
    /// The errors of the parser for `file`, whose text is `source`, in
    /// order.
    pub fn new(file: String, source: String, errors: Vec<ErrorRecovery>) -> (d: Self)
        ensures
            d.file@ == file@,
            d.source@ == source@,
            d.errors.len() == errors.len(),
            forall|k: int| 0 <= k < errors.len() ==> converted(#[trigger] d.errors@[k], errors@[k].error, file@),
    {
        let mut rest = errors;
        let ghost all = rest@;
        let mut out: Vec<CompileError> = Vec::new();
        while rest.len() > 0
            invariant
                out.len() + rest.len() == all.len(),
                rest@ == all.subrange(out.len() as int, all.len() as int),
                forall|k: int| 0 <= k < out.len() ==> converted(#[trigger] out@[k], all[k].error, file@),
            decreases rest.len(),
        {
            let er = rest.remove(0);
            let ErrorRecovery { error, dropped_tokens: _ } = er;
            let c = CompileError::from_parse_error(error, file.as_str());
            proof {
                assert(all[out.len() as int] == er);
            }
            out.push(c);
            proof {
                assert(rest@ =~= all.subrange(out.len() as int, all.len() as int));
            }
        }
        Diagnostic { file, source, errors: out }
    }
}

} // verus!
