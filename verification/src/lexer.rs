use vstd::prelude::*;

use crate::string_table::{interned, interned_all, StringTable};
use crate::utils::Span;

verus! {

broadcast use vstd::string::group_string_axioms;

/// The longest string constant, in bytes.
pub const MAX_STR_CONST_LEN: usize = 1024;

/// A token with its start and end byte offsets, or a lexical error.
pub type Spanned<Tok, Loc, Error> = Result<(Loc, Tok, Loc), Error>;

/// What kind of lexical error was found.
#[derive(Debug, Clone, Copy, PartialEq, Eq, Structural)]
pub enum ErrorKind {
    InvalidCharacter,
    // String constant lexing errors
    UnterminatedStringConstant,
    StringContainsNullCharacter,
    StringConstantTooLong,
    EofInString,
    // Comment lexing errors
    EofInComment,
    UnmatchedCloseComment,
    Other,
}

/// A lexical error: what went wrong, a message for the user, and where.
/// The lexer reports errors to the parser as values and prints nothing.
#[derive(Debug, PartialEq, Clone)]
pub struct ErrorToken {
    pub kind: ErrorKind,
    pub message: String,
    pub span: Span,
}

impl ErrorToken {
    pub fn new(kind: ErrorKind, message: String, span: Span) -> (e: Self)
        ensures
            e == (ErrorToken { kind, message, span }),
    {
        Self { kind, message, span }
    }
}

impl Default for ErrorToken {
    fn default() -> (e: Self)
        ensures
            e.kind == ErrorKind::Other,
            e.message@ == Seq::<char>::empty(),
            e.span.file@ == Seq::<char>::empty(),
            e.span.start == 0,
            e.span.end == 0,
    {
        ErrorToken { kind: ErrorKind::Other, message: String::new(), span: Span::default() }
    }
}

/// A token of COOL. Names and string constants carry their number in
/// the string table; `Error` carries a character that starts no token.
#[derive(Debug, PartialEq, Clone)]
pub enum Token {
    Dot,
    At,
    Tilde,
    Slash,
    Plus,
    Minus,
    FatArrow,
    Lt,
    Le,
    Gt,
    Ge,
    Star,
    Assign,
    Semicolon,
    Comma,
    Colon,
    LBrace,
    RBrace,
    LParen,
    RParen,
    Eq,
    SelfValue,
    SelfType,
    Class,
    Else,
    Fi,
    If,
    In,
    Inherits,
    IsVoid,
    Let,
    Loop,
    Pool,
    Then,
    While,
    Case,
    Esac,
    New,
    Of,
    Not,
    BoolConst(bool),
    Integers(i64),
    TypeIdentifier(usize),
    ObjectIdentifier(usize),
    StringConstant(usize),
    BlockComment,
    UnmatchedCloseComment,
    Error(ErrorToken),
}

// ---------------------------------------------------------------------------
// The lexical grammar, over the characters of the input

/// Space, vertical tab, carriage return, tab, form feed, newline.
pub open spec fn is_whitespace(c: char) -> bool {
    c == ' ' || c == '\x0B' || c == '\r' || c == '\t' || c == '\x0C' || c == '\n'
}

pub open spec fn is_upper(c: char) -> bool {
    'A' as u32 <= c as u32 <= 'Z' as u32
}

pub open spec fn is_lower(c: char) -> bool {
    'a' as u32 <= c as u32 <= 'z' as u32
}

pub open spec fn is_digit(c: char) -> bool {
    '0' as u32 <= c as u32 <= '9' as u32
}

/// A character that may continue an identifier.
pub open spec fn is_word_char(c: char) -> bool {
    is_upper(c) || is_lower(c) || is_digit(c) || c == '_'
}

/// ASCII lower case.
pub open spec fn to_lower(c: char) -> char {
    if is_upper(c) {
        ((c as u32) + 32) as char
    } else {
        c
    }
}

pub open spec fn lower_word(w: Seq<char>) -> Seq<char> {
    w.map_values(|c: char| to_lower(c))
}

/// The keyword that a word in lower case spells, if any.
pub open spec fn keyword_of(lw: Seq<char>) -> Option<Token> {
    if lw == seq!['c', 'l', 'a', 's', 's'] {
        Some(Token::Class)
    } else if lw == seq!['e', 'l', 's', 'e'] {
        Some(Token::Else)
    } else if lw == seq!['f', 'i'] {
        Some(Token::Fi)
    } else if lw == seq!['i', 'f'] {
        Some(Token::If)
    } else if lw == seq!['i', 'n'] {
        Some(Token::In)
    } else if lw == seq!['i', 'n', 'h', 'e', 'r', 'i', 't', 's'] {
        Some(Token::Inherits)
    } else if lw == seq!['i', 's', 'v', 'o', 'i', 'd'] {
        Some(Token::IsVoid)
    } else if lw == seq!['l', 'e', 't'] {
        Some(Token::Let)
    } else if lw == seq!['l', 'o', 'o', 'p'] {
        Some(Token::Loop)
    } else if lw == seq!['p', 'o', 'o', 'l'] {
        Some(Token::Pool)
    } else if lw == seq!['t', 'h', 'e', 'n'] {
        Some(Token::Then)
    } else if lw == seq!['w', 'h', 'i', 'l', 'e'] {
        Some(Token::While)
    } else if lw == seq!['c', 'a', 's', 'e'] {
        Some(Token::Case)
    } else if lw == seq!['e', 's', 'a', 'c'] {
        Some(Token::Esac)
    } else if lw == seq!['n', 'e', 'w'] {
        Some(Token::New)
    } else if lw == seq!['o', 'f'] {
        Some(Token::Of)
    } else if lw == seq!['n', 'o', 't'] {
        Some(Token::Not)
    } else {
        None
    }
}

/// One step of the lexer: something skipped, a token, or an error.
pub enum Step {
    /// Whitespace or a comment.
    Skip,
    /// A token that holds no name or constant.
    Fixed(Token),
    TypeId(Seq<char>),
    ObjectId(Seq<char>),
    Str(Seq<char>),
    Int(i64),
    /// A character that starts no token.
    BadChar(char),
    /// An error, with the index where its span ends.
    Fail(ErrorKind, int),
    /// A number too large for an `i64`.
    Overflow,
}

/// The token that a word (letters, digits, underscores, starting with a
/// letter) makes: a keyword, matched in any case; `self`, `SELF_TYPE`;
/// `true`/`false` with a lower-case first letter; else an identifier,
/// a type identifier when it starts upper case.
pub open spec fn word_step(w: Seq<char>) -> Step {
    match keyword_of(lower_word(w)) {
        Some(t) => Step::Fixed(t),
        None => if w == seq!['s', 'e', 'l', 'f'] {
            Step::Fixed(Token::SelfValue)
        } else if w == seq!['S', 'E', 'L', 'F', '_', 'T', 'Y', 'P', 'E'] {
            Step::Fixed(Token::SelfType)
        } else if w[0] == 't' && lower_word(w) == seq!['t', 'r', 'u', 'e'] {
            Step::Fixed(Token::BoolConst(true))
        } else if w[0] == 'f' && lower_word(w) == seq!['f', 'a', 'l', 's', 'e'] {
            Step::Fixed(Token::BoolConst(false))
        } else if is_upper(w[0]) {
            Step::TypeId(w)
        } else {
            Step::ObjectId(w)
        },
    }
}

/// The kinds of run that the lexer reads as one piece.
#[derive(Clone, Copy, PartialEq, Eq, Structural)]
pub enum RunKind {
    /// Whitespace.
    Space,
    /// Letters, digits and underscores.
    Word,
    /// Decimal digits.
    Digit,
    /// Anything but a newline: the rest of a line comment.
    Line,
}

pub open spec fn in_run(k: RunKind, c: char) -> bool {
    match k {
        RunKind::Space => is_whitespace(c),
        RunKind::Word => is_word_char(c),
        RunKind::Digit => is_digit(c),
        RunKind::Line => c != '\n',
    }
}

/// The end of the run of characters of kind `k` that starts at `i`.
pub open spec fn run_end(s: Seq<char>, i: int, k: RunKind) -> int
    decreases s.len() - i,
{
    if i < 0 || i >= s.len() || !in_run(k, s[i]) {
        i
    } else {
        run_end(s, i + 1, k)
    }
}

/// The decimal value of the digits `s[i..j]`.
pub open spec fn decimal(s: Seq<char>, i: int, j: int) -> int
    decreases j - i,
{
    if j <= i {
        0
    } else {
        decimal(s, i, j - 1) * 10 + (s[j - 1] as u32 - '0' as u32)
    }
}

/// The end of a nested block comment whose body starts at `j` at nesting
/// `depth`, or `None` when the input ends first.
pub open spec fn comment_end(s: Seq<char>, j: int, depth: int) -> Option<int>
    decreases s.len() - j,
{
    if j < 0 || j >= s.len() {
        None
    } else if s[j] == '(' && j + 1 < s.len() && s[j + 1] == '*' {
        comment_end(s, j + 2, depth + 1)
    } else if s[j] == '*' && j + 1 < s.len() && s[j + 1] == ')' {
        if depth - 1 == 0 {
            Some(j + 2)
        } else {
            comment_end(s, j + 2, depth - 1)
        }
    } else {
        comment_end(s, j + 1, depth)
    }
}

/// Where lexing resumes after a bad string constant: after its closing
/// quote, or at the end of its line, or at the end of the input.
pub open spec fn skip_string_rest(s: Seq<char>, k: int) -> int
    decreases s.len() - k,
{
    if k < 0 || k >= s.len() {
        s.len() as int
    } else if s[k] == '\n' {
        k
    } else if s[k] == '"' {
        k + 1
    } else {
        skip_string_rest(s, k + 1)
    }
}

/// Number of bytes of the UTF-8 encoding of a character.
pub open spec fn char_width(c: char) -> nat {
    if (c as u32) < 0x80 {
        1
    } else if (c as u32) < 0x800 {
        2
    } else if (c as u32) < 0x10000 {
        3
    } else {
        4
    }
}

/// Number of bytes of the UTF-8 encoding of a text.
pub open spec fn byte_len(s: Seq<char>) -> nat
    decreases s.len(),
{
    if s.len() == 0 {
        0
    } else {
        byte_len(s.drop_last()) + char_width(s.last())
    }
}

/// The character an escape `\c` stands for.
pub open spec fn unescape(c: char) -> char {
    if c == 'n' {
        '\n'
    } else if c == 't' {
        '\t'
    } else if c == 'b' {
        '\x08'
    } else if c == 'f' {
        '\x0C'
    } else {
        c
    }
}

/// The escapes of a string constant: `\n`, `\t`, `\b` and `\f` stand for
/// newline (10), tab (9), backspace (8) and form feed (12); an escape of
/// any other character stands for that character itself.
pub proof fn lemma_unescape(c: char)
    ensures
        unescape('n') as u32 == 10,
        unescape('t') as u32 == 9,
        unescape('b') as u32 == 8,
        unescape('f') as u32 == 12,
        unescape(c) != c <==> (c == 'n' || c == 't' || c == 'b' || c == 'f'),
        unescape(c) != c ==> (unescape(c) as u32) < 32,
{
}

/// The rest of a string constant from `j`, with `acc` read so far: the
/// step and where lexing resumes.
pub open spec fn string_step(s: Seq<char>, j: int, acc: Seq<char>) -> (Step, int)
    decreases s.len() - j,
{
    if j < 0 || j >= s.len() {
        (Step::Fail(ErrorKind::EofInString, s.len() as int), s.len() as int)
    } else if s[j] == '\0' {
        let k = skip_string_rest(s, j + 1);
        (Step::Fail(ErrorKind::StringContainsNullCharacter, k), k)
    } else if s[j] == '\n' {
        (Step::Fail(ErrorKind::UnterminatedStringConstant, j), j + 1)
    } else if s[j] == '"' {
        (Step::Str(acc), j + 1)
    } else if s[j] == '\\' && j + 1 >= s.len() {
        (Step::Fail(ErrorKind::EofInString, s.len() as int), s.len() as int)
    } else {
        let (acc2, next) = if s[j] == '\\' {
            (acc.push(unescape(s[j + 1])), j + 2)
        } else {
            (acc.push(s[j]), j + 1)
        };
        if byte_len(acc2) > MAX_STR_CONST_LEN {
            let k = skip_string_rest(s, next);
            (Step::Fail(ErrorKind::StringConstantTooLong, k), k)
        } else {
            string_step(s, next, acc2)
        }
    }
}

/// The step at index `i` of the input and the index where the next one starts.
pub open spec fn step_at(s: Seq<char>, i: int) -> (Step, int)
    recommends
        0 <= i < s.len(),
{
    let c = s[i];
    let has_next = i + 1 < s.len();
    let n = if has_next { s[i + 1] } else { ' ' };
    if is_whitespace(c) {
        (Step::Skip, run_end(s, i, RunKind::Space))
    } else if is_upper(c) || is_lower(c) {
        let e = run_end(s, i, RunKind::Word);
        (word_step(s.subrange(i, e)), e)
    } else if is_digit(c) {
        let e = run_end(s, i, RunKind::Digit);
        let v = decimal(s, i, e);
        if v <= i64::MAX {
            (Step::Int(v as i64), e)
        } else {
            (Step::Overflow, e)
        }
    } else if c == '"' {
        string_step(s, i + 1, Seq::empty())
    } else if c == '-' && has_next && n == '-' {
        (Step::Skip, run_end(s, i, RunKind::Line))
    } else if c == '(' && has_next && n == '*' {
        match comment_end(s, i + 2, 1) {
            Some(e) => (Step::Skip, e),
            None => (Step::Fail(ErrorKind::EofInComment, s.len() as int), s.len() as int),
        }
    } else if c == '*' && has_next && n == ')' {
        (Step::Fail(ErrorKind::UnmatchedCloseComment, i + 2), i + 2)
    } else if c == '=' && has_next && n == '>' {
        (Step::Fixed(Token::FatArrow), i + 2)
    } else if c == '<' && has_next && n == '=' {
        (Step::Fixed(Token::Le), i + 2)
    } else if c == '<' && has_next && n == '-' {
        (Step::Fixed(Token::Assign), i + 2)
    } else if c == '>' && has_next && n == '=' {
        (Step::Fixed(Token::Ge), i + 2)
    } else {
        match single_char_token(c) {
            Some(t) => (Step::Fixed(t), i + 1),
            None => (Step::BadChar(c), i + 1),
        }
    }
}

/// The one-character tokens.
pub open spec fn single_char_token(c: char) -> Option<Token> {
    if c == '.' {
        Some(Token::Dot)
    } else if c == '@' {
        Some(Token::At)
    } else if c == '~' {
        Some(Token::Tilde)
    } else if c == '/' {
        Some(Token::Slash)
    } else if c == '+' {
        Some(Token::Plus)
    } else if c == '-' {
        Some(Token::Minus)
    } else if c == '<' {
        Some(Token::Lt)
    } else if c == '>' {
        Some(Token::Gt)
    } else if c == '*' {
        Some(Token::Star)
    } else if c == ';' {
        Some(Token::Semicolon)
    } else if c == ',' {
        Some(Token::Comma)
    } else if c == ':' {
        Some(Token::Colon)
    } else if c == '{' {
        Some(Token::LBrace)
    } else if c == '}' {
        Some(Token::RBrace)
    } else if c == '(' {
        Some(Token::LParen)
    } else if c == ')' {
        Some(Token::RParen)
    } else if c == '=' {
        Some(Token::Eq)
    } else {
        None
    }
}


/// The lexemes of the input from index `i` on: for each token or error,
/// the index where it starts, what it is, and the index where lexing
/// resumes after it. Whitespace and comments leave no lexeme.
pub open spec fn lex_from(s: Seq<char>, i: int) -> Seq<(int, Step, int)>
    decreases s.len() - i,
{
    if i < 0 || i >= s.len() {
        seq![]
    } else {
        let (st, e) = step_at(s, i);
        if e <= i || e > s.len() {
            seq![]
        } else if st is Skip {
            lex_from(s, e)
        } else {
            seq![(i, st, e)] + lex_from(s, e)
        }
    }
}

/// The byte offset of character index `i`.
pub open spec fn byte_at(s: Seq<char>, i: int) -> nat {
    byte_len(s.take(i))
}

proof fn lemma_run_end_bounds(s: Seq<char>, i: int, k: RunKind)
    requires
        0 <= i <= s.len(),
    ensures
        i <= run_end(s, i, k) <= s.len(),
        i < s.len() && in_run(k, s[i]) ==> i < run_end(s, i, k),
        forall|j: int| i <= j < run_end(s, i, k) ==> in_run(k, #[trigger] s[j]),
    decreases s.len() - i,
{
    if i < s.len() && in_run(k, s[i]) {
        lemma_run_end_bounds(s, i + 1, k);
    }
}

proof fn lemma_comment_end_bounds(s: Seq<char>, j: int, depth: int)
    ensures
        comment_end(s, j, depth) matches Some(e) ==> j < e <= s.len(),
    decreases s.len() - j,
{
    if j < 0 || j >= s.len() {
    } else if s[j] == '(' && j + 1 < s.len() && s[j + 1] == '*' {
        lemma_comment_end_bounds(s, j + 2, depth + 1);
    } else if s[j] == '*' && j + 1 < s.len() && s[j + 1] == ')' {
        if depth - 1 != 0 {
            lemma_comment_end_bounds(s, j + 2, depth - 1);
        }
    } else {
        lemma_comment_end_bounds(s, j + 1, depth);
    }
}

proof fn lemma_skip_string_rest_bounds(s: Seq<char>, k: int)
    requires
        0 <= k,
    ensures
        k <= skip_string_rest(s, k) <= s.len() || (k > s.len() && skip_string_rest(s, k) == s.len()),
    decreases s.len() - k,
{
    if k < s.len() && s[k] != '\n' && s[k] != '"' {
        lemma_skip_string_rest_bounds(s, k + 1);
    }
}

proof fn lemma_string_step_bounds(s: Seq<char>, j: int, acc: Seq<char>)
    requires
        1 <= j <= s.len(),
    ensures
        j <= string_step(s, j, acc).1 <= s.len(),
        string_step(s, j, acc).0 matches Step::Fail(_, k) ==> j <= k <= string_step(s, j, acc).1,
    decreases s.len() - j,
{
    if j < 0 || j >= s.len() {
    } else if s[j] == '\0' {
        lemma_skip_string_rest_bounds(s, j + 1);
    } else if s[j] == '\n' {
    } else if s[j] == '"' {
    } else if s[j] == '\\' && j + 1 >= s.len() {
    } else {
        let (acc2, next) = if s[j] == '\\' {
            (acc.push(unescape(s[j + 1])), j + 2)
        } else {
            (acc.push(s[j]), j + 1)
        };
        if byte_len(acc2) > MAX_STR_CONST_LEN {
            lemma_skip_string_rest_bounds(s, next);
        } else {
            lemma_string_step_bounds(s, next, acc2);
        }
    }
}

/// Each step moves forward and stays within the input.
pub proof fn lemma_step_advances(s: Seq<char>, i: int)
    requires
        0 <= i < s.len(),
    ensures
        i < step_at(s, i).1 <= s.len(),
        step_at(s, i).0 matches Step::Fail(_, k) ==> i <= k <= s.len(),
{
    let c = s[i];
    if is_whitespace(c) {
        lemma_run_end_bounds(s, i, RunKind::Space);
    } else if is_upper(c) || is_lower(c) {
        lemma_run_end_bounds(s, i, RunKind::Word);
    } else if is_digit(c) {
        lemma_run_end_bounds(s, i, RunKind::Digit);
    } else if c == '"' {
        lemma_string_step_bounds(s, i + 1, Seq::empty());
    } else if c == '-' && i + 1 < s.len() && s[i + 1] == '-' {
        lemma_run_end_bounds(s, i, RunKind::Line);
    } else if c == '(' && i + 1 < s.len() && s[i + 1] == '*' {
        lemma_comment_end_bounds(s, i + 2, 1);
    }
}


proof fn lemma_byte_at_step(s: Seq<char>, k: int)
    requires
        0 <= k < s.len(),
    ensures
        byte_at(s, k + 1) == byte_at(s, k) + char_width(s[k]),
{
    assert(s.take(k + 1).drop_last() =~= s.take(k));
}

proof fn lemma_byte_at_bounded(s: Seq<char>, k: int)
    requires
        0 <= k <= s.len(),
    ensures
        byte_at(s, k) <= byte_len(s),
    decreases s.len() - k,
{
    if k == s.len() {
        assert(s.take(k) =~= s);
    } else {
        lemma_byte_at_step(s, k);
        lemma_byte_at_bounded(s, k + 1);
    }
}

/// `String`'s `FromIterator<&char>`: a new string made of the given
/// characters, in order.
#[verifier::external_body]
fn string_from_chars(chars: &Vec<char>) -> (s: String)
    ensures
        s@ == chars@,
{
    chars.iter().collect()
}

/// The characters of `input`, in order.
fn chars_of(input: &str) -> (v: Vec<char>)
    ensures
        v@ == input@,
{
    let mut v: Vec<char> = Vec::new();
    for c in it: input.chars()
        invariant
            it.seq() == input@,
            v@ == it.seq().take(it.index() as int),
    {
        proof {
            assert(it.seq().take(it.index() as int + 1) =~= v@.push(c));
        }
        v.push(c);
    }
    proof {
        assert(v@ =~= input@);
    }
    v
}

/// The number of bytes of the UTF-8 encoding of `c`.
fn width(c: char) -> (w: usize)
    ensures
        w == char_width(c),
{
    let u = c as u32;
    if u < 0x80 {
        1
    } else if u < 0x800 {
        2
    } else if u < 0x10000 {
        3
    } else {
        4
    }
}

/// The byte offset of each character index, and of the end.
fn byte_offsets(chars: &Vec<char>) -> (offs: Vec<usize>)
    requires
        byte_len(chars@) <= usize::MAX,
    ensures
        offs.len() == chars.len() + 1,
        forall|k: int| 0 <= k <= chars.len() ==> offs[k] == byte_at(chars@, k),
{
    let mut offs: Vec<usize> = Vec::new();
    offs.push(0);
    let mut total: usize = 0;
    let mut k: usize = 0;
    proof {
        assert(chars@.take(0) =~= Seq::<char>::empty());
    }
    while k < chars.len()
        invariant
            k <= chars.len(),
            offs.len() == k + 1,
            total == byte_at(chars@, k as int),
            forall|j: int| 0 <= j <= k ==> offs[j] == byte_at(chars@, j),
            byte_len(chars@) <= usize::MAX,
        decreases chars.len() - k,
    {
        proof {
            lemma_byte_at_step(chars@, k as int);
            lemma_byte_at_bounded(chars@, k + 1);
        }
        total = total + width(chars[k]);
        offs.push(total);
        k = k + 1;
    }
    offs
}

/// What the lexer carries besides the input: the table that names and
/// string constants are interned in, and the name of the file read.
pub struct LexerExtras {
    pub s_table: StringTable,
    pub file: String,
}

/// Reads the tokens of a text one by one.
pub struct LexerWrapper {
    chars: Vec<char>,
    offsets: Vec<usize>,
    pos: usize,
    extras: LexerExtras,
}

impl LexerWrapper {
    /// The characters of the input.
    pub closed spec fn input(&self) -> Seq<char> {
        self.chars@
    }

    /// The index of the next character to read.
    pub closed spec fn position(&self) -> int {
        self.pos as int
    }

    /// The string table, as it stands.
    pub closed spec fn table(&self) -> Seq<Seq<char>> {
        self.extras.s_table@
    }

    /// The file name that spans carry.
    pub closed spec fn file(&self) -> Seq<char> {
        self.extras.file@
    }

    pub closed spec fn wf(&self) -> bool {
        &&& self.offsets.len() == self.chars.len() + 1
        &&& forall|k: int| 0 <= k <= self.chars.len() ==> self.offsets[k] == byte_at(self.chars@, k)
        &&& self.pos <= self.chars.len()
        &&& self.extras.s_table.wf()
    }

    /// A lexer at the start of `input`, interning into `s_table`.
    pub fn new(input: &str, s_table: StringTable, file: String) -> (l: Self)
        requires
            s_table.wf(),
            byte_len(input@) <= usize::MAX,
        ensures
            l.wf(),
            l.input() == input@,
            l.position() == 0,
            l.table() == s_table@,
            l.file() == file@,
    {
        let chars = chars_of(input);
        let offsets = byte_offsets(&chars);
        LexerWrapper { chars, offsets, pos: 0, extras: LexerExtras { s_table, file } }
    }

    /// Gives back the string table.
    pub fn into_table(self) -> (t: StringTable)
        requires
            self.wf(),
        ensures
            t.wf(),
            t@ == self.table(),
    {
        self.extras.s_table
    }

    /// The end of the run of kind `k` that starts at `i`.
    fn run_end_at(&self, i: usize, k: RunKind) -> (e: usize)
        requires
            self.wf(),
            i <= self.chars.len(),
        ensures
            e == run_end(self.chars@, i as int, k),
    {
        let mut j = i;
        while j < self.chars.len() && in_run_exec(k, self.chars[j])
            invariant
                i <= j <= self.chars.len(),
                run_end(self.chars@, i as int, k) == run_end(self.chars@, j as int, k),
            decreases self.chars.len() - j,
        {
            j = j + 1;
        }
        j
    }
}

fn in_run_exec(k: RunKind, c: char) -> (b: bool)
    ensures
        b == in_run(k, c),
{
    let u = c as u32;
    match k {
        RunKind::Space => c == ' ' || u == 0x0B || c == '\r' || c == '\t' || u == 0x0C || c == '\n',
        RunKind::Word => (65 <= u && u <= 90) || (97 <= u && u <= 122) || (48 <= u && u <= 57) || c == '_',
        RunKind::Digit => 48 <= u && u <= 57,
        RunKind::Line => c != '\n',
    }
}


fn lower_exec(c: char) -> (r: char)
    ensures
        r == to_lower(c),
{
    let u = c as u32;
    if 65 <= u && u <= 90 {
        ((u + 32) as u8) as char
    } else {
        c
    }
}

fn chars_eq(a: &Vec<char>, b: &Vec<char>) -> (r: bool)
    ensures
        r == (a@ == b@),
{
    if a.len() != b.len() {
        return false;
    }
    let mut k: usize = 0;
    while k < a.len()
        invariant
            a.len() == b.len(),
            k <= a.len(),
            forall|j: int| 0 <= j < k ==> a@[j] == b@[j],
        decreases a.len() - k,
    {
        if a[k] != b[k] {
            return false;
        }
        k = k + 1;
    }
    proof {
        assert(a@ =~= b@);
    }
    true
}

/// The keyword that a word in lower case spells, if any.
fn keyword(lw: &Vec<char>) -> (r: Option<Token>)
    ensures
        r == keyword_of(lw@),
{
    if chars_eq(lw, &vec!['c', 'l', 'a', 's', 's']) {
        Some(Token::Class)
    } else if chars_eq(lw, &vec!['e', 'l', 's', 'e']) {
        Some(Token::Else)
    } else if chars_eq(lw, &vec!['f', 'i']) {
        Some(Token::Fi)
    } else if chars_eq(lw, &vec!['i', 'f']) {
        Some(Token::If)
    } else if chars_eq(lw, &vec!['i', 'n']) {
        Some(Token::In)
    } else if chars_eq(lw, &vec!['i', 'n', 'h', 'e', 'r', 'i', 't', 's']) {
        Some(Token::Inherits)
    } else if chars_eq(lw, &vec!['i', 's', 'v', 'o', 'i', 'd']) {
        Some(Token::IsVoid)
    } else if chars_eq(lw, &vec!['l', 'e', 't']) {
        Some(Token::Let)
    } else if chars_eq(lw, &vec!['l', 'o', 'o', 'p']) {
        Some(Token::Loop)
    } else if chars_eq(lw, &vec!['p', 'o', 'o', 'l']) {
        Some(Token::Pool)
    } else if chars_eq(lw, &vec!['t', 'h', 'e', 'n']) {
        Some(Token::Then)
    } else if chars_eq(lw, &vec!['w', 'h', 'i', 'l', 'e']) {
        Some(Token::While)
    } else if chars_eq(lw, &vec!['c', 'a', 's', 'e']) {
        Some(Token::Case)
    } else if chars_eq(lw, &vec!['e', 's', 'a', 'c']) {
        Some(Token::Esac)
    } else if chars_eq(lw, &vec!['n', 'e', 'w']) {
        Some(Token::New)
    } else if chars_eq(lw, &vec!['o', 'f']) {
        Some(Token::Of)
    } else if chars_eq(lw, &vec!['n', 'o', 't']) {
        Some(Token::Not)
    } else {
        None
    }
}


/// The names a step interns: an identifier's or a string constant's text.
pub open spec fn step_names(st: Step) -> Seq<Seq<char>> {
    match st {
        Step::TypeId(w) => seq![w],
        Step::ObjectId(w) => seq![w],
        Step::Str(w) => seq![w],
        _ => seq![],
    }
}

/// The names that a run of lexemes interns, in order.
pub open spec fn lexeme_names(lx: Seq<(int, Step, int)>) -> Seq<Seq<char>>
    decreases lx.len(),
{
    if lx.len() == 0 {
        seq![]
    } else {
        lexeme_names(lx.drop_last()) + step_names(lx.last().1)
    }
}

/// The message that a lexical error of each kind carries.
pub open spec fn message_of(kind: ErrorKind) -> Seq<char> {
    match kind {
        ErrorKind::UnterminatedStringConstant => "Unterminated string constant"@,
        ErrorKind::StringContainsNullCharacter => "String contains null character"@,
        ErrorKind::StringConstantTooLong => "String constant too long"@,
        ErrorKind::EofInString => "EOF in string constant"@,
        ErrorKind::EofInComment => "EOF in comment"@,
        ErrorKind::UnmatchedCloseComment => "Unmatched *)"@,
        _ => Seq::empty(),
    }
}

/// `e` is an error of kind `kind` with the given message, in `file` from
/// byte `start` to byte `end`.
pub open spec fn error_is(
    e: ErrorToken,
    kind: ErrorKind,
    message: Seq<char>,
    file: Seq<char>,
    start: int,
    end: int,
) -> bool {
    &&& e.kind == kind
    &&& e.message@ == message
    &&& e.span.file@ == file
    &&& e.span.start == start
    &&& e.span.end == end
}

/// `tok` is what the lexer hands out for the lexeme `lx` of `s`, with the
/// string table `table` and the file name `file`: byte offsets for the
/// span, table numbers for names and string constants.
pub open spec fn token_for(
    tok: Spanned<Token, usize, ErrorToken>,
    s: Seq<char>,
    lx: (int, Step, int),
    table: Seq<Seq<char>>,
    file: Seq<char>,
) -> bool {
    let b = byte_at(s, lx.0) as int;
    let be = byte_at(s, lx.2) as int;
    match lx.1 {
        Step::Skip => false,
        Step::Fixed(t) => tok matches Ok((x, u, y)) && x == b && y == be && u == t,
        Step::TypeId(w) => tok matches Ok((x, Token::TypeIdentifier(id), y)) && x == b && y == be
            && id < table.len() && table[id as int] == w,
        Step::ObjectId(w) => tok matches Ok((x, Token::ObjectIdentifier(id), y)) && x == b && y
            == be && id < table.len() && table[id as int] == w,
        Step::Str(w) => tok matches Ok((x, Token::StringConstant(id), y)) && x == b && y == be
            && id < table.len() && table[id as int] == w,
        Step::Int(v) => tok matches Ok((x, Token::Integers(n), y)) && x == b && y == be && n == v,
        Step::BadChar(c) => tok matches Ok((x, Token::Error(err), y)) && x == b && y == be
            && error_is(err, ErrorKind::InvalidCharacter, seq![c], file, b, be),
        Step::Fail(kind, k) => tok matches Err(err) && error_is(
            err,
            kind,
            message_of(kind),
            file,
            b,
            byte_at(s, k) as int,
        ),
        Step::Overflow => tok matches Err(err) && error_is(
            err,
            ErrorKind::Other,
            Seq::empty(),
            Seq::empty(),
            0,
            0,
        ),
    }
}

proof fn lemma_interned_one(t: Seq<Seq<char>>, w: Seq<char>)
    ensures
        interned_all(t, seq![w]) == interned(t, w),
{
    let one = seq![w];
    assert(one.drop_last() =~= Seq::<Seq<char>>::empty());
    assert(one.last() == w);
    assert(interned_all(t, one.drop_last()) == t);
}

fn message_for(kind: ErrorKind) -> (m: String)
    ensures
        m@ == message_of(kind),
{
    match kind {
        ErrorKind::UnterminatedStringConstant => String::from_str("Unterminated string constant"),
        ErrorKind::StringContainsNullCharacter => String::from_str("String contains null character"),
        ErrorKind::StringConstantTooLong => String::from_str("String constant too long"),
        ErrorKind::EofInString => String::from_str("EOF in string constant"),
        ErrorKind::EofInComment => String::from_str("EOF in comment"),
        ErrorKind::UnmatchedCloseComment => String::from_str("Unmatched *)"),
        _ => String::new(),
    }
}


impl LexerWrapper {
    /// Only the string table may differ between the two lexers.
    closed spec fn same_input(&self, other: &Self) -> bool {
        &&& self.chars@ == other.chars@
        &&& self.offsets@ == other.offsets@
        &&& self.pos == other.pos
        &&& self.extras.file@ == other.extras.file@
    }

    /// `r` is what one step at `i` hands out, the lexer having gone from
    /// `old` to `self`.
    closed spec fn did_step(&self, old: &Self, i: int, r: (Option<Spanned<Token, usize, ErrorToken>>, usize)) -> bool {
        let s = old.chars@;
        let st = step_at(s, i).0;
        let e = step_at(s, i).1;
        &&& self.wf()
        &&& self.same_input(old)
        &&& r.1 == e
        &&& self.table() == interned_all(old.table(), step_names(st))
        &&& match st {
            Step::Skip => r.0 is None,
            _ => r.0 matches Some(t) && token_for(t, s, (i, st, e), self.table(), self.file()),
        }
    }

    fn error_token(&self, kind: ErrorKind, message: String, i: usize, k: usize) -> (e: ErrorToken)
        requires
            self.wf(),
            i <= k <= self.chars.len(),
        ensures
            error_is(e, kind, message@, self.file(), byte_at(self.chars@, i as int) as int, byte_at(self.chars@, k as int) as int),
    {
        ErrorToken::new(kind, message, Span::new(self.extras.file.clone(), self.offsets[i], self.offsets[k]))
    }

    /// The token of the word `chars[i..e]`.
    fn word_lexeme(&mut self, i: usize, e: usize) -> (r: Spanned<Token, usize, ErrorToken>)
        requires
            old(self).wf(),
            i < e <= old(self).chars.len(),
            is_upper(old(self).chars@[i as int]) || is_lower(old(self).chars@[i as int]),
        ensures
            final(self).wf(),
            final(self).same_input(old(self)),
            final(self).table() == interned_all(old(self).table(), step_names(word_step(old(self).chars@.subrange(i as int, e as int)))),
            token_for(r, old(self).chars@, (i as int, word_step(old(self).chars@.subrange(i as int, e as int)), e as int), final(self).table(), final(self).file()),
    {
        let ghost w_spec = self.chars@.subrange(i as int, e as int);
        let mut w: Vec<char> = Vec::new();
        let mut lw: Vec<char> = Vec::new();
        let mut k = i;
        while k < e
            invariant
                i <= k <= e,
                e <= self.chars.len(),
                w@ == self.chars@.subrange(i as int, k as int),
                lw@ == lower_word(w@),
            decreases e - k,
        {
            let c = self.chars[k];
            proof {
                assert(self.chars@.subrange(i as int, k + 1) =~= w@.push(c));
                assert(lower_word(w@.push(c)) =~= lower_word(w@).push(to_lower(c)));
            }
            w.push(c);
            lw.push(lower_exec(c));
            k = k + 1;
        }
        let b = self.offsets[i];
        let be = self.offsets[e];
        proof {
            lemma_interned_one(self.table(), w@);
        }
        match keyword(&lw) {
            Some(t) => {
                return Ok((b, t, be));
            },
            None => {},
        }
        if chars_eq(&w, &vec!['s', 'e', 'l', 'f']) {
            return Ok((b, Token::SelfValue, be));
        }
        if chars_eq(&w, &vec!['S', 'E', 'L', 'F', '_', 'T', 'Y', 'P', 'E']) {
            return Ok((b, Token::SelfType, be));
        }
        if w[0] == 't' && chars_eq(&lw, &vec!['t', 'r', 'u', 'e']) {
            return Ok((b, Token::BoolConst(true), be));
        }
        if w[0] == 'f' && chars_eq(&lw, &vec!['f', 'a', 'l', 's', 'e']) {
            return Ok((b, Token::BoolConst(false), be));
        }
        let u = w[0] as u32;
        let id = self.extras.s_table.insert(string_from_chars(&w));
        if 65 <= u && u <= 90 {
            Ok((b, Token::TypeIdentifier(id), be))
        } else {
            Ok((b, Token::ObjectIdentifier(id), be))
        }
    }
}


proof fn lemma_decimal_nonneg(s: Seq<char>, i: int, j: int)
    requires
        forall|k: int| i <= k < j ==> is_digit(#[trigger] s[k]),
    ensures
        decimal(s, i, j) >= 0,
    decreases j - i,
{
    if j > i {
        lemma_decimal_nonneg(s, i, j - 1);
    }
}

impl LexerWrapper {
    /// The token of the number `chars[i..e]`.
    fn number_lexeme(&self, i: usize, e: usize) -> (r: Spanned<Token, usize, ErrorToken>)
        requires
            self.wf(),
            i < e <= self.chars.len(),
            forall|k: int| i <= k < e ==> is_digit(#[trigger] self.chars@[k]),
        ensures
            ({
                let v = decimal(self.chars@, i as int, e as int);
                let st = if v <= i64::MAX { Step::Int(v as i64) } else { Step::Overflow };
                token_for(r, self.chars@, (i as int, st, e as int), self.table(), self.file())
            }),
    {
        let mut v: i64 = 0;
        let mut over = false;
        let mut j = i;
        while j < e
            invariant
                i <= j <= e,
                e <= self.chars.len(),
                forall|k: int| i <= k < e ==> is_digit(#[trigger] self.chars@[k]),
                !over ==> v == decimal(self.chars@, i as int, j as int),
                over ==> decimal(self.chars@, i as int, j as int) > i64::MAX,
            decreases e - j,
        {
            let d = ((self.chars[j] as u32) - 48) as i64;
            proof {
                lemma_decimal_nonneg(self.chars@, i as int, j as int);
                assert(decimal(self.chars@, i as int, j + 1) == decimal(self.chars@, i as int, j as int) * 10 + d);
            }
            if !over {
                match v.checked_mul(10) {
                    Some(m) => match m.checked_add(d) {
                        Some(n) => {
                            v = n;
                        },
                        None => {
                            over = true;
                        },
                    },
                    None => {
                        over = true;
                    },
                }
            }
            j = j + 1;
        }
        if over {
            Err(ErrorToken::default())
        } else {
            Ok((self.offsets[i], Token::Integers(v), self.offsets[e]))
        }
    }

    /// Where lexing resumes after a bad string constant, from `k` on.
    fn skip_string_rest_at(&self, k: usize) -> (r: usize)
        requires
            self.wf(),
            k <= self.chars.len(),
        ensures
            r == skip_string_rest(self.chars@, k as int),
    {
        let mut j = k;
        while j < self.chars.len() && self.chars[j] != '\n' && self.chars[j] != '"'
            invariant
                k <= j <= self.chars.len(),
                skip_string_rest(self.chars@, k as int) == skip_string_rest(self.chars@, j as int),
            decreases self.chars.len() - j,
        {
            j = j + 1;
        }
        if j < self.chars.len() && self.chars[j] == '"' {
            j + 1
        } else {
            j
        }
    }

    /// The end of the block comment whose body starts at `j0`, if it is
    /// closed before the input ends.
    fn comment_end_at(&self, j0: usize) -> (r: Option<usize>)
        requires
            self.wf(),
            2 <= j0 <= self.chars.len(),
        ensures
            match r {
                Some(e) => comment_end(self.chars@, j0 as int, 1) == Some(e as int),
                None => comment_end(self.chars@, j0 as int, 1) is None,
            },
    {
        let n = self.chars.len();
        let mut j = j0;
        let mut depth: usize = 1;
        while j < n
            invariant
                n == self.chars.len(),
                j0 <= j <= n,
                1 <= depth <= j,
                comment_end(self.chars@, j0 as int, 1) == comment_end(self.chars@, j as int, depth as int),
            decreases n - j,
        {
            if self.chars[j] == '(' && j + 1 < n && self.chars[j + 1] == '*' {
                depth = depth + 1;
                j = j + 2;
            } else if self.chars[j] == '*' && j + 1 < n && self.chars[j + 1] == ')' {
                if depth == 1 {
                    return Some(j + 2);
                }
                depth = depth - 1;
                j = j + 2;
            } else {
                j = j + 1;
            }
        }
        None
    }
}


impl LexerWrapper {
    fn unescape_exec(c: char) -> (r: char)
        ensures
            r == unescape(c),
    {
        if c == 'n' {
            '\n'
        } else if c == 't' {
            '\t'
        } else if c == 'b' {
            '\x08'
        } else if c == 'f' {
            '\x0C'
        } else {
            c
        }
    }

    /// The string constant whose opening quote is at `i`: its token, and
    /// where lexing resumes.
    fn string_lexeme(&mut self, i: usize) -> (r: (Spanned<Token, usize, ErrorToken>, usize))
        requires
            old(self).wf(),
            i < old(self).chars.len(),
            old(self).chars@[i as int] == '"',
        ensures
            ({
                let (st, e) = string_step(old(self).chars@, i + 1, Seq::empty());
                &&& final(self).wf()
                &&& final(self).same_input(old(self))
                &&& r.1 == e
                &&& final(self).table() == interned_all(old(self).table(), step_names(st))
                &&& token_for(r.0, old(self).chars@, (i as int, st, e), final(self).table(), final(self).file())
            }),
    {
        let n = self.chars.len();
        let mut j = i + 1;
        let mut acc: Vec<char> = Vec::new();
        let mut blen: usize = 0;
        proof {
            assert(byte_len(Seq::<char>::empty()) == 0);
        }
        loop
            invariant
                n == self.chars.len(),
                self.wf(),
                *self == *old(self),
                i + 1 <= j <= n,
                string_step(self.chars@, i + 1, Seq::empty()) == string_step(self.chars@, j as int, acc@),
                blen == byte_len(acc@),
                blen <= MAX_STR_CONST_LEN,
            decreases n - j,
        {
            if j >= n {
                let e = self.error_token(ErrorKind::EofInString, message_for(ErrorKind::EofInString), i, n);
                return (Err(e), n);
            }
            let c = self.chars[j];
            if c == '\0' {
                let k = self.skip_string_rest_at(j + 1);
                proof {
                    lemma_skip_string_rest_bounds(self.chars@, j + 1);
                }
                let kind = ErrorKind::StringContainsNullCharacter;
                let e = self.error_token(kind, message_for(kind), i, k);
                return (Err(e), k);
            }
            if c == '\n' {
                let kind = ErrorKind::UnterminatedStringConstant;
                let e = self.error_token(kind, message_for(kind), i, j);
                return (Err(e), j + 1);
            }
            if c == '"' {
                proof {
                    lemma_interned_one(self.table(), acc@);
                }
                let id = self.extras.s_table.insert(string_from_chars(&acc));
                return (Ok((self.offsets[i], Token::StringConstant(id), self.offsets[j + 1])), j + 1);
            }
            if c == '\\' && j + 1 >= n {
                let e = self.error_token(ErrorKind::EofInString, message_for(ErrorKind::EofInString), i, n);
                return (Err(e), n);
            }
            let ch;
            let next;
            if c == '\\' {
                ch = Self::unescape_exec(self.chars[j + 1]);
                next = j + 2;
            } else {
                ch = c;
                next = j + 1;
            }
            proof {
                assert(acc@.push(ch).drop_last() =~= acc@);
            }
            acc.push(ch);
            blen = blen + width(ch);
            if blen > MAX_STR_CONST_LEN {
                let k = self.skip_string_rest_at(next);
                proof {
                    lemma_skip_string_rest_bounds(self.chars@, next as int);
                }
                let kind = ErrorKind::StringConstantTooLong;
                let e = self.error_token(kind, message_for(kind), i, k);
                return (Err(e), k);
            }
            j = next;
        }
    }
}


fn single_char(c: char) -> (r: Option<Token>)
    ensures
        r == single_char_token(c),
{
    if c == '.' {
        Some(Token::Dot)
    } else if c == '@' {
        Some(Token::At)
    } else if c == '~' {
        Some(Token::Tilde)
    } else if c == '/' {
        Some(Token::Slash)
    } else if c == '+' {
        Some(Token::Plus)
    } else if c == '-' {
        Some(Token::Minus)
    } else if c == '<' {
        Some(Token::Lt)
    } else if c == '>' {
        Some(Token::Gt)
    } else if c == '*' {
        Some(Token::Star)
    } else if c == ';' {
        Some(Token::Semicolon)
    } else if c == ',' {
        Some(Token::Comma)
    } else if c == ':' {
        Some(Token::Colon)
    } else if c == '{' {
        Some(Token::LBrace)
    } else if c == '}' {
        Some(Token::RBrace)
    } else if c == '(' {
        Some(Token::LParen)
    } else if c == ')' {
        Some(Token::RParen)
    } else if c == '=' {
        Some(Token::Eq)
    } else {
        None
    }
}

impl LexerWrapper {
    /// One step of the lexer at index `i`: the token or error it reads,
    /// if any, and where the next step starts.
    fn step(&mut self, i: usize) -> (r: (Option<Spanned<Token, usize, ErrorToken>>, usize))
        requires
            old(self).wf(),
            i < old(self).chars.len(),
        ensures
            final(self).did_step(old(self), i as int, r),
    {
        proof {
            lemma_step_advances(self.chars@, i as int);
        }
        let n = self.chars.len();
        let c = self.chars[i];
        let has_next = i + 1 < n;
        let nc = if has_next { self.chars[i + 1] } else { ' ' };
        let u = c as u32;
        if in_run_exec(RunKind::Space, c) {
            let e = self.run_end_at(i, RunKind::Space);
            return (None, e);
        }
        if (65 <= u && u <= 90) || (97 <= u && u <= 122) {
            let e = self.run_end_at(i, RunKind::Word);
            proof {
                lemma_run_end_bounds(self.chars@, i as int, RunKind::Word);
            }
            let t = self.word_lexeme(i, e);
            return (Some(t), e);
        }
        if 48 <= u && u <= 57 {
            let e = self.run_end_at(i, RunKind::Digit);
            proof {
                lemma_run_end_bounds(self.chars@, i as int, RunKind::Digit);
            }
            let t = self.number_lexeme(i, e);
            return (Some(t), e);
        }
        if c == '"' {
            let (t, e) = self.string_lexeme(i);
            return (Some(t), e);
        }
        if c == '-' && has_next && nc == '-' {
            let e = self.run_end_at(i, RunKind::Line);
            return (None, e);
        }
        if c == '(' && has_next && nc == '*' {
            match self.comment_end_at(i + 2) {
                Some(e) => {
                    return (None, e);
                },
                None => {
                    let kind = ErrorKind::EofInComment;
                    let err = self.error_token(kind, message_for(kind), i, n);
                    return (Some(Err(err)), n);
                },
            }
        }
        let b = self.offsets[i];
        if c == '*' && has_next && nc == ')' {
            let kind = ErrorKind::UnmatchedCloseComment;
            let err = self.error_token(kind, message_for(kind), i, i + 2);
            return (Some(Err(err)), i + 2);
        }
        if c == '=' && has_next && nc == '>' {
            return (Some(Ok((b, Token::FatArrow, self.offsets[i + 2]))), i + 2);
        }
        if c == '<' && has_next && nc == '=' {
            return (Some(Ok((b, Token::Le, self.offsets[i + 2]))), i + 2);
        }
        if c == '<' && has_next && nc == '-' {
            return (Some(Ok((b, Token::Assign, self.offsets[i + 2]))), i + 2);
        }
        if c == '>' && has_next && nc == '=' {
            return (Some(Ok((b, Token::Ge, self.offsets[i + 2]))), i + 2);
        }
        match single_char(c) {
            Some(t) => (Some(Ok((b, t, self.offsets[i + 1]))), i + 1),
            None => {
                let one = vec![c];
                proof {
                    assert(one@ =~= seq![c]);
                }
                let err = self.error_token(ErrorKind::InvalidCharacter, string_from_chars(&one), i, i + 1);
                (Some(Ok((b, Token::Error(err), self.offsets[i + 1]))), i + 1)
            },
        }
    }
}


/// Interning more names keeps every number already given.
pub proof fn lemma_interned_all_extends(t: Seq<Seq<char>>, ss: Seq<Seq<char>>)
    ensures
        interned_all(t, ss).len() >= t.len(),
        forall|k: int| 0 <= k < t.len() ==> #[trigger] interned_all(t, ss)[k] == t[k],
    decreases ss.len(),
{
    if ss.len() > 0 {
        lemma_interned_all_extends(t, ss.drop_last());
    }
}

/// Interning `a` then `b` is interning `a + b`.
pub proof fn lemma_interned_all_concat(t: Seq<Seq<char>>, a: Seq<Seq<char>>, b: Seq<Seq<char>>)
    ensures
        interned_all(t, a + b) == interned_all(interned_all(t, a), b),
    decreases b.len(),
{
    if b.len() == 0 {
        assert(a + b =~= a);
    } else {
        assert((a + b).drop_last() =~= a + b.drop_last());
        lemma_interned_all_concat(t, a, b.drop_last());
    }
}

proof fn lemma_token_for_extends(
    tok: Spanned<Token, usize, ErrorToken>,
    s: Seq<char>,
    lx: (int, Step, int),
    t1: Seq<Seq<char>>,
    t2: Seq<Seq<char>>,
    file: Seq<char>,
)
    requires
        token_for(tok, s, lx, t1, file),
        t2.len() >= t1.len(),
        forall|k: int| 0 <= k < t1.len() ==> #[trigger] t2[k] == t1[k],
    ensures
        token_for(tok, s, lx, t2, file),
{
}

impl LexerWrapper {
    /// The next token or lexical error, or `None` at the end of the input.
    pub fn next_token(&mut self) -> (r: Option<Spanned<Token, usize, ErrorToken>>)
        requires
            old(self).wf(),
        ensures
            final(self).wf(),
            final(self).input() == old(self).input(),
            final(self).file() == old(self).file(),
            ({
                let s = old(self).input();
                let lx = lex_from(s, old(self).position());
                match r {
                    None => lx.len() == 0 && final(self).table() == old(self).table(),
                    Some(t) => {
                        &&& lx.len() > 0
                        &&& lx == seq![lx[0]] + lex_from(s, final(self).position())
                        &&& final(self).table() == interned_all(old(self).table(), step_names(lx[0].1))
                        &&& token_for(t, s, lx[0], final(self).table(), final(self).file())
                    },
                }
            }),
    {
        let n = self.chars.len();
        loop
            invariant
                n == self.chars.len(),
                self.wf(),
                self.chars@ == old(self).chars@,
                self.extras.file@ == old(self).extras.file@,
                self.table() == old(self).table(),
                lex_from(self.chars@, old(self).pos as int) == lex_from(self.chars@, self.pos as int),
            decreases n - self.pos,
        {
            if self.pos >= n {
                return None;
            }
            let i = self.pos;
            proof {
                lemma_step_advances(self.chars@, i as int);
            }
            let (r, e) = self.step(i);
            self.pos = e;
            match r {
                None => {
                    proof {
                        assert(interned_all(old(self).table(), Seq::<Seq<char>>::empty()) == old(self).table());
                    }
                },
                Some(t) => {
                    return Some(t);
                },
            }
        }
    }

    /// All the tokens and lexical errors from here to the end of the input.
    pub fn tokens(&mut self) -> (toks: Vec<Spanned<Token, usize, ErrorToken>>)
        requires
            old(self).wf(),
        ensures
            final(self).wf(),
            final(self).input() == old(self).input(),
            final(self).file() == old(self).file(),
            ({
                let s = old(self).input();
                let lx = lex_from(s, old(self).position());
                &&& toks.len() == lx.len()
                &&& forall|k: int| 0 <= k < lx.len() ==> token_for(#[trigger] toks@[k], s, lx[k], final(self).table(), final(self).file())
                &&& final(self).table() == interned_all(old(self).table(), lexeme_names(lx))
            }),
    {
        let mut toks: Vec<Spanned<Token, usize, ErrorToken>> = Vec::new();
        let ghost s = self.chars@;
        let ghost all = lex_from(s, self.pos as int);
        let ghost mut done: Seq<(int, Step, int)> = Seq::empty();
        proof {
            assert(done + all =~= all);
        }
        loop
            invariant
                self.wf(),
                self.chars@ == s,
                s == old(self).chars@,
                self.extras.file@ == old(self).extras.file@,
                all == lex_from(s, old(self).pos as int),
                all == done + lex_from(s, self.pos as int),
                toks.len() == done.len(),
                forall|k: int| 0 <= k < done.len() ==> token_for(#[trigger] toks@[k], s, done[k], self.table(), self.file()),
                self.table() == interned_all(old(self).table(), lexeme_names(done)),
            decreases lex_from(s, self.pos as int).len(),
        {
            let ghost before = self.table();
            let ghost rest = lex_from(s, self.pos as int);
            match self.next_token() {
                None => {
                    proof {
                        assert(all =~= done);
                    }
                    return toks;
                },
                Some(t) => {
                    proof {
                        let lx = rest[0];
                        lemma_interned_all_extends(before, step_names(lx.1));
                        assert forall|k: int| 0 <= k < done.len() implies token_for(#[trigger] toks@[k], s, done[k], self.table(), self.file()) by {
                            lemma_token_for_extends(toks@[k], s, done[k], before, self.table(), self.file());
                        }
                        assert(done.push(lx).drop_last() =~= done);
                        lemma_interned_all_concat(old(self).table(), lexeme_names(done), step_names(lx.1));
                        assert(done + rest =~= done.push(lx) + lex_from(s, self.pos as int));
                        done = done.push(lx);
                    }
                    toks.push(t);
                },
            }
        }
    }
}


impl ErrorToken {
    /// A copy of this error.
    pub fn duplicate(&self) -> (e: Self)
        ensures
            e == *self,
    {
        ErrorToken { kind: self.kind, message: self.message.clone(), span: self.span.duplicate() }
    }
}

impl Token {
    /// A copy of this token.
    pub fn duplicate(&self) -> (t: Self)
        ensures
            t == *self,
    {
        match self {
            Token::Dot => Token::Dot,
            Token::At => Token::At,
            Token::Tilde => Token::Tilde,
            Token::Slash => Token::Slash,
            Token::Plus => Token::Plus,
            Token::Minus => Token::Minus,
            Token::FatArrow => Token::FatArrow,
            Token::Lt => Token::Lt,
            Token::Le => Token::Le,
            Token::Gt => Token::Gt,
            Token::Ge => Token::Ge,
            Token::Star => Token::Star,
            Token::Assign => Token::Assign,
            Token::Semicolon => Token::Semicolon,
            Token::Comma => Token::Comma,
            Token::Colon => Token::Colon,
            Token::LBrace => Token::LBrace,
            Token::RBrace => Token::RBrace,
            Token::LParen => Token::LParen,
            Token::RParen => Token::RParen,
            Token::Eq => Token::Eq,
            Token::SelfValue => Token::SelfValue,
            Token::SelfType => Token::SelfType,
            Token::Class => Token::Class,
            Token::Else => Token::Else,
            Token::Fi => Token::Fi,
            Token::If => Token::If,
            Token::In => Token::In,
            Token::Inherits => Token::Inherits,
            Token::IsVoid => Token::IsVoid,
            Token::Let => Token::Let,
            Token::Loop => Token::Loop,
            Token::Pool => Token::Pool,
            Token::Then => Token::Then,
            Token::While => Token::While,
            Token::Case => Token::Case,
            Token::Esac => Token::Esac,
            Token::New => Token::New,
            Token::Of => Token::Of,
            Token::Not => Token::Not,
            Token::BoolConst(b) => Token::BoolConst(*b),
            Token::Integers(v) => Token::Integers(*v),
            Token::TypeIdentifier(id) => Token::TypeIdentifier(*id),
            Token::ObjectIdentifier(id) => Token::ObjectIdentifier(*id),
            Token::StringConstant(id) => Token::StringConstant(*id),
            Token::BlockComment => Token::BlockComment,
            Token::UnmatchedCloseComment => Token::UnmatchedCloseComment,
            Token::Error(e) => Token::Error(e.duplicate()),
        }
    }
}


/// `ts` are the tokens, and `table` the string table, that lexing all of
/// `input` into the table `start` gives, with spans in the file `file`.
pub open spec fn lexed(
    input: Seq<char>,
    file: Seq<char>,
    start: Seq<Seq<char>>,
    ts: Seq<Spanned<Token, usize, ErrorToken>>,
    table: Seq<Seq<char>>,
) -> bool {
    let lx = lex_from(input, 0);
    &&& ts.len() == lx.len()
    &&& forall|k: int| 0 <= k < lx.len() ==> token_for(#[trigger] ts[k], input, lx[k], table, file)
    &&& table == interned_all(start, lexeme_names(lx))
}


/// The lexemes come in the order of the input and do not overlap: each
/// starts at or after `i`, ends after it starts and within the input,
/// and the next one starts where it ends or later.
pub proof fn lemma_lexemes_in_order(s: Seq<char>, i: int)
    requires
        0 <= i <= s.len(),
    ensures
        forall|k: int|
            0 <= k < lex_from(s, i).len() ==> i <= (#[trigger] lex_from(s, i)[k]).0 < lex_from(s, i)[k].2 <= s.len(),
        forall|k: int|
            0 <= k < lex_from(s, i).len() - 1 ==> (#[trigger] lex_from(s, i)[k]).2 <= lex_from(s, i)[k + 1].0,
    decreases s.len() - i,
{
    if i < s.len() {
        lemma_step_advances(s, i);
        let (st, e) = step_at(s, i);
        lemma_lexemes_in_order(s, e);
        let rest = lex_from(s, e);
        if !(st is Skip) {
            let all = seq![(i, st, e)] + rest;
            assert(lex_from(s, i) == all);
            assert forall|k: int| 0 <= k < all.len() - 1 implies (#[trigger] all[k]).2 <= all[k + 1].0 by {
                if k > 0 {
                    assert(all[k] == rest[k - 1]);
                    assert(all[k + 1] == rest[k]);
                }
            }
        }
    }
}

/// Byte offsets grow with character indices.
pub proof fn lemma_byte_at_monotone(s: Seq<char>, a: int, b: int)
    requires
        0 <= a <= b <= s.len(),
    ensures
        byte_at(s, a) <= byte_at(s, b),
        a < b ==> byte_at(s, a) < byte_at(s, b),
    decreases b - a,
{
    if a < b {
        lemma_byte_at_step(s, b - 1);
        lemma_byte_at_monotone(s, a, b - 1);
    }
}

} // verus!
