use vstd::prelude::*;

use crate::grammar::p_classes;
use crate::lexer::{byte_len, lexed, ErrorToken, LexerWrapper, Spanned, Token};
use crate::parse_tree::Program;
use crate::parser::{class_nodes, ok_tokens, parses_cleanly, Parser};
pub use crate::semantic_analysis::method_table::ReturnType;
use crate::string_table::{builtin_names, StringTable};

verus! {

/// A stretch of a source file: the bytes from `start` up to, not
/// including, `end`. Used to report where an error was found.
#[derive(Debug, PartialEq, Clone)]
pub struct Span {
    pub file: String,
    pub start: usize,
    pub end: usize,
}

impl Span {
    pub fn new(file: String, start: usize, end: usize) -> (s: Self)
        ensures
            s.file@ == file@,
            s.start == start,
            s.end == end,
    {
        Self { file, start, end }
    }
}

impl Span {
    /// A copy of this span.
    pub fn duplicate(&self) -> (s: Self)
        ensures
            s == *self,
    {
        Span { file: self.file.clone(), start: self.start, end: self.end }
    }
}

impl Default for Span {
    fn default() -> (s: Self)
        ensures
            s.file@ == Seq::<char>::empty(),
            s.start == 0,
            s.end == 0,
    {
        Span { file: String::new(), start: 0, end: 0 }
    }
}


/// Every way of lexing `input` (with no file name) gives tokens that
/// read as a program with no error.
pub open spec fn program_parses(input: Seq<char>) -> bool {
    forall|ts: Seq<Spanned<Token, usize, ErrorToken>>, table: Seq<Seq<char>>|
        #[trigger] lexed(input, Seq::empty(), builtin_names(), ts, table) ==> parses_cleanly(Seq::empty(), ts)
}

/// Lexes and parses a whole program with no file name: the string table
/// and the program.
pub fn parse_program(input: &str) -> (r: (StringTable, Program))
    requires
        byte_len(input@) <= usize::MAX,
        program_parses(input@),
    ensures
        r.0.wf(),
        exists|ts: Seq<Spanned<Token, usize, ErrorToken>>|
            #[trigger] lexed(input@, Seq::empty(), builtin_names(), ts, r.0@) && class_nodes(r.1.classes@)
                == p_classes(ok_tokens(ts, ts.len() as int), Seq::empty(), 0, Seq::empty(), Seq::empty()).classes,
{
    let mut lexer = LexerWrapper::new(input, StringTable::new(), String::new());
    let tokens = lexer.tokens();
    let table = lexer.into_table();
    let mut parser = Parser::new("");
    proof {
        reveal_strlit("");
        assert(""@ =~= Seq::<char>::empty());
    }
    let ghost ts = tokens@;
    proof {
        assert(lexed(input@, Seq::empty(), builtin_names(), ts, table@));
    }
    match parser.parse(tokens) {
        Some(program) => (table, program),
        None => {
            proof {
                assert(parses_cleanly(Seq::empty(), ts));
            }
            (table, Program { classes: Vec::new() })
        },
    }
}

} // verus!
