# coolc

A front end for COOL, the Classroom Object-Oriented Language: it reads a
source file into tokens, parses the tokens into a tree, and checks the
tree's meaning, with every step verified by Verus.

## Layout

- `src/lexer.rs`: the lexical grammar as spec functions over the
  characters of the input (`step_at`, `lex_from`), and the lexer that
  follows it exactly (`LexerWrapper::tokens`), with byte spans and the
  string table that names and string constants are interned in.
- `src/grammar.rs`: the grammar as spec functions over the tokens, by
  binding power for expressions, with recovery from errors at features
  and classes; `ProgramParser` reads a program.
- `src/parser.rs`: the recursive-descent reader that follows the grammar,
  its errors, and `Parser`, which keeps the errors of the last read.
- `src/semantic_analysis/`: the class hierarchy (`inheritance_tree.rs`),
  the method table (which holds the builtin methods of `Object`, `IO`
  and `String` before the program's own), the scoped symbol table, the typing rules as spec
  functions (`typing.rs`), and `SemanticAnalyzer`, which checks a
  program against them.
- `src/string_table.rs`, `src/utils.rs`, `src/ast.rs`,
  `src/parse_tree.rs`, `src/diagnostic.rs`: the string table, spans, the
  two trees, and compile errors with their messages, ready to be
  reported.
- `app/main.rs`: the command-line driver: reads the file, runs the
  library, and prints errors with `ariadne`.
- `tests/`: tests of each part.
