# ember

A small tree-walking interpreter for a toy scripting language, verified
with Verus. Source text goes through four stages: the lexer (`src/lexer.rs`)
makes tokens, the parser (`src/parser.rs`) makes a syntax tree
(`src/ast.rs`), the static analysis (`src/sema.rs`) checks declarations and
operand types, and the interpreter (`src/interpreter.rs`) runs the program.
`src/lib.rs` runs the whole pipeline.

Each stage is specified by spec functions over mathematical values (the
lexical grammar, the grammar, the typing rules, and the semantics with a
bound on loop runs), and each executable function is proved to compute
exactly what they say. Besides the stages:

- `src/scope.rs`: the stack of scopes shared by the analysis and the
  interpreter;
- `src/text.rs`: decimal rendering and string building for messages;
- `src/soundness.rs`: type soundness, a program that passes the analysis
  never gets stuck at run time;
- `src/names.rs`: every name that comes from source text is ASCII;
- `src/error.rs`: the error type of the pipeline.

`app/` is the command-line program: it reads a file, runs it, prints what
the program prints, and shows error messages.
