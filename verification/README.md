# tkom

A small statically typed scripting language (`i64`, `f64`, `str`, `bool`,
functions with value and reference parameters, `if`, `for`, `switch`, and the
built-ins `print`, `input` and `mod`), written in Verus. Each stage of the
pipeline carries contracts that Verus proves; how much they pin down differs
by stage, as the layout below says.

## Layout

- `src/lazy_stream_reader.rs`, `src/char_reader.rs`: characters and positions
  from bytes, with newline handling.
- `src/lexical.rs`, `src/lexer.rs`: the token grammar as spec functions, and the
  lexer proved to produce exactly those tokens (and warnings).
- `src/grammar.rs`, `src/parser.rs`: the language grammar over tokens, and the
  recursive-descent parser proved to return a tree that the tokens it took
  derive. Where the tokens ahead are known (`ILexer::coming`), success and
  the exact tree are proved for a set of constructs: sums of literals and
  names grouped from the left, a comparison of two such sums, `break;`,
  `return;`, `{}`, declarations without a value or with a simple one,
  `x = e;`, `for ( ; e ; ) {}`, `for (t x = e; a < b; x = s) {}` with such
  parts, `fn f(): void {}`, and programs that are empty, hold one such
  assignment, declare one such function twice or under a built-in's name;
  and the errors of three malformed `for` heads.
- `src/semantic_checker.rs`, `src/functions_manager.rs`: static checks, whose
  list of issues is specified exactly.
- `src/value.rs`, `src/alu.rs`, `src/float.rs`: values and operators, with
  integer overflow and casts specified; floats are held as IEEE-754 bits and
  their arithmetic is supplied through the `FloatArithmetic` trait.
- `src/scope_manager.rs`, `src/stack.rs`: variables, scopes and call frames,
  with laws on block scoping, reference parameters and assignment.
- `src/std_functions.rs`, `src/interpreter.rs`: the built-ins and the
  tree-walking interpreter, including an evaluation relation for expressions
  that call no function. Statements are specified one at a time (the values
  declarations and assignments store, their errors, the errors of calls and
  conditions).
- `src/execution.rs`: what a run of statements that call no function and hold
  no `return` does, as a relation between the state before and after a run
  that ends without an error (blocks, `if`, `for` turn by turn, `switch` with
  `break`); the interpreter is proved to follow it, also for the body of a
  user function, run in a frame that binds each parameter to its argument
  (a write through a reference parameter reaches the caller's variable).
  That such a run succeeds, and what a `return` gives back, is not stated.
- `app/`: the command-line program (file reading, standard input and output,
  the `f64` arithmetic).
- `tests/`: tests run against the compiled library.
