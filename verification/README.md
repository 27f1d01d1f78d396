# calc_flash

An arbitrary-precision calculator for integer arithmetic, built around a
library verified with Verus.

Operators: `+ - * / % ^ !` and parentheses. Division is exact when the
divisor divides the dividend and falls back to floating point otherwise;
`^` stays exact for exponents up to 4 000 000; `!` takes non-negative
integers. Results with more than 10 000 digits (by a bit-length estimate)
are shown as a summary; `:full`, `:dump <file>` and `:save <file>` give the
whole number.

## Layout

- `src/` — the verified library:
  - `token.rs`, `lexer.rs`: tokens and the lexer, specified by `lex`;
    number literals are checked against the grammar of decimal
    floating-point literals.
  - `parser.rs`, `program.rs`: the recursive-descent parser, specified by
    one spec function per grammar rule, lowering an expression to a postfix
    program; `compile` runs both. Proved: a program compiled without error
    leaves exactly one value on the evaluation stack, and every number it
    pushes is a valid literal of the input.
  - `grouping.rs`: how the parser groups operators: `+ - * / %` to the
    left, `^` to the right, and `-a^b` as `-(a^b)`, for operands of any
    shape and, through `compile_spec`, for single numbers.
  - `message.rs`: the error messages.
  - `natural.rs`, `bigint.rs`, `display.rs`: big integers as limb vectors,
    with GMP (through `rug`) behind small trusted wrappers; signs, exact
    division, truncated remainder, bounded powers and the result display are
    verified on top. `powers.rs` bounds log10(2) between two fractions by
    exact powers, so that the digit estimate behind the display is proved
    within one of the true count for every bit length up to `u32::MAX`.
  - `primes.rs`, `factorial.rs`, `legendre.rs`: the sieve, Legendre's
    exponent, the balanced product tree and the factorial table, with a
    proof of Legendre's theorem so that `factorial(n)` is `n!` on both paths.
  - `args.rs`: the command line.
  - `repl.rs`: the decisions of the interactive loop: trimming a line,
    recognising `:save <file>`, `:dump <file>`, `:full`, `:digits`,
    `:quit`/`:q` or an expression, and the step from the session (log file,
    whether a result is held) and the command to the next session and the
    action to perform; also the text of `:digits`.
- `app/main.rs` — the program: floating-point values, the evaluation of the
  compiled program, reading lines (through `rustyline`), performing the
  actions that `repl.rs` decides, and file output.

`Cargo.toml` names `gmp-mpfr-sys`, the crate under `rug`, only to pick its
`use-system-libs` feature: `rug` then links against the GMP installed on the
system instead of building its own copy. No code names it.
- `tests/` — tests of the library.
