# rpn2

Compiles mathematical expressions (`3x+2`, `2sin(x)^2`, `log(8)_2`) into
compact binary RPN bytecode in caller-provided buffers, and renders
bytecode back to postfix text. Every limit (output budget, nesting depth,
operator-stack scratch) is chosen by the caller.

The library is written in Verus: each public operation carries a contract
that states exactly what it writes and how it ends, and the contracts are
proved.

## Layout

* `src/compile.rs` — the precedence-driven emitter; `compile_spec` is the
  meaning of a compilation, `compile_into` / `parse_into` meet it. The
  nesting depth counts open groups, function calls, powers, negations and
  `_` bases, each of which gives its level back when it closes, so
  sibling groups never add up. The operator-stack scratch takes 4 bytes
  per nesting level plus 32 (`Config::scratch_len`): a level holds at
  most four pending entries, and the engine keeps each entry in one byte.
* `src/class.rs`, `src/lex.rs`, `src/decimal.rs` — byte classes, tokens,
  and number literals converted to their correctly rounded binary64
  encoding with exact integer arithmetic (`src/natbits.rs`,
  `src/binary64.rs`).
* `src/fold.rs`, `src/fpu.rs` — substitution of variable definitions and
  constant folding with IEEE binary64 arithmetic computed exactly.
* `src/decode.rs`, `src/display.rs` — bytecode back to text; numbers print
  as the shortest decimal that reads back as the same value. The text may
  fill the whole output buffer: decoding has no other limit.
* `src/session.rs` — persistent single-letter definitions, held in inline
  arrays (one slot of `VAR_BYTES` bytes per letter); `src/acyclic.rs`
  and `src/norec.rs` show that stored definitions never lead back into
  themselves, so compiling under them never meets a recursive definition.
* `src/eval.rs` — the postfix evaluator on binary64 encodings, with exact
  arithmetic; values only a math library can give (transcendental
  functions, general powers) are asked of the caller.
* `src/solve.rs` — the numeric solver as a state machine: it chooses the
  points to sample and bisect, the caller evaluates both sides there. A
  sample where the two sides differ by NaN is never a root and never
  opens a bracket.
* `src/error.rs` — error values and their messages.
* `src/num.rs` — the fast path for number literals, proved to agree with
  the exact conversion wherever it answers.
* `src/stream.rs`, `src/balance.rs`, `src/foldeval.rs`, `src/bounds.rs`,
  `src/readback.rs`, `src/headroom.rs`, `src/lazy.rs`, `src/limits.rs`,
  `src/tokens.rs`, `src/spacing.rs`, `src/joining.rs`, `src/laws.rs` —
  properties of the library as a whole: white space between tokens is
  ignored; joining two expressions with a top-level `+` never deepens
  nesting; bytecode compiled without substitution always decodes and is a
  balanced postfix program the evaluator accepts (with substitution a
  definition such as `1/0` can fold to an infinity, which the decoder
  refuses); folding computes what evaluation computes; output stays
  within its room, and another room only cuts it short; a scratch of
  `scratch_len` bytes never runs short; compiling without substitution,
  or in a session without definitions, never consults definitions; a
  letter is defined exactly when its last edit was a successful
  definition; printed numbers read back exactly; failed definitions
  change nothing; the solver records each root once.
* `app/` — the `f64` face of evaluation and solving (answering the
  evaluator's requests with std's math functions), `Display` for errors
  and the command-line front end.
