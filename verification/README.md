# boogie_wrapper

Runs the Boogie verifier on a program that a prover has generated, analyzes what Boogie prints, and
reports the errors on the source that the program was generated from.

The analysis is a library in Verus; its contracts say what it extracts and reports, and Verus proves
them.

- `src/pattern.rs`, `src/errors.rs`: errors, execution traces and models in the output
- `src/parser.rs`, `src/value.rs`, `src/order.rs`: the text of a model, and the values in it
- `src/extract.rs`, `src/model.rs`: what a model tells of locals and aborts
- `src/doc.rs`, `src/display.rs`: values shown by their types
- `src/report.rs`: diagnostics with the trace of an error
- `src/env.rs`: what is known of the verified program
- `app/`: running Boogie, and the connection to the prover

The crates `regex`, `pretty` and `num` do their work behind small functions whose contracts are
trusted: those in `pattern.rs` and `doc.rs`, and two in `display.rs`. Their doc comments say what is
taken for granted.
