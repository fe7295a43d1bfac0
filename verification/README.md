# kernel

A verified core for a MORK evaluation kernel, written in Verus.

Expressions are byte strings in a prefix encoding (a tag byte for a tuple's arity,
a symbol's length, a variable), and the pure functions of the kernel (list
operations such as `car`, `cons`, `sort-atom` or `subtraction-atom`, symbol
operations, hexadecimal and base64 codecs, ternary bitwise logic) take the byte
spans of their arguments and give back bytes, each with a contract over a
mathematical model of the encoding.

Layout:

* `src/expr.rs`, `src/list_helpers.rs`: the encoding, and taking tuples apart and
  putting them together.
* `src/pure.rs`, `src/codec.rs`, `src/bits.rs`: the pure functions.
* `src/laws.rs`: round trips and properties that relate the pure functions.
* `src/trie.rs`, `src/weightedsweep.rs`: the trie of weighted atoms, the weighted
  random walk over it and the chunked priority queue of its heaviest subtrees.
* `src/sources.rs`: the kinds of query sources and what they enroll.
* `src/step.rs`: the evaluation machine's scheduling of tasks.
* `tests/`: tests of the library on concrete values.
* `app/`: the evaluator-facing glue (foreign functions, path-map traversal,
  sources, the machine's run loop) and the floating-point operations.
