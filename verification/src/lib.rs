//! Verified core of a MORK kernel: the byte encoding of expressions, the pure
//! list, symbol, codec and bitwise functions evaluated over it, the trie of
//! weighted atoms and its traversals, the sources of a query, and the machine that
//! drives evaluation.
pub mod expr;
pub mod error;
pub mod list_helpers;
pub mod pure;
pub mod codec;
pub mod bits;
pub mod laws;
pub mod trie;
pub mod weightedsweep;
pub mod sources;
pub mod step;
