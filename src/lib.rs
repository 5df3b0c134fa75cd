//! Unique identifiers for code generation.
//!
//! A token stream is rewritten so that every marker `/ ? /` becomes a new
//! identifier `_randsym_<uuid>`, and every marker `/ ? @ name /` becomes the
//! identifier bound to `name`: the same for every occurrence of `name` in one
//! rewrite, and a new one in the next rewrite.
//!
//! [`rewrite::rw`] states the rewrite over token views; [`rewrite::replace_syms`]
//! and [`rewrite::randsym`] compute it; the `laws` module proves what holds of
//! every rewrite.
pub mod laws;
pub mod names;
pub mod rewrite;
pub mod symbol;
pub mod token;

pub use names::NameTable;
pub use rewrite::{randsym, replace_syms};
pub use symbol::{gen_sym, symbol_from_hex, SymbolSupply};
pub use token::{Delimiter, Token};
