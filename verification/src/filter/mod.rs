//! Grammar-constrained decoding.
pub mod acceptor;
pub mod automaton;
pub mod classes;
pub mod constants;
pub mod counts;
pub mod drafts;
pub mod forms;
pub mod gbnf;
pub mod json_schema;
pub mod language;
pub mod laws;
pub mod lists;
pub mod mask;
pub mod matcher;
pub mod meaning;
pub mod objects;
pub mod orders;
pub mod prelude;
pub mod prelude_shapes;
pub mod ranking;
pub mod reading;
pub mod repeats;
pub mod schemas;
pub mod shapes;
pub mod soundness;
pub mod spans;
pub mod state;
pub mod syntax;
pub mod trie;
pub mod utf8;

pub use acceptor::ByteAcceptor;
pub use mask::TokenMask;
pub use state::{apply_filters, FilterState};
pub use trie::VocabTrie;
