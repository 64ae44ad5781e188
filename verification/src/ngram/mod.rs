//! Hashed n-gram embedding: a token history becomes the rows of a table. Each position hashes
//! the token windows that end there into rows, and the rows concatenate into one feature
//! vector.

pub mod hashing;
pub mod lookup;
pub mod table;
pub mod trellis;
