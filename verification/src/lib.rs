//! A compact static full-text search core: documents carry an approximate
//! membership filter over their body terms, queries are tokenized, scored
//! against title and filter, and ranked deterministically.

pub mod codec;
pub mod errors;
pub mod filter;
pub mod hashing;
pub mod proxy;
pub mod rank;
pub mod score;
pub mod store;
pub mod text;
