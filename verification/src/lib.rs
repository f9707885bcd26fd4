//! Client-side core of a marker-tagged binary graph-database protocol:
//! a byte-exact value codec and the accounting of a bounded connection pool.

pub mod config;
pub mod errors;
pub mod pool;
pub mod types;
pub mod wire;
