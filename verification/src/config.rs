//! What a pool is made from.

use vstd::prelude::*;

verus! {

/// Where the server is, who connects, and how many sessions may be open at
/// a time.
pub struct Config {
    pub uri: String,
    pub user: String,
    pub password: String,
    pub max_connections: usize,
}

} // verus!
