//! Subject-matching core of a message broker: a subject trie with `*`/`>`
//! wildcard matching, a match-result cache, and the broker-facing
//! subscribe/unsubscribe/publish API.

pub mod error;
pub mod laws;
pub mod registry;
pub mod simple_sublist;
pub mod subject;
pub mod sublist;
