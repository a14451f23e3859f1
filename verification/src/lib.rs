//! A memoizing cache in front of an expensive query path.
//!
//! A request is identified by its query text and its command kind. The key of
//! a request is the lowercase hex SHA-256 digest of both, followed by a dot
//! and the command. Results are kept in a bounded store that evicts the entry
//! used least recently.

pub mod hash;
pub mod hex;
pub mod key;
pub mod retrieval;
pub mod store;

pub use key::get_key;
pub use retrieval::{bytes_to_persist, retrieve};
pub use store::{insert, probe};
