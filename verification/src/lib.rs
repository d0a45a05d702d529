//! A request-routing table: an exact-match map plus a prefix trie with
//! literal and placeholder segments, mounted static prefixes, and
//! per-HTTP-method handler dispatch.
//!
//! Registration builds the table; resolution maps a request path (plus
//! scope kind and method) to a previously registered handler reference
//! and the placeholder values captured along the way. The trie is kept
//! in an index arena, so construction and teardown never recurse and
//! arbitrarily deep route sets cannot exhaust the call stack.

pub mod handler;
pub mod laws;
pub mod leaf;
pub mod path;
pub mod table;
