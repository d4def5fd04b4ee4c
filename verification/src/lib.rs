//! A connection-scoped cache of prepared statements.
//!
//! A database client prepares a statement once per connection and reuses the
//! resulting server-side handle across executions. This library keeps the
//! bookkeeping for that reuse: it maps a query signature (query text plus the
//! ordered declared parameter types) to the handle the backend returned, makes
//! sure that at most one preparation per signature is ever in flight on a
//! connection, never remembers a failed preparation, and drops every handle
//! when the owning connection is reset or closed.
//!
//! The network round trip itself is not performed here: `get_or_prepare`
//! tells its caller whether a cached handle exists, whether another caller is
//! already preparing the same signature, or whether this caller must issue
//! the round trip and then report the outcome with `complete_prepare` or
//! `abandon_prepare`.

pub mod cache;
pub mod laws;
pub mod model;
pub mod sealed;
pub mod signature;
