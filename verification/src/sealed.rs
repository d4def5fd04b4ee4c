//! The marker that closes the set of client variants.

use vstd::prelude::*;

verus! {

/// Marker trait for the closed set of client handles that may own a
/// statement cache: a direct connection and a transaction. Embedding code
/// implements it for exactly those two wrapper types; no further variant is
/// intended.
pub trait Sealed {
}

} // verus!
