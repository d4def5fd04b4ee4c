//! The mathematical model of a statement cache and its transitions.
//!
//! A cache for one connection is, abstractly, a map from query signatures to
//! backend statement handles, a set of signatures whose preparation is in
//! flight, and a flag that records whether the owning connection is gone.
//! Every executable operation of [`crate::cache::StatementCache`] is
//! specified as one of the transition functions below.

use vstd::prelude::*;

use crate::signature::SigKey;

verus! {

/// Abstract state of one connection's statement cache.
#[verifier::ext_equal]
pub ghost struct CacheModel {
    /// Signatures that were prepared successfully, with the handle the
    /// backend returned. At most one handle per signature.
    pub cached: Map<SigKey, u64>,
    /// Signatures whose preparation round trip is currently in flight.
    pub pending: Set<SigKey>,
    /// Whether the owning connection has been torn down.
    pub closed: bool,
}

/// What `get_or_prepare` tells its caller to do.
#[derive(Clone, Copy, Debug, PartialEq, Eq)]
pub enum PrepareOutcome {
    /// The signature is cached; here is the handle. No round trip is needed.
    Cached(u64),
    /// Another caller is already preparing this signature; await its result
    /// instead of issuing a second round trip.
    AwaitInFlight,
    /// This caller must issue the prepare round trip and then report back
    /// with `complete_prepare` (on success) or `abandon_prepare` (on a
    /// backend rejection or cancellation).
    MustPrepare,
}

/// The cache-level error: the cache's owning connection has already been
/// torn down, so no statement can be looked up or prepared through it.
#[derive(Clone, Copy, Debug, PartialEq, Eq)]
pub enum CacheError {
    ConnectionClosed,
}

/// The state of a freshly created cache: nothing cached, nothing in flight,
/// connection open.
pub open spec fn empty_model() -> CacheModel {
    CacheModel { cached: Map::empty(), pending: Set::empty(), closed: false }
}

/// What a lookup returns: the cached handle, if any.
pub open spec fn spec_lookup(m: CacheModel, k: SigKey) -> Option<u64> {
    if m.cached.dom().contains(k) {
        Some(m.cached[k])
    } else {
        None
    }
}

/// The `get_or_prepare` transition: on a closed cache it fails and changes
/// nothing; on a hit it returns the cached handle and changes nothing; on a
/// signature already in flight it tells the caller to wait and changes
/// nothing; otherwise it records the signature as in flight and tells the
/// caller to issue the round trip.
pub open spec fn spec_get_or_prepare(m: CacheModel, k: SigKey) -> (CacheModel, Result<
    PrepareOutcome,
    CacheError,
>) {
    if m.closed {
        (m, Err(CacheError::ConnectionClosed))
    } else if m.cached.dom().contains(k) {
        (m, Ok(PrepareOutcome::Cached(m.cached[k])))
    } else if m.pending.contains(k) {
        (m, Ok(PrepareOutcome::AwaitInFlight))
    } else {
        (
            CacheModel { cached: m.cached, pending: m.pending.insert(k), closed: m.closed },
            Ok(PrepareOutcome::MustPrepare),
        )
    }
}

/// The transition for a preparation that came back successfully with handle
/// `h`: the signature moves from in flight to cached.
pub open spec fn spec_complete(m: CacheModel, k: SigKey, h: u64) -> CacheModel {
    CacheModel { cached: m.cached.insert(k, h), pending: m.pending.remove(k), closed: m.closed }
}

/// The transition for a preparation that failed or was cancelled: the
/// signature merely stops being in flight. Nothing is memoized, so a later
/// `get_or_prepare` for the same signature attempts preparation again.
pub open spec fn spec_abandon(m: CacheModel, k: SigKey) -> CacheModel {
    CacheModel { cached: m.cached, pending: m.pending.remove(k), closed: m.closed }
}

/// The transition for a connection reset: every cached handle and every
/// in-flight preparation is forgotten; the connection stays usable.
pub open spec fn spec_invalidate(m: CacheModel) -> CacheModel {
    CacheModel { cached: Map::empty(), pending: Set::empty(), closed: m.closed }
}

/// The transition for connection teardown: the cache is emptied atomically
/// with the handle, so no statement outlives its owning connection, and the
/// cache refuses further preparation.
pub open spec fn spec_close(m: CacheModel) -> CacheModel {
    CacheModel { cached: Map::empty(), pending: Set::empty(), closed: true }
}

/// The model-level invariant: both components are finite, no signature is
/// cached and in flight at once, and a closed cache holds nothing.
pub open spec fn model_inv(m: CacheModel) -> bool {
    &&& m.cached.dom().finite()
    &&& m.pending.finite()
    &&& m.cached.dom().disjoint(m.pending)
    &&& (m.closed ==> m.cached == Map::<SigKey, u64>::empty() && m.pending == Set::<
        SigKey,
    >::empty())
}

} // verus!
