//! The laws of the statement cache, proved over the transition functions of
//! [`crate::model`]. Each holds for every signature and every cache state
//! its `requires` admits; the executable operations are tied to the same
//! transition functions by their contracts.

use vstd::prelude::*;

use crate::model::{
    model_inv, spec_abandon, spec_close, spec_complete, spec_get_or_prepare, spec_invalidate,
    spec_lookup, CacheModel, PrepareOutcome,
};
use crate::signature::SigKey;

verus! {

/// Two sequential `get_or_prepare` calls for the same signature on the same
/// open connection return the same statement handle and issue exactly one
/// prepare round trip. If the signature is already cached, both calls hit
/// and neither changes the state; otherwise the first call alone is told to
/// prepare, and once the resulting handle `h` is recorded the second call
/// returns that very handle without any further round trip or state change.
pub proof fn lemma_sequential_reuse(m: CacheModel, k: SigKey, h: u64)
    requires
        !m.closed,
        !m.pending.contains(k),
    ensures
        m.cached.dom().contains(k) ==> {
            &&& spec_get_or_prepare(m, k).0 == m
            &&& spec_get_or_prepare(m, k).1 == Ok::<PrepareOutcome, crate::model::CacheError>(
                PrepareOutcome::Cached(m.cached[k]),
            )
        },
        !m.cached.dom().contains(k) ==> {
            let m1 = spec_get_or_prepare(m, k).0;
            let m2 = spec_complete(m1, k, h);
            &&& spec_get_or_prepare(m, k).1 == Ok::<PrepareOutcome, crate::model::CacheError>(
                PrepareOutcome::MustPrepare,
            )
            &&& spec_get_or_prepare(m2, k).0 == m2
            &&& spec_get_or_prepare(m2, k).1 == Ok::<PrepareOutcome, crate::model::CacheError>(
                PrepareOutcome::Cached(h),
            )
        },
{
}

/// Distinct signatures have independent cache entries: no transition taken
/// for one signature evicts, aliases or otherwise disturbs what the cache
/// holds for any other signature, cached or in flight.
pub proof fn lemma_signatures_independent(m: CacheModel, k1: SigKey, k2: SigKey, h: u64)
    requires
        k1 != k2,
    ensures
        spec_lookup(spec_get_or_prepare(m, k1).0, k2) == spec_lookup(m, k2),
        spec_get_or_prepare(m, k1).0.pending.contains(k2) == m.pending.contains(k2),
        spec_lookup(spec_complete(m, k1, h), k2) == spec_lookup(m, k2),
        spec_complete(m, k1, h).pending.contains(k2) == m.pending.contains(k2),
        spec_lookup(spec_abandon(m, k1), k2) == spec_lookup(m, k2),
        spec_abandon(m, k1).pending.contains(k2) == m.pending.contains(k2),
{
}

/// Single flight: `get_or_prepare` answers `MustPrepare` only for a
/// signature that is neither cached nor in flight, and it records the
/// signature as in flight at once. Concurrent callers are linearized, so
/// every caller after the one that was told to prepare, and before that
/// preparation completes or is abandoned, is told to wait: for one
/// signature at most one prepare round trip is ever in flight.
pub proof fn lemma_single_flight(m: CacheModel, k: SigKey)
    ensures
        spec_get_or_prepare(m, k).1 == Ok::<PrepareOutcome, crate::model::CacheError>(
            PrepareOutcome::MustPrepare,
        ) ==> !m.cached.dom().contains(k) && !m.pending.contains(k),
        spec_get_or_prepare(m, k).1 == Ok::<PrepareOutcome, crate::model::CacheError>(
            PrepareOutcome::MustPrepare,
        ) ==> spec_get_or_prepare(m, k).0.pending.contains(k),
        spec_get_or_prepare(m, k).1 == Ok::<PrepareOutcome, crate::model::CacheError>(
            PrepareOutcome::MustPrepare,
        ) ==> spec_get_or_prepare(spec_get_or_prepare(m, k).0, k) == (
            spec_get_or_prepare(m, k).0,
            Ok::<PrepareOutcome, crate::model::CacheError>(PrepareOutcome::AwaitInFlight),
        ),
{
}

/// After `invalidate_all`, nothing is cached or in flight: a lookup of any
/// signature misses, and `get_or_prepare` for any signature, previously
/// cached or not, triggers a fresh prepare round trip.
pub proof fn lemma_invalidate_forces_prepare(m: CacheModel, k: SigKey)
    requires
        !m.closed,
    ensures
        spec_lookup(spec_invalidate(m), k) is None,
        spec_get_or_prepare(spec_invalidate(m), k).1 == Ok::<
            PrepareOutcome,
            crate::model::CacheError,
        >(PrepareOutcome::MustPrepare),
{
}

/// A failed or cancelled preparation is not cached. Abandoning leaves the
/// cached map exactly as it was; in particular, under the invariant the
/// abandoned signature is not cached, so no waiter can be handed a handle
/// for it. A retry of the identical signature is told to prepare again
/// rather than short-circuiting to a remembered failure.
pub proof fn lemma_failure_not_cached(m: CacheModel, k: SigKey)
    requires
        !m.closed,
        m.pending.contains(k),
        model_inv(m),
    ensures
        spec_abandon(m, k).cached == m.cached,
        !spec_abandon(m, k).cached.dom().contains(k),
        spec_get_or_prepare(spec_abandon(m, k), k).1 == Ok::<
            PrepareOutcome,
            crate::model::CacheError,
        >(PrepareOutcome::MustPrepare),
{
    assert(!m.cached.dom().contains(k));
}

/// Every transition preserves the model-level invariant: finiteness, the
/// disjointness of cached and in-flight signatures, and emptiness of a
/// closed cache. Completion preserves it for a signature that was in
/// flight, which its executable counterpart requires.
pub proof fn lemma_transitions_preserve_inv(m: CacheModel, k: SigKey, h: u64)
    requires
        model_inv(m),
    ensures
        model_inv(spec_get_or_prepare(m, k).0),
        m.pending.contains(k) ==> model_inv(spec_complete(m, k, h)),
        model_inv(spec_abandon(m, k)),
        model_inv(spec_invalidate(m)),
        model_inv(spec_close(m)),
{
    let m1 = spec_get_or_prepare(m, k).0;
    assert(m1.cached.dom().disjoint(m1.pending));
    if m.closed {
        assert(spec_abandon(m, k).pending =~= Set::<SigKey>::empty());
    }
    if m.pending.contains(k) {
        let m2 = spec_complete(m, k, h);
        assert(!m.cached.dom().contains(k));
        assert forall|k2: SigKey| m2.cached.dom().contains(k2) implies !m2.pending.contains(
            k2,
        ) by {}
    }
}

} // verus!
