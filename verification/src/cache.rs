//! The executable statement cache for one connection.

use vstd::prelude::*;

use crate::model::{
    empty_model, spec_abandon, spec_close, spec_complete, spec_get_or_prepare, spec_invalidate,
    spec_lookup, CacheError, CacheModel, PrepareOutcome,
};
use crate::signature::{SigKey, Signature};

verus! {

/// One cached statement: the signature together with the handle the backend
/// returned for it.
struct CacheEntry {
    sig: Signature,
    handle: u64,
}

/// The map a sequence of entries stands for, later entries taking
/// precedence. Under `keys_distinct` precedence never matters.
spec fn entries_map(s: Seq<CacheEntry>) -> Map<SigKey, u64>
    decreases s.len(),
{
    if s.len() == 0 {
        Map::empty()
    } else {
        entries_map(s.drop_last()).insert(s.last().sig@, s.last().handle)
    }
}

/// The set of keys a sequence of signatures stands for.
spec fn key_set(s: Seq<Signature>) -> Set<SigKey>
    decreases s.len(),
{
    if s.len() == 0 {
        Set::empty()
    } else {
        key_set(s.drop_last()).insert(s.last()@)
    }
}

spec fn keys_distinct(s: Seq<CacheEntry>) -> bool {
    forall|i: int, j: int| #![trigger s[i], s[j]] 0 <= i < j < s.len() ==> s[i].sig@ != s[j].sig@
}

spec fn sigs_distinct(s: Seq<Signature>) -> bool {
    forall|i: int, j: int| #![trigger s[i], s[j]] 0 <= i < j < s.len() ==> s[i]@ != s[j]@
}

spec fn keys_disjoint(es: Seq<CacheEntry>, ps: Seq<Signature>) -> bool {
    forall|i: int, j: int| #![trigger es[i], ps[j]]
        0 <= i < es.len() && 0 <= j < ps.len() ==> es[i].sig@ != ps[j]@
}

proof fn lemma_entries_map_contains(s: Seq<CacheEntry>, k: SigKey)
    ensures
        entries_map(s).dom().contains(k) <==> (exists|i: int|
            0 <= i < s.len() && #[trigger] s[i].sig@ == k),
    decreases s.len(),
{
    if s.len() > 0 {
        let t = s.drop_last();
        lemma_entries_map_contains(t, k);
        if s.last().sig@ == k {
            assert(s[s.len() - 1].sig@ == k);
        } else {
            if entries_map(s).dom().contains(k) {
                let i = choose|i: int| 0 <= i < t.len() && #[trigger] t[i].sig@ == k;
                assert(s[i].sig@ == k);
            }
            if exists|i: int| 0 <= i < s.len() && #[trigger] s[i].sig@ == k {
                let i = choose|i: int| 0 <= i < s.len() && #[trigger] s[i].sig@ == k;
                assert(i < s.len() - 1);
                assert(t[i].sig@ == k);
            }
        }
    }
}

proof fn lemma_entries_map_at(s: Seq<CacheEntry>, i: int)
    requires
        keys_distinct(s),
        0 <= i < s.len(),
    ensures
        entries_map(s).dom().contains(s[i].sig@),
        entries_map(s)[s[i].sig@] == s[i].handle,
    decreases s.len(),
{
    let t = s.drop_last();
    if i == s.len() - 1 {
        assert(entries_map(s) == entries_map(t).insert(s.last().sig@, s.last().handle));
    } else {
        assert(keys_distinct(t));
        lemma_entries_map_at(t, i);
        assert(s.last().sig@ != s[i].sig@);
        assert(t[i] == s[i]);
    }
}

proof fn lemma_entries_map_finite_len(s: Seq<CacheEntry>)
    requires
        keys_distinct(s),
    ensures
        entries_map(s).dom().finite(),
        entries_map(s).dom().len() == s.len(),
    decreases s.len(),
{
    if s.len() > 0 {
        let t = s.drop_last();
        assert(keys_distinct(t));
        lemma_entries_map_finite_len(t);
        lemma_entries_map_contains(t, s.last().sig@);
        assert(forall|i: int| 0 <= i < t.len() ==> #[trigger] t[i].sig@ != s.last().sig@);
        assert(!entries_map(t).dom().contains(s.last().sig@));
    }
}

proof fn lemma_key_set_contains(s: Seq<Signature>, k: SigKey)
    ensures
        key_set(s).contains(k) <==> (exists|i: int| 0 <= i < s.len() && #[trigger] s[i]@ == k),
    decreases s.len(),
{
    if s.len() > 0 {
        let t = s.drop_last();
        lemma_key_set_contains(t, k);
        if s.last()@ == k {
            assert(s[s.len() - 1]@ == k);
        } else {
            if key_set(s).contains(k) {
                let i = choose|i: int| 0 <= i < t.len() && #[trigger] t[i]@ == k;
                assert(s[i]@ == k);
            }
            if exists|i: int| 0 <= i < s.len() && #[trigger] s[i]@ == k {
                let i = choose|i: int| 0 <= i < s.len() && #[trigger] s[i]@ == k;
                assert(i < s.len() - 1);
                assert(t[i]@ == k);
            }
        }
    }
}

proof fn lemma_key_set_finite_len(s: Seq<Signature>)
    requires
        sigs_distinct(s),
    ensures
        key_set(s).finite(),
        key_set(s).len() == s.len(),
    decreases s.len(),
{
    if s.len() > 0 {
        let t = s.drop_last();
        assert(sigs_distinct(t));
        lemma_key_set_finite_len(t);
        lemma_key_set_contains(t, s.last()@);
        assert(forall|i: int| 0 <= i < t.len() ==> #[trigger] t[i]@ != s.last()@);
        assert(!key_set(t).contains(s.last()@));
    }
}

proof fn lemma_entries_map_push(s: Seq<CacheEntry>, e: CacheEntry)
    ensures
        entries_map(s.push(e)) == entries_map(s).insert(e.sig@, e.handle),
{
    assert(s.push(e).drop_last() =~= s);
    assert(s.push(e).last() == e);
}

proof fn lemma_key_set_push(s: Seq<Signature>, x: Signature)
    ensures
        key_set(s.push(x)) == key_set(s).insert(x@),
{
    assert(s.push(x).drop_last() =~= s);
    assert(s.push(x).last() == x);
}

proof fn lemma_key_set_remove(s: Seq<Signature>, i: int)
    requires
        sigs_distinct(s),
        0 <= i < s.len(),
    ensures
        key_set(s.remove(i)) == key_set(s).remove(s[i]@),
{
    let k = s[i]@;
    let t = s.remove(i);
    s.remove_ensures(i);
    assert forall|k2: SigKey| key_set(t).contains(k2) <==> key_set(s).remove(k).contains(k2) by {
        lemma_key_set_contains(t, k2);
        lemma_key_set_contains(s, k2);
        if key_set(t).contains(k2) {
            let j = choose|j: int| 0 <= j < t.len() && #[trigger] t[j]@ == k2;
            if j < i {
                assert(s[j]@ == k2);
            } else {
                assert(s[j + 1]@ == k2);
            }
            assert(k2 != k);
        }
        if key_set(s).remove(k).contains(k2) {
            let j = choose|j: int| 0 <= j < s.len() && #[trigger] s[j]@ == k2;
            assert(j != i);
            if j < i {
                assert(t[j]@ == k2);
            } else {
                assert(t[j - 1]@ == k2);
            }
        }
    }
    assert(key_set(t) =~= key_set(s).remove(k));
}

/// A cache of prepared statements scoped to one live connection.
///
/// The abstract state is a [`CacheModel`]; every operation's contract is one
/// of the transition functions of [`crate::model`]. The representation keeps
/// one entry per distinct signature, keeps at most one in-flight preparation
/// per signature, never lets a signature be cached and in flight at once,
/// and holds nothing once the connection is closed.
pub struct StatementCache {
    entries: Vec<CacheEntry>,
    pending: Vec<Signature>,
    closed: bool,
}

impl View for StatementCache {
    type V = CacheModel;

    closed spec fn view(&self) -> CacheModel {
        CacheModel {
            cached: entries_map(self.entries@),
            pending: key_set(self.pending@),
            closed: self.closed,
        }
    }
}

impl StatementCache {
    /// The representation invariant: every constructor establishes it and
    /// every operation preserves it.
    pub closed spec fn wf(&self) -> bool {
        &&& keys_distinct(self.entries@)
        &&& sigs_distinct(self.pending@)
        &&& keys_disjoint(self.entries@, self.pending@)
        &&& (self.closed ==> self.entries@.len() == 0 && self.pending@.len() == 0)
    }

    /// A fresh cache for a newly established connection: empty and open.
    pub fn new() -> (c: StatementCache)
        ensures
            c.wf(),
            c@ == empty_model(),
    {
        let c = StatementCache { entries: Vec::new(), pending: Vec::new(), closed: false };
        proof {
            assert(c@ =~= empty_model());
        }
        c
    }

    /// The index in `entries` holding `sig`, if any.
    fn entry_index(&self, sig: &Signature) -> (r: Option<usize>)
        requires
            self.wf(),
        ensures
            match r {
                Some(i) => i < self.entries@.len() && self.entries@[i as int].sig@ == sig@
                    && self@.cached.dom().contains(sig@),
                None => !self@.cached.dom().contains(sig@),
            },
    {
        let n = self.entries.len();
        let mut i: usize = 0;
        while i < n
            invariant
                n == self.entries@.len(),
                i <= n,
                forall|j: int| 0 <= j < i ==> #[trigger] self.entries@[j].sig@ != sig@,
            decreases n - i,
        {
            if self.entries[i].sig.same_key(sig) {
                proof {
                    lemma_entries_map_contains(self.entries@, sig@);
                }
                return Some(i);
            }
            i += 1;
        }
        proof {
            lemma_entries_map_contains(self.entries@, sig@);
        }
        None
    }

    /// The index in `pending` holding `sig`, if any.
    fn pending_index(&self, sig: &Signature) -> (r: Option<usize>)
        requires
            self.wf(),
        ensures
            match r {
                Some(i) => i < self.pending@.len() && self.pending@[i as int]@ == sig@
                    && self@.pending.contains(sig@),
                None => !self@.pending.contains(sig@),
            },
    {
        let n = self.pending.len();
        let mut i: usize = 0;
        while i < n
            invariant
                n == self.pending@.len(),
                i <= n,
                forall|j: int| 0 <= j < i ==> #[trigger] self.pending@[j]@ != sig@,
            decreases n - i,
        {
            if self.pending[i].same_key(sig) {
                proof {
                    lemma_key_set_contains(self.pending@, sig@);
                }
                return Some(i);
            }
            i += 1;
        }
        proof {
            lemma_key_set_contains(self.pending@, sig@);
        }
        None
    }

    /// The handle cached for `sig`, if any. A hit involves no round trip and
    /// does not change the cache.
    pub fn lookup(&self, sig: &Signature) -> (r: Option<u64>)
        requires
            self.wf(),
        ensures
            r == spec_lookup(self@, sig@),
    {
        match self.entry_index(sig) {
            Some(i) => {
                proof {
                    lemma_entries_map_at(self.entries@, i as int);
                }
                Some(self.entries[i].handle)
            },
            None => None,
        }
    }

    /// Whether a preparation for `sig` is currently in flight.
    pub fn is_pending(&self, sig: &Signature) -> (r: bool)
        requires
            self.wf(),
        ensures
            r == self@.pending.contains(sig@),
    {
        self.pending_index(sig).is_some()
    }

    /// Whether the owning connection has been torn down.
    pub fn is_closed(&self) -> (r: bool)
        ensures
            r == self@.closed,
    {
        self.closed
    }

    /// Looks `sig` up and decides what the caller must do, as
    /// [`spec_get_or_prepare`] states: an error on a closed cache; the handle
    /// on a hit; an instruction to wait while another caller's preparation of
    /// the same signature is in flight; otherwise an instruction to issue
    /// the one prepare round trip, with `sig` now recorded as in flight.
    pub fn get_or_prepare(&mut self, sig: &Signature) -> (r: Result<PrepareOutcome, CacheError>)
        requires
            old(self).wf(),
        ensures
            final(self).wf(),
            final(self)@ == spec_get_or_prepare(old(self)@, sig@).0,
            r == spec_get_or_prepare(old(self)@, sig@).1,
    {
        if self.closed {
            return Err(CacheError::ConnectionClosed);
        }
        match self.lookup(sig) {
            Some(h) => Ok(PrepareOutcome::Cached(h)),
            None => {
                if self.is_pending(sig) {
                    Ok(PrepareOutcome::AwaitInFlight)
                } else {
                    let dup = sig.duplicate();
                    proof {
                        lemma_key_set_push(self.pending@, dup);
                        lemma_key_set_contains(self.pending@, sig@);
                        lemma_entries_map_contains(self.entries@, sig@);
                    }
                    self.pending.push(dup);
                    proof {
                        assert(final(self)@ =~= spec_get_or_prepare(old(self)@, sig@).0);
                    }
                    Ok(PrepareOutcome::MustPrepare)
                }
            },
        }
    }

    /// Records the handle a successful preparation of `sig` returned: the
    /// signature moves from in flight to cached, and every concurrent caller
    /// that was told to wait now finds the same handle.
    pub fn complete_prepare(&mut self, sig: &Signature, handle: u64)
        requires
            old(self).wf(),
            old(self)@.pending.contains(sig@),
        ensures
            final(self).wf(),
            final(self)@ == spec_complete(old(self)@, sig@, handle),
    {
        match self.pending_index(sig) {
            Some(i) => {
                proof {
                    lemma_key_set_remove(self.pending@, i as int);
                }
                let removed = self.pending.remove(i);
                let ghost mid_pending = self.pending@;
                let entry = CacheEntry { sig: removed, handle };
                proof {
                    lemma_entries_map_push(self.entries@, entry);
                    assert forall|a: int, b: int|
                        0 <= a < b < mid_pending.len() implies #[trigger] mid_pending[a]@
                        != #[trigger] mid_pending[b]@ by {
                        old(self).pending@.remove_ensures(i as int);
                    }
                    assert forall|a: int, b: int|
                        0 <= a < b < self.entries@.push(entry).len()
                            implies #[trigger] self.entries@.push(entry)[a].sig@
                        != #[trigger] self.entries@.push(entry)[b].sig@ by {
                        if b < self.entries@.len() {
                            assert(self.entries@[a].sig@ != self.entries@[b].sig@);
                        } else {
                            assert(self.entries@.push(entry)[b] == entry);
                            assert(keys_disjoint(old(self).entries@, old(self).pending@));
                            assert(old(self).pending@[i as int]@ == sig@);
                            assert(self.entries@[a].sig@ != sig@);
                        }
                    }
                    assert forall|a: int, b: int|
                        0 <= a < self.entries@.push(entry).len() && 0 <= b < mid_pending.len()
                            implies #[trigger] self.entries@.push(entry)[a].sig@
                        != #[trigger] mid_pending[b]@ by {
                        old(self).pending@.remove_ensures(i as int);
                        if a < self.entries@.len() {
                            if b < i {
                                assert(mid_pending[b] == old(self).pending@[b]);
                            } else {
                                assert(mid_pending[b] == old(self).pending@[b + 1]);
                            }
                        } else {
                            assert(self.entries@.push(entry)[a] == entry);
                            if b < i {
                                assert(old(self).pending@[b]@ != old(self).pending@[i as int]@);
                                assert(mid_pending[b] == old(self).pending@[b]);
                            } else {
                                assert(old(self).pending@[b + 1]@ != old(
                                    self,
                                ).pending@[i as int]@);
                                assert(mid_pending[b] == old(self).pending@[b + 1]);
                            }
                        }
                    }
                }
                self.entries.push(entry);
                proof {
                    assert(final(self)@ =~= spec_complete(old(self)@, sig@, handle));
                }
            },
            None => {
                // Unreachable: the precondition has the signature in flight.
                proof {
                    assert(false);
                }
            },
        }
    }

    /// Forgets the in-flight preparation of `sig` after the backend rejected
    /// it or the preparing caller was cancelled. Nothing is memoized: the
    /// cached map is untouched, no waiter can receive a handle for `sig`,
    /// and a later `get_or_prepare` for the very same signature attempts
    /// preparation again.
    pub fn abandon_prepare(&mut self, sig: &Signature)
        requires
            old(self).wf(),
            old(self)@.pending.contains(sig@),
        ensures
            final(self).wf(),
            final(self)@ == spec_abandon(old(self)@, sig@),
    {
        match self.pending_index(sig) {
            Some(i) => {
                proof {
                    lemma_key_set_remove(self.pending@, i as int);
                }
                let removed = self.pending.remove(i);
                proof {
                    old(self).pending@.remove_ensures(i as int);
                    assert forall|a: int, b: int|
                        0 <= a < b < self.pending@.len() implies #[trigger] self.pending@[a]@
                        != #[trigger] self.pending@[b]@ by {}
                    assert forall|a: int, b: int|
                        0 <= a < self.entries@.len() && 0 <= b < self.pending@.len()
                            implies #[trigger] self.entries@[a].sig@ != #[trigger] self
                        .pending@[b]@ by {
                        if b < i {
                            assert(self.pending@[b] == old(self).pending@[b]);
                        } else {
                            assert(self.pending@[b] == old(self).pending@[b + 1]);
                        }
                    }
                    assert(final(self)@ =~= spec_abandon(old(self)@, sig@));
                }
            },
            None => {
                // Unreachable: the precondition has the signature in flight.
                proof {
                    assert(false);
                }
            },
        }
    }

    /// Empties the cache after a connection reset: every cached handle and
    /// every in-flight preparation is forgotten, and previously cached
    /// signatures must be prepared anew. The connection stays usable.
    pub fn invalidate_all(&mut self)
        requires
            old(self).wf(),
        ensures
            final(self).wf(),
            final(self)@ == spec_invalidate(old(self)@),
    {
        self.entries.clear();
        self.pending.clear();
        proof {
            assert(final(self)@ =~= spec_invalidate(old(self)@));
        }
    }

    /// Tears the cache down with its owning connection: everything is
    /// dropped atomically, so no statement handle outlives the connection,
    /// and later calls to `get_or_prepare` report the connection as closed.
    pub fn close(&mut self)
        requires
            old(self).wf(),
        ensures
            final(self).wf(),
            final(self)@ == spec_close(old(self)@),
    {
        self.entries.clear();
        self.pending.clear();
        self.closed = true;
        proof {
            assert(final(self)@ =~= spec_close(old(self)@));
        }
    }

    /// How many distinct signatures are cached.
    pub fn cached_count(&self) -> (n: usize)
        requires
            self.wf(),
        ensures
            n == self@.cached.dom().len(),
    {
        proof {
            lemma_entries_map_finite_len(self.entries@);
        }
        self.entries.len()
    }

    /// How many preparations are in flight.
    pub fn pending_count(&self) -> (n: usize)
        requires
            self.wf(),
        ensures
            n == self@.pending.len(),
    {
        proof {
            lemma_key_set_finite_len(self.pending@);
        }
        self.pending.len()
    }

    /// `wf` is not just shape: it puts the abstract state inside the
    /// model-level invariant.
    pub proof fn lemma_wf_model_inv(&self)
        requires
            self.wf(),
        ensures
            crate::model::model_inv(self@),
    {
        lemma_entries_map_finite_len(self.entries@);
        lemma_key_set_finite_len(self.pending@);
        assert forall|k: SigKey| self@.cached.dom().contains(k) implies !self@.pending.contains(
            k,
        ) by {
            lemma_entries_map_contains(self.entries@, k);
            lemma_key_set_contains(self.pending@, k);
        }
        if self.closed {
            assert(self@.cached =~= Map::<SigKey, u64>::empty());
            assert(self@.pending =~= Set::<SigKey>::empty());
        }
    }
}

} // verus!
