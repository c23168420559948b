//! Decoded object streams for resolutions that keep to an allowance of memory.
//!
//! What one such resolution decodes may be kept for others, within the budget of
//! the cache; its own allowance then gets back what it was charged. Failures that
//! depend on the container's bytes alone are kept too, in no member's name.

use std::sync::Arc;

use vstd::prelude::*;

use crate::budget::{PermitView, ScalarCharge, ScalarResolutionPermit};
use crate::cache::{
    accounted, begun, cache_key, handed_in, incremented, lemma_touched, others_kept, same_counts, same_peaks,
    saturating_increment, Begin, CacheCounters, CacheSegment, CacheView, CellState, SharedCache, SharedCellResult,
};
use crate::errors::{
    is_transient_error, law_kept_error_gives_back_the_member, member_error, neutral_error,
    neutralize_cacheable_bounded_error, rewrap_cacheable_bounded_error, transient, IndexedReaderError, ScalarPhase,
};
use crate::object::ObjectId;
use crate::shared::{PreparedObjectStream, OBJECT_STREAM_CACHE_ENTRY_BYTES};

verus! {

/// What a bounded resolution that asks for a container has to do.
pub enum BoundedBegin {
    /// The container is there.
    Cached(Arc<PreparedObjectStream>),
    /// The resolution fails.
    Failed(IndexedReaderError),
    /// Another caller is loading the container, under this ticket.
    Wait(u64),
    /// Load the container, and hand it in under this ticket.
    Load(u64),
    /// Load the container for this call alone.
    Bypass,
    /// Ask again: what was there was of no use and has been taken out.
    Retry,
}

/// A container that a bounded resolution may use.
pub enum BoundedPreparedObjectStream {
    /// The container is kept, within the budget of the cache.
    Cached(Arc<PreparedObjectStream>),
    /// The container is there for this call alone, which stays charged for it.
    CallLocal { prepared: Arc<PreparedObjectStream>, charge: ScalarCharge },
}

/// What a container that is there means for one member.
pub open spec fn bounded_answer(
    result: SharedCellResult<PreparedObjectStream>,
    container: ObjectId,
    member_id: ObjectId,
    member_index: u32,
    cancelled: bool,
) -> BoundedBegin {
    match result {
        Ok(prepared) => BoundedBegin::Cached(prepared),
        Err(error) => if cancelled {
            BoundedBegin::Failed(
                IndexedReaderError::ScalarResolutionCancelled {
                    id: container,
                    phase: ScalarPhase::ObjectStreamCacheWait,
                },
            )
        } else {
            match member_error(*error, member_id, member_index) {
                Some(error) => BoundedBegin::Failed(error),
                None => BoundedBegin::Retry,
            }
        },
    }
}

/// What a container that is there means for one member.
pub fn answer_bounded(
    result: &SharedCellResult<PreparedObjectStream>,
    container: ObjectId,
    member_id: ObjectId,
    member_index: u32,
    cancelled: bool,
) -> (r: BoundedBegin)
    ensures
        r == bounded_answer(*result, container, member_id, member_index, cancelled),
{
    match result {
        Ok(prepared) => BoundedBegin::Cached(Arc::clone(prepared)),
        Err(error) => if cancelled {
            BoundedBegin::Failed(
                IndexedReaderError::ScalarResolutionCancelled {
                    id: container,
                    phase: ScalarPhase::ObjectStreamCacheWait,
                },
            )
        } else {
            match rewrap_cacheable_bounded_error(error, member_id, member_index) {
                Some(error) => BoundedBegin::Failed(error),
                None => BoundedBegin::Retry,
            }
        },
    }
}

/// The failure that was kept is given out once more.
pub open spec fn gives_kept_failure(
    result: SharedCellResult<PreparedObjectStream>,
    member_id: ObjectId,
    member_index: u32,
    cancelled: bool,
) -> bool {
    !cancelled && result is Err && member_error(*result->Err_0, member_id, member_index) is Some
}

/// What a bounded resolution that asks for a container has to do, and how the
/// cache and its counters change.
pub open spec fn bounded_begun(
    before: CacheView<PreparedObjectStream>,
    counted: CacheCounters,
    container: ObjectId,
    member_id: ObjectId,
    member_index: u32,
    cancelled: bool,
    r: BoundedBegin,
    after: CacheView<PreparedObjectStream>,
    counts: CacheCounters,
) -> bool {
    let key = cache_key(container);
    if before.entries.contains_key(key) {
        &&& counts.hits == incremented(counted.hits)
        &&& counts.misses == counted.misses
        &&& counts.loads == counted.loads
        &&& counts.bypasses == counted.bypasses
        &&& counts.evictions == counted.evictions
        &&& counts.transient_failures == counted.transient_failures
        &&& counts.promotions == (if before.entries[key].segment == CacheSegment::Probation {
            incremented(counted.promotions)
        } else {
            counted.promotions
        })
        &&& match before.entries[key].state {
            CellState::Ready(result) => {
                &&& r == bounded_answer(result, container, member_id, member_index, cancelled)
                &&& after == (if r is Retry {
                    before.touched(key).removed(key)
                } else {
                    before.touched(key)
                })
                &&& counts.waits == counted.waits
                &&& counts.negative_hits == (if gives_kept_failure(result, member_id, member_index, cancelled) {
                    incremented(counted.negative_hits)
                } else {
                    counted.negative_hits
                })
            },
            CellState::Loading => {
                &&& r == (if cancelled {
                    BoundedBegin::Failed(
                        IndexedReaderError::ScalarResolutionCancelled {
                            id: container,
                            phase: ScalarPhase::ObjectStreamCacheWait,
                        },
                    )
                } else {
                    BoundedBegin::Wait(before.entries[key].ticket)
                })
                &&& after == before.touched(key)
                &&& counts.waits == incremented(counted.waits)
                &&& counts.negative_hits == counted.negative_hits
            },
        }
    } else {
        match r {
            BoundedBegin::Load(ticket) => begun(before, counted, key, Begin::Load(ticket), after, counts),
            BoundedBegin::Bypass => begun(before, counted, key, Begin::Bypass, after, counts),
            _ => false,
        }
    }
}

/// What those who waited for a container are told when it is not kept.
pub open spec fn bypass_signal(container: ObjectId) -> SharedCellResult<PreparedObjectStream> {
    Err(Arc::new(IndexedReaderError::ObjectStreamCacheBypass { container }))
}

/// What becomes of a container, or a failure, that a bounded resolution has
/// loaded under a ticket: what the resolution gets, what those who waited are
/// told, and how the cache, its counters and the allowance change.
pub open spec fn bounded_completed(
    before: CacheView<PreparedObjectStream>,
    counted: CacheCounters,
    container: ObjectId,
    ticket: u64,
    loaded: Result<(PreparedObjectStream, ScalarCharge), IndexedReaderError>,
    permit: PermitView,
    outcome: Result<BoundedPreparedObjectStream, IndexedReaderError>,
    told: SharedCellResult<PreparedObjectStream>,
    after: CacheView<PreparedObjectStream>,
    counts: CacheCounters,
    left: PermitView,
) -> bool {
    let key = cache_key(container);
    match loaded {
        Err(error) => {
            &&& outcome == Err::<BoundedPreparedObjectStream, IndexedReaderError>(error)
            &&& left == permit
            &&& counts.transient_failures == (if transient(error) {
                incremented(counted.transient_failures)
            } else {
                counted.transient_failures
            })
            &&& match neutral_error(error) {
                Some(kept) => {
                    &&& told == Err::<Arc<PreparedObjectStream>, Arc<IndexedReaderError>>(Arc::new(kept))
                    &&& handed_in(false, before, counted, key, ticket, told, 0, after, counts)
                },
                None => {
                    &&& told == bypass_signal(container)
                    &&& after == before.removed(key)
                    &&& same_counts(
                        counts,
                        CacheCounters { transient_failures: counts.transient_failures, ..counted },
                    )
                    &&& same_peaks(counts, counted)
                    &&& counts.evictions == counted.evictions
                },
            }
        },
        Ok((prepared, charge)) => if permit.cancelled {
            &&& outcome == Err::<BoundedPreparedObjectStream, IndexedReaderError>(
                IndexedReaderError::ScalarResolutionCancelled {
                    id: container,
                    phase: ScalarPhase::ObjectStreamCachePublish,
                },
            )
            &&& told == bypass_signal(container)
            &&& after == before.removed(key)
            &&& same_counts(counts, counted)
            &&& same_peaks(counts, counted)
            &&& counts.evictions == counted.evictions
            &&& left == permit.returned(charge@)
        } else {
            &&& exists|bytes: usize|
                prepared.weighs(OBJECT_STREAM_CACHE_ENTRY_BYTES as nat, bytes) && #[trigger] handed_in(
                    false,
                    before,
                    counted,
                    key,
                    ticket,
                    Ok(Arc::new(prepared)),
                    bytes,
                    after,
                    counts,
                )
            &&& if after.entries.contains_key(key) {
                &&& outcome == Ok::<BoundedPreparedObjectStream, IndexedReaderError>(
                    BoundedPreparedObjectStream::Cached(Arc::new(prepared)),
                )
                &&& told == Ok::<Arc<PreparedObjectStream>, Arc<IndexedReaderError>>(Arc::new(prepared))
                &&& left == permit.returned(charge@)
            } else {
                &&& outcome == Ok::<BoundedPreparedObjectStream, IndexedReaderError>(
                    BoundedPreparedObjectStream::CallLocal { prepared: Arc::new(prepared), charge },
                )
                &&& told == bypass_signal(container)
                &&& left == permit
            }
        },
    }
}

impl SharedCache<PreparedObjectStream> {
    /// Asks for a container, for one of its members.
    pub fn begin_bounded(
        &mut self,
        container: ObjectId,
        member_id: ObjectId,
        member_index: u32,
        cancelled: bool,
        counters: &mut CacheCounters,
    ) -> (r: BoundedBegin)
        requires
            old(self).well_formed(),
            accounted(old(self)@, *old(counters)),
        ensures
            final(self).well_formed(),
            accounted(final(self)@, *final(counters)),
            others_kept(old(self)@, *old(counters), final(self)@, *final(counters)),
            bounded_begun(
                old(self)@,
                *old(counters),
                container,
                member_id,
                member_index,
                cancelled,
                r,
                final(self)@,
                *final(counters),
            ),
    {
        let negative_hits: u64 = counters.negative_hits;
        proof {
            self.law_cache_keeps_to_its_limits();
            if self@.entries.contains_key(cache_key(container)) {
                lemma_touched(self@, cache_key(container));
            }
        }
        match self.begin(container, counters) {
            Begin::Hit(result) => {
                counters.negative_hits = negative_hits;
                let answer = answer_bounded(&result, container, member_id, member_index, cancelled);
                match &answer {
                    BoundedBegin::Failed(_) => {
                        if !cancelled {
                            counters.negative_hits = saturating_increment(negative_hits);
                        }
                    },
                    BoundedBegin::Retry => {
                        self.take_out(container, counters);
                    },
                    _ => {},
                }
                answer
            },
            Begin::Wait(ticket) => if cancelled {
                BoundedBegin::Failed(
                    IndexedReaderError::ScalarResolutionCancelled {
                        id: container,
                        phase: ScalarPhase::ObjectStreamCacheWait,
                    },
                )
            } else {
                BoundedBegin::Wait(ticket)
            },
            Begin::Load(ticket) => BoundedBegin::Load(ticket),
            Begin::Bypass => BoundedBegin::Bypass,
        }
    }

    /// Hands in what was loaded under a ticket, and says what the caller gets and
    /// what those who waited are told.
    pub fn complete_bounded(
        &mut self,
        container: ObjectId,
        ticket: u64,
        loaded: Result<(PreparedObjectStream, ScalarCharge), IndexedReaderError>,
        permit: &mut ScalarResolutionPermit,
        counters: &mut CacheCounters,
    ) -> (r: (
        Result<BoundedPreparedObjectStream, IndexedReaderError>,
        SharedCellResult<PreparedObjectStream>,
    ))
        requires
            old(self).well_formed(),
            accounted(old(self)@, *old(counters)),
            old(self)@.is_loading(cache_key(container), ticket),
        ensures
            final(self).well_formed(),
            accounted(final(self)@, *final(counters)),
            others_kept(old(self)@, *old(counters), final(self)@, *final(counters)),
            bounded_completed(
                old(self)@,
                *old(counters),
                container,
                ticket,
                loaded,
                old(permit)@,
                r.0,
                r.1,
                final(self)@,
                *final(counters),
                final(permit)@,
            ),
    {
        let ghost before = self@;
        let ghost counted = *counters;
        let signal: SharedCellResult<PreparedObjectStream> = Err(
            Arc::new(IndexedReaderError::ObjectStreamCacheBypass { container }),
        );
        match loaded {
            Err(error) => {
                proof {
                    law_kept_error_gives_back_the_member((0, 0), (0, 0), 0, crate::errors::Error::Io);
                }
                match neutralize_cacheable_bounded_error(&error) {
                    Some(kept) => {
                        let told: SharedCellResult<PreparedObjectStream> = Err(Arc::new(kept));
                        proof {
                            crate::errors::law_neutralizing_is_idempotent(error);
                            assert(neutral_error(kept) == Some(kept));
                            assert(!transient(kept));
                        }
                        self.hand_in(false, container, ticket, &told, 0, counters);
                        (Err(error), told)
                    },
                    None => {
                        if is_transient_error(&error) {
                            counters.transient_failures = saturating_increment(counters.transient_failures);
                        }
                        self.withdraw(container, ticket, counters);
                        (Err(error), signal)
                    },
                }
            },
            Ok((prepared, charge)) => {
                if permit.stats().cancelled {
                    permit.release(charge);
                    self.withdraw(container, ticket, counters);
                    return (
                        Err(
                            IndexedReaderError::ScalarResolutionCancelled {
                                id: container,
                                phase: ScalarPhase::ObjectStreamCachePublish,
                            },
                        ),
                        signal,
                    );
                }
                let bytes: usize = prepared.cache_weight();
                let prepared: Arc<PreparedObjectStream> = Arc::new(prepared);
                let told: SharedCellResult<PreparedObjectStream> = Ok(Arc::clone(&prepared));
                self.hand_in(false, container, ticket, &told, bytes, counters);
                assert(handed_in(
                    false,
                    before,
                    counted,
                    cache_key(container),
                    ticket,
                    told,
                    bytes,
                    self@,
                    *counters,
                ));
                if self.keeps(container) {
                    permit.release(charge);
                    (Ok(BoundedPreparedObjectStream::Cached(prepared)), told)
                } else {
                    (Ok(BoundedPreparedObjectStream::CallLocal { prepared, charge }), signal)
                }
            },
        }
    }
}

/// What a container that was loaded for one call alone gives.
pub open spec fn bypassed(
    container: ObjectId,
    loaded: Result<(PreparedObjectStream, ScalarCharge), IndexedReaderError>,
    permit: PermitView,
    r: Result<BoundedPreparedObjectStream, IndexedReaderError>,
    left: PermitView,
) -> bool {
    match loaded {
        Err(error) => r == Err::<BoundedPreparedObjectStream, IndexedReaderError>(error) && left == permit,
        Ok((prepared, charge)) => if permit.cancelled {
            &&& r == Err::<BoundedPreparedObjectStream, IndexedReaderError>(
                IndexedReaderError::ScalarResolutionCancelled {
                    id: container,
                    phase: ScalarPhase::ObjectStreamBypassPublish,
                },
            )
            &&& left == permit.returned(charge@)
        } else {
            &&& r == Ok::<BoundedPreparedObjectStream, IndexedReaderError>(
                BoundedPreparedObjectStream::CallLocal { prepared: Arc::new(prepared), charge },
            )
            &&& left == permit
        },
    }
}

/// Gives a container to the call that loaded it for itself alone.
pub fn finish_bypass(
    container: ObjectId,
    loaded: Result<(PreparedObjectStream, ScalarCharge), IndexedReaderError>,
    permit: &mut ScalarResolutionPermit,
) -> (r: Result<BoundedPreparedObjectStream, IndexedReaderError>)
    ensures
        bypassed(container, loaded, old(permit)@, r, final(permit)@),
{
    match loaded {
        Err(error) => Err(error),
        Ok((prepared, charge)) => if permit.stats().cancelled {
            permit.release(charge);
            Err(
                IndexedReaderError::ScalarResolutionCancelled {
                    id: container,
                    phase: ScalarPhase::ObjectStreamBypassPublish,
                },
            )
        } else {
            Ok(BoundedPreparedObjectStream::CallLocal { prepared: Arc::new(prepared), charge })
        },
    }
}

/// What a bounded resolution that has asked for a container, and again where what
/// was there was of no use, has to do.
pub open spec fn bounded_asked(
    before: CacheView<PreparedObjectStream>,
    counted: CacheCounters,
    container: ObjectId,
    member_id: ObjectId,
    member_index: u32,
    cancelled: bool,
    r: BoundedBegin,
    after: CacheView<PreparedObjectStream>,
    counts: CacheCounters,
) -> bool {
    &&& r !is Retry
    &&& {
        ||| bounded_begun(before, counted, container, member_id, member_index, cancelled, r, after, counts)
        ||| exists|between: CacheView<PreparedObjectStream>, tallied: CacheCounters|
            {
                &&& #[trigger] bounded_begun(
                    before,
                    counted,
                    container,
                    member_id,
                    member_index,
                    cancelled,
                    BoundedBegin::Retry,
                    between,
                    tallied,
                )
                &&& bounded_begun(
                    between,
                    tallied,
                    container,
                    member_id,
                    member_index,
                    cancelled,
                    r,
                    after,
                    counts,
                )
            }
    }
}

/// What a bounded resolution gets that need not load anything.
pub open spec fn bounded_told(
    begin: BoundedBegin,
    r: Result<BoundedPreparedObjectStream, IndexedReaderError>,
) -> bool {
    match begin {
        BoundedBegin::Cached(prepared) => r == Ok::<BoundedPreparedObjectStream, IndexedReaderError>(
            BoundedPreparedObjectStream::Cached(prepared),
        ),
        BoundedBegin::Failed(error) => r == Err::<BoundedPreparedObjectStream, IndexedReaderError>(error),
        _ => false,
    }
}

/// What a bounded resolution gets that has to load the container, and has loaded
/// this, which left `spent` of its allowance.
pub open spec fn bounded_given(
    begin: BoundedBegin,
    before: CacheView<PreparedObjectStream>,
    counted: CacheCounters,
    container: ObjectId,
    loaded: Result<(PreparedObjectStream, ScalarCharge), IndexedReaderError>,
    spent: PermitView,
    r: Result<BoundedPreparedObjectStream, IndexedReaderError>,
    after: CacheView<PreparedObjectStream>,
    counts: CacheCounters,
    left: PermitView,
) -> bool {
    match begin {
        BoundedBegin::Load(ticket) => exists|told: SharedCellResult<PreparedObjectStream>| #[trigger]
            bounded_completed(before, counted, container, ticket, loaded, spent, r, told, after, counts, left),
        BoundedBegin::Bypass => bypassed(container, loaded, spent, r, left) && after == before && counts == counted,
        _ => false,
    }
}

impl SharedCache<PreparedObjectStream> {
    /// The container, or what `load` gives where it is not there, which is kept
    /// where there is room for it. `load` takes what it holds out of the allowance.
    pub fn resolve_bounded<
        F: FnOnce(&mut ScalarResolutionPermit) -> Result<(PreparedObjectStream, ScalarCharge), IndexedReaderError>,
    >(
        &mut self,
        container: ObjectId,
        member_id: ObjectId,
        member_index: u32,
        permit: &mut ScalarResolutionPermit,
        load: F,
        counters: &mut CacheCounters,
    ) -> (r: Result<BoundedPreparedObjectStream, IndexedReaderError>)
        requires
            old(self).well_formed(),
            accounted(old(self)@, *old(counters)),
            old(self)@.entries.contains_key(cache_key(container)) ==> old(self)@.entries[cache_key(
                container,
            )].state is Ready,
            forall|allowance: &mut ScalarResolutionPermit| call_requires(load, (allowance,)),
        ensures
            final(self).well_formed(),
            accounted(final(self)@, *final(counters)),
            others_kept(old(self)@, *old(counters), final(self)@, *final(counters)),
            exists|begin: BoundedBegin, between: CacheView<PreparedObjectStream>, tallied: CacheCounters|
                {
                    &&& #[trigger] bounded_asked(
                        old(self)@,
                        *old(counters),
                        container,
                        member_id,
                        member_index,
                        old(permit)@.cancelled,
                        begin,
                        between,
                        tallied,
                    )
                    &&& if begin is Load || begin is Bypass {
                        exists|
                            allowance: &mut ScalarResolutionPermit,
                            loaded: Result<(PreparedObjectStream, ScalarCharge), IndexedReaderError>,
                        |
                            {
                                &&& #[trigger] call_ensures(load, (allowance,), loaded)
                                &&& (*allowance)@ == old(permit)@
                                &&& bounded_given(
                                    begin,
                                    between,
                                    tallied,
                                    container,
                                    loaded,
                                    (*final(allowance))@,
                                    r,
                                    final(self)@,
                                    *final(counters),
                                    final(permit)@,
                                )
                            }
                    } else {
                        &&& bounded_told(begin, r)
                        &&& final(self)@ == between
                        &&& *final(counters) == tallied
                        &&& final(permit)@ == old(permit)@
                    }
                },
    {
        let cancelled: bool = permit.stats().cancelled;
        let first = self.begin_bounded(container, member_id, member_index, cancelled, counters);
        let begin = match first {
            BoundedBegin::Retry => self.begin_bounded(container, member_id, member_index, cancelled, counters),
            _ => first,
        };
        assert(bounded_asked(
            old(self)@,
            *old(counters),
            container,
            member_id,
            member_index,
            cancelled,
            begin,
            self@,
            *counters,
        ));
        match begin {
            BoundedBegin::Cached(prepared) => Ok(BoundedPreparedObjectStream::Cached(prepared)),
            BoundedBegin::Failed(error) => Err(error),
            BoundedBegin::Load(ticket) => {
                let loaded = load(permit);
                let (outcome, _) = self.complete_bounded(container, ticket, loaded, permit, counters);
                outcome
            },
            BoundedBegin::Bypass => {
                let loaded = load(permit);
                finish_bypass(container, loaded, permit)
            },
            BoundedBegin::Wait(_) | BoundedBegin::Retry => Err(
                IndexedReaderError::ObjectStreamCacheBypass { container },
            ),
        }
    }
}

/// A failure that was kept fails each other member in that member's own name, as
/// loading the container for it would have.
pub proof fn law_kept_failure_is_each_members_own(
    id: ObjectId,
    container: ObjectId,
    index: u32,
    source: crate::errors::Error,
    kept: IndexedReaderError,
    other: ObjectId,
    other_index: u32,
)
    requires
        neutral_error(IndexedReaderError::ObjectStreamMember { id, container, index, source }) == Some(kept),
    ensures
        bounded_answer(Err(Arc::new(kept)), container, other, other_index, false) == BoundedBegin::Failed(
            IndexedReaderError::ObjectStreamMember { id: other, container, index: other_index, source },
        ),
{
}

/// Those who waited for a container that was not kept ask again.
pub proof fn law_bypass_is_asked_again(container: ObjectId, member_id: ObjectId, member_index: u32)
    ensures
        bounded_answer(bypass_signal(container), container, member_id, member_index, false) is Retry,
{
}

} // verus!
