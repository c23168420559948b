//! A reader that keeps what it has resolved.

use std::sync::Arc;

use vstd::layout::size_of;
use vstd::prelude::*;

use crate::batch::{
    batch_object, empty_slots, first_occurrences, leaves_object, lemma_container_of_member, lemma_push_contains,
    plan_batch,
    shared_result, slots_fit, BatchPlan, SharedIndexedReaderResult,
};
use crate::cache::{
    accounted, begun, cache_key, completed, keeps_only, law_only_valid_entries_are_given, law_only_valid_entries_are_kept,
    lemma_cache_key_injective, same_but_one, served, shard_count, shard_fits, shard_index, shard_views,
    share as cache_share, share_of, total_probation, zero_counters, Begin, CacheCounters, CacheView, ShardedCache,
    SharedCache, SharedCellResult,
};
use crate::errors::IndexedReaderError;
use crate::locations::ObjectLocation64;
use crate::memory::{capped, object_retained_bytes, room_of_vec, vec_room, weighs};
use crate::object::{Object, ObjectId, ObjectView, Stream};
use crate::object_stream::{member_in, member_of, parse_selected_member, SelectedObjectStream};
use crate::options::IndexedReaderOptions;
use crate::reader::{leaves_opened, opened, opens_as, without_password};
use crate::resolve::{
    asks_for_normal, container_limit, decode_limit, member_object, normal_object, normal_object_with, object_of, object_result,
    object_with, resolves, source_failed, DocumentView, IndexedReader, ResolutionState,
};
use crate::security::{NoSecurity, SecurityHandler};
use crate::source::RandomAccessSource;
use crate::stats::{
    counted, narrowed, reports_together, usize_from_u64_saturating, IndexedObjectCacheStats,
    IndexedObjectStreamCacheStats, IndexedReaderCacheOptions, IndexedReaderCacheStats, IndexedReaderSourceCacheStats,
};

verus! {

/// What one kept object stream takes at most besides its own bytes.
pub const OBJECT_STREAM_CACHE_ENTRY_BYTES: usize = 512;

/// A container, ready to answer for its members.
pub enum PreparedObjectStream {
    Selected(SelectedObjectStream),
    /// The stream cannot be decoded: each member that is asked for fails in its
    /// own name.
    Raw(Stream),
    NotStream,
}

/// The bytes of a container with room for `capacity` bytes of content.
pub fn selected_weight(capacity: usize) -> (r: usize)
    ensures
        r == capped(capacity as nat + size_of::<SelectedObjectStream>()),
{
    capacity.saturating_add(core::mem::size_of::<SelectedObjectStream>())
}

impl PreparedObjectStream {
    /// The container keeps this many bytes with a capacity that it may answer with,
    /// and `extra` more.
    pub open spec fn weighs(&self, extra: nat, weight: usize) -> bool {
        match self {
            PreparedObjectStream::Selected(selected) => exists|capacity: usize| #[trigger]
                vec_room(selected.content, capacity) && weight == capped(
                    capacity as nat + size_of::<SelectedObjectStream>() + extra,
                ),
            PreparedObjectStream::Raw(stream) => weight == capped(
                stream.content@.len() + size_of::<Stream>() + extra,
            ),
            PreparedObjectStream::NotStream => weight == capped(size_of::<PreparedObjectStream>() + extra),
        }
    }

    /// The bytes that the container keeps.
    pub fn retained_bytes(&self) -> (r: usize)
        ensures
            self.weighs(0, r),
    {
        match self {
            PreparedObjectStream::Selected(selected) => {
                let capacity: usize = room_of_vec(&selected.content);
                selected_weight(capacity)
            },
            PreparedObjectStream::Raw(stream) => stream.content.len().saturating_add(core::mem::size_of::<Stream>()),
            PreparedObjectStream::NotStream => core::mem::size_of::<PreparedObjectStream>(),
        }
    }

    /// The bytes that keeping the container takes, at most.
    pub fn cache_weight(&self) -> (r: usize)
        ensures
            self.weighs(OBJECT_STREAM_CACHE_ENTRY_BYTES as nat, r),
    {
        let retained: usize = self.retained_bytes();
        retained.saturating_add(OBJECT_STREAM_CACHE_ENTRY_BYTES)
    }
}

/// What a container answers for a member.
pub open spec fn prepared_answer(
    prepared: PreparedObjectStream,
    container: ObjectId,
    id: ObjectId,
    index: u32,
    limit: usize,
) -> Result<ObjectView, IndexedReaderError> {
    match prepared {
        PreparedObjectStream::Selected(selected) => match member_in(selected.content@, selected.first, id, index) {
            Ok(object) => Ok(object),
            Err(source) => Err(IndexedReaderError::ObjectStreamMember { id, container, index, source }),
        },
        PreparedObjectStream::Raw(stream) => match member_of(stream.dict@, stream.content@, id, index, limit) {
            Ok(object) => Ok(object),
            Err(source) => Err(IndexedReaderError::ObjectStreamMember { id, container, index, source }),
        },
        PreparedObjectStream::NotStream => Err(IndexedReaderError::ObjectStreamContainerNotStream { id, container }),
    }
}

/// Answers for one member of a container.
pub fn answer_from(prepared: &PreparedObjectStream, container: ObjectId, id: ObjectId, index: u32, limit: usize) -> (r:
    SharedIndexedReaderResult<Arc<Object>>)
    ensures
        shared_result(r) == prepared_answer(*prepared, container, id, index, limit),
{
    let parsed = match prepared {
        PreparedObjectStream::Selected(selected) => selected.parse_member(id, index),
        PreparedObjectStream::Raw(stream) => parse_selected_member(stream, id, index, limit),
        PreparedObjectStream::NotStream => {
            return Err(Arc::new(IndexedReaderError::ObjectStreamContainerNotStream { id, container }));
        },
    };
    match parsed {
        Ok(object) => Ok(Arc::new(object)),
        Err(source) => Err(Arc::new(IndexedReaderError::ObjectStreamMember { id, container, index, source })),
    }
}

/// The container answers for each member as one does that was resolved to `object`.
pub open spec fn prepared_from(
    d: DocumentView,
    container: ObjectId,
    prepared: PreparedObjectStream,
    object: Result<ObjectView, IndexedReaderError>,
) -> bool {
    forall|id: ObjectId, index: u32| #[trigger]
        prepared_answer(prepared, container, id, index, decode_limit(d.limits)) == member_object(
            d,
            id,
            container,
            index,
            object,
        )
}

/// The container answers for each member what resolving the member alone gives.
pub open spec fn prepared_fits(d: DocumentView, container: ObjectId, prepared: PreparedObjectStream) -> bool {
    prepared_from(d, container, prepared, normal_object(d, container, seq![container], 2))
}

/// What a source that may fail leaves of a container: the source's failure, or
/// the container if its stream has some length.
pub open spec fn leaves_container(
    d: DocumentView,
    container: ObjectId,
    result: SharedCellResult<PreparedObjectStream>,
) -> bool {
    match result {
        Ok(prepared) => exists|length: Option<i64>|
            prepared_from(d, container, *prepared, #[trigger] normal_object_with(d, container, length)),
        Err(error) => (*error is Source && asks_for_normal(d, container)) || exists|length: Option<i64>|
            #[trigger] normal_object_with(d, container, length) == Err::<ObjectView, IndexedReaderError>(*error),
    }
}

/// A result that may be kept for an object.
pub open spec fn valid_object(d: DocumentView, reliable: bool) -> spec_fn(u64, SharedCellResult<Object>) -> bool {
    |key: u64, result: SharedCellResult<Object>|
        forall|id: ObjectId| #[trigger]
            cache_key(id) == key ==> resolves(shared_result(result), d, id) && (reliable ==> shared_result(result)
                == object_of(d, id))
}

/// A result that may be kept for a container.
pub open spec fn valid_container(d: DocumentView, reliable: bool) -> spec_fn(
    u64,
    SharedCellResult<PreparedObjectStream>,
) -> bool {
    |key: u64, result: SharedCellResult<PreparedObjectStream>|
        forall|id: ObjectId| #[trigger]
            cache_key(id) == key ==> leaves_container(d, id, result) && (reliable ==> match result {
                Ok(prepared) => prepared_fits(d, id, *prepared),
                Err(error) => normal_object(d, id, seq![id], 2) == Err::<ObjectView, IndexedReaderError>(*error),
            })
}

/// A reader that keeps what it has resolved, within limits. What it keeps decides
/// how much work a resolution is, never what it gives.
pub struct CachedReader<S: RandomAccessSource, H: SecurityHandler> {
    pub reader: IndexedReader<S, H>,
    pub object_cache: Option<ShardedCache<Object>>,
    pub object_stream_cache: Option<SharedCache<PreparedObjectStream>>,
    pub object_stream_counters: CacheCounters,
}

/// The percentage of the cache of objects that is for those used again.
pub const SHARED_OBJECT_PROTECTED_PERCENT: usize = 75;

impl<S: RandomAccessSource, H: SecurityHandler> CachedReader<S, H> {
    /// Every object that is kept is what resolving it again would give.
    pub open spec fn objects_in_order(&self) -> bool {
        match self.object_cache {
            Some(cache) => cache.well_formed() && shards_keep(
                cache,
                valid_object(self.reader.document(), self.reader.source.reliable()),
            ),
            None => true,
        }
    }

    /// Every container that is kept answers as resolving it again would.
    pub open spec fn object_streams_in_order(&self) -> bool {
        match self.object_stream_cache {
            Some(cache) => {
                &&& cache.well_formed()
                &&& accounted(cache@, self.object_stream_counters)
                &&& keeps_only(cache@, valid_container(self.reader.document(), self.reader.source.reliable()))
            },
            None => true,
        }
    }

    /// Everything that is kept is what resolving it again would give.
    pub open spec fn well_formed(&self) -> bool {
        &&& self.reader.well_formed()
        &&& self.objects_in_order()
        &&& self.object_streams_in_order()
    }
}

/// All the shards keep only what is valid.
pub open spec fn shards_keep<T>(cache: ShardedCache<T>, valid: spec_fn(u64, SharedCellResult<T>) -> bool) -> bool {
    forall|i: int| 0 <= i < cache.shards@.len() ==> keeps_only((#[trigger] cache.shards@[i])@, valid)
}

/// Where a member of an object stream is looked for: the container and the
/// member's place in it.
pub open spec fn home_of(d: DocumentView, id: ObjectId) -> Option<(ObjectId, u32)> {
    if d.locations.contains_key(id.0) {
        match d.locations[id.0] {
            ObjectLocation64::Compressed { container, index } => if id.1 == 0 && container != id.0
                && d.limits.max_length_depth >= 2 {
                Some(((container, 0), index))
            } else {
                None
            },
            _ => None,
        }
    } else {
        None
    }
}

impl<S: RandomAccessSource, H: SecurityHandler> IndexedReader<S, H> {
    /// Where a member of an object stream is looked for. An object without a home
    /// is one that stands by itself, or one that no container is asked for.
    pub fn member_home(&self, id: ObjectId) -> (r: Option<(ObjectId, u32)>)
        ensures
            r == home_of(self.document(), id),
    {
        match self.index.locations.get(&id.0) {
            Some(ObjectLocation64::Compressed { container, index }) => {
                if id.1 == 0 && *container != id.0 && self.limits.max_length_depth >= 2 {
                    Some(((*container, 0), *index))
                } else {
                    None
                }
            },
            _ => None,
        }
    }

    /// Resolves and decodes a container for one of its members.
    pub fn prepare_container(&self, id: ObjectId, container: ObjectId) -> (r: SharedCellResult<PreparedObjectStream>)
        requires
            self.document().locations.contains_key(id.0),
            self.document().locations[id.0] is Compressed,
            container.1 == 0,
        ensures
            valid_container(self.document(), self.source.reliable())(cache_key(container), r),
    {
        let ghost d = self.document();
        let mut active: Vec<ObjectId> = Vec::new();
        active.push(id);
        active.push(container);
        assert(active@ =~= Seq::<ObjectId>::empty().push(id).push(container));
        let mut state = ResolutionState { active, depth: 2 };
        proof {
            lemma_container_of_member(d, id, container.0);
        }
        let resolved = self.resolve_normal(container, &mut state);
        let ghost shown = object_result(resolved);
        let r = match resolved {
            Ok(Object::Stream(stream)) => match SelectedObjectStream::prepare(
                &stream.dict,
                &stream.content,
                container_limit(&self.limits),
            ) {
                Ok(selected) => Ok(Arc::new(PreparedObjectStream::Selected(selected))),
                Err(_) => Ok(Arc::new(PreparedObjectStream::Raw(stream))),
            },
            Ok(_) => Ok(Arc::new(PreparedObjectStream::NotStream)),
            Err(error) => Err(Arc::new(error)),
        };
        proof {
            assert forall|other: ObjectId| #[trigger] cache_key(other) == cache_key(container) implies other
                == container by {
                lemma_cache_key_injective(other, container);
            }
            assert(r is Ok ==> prepared_from(d, container, *r->Ok_0, shown));
            if !source_failed(shown) {
                let length = choose|length: Option<i64>| shown == #[trigger] normal_object_with(d, container, length);
                assert(shown == normal_object_with(d, container, length));
            }
            assert(leaves_container(d, container, r));
        }
        r
    }

    /// Answers for a member out of its container.
    pub fn answer_member_of(
        &self,
        prepared: &SharedCellResult<PreparedObjectStream>,
        container: ObjectId,
        id: ObjectId,
        index: u32,
    ) -> (r: SharedIndexedReaderResult<Arc<Object>>)
        requires
            home_of(self.document(), id) == Some((container, index)),
            valid_container(self.document(), self.source.reliable())(cache_key(container), *prepared),
        ensures
            self.source.reliable() ==> shared_result(r) == object_of(self.document(), id),
            resolves(shared_result(r), self.document(), id),
            *prepared matches Err(error) ==> r == Err::<Arc<Object>, Arc<IndexedReaderError>>(error),
            *prepared matches Ok(stream) ==> shared_result(r) == prepared_answer(
                *stream,
                container,
                id,
                index,
                decode_limit(self.limits),
            ),
    {
        let ghost d = self.document();
        proof {
            reveal(object_of);
            assert(!Seq::<ObjectId>::empty().contains(id));
            lemma_push_contains(Seq::<ObjectId>::empty(), id, container);
            lemma_container_of_member(d, id, container.0);
            assert(cache_key(container) == cache_key(container));
            lemma_left_member(d, id, container, index, *prepared);
        }
        match prepared {
            Ok(stream) => answer_from(stream, container, id, index, container_limit(&self.limits)),
            Err(error) => Err(Arc::clone(error)),
        }
    }
}

/// What is left of a container leaves the member that is looked for in it.
proof fn lemma_left_member(
    d: DocumentView,
    id: ObjectId,
    container: ObjectId,
    index: u32,
    prepared: SharedCellResult<PreparedObjectStream>,
)
    requires
        home_of(d, id) == Some((container, index)),
        leaves_container(d, container, prepared),
    ensures
        match prepared {
            Ok(stream) => resolves(
                prepared_answer(*stream, container, id, index, decode_limit(d.limits)),
                d,
                id,
            ),
            Err(error) => resolves(Err::<ObjectView, IndexedReaderError>(*error), d, id),
        },
{
    let none = Seq::<ObjectId>::empty();
    assert(!none.contains(id));
    lemma_push_contains(none, id, container);
    assert(!none.push(id).contains(container));
    assert forall|length: Option<i64>| #[trigger] object_with(d, id, none, 0, length) == member_object(
        d,
        id,
        container,
        index,
        normal_object_with(d, container, length),
    ) by {}
    match prepared {
        Ok(stream) => {
            let length = choose|length: Option<i64>|
                prepared_from(d, container, *stream, #[trigger] normal_object_with(d, container, length));
            assert(object_with(d, id, none, 0, length) == prepared_answer(
                *stream,
                container,
                id,
                index,
                decode_limit(d.limits),
            ));
        },
        Err(error) => {
            if *error !is Source {
                let length = choose|length: Option<i64>| #[trigger]
                    normal_object_with(d, container, length) == Err::<ObjectView, IndexedReaderError>(*error);
                assert(object_with(d, id, none, 0, length) == Err::<ObjectView, IndexedReaderError>(*error));
            }
        },
    }
}

impl<S: RandomAccessSource, H: SecurityHandler> CachedReader<S, H> {
    /// A container, kept or newly prepared for one of its members.
    fn container_for(&mut self, id: ObjectId, container: ObjectId) -> (r: SharedCellResult<PreparedObjectStream>)
        requires
            old(self).object_streams_in_order(),
            old(self).reader.document().locations.contains_key(id.0),
            old(self).reader.document().locations[id.0] is Compressed,
            container.1 == 0,
        ensures
            final(self).object_streams_in_order(),
            final(self).same_but_kept(*old(self)),
            final(self).object_cache == old(self).object_cache,
            valid_container(old(self).reader.document(), old(self).reader.source.reliable())(
                cache_key(container),
                r,
            ),
            old(self).gave_container(container, r, *final(self)),
    {
        let ghost valid = valid_container(self.reader.document(), self.reader.source.reliable());
        let begin: Begin<PreparedObjectStream> = match &mut self.object_stream_cache {
            Some(cache) => {
                let ghost held = *cache;
                let ghost counted = self.object_stream_counters;
                let begin = cache.begin(container, &mut self.object_stream_counters);
                proof {
                    held.law_cache_keeps_to_its_limits();
                    law_only_valid_entries_are_given(
                        held@,
                        counted,
                        cache_key(container),
                        begin,
                        cache@,
                        self.object_stream_counters,
                        valid,
                    );
                }
                begin
            },
            None => Begin::Bypass,
        };
        match begin {
            Begin::Hit(result) => result,
            Begin::Load(ticket) => {
                let result = self.reader.prepare_container(id, container);
                let bytes: usize = match &result {
                    Ok(prepared) => prepared.retained_bytes(),
                    Err(_) => 0,
                };
                match &mut self.object_stream_cache {
                    Some(cache) => {
                        let ghost held = *cache;
                        let ghost counted = self.object_stream_counters;
                        cache.complete(container, ticket, &result, bytes, &mut self.object_stream_counters);
                        proof {
                            law_only_valid_entries_are_kept(
                                held@,
                                counted,
                                cache_key(container),
                                ticket,
                                result,
                                bytes,
                                cache@,
                                self.object_stream_counters,
                                valid,
                            );
                            assert(weight_of_container(result)(bytes));
                        }
                    },
                    None => {},
                }
                result
            },
            _ => self.reader.prepare_container(id, container),
        }
    }
}

impl<S: RandomAccessSource, H: SecurityHandler> CachedReader<S, H> {
    /// The reader is the same, and keeps the same kinds of things.
    pub open spec fn same_but_kept(&self, other: Self) -> bool {
        &&& self.reader == other.reader
        &&& self.object_cache is Some == other.object_cache is Some
        &&& self.object_stream_cache is Some == other.object_stream_cache is Some
    }
}

/// What is handed in with a resolved object is what it takes.
pub open spec fn weight_of_object(result: SharedCellResult<Object>) -> spec_fn(usize) -> bool {
    |bytes: usize|
        match result {
            Ok(object) => weighs(*object, 0, size_of::<Object>(), bytes),
            Err(_) => bytes == 0,
        }
}

/// What is handed in with a prepared container is what it takes.
pub open spec fn weight_of_container(result: SharedCellResult<PreparedObjectStream>) -> spec_fn(usize) -> bool {
    |bytes: usize|
        match result {
            Ok(prepared) => prepared.weighs(0, bytes),
            Err(_) => bytes == 0,
        }
}

impl<S: RandomAccessSource, H: SecurityHandler> CachedReader<S, H> {
    /// The containers that are kept are the same.
    pub open spec fn same_containers(&self, after: Self) -> bool {
        after.object_stream_cache == self.object_stream_cache && after.object_stream_counters
            == self.object_stream_counters
    }

    /// One container was asked for, and `result` was given for it.
    pub open spec fn gave_container(
        &self,
        container: ObjectId,
        result: SharedCellResult<PreparedObjectStream>,
        after: Self,
    ) -> bool {
        match (self.object_stream_cache, after.object_stream_cache) {
            (Some(before), Some(kept)) => served(
                before@,
                self.object_stream_counters,
                cache_key(container),
                result,
                weight_of_container(result),
                kept@,
                after.object_stream_counters,
            ),
            _ => self.same_containers(after),
        }
    }

    /// An object was resolved: the container that it is a member of was asked for.
    pub open spec fn looked_up(&self, id: ObjectId, after: Self) -> bool {
        match home_of(self.reader.document(), id) {
            Some((container, _)) => exists|result: SharedCellResult<PreparedObjectStream>| #[trigger]
                self.gave_container(container, result, after),
            None => self.same_containers(after),
        }
    }

    /// One object was asked for, and `result` was given for it: what is kept of it
    /// is given back, and only what is not kept is resolved again.
    pub open spec fn gave_object(&self, id: ObjectId, result: SharedCellResult<Object>, after: Self) -> bool {
        match (self.object_cache, after.object_cache) {
            (Some(before), Some(kept)) => {
                &&& same_but_one(before.shards@, kept.shards@, shard_index(id, before.shards@.len() as int))
                &&& served(
                    before.home(id),
                    before.counters,
                    cache_key(id),
                    result,
                    weight_of_object(result),
                    kept.home(id),
                    kept.counters,
                )
                &&& if before.home(id).entries.contains_key(cache_key(id)) {
                    self.same_containers(after)
                } else {
                    self.looked_up(id, after)
                }
            },
            _ => self.looked_up(id, after),
        }
    }
}

impl<S: RandomAccessSource, H: SecurityHandler> CachedReader<S, H> {
    /// Resolves an object that is not kept.
    fn resolve_object_shared_uncached(&mut self, id: ObjectId) -> (r: SharedIndexedReaderResult<Arc<Object>>)
        requires
            old(self).object_streams_in_order(),
        ensures
            final(self).object_streams_in_order(),
            final(self).same_but_kept(*old(self)),
            final(self).object_cache == old(self).object_cache,
            old(self).reader.source.reliable() ==> shared_result(r) == object_of(old(self).reader.document(), id),
            resolves(shared_result(r), old(self).reader.document(), id),
            old(self).looked_up(id, *final(self)),
    {
        if self.object_stream_cache.is_some() {
            if let Some((container, index)) = self.reader.member_home(id) {
                let ghost asked = *self;
                let given = self.container_for(id, container);
                assert(asked.gave_container(container, given, *self));
                return self.reader.answer_member_of(&given, container, id, index);
            }
        }
        proof {
            if let Some((container, _)) = home_of(self.reader.document(), id) {
                assert(self.gave_container(container, arbitrary(), *self));
            }
        }
        self.reader.resolve_object_shared(id)
    }

    /// Resolves one object into a value that can be shared, and keeps it where
    /// there is room for it. What is kept has no say in what is resolved.
    pub fn resolve_object_shared(&mut self, id: ObjectId) -> (r: SharedIndexedReaderResult<Arc<Object>>)
        requires
            old(self).well_formed(),
        ensures
            final(self).well_formed(),
            final(self).same_but_kept(*old(self)),
            old(self).reader.source.reliable() ==> shared_result(r) == object_of(old(self).reader.document(), id),
            resolves(shared_result(r), old(self).reader.document(), id),
            old(self).gave_object(id, r, *final(self)),
    {
        let ghost d = self.reader.document();
        let ghost valid = valid_object(d, self.reader.source.reliable());
        let ghost asked = *self;
        let begin: Begin<Object> = match &mut self.object_cache {
            Some(cache) => {
                let ghost held = *cache;
                let begin = cache.begin(id);
                proof {
                    lemma_shard_given(held, id, begin, *cache, valid);
                }
                begin
            },
            None => {
                return self.resolve_object_shared_uncached(id);
            },
        };
        let ghost begun_with = *self;
        match begin {
            Begin::Hit(result) => {
                assert(cache_key(id) == cache_key(id));
                result
            },
            Begin::Load(ticket) => {
                let result = self.resolve_object_shared_uncached(id);
                let ghost loaded = *self;
                let bytes: usize = match &result {
                    Ok(object) => object_retained_bytes(object),
                    Err(_) => 0,
                };
                proof {
                    assert forall|other: ObjectId| #[trigger] cache_key(other) == cache_key(id) implies other == id by {
                        lemma_cache_key_injective(other, id);
                    }
                    assert(valid(cache_key(id), result));
                }
                match &mut self.object_cache {
                    Some(cache) => {
                        let ghost held = *cache;
                        cache.complete(id, ticket, &result, bytes);
                        proof {
                            lemma_shard_kept(held, id, ticket, result, bytes, *cache, valid);
                            assert(weight_of_object(result)(bytes));
                        }
                    },
                    None => {},
                }
                proof {
                    lemma_looked_up(begun_with, loaded, asked, *self, id);
                }
                result
            },
            _ => {
                let result = self.resolve_object_shared_uncached(id);
                proof {
                    lemma_looked_up(begun_with, *self, asked, *self, id);
                }
                result
            },
        }
    }
}

/// What was looked up shows in the containers alone.
proof fn lemma_looked_up<S: RandomAccessSource, H: SecurityHandler>(
    before: CachedReader<S, H>,
    after: CachedReader<S, H>,
    asked: CachedReader<S, H>,
    answered: CachedReader<S, H>,
    id: ObjectId,
)
    requires
        before.looked_up(id, after),
        asked.reader == before.reader,
        before.same_containers(asked),
        after.same_containers(answered),
    ensures
        asked.looked_up(id, answered),
{
    if let Some((container, _)) = home_of(before.reader.document(), id) {
        let result = choose|result: SharedCellResult<PreparedObjectStream>| #[trigger]
            before.gave_container(container, result, after);
        assert(asked.gave_container(container, result, answered));
    }
}

/// The shards keep only what is valid, but for one entry that is being loaded.
spec fn shards_keep_but<T>(
    cache: ShardedCache<T>,
    id: ObjectId,
    ticket: u64,
    valid: spec_fn(u64, SharedCellResult<T>) -> bool,
) -> bool {
    let home = shard_index(id, cache.shards@.len() as int);
    &&& cache.home(id).is_loading(cache_key(id), ticket)
    &&& keeps_only(cache.home(id).removed(cache_key(id)), valid)
    &&& forall|i: int|
        0 <= i < cache.shards@.len() && i != home ==> keeps_only((#[trigger] cache.shards@[i])@, valid)
}

proof fn lemma_shard_given<T>(
    before: ShardedCache<T>,
    id: ObjectId,
    begin: Begin<T>,
    after: ShardedCache<T>,
    valid: spec_fn(u64, SharedCellResult<T>) -> bool,
)
    requires
        before.well_formed(),
        shards_keep(before, valid),
        begun(before.home(id), before.counters, cache_key(id), begin, after.home(id), after.counters),
        same_but_one(before.shards@, after.shards@, shard_index(id, before.shards@.len() as int)),
    ensures
        match begin {
            Begin::Hit(result) => valid(cache_key(id), result) && shards_keep(after, valid),
            Begin::Wait(_) => false,
            Begin::Load(ticket) => shards_keep_but(after, id, ticket, valid),
            Begin::Bypass => shards_keep(after, valid),
        },
{
    let count = before.shards@.len() as int;
    let home = shard_index(id, count);
    assert(0 <= home < count) by {
        vstd::arithmetic::div_mod::lemma_mod_bound(id.0 as int, count);
    }
    assert(shard_fits(before.shards@[home], before.part_entries(), before.part_bytes()));
    before.shards@[home].law_cache_keeps_to_its_limits();
    assert(keeps_only(before.shards@[home]@, valid));
    law_only_valid_entries_are_given(
        before.home(id),
        before.counters,
        cache_key(id),
        begin,
        after.home(id),
        after.counters,
        valid,
    );
    assert forall|i: int| 0 <= i < count && i != home implies keeps_only((#[trigger] after.shards@[i])@, valid) by {
        assert(after.shards@[i] == before.shards@[i]);
    }
}

proof fn lemma_shard_kept<T>(
    before: ShardedCache<T>,
    id: ObjectId,
    ticket: u64,
    result: SharedCellResult<T>,
    bytes: usize,
    after: ShardedCache<T>,
    valid: spec_fn(u64, SharedCellResult<T>) -> bool,
)
    requires
        shards_keep_but(before, id, ticket, valid),
        valid(cache_key(id), result),
        completed(
            before.home(id),
            before.counters,
            cache_key(id),
            ticket,
            result,
            bytes,
            after.home(id),
            after.counters,
        ),
        same_but_one(before.shards@, after.shards@, shard_index(id, before.shards@.len() as int)),
    ensures
        shards_keep(after, valid),
{
    law_only_valid_entries_are_kept(
        before.home(id),
        before.counters,
        cache_key(id),
        ticket,
        result,
        bytes,
        after.home(id),
        after.counters,
        valid,
    );
    assert forall|i: int| 0 <= i < after.shards@.len() implies keeps_only((#[trigger] after.shards@[i])@, valid) by {
        if i != shard_index(id, before.shards@.len() as int) {
            assert(after.shards@[i] == before.shards@[i]);
        }
    }
}

/// The cache is a new one with these limits.
pub open spec fn fresh_cache<T>(
    cache: SharedCache<T>,
    max_bytes: usize,
    max_entries: usize,
    max_entry_bytes: usize,
    protected_percent: usize,
) -> bool {
    cache@ == (CacheView::<T> {
        entries: Map::empty(),
        probation: Seq::empty(),
        protected: Seq::empty(),
        max_bytes,
        max_entries,
        max_entry_bytes,
        protected_percent,
    })
}

/// The cache is a new one with these limits, split evenly over its shards.
pub open spec fn fresh_shards<T>(
    cache: ShardedCache<T>,
    max_bytes: usize,
    max_entries: usize,
    max_entry_bytes: usize,
    protected_percent: usize,
) -> bool {
    let count = shard_count(max_entries);
    &&& cache.counters == zero_counters()
    &&& cache.shards@.len() == count
    &&& forall|i: int|
        0 <= i < cache.shards@.len() ==> fresh_cache(
            #[trigger] cache.shards@[i],
            (max_bytes as int / count) as usize,
            (max_entries as int / count) as usize,
            (max_entry_bytes as int / count) as usize,
            protected_percent,
        )
}

impl<S: RandomAccessSource, H: SecurityHandler> CachedReader<S, H> {
    /// A reader that keeps nothing.
    pub fn new(reader: IndexedReader<S, H>) -> (cached: Self)
        requires
            reader.well_formed(),
        ensures
            cached.well_formed(),
            cached.reader == reader,
            cached.object_cache is None,
            cached.object_stream_cache is None,
            cached.object_stream_counters == zero_counters(),
    {
        CachedReader {
            reader,
            object_cache: None,
            object_stream_cache: None,
            object_stream_counters: CacheCounters::new(),
        }
    }

    /// Gives the reader new caches with these limits. A new object goes on
    /// probation, so none may take more than that quarter of the bytes.
    pub fn configure_resolution_caches(
        &mut self,
        object_bytes: usize,
        object_entries: usize,
        object_stream_bytes: usize,
        object_stream_entries: usize,
    )
        requires
            old(self).well_formed(),
        ensures
            final(self).well_formed(),
            final(self).reader == old(self).reader,
            final(self).object_stream_counters == zero_counters(),
            match final(self).object_cache {
                Some(cache) => {
                    &&& object_bytes > 0 && object_entries > 0
                    &&& fresh_shards(
                        cache,
                        object_bytes,
                        object_entries,
                        cache_share(object_bytes, 25) as usize,
                        SHARED_OBJECT_PROTECTED_PERCENT,
                    )
                },
                None => object_bytes == 0 || object_entries == 0,
            },
            match final(self).object_stream_cache {
                Some(cache) => {
                    &&& object_stream_bytes > 0 && object_stream_entries > 0
                    &&& fresh_cache(cache, object_stream_bytes, object_stream_entries, object_stream_bytes, 0)
                },
                None => object_stream_bytes == 0 || object_stream_entries == 0,
            },
    {
        self.object_stream_counters = CacheCounters::new();
        self.object_cache = if object_bytes > 0 && object_entries > 0 {
            let largest: usize = share_of(object_bytes, 100 - SHARED_OBJECT_PROTECTED_PERCENT);
            let cache = ShardedCache::new(object_bytes, object_entries, largest, SHARED_OBJECT_PROTECTED_PERCENT);
            proof {
                let valid = valid_object(self.reader.document(), self.reader.source.reliable());
                assert forall|i: int| 0 <= i < cache.shards@.len() implies keeps_only(
                    (#[trigger] cache.shards@[i])@,
                    valid,
                ) by {
                    assert(cache.shards@[i]@.entries =~= Map::empty());
                }
            }
            Some(cache)
        } else {
            None
        };
        self.object_stream_cache = if object_stream_bytes > 0 && object_stream_entries > 0 {
            let cache = SharedCache::new(object_stream_bytes, object_stream_entries, object_stream_bytes, 0);
            assert(cache@.bytes() == 0);
            Some(cache)
        } else {
            None
        };
    }

    /// The figures are those of the cache of objects.
    pub open spec fn reports_objects(&self, r: IndexedObjectCacheStats) -> bool {
        match self.object_cache {
            Some(cache) => {
                &&& r.object_hits == cache.counters.hits
                &&& r.object_misses == cache.counters.misses
                &&& r.object_waits == cache.counters.waits
                &&& r.object_loads == cache.counters.loads
                &&& r.object_promotions == cache.counters.promotions
                &&& r.object_evictions == cache.counters.evictions
                &&& r.object_bypasses == cache.counters.bypasses
                &&& r.negative_hits == counted(
                    cache.counters.negative_hits as int,
                    self.object_stream_counters.negative_hits as int,
                )
                &&& r.transient_failures == cache.counters.transient_failures
                &&& r.probation_entries == total_probation(shard_views(cache.shards@)).0
                &&& r.probation_bytes == total_probation(shard_views(cache.shards@)).1
                &&& r.probation_entries + r.protected_entries == cache.counters.live_entries
                &&& r.probation_bytes + r.protected_bytes == cache.counters.live_bytes
                &&& r.peak_entries == cache.counters.peak_entries
                &&& r.peak_bytes == cache.counters.peak_bytes
            },
            None => r == no_object_stats(self.object_stream_counters.negative_hits),
        }
    }

    /// The figures of the cache of decoded object streams.
    pub open spec fn object_stream_report(&self) -> IndexedObjectStreamCacheStats {
        IndexedObjectStreamCacheStats {
            hits: self.object_stream_counters.hits,
            misses: self.object_stream_counters.misses,
            waits: self.object_stream_counters.waits,
            loads: self.object_stream_counters.loads,
            evictions: self.object_stream_counters.evictions,
            bypasses: self.object_stream_counters.bypasses,
            transient_failures: self.object_stream_counters.transient_failures,
            entries: match self.object_stream_cache {
                Some(cache) => cache@.entries.len() as usize,
                None => 0,
            },
            bytes: match self.object_stream_cache {
                Some(cache) => cache@.bytes() as usize,
                None => 0,
            },
            peak_entries: self.object_stream_counters.peak_entries,
            peak_bytes: self.object_stream_counters.peak_bytes,
        }
    }

    /// What the cache of objects reports.
    pub fn object_cache_stats(&self) -> (r: IndexedObjectCacheStats)
        requires
            self.well_formed(),
        ensures
            self.reports_objects(r),
    {
        match &self.object_cache {
            Some(cache) => {
                let (probation_entries, probation_bytes, protected_entries, protected_bytes) = cache.residency();
                IndexedObjectCacheStats {
                    object_hits: cache.counters.hits,
                    object_misses: cache.counters.misses,
                    object_waits: cache.counters.waits,
                    object_loads: cache.counters.loads,
                    object_promotions: cache.counters.promotions,
                    object_evictions: cache.counters.evictions,
                    object_bypasses: cache.counters.bypasses,
                    negative_hits: cache.counters.negative_hits.saturating_add(
                        self.object_stream_counters.negative_hits,
                    ),
                    transient_failures: cache.counters.transient_failures,
                    probation_entries,
                    probation_bytes,
                    protected_entries,
                    protected_bytes,
                    peak_entries: cache.counters.peak_entries,
                    peak_bytes: cache.counters.peak_bytes,
                }
            },
            None => IndexedObjectCacheStats {
                object_hits: 0,
                object_misses: 0,
                object_waits: 0,
                object_loads: 0,
                object_promotions: 0,
                object_evictions: 0,
                object_bypasses: 0,
                negative_hits: self.object_stream_counters.negative_hits,
                transient_failures: 0,
                probation_entries: 0,
                probation_bytes: 0,
                protected_entries: 0,
                protected_bytes: 0,
                peak_entries: 0,
                peak_bytes: 0,
            },
        }
    }

    /// What the cache of decoded object streams reports.
    pub fn object_stream_cache_stats(&self) -> (r: IndexedObjectStreamCacheStats)
        requires
            self.well_formed(),
        ensures
            r == self.object_stream_report(),
    {
        let (entries, bytes): (usize, usize) = match &self.object_stream_cache {
            Some(cache) => {
                let (probation_entries, probation_bytes, protected_entries, protected_bytes) = cache.residency();
                proof {
                    cache.law_cache_keeps_to_its_limits();
                }
                (
                    probation_entries.saturating_add(protected_entries),
                    probation_bytes.saturating_add(protected_bytes),
                )
            },
            None => (0, 0),
        };
        IndexedObjectStreamCacheStats {
            hits: self.object_stream_counters.hits,
            misses: self.object_stream_counters.misses,
            waits: self.object_stream_counters.waits,
            loads: self.object_stream_counters.loads,
            evictions: self.object_stream_counters.evictions,
            bypasses: self.object_stream_counters.bypasses,
            transient_failures: self.object_stream_counters.transient_failures,
            entries,
            bytes,
            peak_entries: self.object_stream_counters.peak_entries,
            peak_bytes: self.object_stream_counters.peak_bytes,
        }
    }

    /// What all the caches report, with what a cache of source chunks says of itself.
    pub fn cache_stats(&self, source: IndexedReaderSourceCacheStats) -> (r: IndexedReaderCacheStats)
        requires
            self.well_formed(),
        ensures
            self.reports_objects(r.object),
            r.object_stream == self.object_stream_report(),
            reports_together(source, r.object, r.object_stream, r),
    {
        IndexedReaderCacheStats::new(source, self.object_cache_stats(), self.object_stream_cache_stats())
    }
}

/// What is reported where no objects are kept.
pub open spec fn no_object_stats(negative_hits: u64) -> IndexedObjectCacheStats {
    IndexedObjectCacheStats {
        object_hits: 0,
        object_misses: 0,
        object_waits: 0,
        object_loads: 0,
        object_promotions: 0,
        object_evictions: 0,
        object_bypasses: 0,
        negative_hits,
        transient_failures: 0,
        probation_entries: 0,
        probation_bytes: 0,
        protected_entries: 0,
        protected_bytes: 0,
        peak_entries: 0,
        peak_bytes: 0,
    }
}

/// The objects were asked for one after the other.
pub open spec fn gave_in_turn<S: RandomAccessSource, H: SecurityHandler>(
    before: CachedReader<S, H>,
    ids: Seq<ObjectId>,
    after: CachedReader<S, H>,
) -> bool
    decreases ids.len(),
{
    if ids.len() == 0 {
        after == before
    } else {
        exists|between: CachedReader<S, H>, result: SharedCellResult<Object>| #[trigger]
            between.gave_object(ids.last(), result, after) && gave_in_turn(before, ids.drop_last(), between)
    }
}

impl<S: RandomAccessSource, H: SecurityHandler> CachedReader<S, H> {
    /// Resolves each of the ids once, in the order in which they first occur.
    /// Objects that are in no object stream are kept where there is room for them.
    pub fn resolve_many_shared(&mut self, ids: &[ObjectId]) -> (r: Vec<
        (ObjectId, SharedIndexedReaderResult<Arc<Object>>),
    >)
        requires
            old(self).well_formed(),
        ensures
            final(self).well_formed(),
            final(self).same_but_kept(*old(self)),
            r@.len() == first_occurrences(ids@).len(),
            forall|i: int|
                0 <= i < r@.len() ==> (#[trigger] r@[i]).0 == first_occurrences(ids@)[i] && (
                old(self).reader.source.reliable() ==> shared_result(r@[i].1) == batch_object(
                    old(self).reader.document(),
                    r@[i].0,
                )) && leaves_object(shared_result(r@[i].1), old(self).reader.document(), r@[i].0),
            exists|plan: BatchPlan| #[trigger]
                plan.fits(old(self).reader.index.locations@, ids@) && gave_in_turn(
                    *old(self),
                    plan.single_ids(),
                    *final(self),
                ),
    {
        let plan = plan_batch(&self.reader.index.locations, ids);
        let mut slots = empty_slots(plan.unique.len());
        let mut next: usize = 0;
        assert(plan.single_ids().take(0) =~= Seq::empty());
        while next < plan.single.len()
            invariant
                next <= plan.single@.len(),
                self.well_formed(),
                self.same_but_kept(*old(self)),
                plan.fits(self.reader.index.locations@, ids@),
                slots@.len() == plan.unique@.len(),
                slots_fit(self.reader.document(), self.reader.source.reliable(), plan.unique@, slots@),
                forall|i: int| 0 <= i < next ==> slots@[#[trigger] plan.single@[i] as int] is Some,
                forall|i: int|
                    0 <= i < slots@.len() ==> match #[trigger] slots@[i] {
                        Some(result) => resolves(shared_result(result), self.reader.document(), plan.unique@[i]),
                        None => true,
                    },
                gave_in_turn(*old(self), plan.single_ids().take(next as int), *self),
            decreases plan.single@.len() - next,
        {
            let position: usize = plan.single[next];
            let ghost asked = *self;
            let result = self.resolve_object_shared(plan.unique[position]);
            proof {
                let given = plan.single_ids().take(next + 1);
                assert(given.drop_last() =~= plan.single_ids().take(next as int));
                assert(asked.gave_object(given.last(), result, *self));
            }
            slots.set(position, Some(result));
            next += 1;
        }
        assert(plan.single_ids().take(next as int) =~= plan.single_ids());
        self.reader.finish_batch(ids, &plan, slots)
    }
}

impl<S: RandomAccessSource> CachedReader<S, NoSecurity> {
    /// Opens a source with these limits, and caches within this budget.
    pub fn open_cached(source: S, options: IndexedReaderOptions, cache_options: IndexedReaderCacheOptions) -> (r: Result<
        Self,
        IndexedReaderError,
    >)
        ensures
            opens_cached(r, source, options, cache_options),
    {
        CachedReader::open_shared_cached(Arc::new(source), options, cache_options)
    }

    /// Opens a source that others share, with caches within this budget.
    pub fn open_shared_cached(
        source: Arc<S>,
        options: IndexedReaderOptions,
        cache_options: IndexedReaderCacheOptions,
    ) -> (r: Result<Self, IndexedReaderError>)
        ensures
            opens_cached(r, *source, options, cache_options),
    {
        let reader = match IndexedReader::open_shared(source, options) {
            Ok(reader) => reader,
            Err(error) => {
                return Err(error);
            },
        };
        let mut cached = CachedReader::new(reader);
        cached.configure_resolution_caches(
            usize_from_u64_saturating(cache_options.object_max_bytes()),
            cache_options.object_max_entries(),
            usize_from_u64_saturating(cache_options.object_stream_max_bytes()),
            cache_options.object_stream_max_entries(),
        );
        Ok(cached)
    }
}

/// The result is what opening the source gives, with new caches within the budget.
pub open spec fn opens_cached<S: RandomAccessSource>(
    r: Result<CachedReader<S, NoSecurity>, IndexedReaderError>,
    source: S,
    options: IndexedReaderOptions,
    cache_options: IndexedReaderCacheOptions,
) -> bool {
    let bytes = cache_options.max_bytes as int;
    let entries = cache_options.max_entries as int;
    match r {
        Ok(cached) => {
            &&& cached.well_formed()
            &&& *cached.reader.source == source
            &&& cached.reader.options == without_password(options)
            &&& source.reliable() ==> opens_as(Ok(cached.reader), opened::<NoSecurity>(source.contents(), options))
            &&& leaves_opened(
                Ok::<IndexedReader<S, NoSecurity>, IndexedReaderError>(cached.reader),
                source.contents(),
                options,
            )
            &&& match cached.object_cache {
                Some(cache) => fresh_shards(
                    cache,
                    narrowed((bytes / 2) as u64),
                    (entries / 2) as usize,
                    cache_share(narrowed((bytes / 2) as u64), 25) as usize,
                    SHARED_OBJECT_PROTECTED_PERCENT,
                ),
                None => bytes / 2 == 0 || entries / 2 == 0,
            }
            &&& match cached.object_stream_cache {
                Some(cache) => fresh_cache(
                    cache,
                    narrowed((bytes - bytes / 4 - bytes / 2) as u64),
                    (entries - entries / 4 - entries / 2) as usize,
                    narrowed((bytes - bytes / 4 - bytes / 2) as u64),
                    0,
                ),
                None => bytes - bytes / 4 - bytes / 2 == 0 || entries - entries / 4 - entries / 2 == 0,
            }
        },
        Err(error) => {
            &&& source.reliable() ==> opens_as(
                Err::<IndexedReader<S, NoSecurity>, IndexedReaderError>(error),
                opened::<NoSecurity>(source.contents(), options),
            )
            &&& leaves_opened(
                Err::<IndexedReader<S, NoSecurity>, IndexedReaderError>(error),
                source.contents(),
                options,
            )
        },
    }
}

} // verus!
