//! What a reader and its caches report of themselves.

use vstd::layout::size_of;
use vstd::prelude::*;

use crate::errors::IndexedReaderError;
use crate::locations::ObjectLocation64;
use crate::memory::{
    capped, capped_product, dictionary_retained_bytes, entries_weigh, room_of_string, room_of_vec, string_room, vec_room,
    DICTIONARY_ENTRY_ENVELOPE,
};
use crate::object::Dictionary;
use crate::open::PdfIndex;
use crate::page_map::{leaves_page_map, page_map_result, pages_of, PageMap, PageMapEntry, PageMapLimits};
use crate::resolve::IndexedReader;
use crate::security::SecurityHandler;
use crate::source::RandomAccessSource;

verus! {

/// A number of bytes as the machine counts memory.
pub open spec fn narrowed(value: u64) -> usize {
    if value > usize::MAX {
        usize::MAX
    } else {
        value as usize
    }
}

/// A number of bytes as the machine counts memory.
pub fn usize_from_u64_saturating(value: u64) -> (r: usize)
    ensures
        r == narrowed(value),
{
    if value > usize::MAX as u64 {
        usize::MAX
    } else {
        value as usize
    }
}

/// A number of bytes in memory, as sources count them.
pub fn u64_from_usize_saturating(value: usize) -> (r: u64)
    ensures
        r == value,
{
    value as u64
}

/// The sum of two counts, as far as they go.
pub open spec fn counted(left: int, right: int) -> u64 {
    if left + right > u64::MAX {
        u64::MAX
    } else {
        (left + right) as u64
    }
}

/// What a cache of source chunks reports.
#[derive(Clone, Copy, Debug, Default, PartialEq, Eq, Structural)]
pub struct IndexedReaderSourceCacheStats {
    pub loads: u64,
    pub retained_bytes: u64,
    pub in_flight_bytes: u64,
    pub peak_bytes: u64,
    pub retained_entries: usize,
    pub in_flight_entries: usize,
    pub peak_entries: usize,
}

/// What the cache of objects reports.
#[derive(Clone, Copy, Debug, Default, PartialEq, Eq, Structural)]
#[non_exhaustive]
pub struct IndexedObjectCacheStats {
    pub object_hits: u64,
    pub object_misses: u64,
    /// Calls that waited for one that was loading.
    pub object_waits: u64,
    pub object_loads: u64,
    pub object_promotions: u64,
    pub object_evictions: u64,
    /// Objects that were not kept: one was too large, or all entries were loading.
    pub object_bypasses: u64,
    /// Failures that were kept and given out again, by either cache.
    pub negative_hits: u64,
    /// Failures of the source, which are not kept.
    pub transient_failures: u64,
    pub probation_entries: usize,
    pub probation_bytes: usize,
    pub protected_entries: usize,
    pub protected_bytes: usize,
    pub peak_entries: usize,
    pub peak_bytes: usize,
}

/// What the cache of decoded object streams reports.
#[derive(Clone, Copy, Debug, Default, PartialEq, Eq, Structural)]
#[non_exhaustive]
pub struct IndexedObjectStreamCacheStats {
    pub hits: u64,
    pub misses: u64,
    pub waits: u64,
    pub loads: u64,
    pub evictions: u64,
    pub bypasses: u64,
    pub transient_failures: u64,
    pub entries: usize,
    pub bytes: usize,
    pub peak_entries: usize,
    pub peak_bytes: usize,
}

/// What all the caches of a reader report.
#[derive(Clone, Copy, Debug, Default, PartialEq, Eq, Structural)]
#[non_exhaustive]
pub struct IndexedReaderCacheStats {
    pub source: IndexedReaderSourceCacheStats,
    pub object: IndexedObjectCacheStats,
    pub object_stream: IndexedObjectStreamCacheStats,
    pub current_bytes: u64,
    pub peak_bytes: u64,
    pub current_entries: usize,
    pub peak_entries: usize,
}

/// The figures of a reader are those of its caches, added up.
pub open spec fn reports_together(
    source: IndexedReaderSourceCacheStats,
    object: IndexedObjectCacheStats,
    object_stream: IndexedObjectStreamCacheStats,
    stats: IndexedReaderCacheStats,
) -> bool {
    &&& stats.source == source
    &&& stats.object == object
    &&& stats.object_stream == object_stream
    &&& stats.current_bytes == counted(
        source.retained_bytes + source.in_flight_bytes,
        capped((object.probation_bytes + object.protected_bytes) as nat) + object_stream.bytes,
    )
    &&& stats.peak_bytes == counted(source.peak_bytes as int, object.peak_bytes + object_stream.peak_bytes)
    &&& stats.current_entries == capped(
        (source.retained_entries + source.in_flight_entries + object.probation_entries + object.protected_entries
            + object_stream.entries) as nat,
    )
    &&& stats.peak_entries == capped(
        (source.peak_entries + object.peak_entries + object_stream.peak_entries) as nat,
    )
}

impl IndexedReaderCacheStats {
    /// What the caches report together.
    pub fn new(
        source: IndexedReaderSourceCacheStats,
        object: IndexedObjectCacheStats,
        object_stream: IndexedObjectStreamCacheStats,
    ) -> (stats: Self)
        ensures
            reports_together(source, object, object_stream, stats),
    {
        let object_bytes: usize = object.probation_bytes.saturating_add(object.protected_bytes);
        let object_entries: usize = object.probation_entries.saturating_add(object.protected_entries);
        IndexedReaderCacheStats {
            source,
            object,
            object_stream,
            current_bytes: source.retained_bytes.saturating_add(source.in_flight_bytes).saturating_add(
                u64_from_usize_saturating(object_bytes),
            ).saturating_add(u64_from_usize_saturating(object_stream.bytes)),
            peak_bytes: source.peak_bytes.saturating_add(u64_from_usize_saturating(object.peak_bytes)).saturating_add(
                u64_from_usize_saturating(object_stream.peak_bytes),
            ),
            current_entries: source.retained_entries.saturating_add(source.in_flight_entries).saturating_add(
                object_entries,
            ).saturating_add(object_stream.entries),
            peak_entries: source.peak_entries.saturating_add(object.peak_entries).saturating_add(
                object_stream.peak_entries,
            ),
        }
    }

    /// What the cache of source chunks reports.
    pub fn source(&self) -> (r: &IndexedReaderSourceCacheStats)
        ensures
            *r == self.source,
    {
        &self.source
    }

    /// What the cache of objects reports.
    pub fn object(&self) -> (r: &IndexedObjectCacheStats)
        ensures
            *r == self.object,
    {
        &self.object
    }

    /// What the cache of decoded object streams reports.
    pub fn object_stream(&self) -> (r: &IndexedObjectStreamCacheStats)
        ensures
            *r == self.object_stream,
    {
        &self.object_stream
    }

    /// The bytes that are kept, or are being loaded, in all the caches.
    pub fn current_bytes(&self) -> (r: u64)
        ensures
            r == self.current_bytes,
    {
        self.current_bytes
    }

    /// The sum of the most bytes that each cache has held.
    pub fn peak_bytes(&self) -> (r: u64)
        ensures
            r == self.peak_bytes,
    {
        self.peak_bytes
    }

    /// The entries that are kept, or are being loaded, in all the caches.
    pub fn current_entries(&self) -> (r: usize)
        ensures
            r == self.current_entries,
    {
        self.current_entries
    }

    /// The sum of the most entries that each cache has held.
    pub fn peak_entries(&self) -> (r: usize)
        ensures
            r == self.peak_entries,
    {
        self.peak_entries
    }
}

/// The budget of all the caches of a reader together.
#[derive(Clone, Copy, Debug, PartialEq, Eq, Structural)]
pub struct IndexedReaderCacheOptions {
    pub max_bytes: u64,
    pub max_entries: usize,
}

impl IndexedReaderCacheOptions {
    /// A budget of so many bytes and entries.
    pub fn new(max_bytes: u64, max_entries: usize) -> (options: Self)
        ensures
            options.max_bytes == max_bytes,
            options.max_entries == max_entries,
    {
        IndexedReaderCacheOptions { max_bytes, max_entries }
    }

    /// The bytes of the whole budget.
    pub fn max_bytes(&self) -> (r: u64)
        ensures
            r == self.max_bytes,
    {
        self.max_bytes
    }

    /// The entries of the whole budget.
    pub fn max_entries(&self) -> (r: usize)
        ensures
            r == self.max_entries,
    {
        self.max_entries
    }

    /// One quarter of the bytes is for source chunks.
    pub fn source_max_bytes(&self) -> (r: u64)
        ensures
            r == self.max_bytes as int / 4,
    {
        self.max_bytes / 4
    }

    /// One quarter of the entries is for source chunks.
    pub fn source_max_entries(&self) -> (r: usize)
        ensures
            r == self.max_entries as int / 4,
    {
        self.max_entries / 4
    }

    /// One half of the bytes is for objects.
    pub fn object_max_bytes(&self) -> (r: u64)
        ensures
            r == self.max_bytes as int / 2,
    {
        self.max_bytes / 2
    }

    /// One half of the entries is for objects.
    pub fn object_max_entries(&self) -> (r: usize)
        ensures
            r == self.max_entries as int / 2,
    {
        self.max_entries / 2
    }

    /// The rest of the bytes is for decoded object streams.
    pub fn object_stream_max_bytes(&self) -> (r: u64)
        ensures
            r == self.max_bytes - self.max_bytes as int / 4 - self.max_bytes as int / 2,
    {
        self.max_bytes - self.max_bytes / 4 - self.max_bytes / 2
    }

    /// The rest of the entries is for decoded object streams.
    pub fn object_stream_max_entries(&self) -> (r: usize)
        ensures
            r == self.max_entries - self.max_entries as int / 4 - self.max_entries as int / 2,
    {
        self.max_entries - self.max_entries / 4 - self.max_entries / 2
    }
}

/// The sum of some numbers of bytes.
pub open spec fn total(bytes: Seq<usize>) -> nat
    decreases bytes.len(),
{
    if bytes.len() == 0 {
        0
    } else {
        total(bytes.drop_last()) + bytes.last() as nat
    }
}

/// What a named crypt filter takes at most besides its name.
pub const CRYPT_FILTER_ENVELOPE: usize = 256;

/// The bytes that the state of an open encryption keeps: its own `size`, the
/// rooms of its vectors, and those of the names of its crypt filters.
pub fn encryption_state_retained_bytes(size: usize, vectors: &[usize], filter_names: &[usize]) -> (r: usize)
    ensures
        r == capped(
            size as nat + total(vectors@) + total(filter_names@) + filter_names@.len() * (
            CRYPT_FILTER_ENVELOPE as nat),
        ),
{
    let mut bytes: usize = size;
    let mut index: usize = 0;
    assert(vectors@.take(0) =~= Seq::empty());
    while index < vectors.len()
        invariant
            index <= vectors@.len(),
            bytes == capped(size as nat + total(vectors@.take(index as int))),
        decreases vectors@.len() - index,
    {
        bytes = bytes.saturating_add(vectors[index]);
        assert(vectors@.take(index + 1).drop_last() =~= vectors@.take(index as int));
        index += 1;
    }
    assert(vectors@.take(vectors@.len() as int) =~= vectors@);
    let mut position: usize = 0;
    assert(filter_names@.take(0) =~= Seq::empty());
    while position < filter_names.len()
        invariant
            position <= filter_names@.len(),
            bytes == capped(
                size as nat + total(vectors@) + total(filter_names@.take(position as int)) + position as nat * (
                CRYPT_FILTER_ENVELOPE as nat),
            ),
        decreases filter_names@.len() - position,
    {
        bytes = bytes.saturating_add(filter_names[position]).saturating_add(CRYPT_FILTER_ENVELOPE);
        assert(filter_names@.take(position + 1).drop_last() =~= filter_names@.take(position as int));
        position += 1;
    }
    assert(filter_names@.take(filter_names@.len() as int) =~= filter_names@);
    bytes
}

/// What one location takes at most besides its number and itself.
pub const LOCATION_ENVELOPE: usize = 256;

/// What an index reports.
#[derive(Clone, Copy, Debug, PartialEq, Eq, Structural)]
#[non_exhaustive]
pub struct IndexedReaderIndexStats {
    /// The bytes that the index and the page map keep, at most.
    pub retained_bytes: usize,
    /// The index was rebuilt from the body.
    pub recovered: bool,
}

/// The bytes that an index of so many locations keeps, with these rooms for its
/// version and its trailer.
pub open spec fn index_bytes<S: RandomAccessSource, H: SecurityHandler>(
    locations: nat,
    version: nat,
    trailer: nat,
    encryption: nat,
) -> nat {
    size_of::<IndexedReader<S, H>>() + size_of::<PdfIndex>() + 2 * size_of::<usize>() + version + locations * (
    size_of::<u32>() + size_of::<ObjectLocation64>() + LOCATION_ENVELOPE as nat) + trailer + encryption
}

/// The version and the trailer of the index, asked for their capacities, may answer
/// with these rooms.
pub open spec fn index_rooms_hold(index: PdfIndex, version: usize, trailer: usize) -> bool {
    &&& string_room(index.version, version)
    &&& entries_weigh(index.trailer, DICTIONARY_ENTRY_ENVELOPE as nat, size_of::<Dictionary>(), trailer)
}

impl<S: RandomAccessSource, H: SecurityHandler> IndexedReader<S, H> {
    /// The bytes that the index keeps, at most, where the state of an open
    /// encryption keeps `encryption_bytes`.
    pub fn index_retained_bytes(&self, encryption_bytes: usize) -> (r: usize)
        ensures
            exists|version: usize, trailer: usize| #[trigger]
                index_rooms_hold(self.index, version, trailer) && r == capped(
                    index_bytes::<S, H>(
                        self.index.locations@.len(),
                        version as nat,
                        trailer as nat,
                        encryption_bytes as nat,
                    ),
                ),
    {
        let version: usize = room_of_string(&self.index.version);
        let trailer: usize = dictionary_retained_bytes(&self.index.trailer);
        assert(index_rooms_hold(self.index, version, trailer));
        index_weight::<S, H>(self.index.locations.len(), version, trailer, encryption_bytes)
    }
}

/// The bytes of an index of so many locations, with room for `version` bytes of its
/// version, whose trailer keeps `trailer` and whose state of an open encryption
/// keeps `encryption`.
pub fn index_weight<S: RandomAccessSource, H: SecurityHandler>(
    locations: usize,
    version: usize,
    trailer: usize,
    encryption: usize,
) -> (r: usize)
    ensures
        r == capped(index_bytes::<S, H>(locations as nat, version as nat, trailer as nat, encryption as nat)),
{
    let slot: usize = core::mem::size_of::<u32>().saturating_add(core::mem::size_of::<ObjectLocation64>()).saturating_add(
        LOCATION_ENVELOPE,
    );
    let location_bytes: usize = capped_product(locations, slot);
    let headers: usize = capped_product(2, core::mem::size_of::<usize>());
    proof {
        let whole = size_of::<u32>() + size_of::<ObjectLocation64>() + LOCATION_ENVELOPE as nat;
        crate::memory::lemma_capped_factor(locations as nat, whole);
        crate::memory::lemma_capped_factor(2, size_of::<usize>());
    }
    core::mem::size_of::<IndexedReader<S, H>>().saturating_add(core::mem::size_of::<PdfIndex>()).saturating_add(
        headers,
    ).saturating_add(version).saturating_add(location_bytes).saturating_add(trailer).saturating_add(encryption)
}

/// The bytes of an index that keeps `index`, with a page map with room for
/// `capacity` pages.
pub fn mapped_index_weight(index: usize, capacity: usize) -> (r: usize)
    ensures
        r == capped(index as nat + (capacity as nat) * size_of::<PageMapEntry>()),
{
    index.saturating_add(capped_product(capacity, core::mem::size_of::<PageMapEntry>()))
}

/// What an index reports with a page map, where the pages have room for `capacity`.
pub open spec fn index_stats_fit<S: RandomAccessSource, H: SecurityHandler>(
    index: PdfIndex,
    encryption: usize,
    page_map: PageMap,
    version: usize,
    trailer: usize,
    capacity: usize,
    stats: IndexedReaderIndexStats,
) -> bool {
    &&& index_rooms_hold(index, version, trailer)
    &&& vec_room(page_map.pages, capacity)
    &&& stats.recovered == index.recovered
    &&& stats.retained_bytes == capped(
        index_bytes::<S, H>(index.locations@.len(), version as nat, trailer as nat, encryption as nat) + (
        capacity as nat) * size_of::<PageMapEntry>(),
    )
}

impl<S: RandomAccessSource, H: SecurityHandler> IndexedReader<S, H> {
    /// Walks the page tree once, and reports what the index and the page map keep.
    pub fn page_map_with_stats(&self, encryption_bytes: usize) -> (r: Result<
        (PageMap, IndexedReaderIndexStats),
        IndexedReaderError,
    >)
        ensures
            self.source.reliable() ==> match r {
                Ok((page_map, _)) => page_map_result(Ok(page_map)),
                Err(error) => Err(error),
            } == pages_of(
                self.document(),
                self.index@.trailer,
                PageMapLimits { max_depth: self.options.page_tree_depth, max_pages: self.options.max_pages },
            ),
            leaves_page_map(
                match r {
                    Ok((page_map, _)) => page_map_result(Ok(page_map)),
                    Err(error) => Err(error),
                },
                self.document(),
                self.index@.trailer,
                PageMapLimits { max_depth: self.options.page_tree_depth, max_pages: self.options.max_pages },
            ),
            r is Ok ==> exists|version: usize, trailer: usize, capacity: usize| #[trigger]
                index_stats_fit::<S, H>(
                    self.index,
                    encryption_bytes,
                    r->Ok_0.0,
                    version,
                    trailer,
                    capacity,
                    r->Ok_0.1,
                ),
    {
        let page_map: PageMap = match self.page_map() {
            Ok(page_map) => page_map,
            Err(error) => {
                return Err(error);
            },
        };
        let index: usize = self.index_retained_bytes(encryption_bytes);
        let capacity: usize = room_of_vec(&page_map.pages);
        let stats = IndexedReaderIndexStats {
            retained_bytes: mapped_index_weight(index, capacity),
            recovered: self.index.recovered,
        };
        proof {
            let (version, trailer) = choose|version: usize, trailer: usize| #[trigger]
                index_rooms_hold(self.index, version, trailer) && index == capped(
                    index_bytes::<S, H>(
                        self.index.locations@.len(),
                        version as nat,
                        trailer as nat,
                        encryption_bytes as nat,
                    ),
                );
            assert(index_stats_fit::<S, H>(
                self.index,
                encryption_bytes,
                page_map,
                version,
                trailer,
                capacity,
                stats,
            ));
        }
        let r: Result<(PageMap, IndexedReaderIndexStats), IndexedReaderError> = Ok((page_map, stats));
        assert(r->Ok_0.1 == stats);
        r
    }
}

/// The parts of a budget are the whole of it.
pub proof fn law_budget_is_split(options: IndexedReaderCacheOptions)
    ensures
        options.max_bytes as int / 4 + options.max_bytes as int / 2 + (options.max_bytes - options.max_bytes as int / 4
            - options.max_bytes as int / 2) == options.max_bytes,
        options.max_bytes - options.max_bytes as int / 4 - options.max_bytes as int / 2 >= options.max_bytes as int / 4,
{
}

} // verus!
