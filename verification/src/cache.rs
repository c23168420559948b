//! Segmented, bounded caches for what a reader resolves.
//!
//! One caller resolves an entry while the others wait for it. How they wait is
//! not said here: a cache decides, by turns, who loads, who waits and what stays.

use std::collections::{BTreeMap, VecDeque};
use std::sync::Arc;

use vstd::prelude::*;

use crate::errors::{is_transient_error, transient, IndexedReaderError};
use crate::memory::ask;
use crate::object::ObjectId;

verus! {

/// How many entries one eviction pass looks at before it gives up.
pub const MAX_PINNED_EVICTION_SCAN: usize = 16;

/// What loading an entry gave.
pub type SharedCellResult<T> = Result<Arc<T>, Arc<IndexedReaderError>>;

/// Whether an entry is there yet.
pub enum CellState<T> {
    Loading,
    Ready(SharedCellResult<T>),
}

/// Where an entry stands: new ones on probation, reused ones protected.
#[derive(Clone, Copy, Debug, PartialEq, Eq, Structural)]
pub enum CacheSegment {
    Probation,
    Protected,
}

/// One entry.
pub struct CacheEntry<T> {
    /// Tells this load from others of the same object.
    pub ticket: u64,
    pub state: CellState<T>,
    pub segment: CacheSegment,
    pub bytes: usize,
}

/// What a cache counts.
#[derive(Clone, Copy, Debug, PartialEq, Eq, Structural)]
pub struct CacheCounters {
    pub hits: u64,
    pub misses: u64,
    pub waits: u64,
    pub loads: u64,
    pub promotions: u64,
    pub evictions: u64,
    pub bypasses: u64,
    pub negative_hits: u64,
    pub transient_failures: u64,
    /// The entries of all the caches that count here.
    pub live_entries: usize,
    pub live_bytes: usize,
    pub peak_entries: usize,
    pub peak_bytes: usize,
}

/// The higher of two numbers.
pub open spec fn higher(one: int, other: int) -> int {
    if one < other {
        other
    } else {
        one
    }
}

/// The peaks are the same.
pub open spec fn same_peaks(one: CacheCounters, other: CacheCounters) -> bool {
    one.peak_entries == other.peak_entries && one.peak_bytes == other.peak_bytes
}

/// The peaks have heard of what is live now, and of nothing else since.
pub open spec fn peaks_heard(counts: CacheCounters, counted: CacheCounters) -> bool {
    &&& counts.peak_entries == higher(counted.peak_entries as int, counts.live_entries as int)
    &&& counts.peak_bytes == higher(counted.peak_bytes as int, counts.live_bytes as int)
}

/// One more, as far as the counter goes.
pub open spec fn incremented(counter: u64) -> u64 {
    if counter == u64::MAX {
        counter
    } else {
        (counter + 1) as u64
    }
}

/// Counts one more.
pub fn saturating_increment(counter: u64) -> (r: u64)
    ensures
        r == incremented(counter),
{
    counter.saturating_add(1)
}

/// A counter after so many events. Counters do not wrap.
pub open spec fn raised_by(counter: u64, events: int) -> u64 {
    if counter + events > u64::MAX {
        u64::MAX
    } else {
        (counter + events) as u64
    }
}

/// One number for an object.
pub open spec fn cache_key(id: ObjectId) -> u64 {
    (id.0 * 65536 + id.1) as u64
}

/// Different objects have different numbers.
pub proof fn lemma_cache_key_injective(one: ObjectId, other: ObjectId)
    ensures
        cache_key(one) == cache_key(other) ==> one == other,
{
    assert(one.0 * 65536 + one.1 <= u64::MAX);
    assert(other.0 * 65536 + other.1 <= u64::MAX);
}

/// One number for an object.
pub(crate) fn key_of(id: ObjectId) -> (r: u64)
    ensures
        r == cache_key(id),
{
    id.0 as u64 * 65536 + id.1 as u64
}

/// A cache as a mathematical value.
pub struct CacheView<T> {
    pub entries: Map<u64, CacheEntry<T>>,
    pub probation: Seq<u64>,
    pub protected: Seq<u64>,
    pub max_bytes: usize,
    pub max_entries: usize,
    pub max_entry_bytes: usize,
    pub protected_percent: usize,
}

/// The bytes of the entries in a queue.
pub open spec fn queue_bytes<T>(entries: Map<u64, CacheEntry<T>>, queue: Seq<u64>) -> int
    decreases queue.len(),
{
    if queue.len() == 0 {
        0
    } else {
        queue_bytes(entries, queue.drop_last()) + entries[queue.last()].bytes
    }
}

proof fn lemma_bytes_nonnegative<T>(entries: Map<u64, CacheEntry<T>>, queue: Seq<u64>)
    ensures
        queue_bytes(entries, queue) >= 0,
    decreases queue.len(),
{
    if queue.len() > 0 {
        lemma_bytes_nonnegative(entries, queue.drop_last());
    }
}

proof fn lemma_bytes_push<T>(entries: Map<u64, CacheEntry<T>>, queue: Seq<u64>, key: u64)
    ensures
        queue_bytes(entries, queue.push(key)) == queue_bytes(entries, queue) + entries[key].bytes,
{
    assert(queue.push(key).drop_last() =~= queue);
}

proof fn lemma_bytes_remove<T>(entries: Map<u64, CacheEntry<T>>, queue: Seq<u64>, index: int)
    requires
        0 <= index < queue.len(),
    ensures
        queue_bytes(entries, queue.remove(index)) == queue_bytes(entries, queue) - entries[queue[index]].bytes,
    decreases queue.len(),
{
    let front = queue.drop_last();
    if index == queue.len() - 1 {
        assert(queue.remove(index) =~= front);
    } else {
        lemma_bytes_remove(entries, front, index);
        assert(queue.remove(index).drop_last() =~= front.remove(index));
        assert(queue.remove(index).last() == queue.last());
    }
}

proof fn lemma_bytes_same<T>(one: Map<u64, CacheEntry<T>>, other: Map<u64, CacheEntry<T>>, queue: Seq<u64>)
    requires
        forall|key: u64| #[trigger] queue.contains(key) ==> one[key].bytes == other[key].bytes,
    ensures
        queue_bytes(one, queue) == queue_bytes(other, queue),
    decreases queue.len(),
{
    if queue.len() > 0 {
        assert(queue.contains(queue.last()));
        assert forall|key: u64| #[trigger] queue.drop_last().contains(key) implies one[key].bytes
            == other[key].bytes by {
            let i = choose|i: int| 0 <= i < queue.drop_last().len() && queue.drop_last()[i] == key;
            assert(queue[i] == key);
            assert(queue.contains(key));
        }
        lemma_bytes_same(one, other, queue.drop_last());
    }
}

/// The entries that are not there yet.
pub open spec fn loading_keys<T>(entries: Map<u64, CacheEntry<T>>) -> Set<u64> {
    entries.dom().filter(|key: u64| entries[key].state is Loading)
}

/// The queue holds exactly the entries of the segment, each once.
pub open spec fn queue_fits<T>(entries: Map<u64, CacheEntry<T>>, queue: Seq<u64>, segment: CacheSegment) -> bool {
    &&& queue.no_duplicates()
    &&& forall|key: u64|
        #[trigger] queue.contains(key) <==> entries.contains_key(key) && entries[key].segment == segment
}

impl<T> CacheView<T> {
    /// The bytes of all the entries.
    pub open spec fn bytes(self) -> int {
        queue_bytes(self.entries, self.probation) + queue_bytes(self.entries, self.protected)
    }

    /// Every entry stands in its queue, once, and the limits are kept. An entry
    /// that is not there yet has no bytes.
    pub open spec fn well_formed(self) -> bool {
        &&& self.entries.dom().finite()
        &&& queue_fits(self.entries, self.probation, CacheSegment::Probation)
        &&& queue_fits(self.entries, self.protected, CacheSegment::Protected)
        &&& self.bytes() <= self.max_bytes
        &&& self.entries.len() <= self.max_entries
        &&& forall|key: u64|
            #[trigger] self.entries.contains_key(key) && self.entries[key].state is Loading
                ==> self.entries[key].bytes == 0
    }

    /// The cache has the same limits.
    pub open spec fn same_limits(self, other: Self) -> bool {
        &&& self.max_bytes == other.max_bytes
        &&& self.max_entries == other.max_entries
        &&& self.max_entry_bytes == other.max_entry_bytes
        &&& self.protected_percent == other.protected_percent
    }

    /// Some entries have left the cache, none that were being loaded; the others
    /// are as they were.
    pub open spec fn shrunk_from(self, other: Self) -> bool {
        &&& self.same_limits(other)
        &&& self.entries.submap_of(other.entries)
        &&& forall|key: u64|
            #[trigger] other.entries.contains_key(key) && other.entries[key].state is Loading
                ==> self.entries.contains_key(key)
    }

    /// The most bytes that protected entries may take.
    pub open spec fn protected_byte_cap(self) -> int {
        share(self.max_bytes, self.protected_percent)
    }

    /// The most entries that may be protected.
    pub open spec fn protected_entry_cap(self) -> int {
        share(self.max_entries, self.protected_percent)
    }

    /// The cache after its oldest protected entry has gone back on probation.
    pub open spec fn demote_one(self) -> Self {
        let key = self.protected[0];
        CacheView {
            entries: self.entries.insert(
                key,
                CacheEntry { segment: CacheSegment::Probation, ..self.entries[key] },
            ),
            probation: self.probation.push(key),
            protected: self.protected.skip(1),
            ..self
        }
    }

    /// The cache after protected entries have gone back on probation, the oldest
    /// first, until those left keep to their share.
    pub open spec fn demoted(self) -> Self
        decreases self.protected.len(),
    {
        if self.protected.len() > 0 && (queue_bytes(self.entries, self.protected) > self.protected_byte_cap()
            || self.protected.len() > self.protected_entry_cap()) {
            self.demote_one().demoted()
        } else {
            self
        }
    }

    /// The cache before entries leave to make the segments keep to their shares.
    pub open spec fn trimmed(self, trims: bool) -> Self {
        if trims {
            self.demoted()
        } else {
            self
        }
    }

    /// The cache after an entry on probation has become protected.
    pub open spec fn promote(self, key: u64) -> Self {
        CacheView {
            entries: self.entries.insert(
                key,
                CacheEntry { segment: CacheSegment::Protected, ..self.entries[key] },
            ),
            probation: without_key(self.probation, key),
            protected: self.protected.push(key),
            ..self
        }
    }

    /// The cache after an entry has been used. Protected entries do not move.
    pub open spec fn touched(self, key: u64) -> Self {
        if self.entries[key].segment == CacheSegment::Protected {
            self
        } else {
            self.promote(key).demoted()
        }
    }

    /// The cache without an entry.
    pub open spec fn removed(self, key: u64) -> Self {
        CacheView {
            entries: self.entries.remove(key),
            probation: without_key(self.probation, key),
            protected: without_key(self.protected, key),
            ..self
        }
    }

    /// The entry that an eviction looks at first.
    pub open spec fn oldest(self) -> u64 {
        if self.probation.len() > 0 {
            self.probation[0]
        } else {
            self.protected[0]
        }
    }

    /// The cache after the entry that an eviction looks at first has gone to the
    /// end of its queue.
    pub open spec fn rotated(self) -> Self {
        if self.probation.len() > 0 {
            CacheView { probation: self.probation.skip(1).push(self.probation[0]), ..self }
        } else {
            CacheView { protected: self.protected.skip(1).push(self.protected[0]), ..self }
        }
    }

    /// The cache after an eviction has gone through the entries that have waited
    /// longest, one after the other: each has left, or has gone to the end of its
    /// queue.
    pub open spec fn swept(self, steps: Seq<bool>) -> Self
        decreases steps.len(),
    {
        if steps.len() == 0 {
            self
        } else {
            let earlier = self.swept(steps.drop_last());
            if steps.last() {
                earlier.removed(earlier.oldest())
            } else {
                earlier.rotated()
            }
        }
    }

    /// The most bytes that the counters hear of while an eviction goes like this:
    /// they hear each time an entry has left, and else when all is done.
    pub open spec fn told(self, steps: Seq<bool>) -> int
        decreases steps.len(),
    {
        if steps.len() == 0 {
            self.bytes()
        } else if self.swept(steps.drop_last()).entries.len() < self.entries.len() {
            self.told(steps.drop_last())
        } else {
            self.swept(steps).bytes()
        }
    }

    /// An eviction that spares `keep` may go like this: only what is there and is
    /// held by no others leaves, and only what is not there or is held stays.
    pub open spec fn may_sweep(self, keep: Option<u64>, steps: Seq<bool>) -> bool
        decreases steps.len(),
    {
        steps.len() > 0 ==> {
            let earlier = self.swept(steps.drop_last());
            let key = earlier.oldest();
            &&& self.may_sweep(keep, steps.drop_last())
            &&& earlier.entries.contains_key(key)
            &&& if steps.last() {
                keep != Some(key) && leaves(earlier.entries[key].state)
            } else {
                keep == Some(key) || stays(earlier.entries[key].state)
            }
        }
    }

    /// How many entries one eviction looks at, at most.
    pub open spec fn scanned(self) -> int {
        if self.entries.len() < MAX_PINNED_EVICTION_SCAN {
            self.entries.len() as int
        } else {
            MAX_PINNED_EVICTION_SCAN as int
        }
    }

    /// There was no room for `bytes` more at any of the steps.
    pub open spec fn crowded(self, steps: Seq<bool>, bytes: usize) -> bool {
        forall|k: int|
            0 <= k < steps.len() ==> #[trigger] self.swept(steps.take(k)).bytes() + bytes > self.max_bytes
    }

    /// The entries, or those on probation, take more than their share.
    pub open spec fn overfull(self) -> bool {
        ||| self.entries.len() > self.max_entries
        ||| self.bytes() > self.max_bytes
        ||| queue_bytes(self.entries, self.probation) > rest_of(self.max_bytes, self.protected_percent)
        ||| self.probation.len() > rest_of(self.max_entries, self.protected_percent)
    }

    /// The entries took more than their share at each of the steps.
    pub open spec fn overfull_at(self, steps: Seq<bool>) -> bool {
        forall|k: int| 0 <= k < steps.len() ==> (#[trigger] self.swept(steps.take(k))).overfull()
    }

    /// How many entries in a row may turn out to stay before the search for others
    /// is given up.
    pub open spec fn patience(self) -> int {
        if self.probation.len() < 1 {
            1
        } else if self.probation.len() > MAX_PINNED_EVICTION_SCAN {
            MAX_PINNED_EVICTION_SCAN as int
        } else {
            self.probation.len() as int
        }
    }

    /// The cache with a new entry, on probation and not there yet.
    pub open spec fn started(self, key: u64, ticket: u64) -> Self {
        CacheView {
            entries: self.entries.insert(
                key,
                CacheEntry { ticket, state: CellState::Loading, segment: CacheSegment::Probation, bytes: 0 },
            ),
            probation: self.probation.push(key),
            ..self
        }
    }

    /// The cache after what was being loaded is there.
    pub open spec fn finished(self, key: u64, result: SharedCellResult<T>, bytes: usize) -> Self {
        CacheView {
            entries: self.entries.insert(
                key,
                CacheEntry { state: CellState::Ready(result), bytes, ..self.entries[key] },
            ),
            ..self
        }
    }

    /// The entry is being loaded under this ticket.
    pub open spec fn is_loading(self, key: u64, ticket: u64) -> bool {
        self.entries.contains_key(key) && self.entries[key].ticket == ticket && self.entries[key].state is Loading
    }
}

/// The value, asked for its holders, may answer with this many.
pub closed spec fn may_count<T>(value: Arc<T>, count: usize) -> bool {
    call_ensures(holders::<T>, (&value,), count)
}

/// An entry in this state may turn out to stay: it is not there yet, or others are
/// counted that hold what it gave.
pub open spec fn stays<T>(state: CellState<T>) -> bool {
    match state {
        CellState::Loading => true,
        CellState::Ready(Ok(value)) => exists|count: usize| #[trigger]
            may_count(value, count) && !can_leave(state, count),
        CellState::Ready(Err(_)) => false,
    }
}

/// An entry in this state may turn out to leave: it is there, and no others are
/// counted that hold what it gave.
pub open spec fn leaves<T>(state: CellState<T>) -> bool {
    match state {
        CellState::Loading => false,
        CellState::Ready(Ok(value)) => exists|count: usize| #[trigger]
            may_count(value, count) && can_leave(state, count),
        CellState::Ready(Err(_)) => true,
    }
}

/// None of the last `count` steps lets an entry leave.
pub open spec fn none_leave(steps: Seq<bool>, count: int) -> bool {
    &&& steps.len() >= count
    &&& forall|i: int| steps.len() - count <= i < steps.len() ==> !#[trigger] steps[i]
}

/// The last step, within `count`, lets an entry leave, and no other does.
pub open spec fn one_leaves(steps: Seq<bool>, count: int) -> bool {
    &&& 0 < steps.len() <= count
    &&& steps.last()
    &&& none_leave(steps.drop_last(), steps.len() - 1)
}

/// What a share of a total leaves of it.
pub open spec fn rest_of(total: usize, percent: usize) -> int {
    if share(total, percent) < total {
        total - share(total, percent)
    } else {
        0
    }
}

/// A share of a total.
pub open spec fn share(total: usize, percent: usize) -> int {
    (if total * percent > usize::MAX {
        usize::MAX as int
    } else {
        total * percent
    }) / 100
}

pub(crate) fn share_of(total: usize, percent: usize) -> (r: usize)
    ensures
        r == share(total, percent),
{
    match total.checked_mul(percent) {
        Some(product) => product / 100,
        None => usize::MAX / 100,
    }
}

/// Where a key stands in a queue, or the queue's length.
pub open spec fn key_position(queue: Seq<u64>, key: u64, from: int) -> int
    decreases queue.len() - from,
{
    if from >= queue.len() || queue[from] == key {
        from
    } else {
        key_position(queue, key, from + 1)
    }
}

/// A queue without the first occurrence of a key.
pub open spec fn without_key(queue: Seq<u64>, key: u64) -> Seq<u64> {
    let position = key_position(queue, key, 0);
    if position < queue.len() {
        queue.remove(position)
    } else {
        queue
    }
}

proof fn lemma_key_position(queue: Seq<u64>, key: u64, from: int)
    requires
        0 <= from <= queue.len(),
    ensures
        from <= key_position(queue, key, from) <= queue.len(),
        key_position(queue, key, from) < queue.len() ==> queue[key_position(queue, key, from)] == key,
        forall|i: int| from <= i < key_position(queue, key, from) ==> queue[i] != key,
    decreases queue.len() - from,
{
    if from < queue.len() && queue[from] != key {
        lemma_key_position(queue, key, from + 1);
    }
}

/// Taking a key out of a queue that holds it once.
proof fn lemma_without_key(queue: Seq<u64>, key: u64)
    requires
        queue.no_duplicates(),
    ensures
        without_key(queue, key).no_duplicates(),
        forall|other: u64|
            #[trigger] without_key(queue, key).contains(other) <==> queue.contains(other) && other != key,
        !queue.contains(key) ==> without_key(queue, key) == queue,
{
    lemma_key_position(queue, key, 0);
    let position = key_position(queue, key, 0);
    let after = without_key(queue, key);
    if position < queue.len() {
        assert(queue.contains(key));
        assert forall|other: u64| #[trigger] after.contains(other) <==> queue.contains(other) && other != key by {
            if after.contains(other) {
                let i = choose|i: int| 0 <= i < after.len() && after[i] == other;
                if i < position {
                    assert(queue[i] == other);
                } else {
                    assert(queue[i + 1] == other);
                }
            }
            if queue.contains(other) && other != key {
                let i = choose|i: int| 0 <= i < queue.len() && queue[i] == other;
                if i < position {
                    assert(after[i] == other);
                } else {
                    assert(after[i - 1] == other);
                }
            }
        }
    } else {
        assert(!queue.contains(key));
    }
}

proof fn lemma_bytes_without_key<T>(entries: Map<u64, CacheEntry<T>>, queue: Seq<u64>, key: u64)
    ensures
        queue_bytes(entries, without_key(queue, key)) == queue_bytes(entries, queue) - (if queue.contains(key) {
            entries[key].bytes as int
        } else {
            0int
        }),
{
    lemma_key_position(queue, key, 0);
    let position = key_position(queue, key, 0);
    if position < queue.len() {
        lemma_bytes_remove(entries, queue, position);
        assert(queue.contains(key));
    }
}

/// Takes the first occurrence of a key out of a queue.
pub fn remove_key(queue: &mut VecDeque<u64>, key: u64)
    ensures
        final(queue)@ == without_key(old(queue)@, key),
{
    let length: usize = queue.len();
    let mut position: usize = 0;
    while position < length
        invariant
            position <= length == queue@.len(),
            queue@ == old(queue)@,
            key_position(queue@, key, 0) == key_position(queue@, key, position as int),
        decreases length - position,
    {
        if queue[position] == key {
            queue.remove(position);
            return;
        }
        position += 1;
    }
}

/// Calls `Arc::strong_count`: how many handles on the value there are. Others
/// come and go at any time, so nothing is claimed of the number.
#[verifier::external_body]
fn holders<T>(value: &Arc<T>) -> (r: usize) {
    Arc::strong_count(value)
}

/// An entry can leave the cache: not while it is being loaded, nor while others
/// than the cache hold what it gave.
pub open spec fn can_leave<T>(state: CellState<T>, holders: usize) -> bool {
    match state {
        CellState::Loading => false,
        CellState::Ready(Ok(_)) => holders == 1,
        CellState::Ready(Err(_)) => true,
    }
}

/// Reports whether an entry can leave the cache, when its value has this many holders.
pub fn entry_is_evictable<T>(state: &CellState<T>, holders: usize) -> (r: bool)
    ensures
        r == can_leave(*state, holders),
{
    match state {
        CellState::Loading => false,
        CellState::Ready(Ok(_)) => holders == 1,
        CellState::Ready(Err(_)) => true,
    }
}

/// Two queues that share no key hold as many keys as there are entries.
proof fn lemma_queue_lengths<T>(view: CacheView<T>)
    requires
        view.well_formed(),
    ensures
        view.probation.len() + view.protected.len() == view.entries.len(),
{
    let probation = view.probation.to_set();
    let protected = view.protected.to_set();
    view.probation.unique_seq_to_set();
    view.protected.unique_seq_to_set();
    vstd::seq_lib::seq_to_set_is_finite(view.probation);
    vstd::seq_lib::seq_to_set_is_finite(view.protected);
    assert forall|key: u64| !(probation.contains(key) && protected.contains(key)) by {
        assert(view.probation.contains(key) <==> probation.contains(key));
        assert(view.protected.contains(key) <==> protected.contains(key));
    }
    assert(probation.disjoint(protected));
    assert(probation.union(protected) =~= view.entries.dom()) by {
        assert forall|key: u64| probation.union(protected).contains(key) == view.entries.dom().contains(key) by {
            assert(view.probation.contains(key) <==> probation.contains(key));
            assert(view.protected.contains(key) <==> protected.contains(key));
        }
    }
    vstd::set_lib::lemma_set_disjoint_lens(probation, protected);
}

/// Giving one key of a queue another segment in the map keeps the bytes of queues.
proof fn lemma_demote_one<T>(view: CacheView<T>)
    requires
        view.well_formed(),
        view.protected.len() > 0,
    ensures
        view.demote_one().well_formed(),
        view.demote_one().entries.dom() == view.entries.dom(),
        queue_bytes(view.demote_one().entries, view.demote_one().protected) == queue_bytes(
            view.entries,
            view.protected,
        ) - view.entries[view.protected[0]].bytes,
        queue_bytes(view.demote_one().entries, view.demote_one().probation) == queue_bytes(
            view.entries,
            view.probation,
        ) + view.entries[view.protected[0]].bytes,
        loading_keys(view.demote_one().entries) == loading_keys(view.entries),
{
    let key = view.protected[0];
    let next = view.demote_one();
    assert(view.protected.contains(key));
    assert(!view.probation.contains(key));
    assert(next.entries.dom() =~= view.entries.dom());
    assert(view.protected.skip(1) =~= view.protected.remove(0));
    lemma_bytes_remove(view.entries, view.protected, 0);
    lemma_bytes_push(next.entries, view.probation, key);
    lemma_bytes_same(view.entries, next.entries, view.probation);
    lemma_bytes_same(view.entries, next.entries, next.protected);
    lemma_key_position(view.protected, key, 0);
    assert(without_key(view.protected, key) =~= next.protected);
    lemma_without_key(view.protected, key);
    assert forall|other: u64| #[trigger] next.probation.contains(other) <==> next.entries.contains_key(other)
        && next.entries[other].segment == CacheSegment::Probation by {
        lemma_push_holds(view.probation, key, other);
        assert(view.probation.contains(other) <==> view.entries.contains_key(other) && view.entries[other].segment
            == CacheSegment::Probation);
    }
    assert forall|other: u64| #[trigger] next.protected.contains(other) <==> next.entries.contains_key(other)
        && next.entries[other].segment == CacheSegment::Protected by {
        assert(view.protected.contains(other) <==> view.entries.contains_key(other) && view.entries[other].segment
            == CacheSegment::Protected);
    }
    assert(loading_keys(next.entries) =~= loading_keys(view.entries));
}

proof fn lemma_push_holds(queue: Seq<u64>, key: u64, other: u64)
    ensures
        queue.push(key).contains(other) <==> queue.contains(other) || other == key,
{
    if queue.contains(other) {
        let i = choose|i: int| 0 <= i < queue.len() && queue[i] == other;
        assert(queue.push(key)[i] == other);
    }
    if other == key {
        assert(queue.push(key)[queue.len() as int] == other);
    }
    if queue.push(key).contains(other) && other != key {
        let i = choose|i: int| 0 <= i < queue.push(key).len() && queue.push(key)[i] == other;
        assert(queue[i] == other);
    }
}

/// Demoting keeps the entries, but for where they stand.
proof fn lemma_demoted<T>(view: CacheView<T>)
    requires
        view.well_formed(),
    ensures
        view.demoted().well_formed(),
        view.demoted().same_limits(view),
        view.demoted().entries.dom() == view.entries.dom(),
        view.demoted().bytes() == view.bytes(),
        loading_keys(view.demoted().entries) == loading_keys(view.entries),
        same_contents(view.demoted().entries, view.entries),
    decreases view.protected.len(),
{
    if view.protected.len() > 0 && (queue_bytes(view.entries, view.protected) > view.protected_byte_cap()
        || view.protected.len() > view.protected_entry_cap()) {
        lemma_demote_one(view);
        lemma_demoted(view.demote_one());
    }
}

/// The entries are the same, but for where they stand.
pub open spec fn same_contents<T>(one: Map<u64, CacheEntry<T>>, other: Map<u64, CacheEntry<T>>) -> bool {
    &&& one.dom() == other.dom()
    &&& forall|key: u64|
        #[trigger] one.contains_key(key) ==> one[key].ticket == other[key].ticket && one[key].state
            == other[key].state && one[key].bytes == other[key].bytes
}

/// Using an entry changes nothing but where entries stand.
pub(crate) proof fn lemma_touched<T>(view: CacheView<T>, key: u64)
    requires
        view.well_formed(),
        view.entries.contains_key(key),
    ensures
        same_contents(view.touched(key).entries, view.entries),
{
    if view.entries[key].segment == CacheSegment::Probation {
        lemma_promote(view, key);
        lemma_demoted(view.promote(key));
        assert(view.touched(key).entries.dom() =~= view.entries.dom());
        assert forall|other: u64| #[trigger] view.touched(key).entries.contains_key(other) implies view.touched(
            key,
        ).entries[other].ticket == view.entries[other].ticket && view.touched(key).entries[other].state
            == view.entries[other].state && view.touched(key).entries[other].bytes == view.entries[other].bytes by {
            assert(view.promote(key).entries.contains_key(other));
        }
    }
}

proof fn lemma_promote<T>(view: CacheView<T>, key: u64)
    requires
        view.well_formed(),
        view.entries.contains_key(key),
        view.entries[key].segment == CacheSegment::Probation,
    ensures
        view.promote(key).well_formed(),
        view.promote(key).bytes() == view.bytes(),
        queue_bytes(view.promote(key).entries, view.promote(key).probation) == queue_bytes(
            view.entries,
            view.probation,
        ) - view.entries[key].bytes,
        queue_bytes(view.promote(key).entries, view.promote(key).protected) == queue_bytes(
            view.entries,
            view.protected,
        ) + view.entries[key].bytes,
        loading_keys(view.promote(key).entries) == loading_keys(view.entries),
        same_contents(view.promote(key).entries, view.entries),
{
    let next = view.promote(key);
    assert(view.probation.contains(key));
    assert(!view.protected.contains(key));
    assert(next.entries.dom() =~= view.entries.dom());
    lemma_without_key(view.probation, key);
    lemma_bytes_without_key(view.entries, view.probation, key);
    lemma_bytes_same(view.entries, next.entries, next.probation);
    lemma_bytes_same(view.entries, next.entries, view.protected);
    lemma_bytes_push(next.entries, view.protected, key);
    assert forall|other: u64| #[trigger] next.probation.contains(other) <==> next.entries.contains_key(other)
        && next.entries[other].segment == CacheSegment::Probation by {
        assert(view.probation.contains(other) <==> view.entries.contains_key(other) && view.entries[other].segment
            == CacheSegment::Probation);
    }
    assert forall|other: u64| #[trigger] next.protected.contains(other) <==> next.entries.contains_key(other)
        && next.entries[other].segment == CacheSegment::Protected by {
        lemma_push_holds(view.protected, key, other);
        assert(view.protected.contains(other) <==> view.entries.contains_key(other) && view.entries[other].segment
            == CacheSegment::Protected);
    }
    assert(loading_keys(next.entries) =~= loading_keys(view.entries));
}

proof fn lemma_removed<T>(view: CacheView<T>, key: u64)
    requires
        view.well_formed(),
        view.entries.contains_key(key),
    ensures
        view.removed(key).well_formed(),
        view.removed(key).entries.len() == view.entries.len() - 1,
        queue_bytes(view.removed(key).entries, view.removed(key).probation) == queue_bytes(
            view.entries,
            view.probation,
        ) - (if view.entries[key].segment == CacheSegment::Probation {
            view.entries[key].bytes as int
        } else {
            0int
        }),
        queue_bytes(view.removed(key).entries, view.removed(key).protected) == queue_bytes(
            view.entries,
            view.protected,
        ) - (if view.entries[key].segment == CacheSegment::Protected {
            view.entries[key].bytes as int
        } else {
            0int
        }),
        view.removed(key).bytes() == view.bytes() - view.entries[key].bytes,
        loading_keys(view.removed(key).entries) == loading_keys(view.entries).remove(key),
{
    let next = view.removed(key);
    assert(view.probation.contains(key) <==> view.entries[key].segment == CacheSegment::Probation);
    assert(view.protected.contains(key) <==> view.entries[key].segment == CacheSegment::Protected);
    lemma_without_key(view.probation, key);
    lemma_without_key(view.protected, key);
    lemma_bytes_without_key(view.entries, view.probation, key);
    lemma_bytes_without_key(view.entries, view.protected, key);
    lemma_bytes_same(view.entries, next.entries, next.probation);
    lemma_bytes_same(view.entries, next.entries, next.protected);
    assert(next.entries.dom() =~= view.entries.dom().remove(key));
    assert forall|other: u64| #[trigger] next.probation.contains(other) <==> next.entries.contains_key(other)
        && next.entries[other].segment == CacheSegment::Probation by {
        assert(view.probation.contains(other) <==> view.entries.contains_key(other) && view.entries[other].segment
            == CacheSegment::Probation);
    }
    assert forall|other: u64| #[trigger] next.protected.contains(other) <==> next.entries.contains_key(other)
        && next.entries[other].segment == CacheSegment::Protected by {
        assert(view.protected.contains(other) <==> view.entries.contains_key(other) && view.entries[other].segment
            == CacheSegment::Protected);
    }
    assert(loading_keys(next.entries) =~= loading_keys(view.entries).remove(key));
}

proof fn lemma_rotate_queue<T>(entries: Map<u64, CacheEntry<T>>, queue: Seq<u64>, segment: CacheSegment)
    requires
        queue_fits(entries, queue, segment),
        queue.len() > 0,
    ensures
        queue_fits(entries, queue.skip(1).push(queue[0]), segment),
        queue_bytes(entries, queue.skip(1).push(queue[0])) == queue_bytes(entries, queue),
{
    let key = queue[0];
    let rest = queue.skip(1);
    assert(rest =~= queue.remove(0));
    lemma_bytes_remove(entries, queue, 0);
    lemma_bytes_push(entries, rest, key);
    lemma_key_position(queue, key, 0);
    assert(without_key(queue, key) =~= rest);
    lemma_without_key(queue, key);
    assert(queue.contains(key));
    assert forall|other: u64| #[trigger] rest.push(key).contains(other) <==> entries.contains_key(other)
        && entries[other].segment == segment by {
        lemma_push_holds(rest, key, other);
        assert(queue.contains(other) <==> entries.contains_key(other) && entries[other].segment == segment);
    }
}

proof fn lemma_started<T>(view: CacheView<T>, key: u64, ticket: u64)
    requires
        view.well_formed(),
        !view.entries.contains_key(key),
        view.entries.len() < view.max_entries,
    ensures
        view.started(key, ticket).well_formed(),
        view.started(key, ticket).entries.len() == view.entries.len() + 1,
        view.started(key, ticket).bytes() == view.bytes(),
        queue_bytes(view.started(key, ticket).entries, view.started(key, ticket).probation) == queue_bytes(
            view.entries,
            view.probation,
        ),
        queue_bytes(view.started(key, ticket).entries, view.protected) == queue_bytes(view.entries, view.protected),
        loading_keys(view.started(key, ticket).entries) == loading_keys(view.entries).insert(key),
{
    let next = view.started(key, ticket);
    assert(!view.probation.contains(key));
    assert(!view.protected.contains(key));
    lemma_bytes_same(view.entries, next.entries, view.probation);
    lemma_bytes_same(view.entries, next.entries, view.protected);
    lemma_bytes_push(next.entries, view.probation, key);
    assert(next.entries.dom() =~= view.entries.dom().insert(key));
    assert forall|other: u64| #[trigger] next.probation.contains(other) <==> next.entries.contains_key(other)
        && next.entries[other].segment == CacheSegment::Probation by {
        lemma_push_holds(view.probation, key, other);
        assert(view.probation.contains(other) <==> view.entries.contains_key(other) && view.entries[other].segment
            == CacheSegment::Probation);
    }
    assert forall|other: u64| #[trigger] next.protected.contains(other) <==> next.entries.contains_key(other)
        && next.entries[other].segment == CacheSegment::Protected by {
        assert(view.protected.contains(other) <==> view.entries.contains_key(other) && view.entries[other].segment
            == CacheSegment::Protected);
    }
    assert(loading_keys(next.entries) =~= loading_keys(view.entries).insert(key));
}

/// Changing what an entry holds changes the bytes of its queue by the difference.
proof fn lemma_queue_bytes_insert<T>(
    entries: Map<u64, CacheEntry<T>>,
    queue: Seq<u64>,
    key: u64,
    entry: CacheEntry<T>,
)
    requires
        queue.no_duplicates(),
    ensures
        queue_bytes(entries.insert(key, entry), queue) == queue_bytes(entries, queue) + (if queue.contains(key) {
            entry.bytes - entries[key].bytes
        } else {
            0int
        }),
{
    let after = entries.insert(key, entry);
    lemma_without_key(queue, key);
    lemma_bytes_without_key(entries, queue, key);
    lemma_bytes_without_key(after, queue, key);
    lemma_bytes_same(entries, after, without_key(queue, key));
}

proof fn lemma_finished<T>(view: CacheView<T>, key: u64, result: SharedCellResult<T>, bytes: usize)
    requires
        view.well_formed(),
        view.entries.contains_key(key),
        view.entries[key].state is Loading,
        view.bytes() + bytes <= view.max_bytes,
    ensures
        view.finished(key, result, bytes).well_formed(),
        view.finished(key, result, bytes).bytes() == view.bytes() + bytes,
        queue_bytes(view.finished(key, result, bytes).entries, view.probation) == queue_bytes(
            view.entries,
            view.probation,
        ) + (if view.entries[key].segment == CacheSegment::Probation {
            bytes as int
        } else {
            0int
        }),
        queue_bytes(view.finished(key, result, bytes).entries, view.protected) == queue_bytes(
            view.entries,
            view.protected,
        ) + (if view.entries[key].segment == CacheSegment::Protected {
            bytes as int
        } else {
            0int
        }),
        view.finished(key, result, bytes).entries.dom() == view.entries.dom(),
        loading_keys(view.finished(key, result, bytes).entries) == loading_keys(view.entries).remove(key),
{
    let next = view.finished(key, result, bytes);
    let entry = next.entries[key];
    assert(view.entries[key].bytes == 0);
    assert(view.probation.contains(key) <==> view.entries[key].segment == CacheSegment::Probation);
    assert(view.protected.contains(key) <==> view.entries[key].segment == CacheSegment::Protected);
    lemma_queue_bytes_insert(view.entries, view.probation, key, entry);
    lemma_queue_bytes_insert(view.entries, view.protected, key, entry);
    assert(next.entries.dom() =~= view.entries.dom());
    assert forall|other: u64| #[trigger] next.probation.contains(other) <==> next.entries.contains_key(other)
        && next.entries[other].segment == CacheSegment::Probation by {
        assert(view.probation.contains(other) <==> view.entries.contains_key(other) && view.entries[other].segment
            == CacheSegment::Probation);
    }
    assert forall|other: u64| #[trigger] next.protected.contains(other) <==> next.entries.contains_key(other)
        && next.entries[other].segment == CacheSegment::Protected by {
        assert(view.protected.contains(other) <==> view.entries.contains_key(other) && view.entries[other].segment
            == CacheSegment::Protected);
    }
    assert(loading_keys(next.entries) =~= loading_keys(view.entries).remove(key));
}

/// A bounded cache whose entries are loaded once.
pub struct SharedCache<T> {
    entries: BTreeMap<u64, CacheEntry<T>>,
    probation: VecDeque<u64>,
    protected: VecDeque<u64>,
    probation_bytes: usize,
    protected_bytes: usize,
    loading_entries: usize,
    /// What the counters last heard of this cache.
    reported_entries: usize,
    reported_bytes: usize,
    next_ticket: u64,
    max_bytes: usize,
    max_entries: usize,
    max_entry_bytes: usize,
    protected_percent: usize,
}

/// What a caller that asks for an entry has to do.
pub enum Begin<T> {
    /// The entry is there.
    Hit(SharedCellResult<T>),
    /// Another caller is loading the entry, under this ticket.
    Wait(u64),
    /// Load the entry, and hand it in under this ticket.
    Load(u64),
    /// Load the entry for this call alone.
    Bypass,
}

/// What became of the entry that an eviction looked at.
#[derive(Clone, Copy, Debug, PartialEq, Eq, Structural)]
enum EvictionStep {
    Evicted,
    Pinned,
    Empty,
}

impl CacheCounters {
    /// Counters of an empty cache.
    pub fn new() -> (counters: Self)
        ensures
            counters == zero_counters(),
    {
        CacheCounters {
            hits: 0,
            misses: 0,
            waits: 0,
            loads: 0,
            promotions: 0,
            evictions: 0,
            bypasses: 0,
            negative_hits: 0,
            transient_failures: 0,
            live_entries: 0,
            live_bytes: 0,
            peak_entries: 0,
            peak_bytes: 0,
        }
    }
}

/// Counters of an empty cache.
pub open spec fn zero_counters() -> CacheCounters {
    CacheCounters {
        hits: 0,
        misses: 0,
        waits: 0,
        loads: 0,
        promotions: 0,
        evictions: 0,
        bypasses: 0,
        negative_hits: 0,
        transient_failures: 0,
        live_entries: 0,
        live_bytes: 0,
        peak_entries: 0,
        peak_bytes: 0,
    }
}

/// The counters count what the cache holds, with what others hold.
pub open spec fn accounted<T>(view: CacheView<T>, counters: CacheCounters) -> bool {
    &&& counters.live_entries >= view.entries.len()
    &&& counters.live_entries - view.entries.len() + view.max_entries <= usize::MAX
    &&& counters.live_bytes >= view.bytes()
    &&& counters.live_bytes - view.bytes() + view.max_bytes <= usize::MAX
    &&& counters.live_entries <= counters.peak_entries
    &&& counters.live_bytes <= counters.peak_bytes
}

/// The counters count for others what they counted before.
pub open spec fn others_kept<T>(
    before: CacheView<T>,
    counted: CacheCounters,
    after: CacheView<T>,
    counts: CacheCounters,
) -> bool {
    &&& counts.live_entries - after.entries.len() == counted.live_entries - before.entries.len()
    &&& counts.live_bytes - after.bytes() == counted.live_bytes - before.bytes()
    &&& counts.peak_entries >= counted.peak_entries
    &&& counts.peak_bytes >= counted.peak_bytes
}

impl<T> SharedCache<T> {
    pub closed spec fn view(&self) -> CacheView<T> {
        CacheView {
            entries: self.entries@,
            probation: self.probation@,
            protected: self.protected@,
            max_bytes: self.max_bytes,
            max_entries: self.max_entries,
            max_entry_bytes: self.max_entry_bytes,
            protected_percent: self.protected_percent,
        }
    }

    /// The running totals are those of the entries.
    spec fn totalled(&self) -> bool {
        &&& self@.well_formed()
        &&& self.probation_bytes == queue_bytes(self@.entries, self@.probation)
        &&& self.protected_bytes == queue_bytes(self@.entries, self@.protected)
    }

    /// What the counters last heard of this cache is still so.
    spec fn reported(&self) -> bool {
        &&& self.reported_entries == self@.entries.len()
        &&& self.reported_bytes == self@.bytes()
    }

    /// The counters count what they last heard of this cache, with what others hold.
    spec fn heard(&self, counters: CacheCounters) -> bool {
        &&& counters.live_entries >= self.reported_entries
        &&& counters.live_entries - self.reported_entries + self.max_entries <= usize::MAX
        &&& counters.live_bytes >= self.reported_bytes
        &&& counters.live_bytes - self.reported_bytes + self.max_bytes <= usize::MAX
        &&& counters.live_entries <= counters.peak_entries
        &&& counters.live_bytes <= counters.peak_bytes
    }

    /// The counters count for others what they counted before.
    spec fn others_heard(&self, counters: CacheCounters, before: Self, counted: CacheCounters) -> bool {
        &&& counters.live_entries - self.reported_entries == counted.live_entries - before.reported_entries
        &&& counters.live_bytes - self.reported_bytes == counted.live_bytes - before.reported_bytes
        &&& counters.peak_entries >= counted.peak_entries
        &&& counters.peak_bytes >= counted.peak_bytes
    }

    /// The cache is between two calls.
    pub closed spec fn well_formed(&self) -> bool {
        &&& self.totalled()
        &&& self.reported()
        &&& self.loading_entries == loading_keys(self@.entries).len()
    }

    /// The entries of a cache between two calls keep to its limits.
    pub proof fn law_cache_keeps_to_its_limits(&self)
        requires
            self.well_formed(),
        ensures
            self@.well_formed(),
            self@.bytes() <= self@.max_bytes,
            self@.entries.len() <= self@.max_entries,
    {
    }

    /// An empty cache with these limits.
    pub fn new(max_bytes: usize, max_entries: usize, max_entry_bytes: usize, protected_percent: usize) -> (cache: Self)
        ensures
            cache.well_formed(),
            cache@ == (CacheView::<T> {
                entries: Map::empty(),
                probation: Seq::empty(),
                protected: Seq::empty(),
                max_bytes,
                max_entries,
                max_entry_bytes,
                protected_percent,
            }),
    {
        let cache: SharedCache<T> = SharedCache {
            entries: BTreeMap::new(),
            probation: VecDeque::new(),
            protected: VecDeque::new(),
            probation_bytes: 0,
            protected_bytes: 0,
            loading_entries: 0,
            reported_entries: 0,
            reported_bytes: 0,
            next_ticket: 0,
            max_bytes,
            max_entries,
            max_entry_bytes,
            protected_percent,
        };
        proof {
            assert(cache@.entries =~= Map::empty());
            assert(cache@.probation =~= Seq::empty());
            assert(cache@.protected =~= Seq::empty());
            assert(loading_keys(cache@.entries) =~= Set::empty());
        }
        cache
    }

    /// Tells the counters what the cache holds.
    fn publish_residency(&mut self, counters: &mut CacheCounters)
        requires
            old(self).totalled(),
            old(self).heard(*old(counters)),
        ensures
            final(self)@ == old(self)@,
            final(self).totalled(),
            final(self).reported(),
            final(self).heard(*final(counters)),
            final(self).others_heard(*final(counters), *old(self), *old(counters)),
            peaks_heard(*final(counters), *old(counters)),
            final(self).loading_entries == old(self).loading_entries,
            final(self).next_ticket == old(self).next_ticket,
            *final(counters) == (CacheCounters {
                live_entries: final(counters).live_entries,
                live_bytes: final(counters).live_bytes,
                peak_entries: final(counters).peak_entries,
                peak_bytes: final(counters).peak_bytes,
                ..*old(counters)
            }),
    {
        proof {
            broadcast use vstd::std_specs::btree::group_btree_axioms;

        }
        let entries: usize = self.entries.len();
        let bytes: usize = self.probation_bytes + self.protected_bytes;
        counters.live_entries = counters.live_entries - self.reported_entries + entries;
        if counters.live_entries > counters.peak_entries {
            counters.peak_entries = counters.live_entries;
        }
        counters.live_bytes = counters.live_bytes - self.reported_bytes + bytes;
        if counters.live_bytes > counters.peak_bytes {
            counters.peak_bytes = counters.live_bytes;
        }
        self.reported_entries = entries;
        self.reported_bytes = bytes;
    }

    /// Takes an entry out of the cache.
    fn remove_entry(&mut self, key: u64, eviction: bool, counters: &mut CacheCounters)
        requires
            old(self).totalled(),
            old(self).heard(*old(counters)),
            old(self)@.entries.contains_key(key),
        ensures
            final(self)@ == old(self)@.removed(key),
            final(self).totalled(),
            final(self).reported(),
            final(self).heard(*final(counters)),
            final(self).others_heard(*final(counters), *old(self), *old(counters)),
            peaks_heard(*final(counters), *old(counters)),
            final(self).loading_entries == old(self).loading_entries,
            final(self).next_ticket == old(self).next_ticket,
            final(counters).evictions == (if eviction {
                incremented(old(counters).evictions)
            } else {
                old(counters).evictions
            }),
            same_counts(*final(counters), *old(counters)),
    {
        let ghost before = self@;
        proof {
            broadcast use vstd::std_specs::btree::group_btree_axioms;

            lemma_removed(before, key);
            lemma_bytes_nonnegative(before.removed(key).entries, before.removed(key).probation);
            lemma_bytes_nonnegative(before.removed(key).entries, before.removed(key).protected);
            assert(before.probation.contains(key) <==> before.entries[key].segment == CacheSegment::Probation);
            assert(before.protected.contains(key) <==> before.entries[key].segment == CacheSegment::Protected);
            lemma_without_key(before.probation, key);
            lemma_without_key(before.protected, key);
        }
        if let Some(entry) = self.entries.remove(&key) {
            match entry.segment {
                CacheSegment::Probation => {
                    remove_key(&mut self.probation, key);
                    self.probation_bytes = self.probation_bytes - entry.bytes;
                },
                CacheSegment::Protected => {
                    remove_key(&mut self.protected, key);
                    self.protected_bytes = self.protected_bytes - entry.bytes;
                },
            }
        }
        assert(self@ == before.removed(key));
        if eviction {
            counters.evictions = saturating_increment(counters.evictions);
        }
        self.publish_residency(counters);
    }
}

/// The counts of calls are the same, but for those of evictions.
pub open spec fn same_counts(one: CacheCounters, other: CacheCounters) -> bool {
    &&& one.hits == other.hits
    &&& one.misses == other.misses
    &&& one.waits == other.waits
    &&& one.loads == other.loads
    &&& one.promotions == other.promotions
    &&& one.bypasses == other.bypasses
    &&& one.negative_hits == other.negative_hits
    &&& one.transient_failures == other.transient_failures
}

impl<T> SharedCache<T> {
    /// Gives an entry another segment, in the map alone.
    fn set_segment(&mut self, key: u64, segment: CacheSegment) -> (bytes: usize)
        requires
            old(self).entries@.contains_key(key),
        ensures
            bytes == old(self).entries@[key].bytes,
            *final(self) == (SharedCache { entries: final(self).entries, ..*old(self) }),
            final(self).entries@ == old(self).entries@.insert(
                key,
                CacheEntry { segment, ..old(self).entries@[key] },
            ),
    {
        proof {
            broadcast use vstd::std_specs::btree::group_btree_axioms;

        }
        let mut bytes: usize = 0;
        if let Some(entry) = self.entries.remove(&key) {
            bytes = entry.bytes;
            self.entries.insert(
                key,
                CacheEntry { ticket: entry.ticket, state: entry.state, segment, bytes: entry.bytes },
            );
        }
        assert(self.entries@ =~= old(self).entries@.insert(key, CacheEntry { segment, ..old(self).entries@[key] }));
        bytes
    }

    /// Puts protected entries back on probation, the oldest first, until those
    /// left keep to their share.
    fn demote_protected(&mut self)
        requires
            old(self).totalled(),
        ensures
            final(self)@ == old(self)@.demoted(),
            final(self).totalled(),
            final(self).reported_entries == old(self).reported_entries,
            final(self).reported_bytes == old(self).reported_bytes,
            final(self).loading_entries == old(self).loading_entries,
            final(self).next_ticket == old(self).next_ticket,
    {
        let byte_cap: usize = share_of(self.max_bytes, self.protected_percent);
        let entry_cap: usize = share_of(self.max_entries, self.protected_percent);
        let ghost expected = self@.demoted();
        while self.protected_bytes > byte_cap || self.protected.len() > entry_cap
            invariant
                self.totalled(),
                self@.same_limits(old(self)@),
                byte_cap == self@.protected_byte_cap(),
                entry_cap == self@.protected_entry_cap(),
                expected == self@.demoted(),
                self.reported_entries == old(self).reported_entries,
                self.reported_bytes == old(self).reported_bytes,
                self.loading_entries == old(self).loading_entries,
                self.next_ticket == old(self).next_ticket,
            decreases self@.protected.len(),
        {
            let ghost before = self@;
            proof {
                assert(queue_bytes(before.entries, Seq::<u64>::empty()) == 0);
                if before.protected.len() == 0 {
                    assert(before.protected =~= Seq::<u64>::empty());
                    assert(false);
                }
                lemma_demote_one(before);
                assert(before.protected.contains(before.protected[0]));
                lemma_bytes_nonnegative(before.demote_one().entries, before.demote_one().protected);
                lemma_bytes_nonnegative(before.demote_one().entries, before.demote_one().probation);
            }
            if let Some(key) = self.protected.pop_front() {
                let bytes: usize = self.set_segment(key, CacheSegment::Probation);
                self.protected_bytes = self.protected_bytes - bytes;
                self.probation_bytes = self.probation_bytes + bytes;
                self.probation.push_back(key);
                assert(self@.protected =~= before.protected.skip(1));
                assert(self@ == before.demote_one());
            }
        }
    }

    /// Notes that an entry has been used.
    fn touch(&mut self, key: u64, counters: &mut CacheCounters)
        requires
            old(self).totalled(),
            old(self)@.entries.contains_key(key),
        ensures
            final(self)@ == old(self)@.touched(key),
            final(self).totalled(),
            final(self).reported_entries == old(self).reported_entries,
            final(self).reported_bytes == old(self).reported_bytes,
            final(self).loading_entries == old(self).loading_entries,
            final(self).next_ticket == old(self).next_ticket,
            *final(counters) == (CacheCounters {
                promotions: if old(self)@.entries[key].segment == CacheSegment::Probation {
                    incremented(old(counters).promotions)
                } else {
                    old(counters).promotions
                },
                ..*old(counters)
            }),
    {
        let segment: CacheSegment = match self.entries.get(&key) {
            Some(entry) => entry.segment,
            None => CacheSegment::Protected,
        };
        match segment {
            CacheSegment::Probation => {
                let ghost before = self@;
                proof {
                    lemma_promote(before, key);
                    lemma_bytes_nonnegative(before.promote(key).entries, before.promote(key).probation);
                    lemma_bytes_nonnegative(before.promote(key).entries, before.promote(key).protected);
                }
                remove_key(&mut self.probation, key);
                let bytes: usize = self.set_segment(key, CacheSegment::Protected);
                self.probation_bytes = self.probation_bytes - bytes;
                self.protected_bytes = self.protected_bytes + bytes;
                self.protected.push_back(key);
                assert(self@ == before.promote(key));
                counters.promotions = saturating_increment(counters.promotions);
                self.demote_protected();
            },
            // Protected entries leave in the order in which they came: using one
            // again does not move it.
            CacheSegment::Protected => {},
        }
    }

    /// Looks at the entry that has waited longest: lets it go if it can leave and
    /// is not `keep`, else sends it to the end of its queue.
    fn evict_oldest(&mut self, keep: Option<u64>, counters: &mut CacheCounters) -> (step: EvictionStep)
        requires
            old(self).totalled(),
            old(self).heard(*old(counters)),
        ensures
            final(self).totalled(),
            final(self).heard(*final(counters)),
            final(self).others_heard(*final(counters), *old(self), *old(counters)),
            final(self).loading_entries == old(self).loading_entries,
            final(self).next_ticket == old(self).next_ticket,
            old(self).reported() ==> final(self).reported(),
            match step {
                EvictionStep::Empty => {
                    &&& old(self)@.entries.len() == 0
                    &&& final(self)@ == old(self)@
                    &&& *final(counters) == *old(counters)
                },
                EvictionStep::Evicted => {
                    &&& old(self)@.entries.contains_key(old(self)@.oldest())
                    &&& leaves(old(self)@.entries[old(self)@.oldest()].state)
                    &&& keep != Some(old(self)@.oldest())
                    &&& final(self)@ == old(self)@.removed(old(self)@.oldest())
                    &&& final(self).reported()
                    &&& peaks_heard(*final(counters), *old(counters))
                    &&& final(counters).evictions == incremented(old(counters).evictions)
                    &&& same_counts(*final(counters), *old(counters))
                },
                EvictionStep::Pinned => {
                    &&& old(self)@.entries.contains_key(old(self)@.oldest())
                    &&& keep == Some(old(self)@.oldest()) || stays(old(self)@.entries[old(self)@.oldest()].state)
                    &&& old(self)@.entries.len() > 0
                    &&& final(self)@ == old(self)@.rotated()
                    &&& final(self)@.bytes() == old(self)@.bytes()
                    &&& *final(counters) == *old(counters)
                },
            },
    {
        let ghost before = self@;
        proof {
            lemma_queue_lengths(before);
        }
        let on_probation: bool = self.probation.len() > 0;
        if !on_probation && self.protected.len() == 0 {
            return EvictionStep::Empty;
        }
        let key: u64 = if on_probation {
            self.probation[0]
        } else {
            self.protected[0]
        };
        proof {
            if on_probation {
                assert(before.probation.contains(key));
            } else {
                assert(before.protected.contains(key));
            }
        }
        let kept: bool = match keep {
            Some(keep) => keep == key,
            None => false,
        };
        let evictable: bool = match self.entries.get(&key) {
            Some(entry) => {
                let count: usize = match &entry.state {
                    CellState::Ready(Ok(value)) => {
                        let count: usize = ask(holders::<T>, value);
                        assert(may_count(*value, count));
                        count
                    },
                    _ => 0,
                };
                !kept && entry_is_evictable(&entry.state, count)
            },
            None => false,
        };
        if evictable {
            self.remove_entry(key, true, counters);
            return EvictionStep::Evicted;
        }
        if on_probation {
            proof {
                lemma_rotate_queue(before.entries, before.probation, CacheSegment::Probation);
            }
            self.probation.pop_front();
            self.probation.push_back(key);
            assert(self@.probation =~= before.probation.skip(1).push(key));
        } else {
            proof {
                lemma_rotate_queue(before.entries, before.protected, CacheSegment::Protected);
            }
            self.protected.pop_front();
            self.protected.push_back(key);
            assert(self@.protected =~= before.protected.skip(1).push(key));
        }
        assert(self@ == before.rotated());
        EvictionStep::Pinned
    }

    /// Lets one entry go, if one of those that have waited longest can leave, and
    /// tells how it went through them.
    fn evict_one_ready(&mut self, counters: &mut CacheCounters) -> (r: (bool, Ghost<Seq<bool>>))
        requires
            old(self).totalled(),
            old(self).reported(),
            old(self).heard(*old(counters)),
        ensures
            final(self).totalled(),
            final(self).reported(),
            final(self).heard(*final(counters)),
            final(self).others_heard(*final(counters), *old(self), *old(counters)),
            final(self).loading_entries == old(self).loading_entries,
            final(self).next_ticket == old(self).next_ticket,
            final(self)@.shrunk_from(old(self)@),
            loading_keys(final(self)@.entries) == loading_keys(old(self)@.entries),
            old(self)@.may_sweep(None, r.1@),
            final(self)@ == old(self)@.swept(r.1@),
            forall|k: int|
                0 <= k < r.1@.len() ==> #[trigger] old(self)@.swept(r.1@.take(k)).bytes() == old(self)@.bytes(),
            r.0 ==> one_leaves(r.1@, old(self)@.scanned()) && final(self)@.entries.len() == old(self)@.entries.len()
                - 1 && final(self)@.bytes() <= old(self)@.bytes(),
            !r.0 ==> none_leave(r.1@, r.1@.len() as int) && r.1@.len() == old(self)@.scanned()
                && final(self)@.entries == old(self)@.entries && final(self)@.bytes() == old(self)@.bytes(),
            final(counters).evictions == raised_by(
                old(counters).evictions,
                old(self)@.entries.len() - final(self)@.entries.len(),
            ),
            same_counts(*final(counters), *old(counters)),
            same_peaks(*final(counters), *old(counters)),
    {
        let waiting: usize = self.entries.len();
        let candidates: usize = if waiting < MAX_PINNED_EVICTION_SCAN {
            waiting
        } else {
            MAX_PINNED_EVICTION_SCAN
        };
        let ghost mut steps: Seq<bool> = Seq::empty();
        let mut seen: usize = 0;
        while seen < candidates
            invariant
                seen <= candidates,
                candidates == old(self)@.scanned(),
                old(self).reported(),
                old(self).heard(*old(counters)),
                self.totalled(),
                self.reported(),
                self.heard(*counters),
                self.others_heard(*counters, *old(self), *old(counters)),
                self.loading_entries == old(self).loading_entries,
                self.next_ticket == old(self).next_ticket,
                self@.same_limits(old(self)@),
                self@.entries == old(self)@.entries,
                self@.bytes() == old(self)@.bytes(),
                same_counts(*counters, *old(counters)),
                same_peaks(*counters, *old(counters)),
                counters.evictions == old(counters).evictions,
                steps.len() == seen,
                none_leave(steps, seen as int),
                old(self)@.may_sweep(None, steps),
                self@ == old(self)@.swept(steps),
                forall|k: int|
                    0 <= k < steps.len() ==> #[trigger] old(self)@.swept(steps.take(k)).bytes() == old(self)@.bytes(),
            decreases candidates - seen,
        {
            let ghost before = self@;
            let ghost earlier = steps;
            let step = self.evict_oldest(None, counters);
            let evicted: bool = matches!(step, EvictionStep::Evicted);
            proof {
                steps = earlier.push(evicted);
                assert(steps.drop_last() =~= earlier);
                assert forall|k: int| 0 <= k < steps.len() implies #[trigger] old(self)@.swept(steps.take(k)).bytes()
                    == old(self)@.bytes() by {
                    if k < earlier.len() {
                        assert(steps.take(k) =~= earlier.take(k));
                    } else {
                        assert(steps.take(k) =~= earlier);
                    }
                }
            }
            if evicted {
                proof {
                    lemma_removed(before, before.oldest());
                    assert(loading_keys(self@.entries) =~= loading_keys(before.entries));
                }
                return (true, Ghost(steps));
            }
            seen += 1;
        }
        (false, Ghost(steps))
    }

    /// Lets entries other than `keep` go until the segments keep to their shares,
    /// or until too many in a row cannot leave.
    fn enforce_caps(&mut self, keep: u64, counters: &mut CacheCounters) -> (r: Ghost<Seq<bool>>)
        requires
            old(self).totalled(),
            old(self).heard(*old(counters)),
            old(self)@.entries.contains_key(keep),
            old(self).reported_entries == old(self)@.entries.len(),
        ensures
            final(self).totalled(),
            final(self).heard(*final(counters)),
            final(self).others_heard(*final(counters), *old(self), *old(counters)),
            final(self).loading_entries == old(self).loading_entries,
            final(self).next_ticket == old(self).next_ticket,
            final(self)@.shrunk_from(old(self)@.demoted()),
            old(self)@.demoted().may_sweep(Some(keep), r@),
            final(self)@ == old(self)@.demoted().swept(r@),
            old(self)@.demoted().overfull_at(r@),
            final(self)@.overfull() ==> none_leave(r@, final(self)@.patience()),
            final(self)@.entries.contains_key(keep),
            loading_keys(final(self)@.entries) == loading_keys(old(self)@.entries),
            same_counts(*final(counters), *old(counters)),
            final(self)@.entries.len() <= old(self)@.entries.len(),
            final(counters).evictions == raised_by(
                old(counters).evictions,
                old(self)@.entries.len() - final(self)@.entries.len(),
            ),
            final(self).reported_entries == final(self)@.entries.len(),
            final(self)@.bytes() <= old(self)@.demoted().told(r@),
            final(counters).peak_entries == old(counters).peak_entries,
            if final(self)@.entries.len() < old(self)@.entries.len() {
                final(counters).peak_bytes == higher(
                    old(counters).peak_bytes as int,
                    old(counters).live_bytes - old(self).reported_bytes + old(self)@.demoted().told(r@),
                )
            } else {
                final(counters).peak_bytes == old(counters).peak_bytes && final(self)@.bytes()
                    == old(self)@.demoted().told(r@)
            },
    {
        proof {
            lemma_demoted(self@);
        }
        self.demote_protected();
        let byte_share: usize = share_of(self.max_bytes, self.protected_percent);
        let entry_share: usize = share_of(self.max_entries, self.protected_percent);
        let byte_cap: usize = self.max_bytes.saturating_sub(byte_share);
        let entry_cap: usize = self.max_entries.saturating_sub(entry_share);
        let mut pinned: usize = 0;
        let ghost start = self@;
        let ghost mut steps: Seq<bool> = Seq::empty();
        loop
            invariant
                start == old(self)@.demoted(),
                start.may_sweep(Some(keep), steps),
                self@ == start.swept(steps),
                start.overfull_at(steps),
                none_leave(steps, pinned as int),
                pinned == 0 || pinned < self@.patience(),
                byte_cap == rest_of(self@.max_bytes, self@.protected_percent),
                entry_cap == rest_of(self@.max_entries, self@.protected_percent),
                loading_keys(start.entries) == loading_keys(old(self)@.entries),
                pinned < MAX_PINNED_EVICTION_SCAN,
                self.totalled(),
                self.heard(*counters),
                self.others_heard(*counters, *old(self), *old(counters)),
                self.loading_entries == old(self).loading_entries,
                self.next_ticket == old(self).next_ticket,
                self@.shrunk_from(start),
                self@.entries.contains_key(keep),
                loading_keys(self@.entries) == loading_keys(start.entries),
                same_counts(*counters, *old(counters)),
                self@.entries.len() <= start.entries.len() == old(self)@.entries.len(),
                counters.evictions == raised_by(
                    old(counters).evictions,
                    old(self)@.entries.len() - self@.entries.len(),
                ),
                self.reported_entries == self@.entries.len(),
                self@.bytes() <= start.told(steps),
                counters.peak_entries == old(counters).peak_entries,
                counters.live_entries <= counters.peak_entries,
                if self@.entries.len() < start.entries.len() {
                    counters.peak_bytes == higher(
                        old(counters).peak_bytes as int,
                        old(counters).live_bytes - old(self).reported_bytes + start.told(steps),
                    )
                } else {
                    counters.peak_bytes == old(counters).peak_bytes && self@.bytes() == start.told(steps)
                },
            decreases self@.entries.len(), MAX_PINNED_EVICTION_SCAN - pinned,
        {
            let over: bool = self.entries.len() > self.max_entries || self.probation_bytes + self.protected_bytes
                > self.max_bytes || self.probation_bytes > byte_cap || self.probation.len() > entry_cap;
            if !over {
                return Ghost(steps);
            }
            let ghost before = self@;
            let ghost earlier = steps;
            let step = self.evict_oldest(Some(keep), counters);
            proof {
                steps = earlier.push(step is Evicted);
                assert(steps.drop_last() =~= earlier);
                assert forall|k: int| 0 <= k < steps.len() implies (#[trigger] start.swept(
                    steps.take(k),
                )).overfull() by {
                    if k < earlier.len() {
                        assert(steps.take(k) =~= earlier.take(k));
                    } else {
                        assert(steps.take(k) =~= earlier);
                    }
                }
            }
            match step {
                EvictionStep::Empty => {
                    return Ghost(earlier);
                },
                EvictionStep::Evicted => {
                    proof {
                        lemma_removed(before, before.oldest());
                        assert(loading_keys(self@.entries) =~= loading_keys(before.entries));
                    }
                    pinned = 0;
                },
                EvictionStep::Pinned => {
                    pinned += 1;
                    let waiting: usize = self.probation.len();
                    let bound: usize = if waiting < 1 {
                        1
                    } else if waiting > MAX_PINNED_EVICTION_SCAN {
                        MAX_PINNED_EVICTION_SCAN
                    } else {
                        waiting
                    };
                    if pinned >= bound {
                        return Ghost(steps);
                    }
                },
            }
        }
    }
}

/// Another handle on the same result.
pub fn clone_result<T>(result: &SharedCellResult<T>) -> (r: SharedCellResult<T>)
    ensures
        r == *result,
{
    match result {
        Ok(value) => Ok(Arc::clone(value)),
        Err(error) => Err(Arc::clone(error)),
    }
}

/// The result is a failure that may not come again.
pub open spec fn transient_result<T>(result: SharedCellResult<T>) -> bool {
    result matches Err(error) && transient(*error)
}

/// The result is a failure that would come again.
pub open spec fn lasting_failure<T>(result: SharedCellResult<T>) -> bool {
    result matches Err(error) && !transient(*error)
}

/// Reports a failure that may not come again.
fn is_transient_result<T>(result: &SharedCellResult<T>) -> (r: bool)
    ensures
        r == transient_result(*result),
{
    match result {
        Ok(_) => false,
        Err(error) => is_transient_error(error),
    }
}

/// What a caller that asks for an entry has to do, and how the cache and its
/// counters change.
pub open spec fn begun<T>(
    before: CacheView<T>,
    counted: CacheCounters,
    key: u64,
    begin: Begin<T>,
    after: CacheView<T>,
    counts: CacheCounters,
) -> bool {
    if before.entries.contains_key(key) {
        &&& after == before.touched(key)
        &&& same_peaks(counts, counted)
        &&& counts.hits == incremented(counted.hits)
        &&& counts.transient_failures == counted.transient_failures
        &&& counts.evictions == counted.evictions
        &&& counts.promotions == (if before.entries[key].segment == CacheSegment::Probation {
            incremented(counted.promotions)
        } else {
            counted.promotions
        })
        &&& counts.misses == counted.misses
        &&& counts.loads == counted.loads
        &&& counts.bypasses == counted.bypasses
        &&& match before.entries[key].state {
            CellState::Ready(result) => {
                &&& begin == Begin::Hit(result)
                &&& counts.waits == counted.waits
                &&& counts.negative_hits == (if lasting_failure(result) {
                    incremented(counted.negative_hits)
                } else {
                    counted.negative_hits
                })
            },
            CellState::Loading => {
                &&& begin == Begin::<T>::Wait(before.entries[key].ticket)
                &&& counts.waits == incremented(counted.waits)
                &&& counts.negative_hits == counted.negative_hits
            },
        }
    } else {
        &&& counts.peak_entries == higher(counted.peak_entries as int, counts.live_entries as int)
        &&& counts.peak_bytes == counted.peak_bytes
        &&& counts.hits == counted.hits
        &&& counts.transient_failures == counted.transient_failures
        &&& counts.promotions == counted.promotions
        &&& counts.misses == incremented(counted.misses)
        &&& counts.loads == incremented(counted.loads)
        &&& counts.waits == counted.waits
        &&& counts.negative_hits == counted.negative_hits
        &&& match begin {
            Begin::Load(ticket) => {
                &&& counts.bypasses == counted.bypasses
                &&& after.is_loading(key, ticket)
                &&& after.removed(key).shrunk_from(before)
                &&& after.entries.len() <= before.entries.len() + 1
                &&& counts.evictions == raised_by(
                    counted.evictions,
                    before.entries.len() + 1 - after.entries.len(),
                )
                &&& exists|steps: Seq<bool>| #[trigger]
                    before.may_sweep(None, steps) && after == before.swept(steps).started(key, ticket) && (
                    if before.entries.len() < before.max_entries {
                        steps.len() == 0
                    } else {
                        one_leaves(steps, before.scanned())
                    })
            },
            Begin::Bypass => {
                &&& counts.bypasses == incremented(counted.bypasses)
                &&& before.entries.len() >= before.max_entries
                &&& after.shrunk_from(before)
                &&& after.entries.len() <= before.entries.len()
                &&& counts.evictions == raised_by(counted.evictions, before.entries.len() - after.entries.len())
                &&& !after.entries.contains_key(key)
                &&& exists|steps: Seq<bool>| #[trigger]
                    before.may_sweep(None, steps) && after == before.swept(steps) && none_leave(
                        steps,
                        steps.len() as int,
                    ) && steps.len() == (if loading_keys(before.entries) == before.entries.dom() {
                        0
                    } else {
                        before.scanned()
                    })
            },
            _ => false,
        }
    }
}

/// How the cache changes when what was being loaded is handed in.
pub open spec fn completed<T>(
    before: CacheView<T>,
    counted: CacheCounters,
    key: u64,
    ticket: u64,
    result: SharedCellResult<T>,
    bytes: usize,
    after: CacheView<T>,
    counts: CacheCounters,
) -> bool {
    handed_in(true, before, counted, key, ticket, result, bytes, after, counts)
}

/// How the cache changes when what was being loaded is handed in, and the segments
/// are held to their shares where `trims` says so.
pub open spec fn handed_in<T>(
    trims: bool,
    before: CacheView<T>,
    counted: CacheCounters,
    key: u64,
    ticket: u64,
    result: SharedCellResult<T>,
    bytes: usize,
    after: CacheView<T>,
    counts: CacheCounters,
) -> bool {
    &&& counts.hits == counted.hits
    &&& counts.misses == counted.misses
    &&& counts.waits == counted.waits
    &&& counts.loads == counted.loads
    &&& counts.promotions == counted.promotions
    &&& counts.negative_hits == counted.negative_hits
    &&& counts.peak_entries == counted.peak_entries
    &&& if !before.is_loading(key, ticket) {
        after == before && counts == counted
    } else if transient_result(result) {
        &&& after == before.removed(key)
        &&& counts.transient_failures == incremented(counted.transient_failures)
        &&& counts.bypasses == counted.bypasses
        &&& counts.evictions == counted.evictions
        &&& counts.peak_bytes == counted.peak_bytes
    } else if bytes > before.max_entry_bytes || bytes > before.max_bytes {
        &&& after == before.removed(key)
        &&& counts.transient_failures == counted.transient_failures
        &&& counts.bypasses == incremented(counted.bypasses)
        &&& counts.evictions == counted.evictions
        &&& counts.peak_bytes == counted.peak_bytes
    } else {
        &&& counts.transient_failures == counted.transient_failures
        &&& after.same_limits(before)
        &&& forall|other: u64|
            #[trigger] after.entries.contains_key(other) && other != key ==> before.entries.contains_key(other)
                && after.entries[other].state == before.entries[other].state && after.entries[other].bytes
                == before.entries[other].bytes && after.entries[other].ticket == before.entries[other].ticket
        &&& forall|other: u64|
            #[trigger] before.entries.contains_key(other) && other != key && before.entries[other].state is Loading
                ==> after.entries.contains_key(other)
        &&& if after.entries.contains_key(key) {
            &&& after.entries[key].state == CellState::Ready(result)
            &&& after.entries[key].bytes == bytes
            &&& after.entries[key].ticket == ticket
            &&& counts.bypasses == counted.bypasses
            &&& after.entries.len() <= before.entries.len()
            &&& counts.evictions == raised_by(counted.evictions, before.entries.len() - after.entries.len())
            &&& exists|steps: Seq<bool>| #[trigger]
                before.may_sweep(None, steps) && before.crowded(steps, bytes) && before.swept(steps).bytes() + bytes
                    <= before.max_bytes && taken_in(
                    trims,
                    before.swept(steps).finished(key, result, bytes).trimmed(trims),
                    counted,
                    key,
                    after,
                    counts,
                )
        } else {
            &&& counts.bypasses == incremented(counted.bypasses)
            &&& counts.peak_bytes == counted.peak_bytes
            &&& after.entries.len() < before.entries.len()
            &&& counts.evictions == raised_by(
                counted.evictions,
                before.entries.len() - 1 - after.entries.len(),
            )
            &&& before.bytes() + bytes > before.max_bytes
            &&& exists|steps: Seq<bool>| #[trigger]
                before.may_sweep(None, steps) && before.crowded(steps, bytes) && before.swept(steps).bytes() + bytes
                    > before.max_bytes && none_leave(steps, before.swept(steps).scanned()) && after == before.swept(
                    steps,
                ).removed(key)
        }
    }
}

/// How the segments are held to their shares once an entry has come in: entries
/// leave only as long as there are too many, and until too many in a row stay. The
/// counters hear of it each time an entry has left.
pub open spec fn taken_in<T>(
    trims: bool,
    kept: CacheView<T>,
    counted: CacheCounters,
    key: u64,
    after: CacheView<T>,
    counts: CacheCounters,
) -> bool {
    if trims {
        exists|steps: Seq<bool>| #[trigger]
            kept.may_sweep(Some(key), steps) && kept.overfull_at(steps) && after == kept.swept(steps) && (
            after.overfull() ==> none_leave(steps, after.patience())) && counts.peak_bytes == higher(
                counted.peak_bytes as int,
                counts.live_bytes - after.bytes() + kept.told(steps),
            )
    } else {
        after == kept && counts.peak_bytes == higher(counted.peak_bytes as int, counts.live_bytes as int)
    }
}

impl<T> SharedCache<T> {
    /// Asks for an entry.
    pub fn begin(&mut self, id: ObjectId, counters: &mut CacheCounters) -> (r: Begin<T>)
        requires
            old(self).well_formed(),
            accounted(old(self)@, *old(counters)),
        ensures
            final(self).well_formed(),
            accounted(final(self)@, *final(counters)),
            others_kept(old(self)@, *old(counters), final(self)@, *final(counters)),
            begun(old(self)@, *old(counters), cache_key(id), r, final(self)@, *final(counters)),
            final(self)@.same_limits(old(self)@),
    {
        let key: u64 = key_of(id);
        let ghost before = self@;
        proof {
            broadcast use vstd::std_specs::btree::group_btree_axioms;

        }
        let known: Option<Begin<T>> = match self.entries.get(&key) {
            Some(entry) => match &entry.state {
                CellState::Ready(result) => Some(Begin::Hit(clone_result(result))),
                CellState::Loading => Some(Begin::Wait(entry.ticket)),
            },
            None => None,
        };
        if let Some(begin) = known {
            counters.hits = saturating_increment(counters.hits);
            proof {
                if before.entries[key].segment == CacheSegment::Probation {
                    lemma_promote(before, key);
                    lemma_demoted(before.promote(key));
                }
            }
            self.touch(key, counters);
            match &begin {
                Begin::Hit(result) => {
                    if let Err(error) = result {
                        if !is_transient_error(error) {
                            counters.negative_hits = saturating_increment(counters.negative_hits);
                        }
                    }
                },
                _ => {
                    counters.waits = saturating_increment(counters.waits);
                },
            }
            return begin;
        }
        counters.misses = saturating_increment(counters.misses);
        let ghost mut steps: Seq<bool> = Seq::empty();
        proof {
            lemma_loading_finite(before.entries);
            if loading_keys(before.entries).len() == before.entries.len() {
                vstd::set_lib::lemma_subset_equality(loading_keys(before.entries), before.entries.dom());
            }
        }
        if self.entries.len() >= self.max_entries && self.loading_entries < self.entries.len() {
            let (evicted, Ghost(went)) = self.evict_one_ready(counters);
            proof {
                steps = went;
                assert(evicted ==> self@.entries.len() < self@.max_entries);
            }
        }
        assert(before.may_sweep(None, steps) && self@ == before.swept(steps));
        counters.loads = saturating_increment(counters.loads);
        if self.entries.len() >= self.max_entries {
            counters.bypasses = saturating_increment(counters.bypasses);
            return Begin::Bypass;
        }
        let ticket: u64 = self.next_ticket;
        self.next_ticket = ticket.wrapping_add(1);
        let ghost cleared = self@;
        proof {
            lemma_started(cleared, key, ticket);
            lemma_loading_finite(cleared.entries);
        }
        self.probation.push_back(key);
        self.entries.insert(
            key,
            CacheEntry { ticket, state: CellState::Loading, segment: CacheSegment::Probation, bytes: 0 },
        );
        self.loading_entries = self.loading_entries + 1;
        assert(self@ == cleared.started(key, ticket));
        self.publish_residency(counters);
        proof {
            lemma_removed(self@, key);
            assert(self@.removed(key).entries =~= cleared.entries);
        }
        Begin::Load(ticket)
    }

    /// Hands in what was loaded under a ticket. It takes `bytes`.
    pub fn complete(
        &mut self,
        id: ObjectId,
        ticket: u64,
        result: &SharedCellResult<T>,
        bytes: usize,
        counters: &mut CacheCounters,
    )
        requires
            old(self).well_formed(),
            accounted(old(self)@, *old(counters)),
        ensures
            final(self).well_formed(),
            accounted(final(self)@, *final(counters)),
            others_kept(old(self)@, *old(counters), final(self)@, *final(counters)),
            completed(
                old(self)@,
                *old(counters),
                cache_key(id),
                ticket,
                *result,
                bytes,
                final(self)@,
                *final(counters),
            ),
    {
        self.hand_in(true, id, ticket, result, bytes, counters);
    }

    /// Hands in what was loaded under a ticket; the segments are held to their
    /// shares where `trims` says so.
    pub(crate) fn hand_in(
        &mut self,
        trims: bool,
        id: ObjectId,
        ticket: u64,
        result: &SharedCellResult<T>,
        bytes: usize,
        counters: &mut CacheCounters,
    )
        requires
            old(self).well_formed(),
            accounted(old(self)@, *old(counters)),
        ensures
            final(self).well_formed(),
            accounted(final(self)@, *final(counters)),
            others_kept(old(self)@, *old(counters), final(self)@, *final(counters)),
            handed_in(
                trims,
                old(self)@,
                *old(counters),
                cache_key(id),
                ticket,
                *result,
                bytes,
                final(self)@,
                *final(counters),
            ),
    {
        let key: u64 = key_of(id);
        let ghost before = self@;
        match self.entries.get(&key) {
            Some(entry) => {
                let loading: bool = matches!(entry.state, CellState::Loading);
                if entry.ticket != ticket || !loading {
                    return;
                }
            },
            None => {
                return;
            },
        }
        assert(loading_keys(before.entries).contains(key));
        let failed: bool = is_transient_result(result);
        if failed || bytes > self.max_entry_bytes || bytes > self.max_bytes {
            if failed {
                counters.transient_failures = saturating_increment(counters.transient_failures);
            } else {
                counters.bypasses = saturating_increment(counters.bypasses);
            }
            self.abandon(key, counters);
            return;
        }
        let mut bypass: bool = false;
        let ghost mut steps: Seq<bool> = Seq::empty();
        while !bypass && self.probation_bytes + self.protected_bytes > self.max_bytes - bytes
            invariant
                self.well_formed(),
                self.heard(*counters),
                self.others_heard(*counters, *old(self), *old(counters)),
                self@.shrunk_from(before),
                before == old(self)@,
                before.is_loading(key, ticket),
                self@.entries.contains_key(key),
                bytes <= self.max_bytes,
                same_counts(*counters, *old(counters)),
                same_peaks(*counters, *old(counters)),
                self@.entries.len() <= before.entries.len(),
                counters.evictions == raised_by(
                    old(counters).evictions,
                    before.entries.len() - self@.entries.len(),
                ),
                before.may_sweep(None, steps),
                self@ == before.swept(steps),
                before.crowded(steps, bytes),
                bypass ==> self@.bytes() + bytes > before.max_bytes && none_leave(steps, self@.scanned()),
            decreases
                self@.entries.len(),
                (if bypass {
                    0int
                } else {
                    1int
                }),
        {
            let ghost earlier = self@;
            let (evicted, Ghost(went)) = self.evict_one_ready(counters);
            if !evicted {
                bypass = true;
            }
            proof {
                lemma_shrunk_transitive(self@, earlier, before);
                lemma_swept_on(before, None, steps, went);
                let all = steps + went;
                assert forall|k: int| 0 <= k < all.len() implies #[trigger] before.swept(all.take(k)).bytes() + bytes
                    > before.max_bytes by {
                    if k < steps.len() {
                        assert(all.take(k) =~= steps.take(k));
                    } else {
                        lemma_swept_on(before, None, steps, went.take(k - steps.len()));
                        assert(all.take(k) =~= steps + went.take(k - steps.len()));
                        assert(earlier.swept(went.take(k - steps.len())).bytes() == earlier.bytes());
                    }
                }
                steps = all;
            }
        }
        assert(self@.entries[key] == before.entries[key]);
        assert(before.may_sweep(None, steps));
        let ghost cleared = self@;
        if bypass {
            counters.bypasses = saturating_increment(counters.bypasses);
            self.abandon(key, counters);
            proof {
                assert forall|other: u64| #[trigger]
                    self@.entries.contains_key(other) && other != key implies before.entries.contains_key(other)
                    && self@.entries[other] == before.entries[other] by {
                    assert(cleared.entries.contains_key(other));
                }
                assert forall|other: u64| #[trigger]
                    before.entries.contains_key(other) && other != key && before.entries[other].state is Loading implies
                    self@.entries.contains_key(other) by {
                    assert(cleared.entries.contains_key(other));
                }
                if steps.len() == 0 {
                    assert(cleared == before);
                } else {
                    assert(before.swept(steps.take(0)).bytes() + bytes > before.max_bytes);
                    assert(steps.take(0) =~= Seq::empty());
                }
            }
            return;
        }
        proof {
            lemma_finished(cleared, key, *result, bytes);
            lemma_demoted(cleared.finished(key, *result, bytes));
        }
        let Ghost(more) = self.settle(trims, key, result, bytes, counters);
        proof {
            let kept = cleared.finished(key, *result, bytes).trimmed(trims);
            assert(kept.may_sweep(Some(key), more));
            assert forall|other: u64| #[trigger]
                self@.entries.contains_key(other) && other != key implies before.entries.contains_key(other)
                && self@.entries[other].state == before.entries[other].state && self@.entries[other].bytes
                == before.entries[other].bytes && self@.entries[other].ticket == before.entries[other].ticket by {
                assert(kept.entries.contains_key(other));
                assert(self@.entries[other] == kept.entries[other]);
                assert(cleared.finished(key, *result, bytes).entries.contains_key(other));
                assert(cleared.entries.dom().contains(other));
                assert(before.entries.dom().contains(other));
            }
            assert forall|other: u64| #[trigger]
                before.entries.contains_key(other) && other != key && before.entries[other].state is Loading implies
                self@.entries.contains_key(other) by {
                assert(cleared.entries.contains_key(other));
                assert(cleared.entries[other] == before.entries[other]);
                assert(kept.entries.contains_key(other));
            }
            assert(kept.entries.contains_key(key));
            assert(self@.entries[key] == kept.entries[key]);
        }
    }

    /// Takes out an entry that was being loaded.
    fn abandon(&mut self, key: u64, counters: &mut CacheCounters)
        requires
            old(self).well_formed(),
            old(self).heard(*old(counters)),
            old(self)@.entries.contains_key(key),
            old(self)@.entries[key].state is Loading,
        ensures
            final(self).well_formed(),
            final(self).heard(*final(counters)),
            final(self).others_heard(*final(counters), *old(self), *old(counters)),
            final(self)@ == old(self)@.removed(key),
            same_counts(*final(counters), *old(counters)),
            same_peaks(*final(counters), *old(counters)),
            final(counters).evictions == old(counters).evictions,
    {
        proof {
            lemma_removed(self@, key);
            assert(loading_keys(self@.entries).contains(key));
            lemma_loading_finite(self@.entries);
        }
        self.loading_entries = self.loading_entries - 1;
        self.remove_entry(key, false, counters);
    }

    /// Keeps what was loaded.
    fn settle(
        &mut self,
        trims: bool,
        key: u64,
        result: &SharedCellResult<T>,
        bytes: usize,
        counters: &mut CacheCounters,
    ) -> (r: Ghost<Seq<bool>>)
        requires
            old(self).well_formed(),
            old(self).heard(*old(counters)),
            old(self)@.entries.contains_key(key),
            old(self)@.entries[key].state is Loading,
            old(self)@.bytes() + bytes <= old(self)@.max_bytes,
        ensures
            final(self).well_formed(),
            final(self).heard(*final(counters)),
            final(self).others_heard(*final(counters), *old(self), *old(counters)),
            final(self)@.shrunk_from(old(self)@.finished(key, *result, bytes).trimmed(trims)),
            old(self)@.finished(key, *result, bytes).trimmed(trims).may_sweep(Some(key), r@),
            final(self)@ == old(self)@.finished(key, *result, bytes).trimmed(trims).swept(r@),
            if trims {
                &&& old(self)@.finished(key, *result, bytes).demoted().overfull_at(r@)
                &&& final(self)@.overfull() ==> none_leave(r@, final(self)@.patience())
            } else {
                r@.len() == 0
            },
            final(self)@.entries.contains_key(key),
            same_counts(*final(counters), *old(counters)),
            final(self)@.entries.len() <= old(self)@.entries.len(),
            final(counters).evictions == raised_by(
                old(counters).evictions,
                old(self)@.entries.len() - final(self)@.entries.len(),
            ),
            final(counters).peak_entries == old(counters).peak_entries,
            final(counters).peak_bytes == higher(
                old(counters).peak_bytes as int,
                old(counters).live_bytes - old(self)@.bytes() + old(self)@.finished(key, *result, bytes).trimmed(
                    trims,
                ).told(r@),
            ),
    {
        let ghost before = self@;
        proof {
            broadcast use vstd::std_specs::btree::group_btree_axioms;

            lemma_finished(before, key, *result, bytes);
            lemma_loading_finite(before.entries);
            assert(loading_keys(before.entries).contains(key));
            lemma_bytes_nonnegative(before.entries, before.probation);
            lemma_bytes_nonnegative(before.entries, before.protected);
        }
        self.loading_entries = self.loading_entries - 1;
        if let Some(entry) = self.entries.remove(&key) {
            match entry.segment {
                CacheSegment::Probation => {
                    self.probation_bytes = self.probation_bytes + bytes;
                },
                CacheSegment::Protected => {
                    self.protected_bytes = self.protected_bytes + bytes;
                },
            }
            self.entries.insert(
                key,
                CacheEntry {
                    ticket: entry.ticket,
                    state: CellState::Ready(clone_result(result)),
                    segment: entry.segment,
                    bytes,
                },
            );
        }
        assert(self@.entries =~= before.finished(key, *result, bytes).entries);
        assert(self@ == before.finished(key, *result, bytes));
        proof {
            lemma_demoted(self@);
        }
        let ghost mut steps: Seq<bool> = Seq::empty();
        if trims {
            let Ghost(went) = self.enforce_caps(key, counters);
            proof {
                steps = went;
            }
        }
        self.publish_residency(counters);
        Ghost(steps)
    }
}

/// One eviction after another is one that goes through the steps of both.
proof fn lemma_swept_on<T>(view: CacheView<T>, keep: Option<u64>, steps: Seq<bool>, more: Seq<bool>)
    ensures
        view.swept(steps + more) == view.swept(steps).swept(more),
        view.may_sweep(keep, steps) && view.swept(steps).may_sweep(keep, more) ==> view.may_sweep(keep, steps + more),
    decreases more.len(),
{
    if more.len() == 0 {
        assert(steps + more =~= steps);
    } else {
        lemma_swept_on(view, keep, steps, more.drop_last());
        assert((steps + more).drop_last() =~= steps + more.drop_last());
    }
}

proof fn lemma_shrunk_transitive<T>(one: CacheView<T>, other: CacheView<T>, first: CacheView<T>)
    requires
        one.shrunk_from(other),
        other.shrunk_from(first),
    ensures
        one.shrunk_from(first),
{
    assert forall|key: u64| #[trigger]
        first.entries.contains_key(key) && first.entries[key].state is Loading implies one.entries.contains_key(
        key,
    ) by {
        assert(other.entries.contains_key(key));
        assert(other.entries[key] == first.entries[key]);
    }
    assert forall|key: u64| #[trigger] one.entries.contains_key(key) implies first.entries.contains_key(key)
        && one.entries[key] == first.entries[key] by {
        assert(one.entries.dom().contains(key));
        assert(other.entries.dom().contains(key));
        assert(first.entries.dom().contains(key));
    }
    assert(one.entries.submap_of(first.entries));
}

proof fn lemma_loading_finite<T>(entries: Map<u64, CacheEntry<T>>)
    requires
        entries.dom().finite(),
    ensures
        loading_keys(entries).finite(),
        loading_keys(entries).len() <= entries.len(),
{
    vstd::set_lib::lemma_len_subset(loading_keys(entries), entries.dom());
}

impl<T> SharedCache<T> {
    /// Takes an entry out that was found to be of no use, unless another has
    /// come in its place.
    pub fn discard(&mut self, id: ObjectId, ticket: u64, counters: &mut CacheCounters)
        requires
            old(self).well_formed(),
            accounted(old(self)@, *old(counters)),
        ensures
            final(self).well_formed(),
            accounted(final(self)@, *final(counters)),
            others_kept(old(self)@, *old(counters), final(self)@, *final(counters)),
            final(self)@ == (if old(self)@.entries.contains_key(cache_key(id)) && old(self)@.entries[cache_key(id)].ticket
                == ticket && old(self)@.entries[cache_key(id)].state is Ready {
                old(self)@.removed(cache_key(id))
            } else {
                old(self)@
            }),
            same_counts(*final(counters), *old(counters)),
            same_peaks(*final(counters), *old(counters)),
            final(counters).evictions == old(counters).evictions,
    {
        let key: u64 = key_of(id);
        let usable: bool = match self.entries.get(&key) {
            Some(entry) => match &entry.state {
                CellState::Ready(_) => entry.ticket != ticket,
                CellState::Loading => true,
            },
            None => true,
        };
        if !usable {
            proof {
                lemma_removed(self@, key);
                assert(!loading_keys(self@.entries).contains(key));
                assert(loading_keys(self@.entries).remove(key) =~= loading_keys(self@.entries));
            }
            self.remove_entry(key, false, counters);
        }
    }

    /// Takes out an entry that is there and was found to be of no use.
    pub fn take_out(&mut self, id: ObjectId, counters: &mut CacheCounters)
        requires
            old(self).well_formed(),
            accounted(old(self)@, *old(counters)),
        ensures
            final(self).well_formed(),
            accounted(final(self)@, *final(counters)),
            others_kept(old(self)@, *old(counters), final(self)@, *final(counters)),
            final(self)@ == (if old(self)@.entries.contains_key(cache_key(id))
                && old(self)@.entries[cache_key(id)].state is Ready {
                old(self)@.removed(cache_key(id))
            } else {
                old(self)@
            }),
            same_counts(*final(counters), *old(counters)),
            same_peaks(*final(counters), *old(counters)),
            final(counters).evictions == old(counters).evictions,
    {
        let ticket: Option<u64> = match self.entries.get(&key_of(id)) {
            Some(entry) => Some(entry.ticket),
            None => None,
        };
        if let Some(ticket) = ticket {
            self.discard(id, ticket, counters);
        }
    }

    /// Takes back a load that was begun under a ticket and gave nothing to keep.
    pub fn withdraw(&mut self, id: ObjectId, ticket: u64, counters: &mut CacheCounters)
        requires
            old(self).well_formed(),
            accounted(old(self)@, *old(counters)),
        ensures
            final(self).well_formed(),
            accounted(final(self)@, *final(counters)),
            others_kept(old(self)@, *old(counters), final(self)@, *final(counters)),
            final(self)@ == (if old(self)@.is_loading(cache_key(id), ticket) {
                old(self)@.removed(cache_key(id))
            } else {
                old(self)@
            }),
            same_counts(*final(counters), *old(counters)),
            same_peaks(*final(counters), *old(counters)),
            final(counters).evictions == old(counters).evictions,
    {
        let key: u64 = key_of(id);
        let loading: bool = match self.entries.get(&key) {
            Some(entry) => entry.ticket == ticket && matches!(entry.state, CellState::Loading),
            None => false,
        };
        if loading {
            self.abandon(key, counters);
        }
    }

    /// Reports whether an entry is there.
    pub fn keeps(&self, id: ObjectId) -> (r: bool)
        ensures
            r == (self@.entries.contains_key(cache_key(id)) && self@.entries[cache_key(id)].state is Ready),
    {
        match self.entries.get(&key_of(id)) {
            Some(entry) => matches!(entry.state, CellState::Ready(_)),
            None => false,
        }
    }

    /// How many entries are on probation and how many bytes they take, and the
    /// same of the protected ones.
    pub fn residency(&self) -> (r: (usize, usize, usize, usize))
        requires
            self.well_formed(),
        ensures
            r.0 == self@.probation.len(),
            r.1 == queue_bytes(self@.entries, self@.probation),
            r.2 == self@.protected.len(),
            r.3 == queue_bytes(self@.entries, self@.protected),
            r.0 + r.2 == self@.entries.len(),
            r.1 + r.3 == self@.bytes(),
    {
        proof {
            lemma_queue_lengths(self@);
        }
        (self.probation.len(), self.probation_bytes, self.protected.len(), self.protected_bytes)
    }
}

/// How the cache changes when a caller asks for an entry and is given `result`,
/// which it loads and hands in, with what it weighs, where there is none.
pub open spec fn served<T>(
    before: CacheView<T>,
    counted: CacheCounters,
    key: u64,
    result: SharedCellResult<T>,
    weighs: spec_fn(usize) -> bool,
    after: CacheView<T>,
    counts: CacheCounters,
) -> bool {
    exists|begin: Begin<T>, between: CacheView<T>, tallied: CacheCounters| #[trigger]
        begun(before, counted, key, begin, between, tallied) && match begin {
            Begin::Hit(kept) => kept == result && after == between && counts == tallied,
            Begin::Wait(_) => false,
            Begin::Load(ticket) => exists|bytes: usize| #[trigger]
                completed(between, tallied, key, ticket, result, bytes, after, counts) && weighs(bytes),
            Begin::Bypass => after == between && counts == tallied,
        }
}

/// What a result weighs by this measure; a failure weighs nothing.
pub open spec fn weight_by<T, W: FnOnce(&T) -> usize>(weight: W, result: SharedCellResult<T>) -> spec_fn(usize) -> bool {
    |bytes: usize|
        match result {
            Ok(value) => call_ensures(weight, (&*value,), bytes),
            Err(_) => bytes == 0,
        }
}

/// What a caller that loads what is not there is given, and what is kept of it.
pub open spec fn resolved<T, F: FnOnce() -> SharedCellResult<T>, W: FnOnce(&T) -> usize>(
    before: CacheView<T>,
    key: u64,
    load: F,
    weight: W,
    r: SharedCellResult<T>,
    after: CacheView<T>,
) -> bool {
    if before.entries.contains_key(key) {
        before.entries[key].state == CellState::Ready(r) && after == before.touched(key)
    } else {
        &&& call_ensures(load, (), r)
        &&& transient_result(r) ==> !after.entries.contains_key(key)
        &&& after.entries.contains_key(key) ==> {
            &&& after.entries[key].state == CellState::Ready(r)
            &&& match r {
                Ok(value) => call_ensures(weight, (&*value,), after.entries[key].bytes),
                Err(_) => after.entries[key].bytes == 0,
            }
        }
    }
}

impl<T> SharedCache<T> {
    /// The entry, or what `load` gives where there is none, which is kept where
    /// there is room for it.
    pub fn resolve<F: FnOnce() -> SharedCellResult<T>, W: FnOnce(&T) -> usize>(
        &mut self,
        id: ObjectId,
        load: F,
        weight: W,
        counters: &mut CacheCounters,
    ) -> (r: SharedCellResult<T>)
        requires
            old(self).well_formed(),
            accounted(old(self)@, *old(counters)),
            old(self)@.entries.contains_key(cache_key(id)) ==> old(self)@.entries[cache_key(id)].state is Ready,
            call_requires(load, ()),
            forall|value: &T| call_requires(weight, (value,)),
        ensures
            final(self).well_formed(),
            accounted(final(self)@, *final(counters)),
            others_kept(old(self)@, *old(counters), final(self)@, *final(counters)),
            resolved(old(self)@, cache_key(id), load, weight, r, final(self)@),
            served(
                old(self)@,
                *old(counters),
                cache_key(id),
                r,
                weight_by(weight, r),
                final(self)@,
                *final(counters),
            ),
            if old(self)@.entries.contains_key(cache_key(id)) {
                &&& final(counters).hits == incremented(old(counters).hits)
                &&& final(counters).misses == old(counters).misses
                &&& final(counters).loads == old(counters).loads
            } else {
                &&& final(counters).hits == old(counters).hits
                &&& final(counters).misses == incremented(old(counters).misses)
                &&& final(counters).loads == incremented(old(counters).loads)
            },
    {
        match self.begin(id, counters) {
            Begin::Hit(result) => result,
            Begin::Load(ticket) => {
                let result = load();
                let bytes: usize = match &result {
                    Ok(value) => weight(value),
                    Err(_) => 0,
                };
                self.complete(id, ticket, &result, bytes, counters);
                result
            },
            _ => load(),
        }
    }
}

/// Notes what a caller that waited was given.
pub fn record_waited<T>(result: &SharedCellResult<T>, counters: &mut CacheCounters)
    ensures
        *final(counters) == (CacheCounters {
            negative_hits: if lasting_failure(*result) {
                incremented(old(counters).negative_hits)
            } else {
                old(counters).negative_hits
            },
            ..*old(counters)
        }),
{
    if let Err(error) = result {
        if !is_transient_error(error) {
            counters.negative_hits = saturating_increment(counters.negative_hits);
        }
    }
}

/// What was handed in is what the next caller is given, as long as it is kept.
pub proof fn law_kept_entry_is_given_back<T>(
    before: CacheView<T>,
    counted: CacheCounters,
    key: u64,
    ticket: u64,
    result: SharedCellResult<T>,
    bytes: usize,
    kept: CacheView<T>,
    counts: CacheCounters,
    begin: Begin<T>,
    after: CacheView<T>,
    counts_after: CacheCounters,
)
    requires
        before.is_loading(key, ticket),
        completed(before, counted, key, ticket, result, bytes, kept, counts),
        kept.entries.contains_key(key),
        begun(kept, counts, key, begin, after, counts_after),
    ensures
        begin == Begin::Hit(result),
{
}

/// While one caller loads an entry no other is told to load it.
pub proof fn law_one_caller_loads<T>(
    before: CacheView<T>,
    counted: CacheCounters,
    key: u64,
    ticket: u64,
    begin: Begin<T>,
    after: CacheView<T>,
    counts: CacheCounters,
)
    requires
        before.is_loading(key, ticket),
        begun(before, counted, key, begin, after, counts),
    ensures
        begin == Begin::<T>::Wait(ticket),
{
}

/// An eviction adds and changes no entry, and takes out none that is being loaded
/// and none that it is to spare.
pub proof fn law_eviction_spares_loads<T>(view: CacheView<T>, keep: Option<u64>, steps: Seq<bool>, key: u64)
    requires
        view.may_sweep(keep, steps),
    ensures
        view.swept(steps).entries.submap_of(view.entries),
        view.entries.contains_key(key) && (view.entries[key].state is Loading || keep == Some(key))
            ==> view.swept(steps).entries.contains_key(key),
    decreases steps.len(),
{
    if steps.len() > 0 {
        law_eviction_spares_loads(view, keep, steps.drop_last(), key);
        assert forall|other: u64| #[trigger]
            view.swept(steps).entries.contains_key(other) implies view.entries.contains_key(other)
            && view.swept(steps).entries[other] == view.entries[other] by {
            assert(view.swept(steps.drop_last()).entries.dom().contains(other));
            assert(view.entries.dom().contains(other));
        }
    }
}

/// An eviction takes out no value that is never counted as held by the cache alone.
pub proof fn law_eviction_spares_held_values<T>(
    view: CacheView<T>,
    keep: Option<u64>,
    steps: Seq<bool>,
    key: u64,
    value: Arc<T>,
)
    requires
        view.may_sweep(keep, steps),
        view.entries.contains_key(key),
        view.entries[key].state == CellState::Ready(Ok(value)),
        forall|count: usize| #[trigger] may_count(value, count) ==> count != 1,
    ensures
        view.swept(steps).entries.contains_key(key),
    decreases steps.len(),
{
    if steps.len() > 0 {
        law_eviction_spares_held_values(view, keep, steps.drop_last(), key, value);
        law_eviction_spares_loads(view, keep, steps.drop_last(), key);
        assert(view.swept(steps.drop_last()).entries.dom().contains(key));
        assert(!leaves(view.entries[key].state));
    }
}

/// A failure that may not come again is never kept.
pub proof fn law_transient_failures_are_not_kept<T>(
    before: CacheView<T>,
    counted: CacheCounters,
    key: u64,
    ticket: u64,
    result: SharedCellResult<T>,
    bytes: usize,
    after: CacheView<T>,
    counts: CacheCounters,
)
    requires
        before.is_loading(key, ticket),
        transient_result(result),
        completed(before, counted, key, ticket, result, bytes, after, counts),
    ensures
        !after.entries.contains_key(key),
{
}

/// Nothing is being loaded, and everything that is kept is valid.
pub open spec fn keeps_only<T>(view: CacheView<T>, valid: spec_fn(u64, SharedCellResult<T>) -> bool) -> bool {
    forall|key: u64| #[trigger]
        view.entries.contains_key(key) ==> match view.entries[key].state {
            CellState::Ready(result) => valid(key, result),
            CellState::Loading => false,
        }
}

/// A cache that keeps only what is valid hands out nothing else.
pub proof fn law_only_valid_entries_are_given<T>(
    before: CacheView<T>,
    counted: CacheCounters,
    key: u64,
    begin: Begin<T>,
    after: CacheView<T>,
    counts: CacheCounters,
    valid: spec_fn(u64, SharedCellResult<T>) -> bool,
)
    requires
        before.well_formed(),
        keeps_only(before, valid),
        begun(before, counted, key, begin, after, counts),
    ensures
        match begin {
            Begin::Hit(result) => valid(key, result) && keeps_only(after, valid),
            Begin::Wait(_) => false,
            Begin::Load(ticket) => after.is_loading(key, ticket) && keeps_only(after.removed(key), valid),
            Begin::Bypass => keeps_only(after, valid),
        },
{
    if before.entries.contains_key(key) {
        if before.entries[key].segment == CacheSegment::Probation {
            lemma_promote(before, key);
            lemma_demoted(before.promote(key));
        }
        assert forall|other: u64| #[trigger] after.entries.contains_key(other) implies match after.entries[other].state {
            CellState::Ready(result) => valid(other, result),
            CellState::Loading => false,
        } by {
            assert(before.promote(key).entries.contains_key(other) || before.entries.contains_key(other));
            assert(before.entries.contains_key(other));
        }
    } else {
        let left = if begin is Load {
            after.removed(key)
        } else {
            after
        };
        assert forall|other: u64| #[trigger] left.entries.contains_key(other) implies match left.entries[other].state {
            CellState::Ready(result) => valid(other, result),
            CellState::Loading => false,
        } by {
            assert(left.entries.dom().contains(other));
            assert(before.entries.contains_key(other));
        }
    }
}

/// A cache that keeps only what is valid goes on to do so when what is handed in
/// is valid or will not be kept.
pub proof fn law_only_valid_entries_are_kept<T>(
    before: CacheView<T>,
    counted: CacheCounters,
    key: u64,
    ticket: u64,
    result: SharedCellResult<T>,
    bytes: usize,
    after: CacheView<T>,
    counts: CacheCounters,
    valid: spec_fn(u64, SharedCellResult<T>) -> bool,
)
    requires
        before.is_loading(key, ticket),
        keeps_only(before.removed(key), valid),
        transient_result(result) || valid(key, result),
        completed(before, counted, key, ticket, result, bytes, after, counts),
    ensures
        keeps_only(after, valid),
{
    assert forall|other: u64| #[trigger] after.entries.contains_key(other) implies match after.entries[other].state {
        CellState::Ready(kept) => valid(other, kept),
        CellState::Loading => false,
    } by {
        if other != key {
            assert(before.removed(key).entries.contains_key(other));
        }
    }
}

/// The fewest entries that a shard is made for.
pub const SHARED_OBJECT_MIN_ENTRIES_PER_SHARD: usize = 128;

/// The most shards of a cache.
pub const SHARED_OBJECT_MAX_SHARDS: usize = 16;

/// Into how many shards a cache of this many entries is split: the largest power
/// of two, up to the limit, that leaves every shard full.
pub open spec fn shard_count(max_entries: usize) -> int {
    let full = max_entries / SHARED_OBJECT_MIN_ENTRIES_PER_SHARD;
    if full < 2 {
        1
    } else if full < 4 {
        2
    } else if full < 8 {
        4
    } else if full < 16 {
        8
    } else {
        SHARED_OBJECT_MAX_SHARDS as int
    }
}

/// Into how many shards a cache of this many entries is split.
pub fn shards_for(max_entries: usize) -> (r: usize)
    ensures
        r == shard_count(max_entries),
{
    let full: usize = max_entries / SHARED_OBJECT_MIN_ENTRIES_PER_SHARD;
    if full < 2 {
        1
    } else if full < 4 {
        2
    } else if full < 8 {
        4
    } else if full < 16 {
        8
    } else {
        SHARED_OBJECT_MAX_SHARDS
    }
}

/// The shard that an object belongs to.
pub open spec fn shard_index(id: ObjectId, shards: int) -> int {
    id.0 as int % shards
}

/// The shard that an object belongs to.
pub fn shard_of(id: ObjectId, shards: usize) -> (r: usize)
    requires
        shards > 0,
    ensures
        r == shard_index(id, shards as int),
        r < shards,
{
    (id.0 as u64 % shards as u64) as usize
}

/// The entries of some shards.
pub open spec fn shards_entries<T>(shards: Seq<CacheView<T>>) -> int
    decreases shards.len(),
{
    if shards.len() == 0 {
        0
    } else {
        shards_entries(shards.drop_last()) + shards.last().entries.len()
    }
}

/// The bytes of some shards.
pub open spec fn shards_bytes<T>(shards: Seq<CacheView<T>>) -> int
    decreases shards.len(),
{
    if shards.len() == 0 {
        0
    } else {
        shards_bytes(shards.drop_last()) + shards.last().bytes()
    }
}

proof fn lemma_shards_update<T>(shards: Seq<CacheView<T>>, index: int, shard: CacheView<T>)
    requires
        0 <= index < shards.len(),
    ensures
        shards_entries(shards.update(index, shard)) == shards_entries(shards) - shards[index].entries.len()
            + shard.entries.len(),
        shards_bytes(shards.update(index, shard)) == shards_bytes(shards) - shards[index].bytes() + shard.bytes(),
    decreases shards.len(),
{
    let after = shards.update(index, shard);
    if index == shards.len() - 1 {
        assert(after.drop_last() =~= shards.drop_last());
    } else {
        lemma_shards_update(shards.drop_last(), index, shard);
        assert(after.drop_last() =~= shards.drop_last().update(index, shard));
        assert(after.last() == shards.last());
    }
}

/// Shards that each keep to their limits keep to the sum of the limits.
proof fn lemma_shards_bounded<T>(shards: Seq<CacheView<T>>, max_entries: int, max_bytes: int)
    requires
        max_entries >= 0,
        max_bytes >= 0,
        forall|i: int|
            0 <= i < shards.len() ==> (#[trigger] shards[i]).entries.len() <= max_entries && 0 <= shards[i].bytes()
                <= max_bytes,
    ensures
        0 <= shards_entries(shards) <= shards.len() * max_entries,
        0 <= shards_bytes(shards) <= shards.len() * max_bytes,
    decreases shards.len(),
{
    if shards.len() > 0 {
        assert forall|i: int| 0 <= i < shards.drop_last().len() implies (#[trigger] shards.drop_last()[i]).entries.len()
            <= max_entries && 0 <= shards.drop_last()[i].bytes() <= max_bytes by {
            assert(shards.drop_last()[i] == shards[i]);
        }
        lemma_shards_bounded(shards.drop_last(), max_entries, max_bytes);
        let count = shards.len() as int;
        assert(count * max_entries == (count - 1) * max_entries + max_entries) by (nonlinear_arith);
        assert(count * max_bytes == (count - 1) * max_bytes + max_bytes) by (nonlinear_arith);
    } else {
        assert(shards.len() * max_entries == 0) by (nonlinear_arith)
            requires
                shards.len() == 0,
        ;
        assert(shards.len() * max_bytes == 0) by (nonlinear_arith)
            requires
                shards.len() == 0,
        ;
    }
}

/// A cache that is split by object number into shards, each with its own part of
/// the limits.
pub struct ShardedCache<T> {
    pub shards: Vec<SharedCache<T>>,
    pub counters: CacheCounters,
}

/// The views of shards.
pub open spec fn shard_views<T>(shards: Seq<SharedCache<T>>) -> Seq<CacheView<T>> {
    Seq::new(shards.len(), |i: int| shards[i]@)
}

/// The shard has these limits.
pub open spec fn shard_fits<T>(shard: SharedCache<T>, max_entries: int, max_bytes: int) -> bool {
    shard.well_formed() && shard@.max_entries == max_entries && shard@.max_bytes == max_bytes
}

impl<T> ShardedCache<T> {
    /// The part of the entries that one shard may hold.
    pub open spec fn part_entries(&self) -> int {
        self.shards@[0]@.max_entries as int
    }

    /// The part of the bytes that one shard may hold.
    pub open spec fn part_bytes(&self) -> int {
        self.shards@[0]@.max_bytes as int
    }

    /// All the shards have the same limits, and the counters count what they hold.
    pub open spec fn well_formed(&self) -> bool {
        &&& self.shards@.len() > 0
        &&& self.shards@.len() * self.part_entries() <= usize::MAX
        &&& self.shards@.len() * self.part_bytes() <= usize::MAX
        &&& forall|i: int|
            0 <= i < self.shards@.len() ==> shard_fits(
                #[trigger] self.shards@[i],
                self.part_entries(),
                self.part_bytes(),
            )
        &&& self.counters.live_entries == shards_entries(shard_views(self.shards@))
        &&& self.counters.live_bytes == shards_bytes(shard_views(self.shards@))
        &&& self.counters.live_entries <= self.counters.peak_entries
        &&& self.counters.live_bytes <= self.counters.peak_bytes
    }

    /// The shard that an object belongs to.
    pub open spec fn home(&self, id: ObjectId) -> CacheView<T> {
        self.shards@[shard_index(id, self.shards@.len() as int)]@
    }

    proof fn lemma_shard_accounted(&self, index: int)
        requires
            self.well_formed(),
            0 <= index < self.shards@.len(),
        ensures
            accounted(self.shards@[index]@, self.counters),
            self.shards@[index].well_formed(),
    {
        let views = shard_views(self.shards@);
        let shard = self.shards@[index];
        assert(shard_fits(shard, self.part_entries(), self.part_bytes()));
        shard.law_cache_keeps_to_its_limits();
        let most = CacheView::<T> {
            entries: Map::empty(),
            probation: Seq::empty(),
            protected: Seq::empty(),
            ..shard@
        };
        let others = views.update(index, most);
        lemma_shards_update(views, index, most);
        assert(most.bytes() == 0);
        assert forall|i: int| 0 <= i < others.len() implies (#[trigger] others[i]).entries.len() <= self.part_entries()
            && 0 <= others[i].bytes() <= self.part_bytes() by {
            if i != index {
                assert(others[i] == self.shards@[i]@);
                assert(shard_fits(self.shards@[i], self.part_entries(), self.part_bytes()));
                self.shards@[i].law_cache_keeps_to_its_limits();
                lemma_bytes_nonnegative(others[i].entries, others[i].probation);
                lemma_bytes_nonnegative(others[i].entries, others[i].protected);
            }
        }
        lemma_shards_but_one(others, index, self.part_entries(), self.part_bytes());
        lemma_bytes_nonnegative(shard@.entries, shard@.probation);
        lemma_bytes_nonnegative(shard@.entries, shard@.protected);
    }

    /// The entries of all the shards together keep to the limits of the whole.
    pub proof fn law_shards_keep_to_the_whole(&self)
        requires
            self.well_formed(),
        ensures
            self.counters.live_entries <= self.shards@.len() * self.part_entries(),
            self.counters.live_bytes <= self.shards@.len() * self.part_bytes(),
            self.counters.live_entries <= self.counters.peak_entries,
            self.counters.live_bytes <= self.counters.peak_bytes,
    {
        let views = shard_views(self.shards@);
        assert forall|i: int| 0 <= i < views.len() implies (#[trigger] views[i]).entries.len() <= self.part_entries()
            && 0 <= views[i].bytes() <= self.part_bytes() by {
            assert(shard_fits(self.shards@[i], self.part_entries(), self.part_bytes()));
            self.shards@[i].law_cache_keeps_to_its_limits();
            lemma_bytes_nonnegative(views[i].entries, views[i].probation);
            lemma_bytes_nonnegative(views[i].entries, views[i].protected);
        }
        lemma_shards_bounded(views, self.part_entries(), self.part_bytes());
    }
}

/// Shards of which one is empty leave room for that one.
proof fn lemma_shards_but_one<T>(shards: Seq<CacheView<T>>, index: int, max_entries: int, max_bytes: int)
    requires
        0 <= index < shards.len(),
        max_entries >= 0,
        max_bytes >= 0,
        shards[index].entries.len() == 0,
        shards[index].bytes() == 0,
        forall|i: int|
            0 <= i < shards.len() ==> (#[trigger] shards[i]).entries.len() <= max_entries && 0 <= shards[i].bytes()
                <= max_bytes,
    ensures
        0 <= shards_entries(shards) <= shards.len() * max_entries - max_entries,
        0 <= shards_bytes(shards) <= shards.len() * max_bytes - max_bytes,
    decreases shards.len(),
{
    let count = shards.len() as int;
    assert(count * max_entries == (count - 1) * max_entries + max_entries) by (nonlinear_arith);
    assert(count * max_bytes == (count - 1) * max_bytes + max_bytes) by (nonlinear_arith);
    let front = shards.drop_last();
    assert forall|i: int| 0 <= i < front.len() implies (#[trigger] front[i]).entries.len() <= max_entries && 0
        <= front[i].bytes() <= max_bytes by {
        assert(front[i] == shards[i]);
    }
    if index == shards.len() - 1 {
        lemma_shards_bounded(front, max_entries, max_bytes);
    } else {
        assert(front[index] == shards[index]);
        lemma_shards_but_one(front, index, max_entries, max_bytes);
    }
}

impl<T> ShardedCache<T> {
    /// An empty cache with these limits.
    pub fn new(max_bytes: usize, max_entries: usize, max_entry_bytes: usize, protected_percent: usize) -> (cache: Self)
        ensures
            cache.well_formed(),
            cache.counters == zero_counters(),
            cache.shards@.len() == shard_count(max_entries),
            forall|i: int|
                0 <= i < cache.shards@.len() ==> (#[trigger] cache.shards@[i])@ == (CacheView::<T> {
                    entries: Map::empty(),
                    probation: Seq::empty(),
                    protected: Seq::empty(),
                    max_bytes: (max_bytes as int / shard_count(max_entries)) as usize,
                    max_entries: (max_entries as int / shard_count(max_entries)) as usize,
                    max_entry_bytes: (max_entry_bytes as int / shard_count(max_entries)) as usize,
                    protected_percent,
                }),
            1 <= cache.shards@.len() <= SHARED_OBJECT_MAX_SHARDS,
            max_entries >= SHARED_OBJECT_MIN_ENTRIES_PER_SHARD ==> forall|i: int|
                0 <= i < cache.shards@.len() ==> (#[trigger] cache.shards@[i])@.max_entries
                    >= SHARED_OBJECT_MIN_ENTRIES_PER_SHARD,
            forall|i: int|
                0 <= i < cache.shards@.len() ==> cache.shards@.len() * (#[trigger] cache.shards@[i])@.max_entries
                    <= max_entries && cache.shards@.len() * cache.shards@[i]@.max_bytes <= max_bytes,
    {
        let count: usize = shards_for(max_entries);
        let shard_bytes: usize = max_bytes / count;
        let shard_entries: usize = max_entries / count;
        let shard_entry_bytes: usize = max_entry_bytes / count;
        let ghost empty = CacheView::<T> {
            entries: Map::empty(),
            probation: Seq::empty(),
            protected: Seq::empty(),
            max_bytes: shard_bytes,
            max_entries: shard_entries,
            max_entry_bytes: shard_entry_bytes,
            protected_percent,
        };
        let mut shards: Vec<SharedCache<T>> = Vec::new();
        while shards.len() < count
            invariant
                shards@.len() <= count,
                empty == (CacheView::<T> {
                    entries: Map::empty(),
                    probation: Seq::empty(),
                    protected: Seq::empty(),
                    max_bytes: shard_bytes,
                    max_entries: shard_entries,
                    max_entry_bytes: shard_entry_bytes,
                    protected_percent,
                }),
                forall|i: int|
                    0 <= i < shards@.len() ==> (#[trigger] shards@[i])@ == empty && shards@[i].well_formed(),
                shards_entries(shard_views(shards@)) == 0,
                shards_bytes(shard_views(shards@)) == 0,
            decreases count - shards@.len(),
        {
            let ghost before = shards@;
            shards.push(SharedCache::new(shard_bytes, shard_entries, shard_entry_bytes, protected_percent));
            proof {
                assert(shard_views(shards@).drop_last() =~= shard_views(before));
                assert(shard_views(shards@).last() == empty);
            }
        }
        let cache = ShardedCache { shards, counters: CacheCounters::new() };
        proof {
            if max_entries >= SHARED_OBJECT_MIN_ENTRIES_PER_SHARD {
                let least = SHARED_OBJECT_MIN_ENTRIES_PER_SHARD as int;
                assert(count * least <= max_entries);
                assert(shard_entries >= least) by (nonlinear_arith)
                    requires
                        shard_entries == max_entries / count,
                        count > 0,
                        count * least <= max_entries,
                ;
            }
            assert(count * shard_entries <= max_entries) by (nonlinear_arith)
                requires
                    shard_entries == max_entries / count,
                    count > 0,
            ;
            assert(count * shard_bytes <= max_bytes) by (nonlinear_arith)
                requires
                    shard_bytes == max_bytes / count,
                    count > 0,
            ;
            assert forall|i: int| 0 <= i < cache.shards@.len() implies shard_fits(
                #[trigger] cache.shards@[i],
                cache.part_entries(),
                cache.part_bytes(),
            ) by {
                assert(cache.shards@[i]@ == empty);
                assert(cache.shards@[0]@ == empty);
            }
        }
        cache
    }

    /// Asks for an entry.
    pub fn begin(&mut self, id: ObjectId) -> (r: Begin<T>)
        requires
            old(self).well_formed(),
        ensures
            final(self).well_formed(),
            begun(
                old(self).home(id),
                old(self).counters,
                cache_key(id),
                r,
                final(self).home(id),
                final(self).counters,
            ),
            same_but_one(old(self).shards@, final(self).shards@, shard_index(id, old(self).shards@.len() as int)),
    {
        let index: usize = shard_of(id, self.shards.len());
        let ghost before = *self;
        proof {
            self.lemma_shard_accounted(index as int);
        }
        let r = self.shards[index].begin(id, &mut self.counters);
        proof {
            lemma_shard_changed(before, *self, index as int);
        }
        r
    }

    /// Hands in what was loaded under a ticket. It takes `bytes`.
    pub fn complete(&mut self, id: ObjectId, ticket: u64, result: &SharedCellResult<T>, bytes: usize)
        requires
            old(self).well_formed(),
        ensures
            final(self).well_formed(),
            completed(
                old(self).home(id),
                old(self).counters,
                cache_key(id),
                ticket,
                *result,
                bytes,
                final(self).home(id),
                final(self).counters,
            ),
            same_but_one(old(self).shards@, final(self).shards@, shard_index(id, old(self).shards@.len() as int)),
    {
        let index: usize = shard_of(id, self.shards.len());
        let ghost before = *self;
        proof {
            self.lemma_shard_accounted(index as int);
        }
        self.shards[index].complete(id, ticket, result, bytes, &mut self.counters);
        proof {
            lemma_shard_changed(before, *self, index as int);
        }
    }

    /// How many entries are on probation and how many bytes they take, and the
    /// same of the protected ones.
    pub fn residency(&self) -> (r: (usize, usize, usize, usize))
        requires
            self.well_formed(),
        ensures
            r.0 + r.2 == self.counters.live_entries,
            r.1 + r.3 == self.counters.live_bytes,
            r.0 == total_probation(shard_views(self.shards@)).0,
            r.1 == total_probation(shard_views(self.shards@)).1,
    {
        let ghost views = shard_views(self.shards@);
        let mut total: (usize, usize, usize, usize) = (0, 0, 0, 0);
        let mut index: usize = 0;
        assert(views.take(0) =~= Seq::empty());
        while index < self.shards.len()
            invariant
                index <= self.shards@.len(),
                views == shard_views(self.shards@),
                self.well_formed(),
                total.0 + total.2 == shards_entries(views.take(index as int)),
                total.1 + total.3 == shards_bytes(views.take(index as int)),
                total.0 == total_probation(views.take(index as int)).0,
                total.1 == total_probation(views.take(index as int)).1,
            decreases self.shards@.len() - index,
        {
            proof {
                assert(shard_fits(self.shards@[index as int], self.part_entries(), self.part_bytes()));
                assert(views.take(index + 1).drop_last() =~= views.take(index as int));
                assert(views.take(index + 1).last() == self.shards@[index as int]@);
                self.lemma_partial_sums(index + 1);
            }
            let shard = self.shards[index].residency();
            total = (total.0 + shard.0, total.1 + shard.1, total.2 + shard.2, total.3 + shard.3);
            index += 1;
        }
        assert(views.take(views.len() as int) =~= views);
        total
    }

    /// Some of the shards hold no more than all of them.
    proof fn lemma_partial_sums(&self, count: int)
        requires
            self.well_formed(),
            0 <= count <= self.shards@.len(),
        ensures
            shards_entries(shard_views(self.shards@).take(count)) <= usize::MAX,
            shards_bytes(shard_views(self.shards@).take(count)) <= usize::MAX,
    {
        let views = shard_views(self.shards@).take(count);
        assert forall|i: int| 0 <= i < views.len() implies (#[trigger] views[i]).entries.len() <= self.part_entries()
            && 0 <= views[i].bytes() <= self.part_bytes() by {
            assert(views[i] == self.shards@[i]@);
            assert(shard_fits(self.shards@[i], self.part_entries(), self.part_bytes()));
            self.shards@[i].law_cache_keeps_to_its_limits();
            lemma_bytes_nonnegative(views[i].entries, views[i].probation);
            lemma_bytes_nonnegative(views[i].entries, views[i].protected);
        }
        lemma_shards_bounded(views, self.part_entries(), self.part_bytes());
        let all = self.shards@.len() as int;
        assert(count * self.part_entries() <= all * self.part_entries()) by (nonlinear_arith)
            requires
                0 <= count <= all,
                0 <= self.part_entries(),
        ;
        assert(count * self.part_bytes() <= all * self.part_bytes()) by (nonlinear_arith)
            requires
                0 <= count <= all,
                0 <= self.part_bytes(),
        ;
    }
}

/// The entries on probation in some shards, and their bytes.
pub open spec fn total_probation<T>(shards: Seq<CacheView<T>>) -> (int, int)
    decreases shards.len(),
{
    if shards.len() == 0 {
        (0, 0)
    } else {
        let (entries, bytes) = total_probation(shards.drop_last());
        (
            entries + shards.last().probation.len(),
            bytes + queue_bytes(shards.last().entries, shards.last().probation),
        )
    }
}

/// Only one shard has changed.
pub open spec fn same_but_one<T>(before: Seq<SharedCache<T>>, after: Seq<SharedCache<T>>, index: int) -> bool {
    &&& after.len() == before.len()
    &&& forall|i: int| 0 <= i < before.len() && i != index ==> #[trigger] after[i] == before[i]
}

/// A change of one shard keeps the whole in order.
proof fn lemma_shard_changed<T>(before: ShardedCache<T>, after: ShardedCache<T>, index: int)
    requires
        before.well_formed(),
        0 <= index < before.shards@.len(),
        same_but_one(before.shards@, after.shards@, index),
        after.shards@[index].well_formed(),
        after.shards@[index]@.same_limits(before.shards@[index]@),
        accounted(after.shards@[index]@, after.counters),
        others_kept(before.shards@[index]@, before.counters, after.shards@[index]@, after.counters),
    ensures
        after.well_formed(),
{
    let old_views = shard_views(before.shards@);
    let new_views = shard_views(after.shards@);
    assert(new_views =~= old_views.update(index, after.shards@[index]@));
    lemma_shards_update(old_views, index, after.shards@[index]@);
    assert(shard_fits(before.shards@[0], before.part_entries(), before.part_bytes()));
    assert(shard_fits(before.shards@[index], before.part_entries(), before.part_bytes()));
    assert forall|i: int| 0 <= i < after.shards@.len() implies shard_fits(
        #[trigger] after.shards@[i],
        after.part_entries(),
        after.part_bytes(),
    ) by {
        assert(shard_fits(before.shards@[i], before.part_entries(), before.part_bytes()));
    }
}

} // verus!
