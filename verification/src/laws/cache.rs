//! Which entries a cache keeps.

use vstd::prelude::*;

use crate::cache::{
    begun, handed_in, higher, key_position, none_leave, queue_bytes, shard_count, shard_index, share, taken_in,
    transient_result, without_key, Begin, CacheCounters, CacheEntry, CacheSegment, CacheView, CellState,
    SharedCellResult,
};

verus! {

/// Every step lets an entry leave.
pub open spec fn all_leave(count: nat) -> Seq<bool> {
    Seq::new(count, |i: int| true)
}

proof fn lemma_absent(queue: Seq<u64>, key: u64, from: int)
    requires
        0 <= from <= queue.len(),
        !queue.contains(key),
    ensures
        key_position(queue, key, from) >= queue.len(),
    decreases queue.len() - from,
{
    if from < queue.len() {
        assert(queue.contains(queue[from]));
        lemma_absent(queue, key, from + 1);
    }
}

proof fn lemma_front(queue: Seq<u64>)
    requires
        queue.len() > 0,
    ensures
        without_key(queue, queue[0]) == queue.skip(1),
{
    assert(key_position(queue, queue[0], 0) == 0);
    assert(queue.remove(0) =~= queue.skip(1));
}

/// Entries leave in the order in which they came: as long as entries are on probation,
/// the one that has been on it longest leaves first, and no protected entry does.
pub proof fn law_oldest_on_probation_leave_first<T>(view: CacheView<T>, count: nat)
    requires
        view.well_formed(),
        count <= view.probation.len(),
    ensures
        view.swept(all_leave(count)).probation == view.probation.skip(count as int),
        view.swept(all_leave(count)).protected == view.protected,
        forall|key: u64| #[trigger]
            view.swept(all_leave(count)).entries.contains_key(key) <==> view.entries.contains_key(key)
                && !view.probation.take(count as int).contains(key),
        forall|key: u64| #[trigger]
            view.swept(all_leave(count)).entries.contains_key(key) ==> view.swept(all_leave(count)).entries[key]
                == view.entries[key],
    decreases count,
{
    if count == 0 {
        assert(view.probation.skip(0) =~= view.probation);
        assert(view.probation.take(0) =~= Seq::empty());
    } else {
        let fewer = (count - 1) as nat;
        law_oldest_on_probation_leave_first(view, fewer);
        assert(all_leave(count).drop_last() =~= all_leave(fewer));
        let before = view.swept(all_leave(fewer));
        let key = view.probation[fewer as int];
        assert(before.probation[0] == key);
        assert(before.oldest() == key);
        lemma_front(before.probation);
        assert(view.probation.contains(key));
        assert(!view.protected.contains(key));
        lemma_absent(view.protected, key, 0);
        let after = view.swept(all_leave(count));
        assert(after == before.removed(key));
        assert(after.probation =~= view.probation.skip(count as int));
        let taken = view.probation.take(count as int);
        let earlier = view.probation.take(fewer as int);
        assert forall|other: u64| #[trigger]
            after.entries.contains_key(other) <==> view.entries.contains_key(other) && !taken.contains(other) by {
            assert(taken =~= earlier.push(key));
            if taken.contains(other) && other != key {
                let i = choose|i: int| 0 <= i < taken.len() && taken[i] == other;
                assert(earlier[i] == other);
            }
            if earlier.contains(other) {
                let i = choose|i: int| 0 <= i < earlier.len() && earlier[i] == other;
                assert(taken[i] == other);
            }
            assert(taken[fewer as int] == key);
            assert(before.entries.contains_key(other) <==> view.entries.contains_key(other) && !earlier.contains(other));
        }
        assert forall|other: u64| #[trigger] after.entries.contains_key(other) implies after.entries[other]
            == view.entries[other] by {
            assert(before.entries.contains_key(other));
        }
    }
}

/// A new entry waits behind all the others that are on probation.
pub proof fn law_new_entries_wait_behind_the_others<T>(view: CacheView<T>, key: u64, ticket: u64)
    ensures
        view.started(key, ticket).probation == view.probation.push(key),
        view.started(key, ticket).protected == view.protected,
        view.started(key, ticket).is_loading(key, ticket),
        forall|other: u64|
            other != key ==> (#[trigger] view.started(key, ticket).entries.contains_key(other)
                == view.entries.contains_key(other)) && view.started(key, ticket).entries[other] == view.entries[other],
{
}

/// An entry on probation that is used becomes protected, the youngest of those that are,
/// and the others on probation keep their order. Where protected entries then take more
/// than their share, the oldest of them goes back on probation, behind the others there.
pub proof fn law_used_entries_become_protected<T>(view: CacheView<T>, key: u64)
    requires
        view.well_formed(),
        view.probation.contains(key),
    ensures
        ({
            let used = view.promote(key);
            &&& used.protected == view.protected.push(key)
            &&& used.entries[key].segment == CacheSegment::Protected
            &&& used.entries[key].state == view.entries[key].state
            &&& used.probation == view.probation.filter(|other: u64| other != key)
            &&& queue_bytes(used.entries, used.protected) <= share(view.max_bytes, view.protected_percent)
                && used.protected.len() <= share(view.max_entries, view.protected_percent) ==> view.touched(key) == used
            &&& queue_bytes(used.entries, used.protected) > share(view.max_bytes, view.protected_percent)
                || used.protected.len() > share(view.max_entries, view.protected_percent) ==> view.touched(key) == (
            CacheView {
                entries: used.entries.insert(
                    used.protected[0],
                    CacheEntry { segment: CacheSegment::Probation, ..used.entries[used.protected[0]] },
                ),
                probation: used.probation.push(used.protected[0]),
                protected: used.protected.skip(1),
                ..used
            }).demoted()
        }),
{
    assert(view.entries.contains_key(key));
    assert(view.entries[key].segment == CacheSegment::Probation);
    lemma_without_is_filter(view.probation, key, 0);
}

proof fn lemma_without_is_filter(queue: Seq<u64>, key: u64, from: int)
    requires
        queue.no_duplicates(),
        queue.contains(key),
        from == 0,
    ensures
        without_key(queue, key) == queue.filter(|other: u64| other != key),
    decreases queue.len(),
{
    let keeps = |other: u64| other != key;
    reveal(Seq::filter);
    let front = queue.drop_last();
    if queue.last() == key {
        assert(!front.contains(key)) by {
            if front.contains(key) {
                let i = choose|i: int| 0 <= i < front.len() && front[i] == key;
                assert(queue[i] == queue[queue.len() - 1]);
            }
        }
        lemma_position_at(queue, key, 0, queue.len() - 1);
        assert(queue.remove(queue.len() - 1) =~= front);
        lemma_filter_all(front, key);
    } else {
        let i = choose|i: int| 0 <= i < queue.len() && queue[i] == key;
        assert(front[i] == key);
        assert(front.no_duplicates());
        lemma_without_is_filter(front, key, 0);
        lemma_position_at(queue, key, 0, i);
        lemma_position_at(front, key, 0, i);
        assert(queue.remove(i) =~= front.remove(i).push(queue.last()));
    }
}

proof fn lemma_position_at(queue: Seq<u64>, key: u64, from: int, at: int)
    requires
        queue.no_duplicates(),
        0 <= from <= at < queue.len(),
        queue[at] == key,
    ensures
        key_position(queue, key, from) == at,
    decreases at - from,
{
    if from < at {
        assert(queue[from] != queue[at]);
        lemma_position_at(queue, key, from + 1, at);
    }
}

proof fn lemma_filter_all(queue: Seq<u64>, key: u64)
    requires
        !queue.contains(key),
    ensures
        queue.filter(|other: u64| other != key) == queue,
    decreases queue.len(),
{
    reveal(Seq::filter);
    if queue.len() > 0 {
        let front = queue.drop_last();
        assert forall|i: int| 0 <= i < front.len() implies front[i] != key by {
            assert(queue.contains(queue[i]));
        }
        assert(queue.contains(queue.last()));
        lemma_filter_all(front, key);
        assert(front.push(queue.last()) =~= queue);
    }
}

/// Using a protected entry moves nothing.
pub proof fn law_protected_entries_stay_in_place<T>(view: CacheView<T>, key: u64)
    requires
        view.entries.contains_key(key),
        view.entries[key].segment == CacheSegment::Protected,
    ensures
        view.touched(key) == view,
{
}

/// The share that protected entries may take is so many hundredths of the whole.
pub proof fn law_shares_are_hundredths(total: usize, percent: usize)
    requires
        total * percent <= usize::MAX,
    ensures
        share(total, percent) * 100 <= total * percent < share(total, percent) * 100 + 100,
{
}

proof fn lemma_queue_bytes<T>(entries: Map<u64, CacheEntry<T>>, queue: Seq<u64>)
    ensures
        queue_bytes(entries, queue) >= 0,
    decreases queue.len(),
{
    if queue.len() > 0 {
        lemma_queue_bytes(entries, queue.drop_last());
    }
}

/// A value for which there is room beside all the others is kept, and nothing leaves for
/// it or moves. Room up to the limits is room, and so is all that one entry may take.
pub proof fn law_nothing_leaves_where_there_is_room<T>(
    before: CacheView<T>,
    counted: CacheCounters,
    key: u64,
    ticket: u64,
    result: SharedCellResult<T>,
    bytes: usize,
    after: CacheView<T>,
    counts: CacheCounters,
)
    requires
        handed_in(false, before, counted, key, ticket, result, bytes, after, counts),
        before.is_loading(key, ticket),
        !transient_result(result),
        bytes <= before.max_entry_bytes,
        before.bytes() + bytes <= before.max_bytes,
    ensures
        after.probation == before.probation,
        after.protected == before.protected,
        after.entries.dom() == before.entries.dom(),
        after.entries[key].state == CellState::Ready(result),
        after.entries[key].bytes == bytes,
        forall|other: u64| other != key ==> #[trigger] after.entries[other] == before.entries[other],
{
    lemma_queue_bytes(before.entries, before.probation);
    lemma_queue_bytes(before.entries, before.protected);
    assert(after.entries.contains_key(key));
    let steps = choose|steps: Seq<bool>| #[trigger]
        before.may_sweep(None, steps) && before.crowded(steps, bytes) && before.swept(steps).bytes() + bytes
            <= before.max_bytes && taken_in(
            false,
            before.swept(steps).finished(key, result, bytes).trimmed(false),
            counted,
            key,
            after,
            counts,
        );
    if steps.len() > 0 {
        assert(steps.take(0) =~= Seq::empty());
        assert(before.swept(steps.take(0)).bytes() + bytes > before.max_bytes);
    }
    assert(before.swept(steps) == before);
    assert(after.entries.dom() =~= before.entries.dom());
}

/// A value that is larger than an entry or the whole cache may be is not kept, and the
/// others stay.
pub proof fn law_values_that_are_too_large_are_not_kept<T>(
    trims: bool,
    before: CacheView<T>,
    counted: CacheCounters,
    key: u64,
    ticket: u64,
    result: SharedCellResult<T>,
    bytes: usize,
    after: CacheView<T>,
    counts: CacheCounters,
)
    requires
        handed_in(trims, before, counted, key, ticket, result, bytes, after, counts),
        before.is_loading(key, ticket),
        bytes > before.max_entry_bytes || bytes > before.max_bytes,
    ensures
        !after.entries.contains_key(key),
        forall|other: u64|
            other != key ==> after.entries.contains_key(other) == before.entries.contains_key(other)
                && #[trigger] after.entries[other] == before.entries[other],
{
}

/// A key that is not known is loaded, and as long as there is room for one more entry
/// nothing leaves for it.
pub proof fn law_new_keys_are_loaded<T>(
    before: CacheView<T>,
    counted: CacheCounters,
    key: u64,
    begin: Begin<T>,
    after: CacheView<T>,
    counts: CacheCounters,
)
    requires
        begun(before, counted, key, begin, after, counts),
        !before.entries.contains_key(key),
        before.entries.len() < before.max_entries,
    ensures
        begin matches Begin::Load(ticket) && after.is_loading(key, ticket),
        after.probation == before.probation.push(key),
        after.protected == before.protected,
        forall|other: u64| other != key ==> #[trigger] after.entries[other] == before.entries[other],
{
}

/// Once the segments keep to their shares, which may be used up, nothing leaves when a
/// value comes in.
pub proof fn law_shares_may_be_used_up<T>(
    kept: CacheView<T>,
    counted: CacheCounters,
    key: u64,
    after: CacheView<T>,
    counts: CacheCounters,
)
    requires
        taken_in(true, kept, counted, key, after, counts),
        kept.entries.len() <= kept.max_entries,
        kept.bytes() <= kept.max_bytes,
        queue_bytes(kept.entries, kept.probation) + share(kept.max_bytes, kept.protected_percent) <= kept.max_bytes,
        kept.probation.len() + share(kept.max_entries, kept.protected_percent) <= kept.max_entries,
    ensures
        after == kept,
{
    let steps = choose|steps: Seq<bool>| #[trigger]
        kept.may_sweep(Some(key), steps) && kept.overfull_at(steps) && after == kept.swept(steps) && (after.overfull()
            ==> none_leave(steps, after.patience())) && counts.peak_bytes == higher(
            counted.peak_bytes as int,
            counts.live_bytes - after.bytes() + kept.told(steps),
        );
    if steps.len() > 0 {
        assert(steps.take(0) =~= Seq::empty());
        assert(kept.swept(steps.take(0)).overfull());
    }
}

/// A cache is split into one, two, four, eight or sixteen shards: into more than one only
/// where each gets 128 entries, and into as many as that allows. Every generation of an
/// object belongs to the same shard.
pub proof fn law_caches_are_split_evenly(max_entries: usize, number: u32, generation: u16, other: u16)
    ensures
        ({
            let count = shard_count(max_entries);
            &&& count == 1 || count == 2 || count == 4 || count == 8 || count == 16
            &&& count > 1 ==> max_entries >= 128 * count
            &&& count < 16 ==> max_entries < 256 * count
            &&& 0 <= shard_index((number, generation), count) < count
            &&& shard_index((number, generation), count) == shard_index((number, other), count)
        }),
        shard_index((0, generation), 16) == 0,
        number < u32::MAX && number % 16 < 15 ==> shard_index(((number + 1) as u32, generation), 16) == shard_index(
            (number, generation),
            16,
        ) + 1,
{
}

} // verus!
