//! The figures that are reported, and the identifier that a document is known by.

use vstd::prelude::*;

use crate::object::{dict_get, DictionaryView, ObjectView, StringFormat};
use crate::reader::{file_id, KEY_ID};
use crate::stats::{
    reports_together, total, IndexedObjectCacheStats, IndexedObjectStreamCacheStats, IndexedReaderCacheStats,
    IndexedReaderSourceCacheStats,
};

verus! {

/// A document is known by the first of its two identifiers.
pub proof fn law_first_identifier_counts(
    trailer: DictionaryView,
    first: Seq<u8>,
    form: StringFormat,
    others: Seq<ObjectView>,
)
    requires
        dict_get(trailer, seq![0x49u8, 0x44]) == Some(
            ObjectView::Array(seq![ObjectView::String(first, form)] + others),
        ),
    ensures
        file_id(trailer) == Some(first),
{
    assert(KEY_ID@ =~= seq![0x49u8, 0x44]);
    let items = seq![ObjectView::String(first, form)] + others;
    assert(items[0] == ObjectView::String(first, form));
}

/// The order in which numbers are added up does not matter, and each counts once.
pub proof fn law_totals_add_up(one: Seq<usize>, other: Seq<usize>, bytes: usize)
    ensures
        total(seq![bytes]) == bytes,
        total(one + other) == total(one) + total(other),
    decreases other.len(),
{
    assert(seq![bytes].drop_last() =~= Seq::empty());
    assert(total(Seq::<usize>::empty()) == 0);
    if other.len() == 0 {
        assert(one + other =~= one);
    } else {
        law_totals_add_up(one, other.drop_last(), bytes);
        assert((one + other).drop_last() =~= one + other.drop_last());
    }
}

/// What a reader reports is what its three caches report together, where that can be
/// counted.
pub proof fn law_reports_add_up(
    source: IndexedReaderSourceCacheStats,
    object: IndexedObjectCacheStats,
    object_stream: IndexedObjectStreamCacheStats,
    stats: IndexedReaderCacheStats,
)
    requires
        reports_together(source, object, object_stream, stats),
        object.probation_bytes + object.protected_bytes <= usize::MAX,
        source.retained_bytes + source.in_flight_bytes + object.probation_bytes + object.protected_bytes
            + object_stream.bytes <= u64::MAX,
        source.retained_entries + source.in_flight_entries + object.probation_entries + object.protected_entries
            + object_stream.entries <= usize::MAX,
    ensures
        stats.current_bytes == source.retained_bytes + source.in_flight_bytes + object.probation_bytes
            + object.protected_bytes + object_stream.bytes,
        stats.current_entries == source.retained_entries + source.in_flight_entries + object.probation_entries
            + object.protected_entries + object_stream.entries,
{
}

} // verus!
