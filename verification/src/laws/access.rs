//! What is read of a source, and where objects stand in it.

use vstd::prelude::*;

use crate::errors::{IndexedReaderError, SourceError};
use crate::locations::{
    indexed_location, live_numbers, merged, IndexedObjectLocation, LocationMap, ObjectLocation64,
};
use crate::source::{range_of, window_of};

verus! {

/// A range gives the bytes from its offset on, as many as it is long, and nothing where
/// it reaches behind the end.
pub proof fn law_ranges_give_their_bytes(contents: Seq<u8>, offset: u64, length: u64, index: int)
    requires
        contents.len() <= u64::MAX,
        length <= usize::MAX,
    ensures
        range_of(contents, offset, length) is Ok <==> offset + length <= contents.len(),
        0 <= index < length && offset + length <= contents.len() ==> ({
            let bytes = range_of(contents, offset, length)->Ok_0;
            bytes.len() == length && bytes[index] == contents[offset + index]
        }),
        offset + length > contents.len() && offset + length <= u64::MAX ==> range_of(contents, offset, length) == Err::<
            Seq<u8>,
            IndexedReaderError,
        >(
            IndexedReaderError::Source(
                SourceError::OutOfBounds { offset, length, source_len: contents.len() as u64 },
            ),
        ),
{
}

/// A window gives as many bytes as it may, up to the end of the source.
pub proof fn law_windows_reach_to_the_end(contents: Seq<u8>, offset: u64, limit: u64, index: int)
    requires
        contents.len() <= u64::MAX,
        limit <= usize::MAX,
        offset <= contents.len(),
    ensures
        ({
            let bytes = window_of(contents, contents.len() as u64, offset, limit);
            &&& bytes is Ok
            &&& bytes->Ok_0.len() <= limit
            &&& bytes->Ok_0.len() == limit || offset + bytes->Ok_0.len() == contents.len()
            &&& offset + bytes->Ok_0.len() <= contents.len()
            &&& 0 <= index < bytes->Ok_0.len() ==> bytes->Ok_0[index] == contents[offset + index]
        }),
{
}

/// A free number is that of no object; one in an object stream is found by the stream and
/// its index there.
pub proof fn law_locations_are_told(locations: LocationMap, number: u32, container: u32, index: u32)
    requires
        locations.contains_key(number),
    ensures
        locations[number] is Free ==> indexed_location(locations, number) is None && !live_numbers(locations).contains(
            number,
        ),
        locations[number] is Normal ==> indexed_location(locations, number) == Some(IndexedObjectLocation::Normal)
            && live_numbers(locations).contains(number),
        locations[number] == (ObjectLocation64::Compressed { container, index }) ==> indexed_location(locations, number)
            == Some(IndexedObjectLocation::Compressed { container: (container, 0), index }) && live_numbers(
            locations,
        ).contains(number),
{
}

/// Of two revisions the newer one tells where an object stands that both know, and the
/// older one, where only that knows it. A number that the newer one frees stays free.
pub proof fn law_newer_locations_hide_older_ones(newer: LocationMap, older: LocationMap, number: u32)
    ensures
        newer.contains_key(number) ==> merged(newer, older).contains_key(number) && merged(newer, older)[number]
            == newer[number],
        !newer.contains_key(number) && older.contains_key(number) ==> merged(newer, older).contains_key(number)
            && merged(newer, older)[number] == older[number],
        !newer.contains_key(number) && !older.contains_key(number) ==> !merged(newer, older).contains_key(number),
{
}

} // verus!
