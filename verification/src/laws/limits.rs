//! What is still accepted, and what no longer is.

use vstd::prelude::*;

use crate::errors::{DecompressError, Error, IndexedReaderError, StreamMetadataError};
use crate::filters::{decoded, limited, KEY_FILTER, KEY_PREDICTOR};
use crate::framing::{endstream_of, EndstreamStatus};
use crate::laws::page_map::{page_word, typed};
use crate::locations::ObjectLocation64;
use crate::object::{dict_get, DictionaryView, ObjectId, ObjectView, KEY_TYPE};
use crate::page_map::{
    owners_below, tree_dictionary, visited, PageMapEntry, PageMapLimits, SlotView, WalkView, NAME_PAGE,
};
use crate::predictor::{layout_of, nearest, restored, row_of, rows_from, Layout};
use crate::resolve::{object_at, span_metadata, DocumentView, MetadataView};
use crate::xref::{
    big_endian, dict_integers, dict_unsigned, stream_entry_at, stream_run, stream_runs, stream_section, stream_total,
    KEY_INDEX, KEY_SIZE, KEY_W,
};

verus! {

/// Content that no filter is named for is given as it is, up to the limit and with it.
pub proof fn law_unfiltered_content_keeps_to_the_limit(dict: DictionaryView, content: Seq<u8>, limit: usize)
    requires
        dict_get(dict, seq![0x46u8, 0x69, 0x6c, 0x74, 0x65, 0x72]) is None,
    ensures
        content.len() <= limit ==> decoded(dict, content, limit) == Ok::<Seq<u8>, Error>(content),
        content.len() > limit ==> decoded(dict, content, limit) == Err::<Seq<u8>, Error>(
            Error::Decompress(DecompressError::MemoryLimitExceeded { limit }),
        ),
{
    assert(KEY_FILTER@ =~= seq![0x46u8, 0x69, 0x6c, 0x74, 0x65, 0x72]);
}

/// What inflating gives is kept up to the limit and with it.
pub proof fn law_inflated_content_keeps_to_the_limit(bytes: Seq<u8>, limit: usize)
    ensures
        bytes.len() <= limit ==> limited(Some(bytes), limit) == Ok::<Seq<u8>, Error>(bytes),
        bytes.len() > limit ==> limited(Some(bytes), limit) == Err::<Seq<u8>, Error>(
            Error::Decompress(DecompressError::MemoryLimitExceeded { limit }),
        ),
        limited(None, limit) is Err,
{
}

/// A stream whose content ends inside the source, with `endstream` behind it, is taken
/// whole, up to the limit and with it. A longer one is refused, and so is a negative
/// length.
pub proof fn law_streams_keep_to_the_limit(
    d: DocumentView,
    id: ObjectId,
    dictionary: DictionaryView,
    start: u64,
    length: i64,
    limit: u64,
)
    requires
        d.contents.len() <= u64::MAX,
    ensures
        length < 0 ==> span_metadata(d, id, dictionary, start, length, Some(limit)) == Err::<
            MetadataView,
            StreamMetadataError,
        >(StreamMetadataError::Reader(IndexedReaderError::NegativeStreamLength { id, length })),
        length > limit ==> span_metadata(d, id, dictionary, start, length, Some(limit)) == Err::<
            MetadataView,
            StreamMetadataError,
        >(StreamMetadataError::EncodedLimit { id, length: length as u64, limit }),
        0 <= length <= limit && start + length <= d.contents.len() && endstream_of(
            d.contents,
            d.contents.len() as u64,
            (start + length) as u64,
            d.limits.max_endstream_tail_bytes,
        ) == Ok::<EndstreamStatus, IndexedReaderError>(EndstreamStatus::Found) ==> span_metadata(
            d,
            id,
            dictionary,
            start,
            length,
            Some(limit),
        ) == Ok::<MetadataView, StreamMetadataError>(
            MetadataView::Span { dictionary, encoded_start: start, encoded_len: length as u64 },
        ),
        0 <= length <= limit && start + length <= u64::MAX && start + length > d.contents.len() ==> span_metadata(
            d,
            id,
            dictionary,
            start,
            length,
            Some(limit),
        ) == Ok::<MetadataView, StreamMetadataError>(MetadataView::Scalar(ObjectView::Dictionary(dictionary))),
{
}

/// Objects that need others are resolved as deep as the limit says and no deeper, and an
/// object that needs itself is refused.
pub proof fn law_resolution_keeps_to_its_depth(d: DocumentView, id: ObjectId, active: Seq<ObjectId>, depth: nat)
    ensures
        depth >= d.limits.max_length_depth ==> object_at(d, id, active, depth) == Err::<ObjectView, IndexedReaderError>(
            IndexedReaderError::ResolutionDepthExceeded { limit: d.limits.max_length_depth },
        ),
        depth < d.limits.max_length_depth && active.contains(id) ==> object_at(d, id, active, depth) == Err::<
            ObjectView,
            IndexedReaderError,
        >(IndexedReaderError::ResolutionCycle { id }),
        depth < d.limits.max_length_depth && !active.contains(id) && !d.locations.contains_key(id.0) ==> object_at(
            d,
            id,
            active,
            depth,
        ) == Err::<ObjectView, IndexedReaderError>(IndexedReaderError::MissingNormalObject { id }),
{
}

/// A page is taken while no more pages than the limit come together and it stands no
/// deeper than the limit. One that is too deep, or one too many, ends the walk.
pub proof fn law_pages_keep_to_their_limits(
    d: DocumentView,
    limits: PageMapLimits,
    walk: WalkView,
    kid: SlotView,
    id: ObjectId,
    dictionary: DictionaryView,
)
    requires
        kid.id == Some(id),
        tree_dictionary(d, id) == Ok::<Option<DictionaryView>, IndexedReaderError>(Some(dictionary)),
        typed(dictionary, page_word()),
    ensures
        kid.depth <= limits.max_depth && walk.pages.len() < limits.max_pages ==> (visited(d, limits, walk, kid) matches Ok(
            next,
        ) && next.pages.len() == walk.pages.len() + 1 && next.pages.take(walk.pages.len() as int) == walk.pages
            && next.pages.last().id == id && next.pending == walk.pending),
        kid.depth <= limits.max_depth && walk.pages.len() >= limits.max_pages ==> visited(d, limits, walk, kid) == Err::<
            WalkView,
            IndexedReaderError,
        >(IndexedReaderError::PageCountLimitExceeded { limit: limits.max_pages }),
        kid.depth > limits.max_depth ==> visited(d, limits, walk, kid) == Err::<WalkView, IndexedReaderError>(
            IndexedReaderError::PageTreeDepthLimitExceeded { limit: limits.max_depth },
        ),
{
    assert(KEY_TYPE@ =~= seq![0x54u8, 0x79, 0x70, 0x65]);
    assert(NAME_PAGE@ =~= page_word());
    let pages = walk.pages.push(PageMapEntry { id, inherited: owners_below(kid.inherited, id, dictionary) });
    assert(pages.take(walk.pages.len() as int) =~= walk.pages);
}

/// How far apart two numbers are.
pub open spec fn apart(one: int, other: int) -> int {
    if one <= other {
        other - one
    } else {
        one - other
    }
}

/// Of the three neighbours the one is taken that is nearest to the sum of the left and the
/// upper one less the corner. Where two are as near, the left one goes before the others
/// and the upper one before the corner.
pub proof fn law_nearest_neighbour_is_taken(left: int, above: int, corner: int)
    ensures
        apart(above, corner) <= apart(left, corner) && apart(above, corner) <= apart(left + above, 2 * corner)
            ==> nearest(left, above, corner) == left,
        apart(left, corner) < apart(above, corner) && apart(left, corner) <= apart(left + above, 2 * corner) ==> nearest(
            left,
            above,
            corner,
        ) == above,
        apart(left + above, 2 * corner) < apart(above, corner) && apart(left + above, 2 * corner) < apart(left, corner)
            ==> nearest(left, above, corner) == corner,
{
}

/// The rows are whole, and each is of a known kind.
pub open spec fn whole_rows(content: Seq<u8>, position: int, row: int) -> bool
    decreases content.len() - position,
{
    position >= content.len() || row >= 0 && position + 1 + row <= content.len() && content[position] <= 4 && whole_rows(
        content,
        position + 1 + row,
        row,
    )
}

proof fn lemma_whole_rows(content: Seq<u8>, position: int, above: Seq<u8>, layout: Layout)
    requires
        0 <= position,
        layout.row >= 0,
    ensures
        rows_from(content, position, above, layout) is Ok <==> whole_rows(content, position, layout.row),
    decreases content.len() - position,
{
    if position < content.len() && content[position] <= 4 && position + 1 + layout.row <= content.len() {
        let row = row_of(
            content[position],
            content.subrange(position + 1, position + 1 + layout.row),
            above,
            layout.pixel,
        );
        lemma_whole_rows(content, position + 1 + layout.row, row, layout);
    }
}

/// Each predictor from 10 to 15 undoes rows that are whole, whatever kinds they are of,
/// and refuses others. Predictors that are neither that nor none are refused.
pub proof fn law_whole_rows_are_restored(parameters: DictionaryView, content: Seq<u8>, predictor: i64, layout: Layout)
    requires
        dict_get(parameters, seq![0x50u8, 0x72, 0x65, 0x64, 0x69, 0x63, 0x74, 0x6f, 0x72]) == Some(
            ObjectView::Integer(predictor),
        ),
        layout_of(parameters) == Some(layout),
        layout.row >= 0,
    ensures
        10 <= predictor <= 15 ==> (restored(Some(ObjectView::Dictionary(parameters)), content) is Ok <==> whole_rows(
            content,
            0,
            layout.row,
        )),
        2 <= predictor <= 9 || predictor > 15 ==> restored(Some(ObjectView::Dictionary(parameters)), content) is Err,
{
    assert(KEY_PREDICTOR@ =~= seq![0x50u8, 0x72, 0x65, 0x64, 0x69, 0x63, 0x74, 0x6f, 0x72]);
    lemma_whole_rows(content, 0, Seq::new(layout.row as nat, |i: int| 0u8), layout);
}

/// A record of an unknown type is passed over.
pub proof fn law_unknown_records_are_passed_over(
    content: Seq<u8>,
    position: int,
    widths: Seq<u64>,
    start: u64,
    count: u64,
    index: int,
    offset: u64,
    entries: Seq<(u32, ObjectLocation64)>,
)
    requires
        0 <= index < count,
        start + index <= u32::MAX,
        widths[0] > 0,
        big_endian(content.subrange(position, position + widths[0])) > 2,
    ensures
        stream_run(content, position, widths, start, count, index, offset, entries) == stream_run(
            content,
            position + widths[0] + widths[1] + widths[2],
            widths,
            start,
            count,
            index + 1,
            offset,
            entries,
        ),
{
}

/// The record at `at` fits what an entry holds.
pub open spec fn fits(content: Seq<u8>, at: int, widths: Seq<u64>) -> bool {
    let (first, second, third) = (widths[0] as int, widths[1] as int, widths[2] as int);
    let kind = if first == 0 {
        1
    } else {
        big_endian(content.subrange(at, at + first)) as int
    };
    let middle = big_endian(content.subrange(at + first, at + first + second));
    let last = big_endian(content.subrange(at + first + second, at + first + second + third));
    &&& kind <= 1 ==> last <= 0xffff
    &&& kind == 2 ==> middle <= 0xffff_ffff && last <= 0xffff_ffff
}

/// Every record of a run fits what an entry holds.
pub open spec fn all_fit(content: Seq<u8>, position: int, widths: Seq<u64>, count: int) -> bool
    decreases count,
{
    count <= 0 || fits(content, position, widths) && all_fit(
        content,
        position + widths[0] + widths[1] + widths[2],
        widths,
        count - 1,
    )
}

proof fn lemma_run_is_read(
    content: Seq<u8>,
    position: int,
    widths: Seq<u64>,
    start: u64,
    count: u64,
    index: int,
    offset: u64,
    entries: Seq<(u32, ObjectLocation64)>,
)
    requires
        0 <= index <= count,
        start + count <= 0x1_0000_0000,
        all_fit(content, position, widths, count - index),
    ensures
        stream_run(content, position, widths, start, count, index, offset, entries) is Ok,
    decreases count - index,
{
    if index < count {
        let entry = stream_entry_at(content, position, widths, start + index, offset)->Ok_0;
        let more = match entry {
            Some(entry) => entries.push(entry),
            None => entries,
        };
        lemma_run_is_read(
            content,
            position + widths[0] + widths[1] + widths[2],
            widths,
            start,
            count,
            index + 1,
            offset,
            more,
        );
    }
}

/// A cross-reference stream without runs of its own, with fields of up to eight bytes, a
/// million records or fewer and content for all of them, is read where each record fits
/// what an entry holds.
pub proof fn law_whole_stream_sections_are_read(
    dict: DictionaryView,
    content: Seq<u8>,
    offset: u64,
    size: u64,
    widths: Seq<u64>,
)
    requires
        dict_unsigned(dict, seq![0x53u8, 0x69, 0x7a, 0x65]) == Some(size),
        dict_integers(dict, seq![0x57u8]) == Some(widths),
        dict_integers(dict, seq![0x49u8, 0x6e, 0x64, 0x65, 0x78]) is None,
        widths.len() == 3,
        widths[0] <= 8,
        widths[1] <= 8,
        widths[2] <= 8,
        size <= 1_000_000,
        size * (widths[0] + widths[1] + widths[2]) <= content.len(),
        all_fit(content, 0, widths, size as int),
    ensures
        stream_section(dict, content, offset) is Ok,
{
    assert(KEY_SIZE@ =~= seq![0x53u8, 0x69, 0x7a, 0x65]);
    assert(KEY_W@ =~= seq![0x57u8]);
    assert(KEY_INDEX@ =~= seq![0x49u8, 0x6e, 0x64, 0x65, 0x78]);
    let indices = seq![0u64, size];
    reveal_with_fuel(stream_total, 2);
    assert(stream_total(indices, 1) == size);
    lemma_run_is_read(content, 0, widths, 0, size, 0, offset, Seq::empty());
    reveal_with_fuel(stream_runs, 2);
    assert(stream_runs(content, 0, widths, indices, 0, offset, Seq::empty()) is Ok);
}

} // verus!
