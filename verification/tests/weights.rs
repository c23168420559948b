use std::mem::size_of;

use lopdf::cmap::{map_weight, string_codes_weight, string_weight, strings_weight, ReverseCMapEntry, REVERSE_SLOT_ENVELOPE};
use lopdf::content::{content_weight, operation_parts_weight, operation_weight, Content, Operation};
use lopdf::locations::ObjectLocation64;
use lopdf::memory::{array_weight, entry_weight, object_weight, stream_weight};
use lopdf::object::Object;
use lopdf::object_stream::SelectedObjectStream;
use lopdf::open::PdfIndex;
use lopdf::page_map::PageMapEntry;
use lopdf::resolve::IndexedReader;
use lopdf::security::NoSecurity;
use lopdf::shared::selected_weight;
use lopdf::source::BytesSource;
use lopdf::stats::{index_weight, mapped_index_weight, LOCATION_ENVELOPE};

#[test]
fn objects_weigh_their_room() {
    assert_eq!(array_weight(3, 100), 3 * size_of::<Object>() + 100);
    assert_eq!(entry_weight(16, 100, 48), 16 + size_of::<(Vec<u8>, Object)>() + 48 + 100);
    assert_eq!(stream_weight(64, 100), 164);
    assert_eq!(object_weight(100), size_of::<Object>() + 100);
    assert_eq!(array_weight(usize::MAX, 1), usize::MAX);
    assert_eq!(stream_weight(usize::MAX, 1), usize::MAX);
}

#[test]
fn operations_weigh_their_room() {
    assert_eq!(operation_parts_weight(128, 16, 300), 128 + 16 * size_of::<Object>() + 300);
    assert_eq!(
        operation_weight(128, 16, 300),
        size_of::<Operation>() + 128 + 16 * size_of::<Object>() + 300
    );
    assert_eq!(
        content_weight(4, 300),
        size_of::<Content<Vec<Operation>>>() + 4 * size_of::<Operation>() + 300
    );
    assert_eq!(operation_weight(0, usize::MAX, 0), usize::MAX);
}

#[test]
fn an_index_weighs_its_room() {
    let base = size_of::<IndexedReader<BytesSource, NoSecurity>>() + size_of::<PdfIndex>() + 2 * size_of::<usize>();
    let slot = size_of::<u32>() + size_of::<ObjectLocation64>() + LOCATION_ENVELOPE;
    assert_eq!(
        index_weight::<BytesSource, NoSecurity>(5, 3, 200, 50),
        base + 3 + 5 * slot + 200 + 50
    );
    assert_eq!(mapped_index_weight(1000, 8), 1000 + 8 * size_of::<PageMapEntry>());
    assert_eq!(mapped_index_weight(1000, usize::MAX), usize::MAX);
}

#[test]
fn a_character_map_weighs_its_room() {
    assert_eq!(string_weight(10), 20);
    assert_eq!(strings_weight(4, 20), 4 * size_of::<Vec<u16>>() + 20);
    assert_eq!(string_codes_weight(10, 2), 20 + 2 * size_of::<ReverseCMapEntry>());
    assert_eq!(
        map_weight(70, 3, 40),
        70 + 3 * (size_of::<(Vec<u16>, Vec<ReverseCMapEntry>)>() + REVERSE_SLOT_ENVELOPE) + 40
    );
    assert_eq!(string_weight(usize::MAX), usize::MAX);
}

#[test]
fn a_container_weighs_its_room() {
    assert_eq!(selected_weight(500), 500 + size_of::<SelectedObjectStream>());
    assert_eq!(selected_weight(usize::MAX), usize::MAX);
}
