//! What each part of a kept value adds to its weight.

use vstd::layout::size_of;
use vstd::prelude::*;

use crate::cmap::{
    forward_rooms_bytes, map_bytes, range_rooms_bytes, target_room_bytes, units_bytes, ReverseCMapEntry, TargetRoom,
};
use crate::content::{room_bytes, rooms_bytes, OperationRoom};
use crate::locations::ObjectLocation64;
use crate::memory::{heap, items_heap, Allocation, DICTIONARY_ENTRY_ENVELOPE};
use crate::object::Object;
use crate::security::SecurityHandler;
use crate::source::RandomAccessSource;
use crate::stats::index_bytes;

verus! {

/// Text counts with its room. An array counts with a slot for each item that it has room
/// for and with what its items count, a dictionary with its keys, the pairs that hold its
/// entries, the envelope of each and what the values count, and a stream with its content
/// and its dictionary.
pub proof fn law_parts_of_an_object_count(
    capacity: usize,
    items: Seq<Allocation>,
    item: Allocation,
    entries: Seq<(usize, Allocation)>,
    key: usize,
    envelope: nat,
)
    ensures
        heap(Allocation::Nothing, envelope) == 0,
        heap(Allocation::Bytes(capacity), envelope) == capacity,
        heap(Allocation::Array(0, Seq::empty()), envelope) == 0,
        heap(Allocation::Array(capacity, items.push(item)), envelope) == heap(Allocation::Array(capacity, items), envelope)
            + heap(item, envelope),
        capacity < usize::MAX ==> heap(Allocation::Array((capacity + 1) as usize, items), envelope) == heap(
            Allocation::Array(capacity, items),
            envelope,
        ) + size_of::<Object>(),
        heap(Allocation::Dictionary(Seq::empty()), envelope) == 0,
        heap(Allocation::Dictionary(entries.push((key, item))), envelope) == heap(
            Allocation::Dictionary(entries),
            envelope,
        ) + key + size_of::<(Vec<u8>, Object)>() + envelope + heap(item, envelope),
        heap(Allocation::Stream(capacity, entries), envelope) == capacity + heap(
            Allocation::Dictionary(entries),
            envelope,
        ),
{
    reveal_with_fuel(heap, 3);
    assert(items.push(item).drop_last() =~= items);
    assert(entries.push((key, item)).drop_last() =~= entries);
    let size = size_of::<Object>();
    assert((capacity as nat + 1) * size == (capacity as nat) * size + size) by (nonlinear_arith);
    assert(0 * size == 0) by (nonlinear_arith);
}

/// An operation counts with its operator, a slot for each operand that it has room for and
/// what its operands count. Operations count one by one.
pub proof fn law_parts_of_an_operation_count(room: OperationRoom, item: Allocation, rooms: Seq<OperationRoom>)
    ensures
        room_bytes(OperationRoom { operator: 0, operands: 0, parts: Seq::empty() }) == 0,
        room_bytes(room) == room.operator + room_bytes(OperationRoom { operator: 0, ..room }),
        room.operands < usize::MAX ==> room_bytes(OperationRoom { operands: (room.operands + 1) as usize, ..room })
            == room_bytes(room) + size_of::<Object>(),
        room_bytes(OperationRoom { parts: room.parts.push(item), ..room }) == room_bytes(room) + heap(
            item,
            DICTIONARY_ENTRY_ENVELOPE as nat,
        ),
        rooms_bytes(Seq::empty()) == 0,
        rooms_bytes(rooms.push(room)) == rooms_bytes(rooms) + room_bytes(room),
{
    assert(room.parts.push(item).drop_last() =~= room.parts);
    assert(rooms.push(room).drop_last() =~= rooms);
    let size = size_of::<Object>();
    assert((room.operands as nat + 1) * size == (room.operands as nat) * size + size) by (nonlinear_arith);
    assert(0 * size == 0) by (nonlinear_arith);
    assert(items_heap(Seq::empty(), DICTIONARY_ENTRY_ENVELOPE as nat) == 0);
}

/// A map of codes counts with every range of every length, with a node for each and the
/// room for its strings, and with every string that leads back to its codes.
pub proof fn law_parts_of_a_map_count(
    forward: Seq<Seq<TargetRoom>>,
    ranges: Seq<TargetRoom>,
    target: TargetRoom,
    slots: usize,
    strings: Seq<(usize, usize)>,
    string: (usize, usize),
    units: Seq<usize>,
    capacity: usize,
)
    ensures
        range_rooms_bytes(ranges.push(target)) >= range_rooms_bytes(ranges) + target_room_bytes(target),
        range_rooms_bytes(ranges.push(target)) - range_rooms_bytes(ranges) - target_room_bytes(target)
            == range_rooms_bytes(seq![TargetRoom::Nothing]),
        forward_rooms_bytes(forward.push(ranges)) == forward_rooms_bytes(forward) + range_rooms_bytes(ranges),
        map_bytes(forward.push(ranges), slots, strings) == map_bytes(forward, slots, strings) + range_rooms_bytes(ranges),
        map_bytes(forward, slots, strings.push(string)) == map_bytes(forward, slots, strings) + string.0 * size_of::<
            u16,
        >() + string.1 * size_of::<ReverseCMapEntry>(),
        target_room_bytes(TargetRoom::Nothing) == 0,
        target_room_bytes(TargetRoom::String(capacity)) == capacity * size_of::<u16>(),
        target_room_bytes(TargetRoom::Strings(slots, units.push(capacity))) == target_room_bytes(
            TargetRoom::Strings(slots, units),
        ) + capacity * size_of::<u16>(),
        target_room_bytes(TargetRoom::Strings(slots, Seq::empty())) == slots * size_of::<Vec<u16>>(),
{
    assert(ranges.push(target).drop_last() =~= ranges);
    assert(forward.push(ranges).drop_last() =~= forward);
    assert(strings.push(string).drop_last() =~= strings);
    assert(units.push(capacity).drop_last() =~= units);
    assert(seq![TargetRoom::Nothing].drop_last() =~= Seq::empty());
    assert(range_rooms_bytes(Seq::empty()) == 0);
    assert(units_bytes(Seq::empty()) == 0);
}

/// An index counts with each of its locations, and with its version, its trailer and what
/// the document is decrypted with.
pub proof fn law_parts_of_an_index_count<S: RandomAccessSource, H: SecurityHandler>(
    locations: nat,
    version: nat,
    trailer: nat,
    encryption: nat,
)
    ensures
        index_bytes::<S, H>(locations + 1, version, trailer, encryption) == index_bytes::<S, H>(
            locations,
            version,
            trailer,
            encryption,
        ) + size_of::<u32>() + size_of::<ObjectLocation64>() + 256,
        index_bytes::<S, H>(locations, version, trailer, encryption) == index_bytes::<S, H>(locations, 0, 0, 0) + version
            + trailer + encryption,
{
    let one = size_of::<u32>() + size_of::<ObjectLocation64>() + 256;
    assert((locations + 1) * one == locations * one + one) by (nonlinear_arith);
}

} // verus!
