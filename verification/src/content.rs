//! Content streams as operations.

use vstd::layout::size_of;
use vstd::prelude::*;
use vstd::utf8::encode_utf8;

use crate::errors::Error;
use crate::lex::{LF, SPACE};
use crate::memory::{
    capped, capped_product, heap, holds, items_heap, object_heap_bytes, room_of_string, room_of_vec, string_room,
    vec_room, Allocation, DICTIONARY_ENTRY_ENVELOPE,
};
use crate::object::{Object, ObjectView};
use crate::writer::{object_text, write_bytes, write_object};

verus! {

/// An operator and its operands.
#[derive(Debug, Clone)]
pub struct Operation {
    pub operator: String,
    pub operands: Vec<Object>,
}

/// An operation as a mathematical value.
pub struct OperationView {
    pub operator: Seq<char>,
    pub operands: Seq<ObjectView>,
}

impl Operation {
    pub open spec fn view(&self) -> OperationView {
        OperationView {
            operator: self.operator@,
            operands: Seq::new(self.operands@.len(), |i: int| self.operands@[i]@),
        }
    }

    /// An operation.
    pub fn new(operator: &str, operands: Vec<Object>) -> (operation: Operation)
        ensures
            operation.operator@ == operator@,
            operation.operands == operands,
    {
        Operation { operator: operator.to_owned(), operands }
    }

    /// The bytes that the operation and its operands keep, at most. Room that is
    /// not used counts.
    pub fn retained_bytes(&self) -> (r: u64)
        ensures
            exists|room: OperationRoom| #[trigger]
                room_holds(room, *self) && r == capped(size_of::<Operation>() + room_bytes(room)),
    {
        let (operator, operands, parts): (usize, usize, usize) = operation_rooms(self);
        proof {
            let room = choose|room: OperationRoom| #[trigger]
                room_holds(room, *self) && room.operator == operator && room.operands == operands && parts == capped(
                    items_heap(room.parts, DICTIONARY_ENTRY_ENVELOPE as nat),
                );
            assert(room_holds(room, *self));
        }
        operation_weight(operator, operands, parts) as u64
    }
}

/// The room that was made for the parts of an operation.
pub struct OperationRoom {
    pub operator: usize,
    pub operands: usize,
    pub parts: Seq<Allocation>,
}

/// The parts of the operation, asked for their capacities, may answer with these.
pub open spec fn room_holds(room: OperationRoom, operation: Operation) -> bool {
    &&& string_room(operation.operator, room.operator)
    &&& vec_room(operation.operands, room.operands)
    &&& room.parts.len() == operation.operands@.len()
    &&& forall|i: int| 0 <= i < operation.operands@.len() ==> holds(#[trigger] room.parts[i], operation.operands@[i])
}

/// The bytes of the room that the parts of an operation were made with.
pub open spec fn room_bytes(room: OperationRoom) -> nat {
    room.operator as nat + (room.operands as nat) * size_of::<Object>() + items_heap(
        room.parts,
        DICTIONARY_ENTRY_ENVELOPE as nat,
    )
}

/// The bytes of the parts of an operation with room for `operator` bytes and
/// `operands` operands, whose operands keep `parts`.
pub fn operation_parts_weight(operator: usize, operands: usize, parts: usize) -> (r: usize)
    ensures
        r == capped(operator as nat + (operands as nat) * size_of::<Object>() + parts as nat),
{
    operator.saturating_add(capped_product(operands, core::mem::size_of::<Object>())).saturating_add(parts)
}

/// The bytes of an operation with room for `operator` bytes and `operands`
/// operands, whose operands keep `parts`.
pub fn operation_weight(operator: usize, operands: usize, parts: usize) -> (r: usize)
    ensures
        r == capped(
            size_of::<Operation>() + operator as nat + (operands as nat) * size_of::<Object>() + parts as nat,
        ),
{
    core::mem::size_of::<Operation>().saturating_add(operation_parts_weight(operator, operands, parts))
}

/// The capacities of an operation's operator and operands, and the bytes that the
/// operands keep.
fn operation_rooms(operation: &Operation) -> (r: (usize, usize, usize))
    ensures
        exists|room: OperationRoom| #[trigger]
            room_holds(room, *operation) && room.operator == r.0 && room.operands == r.1 && r.2 == capped(
                items_heap(room.parts, DICTIONARY_ENTRY_ENVELOPE as nat),
            ),
{
    let operator: usize = room_of_string(&operation.operator);
    let operands: usize = room_of_vec(&operation.operands);
    let mut total: usize = 0;
    let ghost mut parts: Seq<Allocation> = Seq::empty();
    let mut index: usize = 0;
    while index < operation.operands.len()
        invariant
            index <= operation.operands@.len(),
            parts.len() == index,
            forall|i: int| 0 <= i < index ==> holds(#[trigger] parts[i], operation.operands@[i]),
            total == capped(items_heap(parts, DICTIONARY_ENTRY_ENVELOPE as nat)),
        decreases operation.operands@.len() - index,
    {
        let part: usize = object_heap_bytes(&operation.operands[index], DICTIONARY_ENTRY_ENVELOPE);
        total = total.saturating_add(part);
        proof {
            let allocation = choose|allocation: Allocation| #[trigger]
                holds(allocation, operation.operands@[index as int]) && part == capped(
                    heap(allocation, DICTIONARY_ENTRY_ENVELOPE as nat),
                );
            assert(parts.push(allocation).drop_last() =~= parts);
            parts = parts.push(allocation);
        }
        index += 1;
    }
    proof {
        let room = OperationRoom { operator, operands, parts };
        assert(room_holds(room, *operation));
    }
    (operator, operands, total)
}

/// What holds operations in order: a vector, a slice or an array of them, or a
/// reference to one that does.
pub trait OperationList {
    /// The operations.
    spec fn listed(&self) -> Seq<Operation>;

    /// The operations.
    fn as_operations(&self) -> (r: &[Operation])
        ensures
            r@ == self.listed(),
    ;
}

impl OperationList for Vec<Operation> {
    open spec fn listed(&self) -> Seq<Operation> {
        self@
    }

    fn as_operations(&self) -> (r: &[Operation]) {
        self.as_slice()
    }
}

impl OperationList for [Operation] {
    open spec fn listed(&self) -> Seq<Operation> {
        self@
    }

    fn as_operations(&self) -> (r: &[Operation]) {
        self
    }
}

impl<const N: usize> OperationList for [Operation; N] {
    open spec fn listed(&self) -> Seq<Operation> {
        self@
    }

    fn as_operations(&self) -> (r: &[Operation]) {
        self.as_slice()
    }
}

impl<L: OperationList + ?Sized> OperationList for &L {
    open spec fn listed(&self) -> Seq<Operation> {
        (**self).listed()
    }

    fn as_operations(&self) -> (r: &[Operation]) {
        (**self).as_operations()
    }
}

/// The operations of a content stream.
#[derive(Debug, Clone)]
pub struct Content<Operations: OperationList = Vec<Operation>> {
    pub operations: Operations,
}

/// The operands as text, each with a space behind it.
pub open spec fn operands_text(operands: Seq<ObjectView>) -> Seq<u8>
    decreases operands.len(),
{
    if operands.len() == 0 {
        Seq::empty()
    } else {
        operands_text(operands.drop_last()) + object_text(operands.last()) + seq![SPACE]
    }
}

/// An operation as text: its operands, then its operator.
pub open spec fn operation_text(operation: OperationView) -> Seq<u8> {
    operands_text(operation.operands) + encode_utf8(operation.operator)
}

/// Operations as text, each on a line of its own.
pub open spec fn content_text(operations: Seq<OperationView>) -> Seq<u8>
    decreases operations.len(),
{
    if operations.len() == 0 {
        Seq::empty()
    } else if operations.len() == 1 {
        operation_text(operations[0])
    } else {
        content_text(operations.drop_last()) + seq![LF] + operation_text(operations.last())
    }
}

/// The views of operations.
pub open spec fn operation_views(operations: Seq<Operation>) -> Seq<OperationView> {
    Seq::new(operations.len(), |i: int| operations[i]@)
}

/// The bytes of the rooms that some operations were made with.
pub open spec fn rooms_bytes(rooms: Seq<OperationRoom>) -> nat
    decreases rooms.len(),
{
    if rooms.len() == 0 {
        0
    } else {
        rooms_bytes(rooms.drop_last()) + room_bytes(rooms.last())
    }
}

/// The operations, asked for their capacities, may answer with these.
pub open spec fn rooms_hold(capacity: usize, rooms: Seq<OperationRoom>, operations: Vec<Operation>) -> bool {
    &&& vec_room(operations, capacity)
    &&& rooms.len() == operations@.len()
    &&& forall|i: int| 0 <= i < operations@.len() ==> room_holds(#[trigger] rooms[i], operations@[i])
}

/// The bytes of a content with room for `capacity` operations, whose parts keep
/// `parts` besides the operations themselves.
pub fn content_weight(capacity: usize, parts: usize) -> (r: usize)
    ensures
        r == capped(
            size_of::<Content<Vec<Operation>>>() + (capacity as nat) * size_of::<Operation>() + parts as nat,
        ),
{
    core::mem::size_of::<Content<Vec<Operation>>>().saturating_add(
        capped_product(capacity, core::mem::size_of::<Operation>()),
    ).saturating_add(parts)
}

impl<Operations: OperationList> Content<Operations> {
    /// Writes the operations as text.
    pub fn encode(&self) -> (r: Result<Vec<u8>, Error>)
        ensures
            r matches Ok(bytes) && bytes@ == content_text(operation_views(self.operations.listed())),
    {
        let operations: &[Operation] = self.operations.as_operations();
        let length: usize = operations.len();
        let ghost shown = operation_views(operations@);
        let mut buffer: Vec<u8> = Vec::new();
        let mut index: usize = 0;
        assert(buffer@ =~= content_text(shown.take(0)));
        while index < length
            invariant
                index <= length == operations@.len(),
                shown == operation_views(operations@),
                buffer@ == content_text(shown.take(index as int)),
            decreases length - index,
        {
            let ghost before = buffer@;
            if index > 0 {
                buffer.push(LF);
            }
            write_operation(&mut buffer, &operations[index]);
            proof {
                let longer = shown.take(index + 1);
                assert(longer.drop_last() =~= shown.take(index as int));
                assert(longer.last() == operations@[index as int]@);
                if index > 0 {
                    assert(buffer@ =~= content_text(longer));
                } else {
                    assert(longer[0] == operations@[0]@);
                    assert(before =~= Seq::empty());
                    assert(buffer@ =~= content_text(longer));
                }
            }
            index += 1;
        }
        assert(shown.take(shown.len() as int) =~= shown);
        Ok(buffer)
    }
}

impl Content<Vec<Operation>> {
    /// The bytes that the operations keep, at most. Room that is not used counts,
    /// and no operation counts twice.
    pub fn retained_bytes(&self) -> (r: u64)
        ensures
            exists|capacity: usize, rooms: Seq<OperationRoom>| #[trigger]
                rooms_hold(capacity, rooms, self.operations) && r == capped(
                    size_of::<Content<Vec<Operation>>>() + (capacity as nat) * size_of::<Operation>() + rooms_bytes(
                        rooms,
                    ),
                ),
    {
        let capacity: usize = room_of_vec(&self.operations);
        let mut total: usize = 0;
        let ghost mut rooms: Seq<OperationRoom> = Seq::empty();
        let mut index: usize = 0;
        while index < self.operations.len()
            invariant
                index <= self.operations@.len(),
                rooms.len() == index,
                forall|i: int| 0 <= i < index ==> room_holds(#[trigger] rooms[i], self.operations@[i]),
                total == capped(rooms_bytes(rooms)),
            decreases self.operations@.len() - index,
        {
            let (operator, operands, parts): (usize, usize, usize) = operation_rooms(&self.operations[index]);
            total = total.saturating_add(operation_parts_weight(operator, operands, parts));
            proof {
                let room = choose|room: OperationRoom| #[trigger]
                    room_holds(room, self.operations@[index as int]) && room.operator == operator && room.operands
                        == operands && parts == capped(items_heap(room.parts, DICTIONARY_ENTRY_ENVELOPE as nat));
                assert(rooms.push(room).drop_last() =~= rooms);
                rooms = rooms.push(room);
            }
            index += 1;
        }
        assert(rooms_hold(capacity, rooms, self.operations));
        content_weight(capacity, total) as u64
    }
}

fn write_operation(buffer: &mut Vec<u8>, operation: &Operation)
    ensures
        final(buffer)@ == old(buffer)@ + operation_text(operation@),
{
    let ghost operands = operation@.operands;
    let mut index: usize = 0;
    assert(buffer@ =~= old(buffer)@ + operands_text(operands.take(0)));
    while index < operation.operands.len()
        invariant
            index <= operation.operands@.len(),
            operands == operation@.operands,
            buffer@ == old(buffer)@ + operands_text(operands.take(index as int)),
        decreases operation.operands@.len() - index,
    {
        write_object(buffer, &operation.operands[index]);
        buffer.push(SPACE);
        proof {
            let longer = operands.take(index + 1);
            assert(longer.drop_last() =~= operands.take(index as int));
            assert(longer.last() == operation.operands@[index as int]@);
            assert(buffer@ =~= old(buffer)@ + operands_text(longer));
        }
        index += 1;
    }
    assert(operands.take(operands.len() as int) =~= operands);
    write_bytes(buffer, operation.operator.as_str().as_bytes());
    assert(buffer@ =~= old(buffer)@ + operation_text(operation@));
}

} // verus!
