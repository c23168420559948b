//! How much memory objects keep.
//!
//! What an allocator hands out is not known beforehand, so a weight is stated
//! for the capacities that the parts of an object answer with when asked.

use vstd::layout::size_of;
use vstd::prelude::*;
use vstd::utf8::encode_utf8;

use crate::object::{array_view, lemma_array_view, Dictionary, DictionaryView, Object, ObjectView};

verus! {

/// What a key and its value take besides their own allocations, at most, in the
/// table that a dictionary may keep beside its entries.
pub const DICTIONARY_ENTRY_ENVELOPE: usize = 128;

/// Calls `Vec::capacity`: how many items the vector has room for, which is never
/// less than it holds.
#[verifier::external_body]
pub(crate) fn vec_capacity<T>(items: &Vec<T>) -> (r: usize)
    ensures
        r >= items@.len(),
{
    items.capacity()
}

/// Calls `String::capacity`: how many bytes the string has room for, which is
/// never less than it holds.
#[verifier::external_body]
pub(crate) fn string_capacity(text: &String) -> (r: usize)
    ensures
        r >= encode_utf8(text@).len(),
{
    text.capacity()
}

/// The vector, asked for its capacity, may answer with this one.
pub closed spec fn vec_room<T>(items: Vec<T>, capacity: usize) -> bool {
    call_ensures(vec_capacity::<T>, (&items,), capacity)
}

/// The string, asked for its capacity, may answer with this one.
pub closed spec fn string_room(text: String, capacity: usize) -> bool {
    call_ensures(string_capacity, (&text,), capacity)
}

/// A vector has room for what it holds.
pub proof fn law_vec_room_covers<T>(items: Vec<T>, capacity: usize)
    requires
        vec_room(items, capacity),
    ensures
        capacity >= items@.len(),
{
}

/// A string has room for what it holds.
pub proof fn law_string_room_covers(text: String, capacity: usize)
    requires
        string_room(text, capacity),
    ensures
        capacity >= encode_utf8(text@).len(),
{
}

/// Asks one question of one subject.
pub(crate) fn ask<A, R, F: Fn(&A) -> R>(question: F, subject: &A) -> (r: R)
    requires
        call_requires(question, (subject,)),
    ensures
        call_ensures(question, (subject,), r),
{
    question(subject)
}

/// The capacity of a vector.
pub(crate) fn room_of_vec<T>(items: &Vec<T>) -> (r: usize)
    ensures
        vec_room(*items, r),
        r >= items@.len(),
{
    ask(vec_capacity::<T>, items)
}

/// The capacity of a string.
pub(crate) fn room_of_string(text: &String) -> (r: usize)
    ensures
        string_room(*text, r),
        r >= encode_utf8(text@).len(),
{
    ask(string_capacity, text)
}

/// The room that was made for the parts of an object.
pub enum Allocation {
    Nothing,
    Bytes(usize),
    Array(usize, Seq<Allocation>),
    Dictionary(Seq<(usize, Allocation)>),
    Stream(usize, Seq<(usize, Allocation)>),
}

/// The parts of the object, asked for their capacities, may answer with these.
pub open spec fn holds(allocation: Allocation, object: Object) -> bool
    decreases object,
{
    match (object, allocation) {
        (Object::Name(bytes), Allocation::Bytes(capacity)) => vec_room(bytes, capacity),
        (Object::String(bytes, _), Allocation::Bytes(capacity)) => vec_room(bytes, capacity),
        (Object::Array(items), Allocation::Array(capacity, parts)) => {
            &&& vec_room(items, capacity)
            &&& parts.len() == items@.len()
            &&& forall|i: int| 0 <= i < items@.len() ==> holds(#[trigger] parts[i], items@[i])
        },
        (Object::Dictionary(dict), Allocation::Dictionary(parts)) => {
            &&& parts.len() == dict.entries@.len()
            &&& forall|i: int|
                0 <= i < dict.entries@.len() ==> vec_room(dict.entries@[i].0, (#[trigger] parts[i]).0) && holds(
                    parts[i].1,
                    dict.entries@[i].1,
                )
        },
        (Object::Stream(stream), Allocation::Stream(capacity, parts)) => {
            &&& vec_room(stream.content, capacity)
            &&& parts.len() == stream.dict.entries@.len()
            &&& forall|i: int|
                0 <= i < stream.dict.entries@.len() ==> vec_room(stream.dict.entries@[i].0, (#[trigger] parts[i]).0)
                    && holds(parts[i].1, stream.dict.entries@[i].1)
        },
        (Object::Null, Allocation::Nothing) => true,
        (Object::Boolean(_), Allocation::Nothing) => true,
        (Object::Integer(_), Allocation::Nothing) => true,
        (Object::Real(_), Allocation::Nothing) => true,
        (Object::Reference(_), Allocation::Nothing) => true,
        _ => false,
    }
}

/// The keys and the values of the dictionary, asked for their capacities, may
/// answer with these.
pub open spec fn entries_hold(parts: Seq<(usize, Allocation)>, dict: Dictionary) -> bool {
    &&& parts.len() == dict.entries@.len()
    &&& forall|i: int|
        0 <= i < dict.entries@.len() ==> vec_room(dict.entries@[i].0, (#[trigger] parts[i]).0) && holds(
            parts[i].1,
            dict.entries@[i].1,
        )
}

/// The bytes of the room that an object was made with, with `envelope` more for
/// every entry of a dictionary.
pub open spec fn heap(allocation: Allocation, envelope: nat) -> nat
    decreases allocation,
{
    match allocation {
        Allocation::Nothing => 0,
        Allocation::Bytes(capacity) => capacity as nat,
        Allocation::Array(capacity, parts) => (capacity as nat) * size_of::<Object>() + items_heap(parts, envelope),
        Allocation::Dictionary(parts) => entries_heap(parts, envelope),
        Allocation::Stream(capacity, parts) => capacity as nat + entries_heap(parts, envelope),
    }
}

/// The bytes of the room that the items of an array were made with.
pub open spec fn items_heap(parts: Seq<Allocation>, envelope: nat) -> nat
    decreases parts,
{
    if parts.len() == 0 {
        0
    } else {
        items_heap(parts.drop_last(), envelope) + heap(parts[parts.len() - 1], envelope)
    }
}

/// The bytes of the room that the entries of a dictionary were made with.
pub open spec fn entries_heap(parts: Seq<(usize, Allocation)>, envelope: nat) -> nat
    decreases parts,
{
    if parts.len() == 0 {
        0
    } else {
        let last = parts[parts.len() - 1];
        entries_heap(parts.drop_last(), envelope) + (last.0 as nat + size_of::<(Vec<u8>, Object)>() + envelope + heap(
            last.1,
            envelope,
        ))
    }
}

/// A number of bytes, as far as the machine counts.
pub open spec fn capped(bytes: nat) -> usize {
    if bytes > usize::MAX {
        usize::MAX
    } else {
        bytes as usize
    }
}

/// The object has this weight with the capacities that it may answer with.
pub open spec fn weighs(object: Object, envelope: nat, extra: nat, weight: usize) -> bool {
    exists|allocation: Allocation| #[trigger]
        holds(allocation, object) && weight == capped(extra + heap(allocation, envelope))
}

/// The dictionary has this weight with the capacities that it may answer with.
pub open spec fn entries_weigh(dict: Dictionary, envelope: nat, extra: nat, weight: usize) -> bool {
    exists|parts: Seq<(usize, Allocation)>| #[trigger]
        entries_hold(parts, dict) && weight == capped(extra + entries_heap(parts, envelope))
}

/// The product of two numbers, as far as the machine counts.
pub(crate) fn capped_product(count: usize, size: usize) -> (r: usize)
    ensures
        r == capped((count as nat) * (size as nat)),
{
    assert(0 <= count * size) by (nonlinear_arith);
    match count.checked_mul(size) {
        Some(product) => product,
        None => usize::MAX,
    }
}

/// Where one part cannot be counted, neither can some of them together.
pub(crate) proof fn lemma_capped_factor(count: nat, size: nat)
    ensures
        capped(count * (capped(size) as nat)) == capped(count * size),
{
    if size > usize::MAX {
        let most = usize::MAX as nat;
        if count == 0 {
            assert(count * size == 0 && count * most == 0) by (nonlinear_arith)
                requires
                    count == 0,
            ;
        } else {
            assert(count * size >= size && count * most >= most) by (nonlinear_arith)
                requires
                    count >= 1,
            ;
        }
    }
}

/// The bytes of an array with room for `capacity` objects, whose items keep `items`.
pub fn array_weight(capacity: usize, items: usize) -> (r: usize)
    ensures
        r == capped((capacity as nat) * size_of::<Object>() + items as nat),
{
    capped_product(capacity, core::mem::size_of::<Object>()).saturating_add(items)
}

/// The bytes of a dictionary entry with room for `key` bytes in its key, whose
/// value keeps `value`.
pub fn entry_weight(key: usize, value: usize, envelope: usize) -> (r: usize)
    ensures
        r == capped(key as nat + size_of::<(Vec<u8>, Object)>() + envelope as nat + value as nat),
{
    key.saturating_add(core::mem::size_of::<(Vec<u8>, Object)>()).saturating_add(envelope).saturating_add(value)
}

/// The bytes of a stream with room for `content` bytes, whose entries keep
/// `entries`.
pub fn stream_weight(content: usize, entries: usize) -> (r: usize)
    ensures
        r == capped(content as nat + entries as nat),
{
    content.saturating_add(entries)
}

/// The bytes of an object whose parts keep `parts`.
pub fn object_weight(parts: usize) -> (r: usize)
    ensures
        r == capped(size_of::<Object>() + parts as nat),
{
    core::mem::size_of::<Object>().saturating_add(parts)
}

/// The bytes that the parts of an object keep. A number has no parts.
pub(crate) fn object_heap_bytes(object: &Object, envelope: usize) -> (r: usize)
    ensures
        weighs(*object, envelope as nat, 0, r),
    decreases object, 1int,
{
    match object {
        Object::Name(bytes) => {
            let capacity: usize = room_of_vec(bytes);
            assert(holds(Allocation::Bytes(capacity), *object));
            capacity
        },
        Object::String(bytes, _) => {
            let capacity: usize = room_of_vec(bytes);
            assert(holds(Allocation::Bytes(capacity), *object));
            capacity
        },
        Object::Array(items) => {
            let capacity: usize = room_of_vec(items);
            let mut total: usize = 0;
            let ghost mut parts: Seq<Allocation> = Seq::empty();
            let mut index: usize = 0;
            while index < items.len()
                invariant
                    index <= items@.len(),
                    parts.len() == index,
                    forall|i: int| 0 <= i < index ==> holds(#[trigger] parts[i], items@[i]),
                    total == capped(items_heap(parts, envelope as nat)),
                    decreases_to!(object => items),
                decreases items@.len() - index,
            {
                let part: usize = object_heap_bytes(&items[index], envelope);
                total = total.saturating_add(part);
                proof {
                    let allocation = choose|allocation: Allocation| #[trigger]
                        holds(allocation, items@[index as int]) && part == capped(
                            heap(allocation, envelope as nat),
                        );
                    assert(parts.push(allocation).drop_last() =~= parts);
                    parts = parts.push(allocation);
                }
                index += 1;
            }
            assert(holds(Allocation::Array(capacity, parts), *object));
            array_weight(capacity, total)
        },
        Object::Dictionary(dict) => {
            let total: usize = dictionary_heap_bytes(dict, envelope);
            proof {
                let parts = choose|parts: Seq<(usize, Allocation)>| #[trigger]
                    entries_hold(parts, *dict) && total == capped(entries_heap(parts, envelope as nat));
                assert(holds(Allocation::Dictionary(parts), *object));
            }
            total
        },
        Object::Stream(stream) => {
            let capacity: usize = room_of_vec(&stream.content);
            let entries: usize = dictionary_heap_bytes(&stream.dict, envelope);
            proof {
                let parts = choose|parts: Seq<(usize, Allocation)>| #[trigger]
                    entries_hold(parts, stream.dict) && entries == capped(entries_heap(parts, envelope as nat));
                assert(holds(Allocation::Stream(capacity, parts), *object));
            }
            stream_weight(capacity, entries)
        },
        _ => {
            assert(holds(Allocation::Nothing, *object));
            0
        },
    }
}

/// The bytes that the entries of a dictionary keep.
fn dictionary_heap_bytes(dict: &Dictionary, envelope: usize) -> (r: usize)
    ensures
        entries_weigh(*dict, envelope as nat, 0, r),
    decreases dict, 0int,
{
    let mut total: usize = 0;
    let ghost mut parts: Seq<(usize, Allocation)> = Seq::empty();
    let mut index: usize = 0;
    while index < dict.entries.len()
        invariant
            index <= dict.entries@.len(),
            parts.len() == index,
            forall|i: int|
                0 <= i < index ==> vec_room(dict.entries@[i].0, (#[trigger] parts[i]).0) && holds(
                    parts[i].1,
                    dict.entries@[i].1,
                ),
            total == capped(entries_heap(parts, envelope as nat)),
        decreases dict.entries@.len() - index,
    {
        let key: usize = room_of_vec(&dict.entries[index].0);
        let value: usize = object_heap_bytes(&dict.entries[index].1, envelope);
        total = total.saturating_add(entry_weight(key, value, envelope));
        proof {
            let allocation = choose|allocation: Allocation| #[trigger]
                holds(allocation, dict.entries@[index as int].1) && value == capped(
                    heap(allocation, envelope as nat),
                );
            assert(parts.push((key, allocation)).drop_last() =~= parts);
            parts = parts.push((key, allocation));
        }
        index += 1;
    }
    assert(entries_hold(parts, *dict));
    total
}

/// The bytes that an object keeps.
pub fn object_retained_bytes(object: &Object) -> (r: usize)
    ensures
        weighs(*object, 0, size_of::<Object>(), r),
{
    let parts: usize = object_heap_bytes(object, 0);
    proof {
        let allocation = choose|allocation: Allocation| #[trigger]
            holds(allocation, *object) && parts == capped(heap(allocation, 0));
        assert(holds(allocation, *object));
    }
    object_weight(parts)
}

/// The bytes that an object keeps, at most.
pub fn scalar_object_retained_bytes(object: &Object) -> (r: usize)
    ensures
        weighs(*object, DICTIONARY_ENTRY_ENVELOPE as nat, size_of::<Object>(), r),
{
    let parts: usize = object_heap_bytes(object, DICTIONARY_ENTRY_ENVELOPE);
    proof {
        let allocation = choose|allocation: Allocation| #[trigger]
            holds(allocation, *object) && parts == capped(heap(allocation, DICTIONARY_ENTRY_ENVELOPE as nat));
        assert(holds(allocation, *object));
    }
    object_weight(parts)
}

/// The bytes that a dictionary keeps, at most.
pub fn dictionary_retained_bytes(dict: &Dictionary) -> (r: usize)
    ensures
        entries_weigh(*dict, DICTIONARY_ENTRY_ENVELOPE as nat, size_of::<Dictionary>(), r),
{
    let parts: usize = dictionary_heap_bytes(dict, DICTIONARY_ENTRY_ENVELOPE);
    proof {
        let held = choose|held: Seq<(usize, Allocation)>| #[trigger]
            entries_hold(held, *dict) && parts == capped(entries_heap(held, DICTIONARY_ENTRY_ENVELOPE as nat));
        assert(entries_hold(held, *dict));
    }
    core::mem::size_of::<Dictionary>().saturating_add(parts)
}

/// Every part of the object has room for what it holds.
pub open spec fn covers(allocation: Allocation, object: ObjectView) -> bool
    decreases object,
{
    match (object, allocation) {
        (ObjectView::Name(bytes), Allocation::Bytes(capacity)) => capacity >= bytes.len(),
        (ObjectView::String(bytes, _), Allocation::Bytes(capacity)) => capacity >= bytes.len(),
        (ObjectView::Array(items), Allocation::Array(capacity, parts)) => {
            &&& capacity >= items.len()
            &&& parts.len() == items.len()
            &&& forall|i: int| 0 <= i < items.len() ==> covers(#[trigger] parts[i], items[i])
        },
        (ObjectView::Dictionary(dict), Allocation::Dictionary(parts)) => {
            &&& parts.len() == dict.len()
            &&& forall|i: int|
                0 <= i < dict.len() ==> (#[trigger] parts[i]).0 >= dict[i].0.len() && covers(parts[i].1, dict[i].1)
        },
        (ObjectView::Stream(dict, content, _), Allocation::Stream(capacity, parts)) => {
            &&& capacity >= content.len()
            &&& parts.len() == dict.len()
            &&& forall|i: int|
                0 <= i < dict.len() ==> (#[trigger] parts[i]).0 >= dict[i].0.len() && covers(parts[i].1, dict[i].1)
        },
        (ObjectView::Null, Allocation::Nothing) => true,
        (ObjectView::Boolean(_), Allocation::Nothing) => true,
        (ObjectView::Integer(_), Allocation::Nothing) => true,
        (ObjectView::Real(_), Allocation::Nothing) => true,
        (ObjectView::Reference(_), Allocation::Nothing) => true,
        _ => false,
    }
}

/// Every key and value of the dictionary has room for what it holds.
pub open spec fn entries_cover(parts: Seq<(usize, Allocation)>, dict: DictionaryView) -> bool {
    &&& parts.len() == dict.len()
    &&& forall|i: int|
        0 <= i < dict.len() ==> (#[trigger] parts[i]).0 >= dict[i].0.len() && covers(parts[i].1, dict[i].1)
}

/// The capacities that the parts of an object may answer with cover what they hold.
pub proof fn law_capacities_cover(object: Object, allocation: Allocation)
    requires
        holds(allocation, object),
    ensures
        covers(allocation, object@),
    decreases object, 1int,
{
    match (object, allocation) {
        (Object::Name(bytes), Allocation::Bytes(capacity)) => law_vec_room_covers(bytes, capacity),
        (Object::String(bytes, _), Allocation::Bytes(capacity)) => law_vec_room_covers(bytes, capacity),
        (Object::Array(items), Allocation::Array(capacity, parts)) => {
            law_vec_room_covers(items, capacity);
            lemma_array_view(items);
            assert forall|i: int| 0 <= i < items@.len() implies covers(#[trigger] parts[i], array_view(items@)[i]) by {
                law_capacities_cover(items@[i], parts[i]);
            }
        },
        (Object::Dictionary(dict), Allocation::Dictionary(parts)) => {
            lemma_capacities_cover_entries(dict, parts);
        },
        (Object::Stream(stream), Allocation::Stream(capacity, parts)) => {
            law_vec_room_covers(stream.content, capacity);
            lemma_capacities_cover_entries(stream.dict, parts);
        },
        _ => {},
    }
}

proof fn lemma_capacities_cover_entries(dict: Dictionary, parts: Seq<(usize, Allocation)>)
    requires
        entries_hold(parts, dict),
    ensures
        entries_cover(parts, dict@),
    decreases dict, 0int,
{
    assert forall|i: int| 0 <= i < dict@.len() implies (#[trigger] parts[i]).0 >= dict@[i].0.len() && covers(
        parts[i].1,
        dict@[i].1,
    ) by {
        law_vec_room_covers(dict.entries@[i].0, parts[i].0);
        law_capacities_cover(dict.entries@[i].1, parts[i].1);
    }
}

/// How many dictionary entries an object has, in all its parts.
pub open spec fn entry_count(object: ObjectView) -> nat
    decreases object,
{
    match object {
        ObjectView::Array(items) => items_count(items),
        ObjectView::Dictionary(dict) => entries_count(dict),
        ObjectView::Stream(dict, _, _) => entries_count(dict),
        _ => 0,
    }
}

/// How many dictionary entries the items of an array have.
pub open spec fn items_count(items: Seq<ObjectView>) -> nat
    decreases items,
{
    if items.len() == 0 {
        0
    } else {
        items_count(items.drop_last()) + entry_count(items[items.len() - 1])
    }
}

/// How many entries a dictionary has, with those of its values.
pub open spec fn entries_count(dict: DictionaryView) -> nat
    decreases dict,
{
    if dict.len() == 0 {
        0
    } else {
        entries_count(dict.drop_last()) + 1 + entry_count(dict[dict.len() - 1].1)
    }
}

/// The bounded weight of an object exceeds the plain one by exactly the envelope
/// for every dictionary entry that it has.
pub proof fn law_envelope_is_paid_per_entry(object: ObjectView, allocation: Allocation, envelope: nat)
    requires
        covers(allocation, object),
    ensures
        heap(allocation, envelope) == heap(allocation, 0) + envelope * entry_count(object),
    decreases object,
{
    match (object, allocation) {
        (ObjectView::Array(items), Allocation::Array(_, parts)) => {
            lemma_items_paid(items, parts, envelope);
        },
        (ObjectView::Dictionary(dict), Allocation::Dictionary(parts)) => {
            lemma_entries_paid(dict, parts, envelope);
        },
        (ObjectView::Stream(dict, _, _), Allocation::Stream(_, parts)) => {
            lemma_entries_paid(dict, parts, envelope);
        },
        _ => {
            assert(envelope * 0 == 0) by (nonlinear_arith);
        },
    }
}

proof fn lemma_items_paid(items: Seq<ObjectView>, parts: Seq<Allocation>, envelope: nat)
    requires
        parts.len() == items.len(),
        forall|i: int| 0 <= i < items.len() ==> covers(#[trigger] parts[i], items[i]),
    ensures
        items_heap(parts, envelope) == items_heap(parts, 0) + envelope * items_count(items),
    decreases items,
{
    if items.len() == 0 {
        assert(envelope * 0 == 0) by (nonlinear_arith);
    } else {
        let last = items.len() - 1;
        assert forall|i: int| 0 <= i < last implies covers(
            #[trigger] parts.drop_last()[i],
            items.drop_last()[i],
        ) by {
            assert(parts.drop_last()[i] == parts[i]);
        }
        lemma_items_paid(items.drop_last(), parts.drop_last(), envelope);
        assert(covers(parts[last], items[last]));
        law_envelope_is_paid_per_entry(items[last], parts[last], envelope);
        let (one, other) = (items_count(items.drop_last()), entry_count(items[last]));
        assert(envelope * (one + other) == envelope * one + envelope * other) by (nonlinear_arith);
    }
}

proof fn lemma_entries_paid(dict: DictionaryView, parts: Seq<(usize, Allocation)>, envelope: nat)
    requires
        entries_cover(parts, dict),
    ensures
        entries_heap(parts, envelope) == entries_heap(parts, 0) + envelope * entries_count(dict),
    decreases dict,
{
    if dict.len() == 0 {
        assert(envelope * 0 == 0) by (nonlinear_arith);
    } else {
        let last = dict.len() - 1;
        assert forall|i: int| 0 <= i < last implies (#[trigger] parts.drop_last()[i]).0 >= dict.drop_last()[i].0.len()
            && covers(parts.drop_last()[i].1, dict.drop_last()[i].1) by {
            assert(parts.drop_last()[i] == parts[i]);
        }
        lemma_entries_paid(dict.drop_last(), parts.drop_last(), envelope);
        assert(parts[last].0 >= dict[last].0.len());
        law_envelope_is_paid_per_entry(dict[last].1, parts[last].1, envelope);
        let (one, other) = (entries_count(dict.drop_last()), entry_count(dict[last].1));
        assert(envelope * (one + 1 + other) == envelope * one + envelope + envelope * other) by (nonlinear_arith);
    }
}

/// A larger envelope never makes an object lighter.
pub proof fn law_envelope_only_adds(allocation: Allocation, smaller: nat, larger: nat)
    requires
        smaller <= larger,
    ensures
        heap(allocation, smaller) <= heap(allocation, larger),
    decreases allocation,
{
    match allocation {
        Allocation::Array(_, parts) => lemma_items_envelope(parts, smaller, larger),
        Allocation::Dictionary(parts) => lemma_entries_envelope(parts, smaller, larger),
        Allocation::Stream(_, parts) => lemma_entries_envelope(parts, smaller, larger),
        _ => {},
    }
}

proof fn lemma_items_envelope(parts: Seq<Allocation>, smaller: nat, larger: nat)
    requires
        smaller <= larger,
    ensures
        items_heap(parts, smaller) <= items_heap(parts, larger),
    decreases parts,
{
    if parts.len() > 0 {
        lemma_items_envelope(parts.drop_last(), smaller, larger);
        law_envelope_only_adds(parts[parts.len() - 1], smaller, larger);
    }
}

proof fn lemma_entries_envelope(parts: Seq<(usize, Allocation)>, smaller: nat, larger: nat)
    requires
        smaller <= larger,
    ensures
        entries_heap(parts, smaller) <= entries_heap(parts, larger),
    decreases parts,
{
    if parts.len() > 0 {
        lemma_entries_envelope(parts.drop_last(), smaller, larger);
        law_envelope_only_adds(parts[parts.len() - 1].1, smaller, larger);
    }
}

/// The bytes of names, strings and content that an object holds. Numbers are
/// counted with the object itself.
pub open spec fn held_bytes(object: ObjectView) -> nat
    decreases object,
{
    match object {
        ObjectView::Name(bytes) => bytes.len(),
        ObjectView::String(bytes, _) => bytes.len(),
        ObjectView::Array(items) => items_held(items),
        ObjectView::Dictionary(dict) => entries_held(dict),
        ObjectView::Stream(dict, content, _) => content.len() + entries_held(dict),
        _ => 0,
    }
}

/// The bytes of text and content that some objects hold.
pub open spec fn items_held(items: Seq<ObjectView>) -> nat
    decreases items,
{
    if items.len() == 0 {
        0
    } else {
        items_held(items.drop_last()) + held_bytes(items[items.len() - 1])
    }
}

/// The bytes of text and content that the entries of a dictionary hold.
pub open spec fn entries_held(dict: DictionaryView) -> nat
    decreases dict,
{
    if dict.len() == 0 {
        0
    } else {
        let last = dict[dict.len() - 1];
        entries_held(dict.drop_last()) + last.0.len() + held_bytes(last.1)
    }
}

/// An object weighs no less than what it holds.
pub proof fn law_weight_covers_what_is_held(object: ObjectView, allocation: Allocation, envelope: nat)
    requires
        covers(allocation, object),
    ensures
        heap(allocation, envelope) >= held_bytes(object),
    decreases object,
{
    match (object, allocation) {
        (ObjectView::Array(items), Allocation::Array(capacity, parts)) => {
            lemma_items_cover(items, parts, envelope);
            assert(capacity * size_of::<Object>() >= 0) by (nonlinear_arith);
        },
        (ObjectView::Dictionary(dict), Allocation::Dictionary(parts)) => {
            lemma_entries_cover(dict, parts, envelope);
        },
        (ObjectView::Stream(dict, _, _), Allocation::Stream(_, parts)) => {
            lemma_entries_cover(dict, parts, envelope);
        },
        _ => {},
    }
}

proof fn lemma_items_cover(items: Seq<ObjectView>, parts: Seq<Allocation>, envelope: nat)
    requires
        parts.len() == items.len(),
        forall|i: int| 0 <= i < items.len() ==> covers(#[trigger] parts[i], items[i]),
    ensures
        items_heap(parts, envelope) >= items_held(items),
    decreases items,
{
    if items.len() > 0 {
        let last = items.len() - 1;
        assert forall|i: int| 0 <= i < last implies covers(
            #[trigger] parts.drop_last()[i],
            items.drop_last()[i],
        ) by {
            assert(parts.drop_last()[i] == parts[i]);
        }
        lemma_items_cover(items.drop_last(), parts.drop_last(), envelope);
        assert(covers(parts[last], items[last]));
        law_weight_covers_what_is_held(items[last], parts[last], envelope);
    }
}

proof fn lemma_entries_cover(dict: DictionaryView, parts: Seq<(usize, Allocation)>, envelope: nat)
    requires
        entries_cover(parts, dict),
    ensures
        entries_heap(parts, envelope) >= entries_held(dict),
    decreases dict,
{
    if dict.len() > 0 {
        let last = dict.len() - 1;
        assert forall|i: int| 0 <= i < last implies (#[trigger] parts.drop_last()[i]).0 >= dict.drop_last()[i].0.len()
            && covers(parts.drop_last()[i].1, dict.drop_last()[i].1) by {
            assert(parts.drop_last()[i] == parts[i]);
        }
        lemma_entries_cover(dict.drop_last(), parts.drop_last(), envelope);
        assert(parts[last].0 >= dict[last].0.len() && covers(parts[last].1, dict[last].1));
        law_weight_covers_what_is_held(dict[last].1, parts[last].1, envelope);
    }
}

} // verus!
