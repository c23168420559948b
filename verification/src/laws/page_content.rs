//! What the content of a page is made of.

use vstd::prelude::*;

use crate::errors::{IndexedReaderError, IndexedStreamReadError};
use crate::filters::decoded;
use crate::object::{dict_get, DictionaryView, ObjectId, ObjectView};
use crate::page_content::{
    content_ids, content_of_page, encoded_stream, joined_content, references, shown_content, KEY_CONTENTS,
};
use crate::resolve::{decode_limit, object_of, DocumentView};
use crate::streams::{descriptor_of, DescriptorView};

verus! {

/// The parts one behind the other, each with a line end behind it.
pub open spec fn lines(parts: Seq<Seq<u8>>) -> Seq<u8>
    decreases parts.len(),
{
    if parts.len() == 0 {
        Seq::empty()
    } else {
        parts[0] + seq![0x0au8] + lines(parts.skip(1))
    }
}

proof fn lemma_lines(parts: Seq<Seq<u8>>)
    requires
        parts.len() > 0,
    ensures
        lines(parts) == lines(parts.drop_last()) + parts.last() + seq![0x0au8],
    decreases parts.len(),
{
    if parts.len() == 1 {
        assert(parts.skip(1) =~= Seq::empty());
        assert(parts.drop_last() =~= Seq::empty());
        assert(lines(parts) =~= lines(parts.drop_last()) + parts.last() + seq![0x0au8]);
    } else {
        lemma_lines(parts.skip(1));
        assert(parts.skip(1).drop_last() =~= parts.drop_last().skip(1));
        assert(parts.skip(1).last() == parts.last());
        assert(lines(parts) =~= lines(parts.drop_last()) + parts.last() + seq![0x0au8]);
    }
}

/// The part is what the stream shows: its bytes, decoded where they can be.
pub open spec fn shows(d: DocumentView, id: ObjectId, part: Seq<u8>) -> bool {
    encoded_stream(d, id) matches Ok(Some((dict, encoded))) && match decoded(dict, encoded, decode_limit(d.limits)) {
        Ok(content) => part == content,
        Err(_) => part == encoded,
    }
}

/// The content of several streams is that of the first, then that of the second, and so
/// on, with a line end behind each.
pub proof fn law_streams_are_joined_in_order(d: DocumentView, ids: Seq<ObjectId>, parts: Seq<Seq<u8>>)
    requires
        ids.len() == parts.len(),
        forall|i: int| 0 <= i < ids.len() ==> shows(d, #[trigger] ids[i], parts[i]),
    ensures
        joined_content(d, ids) == Ok::<Seq<u8>, IndexedStreamReadError>(lines(parts)),
    decreases ids.len(),
{
    if ids.len() > 0 {
        let last = ids.len() - 1;
        let front = ids.drop_last();
        let front_parts = parts.drop_last();
        assert forall|i: int| 0 <= i < front.len() implies shows(d, #[trigger] front[i], front_parts[i]) by {
            assert(shows(d, ids[i], parts[i]));
        }
        law_streams_are_joined_in_order(d, front, front_parts);
        assert(shows(d, ids[last], parts[last]));
        lemma_lines(parts);
        reveal(shown_content);
        assert((lines(front_parts) + parts[last]).push(0x0a) =~= lines(parts));
        if let Ok(Some((dict, encoded))) = encoded_stream(d, ids[last]) {
            assert(shown_content(d, dict, encoded) == parts[last]);
            assert(joined_content(d, ids) == Ok::<Seq<u8>, IndexedStreamReadError>(
                (lines(front_parts) + parts[last]).push(0x0a),
            ));
        }
    } else {
        assert(lines(parts) =~= Seq::empty());
    }
}

/// What is no reference among a page's contents is passed over; the references keep
/// their order.
pub proof fn law_references_keep_their_order(front: Seq<ObjectView>, rest: Seq<ObjectView>, item: ObjectView)
    ensures
        references(Seq::empty()) == Seq::<ObjectId>::empty(),
        references(seq![item]) == (match item {
            ObjectView::Reference(id) => seq![id],
            _ => Seq::empty(),
        }),
        references(front + rest) == references(front) + references(rest),
    decreases rest.len(),
{
    assert(seq![item].drop_last() =~= Seq::empty());
    assert(references(Seq::empty()) =~= Seq::<ObjectId>::empty());
    if let ObjectView::Reference(id) = item {
        assert(references(seq![item]) =~= seq![id]);
    }
    if rest.len() == 0 {
        assert(front + rest =~= front);
        assert(references(front) + references(rest) =~= references(front));
    } else {
        law_references_keep_their_order(front, rest.drop_last(), item);
        assert((front + rest).drop_last() =~= front + rest.drop_last());
        assert(references(front + rest) =~= references(front) + references(rest));
    }
}

/// The bytes of `Contents`.
pub open spec fn contents_word() -> Seq<u8> {
    seq![0x43u8, 0x6f, 0x6e, 0x74, 0x65, 0x6e, 0x74, 0x73]
}

/// The content of a page is that of the streams to which its `Contents` refer, in their
/// order; a page without `Contents` has none.
pub proof fn law_page_content_is_that_of_its_streams(
    d: DocumentView,
    id: ObjectId,
    page: DictionaryView,
    items: Seq<ObjectView>,
    parts: Seq<Seq<u8>>,
)
    requires
        object_of(d, id) == Ok::<ObjectView, IndexedReaderError>(ObjectView::Dictionary(page)),
    ensures
        dict_get(page, contents_word()) is None ==> content_of_page(d, id)
            == Ok::<Seq<u8>, IndexedStreamReadError>(Seq::empty()),
        dict_get(page, contents_word()) == Some(ObjectView::Array(items)) && items.len()
            == parts.len() && (forall|i: int|
            0 <= i < items.len() ==> (#[trigger] items[i] matches ObjectView::Reference(part) && shows(d, part, parts[i])))
            ==> content_of_page(d, id) == Ok::<Seq<u8>, IndexedStreamReadError>(lines(parts)),
{
    assert(KEY_CONTENTS@ =~= contents_word());
    if dict_get(page, KEY_CONTENTS@) == Some(ObjectView::Array(items)) && items.len() == parts.len() && (forall|i: int|
        0 <= i < items.len() ==> (#[trigger] items[i] matches ObjectView::Reference(part) && shows(d, part, parts[i]))) {
        let ids = references(items);
        lemma_all_references(items);
        assert forall|i: int| 0 <= i < ids.len() implies shows(d, #[trigger] ids[i], parts[i]) by {
            assert(items[i] == ObjectView::Reference(ids[i]));
        }
        law_streams_are_joined_in_order(d, ids, parts);
    }
}

/// A page whose `Contents` is one stream has the content of that stream. Where `Contents`
/// is a reference to an array, the streams are those of the array.
pub proof fn law_contents_may_be_referred_to(
    d: DocumentView,
    stream: ObjectId,
    descriptor: DescriptorView,
    array: ObjectId,
    items: Seq<ObjectView>,
)
    ensures
        descriptor_of(d, stream) == Ok::<DescriptorView, IndexedStreamReadError>(descriptor) ==> content_ids(
            d,
            ObjectView::Reference(stream),
            0,
        ) == seq![stream],
        descriptor_of(d, array) == Err::<DescriptorView, IndexedStreamReadError>(
            IndexedStreamReadError::NotStream { id: array },
        ) && object_of(d, array) == Ok::<ObjectView, IndexedReaderError>(ObjectView::Array(items)) ==> content_ids(
            d,
            ObjectView::Reference(array),
            0,
        ) == content_ids(d, ObjectView::Array(items), 0),
{
    reveal_with_fuel(content_ids, 2);
}

proof fn lemma_all_references(items: Seq<ObjectView>)
    requires
        forall|i: int| 0 <= i < items.len() ==> (#[trigger] items[i]) is Reference,
    ensures
        references(items).len() == items.len(),
        forall|i: int| 0 <= i < items.len() ==> #[trigger] items[i] == ObjectView::Reference(references(items)[i]),
    decreases items.len(),
{
    if items.len() > 0 {
        let front = items.drop_last();
        assert forall|i: int| 0 <= i < front.len() implies (#[trigger] front[i]) is Reference by {
            assert(items[i] is Reference);
        }
        lemma_all_references(front);
        assert(items[items.len() - 1] is Reference);
        assert forall|i: int| 0 <= i < items.len() implies #[trigger] items[i] == ObjectView::Reference(
            references(items)[i],
        ) by {
            if i < front.len() {
                assert(front[i] == items[i]);
            }
        }
    }
}

} // verus!
