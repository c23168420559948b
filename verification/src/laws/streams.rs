//! Which encoded streams can be opened as they are.

use vstd::prelude::*;

use crate::filters::KEY_FILTER;
use crate::object::{dict_get, DictionaryView, ObjectView};
use crate::resolve::DocumentView;
use crate::streams::{
    chunk_length, filter_protection, filters_protection, stream_protection, EncodedStreamProtection, FilterProtection,
    NAME_CRYPT,
};

verus! {

/// The bytes of `Filter`.
pub open spec fn filter_key() -> Seq<u8> {
    seq![0x46u8, 0x69, 0x6c, 0x74, 0x65, 0x72]
}

/// The bytes of `Crypt`.
pub open spec fn crypt_name() -> Seq<u8> {
    seq![0x43u8, 0x72, 0x79, 0x70, 0x74]
}

/// A filter named `Crypt` stands among the filters from `index` on.
pub open spec fn holds_crypt(filters: Seq<ObjectView>, index: int) -> bool {
    exists|i: int| index <= i < filters.len() && #[trigger] filters[i] == ObjectView::Name(crypt_name())
}

/// Every filter is given by its name.
pub open spec fn all_named(filters: Seq<ObjectView>) -> bool {
    forall|i: int| 0 <= i < filters.len() ==> (#[trigger] filters[i]) is Name
}

proof fn lemma_filters(
    d: DocumentView,
    filters: Seq<ObjectView>,
    index: int,
    trail: Seq<u32>,
    before: FilterProtection,
)
    requires
        d.locations.dom().finite(),
        0 <= index <= filters.len(),
        all_named(filters),
    ensures
        before == FilterProtection::Crypt || holds_crypt(filters, index) ==> filters_protection(
            d,
            filters,
            index,
            trail,
            before,
        ) == Some(FilterProtection::Crypt),
        before == FilterProtection::Plain && !holds_crypt(filters, index) ==> filters_protection(
            d,
            filters,
            index,
            trail,
            before,
        ) == Some(FilterProtection::Plain),
    decreases filters.len() - index,
{
    reveal_with_fuel(filter_protection, 2);
    reveal_with_fuel(filters_protection, 2);
    assert(NAME_CRYPT@ =~= crypt_name());
    if index < filters.len() {
        let next = if filters[index] == ObjectView::Name(crypt_name()) {
            FilterProtection::Crypt
        } else {
            before
        };
        assert(filters[index] is Name);
        lemma_filters(d, filters, index + 1, trail, next);
        assert(holds_crypt(filters, index) <==> filters[index] == ObjectView::Name(crypt_name()) || holds_crypt(
            filters,
            index + 1,
        ));
        assert(filters_protection(d, filters, index, trail, before) == filters_protection(
            d,
            filters,
            index + 1,
            trail,
            next,
        ));
    }
}

/// In a document that is not encrypted a stream can be opened as it is unless `Crypt` is
/// among its filters. In an encrypted one none can.
pub proof fn law_crypt_filters_protect_their_streams(
    d: DocumentView,
    dictionary: DictionaryView,
    filters: Seq<ObjectView>,
    name: Seq<u8>,
)
    requires
        d.locations.dom().finite(),
    ensures
        d.cipher is Some ==> stream_protection(d, dictionary) == EncodedStreamProtection::DocumentEncrypted,
        d.cipher is None && dict_get(dictionary, filter_key()) is None ==> stream_protection(d, dictionary)
            == EncodedStreamProtection::Plain,
        d.cipher is None && dict_get(dictionary, filter_key()) == Some(ObjectView::Name(name)) && name != crypt_name()
            ==> stream_protection(d, dictionary) == EncodedStreamProtection::Plain,
        d.cipher is None && dict_get(dictionary, filter_key()) == Some(ObjectView::Name(crypt_name()))
            ==> stream_protection(d, dictionary) == EncodedStreamProtection::CryptFilter,
        d.cipher is None && dict_get(dictionary, filter_key()) == Some(ObjectView::Array(filters)) && all_named(filters)
            && !holds_crypt(filters, 0) ==> stream_protection(d, dictionary) == EncodedStreamProtection::Plain,
        d.cipher is None && dict_get(dictionary, filter_key()) == Some(ObjectView::Array(filters)) && all_named(filters)
            && holds_crypt(filters, 0) ==> stream_protection(d, dictionary) == EncodedStreamProtection::CryptFilter,
{
    assert(NAME_CRYPT@ =~= crypt_name());
    assert(KEY_FILTER@ =~= filter_key());
    reveal_with_fuel(filter_protection, 2);
    if all_named(filters) {
        lemma_filters(d, filters, 0, Seq::empty(), FilterProtection::Plain);
    }
}

/// A read fills the whole room, up to the largest chunk, unless less is left.
pub proof fn law_chunks_fill_their_room(room: int, remaining: int)
    requires
        0 <= room <= 65536,
        0 <= remaining,
    ensures
        chunk_length(room, remaining) == room || chunk_length(room, remaining) == remaining,
        chunk_length(room, remaining) <= room,
        chunk_length(room, remaining) <= remaining,
{
}

} // verus!
