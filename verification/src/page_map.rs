//! Bounded walk over the page tree, and the page map that it gives.

use std::collections::VecDeque;
use std::rc::Rc;

use vstd::prelude::*;
use vstd::std_specs::iter::IteratorSpec;

use crate::errors::IndexedReaderError;
use crate::locations::live_numbers;
use crate::object::{
    array_view, dict_get, dict_has_type, lemma_array_view, Dictionary, DictionaryView, Object, ObjectId, ObjectView,
};
use crate::options::{DEFAULT_PAGE_COUNT_LIMIT, DEFAULT_PAGE_TREE_DEPTH_LIMIT, PAGE_TREE_DEREFERENCE_LIMIT};
use crate::recovery::KEY_ROOT;
use crate::resolve::{object_of, object_result, resolves, DocumentView, IndexedReader};
use crate::security::SecurityHandler;
use crate::source::RandomAccessSource;

verus! {

/// The bytes of `Pages`.
pub const NAME_PAGES: [u8; 5] = [0x50, 0x61, 0x67, 0x65, 0x73];

/// The bytes of `Page`.
pub const NAME_PAGE: [u8; 4] = [0x50, 0x61, 0x67, 0x65];

/// The bytes of `Kids`.
pub const KEY_KIDS: [u8; 4] = [0x4b, 0x69, 0x64, 0x73];

/// The bytes of `Resources`.
pub const KEY_RESOURCES: [u8; 9] = [0x52, 0x65, 0x73, 0x6f, 0x75, 0x72, 0x63, 0x65, 0x73];

/// The bytes of `MediaBox`.
pub const KEY_MEDIA_BOX: [u8; 8] = [0x4d, 0x65, 0x64, 0x69, 0x61, 0x42, 0x6f, 0x78];

/// The bytes of `CropBox`.
pub const KEY_CROP_BOX: [u8; 7] = [0x43, 0x72, 0x6f, 0x70, 0x42, 0x6f, 0x78];

/// The bytes of `Rotate`.
pub const KEY_ROTATE: [u8; 6] = [0x52, 0x6f, 0x74, 0x61, 0x74, 0x65];

/// The objects that the attributes of a page come from: the page itself, or the
/// nearest node above it that has them.
#[derive(Clone, Copy, Debug, PartialEq, Eq)]
pub struct InheritedPageAttributeOwners {
    pub resources: Option<ObjectId>,
    pub media_box: Option<ObjectId>,
    pub crop_box: Option<ObjectId>,
    pub rotate: Option<ObjectId>,
}

/// No attribute has an owner.
pub open spec fn no_owners() -> InheritedPageAttributeOwners {
    InheritedPageAttributeOwners { resources: None, media_box: None, crop_box: None, rotate: None }
}

/// The owner of an attribute below a node.
pub open spec fn owner_below(
    above: Option<ObjectId>,
    node: ObjectId,
    dictionary: DictionaryView,
    key: Seq<u8>,
) -> Option<ObjectId> {
    if dict_get(dictionary, key) is Some {
        Some(node)
    } else {
        above
    }
}

/// The owners of the attributes below a node.
pub open spec fn owners_below(
    above: InheritedPageAttributeOwners,
    node: ObjectId,
    dictionary: DictionaryView,
) -> InheritedPageAttributeOwners {
    InheritedPageAttributeOwners {
        resources: owner_below(above.resources, node, dictionary, KEY_RESOURCES@),
        media_box: owner_below(above.media_box, node, dictionary, KEY_MEDIA_BOX@),
        crop_box: owner_below(above.crop_box, node, dictionary, KEY_CROP_BOX@),
        rotate: owner_below(above.rotate, node, dictionary, KEY_ROTATE@),
    }
}

impl Default for InheritedPageAttributeOwners {
    fn default() -> (owners: Self)
        ensures
            owners == no_owners(),
    {
        InheritedPageAttributeOwners { resources: None, media_box: None, crop_box: None, rotate: None }
    }
}

impl InheritedPageAttributeOwners {
    /// The object that `Resources` come from.
    pub fn resources(&self) -> (r: Option<ObjectId>)
        ensures
            r == self.resources,
    {
        self.resources
    }

    /// The object that `MediaBox` comes from.
    pub fn media_box(&self) -> (r: Option<ObjectId>)
        ensures
            r == self.media_box,
    {
        self.media_box
    }

    /// The object that `CropBox` comes from.
    pub fn crop_box(&self) -> (r: Option<ObjectId>)
        ensures
            r == self.crop_box,
    {
        self.crop_box
    }

    /// The object that `Rotate` comes from.
    pub fn rotate(&self) -> (r: Option<ObjectId>)
        ensures
            r == self.rotate,
    {
        self.rotate
    }

    fn updated(self, owner: ObjectId, dictionary: &Dictionary) -> (r: Self)
        ensures
            r == owners_below(self, owner, dictionary@),
    {
        let mut owners = self;
        if dictionary.has(&KEY_RESOURCES) {
            owners.resources = Some(owner);
        }
        if dictionary.has(&KEY_MEDIA_BOX) {
            owners.media_box = Some(owner);
        }
        if dictionary.has(&KEY_CROP_BOX) {
            owners.crop_box = Some(owner);
        }
        if dictionary.has(&KEY_ROTATE) {
            owners.rotate = Some(owner);
        }
        owners
    }
}

/// A page, and the owners of its attributes.
#[derive(Clone, Copy, Debug, PartialEq, Eq)]
pub struct PageMapEntry {
    pub id: ObjectId,
    pub inherited: InheritedPageAttributeOwners,
}

impl PageMapEntry {
    /// The page.
    pub fn id(&self) -> (r: ObjectId)
        ensures
            r == self.id,
    {
        self.id
    }

    /// The owners of the page's attributes.
    pub fn inherited(&self) -> (r: &InheritedPageAttributeOwners)
        ensures
            *r == self.inherited,
    {
        &self.inherited
    }
}

/// The pages of a document in order.
#[derive(Clone, Debug, PartialEq, Eq)]
pub struct PageMap {
    pub pages: Vec<PageMapEntry>,
}

impl PageMap {
    pub open spec fn view(&self) -> Seq<PageMapEntry> {
        self.pages@
    }

    /// How many pages there are.
    pub fn len(&self) -> (r: usize)
        ensures
            r == self@.len(),
    {
        self.pages.len()
    }

    /// Reports whether there are no pages.
    pub fn is_empty(&self) -> (r: bool)
        ensures
            r == (self@.len() == 0),
    {
        self.pages.len() == 0
    }

    /// The page at an index.
    pub fn get(&self, index: usize) -> (r: Option<&PageMapEntry>)
        ensures
            match r {
                Some(entry) => index < self@.len() && *entry == self@[index as int],
                None => index >= self@.len(),
            },
    {
        if index < self.pages.len() {
            Some(&self.pages[index])
        } else {
            None
        }
    }

    /// The pages in order.
    pub fn iter(&self) -> (r: core::slice::Iter<'_, PageMapEntry>)
        ensures
            r.remaining().unref() == self@,
    {
        let entries = self.pages.iter();
        assert(entries.remaining().unref() =~= self@);
        entries
    }
}

/// How far a page tree is followed.
#[derive(Clone, Copy, Debug, PartialEq, Eq, Structural)]
pub struct PageMapLimits {
    pub max_depth: usize,
    pub max_pages: usize,
}

impl Default for PageMapLimits {
    fn default() -> (limits: Self)
        ensures
            limits.max_depth == DEFAULT_PAGE_TREE_DEPTH_LIMIT,
            limits.max_pages == DEFAULT_PAGE_COUNT_LIMIT,
    {
        PageMapLimits { max_depth: DEFAULT_PAGE_TREE_DEPTH_LIMIT, max_pages: DEFAULT_PAGE_COUNT_LIMIT }
    }
}

/// A slot that the walk still has to visit. The children of one node share what
/// they inherit.
pub struct PendingKid {
    /// The node, unless the slot holds something else than a reference.
    pub id: Option<ObjectId>,
    pub inherited: Rc<InheritedPageAttributeOwners>,
    pub depth: u32,
}

/// A slot as a mathematical value.
pub struct SlotView {
    pub id: Option<ObjectId>,
    pub inherited: InheritedPageAttributeOwners,
    pub depth: u32,
}

impl PendingKid {
    pub open spec fn view(&self) -> SlotView {
        SlotView { id: self.id, inherited: *self.inherited, depth: self.depth }
    }
}

/// The views of slots.
pub open spec fn slots_view(slots: Seq<PendingKid>) -> Seq<SlotView> {
    Seq::new(slots.len(), |i: int| slots[i]@)
}

/// What a walk took.
#[derive(Clone, Copy, Debug, PartialEq, Eq, Structural)]
pub struct PageMapWork {
    /// How many slots were visited.
    pub consumed: usize,
    /// How many slots waited at most.
    pub peak_pending_items: usize,
    /// How many bytes those slots took.
    pub peak_pending_bytes: usize,
}

/// How many bytes this many slots take.
pub open spec fn slots_bytes(count: int) -> int {
    lesser(count * vstd::layout::size_of::<PendingKid>(), usize::MAX as int)
}

fn pending_bytes(count: usize) -> (r: usize)
    ensures
        r == slots_bytes(count as int),
{
    match count.checked_mul(core::mem::size_of::<PendingKid>()) {
        Some(bytes) => bytes,
        None => usize::MAX,
    }
}

/// What resolving an object means for the page tree: nothing where the document
/// has none.
pub open spec fn unless_missing(object: Result<ObjectView, IndexedReaderError>) -> Result<
    Option<ObjectView>,
    IndexedReaderError,
> {
    match object {
        Ok(object) => Ok(Some(object)),
        Err(IndexedReaderError::MissingNormalObject { .. }) => Ok(None),
        Err(IndexedReaderError::MissingNormalObjectAtXref { .. }) => Ok(None),
        Err(error) => Err(error),
    }
}

/// An object of the page tree; nothing where the document has none.
pub open spec fn tree_object(d: DocumentView, id: ObjectId) -> Result<Option<ObjectView>, IndexedReaderError> {
    unless_missing(object_of(d, id))
}

/// The value that a chain of references leads to; nothing where the chain is
/// broken, comes back to itself or is too long.
pub open spec fn tree_value(d: DocumentView, object: ObjectView, seen: Seq<ObjectId>) -> Result<
    Option<ObjectView>,
    IndexedReaderError,
>
    decreases PAGE_TREE_DEREFERENCE_LIMIT - seen.len(),
{
    match object {
        ObjectView::Reference(id) => if seen.len() >= PAGE_TREE_DEREFERENCE_LIMIT || seen.contains(id) {
            Ok(None)
        } else {
            match tree_object(d, id) {
                Err(error) => Err(error),
                Ok(None) => Ok(None),
                Ok(Some(next)) => tree_value(d, next, seen.push(id)),
            }
        },
        _ => Ok(Some(object)),
    }
}

/// The dictionary that an id leads to.
pub open spec fn tree_dictionary(d: DocumentView, id: ObjectId) -> Result<Option<DictionaryView>, IndexedReaderError> {
    match tree_object(d, id) {
        Err(error) => Err(error),
        Ok(None) => Ok(None),
        Ok(Some(object)) => match tree_value(d, object, Seq::empty()) {
            Err(error) => Err(error),
            Ok(Some(ObjectView::Dictionary(dictionary))) => Ok(Some(dictionary)),
            Ok(_) => Ok(None),
        },
    }
}

/// The array that a value leads to.
pub open spec fn tree_array(d: DocumentView, value: Option<ObjectView>) -> Result<
    Option<Seq<ObjectView>>,
    IndexedReaderError,
> {
    match value {
        None => Ok(None),
        Some(object) => match tree_value(d, object, Seq::empty()) {
            Err(error) => Err(error),
            Ok(Some(ObjectView::Array(items))) => Ok(Some(items)),
            Ok(_) => Ok(None),
        },
    }
}

/// The smaller of two numbers.
pub open spec fn lesser(one: int, other: int) -> int {
    if one < other {
        one
    } else {
        other
    }
}

/// The slots that children make.
pub open spec fn kid_slots(kids: Seq<ObjectView>, inherited: InheritedPageAttributeOwners, depth: u32) -> Seq<
    SlotView,
> {
    Seq::new(
        kids.len(),
        |i: int|
            SlotView {
                id: match kids[i] {
                    ObjectView::Reference(id) => Some(id),
                    _ => None,
                },
                inherited,
                depth,
            },
    )
}

/// The slots after children have been put in front, of which no more are kept
/// than can still be visited.
pub open spec fn with_kids(
    pending: Seq<SlotView>,
    kids: Seq<ObjectView>,
    inherited: InheritedPageAttributeOwners,
    depth: u32,
    remaining: int,
) -> Seq<SlotView> {
    let kept = kids.take(lesser(kids.len() as int, remaining));
    kid_slots(kept, inherited, depth) + pending.take(lesser(pending.len() as int, remaining - kept.len()))
}

/// One deeper.
pub open spec fn deeper(depth: u32) -> u32 {
    if depth == u32::MAX {
        depth
    } else {
        (depth + 1) as u32
    }
}

/// What a walk has found and what it still has to visit.
pub struct WalkView {
    pub pending: Seq<SlotView>,
    pub pages: Seq<PageMapEntry>,
    /// How many slots may still be visited.
    pub remaining: nat,
    pub consumed: nat,
    pub peak: nat,
}

impl WalkView {
    /// Puts children in front of what waits.
    pub open spec fn prepend(
        self,
        kids: Seq<ObjectView>,
        inherited: InheritedPageAttributeOwners,
        depth: u32,
    ) -> WalkView {
        let pending = with_kids(self.pending, kids, inherited, depth, self.remaining as int);
        WalkView {
            pending,
            peak: if pending.len() > self.peak {
                pending.len()
            } else {
                self.peak
            },
            ..self
        }
    }
}

/// The walk after one slot, which held `kid`.
pub open spec fn visited(d: DocumentView, limits: PageMapLimits, walk: WalkView, kid: SlotView) -> Result<
    WalkView,
    IndexedReaderError,
> {
    match kid.id {
        None => Ok(walk),
        Some(id) => if kid.depth > limits.max_depth {
            Err(IndexedReaderError::PageTreeDepthLimitExceeded { limit: limits.max_depth })
        } else {
            match tree_dictionary(d, id) {
                Err(error) => Err(error),
                Ok(None) => Ok(walk),
                Ok(Some(dictionary)) => {
                    let inherited = owners_below(kid.inherited, id, dictionary);
                    if dict_has_type(dictionary, NAME_PAGE@) {
                        if walk.pages.len() >= limits.max_pages {
                            Err(IndexedReaderError::PageCountLimitExceeded { limit: limits.max_pages })
                        } else {
                            Ok(WalkView { pages: walk.pages.push(PageMapEntry { id, inherited }), ..walk })
                        }
                    } else if dict_has_type(dictionary, NAME_PAGES@) {
                        match tree_array(d, dict_get(dictionary, KEY_KIDS@)) {
                            Err(error) => Err(error),
                            Ok(None) => Ok(walk),
                            Ok(Some(kids)) => Ok(walk.prepend(kids, inherited, deeper(kid.depth))),
                        }
                    } else {
                        Ok(walk)
                    }
                },
            }
        },
    }
}

/// The walk after its first slot has been taken out.
pub open spec fn taken(walk: WalkView) -> WalkView {
    WalkView {
        pending: walk.pending.skip(1),
        remaining: (walk.remaining - 1) as nat,
        consumed: walk.consumed + 1,
        ..walk
    }
}

/// The walk to its end.
pub open spec fn walked(d: DocumentView, limits: PageMapLimits, walk: WalkView) -> Result<WalkView, IndexedReaderError>
    decreases walk.remaining,
{
    if walk.pending.len() == 0 || walk.remaining == 0 {
        Ok(walk)
    } else {
        match visited(d, limits, taken(walk), walk.pending[0]) {
            Err(error) => Err(error),
            Ok(next) => if next.remaining < walk.remaining {
                walked(d, limits, next)
            } else {
                Ok(next)
            },
        }
    }
}

/// A walk that has found nothing.
pub open spec fn empty_walk(budget: nat) -> WalkView {
    WalkView { pending: Seq::empty(), pages: Seq::empty(), remaining: budget, consumed: 0, peak: 0 }
}

/// The walk over the tree below `root`.
pub open spec fn tree_walk(d: DocumentView, limits: PageMapLimits, budget: nat, root: ObjectId) -> Result<
    WalkView,
    IndexedReaderError,
> {
    match tree_dictionary(d, root) {
        Err(error) => Err(error),
        Ok(None) => Ok(empty_walk(budget)),
        Ok(Some(dictionary)) => match tree_array(d, dict_get(dictionary, KEY_KIDS@)) {
            Err(error) => Err(error),
            Ok(None) => Ok(empty_walk(budget)),
            Ok(Some(kids)) => walked(
                d,
                limits,
                empty_walk(budget).prepend(kids, owners_below(no_owners(), root, dictionary), 1),
            ),
        },
    }
}

/// The reference that a dictionary holds for a key.
pub open spec fn dict_reference(dictionary: DictionaryView, key: Seq<u8>) -> Option<ObjectId> {
    match dict_get(dictionary, key) {
        Some(ObjectView::Reference(id)) => Some(id),
        _ => None,
    }
}

/// The walk over a document's pages.
pub open spec fn pages_walk(d: DocumentView, trailer: DictionaryView, limits: PageMapLimits, budget: nat) -> Result<
    WalkView,
    IndexedReaderError,
> {
    match dict_reference(trailer, KEY_ROOT@) {
        None => Ok(empty_walk(budget)),
        Some(root) => match tree_dictionary(d, root) {
            Err(error) => Err(error),
            Ok(None) => Ok(empty_walk(budget)),
            Ok(Some(catalog)) => match dict_reference(catalog, NAME_PAGES@) {
                None => Ok(empty_walk(budget)),
                Some(pages) => tree_walk(d, limits, budget, pages),
            },
        },
    }
}

/// The pages of a document. No slot is visited that the number of live objects
/// does not pay for.
pub open spec fn pages_of(d: DocumentView, trailer: DictionaryView, limits: PageMapLimits) -> Result<
    Seq<PageMapEntry>,
    IndexedReaderError,
> {
    match pages_walk(d, trailer, limits, live_numbers(d.locations).len()) {
        Ok(walk) => Ok(walk.pages),
        Err(error) => Err(error),
    }
}

/// What a source that may fail leaves of an object of the page tree.
pub open spec fn leaves_tree_object(
    got: Result<Option<ObjectView>, IndexedReaderError>,
    d: DocumentView,
    id: ObjectId,
) -> bool {
    exists|object: Result<ObjectView, IndexedReaderError>| #[trigger]
        resolves(object, d, id) && got == unless_missing(object)
}

/// What a source that may fail leaves of the value that a chain of references
/// leads to.
pub open spec fn leaves_value(
    got: Result<Option<ObjectView>, IndexedReaderError>,
    d: DocumentView,
    object: ObjectView,
    seen: Seq<ObjectId>,
) -> bool
    decreases PAGE_TREE_DEREFERENCE_LIMIT - seen.len(),
{
    match object {
        ObjectView::Reference(id) => if seen.len() >= PAGE_TREE_DEREFERENCE_LIMIT || seen.contains(id) {
            got == Ok::<Option<ObjectView>, IndexedReaderError>(None)
        } else {
            exists|next: Result<Option<ObjectView>, IndexedReaderError>| #[trigger]
                leaves_tree_object(next, d, id) && match next {
                    Ok(Some(next)) => leaves_value(got, d, next, seen.push(id)),
                    _ => got == next,
                }
        },
        _ => got == Ok::<Option<ObjectView>, IndexedReaderError>(Some(object)),
    }
}

/// The dictionary that a value is.
pub open spec fn dictionary_in(value: Result<Option<ObjectView>, IndexedReaderError>) -> Result<
    Option<DictionaryView>,
    IndexedReaderError,
> {
    match value {
        Err(error) => Err(error),
        Ok(Some(ObjectView::Dictionary(dictionary))) => Ok(Some(dictionary)),
        Ok(_) => Ok(None),
    }
}

/// The array that a value is.
pub open spec fn array_in(value: Result<Option<ObjectView>, IndexedReaderError>) -> Result<
    Option<Seq<ObjectView>>,
    IndexedReaderError,
> {
    match value {
        Err(error) => Err(error),
        Ok(Some(ObjectView::Array(items))) => Ok(Some(items)),
        Ok(_) => Ok(None),
    }
}

/// What a source that may fail leaves of the dictionary that an id leads to.
pub open spec fn leaves_dictionary(
    got: Result<Option<DictionaryView>, IndexedReaderError>,
    d: DocumentView,
    id: ObjectId,
) -> bool {
    exists|object: Result<Option<ObjectView>, IndexedReaderError>| #[trigger]
        leaves_tree_object(object, d, id) && match object {
            Err(error) => got == Err::<Option<DictionaryView>, IndexedReaderError>(error),
            Ok(None) => got == Ok::<Option<DictionaryView>, IndexedReaderError>(None),
            Ok(Some(object)) => exists|value: Result<Option<ObjectView>, IndexedReaderError>| #[trigger]
                leaves_value(value, d, object, Seq::empty()) && got == dictionary_in(value),
        }
}

/// What a source that may fail leaves of the array that a value leads to.
pub open spec fn leaves_array(
    got: Result<Option<Seq<ObjectView>>, IndexedReaderError>,
    d: DocumentView,
    value: Option<ObjectView>,
) -> bool {
    match value {
        None => got == Ok::<Option<Seq<ObjectView>>, IndexedReaderError>(None),
        Some(object) => exists|found: Result<Option<ObjectView>, IndexedReaderError>| #[trigger]
            leaves_value(found, d, object, Seq::empty()) && got == array_in(found),
    }
}

/// The walk after a slot that held a node with this dictionary and these children.
pub open spec fn visited_node(
    limits: PageMapLimits,
    walk: WalkView,
    kid: SlotView,
    dictionary: DictionaryView,
    kids: Result<Option<Seq<ObjectView>>, IndexedReaderError>,
) -> Result<WalkView, IndexedReaderError> {
    let id = kid.id->Some_0;
    let inherited = owners_below(kid.inherited, id, dictionary);
    if dict_has_type(dictionary, NAME_PAGE@) {
        if walk.pages.len() >= limits.max_pages {
            Err(IndexedReaderError::PageCountLimitExceeded { limit: limits.max_pages })
        } else {
            Ok(WalkView { pages: walk.pages.push(PageMapEntry { id, inherited }), ..walk })
        }
    } else if dict_has_type(dictionary, NAME_PAGES@) {
        match kids {
            Err(error) => Err(error),
            Ok(None) => Ok(walk),
            Ok(Some(kids)) => Ok(walk.prepend(kids, inherited, deeper(kid.depth))),
        }
    } else {
        Ok(walk)
    }
}

/// What a source that may fail leaves of the walk after one slot.
pub open spec fn leaves_visit(
    got: Result<WalkView, IndexedReaderError>,
    d: DocumentView,
    limits: PageMapLimits,
    walk: WalkView,
    kid: SlotView,
) -> bool {
    match kid.id {
        None => got == Ok::<WalkView, IndexedReaderError>(walk),
        Some(id) => if kid.depth > limits.max_depth {
            got == Err::<WalkView, IndexedReaderError>(
                IndexedReaderError::PageTreeDepthLimitExceeded { limit: limits.max_depth },
            )
        } else {
            exists|node: Result<Option<DictionaryView>, IndexedReaderError>| #[trigger]
                leaves_dictionary(node, d, id) && match node {
                    Err(error) => got == Err::<WalkView, IndexedReaderError>(error),
                    Ok(None) => got == Ok::<WalkView, IndexedReaderError>(walk),
                    Ok(Some(dictionary)) => if dict_has_type(dictionary, NAME_PAGE@) || !dict_has_type(
                        dictionary,
                        NAME_PAGES@,
                    ) {
                        got == visited_node(limits, walk, kid, dictionary, Ok(None))
                    } else {
                        exists|kids: Result<Option<Seq<ObjectView>>, IndexedReaderError>| #[trigger]
                            leaves_array(kids, d, dict_get(dictionary, KEY_KIDS@)) && got == visited_node(
                                limits,
                                walk,
                                kid,
                                dictionary,
                                kids,
                            )
                    },
                }
        },
    }
}

/// What a source that may fail leaves of the walk to its end.
pub open spec fn leaves_walk(
    got: Result<WalkView, IndexedReaderError>,
    d: DocumentView,
    limits: PageMapLimits,
    walk: WalkView,
) -> bool
    decreases walk.remaining,
{
    if walk.pending.len() == 0 || walk.remaining == 0 {
        got == Ok::<WalkView, IndexedReaderError>(walk)
    } else {
        exists|next: Result<WalkView, IndexedReaderError>| #[trigger]
            leaves_visit(next, d, limits, taken(walk), walk.pending[0]) && match next {
                Err(_) => got == next,
                Ok(next) => if next.remaining < walk.remaining {
                    leaves_walk(got, d, limits, next)
                } else {
                    got == Ok::<WalkView, IndexedReaderError>(next)
                },
            }
    }
}

/// What a source that may fail leaves of the walk over the tree below `root`.
pub open spec fn leaves_tree(
    got: Result<WalkView, IndexedReaderError>,
    d: DocumentView,
    limits: PageMapLimits,
    budget: nat,
    root: ObjectId,
) -> bool {
    exists|node: Result<Option<DictionaryView>, IndexedReaderError>| #[trigger]
        leaves_dictionary(node, d, root) && match node {
            Err(error) => got == Err::<WalkView, IndexedReaderError>(error),
            Ok(None) => got == Ok::<WalkView, IndexedReaderError>(empty_walk(budget)),
            Ok(Some(dictionary)) => exists|kids: Result<Option<Seq<ObjectView>>, IndexedReaderError>| #[trigger]
                leaves_array(kids, d, dict_get(dictionary, KEY_KIDS@)) && match kids {
                    Err(error) => got == Err::<WalkView, IndexedReaderError>(error),
                    Ok(None) => got == Ok::<WalkView, IndexedReaderError>(empty_walk(budget)),
                    Ok(Some(kids)) => leaves_walk(
                        got,
                        d,
                        limits,
                        empty_walk(budget).prepend(kids, owners_below(no_owners(), root, dictionary), 1),
                    ),
                },
        }
}

/// What a source that may fail leaves of the walk over a document's pages: the
/// source's failure, or a walk on which each object was what such a source leaves
/// of it. Nothing that was not read counts as missing.
pub open spec fn leaves_pages(
    got: Result<WalkView, IndexedReaderError>,
    d: DocumentView,
    trailer: DictionaryView,
    limits: PageMapLimits,
    budget: nat,
) -> bool {
    match dict_reference(trailer, KEY_ROOT@) {
        None => got == Ok::<WalkView, IndexedReaderError>(empty_walk(budget)),
        Some(root) => exists|node: Result<Option<DictionaryView>, IndexedReaderError>| #[trigger]
            leaves_dictionary(node, d, root) && match node {
                Err(error) => got == Err::<WalkView, IndexedReaderError>(error),
                Ok(None) => got == Ok::<WalkView, IndexedReaderError>(empty_walk(budget)),
                Ok(Some(catalog)) => match dict_reference(catalog, NAME_PAGES@) {
                    None => got == Ok::<WalkView, IndexedReaderError>(empty_walk(budget)),
                    Some(pages) => leaves_tree(got, d, limits, budget, pages),
                },
            },
    }
}

/// The page map is that of a walk that a source that may fail leaves.
pub open spec fn leaves_page_map(
    got: Result<Seq<PageMapEntry>, IndexedReaderError>,
    d: DocumentView,
    trailer: DictionaryView,
    limits: PageMapLimits,
) -> bool {
    exists|walk: Result<WalkView, IndexedReaderError>| #[trigger]
        leaves_pages(walk, d, trailer, limits, live_numbers(d.locations).len()) && got == (match walk {
            Ok(walk) => Ok(walk.pages),
            Err(error) => Err(error),
        })
}

/// The walk keeps to its bounds.
pub open spec fn walk_bounded(walk: WalkView, limits: PageMapLimits, budget: nat) -> bool {
    &&& walk.pending.len() <= walk.remaining
    &&& walk.remaining + walk.consumed == budget
    &&& walk.pages.len() <= limits.max_pages
    &&& walk.pages.len() <= walk.consumed
    &&& walk.pending.len() <= walk.peak <= budget
}

proof fn lemma_walk_bounded(d: DocumentView, limits: PageMapLimits, walk: WalkView, budget: nat)
    requires
        walk_bounded(walk, limits, budget),
    ensures
        walked(d, limits, walk) matches Ok(end) ==> walk_bounded(end, limits, budget) && end.pending.len() == 0,
    decreases walk.remaining,
{
    if walk.pending.len() > 0 {
        let rest = taken(walk);
        if let Ok(next) = visited(d, limits, rest, walk.pending[0]) {
            assert(next.remaining == rest.remaining);
            assert(walk_bounded(next, limits, budget));
            lemma_walk_bounded(d, limits, next, budget);
        }
    }
}

/// A page map holds no more pages than the limit allows and than there are live
/// objects, and deriving it visits and keeps no more slots than there are live
/// objects.
pub proof fn law_page_map_is_bounded(d: DocumentView, trailer: DictionaryView, limits: PageMapLimits, budget: nat)
    ensures
        pages_walk(d, trailer, limits, budget) matches Ok(walk) ==> {
            &&& walk.pages.len() <= limits.max_pages
            &&& walk.pages.len() <= walk.consumed <= budget
            &&& walk.peak <= budget
        },
{
    if let Some(root) = dict_reference(trailer, KEY_ROOT@) {
        if let Ok(Some(catalog)) = tree_dictionary(d, root) {
            if let Some(pages) = dict_reference(catalog, NAME_PAGES@) {
                if let Ok(Some(dictionary)) = tree_dictionary(d, pages) {
                    if let Ok(Some(kids)) = tree_array(d, dict_get(dictionary, KEY_KIDS@)) {
                        let start = empty_walk(budget).prepend(kids, owners_below(no_owners(), pages, dictionary), 1);
                        assert(walk_bounded(start, limits, budget));
                        lemma_walk_bounded(d, limits, start, budget);
                    }
                }
            }
        }
    }
}

/// The view of a value that may be missing.
pub open spec fn value_result(r: Result<Option<Object>, IndexedReaderError>) -> Result<
    Option<ObjectView>,
    IndexedReaderError,
> {
    match r {
        Ok(Some(object)) => Ok(Some(object@)),
        Ok(None) => Ok(None),
        Err(error) => Err(error),
    }
}

/// The view of a dictionary that may be missing.
pub open spec fn dictionary_result(r: Result<Option<Dictionary>, IndexedReaderError>) -> Result<
    Option<DictionaryView>,
    IndexedReaderError,
> {
    match r {
        Ok(Some(dictionary)) => Ok(Some(dictionary@)),
        Ok(None) => Ok(None),
        Err(error) => Err(error),
    }
}

/// The view of an array that may be missing.
pub open spec fn array_result(r: Result<Option<Vec<Object>>, IndexedReaderError>) -> Result<
    Option<Seq<ObjectView>>,
    IndexedReaderError,
> {
    match r {
        Ok(Some(items)) => Ok(Some(array_view(items@))),
        Ok(None) => Ok(None),
        Err(error) => Err(error),
    }
}

fn contains_id(ids: &Vec<ObjectId>, id: ObjectId) -> (r: bool)
    ensures
        r == ids@.contains(id),
{
    let mut index: usize = 0;
    while index < ids.len()
        invariant
            index <= ids@.len(),
            forall|i: int| 0 <= i < index ==> ids@[i] != id,
        decreases ids@.len() - index,
    {
        let other: ObjectId = ids[index];
        if other.0 == id.0 && other.1 == id.1 {
            return true;
        }
        index += 1;
    }
    false
}

impl<S: RandomAccessSource, H: SecurityHandler> IndexedReader<S, H> {
    fn resolve_page_tree_object(&self, id: ObjectId) -> (r: Result<Option<Object>, IndexedReaderError>)
        ensures
            self.source.reliable() ==> value_result(r) == tree_object(self.document(), id),
            leaves_tree_object(value_result(r), self.document(), id),
    {
        let resolved = self.resolve_object(id);
        let ghost object = object_result(resolved);
        let r = match resolved {
            Ok(object) => Ok(Some(object)),
            Err(error) => match error {
                IndexedReaderError::MissingNormalObject { .. } => Ok(None),
                IndexedReaderError::MissingNormalObjectAtXref { .. } => Ok(None),
                _ => Err(error),
            },
        };
        assert(resolves(object, self.document(), id) && value_result(r) == unless_missing(object));
        r
    }

    fn resolve_deref_value(&self, object: Object) -> (r: Result<Option<Object>, IndexedReaderError>)
        ensures
            self.source.reliable() ==> value_result(r) == tree_value(self.document(), object@, Seq::empty()),
            leaves_value(value_result(r), self.document(), object@, Seq::empty()),
    {
        let ghost d = self.document();
        let ghost expected = tree_value(d, object@, Seq::empty());
        let mut value = object;
        let mut seen: Vec<ObjectId> = Vec::new();
        assert(seen@ =~= Seq::<ObjectId>::empty());
        loop
            invariant
                d == self.document(),
                seen@.len() <= PAGE_TREE_DEREFERENCE_LIMIT,
                expected == tree_value(d, object@, Seq::empty()),
                self.source.reliable() ==> expected == tree_value(d, value@, seen@),
                forall|got: Result<Option<ObjectView>, IndexedReaderError>| #[trigger]
                    leaves_value(got, d, value@, seen@) ==> leaves_value(got, d, object@, Seq::empty()),
            decreases PAGE_TREE_DEREFERENCE_LIMIT - seen@.len(),
        {
            let id: ObjectId = match value.as_reference() {
                Some(id) => id,
                None => {
                    assert(leaves_value(Ok(Some(value@)), d, value@, seen@));
                    return Ok(Some(value));
                },
            };
            if seen.len() >= PAGE_TREE_DEREFERENCE_LIMIT || contains_id(&seen, id) {
                assert(leaves_value(Ok(None), d, value@, seen@));
                return Ok(None);
            }
            let ghost before = value@;
            let next = self.resolve_page_tree_object(id);
            let ghost found = value_result(next);
            assert(leaves_tree_object(found, d, id));
            match next {
                Err(error) => {
                    assert(leaves_value(Err(error), d, before, seen@));
                    return Err(error);
                },
                Ok(None) => {
                    assert(leaves_value(Ok(None), d, before, seen@));
                    return Ok(None);
                },
                Ok(Some(resolved)) => {
                    value = resolved;
                },
            }
            proof {
                assert forall|got: Result<Option<ObjectView>, IndexedReaderError>| #[trigger]
                    leaves_value(got, d, value@, seen@.push(id)) implies leaves_value(got, d, object@, Seq::empty()) by {
                    assert(leaves_value(got, d, before, seen@));
                }
            }
            seen.push(id);
        }
    }

    fn resolve_dictionary_deref(&self, id: ObjectId) -> (r: Result<Option<Dictionary>, IndexedReaderError>)
        ensures
            self.source.reliable() ==> dictionary_result(r) == tree_dictionary(self.document(), id),
            leaves_dictionary(dictionary_result(r), self.document(), id),
    {
        let resolved = self.resolve_page_tree_object(id);
        let ghost found = value_result(resolved);
        assert(leaves_tree_object(found, self.document(), id));
        let object = match resolved {
            Err(error) => {
                return Err(error);
            },
            Ok(None) => {
                return Ok(None);
            },
            Ok(Some(object)) => object,
        };
        let ghost shown = object@;
        let value = self.resolve_deref_value(object);
        let ghost reached = value_result(value);
        let r = match value {
            Err(error) => Err(error),
            Ok(Some(Object::Dictionary(dictionary))) => Ok(Some(dictionary)),
            Ok(_) => Ok(None),
        };
        assert(leaves_value(reached, self.document(), shown, Seq::empty()) && dictionary_result(r) == dictionary_in(
            reached,
        ));
        r
    }

    fn resolve_array_value(&self, value: Option<Object>) -> (r: Result<Option<Vec<Object>>, IndexedReaderError>)
        ensures
            self.source.reliable() ==> array_result(r) == tree_array(
                self.document(),
                match value {
                    Some(object) => Some(object@),
                    None => None,
                },
            ),
            leaves_array(
                array_result(r),
                self.document(),
                match value {
                    Some(object) => Some(object@),
                    None => None,
                },
            ),
    {
        let value = match value {
            Some(value) => value,
            None => {
                return Ok(None);
            },
        };
        let ghost shown = value@;
        let found = self.resolve_deref_value(value);
        let ghost reached = value_result(found);
        let r = match found {
            Err(error) => Err(error),
            Ok(Some(Object::Array(items))) => {
                proof {
                    lemma_array_view(items);
                }
                Ok(Some(items))
            },
            Ok(_) => Ok(None),
        };
        assert(leaves_value(reached, self.document(), shown, Seq::empty()) && array_result(r) == array_in(reached));
        r
    }

    /// The children that a node names.
    fn resolve_kids(&self, dictionary: &Dictionary) -> (r: Result<Option<Vec<Object>>, IndexedReaderError>)
        ensures
            self.source.reliable() ==> array_result(r) == tree_array(
                self.document(),
                dict_get(dictionary@, KEY_KIDS@),
            ),
            leaves_array(array_result(r), self.document(), dict_get(dictionary@, KEY_KIDS@)),
    {
        let value: Option<Object> = match dictionary.get(&KEY_KIDS) {
            Some(value) => Some(value.clone()),
            None => None,
        };
        self.resolve_array_value(value)
    }

    /// Derives the pages of the document in order. The counts that the page tree
    /// states are not believed.
    pub fn page_map(&self) -> (r: Result<PageMap, IndexedReaderError>)
        ensures
            self.source.reliable() ==> page_map_result(r) == pages_of(
                self.document(),
                self.index@.trailer,
                PageMapLimits { max_depth: self.options.page_tree_depth, max_pages: self.options.max_pages },
            ),
            leaves_page_map(
                page_map_result(r),
                self.document(),
                self.index@.trailer,
                PageMapLimits { max_depth: self.options.page_tree_depth, max_pages: self.options.max_pages },
            ),
    {
        PageMap::from_reader(self)
    }

    /// Counts the pages of the document.
    pub fn page_count(&self) -> (r: Result<usize, IndexedReaderError>)
        ensures
            self.source.reliable() ==> match pages_of(
                self.document(),
                self.index@.trailer,
                PageMapLimits { max_depth: self.options.page_tree_depth, max_pages: self.options.max_pages },
            ) {
                Ok(pages) => r is Ok && r->Ok_0 == pages.len(),
                Err(error) => r == Err::<usize, IndexedReaderError>(error),
            },
            exists|pages: Result<Seq<PageMapEntry>, IndexedReaderError>| #[trigger]
                leaves_page_map(
                    pages,
                    self.document(),
                    self.index@.trailer,
                    PageMapLimits { max_depth: self.options.page_tree_depth, max_pages: self.options.max_pages },
                ) && match pages {
                    Ok(pages) => r is Ok && r->Ok_0 == pages.len(),
                    Err(error) => r == Err::<usize, IndexedReaderError>(error),
                },
    {
        let derived = self.page_map();
        let ghost pages = page_map_result(derived);
        assert(leaves_page_map(
            pages,
            self.document(),
            self.index@.trailer,
            PageMapLimits { max_depth: self.options.page_tree_depth, max_pages: self.options.max_pages },
        ));
        match derived {
            Ok(page_map) => Ok(page_map.len()),
            Err(error) => Err(error),
        }
    }
}

/// The view of a page map, or the error.
pub open spec fn page_map_result(r: Result<PageMap, IndexedReaderError>) -> Result<
    Seq<PageMapEntry>,
    IndexedReaderError,
> {
    match r {
        Ok(page_map) => Ok(page_map@),
        Err(error) => Err(error),
    }
}

/// The page map and the work are those that a walk ends with.
pub open spec fn ends_as(
    r: Result<(PageMap, PageMapWork), IndexedReaderError>,
    expected: Result<WalkView, IndexedReaderError>,
) -> bool {
    match (r, expected) {
        (Ok((page_map, work)), Ok(walk)) => page_map@ == walk.pages && work.consumed == walk.consumed
            && work.peak_pending_items == walk.peak && work.peak_pending_bytes == slots_bytes(walk.peak as int),
        (Err(error), Err(other)) => error == other,
        _ => false,
    }
}

impl PageMap {
    /// Derives the page map of a document within the limits of its reader.
    pub fn from_reader<S: RandomAccessSource, H: SecurityHandler>(reader: &IndexedReader<S, H>) -> (r: Result<
        PageMap,
        IndexedReaderError,
    >)
        ensures
            reader.source.reliable() ==> page_map_result(r) == pages_of(
                reader.document(),
                reader.index@.trailer,
                PageMapLimits { max_depth: reader.options.page_tree_depth, max_pages: reader.options.max_pages },
            ),
            leaves_page_map(
                page_map_result(r),
                reader.document(),
                reader.index@.trailer,
                PageMapLimits { max_depth: reader.options.page_tree_depth, max_pages: reader.options.max_pages },
            ),
    {
        PageMap::from_reader_with_limits(
            reader,
            PageMapLimits { max_depth: reader.options.page_tree_depth, max_pages: reader.options.max_pages },
        )
    }

    /// Derives the page map of a document within these limits.
    pub fn from_reader_with_limits<S: RandomAccessSource, H: SecurityHandler>(
        reader: &IndexedReader<S, H>,
        limits: PageMapLimits,
    ) -> (r: Result<PageMap, IndexedReaderError>)
        ensures
            reader.source.reliable() ==> page_map_result(r) == pages_of(
                reader.document(),
                reader.index@.trailer,
                limits,
            ),
            leaves_page_map(page_map_result(r), reader.document(), reader.index@.trailer, limits),
    {
        let derived = PageMap::from_reader_with_limits_and_stats(reader, limits);
        let ghost walk = choose|walk: Result<WalkView, IndexedReaderError>| #[trigger]
            leaves_pages(
                walk,
                reader.document(),
                reader.index@.trailer,
                limits,
                live_numbers(reader.index@.locations).len(),
            ) && ends_as(derived, walk);
        let r = match derived {
            Ok((page_map, _)) => Ok(page_map),
            Err(error) => Err(error),
        };
        assert(leaves_pages(
            walk,
            reader.document(),
            reader.index@.trailer,
            limits,
            live_numbers(reader.document().locations).len(),
        ));
        r
    }

    /// Derives the page map of a document and says what that took.
    pub fn from_reader_with_limits_and_stats<S: RandomAccessSource, H: SecurityHandler>(
        reader: &IndexedReader<S, H>,
        limits: PageMapLimits,
    ) -> (r: Result<(PageMap, PageMapWork), IndexedReaderError>)
        ensures
            reader.source.reliable() ==> ends_as(
                r,
                pages_walk(
                    reader.document(),
                    reader.index@.trailer,
                    limits,
                    live_numbers(reader.index@.locations).len(),
                ),
            ),
            exists|walk: Result<WalkView, IndexedReaderError>| #[trigger]
                leaves_pages(
                    walk,
                    reader.document(),
                    reader.index@.trailer,
                    limits,
                    live_numbers(reader.index@.locations).len(),
                ) && ends_as(r, walk),
    {
        let budget: usize = reader.index.locations.live();
        PageMap::from_reader_with_work_budget_and_stats(reader, limits, budget)
    }

    /// Derives the page map of a document, visiting at most `work_budget` slots,
    /// and says what that took.
    pub fn from_reader_with_work_budget_and_stats<S: RandomAccessSource, H: SecurityHandler>(
        reader: &IndexedReader<S, H>,
        limits: PageMapLimits,
        work_budget: usize,
    ) -> (r: Result<(PageMap, PageMapWork), IndexedReaderError>)
        ensures
            reader.source.reliable() ==> ends_as(
                r,
                pages_walk(reader.document(), reader.index@.trailer, limits, work_budget as nat),
            ),
            exists|walk: Result<WalkView, IndexedReaderError>| #[trigger]
                leaves_pages(walk, reader.document(), reader.index@.trailer, limits, work_budget as nat) && ends_as(
                    r,
                    walk,
                ),
    {
        let ghost d = reader.document();
        let ghost trailer = reader.index@.trailer;
        let nothing = (
            PageMap { pages: Vec::new() },
            PageMapWork { consumed: 0, peak_pending_items: 0, peak_pending_bytes: 0 },
        );
        let ghost none = Ok::<WalkView, IndexedReaderError>(empty_walk(work_budget as nat));
        assert(nothing.0@ =~= Seq::<PageMapEntry>::empty());
        let root: ObjectId = match reader.index.trailer.get(&KEY_ROOT) {
            Some(Object::Reference(id)) => *id,
            _ => {
                assert(leaves_pages(none, d, trailer, limits, work_budget as nat));
                return Ok(nothing);
            },
        };
        let found = reader.resolve_dictionary_deref(root);
        let ghost node = dictionary_result(found);
        assert(leaves_dictionary(node, d, root));
        let catalog = match found {
            Err(error) => {
                assert(leaves_pages(Err(error), d, trailer, limits, work_budget as nat));
                return Err(error);
            },
            Ok(None) => {
                assert(leaves_pages(none, d, trailer, limits, work_budget as nat));
                return Ok(nothing);
            },
            Ok(Some(catalog)) => catalog,
        };
        let pages: ObjectId = match catalog.get(&NAME_PAGES) {
            Some(Object::Reference(id)) => *id,
            _ => {
                assert(leaves_pages(none, d, trailer, limits, work_budget as nat));
                return Ok(nothing);
            },
        };
        let mut walk = PageWalk {
            pending: VecDeque::new(),
            pages: Vec::new(),
            remaining: work_budget,
            consumed: 0,
            peak: 0,
        };
        assert(walk@.pending =~= Seq::<SlotView>::empty());
        assert(walk@.pages =~= Seq::<PageMapEntry>::empty());
        let walked_to = walk.walk_page_tree(reader, limits, pages);
        let ghost end = match walked_to {
            Ok(()) => Ok(walk@),
            Err(error) => Err(error),
        };
        assert(leaves_pages(end, d, trailer, limits, work_budget as nat));
        match walked_to {
            Ok(()) => Ok(
                (
                    PageMap { pages: walk.pages },
                    PageMapWork {
                        consumed: walk.consumed,
                        peak_pending_items: walk.peak,
                        peak_pending_bytes: pending_bytes(walk.peak),
                    },
                ),
            ),
            Err(error) => Err(error),
        }
    }
}

/// What is left of one step, and of the walk from there, is left of the walk.
proof fn lemma_leaves_step(
    d: DocumentView,
    limits: PageMapLimits,
    walk: WalkView,
    next: Result<WalkView, IndexedReaderError>,
)
    requires
        walk.pending.len() > 0,
        walk.remaining > 0,
        leaves_visit(next, d, limits, taken(walk), walk.pending[0]),
        next matches Ok(next) ==> next.remaining < walk.remaining,
    ensures
        next is Err ==> leaves_walk(next, d, limits, walk),
        next matches Ok(next) ==> forall|got: Result<WalkView, IndexedReaderError>| #[trigger]
            leaves_walk(got, d, limits, next) ==> leaves_walk(got, d, limits, walk),
{
}

/// What a walk has found and what it still has to visit.
struct PageWalk {
    pending: VecDeque<PendingKid>,
    pages: Vec<PageMapEntry>,
    remaining: usize,
    consumed: usize,
    peak: usize,
}

impl PageWalk {
    spec fn view(&self) -> WalkView {
        WalkView {
            pending: slots_view(self.pending@),
            pages: self.pages@,
            remaining: self.remaining as nat,
            consumed: self.consumed as nat,
            peak: self.peak as nat,
        }
    }

    /// The slots that wait and those that have been visited are paid for.
    spec fn paid(&self) -> bool {
        self.pending@.len() <= self.remaining && self.remaining + self.consumed <= usize::MAX
    }

    fn walk_page_tree<S: RandomAccessSource, H: SecurityHandler>(
        &mut self,
        reader: &IndexedReader<S, H>,
        limits: PageMapLimits,
        root: ObjectId,
    ) -> (r: Result<(), IndexedReaderError>)
        requires
            old(self)@ == empty_walk(old(self).remaining as nat),
        ensures
            reader.source.reliable() ==> match tree_walk(
                reader.document(),
                limits,
                old(self).remaining as nat,
                root,
            ) {
                Ok(walk) => r is Ok && final(self)@ == walk,
                Err(error) => r == Err::<(), IndexedReaderError>(error),
            },
            leaves_tree(
                match r {
                    Ok(()) => Ok(final(self)@),
                    Err(error) => Err(error),
                },
                reader.document(),
                limits,
                old(self).remaining as nat,
                root,
            ),
    {
        let ghost d = reader.document();
        let ghost expected = tree_walk(d, limits, self.remaining as nat, root);
        let found = reader.resolve_dictionary_deref(root);
        let ghost node = dictionary_result(found);
        assert(leaves_dictionary(node, d, root));
        let dictionary = match found {
            Err(error) => {
                return Err(error);
            },
            Ok(None) => {
                return Ok(());
            },
            Ok(Some(dictionary)) => dictionary,
        };
        let inherited = InheritedPageAttributeOwners::default().updated(root, &dictionary);
        let named = reader.resolve_kids(&dictionary);
        let ghost children = array_result(named);
        assert(leaves_array(children, d, dict_get(dictionary@, KEY_KIDS@)));
        let kids = match named {
            Err(error) => {
                return Err(error);
            },
            Ok(None) => {
                return Ok(());
            },
            Ok(Some(kids)) => kids,
        };
        self.prepend_kids(kids, Rc::new(inherited), 1);
        self.walk_on(reader, limits)
    }

    /// Visits the slots that wait, and those that come in front of them, until none
    /// is left.
    fn walk_on<S: RandomAccessSource, H: SecurityHandler>(
        &mut self,
        reader: &IndexedReader<S, H>,
        limits: PageMapLimits,
    ) -> (r: Result<(), IndexedReaderError>)
        requires
            old(self).paid(),
        ensures
            reader.source.reliable() ==> match walked(reader.document(), limits, old(self)@) {
                Ok(walk) => r is Ok && final(self)@ == walk,
                Err(error) => r == Err::<(), IndexedReaderError>(error),
            },
            leaves_walk(
                match r {
                    Ok(()) => Ok(final(self)@),
                    Err(error) => Err(error),
                },
                reader.document(),
                limits,
                old(self)@,
            ),
    {
        let ghost d = reader.document();
        let ghost start = self@;
        let ghost expected = walked(d, limits, start);
        loop
            invariant
                d == reader.document(),
                start == old(self)@,
                forall|got: Result<WalkView, IndexedReaderError>| #[trigger]
                    leaves_walk(got, d, limits, self@) ==> leaves_walk(got, d, limits, start),
                expected == walked(d, limits, start),
                self.paid(),
                reader.source.reliable() ==> expected == walked(d, limits, self@),
            ensures
                reader.source.reliable() ==> expected == Ok::<WalkView, IndexedReaderError>(self@),
                leaves_walk(Ok(self@), d, limits, start),
            decreases self.remaining,
        {
            let ghost before = self@;
            let kid: PendingKid = match self.pending.pop_front() {
                Some(kid) => kid,
                None => {
                    assert(leaves_walk(Ok(self@), d, limits, self@));
                    break;
                },
            };
            self.remaining -= 1;
            self.consumed += 1;
            assert(before.pending[0] == kid@);
            assert(self@.pending =~= before.pending.skip(1));
            assert(self@ == taken(before));
            let outcome = self.visit(reader, limits, kid);
            proof {
                let next = match outcome {
                    Ok(()) => Ok(self@),
                    Err(error) => Err(error),
                };
                lemma_leaves_step(d, limits, before, next);
            }
            match outcome {
                Ok(()) => {
                    assert forall|got: Result<WalkView, IndexedReaderError>| #[trigger]
                        leaves_walk(got, d, limits, self@) implies leaves_walk(got, d, limits, start) by {
                        assert(leaves_walk(got, d, limits, before));
                    }
                },
                Err(error) => {
                    assert(leaves_walk(Err(error), d, limits, before));
                    return Err(error);
                },
            }
        }
        Ok(())
    }

    /// Visits one slot.
    fn visit<S: RandomAccessSource, H: SecurityHandler>(
        &mut self,
        reader: &IndexedReader<S, H>,
        limits: PageMapLimits,
        kid: PendingKid,
    ) -> (r: Result<(), IndexedReaderError>)
        requires
            old(self).paid(),
        ensures
            final(self).paid(),
            final(self).remaining == old(self).remaining,
            reader.source.reliable() ==> match visited(reader.document(), limits, old(self)@, kid@) {
                Ok(walk) => r is Ok && final(self)@ == walk,
                Err(error) => r == Err::<(), IndexedReaderError>(error),
            },
            leaves_visit(
                match r {
                    Ok(()) => Ok(final(self)@),
                    Err(error) => Err(error),
                },
                reader.document(),
                limits,
                old(self)@,
                kid@,
            ),
    {
        let id: ObjectId = match kid.id {
            Some(id) => id,
            None => {
                return Ok(());
            },
        };
        // A tree that is nested too deep is refused: a shorter page map would
        // look like that of another document.
        if kid.depth as u64 > limits.max_depth as u64 {
            return Err(IndexedReaderError::PageTreeDepthLimitExceeded { limit: limits.max_depth });
        }
        let ghost d = reader.document();
        let found = reader.resolve_dictionary_deref(id);
        let ghost node = dictionary_result(found);
        assert(leaves_dictionary(node, d, id));
        let dictionary = match found {
            Err(error) => {
                return Err(error);
            },
            Ok(None) => {
                return Ok(());
            },
            Ok(Some(dictionary)) => dictionary,
        };
        let inherited = (*kid.inherited).updated(id, &dictionary);
        if dictionary.has_type(&NAME_PAGE) {
            if self.pages.len() >= limits.max_pages {
                return Err(IndexedReaderError::PageCountLimitExceeded { limit: limits.max_pages });
            }
            self.pages.push(PageMapEntry { id, inherited });
        } else if dictionary.has_type(&NAME_PAGES) {
            let named = reader.resolve_kids(&dictionary);
            let ghost children = array_result(named);
            assert(leaves_array(children, d, dict_get(dictionary@, KEY_KIDS@)));
            match named {
                Err(error) => {
                    return Err(error);
                },
                Ok(None) => {},
                Ok(Some(kids)) => {
                    self.prepend_kids(
                        kids,
                        Rc::new(inherited),
                        if kid.depth == u32::MAX {
                            kid.depth
                        } else {
                            kid.depth + 1
                        },
                    );
                },
            }
        }
        Ok(())
    }

    /// Puts children in front of what waits. Slots that can never be visited are
    /// dropped before, so that no more are kept than can.
    fn prepend_kids(&mut self, kids: Vec<Object>, inherited: Rc<InheritedPageAttributeOwners>, depth: u32)
        requires
            old(self).paid(),
        ensures
            final(self).paid(),
            final(self).remaining == old(self).remaining,
            final(self)@ == old(self)@.prepend(array_view(kids@), *inherited, depth),
    {
        let kept: usize = if kids.len() < self.remaining {
            kids.len()
        } else {
            self.remaining
        };
        let ghost shown = array_view(kids@).take(kept as int);
        let ghost slots = kid_slots(shown, *inherited, depth);
        self.pending.truncate(self.remaining - kept);
        let ghost rest = slots_view(self.pending@);
        assert(rest =~= old(self)@.pending.take(
            lesser(old(self)@.pending.len() as int, old(self)@.remaining - kept),
        ));
        let mut index: usize = kept;
        assert(slots_view(self.pending@) =~= slots.skip(kept as int) + rest);
        while index > 0
            invariant
                index <= kept <= kids@.len(),
                shown == array_view(kids@).take(kept as int),
                slots == kid_slots(shown, *inherited, depth),
                slots_view(self.pending@) == slots.skip(index as int) + rest,
                self.pages@ == old(self).pages@,
                self.remaining == old(self).remaining,
                self.consumed == old(self).consumed,
                self.peak == old(self).peak,
            decreases index,
        {
            index -= 1;
            let slot = PendingKid { id: kids[index].as_reference(), inherited: Rc::clone(&inherited), depth };
            let ghost before = self.pending@;
            self.pending.push_front(slot);
            proof {
                assert(shown[index as int] == kids@[index as int]@);
                assert(slots[index as int] == slot@);
                assert(slots_view(self.pending@) =~= seq![slot@] + slots_view(before));
                assert(slots_view(self.pending@) =~= slots.skip(index as int) + rest);
            }
        }
        assert(slots.skip(0) =~= slots);
        let waiting: usize = self.pending.len();
        if waiting > self.peak {
            self.peak = waiting;
        }
    }
}

} // verus!
