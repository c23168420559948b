//! The order of a document's pages, and where their attributes come from.

use vstd::prelude::*;

use crate::errors::IndexedReaderError;
use crate::object::{dict_get, dict_has_type, DictionaryView, ObjectId, ObjectView, KEY_TYPE};
use crate::options::PAGE_TREE_DEREFERENCE_LIMIT;
use crate::page_map::{
    deeper, empty_walk, kid_slots, lesser, no_owners, owner_below, owners_below, pages_walk, taken, tree_array,
    tree_dictionary, tree_value, visited, walked, InheritedPageAttributeOwners, PageMapEntry, PageMapLimits, SlotView,
    WalkView, KEY_CROP_BOX, KEY_KIDS, KEY_MEDIA_BOX, KEY_RESOURCES, KEY_ROTATE, NAME_PAGE, NAME_PAGES,
};
use crate::recovery::KEY_ROOT;
use crate::resolve::{object_of, DocumentView};

verus! {

/// The bytes of `Resources`.
pub open spec fn resources_word() -> Seq<u8> {
    seq![0x52, 0x65, 0x73, 0x6f, 0x75, 0x72, 0x63, 0x65, 0x73]
}

/// The bytes of `MediaBox`.
pub open spec fn media_box_word() -> Seq<u8> {
    seq![0x4d, 0x65, 0x64, 0x69, 0x61, 0x42, 0x6f, 0x78]
}

/// The bytes of `CropBox`.
pub open spec fn crop_box_word() -> Seq<u8> {
    seq![0x43, 0x72, 0x6f, 0x70, 0x42, 0x6f, 0x78]
}

/// The bytes of `Rotate`.
pub open spec fn rotate_word() -> Seq<u8> {
    seq![0x52, 0x6f, 0x74, 0x61, 0x74, 0x65]
}

/// The bytes of `Kids`.
pub open spec fn kids_word() -> Seq<u8> {
    seq![0x4b, 0x69, 0x64, 0x73]
}

/// The bytes of `Type`.
pub open spec fn type_word() -> Seq<u8> {
    seq![0x54, 0x79, 0x70, 0x65]
}

/// The bytes of `Page`.
pub open spec fn page_word() -> Seq<u8> {
    seq![0x50, 0x61, 0x67, 0x65]
}

/// The bytes of `Pages`.
pub open spec fn pages_word() -> Seq<u8> {
    seq![0x50, 0x61, 0x67, 0x65, 0x73]
}

/// The bytes of `Root`.
pub open spec fn root_word() -> Seq<u8> {
    seq![0x52, 0x6f, 0x6f, 0x74]
}

proof fn lemma_words()
    ensures
        KEY_RESOURCES@ == resources_word(),
        KEY_MEDIA_BOX@ == media_box_word(),
        KEY_CROP_BOX@ == crop_box_word(),
        KEY_ROTATE@ == rotate_word(),
        KEY_KIDS@ == kids_word(),
        KEY_TYPE@ == type_word(),
        NAME_PAGE@ == page_word(),
        NAME_PAGES@ == pages_word(),
        KEY_ROOT@ == root_word(),
        page_word() != pages_word(),
{
    assert(KEY_RESOURCES@ =~= resources_word());
    assert(KEY_MEDIA_BOX@ =~= media_box_word());
    assert(KEY_CROP_BOX@ =~= crop_box_word());
    assert(KEY_ROTATE@ =~= rotate_word());
    assert(KEY_KIDS@ =~= kids_word());
    assert(KEY_TYPE@ =~= type_word());
    assert(NAME_PAGE@ =~= page_word());
    assert(NAME_PAGES@ =~= pages_word());
    assert(KEY_ROOT@ =~= root_word());
    assert(page_word().len() == 4 && pages_word().len() == 5);
}

/// The node has an entry for the key.
pub open spec fn has_entry(d: DocumentView, node: ObjectId, key: Seq<u8>) -> bool {
    tree_dictionary(d, node) matches Ok(Some(dictionary)) && dict_get(dictionary, key) is Some
}

/// The node nearest to the end of the path that has an entry for the key is this one;
/// where no node has one, there is none.
pub open spec fn nearest(d: DocumentView, path: Seq<ObjectId>, key: Seq<u8>, owner: Option<ObjectId>) -> bool {
    match owner {
        Some(owner) => exists|at: int|
            0 <= at < path.len() && #[trigger] path[at] == owner && has_entry(d, owner, key) && forall|below: int|
                at < below < path.len() ==> !has_entry(d, #[trigger] path[below], key),
        None => forall|at: int| 0 <= at < path.len() ==> !has_entry(d, #[trigger] path[at], key),
    }
}

/// Each attribute of a page belongs to the nearest node that has it, on the path from
/// the root of the tree to the page.
pub open spec fn nearest_owners(d: DocumentView, path: Seq<ObjectId>, owners: InheritedPageAttributeOwners) -> bool {
    &&& nearest(d, path, resources_word(), owners.resources)
    &&& nearest(d, path, media_box_word(), owners.media_box)
    &&& nearest(d, path, crop_box_word(), owners.crop_box)
    &&& nearest(d, path, rotate_word(), owners.rotate)
}

/// The node has this type.
pub open spec fn typed(dictionary: DictionaryView, name: Seq<u8>) -> bool {
    dict_get(dictionary, type_word()) == Some(ObjectView::Name(name))
}

/// The paths to the pages at or below the last node of `path`, from left to right. No
/// more than `fuel` levels are followed.
pub open spec fn page_paths(d: DocumentView, path: Seq<ObjectId>, fuel: nat) -> Seq<Seq<ObjectId>>
    decreases fuel, 0int,
{
    match tree_dictionary(d, path.last()) {
        Ok(Some(dictionary)) => if typed(dictionary, page_word()) {
            seq![path]
        } else if typed(dictionary, pages_word()) && fuel > 0 {
            match tree_array(d, dict_get(dictionary, kids_word())) {
                Ok(Some(kids)) => kid_paths(d, path, kids, (fuel - 1) as nat),
                _ => Seq::empty(),
            }
        } else {
            Seq::empty()
        },
        _ => Seq::empty(),
    }
}

/// The paths to the pages at or below the children of a node: first those of the first
/// child, then those of the second, and so on.
pub open spec fn kid_paths(d: DocumentView, path: Seq<ObjectId>, kids: Seq<ObjectView>, fuel: nat) -> Seq<Seq<ObjectId>>
    decreases fuel, 1int, kids.len(),
{
    if kids.len() == 0 {
        Seq::empty()
    } else {
        (match kids[0] {
            ObjectView::Reference(id) => page_paths(d, path.push(id), fuel),
            _ => Seq::empty(),
        }) + kid_paths(d, path, kids.skip(1), fuel)
    }
}

/// The entries are those of the pages at the ends of the paths.
pub open spec fn entries_of(d: DocumentView, paths: Seq<Seq<ObjectId>>, pages: Seq<PageMapEntry>) -> bool {
    paths.len() == pages.len() && forall|i: int|
        0 <= i < pages.len() ==> paths[i].last() == (#[trigger] pages[i]).id && nearest_owners(
            d,
            paths[i],
            pages[i].inherited,
        )
}

/// A waiting slot with the path to its parent and the levels that may be followed.
pub struct Waiting {
    pub path: Seq<ObjectId>,
    pub fuel: nat,
}

/// The paths to the pages that the waiting slots lead to.
spec fn waiting_paths(d: DocumentView, pending: Seq<SlotView>, waiting: Seq<Waiting>) -> Seq<Seq<ObjectId>>
    decreases pending.len(),
{
    if pending.len() == 0 {
        Seq::empty()
    } else {
        (match pending[0].id {
            Some(id) => page_paths(d, waiting[0].path.push(id), waiting[0].fuel),
            None => Seq::empty(),
        }) + waiting_paths(d, pending.skip(1), waiting.skip(1))
    }
}

spec fn waiting_fits(d: DocumentView, pending: Seq<SlotView>, waiting: Seq<Waiting>, remaining: nat) -> bool {
    &&& waiting.len() == pending.len()
    &&& forall|i: int|
        0 <= i < pending.len() ==> nearest_owners(d, waiting[i].path, (#[trigger] pending[i]).inherited)
            && waiting[i].fuel >= remaining
}

proof fn lemma_waiting_append(
    d: DocumentView,
    first: Seq<SlotView>,
    first_waiting: Seq<Waiting>,
    rest: Seq<SlotView>,
    rest_waiting: Seq<Waiting>,
)
    requires
        first.len() == first_waiting.len(),
        rest.len() == rest_waiting.len(),
    ensures
        waiting_paths(d, first + rest, first_waiting + rest_waiting) == waiting_paths(d, first, first_waiting)
            + waiting_paths(d, rest, rest_waiting),
    decreases first.len(),
{
    if first.len() == 0 {
        assert(first + rest =~= rest);
        assert(first_waiting + rest_waiting =~= rest_waiting);
        assert(waiting_paths(d, first + rest, first_waiting + rest_waiting) =~= waiting_paths(d, first, first_waiting)
            + waiting_paths(d, rest, rest_waiting));
    } else {
        lemma_waiting_append(d, first.skip(1), first_waiting.skip(1), rest, rest_waiting);
        assert((first + rest).skip(1) =~= first.skip(1) + rest);
        assert((first_waiting + rest_waiting).skip(1) =~= first_waiting.skip(1) + rest_waiting);
        assert(waiting_paths(d, first + rest, first_waiting + rest_waiting) =~= waiting_paths(d, first, first_waiting)
            + waiting_paths(d, rest, rest_waiting));
    }
}

spec fn kids_waiting(path: Seq<ObjectId>, count: nat, fuel: nat) -> Seq<Waiting> {
    Seq::new(count, |i: int| Waiting { path, fuel })
}

proof fn lemma_kids_wait(
    d: DocumentView,
    path: Seq<ObjectId>,
    kids: Seq<ObjectView>,
    inherited: InheritedPageAttributeOwners,
    depth: u32,
    fuel: nat,
)
    ensures
        waiting_paths(d, kid_slots(kids, inherited, depth), kids_waiting(path, kids.len(), fuel)) == kid_paths(
            d,
            path,
            kids,
            fuel,
        ),
    decreases kids.len(),
{
    if kids.len() > 0 {
        lemma_kids_wait(d, path, kids.skip(1), inherited, depth, fuel);
        assert(kid_slots(kids, inherited, depth).skip(1) =~= kid_slots(kids.skip(1), inherited, depth));
        assert(kids_waiting(path, kids.len(), fuel).skip(1) =~= kids_waiting(path, kids.skip(1).len(), fuel));
    }
}

/// The nearest owner below one more node.
proof fn lemma_nearest_below(
    d: DocumentView,
    path: Seq<ObjectId>,
    key: Seq<u8>,
    above: Option<ObjectId>,
    node: ObjectId,
    dictionary: DictionaryView,
)
    requires
        nearest(d, path, key, above),
        tree_dictionary(d, node) == Ok::<Option<DictionaryView>, IndexedReaderError>(Some(dictionary)),
    ensures
        nearest(d, path.push(node), key, owner_below(above, node, dictionary, key)),
{
    let longer = path.push(node);
    assert(longer[path.len() as int] == node);
    if dict_get(dictionary, key) is None {
        if let Some(owner) = above {
            let at = choose|at: int|
                0 <= at < path.len() && #[trigger] path[at] == owner && has_entry(d, owner, key) && forall|below: int|
                    at < below < path.len() ==> !has_entry(d, #[trigger] path[below], key);
            assert(longer[at] == owner);
            assert forall|below: int| at < below < longer.len() implies !has_entry(d, #[trigger] longer[below], key) by {
                if below < path.len() {
                    assert(longer[below] == path[below]);
                }
            }
        } else {
            assert forall|at: int| 0 <= at < longer.len() implies !has_entry(d, #[trigger] longer[at], key) by {
                if at < path.len() {
                    assert(longer[at] == path[at]);
                }
            }
        }
    }
}

proof fn lemma_owners_below(
    d: DocumentView,
    path: Seq<ObjectId>,
    above: InheritedPageAttributeOwners,
    node: ObjectId,
    dictionary: DictionaryView,
)
    requires
        nearest_owners(d, path, above),
        tree_dictionary(d, node) == Ok::<Option<DictionaryView>, IndexedReaderError>(Some(dictionary)),
    ensures
        nearest_owners(d, path.push(node), owners_below(above, node, dictionary)),
{
    lemma_words();
    lemma_nearest_below(d, path, resources_word(), above.resources, node, dictionary);
    lemma_nearest_below(d, path, media_box_word(), above.media_box, node, dictionary);
    lemma_nearest_below(d, path, crop_box_word(), above.crop_box, node, dictionary);
    lemma_nearest_below(d, path, rotate_word(), above.rotate, node, dictionary);
}

/// A walk that is not cut short by its budget finds the pages that its slots lead to.
proof fn lemma_walk_finds(
    d: DocumentView,
    limits: PageMapLimits,
    walk: WalkView,
    waiting: Seq<Waiting>,
    found: Seq<Seq<ObjectId>>,
    end: WalkView,
)
    requires
        walked(d, limits, walk) == Ok::<WalkView, IndexedReaderError>(end),
        end.remaining > 0,
        waiting_fits(d, walk.pending, waiting, walk.remaining),
        entries_of(d, found, walk.pages),
    ensures
        entries_of(d, found + waiting_paths(d, walk.pending, waiting), end.pages),
    decreases walk.remaining,
{
    lemma_words();
    lemma_walk_only_shrinks(d, limits, walk);
    if walk.pending.len() == 0 {
        assert(found + waiting_paths(d, walk.pending, waiting) =~= found);
    } else {
        let kid = walk.pending[0];
        let rest = taken(walk);
        let next = visited(d, limits, rest, kid)->Ok_0;
        let rest_waiting = waiting.skip(1);
        assert forall|i: int| 0 <= i < rest.pending.len() implies nearest_owners(
            d,
            rest_waiting[i].path,
            (#[trigger] rest.pending[i]).inherited,
        ) && rest_waiting[i].fuel >= rest.remaining by {
            assert(rest.pending[i] == walk.pending[i + 1]);
        }
        assert(waiting_fits(d, rest.pending, rest_waiting, rest.remaining));
        lemma_walk_only_shrinks(d, limits, next);
        let here = match kid.id {
            Some(id) => page_paths(d, waiting[0].path.push(id), waiting[0].fuel),
            None => Seq::empty(),
        };
        let after = waiting_paths(d, rest.pending, rest_waiting);
        assert(waiting_paths(d, walk.pending, waiting) == here + after);
        let path = match kid.id {
            Some(id) => waiting[0].path.push(id),
            None => waiting[0].path,
        };
        if kid.id is Some && tree_dictionary(d, kid.id->Some_0) matches Ok(Some(_)) {
            let id = kid.id->Some_0;
            let dictionary = tree_dictionary(d, id)->Ok_0->Some_0;
            let inherited = owners_below(kid.inherited, id, dictionary);
            assert(nearest_owners(d, waiting[0].path, walk.pending[0].inherited));
            lemma_owners_below(d, waiting[0].path, kid.inherited, id, dictionary);
            assert(path.last() == id);
            if dict_has_type(dictionary, NAME_PAGE@) {
                assert(here == seq![path]);
                let longer = found.push(path);
                assert forall|i: int| 0 <= i < next.pages.len() implies longer[i].last() == (
                #[trigger] next.pages[i]).id && nearest_owners(d, longer[i], next.pages[i].inherited) by {
                    if i < walk.pages.len() {
                        assert(next.pages[i] == walk.pages[i]);
                        assert(longer[i] == found[i]);
                    }
                }
                lemma_walk_finds(d, limits, next, rest_waiting, longer, end);
                assert(longer + after =~= found + (here + after));
            } else if dict_has_type(dictionary, NAME_PAGES@) && tree_array(
                d,
                dict_get(dictionary, KEY_KIDS@),
            ) matches Ok(Some(_)) {
                let kids = tree_array(d, dict_get(dictionary, KEY_KIDS@))->Ok_0->Some_0;
                let fuel = (waiting[0].fuel - 1) as nat;
                let depth = deeper(kid.depth);
                assert(next == rest.prepend(kids, inherited, depth));
                lemma_nothing_dropped(d, limits, rest, kids, inherited, depth, end);
                let slots = kid_slots(kids, inherited, depth);
                let kid_waiting = kids_waiting(path, kids.len(), fuel);
                assert(next.pending == slots + rest.pending);
                let all_waiting = kid_waiting + rest_waiting;
                assert forall|i: int| 0 <= i < next.pending.len() implies nearest_owners(
                    d,
                    all_waiting[i].path,
                    (#[trigger] next.pending[i]).inherited,
                ) && all_waiting[i].fuel >= next.remaining by {
                    if i < slots.len() {
                        assert(next.pending[i] == slots[i]);
                        assert(all_waiting[i] == kid_waiting[i]);
                    } else {
                        assert(next.pending[i] == rest.pending[i - slots.len()]);
                        assert(all_waiting[i] == rest_waiting[i - slots.len()]);
                    }
                }
                lemma_walk_finds(d, limits, next, all_waiting, found, end);
                lemma_waiting_append(d, slots, kid_waiting, rest.pending, rest_waiting);
                lemma_kids_wait(d, path, kids, inherited, depth, fuel);
                assert(here == kid_paths(d, path, kids, fuel));
            } else {
                assert(next == rest);
                assert(here =~= Seq::empty());
                lemma_walk_finds(d, limits, next, rest_waiting, found, end);
                assert(here + after =~= after);
            }
        } else {
            assert(next == rest);
            assert(here =~= Seq::empty());
            lemma_walk_finds(d, limits, next, rest_waiting, found, end);
            assert(here + after =~= after);
        }
    }
}

/// A walk visits no more than its budget.
proof fn lemma_walk_only_shrinks(d: DocumentView, limits: PageMapLimits, walk: WalkView)
    ensures
        walked(d, limits, walk) matches Ok(end) ==> end.remaining <= walk.remaining && (end.remaining > 0
            ==> end.remaining + walk.pending.len() <= walk.remaining),
    decreases walk.remaining,
{
    if walk.pending.len() > 0 && walk.remaining > 0 {
        if let Ok(next) = visited(d, limits, taken(walk), walk.pending[0]) {
            assert(next.remaining == walk.remaining - 1);
            lemma_walk_only_shrinks(d, limits, next);
            lemma_pending_grows(d, limits, walk, next);
        }
    }
}

proof fn lemma_pending_grows(d: DocumentView, limits: PageMapLimits, walk: WalkView, next: WalkView)
    requires
        walk.pending.len() > 0,
        walk.remaining > 0,
        visited(d, limits, taken(walk), walk.pending[0]) == Ok::<WalkView, IndexedReaderError>(next),
    ensures
        next.pending.len() >= walk.pending.len() - 1 || next.pending.len() >= next.remaining,
{
}

/// Where a walk ends with budget left, no slot was dropped on the way.
proof fn lemma_nothing_dropped(
    d: DocumentView,
    limits: PageMapLimits,
    rest: WalkView,
    kids: Seq<ObjectView>,
    inherited: InheritedPageAttributeOwners,
    depth: u32,
    end: WalkView,
)
    requires
        walked(d, limits, rest.prepend(kids, inherited, depth)) == Ok::<WalkView, IndexedReaderError>(end),
        end.remaining > 0,
    ensures
        rest.prepend(kids, inherited, depth).pending == kid_slots(kids, inherited, depth) + rest.pending,
{
    let next = rest.prepend(kids, inherited, depth);
    lemma_walk_only_shrinks(d, limits, next);
    assert(next.pending.len() < next.remaining);
    let kept = kids.take(lesser(kids.len() as int, rest.remaining as int));
    assert(kept =~= kids);
    assert(next.pending =~= kid_slots(kids, inherited, depth) + rest.pending);
}

/// The node that the catalog names as the root of its page tree, with its children.
pub open spec fn page_tree(d: DocumentView, trailer: DictionaryView, root: ObjectId, kids: Seq<ObjectView>) -> bool {
    dict_get(trailer, root_word()) matches Some(ObjectView::Reference(catalog_id)) && tree_dictionary(
        d,
        catalog_id,
    ) matches Ok(Some(catalog)) && dict_get(catalog, pages_word()) == Some(ObjectView::Reference(root)) && (
    tree_dictionary(d, root) matches Ok(Some(node)) && tree_array(d, dict_get(node, kids_word())) == Ok::<
        Option<Seq<ObjectView>>,
        IndexedReaderError,
    >(Some(kids)))
}

/// A page map lists the pages of the tree from left to right, and of each of the four
/// attributes of a page it names the nearest node that has it, on the path from the
/// root of the tree down to the page: the page itself where it has the attribute, else
/// the first above it that does, and none where no node on the path does. This holds of
/// every walk that its budget does not cut short.
pub proof fn law_pages_are_in_order_with_their_nearest_owners(
    d: DocumentView,
    trailer: DictionaryView,
    limits: PageMapLimits,
    budget: nat,
    root: ObjectId,
    kids: Seq<ObjectView>,
)
    requires
        page_tree(d, trailer, root, kids),
    ensures
        pages_walk(d, trailer, limits, budget) matches Ok(walk) ==> walk.remaining > 0 ==> entries_of(
            d,
            kid_paths(d, seq![root], kids, budget),
            walk.pages,
        ),
{
    lemma_words();
    if let Ok(end) = pages_walk(d, trailer, limits, budget) {
        if end.remaining > 0 {
            let dictionary = tree_dictionary(d, root)->Ok_0->Some_0;
            let inherited = owners_below(no_owners(), root, dictionary);
            let start = empty_walk(budget).prepend(kids, inherited, 1);
            let none: Seq<ObjectId> = Seq::empty();
            assert(nearest_owners(d, none, no_owners()));
            lemma_owners_below(d, none, no_owners(), root, dictionary);
            assert(none.push(root) =~= seq![root]);
            lemma_nothing_dropped(d, limits, empty_walk(budget), kids, inherited, 1, end);
            let slots = kid_slots(kids, inherited, 1);
            assert(start.pending =~= slots);
            let waiting = kids_waiting(seq![root], kids.len(), budget);
            let found: Seq<Seq<ObjectId>> = Seq::empty();
            lemma_walk_finds(d, limits, start, waiting, found, end);
            lemma_kids_wait(d, seq![root], kids, inherited, 1, budget);
            assert(found + kid_paths(d, seq![root], kids, budget) =~= kid_paths(d, seq![root], kids, budget));
        }
    }
}

/// The chain of references leads from the first of these ids over each of the others to
/// the value.
pub open spec fn chain(d: DocumentView, ids: Seq<ObjectId>, value: ObjectView) -> bool {
    &&& ids.len() > 0
    &&& forall|i: int|
        0 <= i < ids.len() - 1 ==> object_of(d, #[trigger] ids[i]) == Ok::<ObjectView, IndexedReaderError>(
            ObjectView::Reference(ids[i + 1]),
        )
    &&& object_of(d, ids.last()) == Ok::<ObjectView, IndexedReaderError>(value)
    &&& value !is Reference
}

/// In the page tree a chain of references that does not come back to itself leads to the
/// value at its end.
pub proof fn law_references_lead_to_their_value(
    d: DocumentView,
    ids: Seq<ObjectId>,
    value: ObjectView,
    seen: Seq<ObjectId>,
)
    requires
        chain(d, ids, value),
        (seen + ids).no_duplicates(),
        seen.len() + ids.len() <= PAGE_TREE_DEREFERENCE_LIMIT,
    ensures
        tree_value(d, ObjectView::Reference(ids[0]), seen) == Ok::<Option<ObjectView>, IndexedReaderError>(Some(value)),
    decreases ids.len(),
{
    reveal_with_fuel(tree_value, 2);
    let all = seen + ids;
    assert(!seen.contains(ids[0])) by {
        if seen.contains(ids[0]) {
            let i = choose|i: int| 0 <= i < seen.len() && seen[i] == ids[0];
            assert(all[i] == all[seen.len() as int]);
        }
    }
    if ids.len() > 1 {
        let rest = ids.skip(1);
        assert(seen.push(ids[0]) + rest =~= all);
        assert(rest.last() == ids.last());
        assert forall|i: int| 0 <= i < rest.len() - 1 implies object_of(d, #[trigger] rest[i]) == Ok::<
            ObjectView,
            IndexedReaderError,
        >(ObjectView::Reference(rest[i + 1])) by {
            assert(object_of(d, ids[i + 1]) == Ok::<ObjectView, IndexedReaderError>(ObjectView::Reference(ids[i + 2])));
        }
        assert(object_of(d, ids[0]) == Ok::<ObjectView, IndexedReaderError>(ObjectView::Reference(ids[1])));
        law_references_lead_to_their_value(d, rest, value, seen.push(ids[0]));
    } else {
        assert(ids.last() == ids[0]);
    }
}

} // verus!
