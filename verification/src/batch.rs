//! Resolving many objects at once.

use std::collections::{BTreeMap, BTreeSet};
use std::sync::Arc;

use vstd::prelude::*;

use crate::errors::{Error, IndexedReaderError};
use crate::locations::{LocationMap, LocationTable, ObjectLocation64};
use crate::object::{Object, ObjectId, ObjectView};
use crate::object_stream::{member_in, members_of, SelectedObjectStream};
use crate::resolve::{
    asks_for_normal, container_limit, declared_length, decode_limit, frame_of, member_object, normal_object,
    normal_object_with, object_of, object_result, plain_object, referenced_length, resolves,
    source_failed, DocumentView, IndexedReader, ResolutionState,
};
use crate::security::SecurityHandler;
use crate::source::RandomAccessSource;

verus! {

/// What a shared resolution gives.
pub type SharedIndexedReaderResult<T> = Result<T, Arc<IndexedReaderError>>;

/// The view of a shared object, or the error.
pub open spec fn shared_result(r: SharedIndexedReaderResult<Arc<Object>>) -> Result<ObjectView, IndexedReaderError> {
    match r {
        Ok(object) => Ok(object@),
        Err(error) => Err(*error),
    }
}

/// The ids without repetition, in the order in which they first occur.
pub open spec fn first_occurrences(ids: Seq<ObjectId>) -> Seq<ObjectId>
    decreases ids.len(),
{
    if ids.len() == 0 {
        Seq::empty()
    } else {
        let before = first_occurrences(ids.drop_last());
        if before.contains(ids.last()) {
            before
        } else {
            before.push(ids.last())
        }
    }
}

/// The ids without repetition are the ids that were asked for, each once.
pub proof fn law_first_occurrences(ids: Seq<ObjectId>)
    ensures
        first_occurrences(ids).no_duplicates(),
        forall|id: ObjectId| #[trigger] first_occurrences(ids).contains(id) <==> ids.contains(id),
        first_occurrences(ids).len() <= ids.len(),
    decreases ids.len(),
{
    if ids.len() > 0 {
        let front = ids.drop_last();
        law_first_occurrences(front);
        let before = first_occurrences(front);
        let after = first_occurrences(ids);
        assert forall|id: ObjectId| #[trigger] after.contains(id) <==> ids.contains(id) by {
            assert(before.contains(id) <==> front.contains(id));
            if ids.contains(id) {
                let i = choose|i: int| 0 <= i < ids.len() && ids[i] == id;
                if i < front.len() {
                    assert(front[i] == id);
                }
            }
            if front.contains(id) {
                let i = choose|i: int| 0 <= i < front.len() && front[i] == id;
                assert(ids[i] == id);
            }
            if before.contains(id) {
                let i = choose|i: int| 0 <= i < before.len() && before[i] == id;
                assert(after[i] == id);
            }
            assert(ids[ids.len() - 1] == ids.last());
            if !before.contains(ids.last()) {
                assert(after[before.len() as int] == ids.last());
            }
            if after.contains(id) && !before.contains(id) {
                let i = choose|i: int| 0 <= i < after.len() && after[i] == id;
                if i < before.len() {
                    assert(before[i] == id);
                }
            }
        }
    }
}

/// What a batch gives for the members of a container that was resolved to `object`.
/// A container that cannot be decoded fails for all its members alike.
pub open spec fn group_member(
    d: DocumentView,
    id: ObjectId,
    container: ObjectId,
    index: u32,
    object: Result<ObjectView, IndexedReaderError>,
) -> Result<ObjectView, IndexedReaderError> {
    match object {
        Ok(ObjectView::Stream(dict, content, _)) => match members_of(dict, content, decode_limit(d.limits)) {
            Err(source) => Err(IndexedReaderError::ObjectStreamBatchSetup { container, source }),
            Ok(_) => member_object(d, id, container, index, object),
        },
        _ => member_object(d, id, container, index, object),
    }
}

/// What a batch gives for a member of an object stream. The container is
/// resolved once for all of them, as deep as it is for a single member.
pub open spec fn grouped_object(d: DocumentView, id: ObjectId, container: u32, index: u32) -> Result<
    ObjectView,
    IndexedReaderError,
> {
    if d.limits.max_length_depth < 2 {
        object_of(d, id)
    } else if id.1 != 0 {
        Err(IndexedReaderError::GenerationMismatch { id, indexed: 0 })
    } else {
        group_member(
            d,
            id,
            (container, 0),
            index,
            normal_object(d, (container, 0), seq![(container, 0)], 2),
        )
    }
}

/// What a source that may fail leaves of a member of an object stream: the
/// source's failure, or the member if the container's stream has some length.
pub open spec fn leaves_member(
    got: Result<ObjectView, IndexedReaderError>,
    d: DocumentView,
    id: ObjectId,
    container: u32,
    index: u32,
) -> bool {
    if d.limits.max_length_depth < 2 {
        resolves(got, d, id)
    } else if id.1 != 0 {
        got == Err::<ObjectView, IndexedReaderError>(IndexedReaderError::GenerationMismatch { id, indexed: 0 })
    } else {
        (source_failed(got) && asks_for_normal(d, (container, 0))) || exists|length: Option<i64>|
            got == group_member(
                d,
                id,
                (container, 0),
                index,
                #[trigger] normal_object_with(d, (container, 0), length),
            )
    }
}

/// What a source that may fail leaves of a batch's answer for an id.
pub open spec fn leaves_object(got: Result<ObjectView, IndexedReaderError>, d: DocumentView, id: ObjectId) -> bool {
    if d.locations.contains_key(id.0) {
        match d.locations[id.0] {
            ObjectLocation64::Compressed { container, index } => leaves_member(got, d, id, container, index),
            _ => resolves(got, d, id),
        }
    } else {
        resolves(got, d, id)
    }
}

/// What a batch gives for an id.
pub open spec fn batch_object(d: DocumentView, id: ObjectId) -> Result<ObjectView, IndexedReaderError> {
    if d.locations.contains_key(id.0) {
        match d.locations[id.0] {
            ObjectLocation64::Compressed { container, index } => grouped_object(d, id, container, index),
            _ => object_of(d, id),
        }
    } else {
        object_of(d, id)
    }
}

/// The number is that of a normal object.
pub open spec fn normal_number(locations: LocationMap, number: u32) -> bool {
    locations.contains_key(number) && locations[number] is Normal
}

/// The same normal objects are active.
pub open spec fn same_normals(locations: LocationMap, left: Seq<ObjectId>, right: Seq<ObjectId>) -> bool {
    forall|id: ObjectId| normal_number(locations, id.0) ==> (#[trigger] left.contains(id) <==> right.contains(id))
}

proof fn lemma_push_same_normals(locations: LocationMap, left: Seq<ObjectId>, right: Seq<ObjectId>, added: ObjectId)
    requires
        same_normals(locations, left, right),
    ensures
        same_normals(locations, left.push(added), right.push(added)),
{
    assert forall|id: ObjectId| normal_number(locations, id.0) implies (#[trigger] left.push(added).contains(id)
        <==> right.push(added).contains(id)) by {
        lemma_push_contains(left, added, id);
        lemma_push_contains(right, added, id);
        assert(left.contains(id) <==> right.contains(id));
    }
}

pub(crate) proof fn lemma_push_contains(ids: Seq<ObjectId>, added: ObjectId, id: ObjectId)
    ensures
        ids.push(added).contains(id) <==> ids.contains(id) || id == added,
{
    if ids.contains(id) {
        let i = choose|i: int| 0 <= i < ids.len() && ids[i] == id;
        assert(ids.push(added)[i] == id);
    }
    if id == added {
        assert(ids.push(added)[ids.len() as int] == id);
    }
    if ids.push(added).contains(id) && id != added {
        let i = choose|i: int| 0 <= i < ids.push(added).len() && ids.push(added)[i] == id;
        assert(ids[i] == id);
    }
}

/// Which objects other than normal ones are active has no say in what a normal
/// object resolves to.
proof fn lemma_only_normals_matter(
    d: DocumentView,
    id: ObjectId,
    left: Seq<ObjectId>,
    right: Seq<ObjectId>,
    depth: nat,
)
    requires
        same_normals(d.locations, left, right),
    ensures
        normal_object(d, id, left, depth) == normal_object(d, id, right, depth),
    decreases d.limits.max_length_depth - depth, 2int,
{
    if let Ok((_, parsed)) = frame_of(d, id) {
        lemma_only_normals_matter_for_length(d, parsed.object, left, right, depth);
    }
    assert(plain_object(d, id, left, depth) == plain_object(d, id, right, depth));
}

proof fn lemma_only_normals_matter_for_length(
    d: DocumentView,
    object: ObjectView,
    left: Seq<ObjectId>,
    right: Seq<ObjectId>,
    depth: nat,
)
    requires
        same_normals(d.locations, left, right),
    ensures
        declared_length(d, object, left, depth) == declared_length(d, object, right, depth),
    decreases d.limits.max_length_depth - depth, 1int,
{
    if let ObjectView::Dictionary(dictionary) = object {
        if let Some(ObjectView::Reference(id)) = crate::object::dict_get(dictionary, crate::xref::KEY_LENGTH@) {
            lemma_only_normals_matter_for_reference(d, id, left, right, depth);
        }
    }
}

proof fn lemma_only_normals_matter_for_reference(
    d: DocumentView,
    id: ObjectId,
    left: Seq<ObjectId>,
    right: Seq<ObjectId>,
    depth: nat,
)
    requires
        same_normals(d.locations, left, right),
    ensures
        match (referenced_length(d, id, left, depth), referenced_length(d, id, right, depth)) {
            (Ok(one), Ok(other)) => one == other,
            (Err(_), Err(_)) => true,
            _ => false,
        },
    decreases d.limits.max_length_depth - depth, 0int,
{
    if depth < d.limits.max_length_depth {
        if normal_number(d.locations, id.0) {
            assert(left.contains(id) <==> right.contains(id));
            if !left.contains(id) {
                lemma_push_same_normals(d.locations, left, right, id);
                lemma_only_normals_matter(d, id, left.push(id), right.push(id), depth + 1);
                if let Ok(ObjectView::Reference(next)) = normal_object(d, id, left.push(id), depth + 1) {
                    lemma_only_normals_matter_for_reference(d, next, left.push(id), right.push(id), depth + 1);
                }
            }
        } else {
            assert(frame_of(d, id) is Err);
            assert(plain_object(d, id, left.push(id), depth + 1) is Err);
            assert(plain_object(d, id, right.push(id), depth + 1) is Err);
            assert(normal_object(d, id, left.push(id), depth + 1) is Err);
            assert(normal_object(d, id, right.push(id), depth + 1) is Err);
        }
    }
}

/// The object stream that holds an object of generation zero, and why it cannot
/// be decoded, where that is what a batch finds.
pub open spec fn undecodable(d: DocumentView, id: ObjectId) -> Option<(ObjectId, u32, Error)> {
    if d.locations.contains_key(id.0) && id.1 == 0 && d.limits.max_length_depth >= 2 {
        match d.locations[id.0] {
            ObjectLocation64::Compressed { container, index } => match normal_object(
                d,
                (container, 0),
                seq![(container, 0)],
                2,
            ) {
                Ok(ObjectView::Stream(dict, content, _)) => match members_of(dict, content, decode_limit(d.limits)) {
                    Err(source) => Some(((container, 0), index, source)),
                    Ok(_) => None,
                },
                _ => None,
            },
            _ => None,
        }
    } else {
        None
    }
}

/// The object is said to be a member of itself.
pub open spec fn own_container(d: DocumentView, id: ObjectId) -> bool {
    d.locations.contains_key(id.0) && match d.locations[id.0] {
        ObjectLocation64::Compressed { container, .. } => container == id.0,
        _ => false,
    }
}

/// A container is the same for all its members: which of them is active has no
/// say in it.
pub(crate) proof fn lemma_container_of_member(d: DocumentView, id: ObjectId, container: u32)
    requires
        d.locations.contains_key(id.0),
        d.locations[id.0] is Compressed,
    ensures
        normal_object(d, (container, 0u16), Seq::<ObjectId>::empty().push(id).push((container, 0u16)), 2)
            == normal_object(d, (container, 0u16), seq![(container, 0u16)], 2),
{
    let start = Seq::<ObjectId>::empty();
    let group = seq![(container, 0u16)];
    let single = start.push(id).push((container, 0u16));
    assert forall|other: ObjectId| normal_number(d.locations, other.0) implies (#[trigger] group.contains(other)
        <==> single.contains(other)) by {
        lemma_push_contains(start.push(id), (container, 0u16), other);
        lemma_push_contains(start, id, other);
        assert(group =~= start.push((container, 0u16)));
        lemma_push_contains(start, (container, 0u16), other);
    }
    lemma_only_normals_matter(d, (container, 0u16), group, single, 2);
}

/// A batch gives for an id what resolving it alone gives, with two exceptions.
/// A container that cannot be decoded fails in the container's name, not in the
/// member's; and the failure of an object that is said to be a member of itself
/// may be another one.
pub proof fn law_batch_agrees_with_single_resolution(d: DocumentView, id: ObjectId)
    requires
        !own_container(d, id),
    ensures
        match undecodable(d, id) {
            Some((container, index, source)) => {
                &&& batch_object(d, id) == Err::<ObjectView, IndexedReaderError>(
                    IndexedReaderError::ObjectStreamBatchSetup { container, source },
                )
                &&& object_of(d, id) == Err::<ObjectView, IndexedReaderError>(
                    IndexedReaderError::ObjectStreamMember { id, container, index, source },
                )
            },
            None => batch_object(d, id) == object_of(d, id),
        },
{
    reveal(object_of);
    if d.locations.contains_key(id.0) {
        if let ObjectLocation64::Compressed { container, index } = d.locations[id.0] {
            let start = Seq::<ObjectId>::empty();
            assert(!start.contains(id));
            if d.limits.max_length_depth >= 2 && id.1 == 0 {
                lemma_container_of_member(d, id, container);
                lemma_push_contains(start, id, (container, 0u16));
            }
        }
    }
}

/// A batch gives no value that resolving the id alone does not give.
pub proof fn law_batch_values_are_single_values(d: DocumentView, id: ObjectId)
    ensures
        batch_object(d, id) is Ok ==> object_of(d, id) == batch_object(d, id),
{
    if own_container(d, id) {
        if let ObjectLocation64::Compressed { container, .. } = d.locations[id.0] {
            assert(frame_of(d, (container, 0u16)) is Err);
            assert(plain_object(d, (container, 0u16), seq![(container, 0u16)], 2) is Err);
        }
    } else {
        law_batch_agrees_with_single_resolution(d, id);
    }
}

/// What a batch gives: each id once, in the order in which the ids first occur,
/// with what it gives for that id.
pub open spec fn batch_of(d: DocumentView, ids: Seq<ObjectId>) -> Seq<
    (ObjectId, Result<ObjectView, IndexedReaderError>),
> {
    Seq::new(first_occurrences(ids).len(), |i: int| (first_occurrences(ids)[i], batch_object(d, first_occurrences(ids)[i])))
}

/// Of two ids without repetition, the one that stands first occurs first.
proof fn lemma_first_occurrences_in_order(ids: Seq<ObjectId>, i: int, j: int, place: int)
    requires
        0 <= i < j < first_occurrences(ids).len(),
        0 <= place < ids.len(),
        ids[place] == first_occurrences(ids)[j],
    ensures
        ids.take(place).contains(first_occurrences(ids)[i]),
    decreases ids.len(),
{
    let front = ids.drop_last();
    let before = first_occurrences(front);
    law_first_occurrences(front);
    if place < front.len() {
        assert(front[place] == ids[place]);
        if j == before.len() {
            assert(front.contains(ids.last()));
            assert(before.contains(ids.last()));
        }
        lemma_first_occurrences_in_order(front, i, j, place);
        assert(front.take(place) =~= ids.take(place));
    } else {
        assert(before.contains(before[i]));
        assert(front.contains(before[i]));
        assert(ids.take(place) =~= front);
    }
}

/// A batch gives a value for an id where resolving it alone gives one.
proof fn lemma_batch_gives_values(d: DocumentView, id: ObjectId)
    ensures
        batch_object(d, id) is Ok <==> object_of(d, id) is Ok,
        batch_object(d, id) is Ok ==> batch_object(d, id) == object_of(d, id),
{
    law_batch_values_are_single_values(d, id);
    if own_container(d, id) {
        lemma_own_container_fails(d, id);
    } else {
        law_batch_agrees_with_single_resolution(d, id);
    }
}

/// The batch holds an id with its answer.
pub open spec fn batch_holds(
    batch: Seq<(ObjectId, Result<ObjectView, IndexedReaderError>)>,
    id: ObjectId,
    answer: Result<ObjectView, IndexedReaderError>,
) -> bool {
    batch.contains((id, answer))
}

/// A batch answers every id that was asked for, each once and no others, in the
/// order in which they first occur. It gives a value where resolving the id alone
/// gives one, and then that value. What it gives for an id is the same whatever
/// else is asked for, so that the failure of one leaves the others as they are.
pub proof fn law_batch(d: DocumentView, ids: Seq<ObjectId>, others: Seq<ObjectId>)
    ensures
        forall|i: int, j: int|
            0 <= i < j < batch_of(d, ids).len() ==> (#[trigger] batch_of(d, ids)[i]).0 != (#[trigger] batch_of(
                d,
                ids,
            )[j]).0,
        forall|i: int, j: int, place: int|
            #![trigger batch_of(d, ids)[i], batch_of(d, ids)[j], ids.take(place)]
            0 <= i < j < batch_of(d, ids).len() && 0 <= place < ids.len() && ids[place] == batch_of(d, ids)[j].0
                ==> ids.take(place).contains(batch_of(d, ids)[i].0),
        forall|id: ObjectId| #[trigger] ids.contains(id) ==> batch_holds(batch_of(d, ids), id, batch_object(d, id)),
        forall|id: ObjectId, answer: Result<ObjectView, IndexedReaderError>| #[trigger]
            batch_holds(batch_of(d, ids), id, answer) ==> {
                &&& ids.contains(id)
                &&& answer is Ok <==> object_of(d, id) is Ok
                &&& answer is Ok ==> answer == object_of(d, id)
            },
        forall|id: ObjectId, answer: Result<ObjectView, IndexedReaderError>|
            others.contains(id) && #[trigger] batch_holds(batch_of(d, ids), id, answer) ==> batch_holds(
                batch_of(d, others),
                id,
                answer,
            ),
{
    lemma_batch_holds(d, ids);
    lemma_batch_holds(d, others);
    law_first_occurrences(ids);
    assert forall|i: int, j: int, place: int|
        #![trigger batch_of(d, ids)[i], batch_of(d, ids)[j], ids.take(place)]
        0 <= i < j < batch_of(d, ids).len() && 0 <= place < ids.len() && ids[place] == batch_of(d, ids)[j].0 implies
        ids.take(place).contains(batch_of(d, ids)[i].0) by {
        lemma_first_occurrences_in_order(ids, i, j, place);
    }
    assert forall|id: ObjectId, answer: Result<ObjectView, IndexedReaderError>| #[trigger]
        batch_holds(batch_of(d, ids), id, answer) implies {
        &&& ids.contains(id)
        &&& answer is Ok <==> object_of(d, id) is Ok
        &&& answer is Ok ==> answer == object_of(d, id)
    } by {
        lemma_batch_gives_values(d, id);
    }
}

/// A batch holds the ids that were asked for, each with its own answer.
proof fn lemma_batch_holds(d: DocumentView, ids: Seq<ObjectId>)
    ensures
        forall|id: ObjectId, answer: Result<ObjectView, IndexedReaderError>| #[trigger]
            batch_holds(batch_of(d, ids), id, answer) <==> ids.contains(id) && answer == batch_object(d, id),
{
    let unique = first_occurrences(ids);
    let batch = batch_of(d, ids);
    law_first_occurrences(ids);
    assert forall|id: ObjectId, answer: Result<ObjectView, IndexedReaderError>| #[trigger]
        batch_holds(batch, id, answer) <==> ids.contains(id) && answer == batch_object(d, id) by {
        assert(unique.contains(id) <==> ids.contains(id));
        if batch.contains((id, answer)) {
            let i = choose|i: int| 0 <= i < batch.len() && batch[i] == (id, answer);
            assert(unique[i] == id);
        }
        if unique.contains(id) {
            let i = choose|i: int| 0 <= i < unique.len() && unique[i] == id;
            assert(batch[i] == (id, batch_object(d, id)));
        }
    }
}

/// An object that is said to be a member of itself cannot be resolved.
proof fn lemma_own_container_fails(d: DocumentView, id: ObjectId)
    requires
        own_container(d, id),
    ensures
        object_of(d, id) is Err,
{
    reveal(object_of);
    if let ObjectLocation64::Compressed { container, .. } = d.locations[id.0] {
        assert(frame_of(d, (container, 0u16)) is Err);
    }
}

/// The ids and answers of a batch.
pub open spec fn batch_view(r: Seq<(ObjectId, SharedIndexedReaderResult<Arc<Object>>)>) -> Seq<
    (ObjectId, Result<ObjectView, IndexedReaderError>),
> {
    Seq::new(r.len(), |i: int| (r[i].0, shared_result(r[i].1)))
}

/// One member that a batch asks a container for.
#[derive(Clone, Copy, Debug, PartialEq, Eq)]
pub struct CompressedBatchRequest {
    /// Where the answer goes.
    pub position: usize,
    pub id: ObjectId,
    pub index: u32,
}

/// How a batch is worked off: each id once, normal objects one by one, members
/// of object streams container by container.
pub struct BatchPlan {
    /// The ids without repetition, in the order in which they first occur.
    pub unique: Vec<ObjectId>,
    /// The positions of the ids that are resolved one by one.
    pub single: Vec<usize>,
    pub groups: Vec<BatchGroup>,
}

/// The members that a batch asks one container for.
pub struct BatchGroup {
    pub container: u32,
    pub requests: Vec<CompressedBatchRequest>,
}

/// Some request is for the position.
pub open spec fn requested(requests: Seq<CompressedBatchRequest>, position: usize) -> bool {
    exists|i: int| 0 <= i < requests.len() && (#[trigger] requests[i]).position == position
}

/// Some group has a request for the position.
pub open spec fn grouped(groups: Seq<BatchGroup>, position: usize) -> bool {
    exists|g: int| 0 <= g < groups.len() && requested((#[trigger] groups[g]).requests@, position)
}

/// The request is for the member that the locations give.
pub open spec fn request_fits(
    locations: LocationMap,
    unique: Seq<ObjectId>,
    container: u32,
    request: CompressedBatchRequest,
) -> bool {
    &&& request.position < unique.len()
    &&& request.id == unique[request.position as int]
    &&& locations.contains_key(request.id.0)
    &&& locations[request.id.0] == (ObjectLocation64::Compressed { container, index: request.index })
}

/// Every request of the group is for a member of its container.
pub open spec fn group_fits(locations: LocationMap, unique: Seq<ObjectId>, group: BatchGroup) -> bool {
    forall|i: int|
        0 <= i < group.requests@.len() ==> request_fits(locations, unique, group.container, #[trigger] group.requests@[i])
}

/// The id is not that of a member of an object stream.
pub open spec fn uncompressed(locations: LocationMap, id: ObjectId) -> bool {
    locations.contains_key(id.0) ==> locations[id.0] !is Compressed
}

/// Every position is that of an id that is not a member of an object stream.
pub open spec fn singles_fit(locations: LocationMap, unique: Seq<ObjectId>, single: Seq<usize>) -> bool {
    forall|i: int|
        0 <= i < single.len() ==> #[trigger] single[i] < unique.len() && uncompressed(
            locations,
            unique[single[i] as int],
        )
}

/// Every group is made of members of its container, and no container has two groups.
pub open spec fn groups_fit(locations: LocationMap, unique: Seq<ObjectId>, groups: Seq<BatchGroup>) -> bool {
    &&& forall|g: int| 0 <= g < groups.len() ==> group_fits(locations, unique, #[trigger] groups[g])
    &&& forall|g: int, h: int|
        0 <= g < h < groups.len() ==> (#[trigger] groups[g]).container != (#[trigger] groups[h]).container
}

/// Every position up to `count` is planned.
pub open spec fn covered(single: Seq<usize>, groups: Seq<BatchGroup>, count: int) -> bool {
    forall|position: usize| #![trigger grouped(groups, position)]
        position < count ==> single.contains(position) || grouped(groups, position)
}

/// The positions are in order, and below `count`.
pub open spec fn singles_in_turn(single: Seq<usize>, count: int) -> bool {
    &&& forall|i: int| 0 <= i < single.len() ==> #[trigger] single[i] < count
    &&& forall|i: int, j: int| 0 <= i < j < single.len() ==> #[trigger] single[i] < #[trigger] single[j]
}

/// The requests are in the order of their positions, which are below `count`.
pub open spec fn requests_in_turn(requests: Seq<CompressedBatchRequest>, count: int) -> bool {
    &&& requests.len() > 0
    &&& forall|i: int| 0 <= i < requests.len() ==> (#[trigger] requests[i]).position < count
    &&& forall|i: int, j: int|
        0 <= i < j < requests.len() ==> (#[trigger] requests[i]).position < (#[trigger] requests[j]).position
}

/// The groups are in the order of their first positions.
pub open spec fn groups_in_turn(groups: Seq<BatchGroup>, count: int) -> bool {
    &&& forall|g: int| 0 <= g < groups.len() ==> requests_in_turn((#[trigger] groups[g]).requests@, count)
    &&& forall|g: int, h: int|
        0 <= g < h < groups.len() ==> (#[trigger] groups[g]).requests@[0].position < (
        #[trigger] groups[h]).requests@[0].position
}

impl BatchPlan {
    /// The plan is the one for these ids and locations.
    pub open spec fn fits(self, locations: LocationMap, ids: Seq<ObjectId>) -> bool {
        &&& self.unique@ == first_occurrences(ids)
        &&& singles_fit(locations, self.unique@, self.single@)
        &&& groups_fit(locations, self.unique@, self.groups@)
        &&& covered(self.single@, self.groups@, self.unique@.len() as int)
        &&& singles_in_turn(self.single@, self.unique@.len() as int)
        &&& groups_in_turn(self.groups@, self.unique@.len() as int)
    }

    /// The ids that are not members of an object stream.
    pub open spec fn single_ids(self) -> Seq<ObjectId> {
        Seq::new(self.single@.len(), |i: int| self.unique@[self.single@[i] as int])
    }
}

/// One number for an id.
fn id_key(id: ObjectId) -> (r: u64)
    ensures
        r == id.0 * 65536 + id.1,
{
    id.0 as u64 * 65536 + id.1 as u64
}

/// The ids without repetition, in the order in which they first occur.
pub fn unique_ids(ids: &[ObjectId]) -> (r: Vec<ObjectId>)
    ensures
        r@ == first_occurrences(ids@),
{
    let mut seen: BTreeSet<u64> = BTreeSet::new();
    let mut unique: Vec<ObjectId> = Vec::new();
    let mut index: usize = 0;
    proof {
        broadcast use vstd::std_specs::btree::group_btree_axioms;

        assert(ids@.take(0) =~= Seq::empty());
    }
    while index < ids.len()
        invariant
            index <= ids@.len(),
            unique@ == first_occurrences(ids@.take(index as int)),
            forall|id: ObjectId| unique@.contains(id) <==> #[trigger] seen@.contains((id.0 * 65536 + id.1) as u64),
        decreases ids@.len() - index,
    {
        let id: ObjectId = ids[index];
        let ghost before = unique@;
        let ghost seen_before = seen@;
        let added: bool = seen.insert(id_key(id));
        if added {
            unique.push(id);
        }
        proof {
            broadcast use vstd::std_specs::btree::group_btree_axioms;

            let front = ids@.take(index + 1);
            assert(front.drop_last() =~= ids@.take(index as int));
            assert(front.last() == id);
            assert(added == !before.contains(id)) by {
                assert(seen_before.contains((id.0 * 65536 + id.1) as u64) <==> before.contains(id));
            }
            assert forall|other: ObjectId| unique@.contains(other) <==> #[trigger] seen@.contains(
                (other.0 * 65536 + other.1) as u64,
            ) by {
                if added {
                    lemma_push_contains(before, id, other);
                }
                assert(before.contains(other) <==> seen_before.contains((other.0 * 65536 + other.1) as u64));
                if other.0 * 65536 + other.1 == id.0 * 65536 + id.1 {
                    assert(other.0 == id.0 && other.1 == id.1);
                }
            }
        }
        index += 1;
    }
    assert(ids@.take(ids@.len() as int) =~= ids@);
    unique
}

/// Where each container's group stands.
spec fn group_index(groups: Seq<BatchGroup>, index: Map<u32, usize>) -> bool {
    &&& forall|container: u32|
        #[trigger] index.contains_key(container) ==> index[container] < groups.len()
            && groups[index[container] as int].container == container
    &&& forall|g: int|
        0 <= g < groups.len() ==> index.contains_key((#[trigger] groups[g]).container) && index[groups[g].container]
            == g
}

proof fn lemma_covered_by_single(single: Seq<usize>, groups: Seq<BatchGroup>, position: usize)
    requires
        covered(single, groups, position as int),
    ensures
        covered(single.push(position), groups, position + 1),
{
    let after = single.push(position);
    assert forall|other: usize| #![trigger grouped(groups, other)] other < position + 1 implies after.contains(other)
        || grouped(groups, other) by {
        if single.contains(other) {
            let i = choose|i: int| 0 <= i < single.len() && single[i] == other;
            assert(after[i] == other);
        }
        if other == position {
            assert(after[single.len() as int] == other);
        }
    }
}

proof fn lemma_covered_by_group(
    single: Seq<usize>,
    groups: Seq<BatchGroup>,
    after: Seq<BatchGroup>,
    g: int,
    request: CompressedBatchRequest,
)
    requires
        covered(single, groups, request.position as int),
        0 <= g < after.len(),
        groups.len() <= after.len(),
        forall|h: int| 0 <= h < groups.len() && h != g ==> #[trigger] after[h] == groups[h],
        g < groups.len() ==> after[g].requests@ == groups[g].requests@.push(request),
        g >= groups.len() ==> after[g].requests@ == seq![request],
    ensures
        covered(single, after, request.position + 1),
{
    assert forall|other: usize| #![trigger grouped(after, other)] other < request.position + 1 implies single.contains(
        other,
    ) || grouped(after, other) by {
        if other == request.position {
            let last = after[g].requests@.len() - 1;
            assert(after[g].requests@[last] == request);
            assert(requested(after[g].requests@, other));
        } else if !single.contains(other) {
            assert(grouped(groups, other));
            let h = choose|h: int| 0 <= h < groups.len() && requested((#[trigger] groups[h]).requests@, other);
            let requests = groups[h].requests@;
            let i = choose|i: int| 0 <= i < requests.len() && (#[trigger] requests[i]).position == other;
            if h == g {
                assert(after[g].requests@[i] == requests[i]);
            } else {
                assert(after[h] == groups[h]);
            }
            assert(requested(after[h].requests@, other));
        }
    }
}

/// Plans how a batch is worked off.
pub fn plan_batch(locations: &LocationTable, ids: &[ObjectId]) -> (plan: BatchPlan)
    ensures
        plan.fits(locations@, ids@),
{
    let unique: Vec<ObjectId> = unique_ids(ids);
    let mut single: Vec<usize> = Vec::new();
    let mut groups: Vec<BatchGroup> = Vec::new();
    let mut index: BTreeMap<u32, usize> = BTreeMap::new();
    let mut position: usize = 0;
    while position < unique.len()
        invariant
            position <= unique@.len(),
            singles_fit(locations@, unique@, single@),
            groups_fit(locations@, unique@, groups@),
            group_index(groups@, index@),
            covered(single@, groups@, position as int),
            singles_in_turn(single@, position as int),
            groups_in_turn(groups@, position as int),
        decreases unique@.len() - position,
    {
        let id: ObjectId = unique[position];
        let location: Option<(u32, u32)> = match locations.get(&id.0) {
            Some(ObjectLocation64::Compressed { container, index }) => Some((*container, *index)),
            _ => None,
        };
        match location {
            Some((container, member)) => {
                let request = CompressedBatchRequest { position, id, index: member };
                let ghost before = groups@;
                assert(request_fits(locations@, unique@, container, request));
                let known: Option<usize> = match index.get(&container) {
                    Some(at) => Some(*at),
                    None => None,
                };
                match known {
                    Some(at) => {
                        groups[at].requests.push(request);
                        proof {
                            lemma_covered_by_group(single@, before, groups@, at as int, request);
                        }
                        assert forall|g: int| 0 <= g < groups@.len() implies group_fits(
                            locations@,
                            unique@,
                            #[trigger] groups@[g],
                        ) by {
                            assert(group_fits(locations@, unique@, before[g]));
                        }
                        assert(groups@[at as int].container == before[at as int].container);
                    },
                    None => {
                        let at: usize = groups.len();
                        let mut requests: Vec<CompressedBatchRequest> = Vec::new();
                        requests.push(request);
                        groups.push(BatchGroup { container, requests });
                        index.insert(container, at);
                        assert(groups@[at as int].requests@ =~= seq![request]);
                        proof {
                            lemma_covered_by_group(single@, before, groups@, at as int, request);
                        }
                    },
                }
            },
            None => {
                proof {
                    lemma_covered_by_single(single@, groups@, position);
                }
                single.push(position);
            },
        }
        position += 1;
    }
    BatchPlan { unique, single, groups }
}

/// A container, ready to answer for its members.
pub enum PreparedGroup {
    /// The container fails for all its members.
    Failed(Arc<IndexedReaderError>),
    NotStream,
    Selected(SelectedObjectStream),
}

/// What a container answers for a member.
pub open spec fn answered(group: PreparedGroup, container: ObjectId, id: ObjectId, index: u32) -> Result<
    ObjectView,
    IndexedReaderError,
> {
    match group {
        PreparedGroup::Failed(error) => Err(*error),
        PreparedGroup::NotStream => Err(IndexedReaderError::ObjectStreamContainerNotStream { id, container }),
        PreparedGroup::Selected(selected) => match member_in(selected.content@, selected.first, id, index) {
            Ok(object) => Ok(object),
            Err(source) => Err(IndexedReaderError::ObjectStreamMember { id, container, index, source }),
        },
    }
}

/// The group answers for its members as the container does that was resolved to
/// `object`.
pub open spec fn answers_for(
    group: PreparedGroup,
    d: DocumentView,
    container: ObjectId,
    object: Result<ObjectView, IndexedReaderError>,
) -> bool {
    forall|id: ObjectId, index: u32| #[trigger]
        answered(group, container, id, index) == group_member(d, id, container, index, object)
}

/// What a source that may fail leaves of a group.
pub open spec fn leaves_group(group: PreparedGroup, d: DocumentView, container: ObjectId) -> bool {
    (group matches PreparedGroup::Failed(error) && *error is Source && asks_for_normal(d, container)) || exists|length: Option<i64>|
        answers_for(group, d, container, #[trigger] normal_object_with(d, container, length))
}

/// Answers for one member of a container.
pub fn answer_member(group: &PreparedGroup, container: ObjectId, id: ObjectId, index: u32) -> (r:
    SharedIndexedReaderResult<Arc<Object>>)
    ensures
        shared_result(r) == answered(*group, container, id, index),
{
    match group {
        PreparedGroup::Failed(error) => Err(Arc::clone(error)),
        PreparedGroup::NotStream => Err(
            Arc::new(IndexedReaderError::ObjectStreamContainerNotStream { id, container }),
        ),
        PreparedGroup::Selected(selected) => match selected.parse_member(id, index) {
            Ok(object) => Ok(Arc::new(object)),
            Err(source) => Err(Arc::new(IndexedReaderError::ObjectStreamMember { id, container, index, source })),
        },
    }
}

/// An owned result, shared.
pub(crate) fn share(result: Result<Object, IndexedReaderError>) -> (r: SharedIndexedReaderResult<Arc<Object>>)
    ensures
        shared_result(r) == object_result(result),
{
    match result {
        Ok(object) => Ok(Arc::new(object)),
        Err(error) => Err(Arc::new(error)),
    }
}

/// Another handle on the same result.
pub(crate) fn clone_shared(result: &SharedIndexedReaderResult<Arc<Object>>) -> (r: SharedIndexedReaderResult<Arc<Object>>)
    ensures
        shared_result(r) == shared_result(*result),
{
    match result {
        Ok(object) => Ok(Arc::clone(object)),
        Err(error) => Err(Arc::clone(error)),
    }
}

/// The ids with what the slots hold for them.
fn collect_slots(unique: &Vec<ObjectId>, slots: &Vec<Option<SharedIndexedReaderResult<Arc<Object>>>>) -> (r: Vec<
    (ObjectId, SharedIndexedReaderResult<Arc<Object>>),
>)
    requires
        slots@.len() == unique@.len(),
        forall|i: int| 0 <= i < slots@.len() ==> #[trigger] slots@[i] is Some,
    ensures
        r@.len() == unique@.len(),
        forall|i: int|
            0 <= i < r@.len() ==> (#[trigger] r@[i]).0 == unique@[i] && shared_result(r@[i].1) == shared_result(
                slots@[i]->Some_0,
            ),
{
    let mut collected: Vec<(ObjectId, SharedIndexedReaderResult<Arc<Object>>)> = Vec::new();
    let mut position: usize = 0;
    while position < unique.len()
        invariant
            position <= unique@.len() == slots@.len(),
            collected@.len() == position,
            forall|i: int| 0 <= i < slots@.len() ==> #[trigger] slots@[i] is Some,
            forall|i: int|
                0 <= i < position ==> (#[trigger] collected@[i]).0 == unique@[i] && shared_result(collected@[i].1)
                    == shared_result(slots@[i]->Some_0),
        decreases unique@.len() - position,
    {
        if let Some(result) = &slots[position] {
            collected.push((unique[position], clone_shared(result)));
        }
        position += 1;
    }
    collected
}

/// Reports whether some request can be one for a member of an object stream.
fn any_of_generation_zero(requests: &Vec<CompressedBatchRequest>) -> (r: bool)
    ensures
        !r ==> forall|i: int| 0 <= i < requests@.len() ==> (#[trigger] requests@[i]).id.1 != 0,
{
    let mut index: usize = 0;
    while index < requests.len()
        invariant
            index <= requests@.len(),
            forall|i: int| 0 <= i < index ==> (#[trigger] requests@[i]).id.1 != 0,
        decreases requests@.len() - index,
    {
        if requests[index].id.1 == 0 {
            return true;
        }
        index += 1;
    }
    false
}

impl<S: RandomAccessSource, H: SecurityHandler> IndexedReader<S, H> {
    /// Resolves one object into a value that can be shared.
    pub fn resolve_object_shared(&self, id: ObjectId) -> (r: SharedIndexedReaderResult<Arc<Object>>)
        ensures
            self.source.reliable() ==> shared_result(r) == object_of(self.document(), id),
            resolves(shared_result(r), self.document(), id),
    {
        share(self.resolve_object(id))
    }

    /// Resolves and decodes a container once for all its members.
    pub fn prepare_group(&self, container: ObjectId) -> (r: PreparedGroup)
        ensures
            self.source.reliable() ==> answers_for(
                r,
                self.document(),
                container,
                normal_object(self.document(), container, seq![container], 2),
            ),
            leaves_group(r, self.document(), container),
    {
        let mut active: Vec<ObjectId> = Vec::new();
        active.push(container);
        assert(active@ =~= seq![container]);
        // As deep as a single member would enter its container.
        let mut state = ResolutionState { active, depth: 2 };
        match self.resolve_normal(container, &mut state) {
            Err(error) => PreparedGroup::Failed(Arc::new(error)),
            Ok(Object::Stream(stream)) => match SelectedObjectStream::prepare(
                &stream.dict,
                &stream.content,
                container_limit(&self.limits),
            ) {
                Ok(selected) => PreparedGroup::Selected(selected),
                Err(source) => PreparedGroup::Failed(
                    Arc::new(IndexedReaderError::ObjectStreamBatchSetup { container, source }),
                ),
            },
            Ok(_) => PreparedGroup::NotStream,
        }
    }

    /// Resolves members of one container, which is itself resolved at most once.
    pub fn resolve_compressed_group(&self, container: u32, requests: &Vec<CompressedBatchRequest>) -> (r: Vec<
        (usize, SharedIndexedReaderResult<Arc<Object>>),
    >)
        ensures
            r@.len() == requests@.len(),
            forall|i: int|
                0 <= i < r@.len() ==> (#[trigger] r@[i]).0 == requests@[i].position && (self.source.reliable()
                    ==> shared_result(r@[i].1) == grouped_object(
                    self.document(),
                    requests@[i].id,
                    container,
                    requests@[i].index,
                )) && leaves_member(
                    shared_result(r@[i].1),
                    self.document(),
                    requests@[i].id,
                    container,
                    requests@[i].index,
                ),
    {
        let mut results: Vec<(usize, SharedIndexedReaderResult<Arc<Object>>)> = Vec::new();
        let shallow: bool = self.limits.max_length_depth < 2;
        let group: PreparedGroup = if shallow || !any_of_generation_zero(requests) {
            PreparedGroup::NotStream
        } else {
            self.prepare_group((container, 0))
        };
        let mut index: usize = 0;
        while index < requests.len()
            invariant
                index <= requests@.len(),
                results@.len() == index,
                shallow == (self.limits.max_length_depth < 2),
                self.source.reliable() && !shallow && (exists|i: int|
                    0 <= i < requests@.len() && (#[trigger] requests@[i]).id.1 == 0) ==> answers_for(
                    group,
                    self.document(),
                    (container, 0),
                    normal_object(self.document(), (container, 0), seq![(container, 0)], 2),
                ),
                !shallow && (exists|i: int| 0 <= i < requests@.len() && (#[trigger] requests@[i]).id.1 == 0)
                    ==> leaves_group(group, self.document(), (container, 0)),
                forall|i: int|
                    0 <= i < index ==> (#[trigger] results@[i]).0 == requests@[i].position && (self.source.reliable()
                        ==> shared_result(results@[i].1) == grouped_object(
                        self.document(),
                        requests@[i].id,
                        container,
                        requests@[i].index,
                    )) && leaves_member(
                        shared_result(results@[i].1),
                        self.document(),
                        requests@[i].id,
                        container,
                        requests@[i].index,
                    ),
            decreases requests@.len() - index,
        {
            let request: CompressedBatchRequest = requests[index];
            let result: SharedIndexedReaderResult<Arc<Object>> = if shallow {
                self.resolve_object_shared(request.id)
            } else if request.id.1 != 0 {
                Err(Arc::new(IndexedReaderError::GenerationMismatch { id: request.id, indexed: 0 }))
            } else {
                answer_member(&group, (container, 0), request.id, request.index)
            };
            results.push((request.position, result));
            index += 1;
        }
        results
    }

    /// Resolves each of the ids once, in the order in which they first occur.
    /// Each object stream is resolved and decoded once for all its members.
    pub fn resolve_many_shared(&self, ids: &[ObjectId]) -> (r: Vec<
        (ObjectId, SharedIndexedReaderResult<Arc<Object>>),
    >)
        ensures
            self.source.reliable() ==> batch_view(r@) == batch_of(self.document(), ids@),
            r@.len() == first_occurrences(ids@).len(),
            forall|i: int|
                0 <= i < r@.len() ==> (#[trigger] r@[i]).0 == first_occurrences(ids@)[i] && (self.source.reliable()
                    ==> shared_result(r@[i].1) == batch_object(self.document(), r@[i].0)) && leaves_object(
                    shared_result(r@[i].1),
                    self.document(),
                    r@[i].0,
                ),
    {
        let plan = plan_batch(&self.index.locations, ids);
        let mut slots = empty_slots(plan.unique.len());
        let ghost d = self.document();
        let mut next: usize = 0;
        while next < plan.single.len()
            invariant
                next <= plan.single@.len(),
                d == self.document(),
                plan.fits(self.index.locations@, ids@),
                slots@.len() == plan.unique@.len(),
                slots_fit(d, self.source.reliable(), plan.unique@, slots@),
                forall|i: int| 0 <= i < next ==> slots@[#[trigger] plan.single@[i] as int] is Some,
                forall|i: int|
                    0 <= i < slots@.len() ==> match #[trigger] slots@[i] {
                        Some(result) => resolves(shared_result(result), d, plan.unique@[i]),
                        None => true,
                    },
            decreases plan.single@.len() - next,
        {
            let position: usize = plan.single[next];
            let result = self.resolve_object_shared(plan.unique[position]);
            slots.set(position, Some(result));
            next += 1;
        }
        let answers = self.finish_batch(ids, &plan, slots);
        assert(self.source.reliable() ==> batch_view(answers@) =~= batch_of(d, ids@));
        answers
    }

    /// Fills in the members of object streams where the other objects of a batch
    /// have been filled in, and gives the ids with their results.
    pub fn finish_batch(
        &self,
        ids: &[ObjectId],
        plan: &BatchPlan,
        filled: Vec<Option<SharedIndexedReaderResult<Arc<Object>>>>,
    ) -> (r: Vec<(ObjectId, SharedIndexedReaderResult<Arc<Object>>)>)
        requires
            plan.fits(self.index.locations@, ids@),
            filled@.len() == plan.unique@.len(),
            slots_fit(self.document(), self.source.reliable(), plan.unique@, filled@),
            forall|i: int| 0 <= i < plan.single@.len() ==> filled@[#[trigger] plan.single@[i] as int] is Some,
        ensures
            r@.len() == first_occurrences(ids@).len(),
            forall|i: int|
                0 <= i < r@.len() ==> (#[trigger] r@[i]).0 == first_occurrences(ids@)[i] && (self.source.reliable()
                    ==> shared_result(r@[i].1) == batch_object(self.document(), r@[i].0)) && finished(
                    self.document(),
                    r@[i].0,
                    shared_result(r@[i].1),
                    filled@[i],
                ),
    {
        let ghost d = self.document();
        let mut slots = filled;
        let mut group: usize = 0;
        while group < plan.groups.len()
            invariant
                group <= plan.groups@.len(),
                d == self.document(),
                plan.fits(self.index.locations@, ids@),
                slots@.len() == plan.unique@.len(),
                slots_fit(d, self.source.reliable(), plan.unique@, slots@),
                forall|i: int| 0 <= i < plan.single@.len() ==> slots@[#[trigger] plan.single@[i] as int] is Some,
                forall|g: int| 0 <= g < group ==> all_answered(d, #[trigger] plan.groups@[g], slots@),
                others_stay(d.locations, plan.unique@, filled@, slots@),
            decreases plan.groups@.len() - group,
        {
            let container: u32 = plan.groups[group].container;
            let requests: &Vec<CompressedBatchRequest> = &plan.groups[group].requests;
            let results = self.resolve_compressed_group(container, requests);
            assert(group_fits(self.index.locations@, plan.unique@, plan.groups@[group as int]));
            let mut answer: usize = 0;
            while answer < results.len()
                invariant
                    answer <= results@.len() == requests@.len(),
                    group < plan.groups@.len(),
                    requests@ == plan.groups@[group as int].requests@,
                    container == plan.groups@[group as int].container,
                    d == self.document(),
                    plan.fits(self.index.locations@, ids@),
                    group_fits(self.index.locations@, plan.unique@, plan.groups@[group as int]),
                    slots@.len() == plan.unique@.len(),
                    slots_fit(d, self.source.reliable(), plan.unique@, slots@),
                    forall|i: int| 0 <= i < plan.single@.len() ==> slots@[#[trigger] plan.single@[i] as int] is Some,
                    forall|g: int| 0 <= g < group ==> all_answered(d, #[trigger] plan.groups@[g], slots@),
                    others_stay(d.locations, plan.unique@, filled@, slots@),
                    forall|i: int|
                        0 <= i < answer ==> slot_answered(d, container, #[trigger] requests@[i], slots@),
                    forall|i: int|
                        0 <= i < results@.len() ==> (#[trigger] results@[i]).0 == requests@[i].position && (
                        self.source.reliable() ==> shared_result(results@[i].1) == grouped_object(
                            d,
                            requests@[i].id,
                            container,
                            requests@[i].index,
                        )) && leaves_member(
                            shared_result(results@[i].1),
                            d,
                            requests@[i].id,
                            container,
                            requests@[i].index,
                        ),
                decreases results@.len() - answer,
            {
                let position: usize = results[answer].0;
                let ghost before = slots@;
                let ghost request = requests@[answer as int];
                assert(request_fits(self.index.locations@, plan.unique@, container, request));
                slots.set(position, Some(clone_shared(&results[answer].1)));
                proof {
                    assert(slot_answered(d, container, request, slots@));
                    assert forall|g: int| 0 <= g < group implies all_answered(d, #[trigger] plan.groups@[g], slots@) by {
                        assert(group_fits(self.index.locations@, plan.unique@, plan.groups@[g]));
                        assert(all_answered(d, plan.groups@[g], before));
                        lemma_still_answered(d, plan.unique@, plan.groups@[g], container, request, before, slots@);
                    }
                    assert forall|i: int| 0 <= i < answer + 1 implies slot_answered(
                        d,
                        container,
                        #[trigger] requests@[i],
                        slots@,
                    ) by {
                        assert(request_fits(self.index.locations@, plan.unique@, container, requests@[i]));
                        if i < answer {
                            assert(slot_answered(d, container, requests@[i], before));
                        }
                    }
                }
                answer += 1;
            }
            group += 1;
        }
        proof {
            assert forall|i: int| 0 <= i < slots@.len() implies (#[trigger] slots@[i]) is Some && finished(
                d,
                plan.unique@[i],
                shared_result(slots@[i]->Some_0),
                filled@[i],
            ) by {
                let position = i as usize;
                if !grouped(plan.groups@, position) {
                    assert(plan.single@.contains(position));
                    let k = choose|k: int| 0 <= k < plan.single@.len() && plan.single@[k] == position;
                    assert(slots@[plan.single@[k] as int] is Some);
                    assert(uncompressed(d.locations, plan.unique@[i]));
                } else {
                    let g = choose|g: int|
                        0 <= g < plan.groups@.len() && requested((#[trigger] plan.groups@[g]).requests@, position);
                    let requests = plan.groups@[g].requests@;
                    assert(all_answered(d, plan.groups@[g], slots@));
                    assert(group_fits(self.index.locations@, plan.unique@, plan.groups@[g]));
                    let k = choose|k: int| 0 <= k < requests.len() && (#[trigger] requests[k]).position == position;
                    assert(slot_answered(d, plan.groups@[g].container, requests[k], slots@));
                }
            }
        }
        collect_slots(&plan.unique, &slots)
    }
}

/// As many slots, with nothing in them.
pub fn empty_slots(count: usize) -> (slots: Vec<Option<SharedIndexedReaderResult<Arc<Object>>>>)
    ensures
        slots@.len() == count,
        forall|i: int| 0 <= i < count ==> #[trigger] slots@[i] is None,
{
    let mut slots: Vec<Option<SharedIndexedReaderResult<Arc<Object>>>> = Vec::new();
    while slots.len() < count
        invariant
            slots@.len() <= count,
            forall|i: int| 0 <= i < slots@.len() ==> #[trigger] slots@[i] is None,
        decreases count - slots@.len(),
    {
        slots.push(None);
    }
    slots
}

/// Every slot that is filled is filled with what a batch gives.
pub open spec fn slots_fit(
    d: DocumentView,
    reliable: bool,
    unique: Seq<ObjectId>,
    slots: Seq<Option<SharedIndexedReaderResult<Arc<Object>>>>,
) -> bool {
    forall|i: int|
        0 <= i < slots.len() && reliable ==> match #[trigger] slots[i] {
            Some(result) => shared_result(result) == batch_object(d, unique[i]),
            None => true,
        }
}

/// The request has its slot filled with what a source that may fail leaves.
spec fn slot_answered(
    d: DocumentView,
    container: u32,
    request: CompressedBatchRequest,
    slots: Seq<Option<SharedIndexedReaderResult<Arc<Object>>>>,
) -> bool {
    slots[request.position as int] matches Some(result) && leaves_member(
        shared_result(result),
        d,
        request.id,
        container,
        request.index,
    )
}

/// Every request of a group has its slot filled.
spec fn all_answered(
    d: DocumentView,
    group: BatchGroup,
    slots: Seq<Option<SharedIndexedReaderResult<Arc<Object>>>>,
) -> bool {
    forall|i: int|
        0 <= i < group.requests@.len() ==> slot_answered(d, group.container, #[trigger] group.requests@[i], slots)
}

/// The slots of objects outside of object streams are as they were.
spec fn others_stay(
    locations: LocationMap,
    unique: Seq<ObjectId>,
    before: Seq<Option<SharedIndexedReaderResult<Arc<Object>>>>,
    after: Seq<Option<SharedIndexedReaderResult<Arc<Object>>>>,
) -> bool {
    forall|i: int| 0 <= i < after.len() && uncompressed(locations, unique[i]) ==> #[trigger] after[i] == before[i]
}

/// What finishing a batch gives for an id: what was filled in for it, or, for a
/// member of an object stream, what a source that may fail leaves of it.
pub open spec fn finished(
    d: DocumentView,
    id: ObjectId,
    got: Result<ObjectView, IndexedReaderError>,
    filled: Option<SharedIndexedReaderResult<Arc<Object>>>,
) -> bool {
    if uncompressed(d.locations, id) {
        filled matches Some(result) && got == shared_result(result)
    } else {
        leaves_object(got, d, id)
    }
}

proof fn lemma_still_answered(
    d: DocumentView,
    unique: Seq<ObjectId>,
    group: BatchGroup,
    container: u32,
    request: CompressedBatchRequest,
    before: Seq<Option<SharedIndexedReaderResult<Arc<Object>>>>,
    after: Seq<Option<SharedIndexedReaderResult<Arc<Object>>>>,
)
    requires
        group_fits(d.locations, unique, group),
        request_fits(d.locations, unique, container, request),
        all_answered(d, group, before),
        before.len() == unique.len(),
        exists|filling: Option<SharedIndexedReaderResult<Arc<Object>>>|
            after == #[trigger] before.update(request.position as int, filling),
        slot_answered(d, container, request, after),
    ensures
        all_answered(d, group, after),
{
    assert forall|i: int| 0 <= i < group.requests@.len() implies slot_answered(
        d,
        group.container,
        #[trigger] group.requests@[i],
        after,
    ) by {
        let other = group.requests@[i];
        assert(request_fits(d.locations, unique, group.container, other));
        assert(slot_answered(d, group.container, other, before));
    }
}

} // verus!
