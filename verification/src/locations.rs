//! Where a document's objects are, by object number.

use std::collections::BTreeMap;

use vstd::prelude::*;
use vstd::std_specs::iter::IteratorSpec;

use crate::object::ObjectId;

verus! {

/// What a cross-reference entry says of an object number.
#[derive(Clone, Copy, Debug, PartialEq, Eq, Structural)]
pub enum ObjectLocation64 {
    /// The number is free. Free entries are kept, so that the free list does not
    /// have to be found out again.
    Free { next: u64, generation: u16 },
    /// The object stands at an offset behind the document's header.
    Normal { offset: u64, generation: u16 },
    /// The object is a member of an object stream.
    Compressed { container: u32, index: u32 },
}

/// Where a live object stands.
#[derive(Clone, Copy, Debug, PartialEq, Eq)]
#[non_exhaustive]
pub enum IndexedObjectLocation {
    /// The object stands by itself.
    Normal,
    /// The object, of generation zero, is a member of an object stream.
    Compressed { container: ObjectId, index: u32 },
}

/// Where the object of a number stands, where the number is that of a live one.
pub open spec fn indexed_location(locations: LocationMap, number: u32) -> Option<IndexedObjectLocation> {
    if locations.contains_key(number) {
        match locations[number] {
            ObjectLocation64::Free { .. } => None,
            ObjectLocation64::Normal { .. } => Some(IndexedObjectLocation::Normal),
            ObjectLocation64::Compressed { container, index } => Some(
                IndexedObjectLocation::Compressed { container: (container, 0), index },
            ),
        }
    } else {
        None
    }
}

/// Locations by object number.
pub type LocationMap = Map<u32, ObjectLocation64>;

/// A table of locations by object number.
pub struct LocationTable {
    entries: BTreeMap<u32, ObjectLocation64>,
}

impl LocationTable {
    pub closed spec fn view(&self) -> LocationMap {
        self.entries@
    }

    /// A table without entries.
    pub fn new() -> (table: Self)
        ensures
            table@ == LocationMap::empty(),
    {
        LocationTable { entries: BTreeMap::new() }
    }

    /// How many numbers have an entry.
    pub fn len(&self) -> (r: usize)
        ensures
            r == self@.len(),
            self@.dom().finite(),
    {
        proof {
            broadcast use vstd::std_specs::btree::group_btree_axioms;

        }
        self.entries.len()
    }

    /// The entry of an object number.
    pub fn get(&self, number: &u32) -> (r: Option<&ObjectLocation64>)
        ensures
            match r {
                Some(location) => self@.contains_key(*number) && self@[*number] == *location,
                None => !self@.contains_key(*number),
            },
    {
        self.entries.get(number)
    }

    /// Reports whether an object number has an entry.
    pub fn contains(&self, number: u32) -> (r: bool)
        ensures
            r == self@.contains_key(number),
    {
        self.entries.contains_key(&number)
    }

    /// Where the object of a number stands, where the number is that of a live one.
    pub fn indexed(&self, number: u32) -> (r: Option<IndexedObjectLocation>)
        ensures
            r == indexed_location(self@, number),
    {
        match self.entries.get(&number) {
            Some(location) => match *location {
                ObjectLocation64::Free { .. } => None,
                ObjectLocation64::Normal { .. } => Some(IndexedObjectLocation::Normal),
                ObjectLocation64::Compressed { container, index } => Some(
                    IndexedObjectLocation::Compressed { container: (container, 0), index },
                ),
            },
            None => None,
        }
    }

    /// How many numbers are those of live objects.
    pub fn live(&self) -> (r: usize)
        ensures
            r == live_numbers(self@).len(),
            live_numbers(self@).finite(),
    {
        proof {
            broadcast use vstd::std_specs::btree::group_btree_axioms;

        }
        let total: usize = self.entries.len();
        let mut count: usize = 0;
        let ghost keys = self.entries.keys().remaining().unref();
        assert(keys.take(0).to_set() =~= Set::empty());
        assert(live_among(self@, keys.take(0)) =~= Set::empty());
        for number in numbers: self.entries.keys()
            invariant
                numbers.seq().unref() == keys,
                keys.no_duplicates(),
                keys.len() == total,
                count <= numbers.index(),
                count == live_among(self@, keys.take(numbers.index() as int)).len(),
        {
            proof {
                broadcast use vstd::std_specs::btree::group_btree_axioms;

                lemma_live_among(self@, keys, numbers.index() as int);
            }
            if let Some(location) = self.entries.get(number) {
                match location {
                    ObjectLocation64::Free { .. } => {},
                    _ => {
                        count += 1;
                    },
                }
            }
        }
        proof {
            broadcast use vstd::std_specs::btree::group_btree_axioms;

            assert(keys.take(keys.len() as int) =~= keys);
            assert(live_among(self@, keys) =~= live_numbers(self@));
        }
        count
    }

    /// Gives an object number an entry in place of the one that it has.
    pub fn insert(&mut self, number: u32, location: ObjectLocation64)
        ensures
            final(self)@ == old(self)@.insert(number, location),
    {
        self.entries.insert(number, location);
    }
}

/// The numbers of live objects.
pub open spec fn live_numbers(locations: LocationMap) -> Set<u32> {
    locations.dom().filter(|number: u32| locations[number] !is Free)
}

/// The numbers of live objects among these.
spec fn live_among(locations: LocationMap, numbers: Seq<u32>) -> Set<u32> {
    numbers.to_set().filter(|number: u32| locations.contains_key(number) && locations[number] !is Free)
}

proof fn lemma_live_among(locations: LocationMap, numbers: Seq<u32>, index: int)
    requires
        0 <= index < numbers.len(),
        numbers.no_duplicates(),
    ensures
        live_among(locations, numbers.take(index + 1)).len() == live_among(locations, numbers.take(index)).len() + (
        if locations.contains_key(numbers[index]) && locations[numbers[index]] !is Free {
            1int
        } else {
            0int
        }),
{
    let before = numbers.take(index);
    let after = numbers.take(index + 1);
    let number = numbers[index];
    assert(after =~= before.push(number));
    assert(after.to_set() =~= before.to_set().insert(number)) by {
        assert forall|n: u32| after.to_set().contains(n) == before.to_set().insert(number).contains(n) by {
            if before.contains(n) {
                let i = choose|i: int| 0 <= i < before.len() && before[i] == n;
                assert(after[i] == n);
            }
            assert(after[index] == number);
        }
    }
    assert(!before.contains(number));
    vstd::seq_lib::seq_to_set_is_finite(before);
    let live = live_among(locations, before);
    if locations.contains_key(number) && locations[number] !is Free {
        assert(live_among(locations, after) =~= live.insert(number));
    } else {
        assert(live_among(locations, after) =~= live);
    }
}

/// What a run of entries says of each number: the last entry of a number counts.
pub open spec fn entries_map(entries: Seq<(u32, ObjectLocation64)>) -> LocationMap
    decreases entries.len(),
{
    if entries.len() == 0 {
        LocationMap::empty()
    } else {
        entries_map(entries.drop_last()).insert(entries.last().0, entries.last().1)
    }
}

/// The locations of a newer revision with what an older one adds to them.
pub open spec fn merged(newer: LocationMap, older: LocationMap) -> LocationMap {
    older.union_prefer_right(newer)
}

proof fn lemma_entries_from_the_front(entries: Seq<(u32, ObjectLocation64)>)
    requires
        entries.len() > 0,
    ensures
        entries_map(entries) == LocationMap::empty().insert(entries[0].0, entries[0].1).union_prefer_right(
            entries_map(entries.skip(1)),
        ),
    decreases entries.len(),
{
    let first = LocationMap::empty().insert(entries[0].0, entries[0].1);
    if entries.len() == 1 {
        assert(entries.drop_last() =~= Seq::empty());
        assert(entries.skip(1) =~= Seq::empty());
        assert(entries_map(entries.drop_last()) == LocationMap::empty());
        assert(entries_map(entries) =~= first.union_prefer_right(entries_map(entries.skip(1))));
    } else {
        lemma_entries_from_the_front(entries.drop_last());
        assert(entries.drop_last()[0] == entries[0]);
        assert(entries.drop_last().skip(1) =~= entries.skip(1).drop_last());
        assert(entries.skip(1).last() == entries.last());
        assert(entries_map(entries) =~= first.union_prefer_right(entries_map(entries.skip(1))));
    }
}

/// Adds to `target` what `entries` say of the numbers that it has no entry for.
pub fn merge_newest(target: &mut LocationTable, entries: &Vec<(u32, ObjectLocation64)>)
    ensures
        final(target)@ == merged(old(target)@, entries_map(entries@)),
{
    let mut index: usize = entries.len();
    let ghost newer = target@;
    assert(entries@.skip(entries@.len() as int) =~= Seq::empty());
    assert(target@ =~= merged(newer, entries_map(entries@.skip(index as int))));
    while index > 0
        invariant
            index <= entries@.len(),
            target@ == merged(newer, entries_map(entries@.skip(index as int))),
        decreases index,
    {
        index -= 1;
        let (number, location) = entries[index];
        proof {
            let rest = entries@.skip(index as int);
            lemma_entries_from_the_front(rest);
            assert(rest.skip(1) =~= entries@.skip(index + 1));
        }
        if !target.contains(number) {
            target.insert(number, location);
        }
        assert(target@ =~= merged(newer, entries_map(entries@.skip(index as int))));
    }
    assert(entries@.skip(0) =~= entries@);
}

/// A newer revision wins: what it says of a number stays whatever an older one says.
pub proof fn law_newest_revision_wins(newer: LocationMap, older: LocationMap, number: u32)
    ensures
        newer.contains_key(number) ==> merged(newer, older).contains_key(number) && merged(newer, older)[number]
            == newer[number],
        !newer.contains_key(number) && older.contains_key(number) ==> merged(newer, older).contains_key(number)
            && merged(newer, older)[number] == older[number],
        merged(newer, older).contains_key(number) <==> newer.contains_key(number) || older.contains_key(number),
{
}

/// Within one revision the later entries win: a supplement that follows the
/// entries of its section takes precedence over them.
pub proof fn law_supplement_takes_precedence(
    section: Seq<(u32, ObjectLocation64)>,
    supplement: Seq<(u32, ObjectLocation64)>,
)
    ensures
        entries_map(section + supplement) == entries_map(section).union_prefer_right(entries_map(supplement)),
    decreases supplement.len(),
{
    if supplement.len() == 0 {
        assert(section + supplement =~= section);
        assert(entries_map(section) =~= entries_map(section).union_prefer_right(entries_map(supplement)));
    } else {
        law_supplement_takes_precedence(section, supplement.drop_last());
        assert((section + supplement).drop_last() =~= section + supplement.drop_last());
        assert(entries_map(section + supplement) =~= entries_map(section).union_prefer_right(
            entries_map(supplement),
        ));
    }
}

} // verus!
