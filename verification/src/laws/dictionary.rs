//! What a dictionary keeps.

use vstd::prelude::*;

use crate::object::{dict_get, dict_remove, dict_set, dict_unique, key_index, DictionaryView, ObjectView};

verus! {

proof fn lemma_index(dict: DictionaryView, key: Seq<u8>, from: int, at: int)
    requires
        dict_unique(dict),
        0 <= from <= at < dict.len(),
        dict[at].0 == key,
    ensures
        key_index(dict, key, from) == at,
    decreases at - from,
{
    if from < at {
        assert(dict[from].0 != dict[at].0);
        lemma_index(dict, key, from + 1, at);
    }
}

proof fn lemma_no_index(dict: DictionaryView, key: Seq<u8>, from: int)
    requires
        0 <= from <= dict.len(),
        forall|i: int| from <= i < dict.len() ==> (#[trigger] dict[i]).0 != key,
    ensures
        key_index(dict, key, from) == dict.len(),
    decreases dict.len() - from,
{
    if from < dict.len() {
        lemma_no_index(dict, key, from + 1);
    }
}

/// A dictionary gives for each key the value that stands beside it, and nothing for a key
/// that it does not have.
pub proof fn law_entries_are_found(dict: DictionaryView, key: Seq<u8>, at: int)
    requires
        dict_unique(dict),
    ensures
        0 <= at < dict.len() ==> dict_get(dict, dict[at].0) == Some(dict[at].1),
        (forall|i: int| 0 <= i < dict.len() ==> (#[trigger] dict[i]).0 != key) ==> dict_get(dict, key) is None,
{
    if 0 <= at < dict.len() {
        lemma_index(dict, dict[at].0, 0, at);
    }
    if forall|i: int| 0 <= i < dict.len() ==> (#[trigger] dict[i]).0 != key {
        lemma_no_index(dict, key, 0);
    }
}

/// A value that is set takes the place of the one before it; a new key comes behind the
/// others. No other entry moves.
pub proof fn law_set_entries_keep_their_places(dict: DictionaryView, key: Seq<u8>, value: ObjectView, at: int)
    requires
        dict_unique(dict),
    ensures
        0 <= at < dict.len() && dict[at].0 == key ==> dict_set(dict, key, value) == dict.update(at, (key, value)),
        (forall|i: int| 0 <= i < dict.len() ==> (#[trigger] dict[i]).0 != key) ==> dict_set(dict, key, value)
            == dict.push((key, value)),
{
    if 0 <= at < dict.len() && dict[at].0 == key {
        lemma_index(dict, key, 0, at);
    }
    if forall|i: int| 0 <= i < dict.len() ==> (#[trigger] dict[i]).0 != key {
        lemma_no_index(dict, key, 0);
    }
}

/// A key that was taken out is gone, and the other entries stay in their order.
pub proof fn law_removed_entries_are_gone(dict: DictionaryView, key: Seq<u8>, at: int)
    requires
        dict_unique(dict),
        0 <= at < dict.len(),
        dict[at].0 == key,
    ensures
        dict_remove(dict, key) == dict.take(at) + dict.skip(at + 1),
        dict_get(dict_remove(dict, key), key) is None,
{
    lemma_index(dict, key, 0, at);
    let rest = dict_remove(dict, key);
    assert(rest =~= dict.take(at) + dict.skip(at + 1));
    assert forall|i: int| 0 <= i < rest.len() implies (#[trigger] rest[i]).0 != key by {
        if i < at {
            assert(rest[i] == dict[i]);
            assert(dict[i].0 != dict[at].0);
        } else {
            assert(rest[i] == dict[i + 1]);
            assert(dict[at].0 != dict[i + 1].0);
        }
    }
    lemma_no_index(rest, key, 0);
}

/// Taking a key out leaves each other key its value.
pub proof fn law_removal_leaves_the_others(dict: DictionaryView, removed: Seq<u8>, key: Seq<u8>)
    requires
        dict_unique(dict),
    ensures
        dict_unique(dict_remove(dict, removed)),
        key != removed ==> dict_get(dict_remove(dict, removed), key) == dict_get(dict, key),
        dict_get(dict_remove(dict, removed), removed) is None,
{
    let rest = dict_remove(dict, removed);
    if exists|i: int| 0 <= i < dict.len() && (#[trigger] dict[i]).0 == removed {
        let at = choose|i: int| 0 <= i < dict.len() && (#[trigger] dict[i]).0 == removed;
        law_removed_entries_are_gone(dict, removed, at);
        assert forall|i: int, j: int| 0 <= i < j < rest.len() implies (#[trigger] rest[i]).0 != (#[trigger] rest[j]).0 by {
            let first = if i < at {
                i
            } else {
                i + 1
            };
            let second = if j < at {
                j
            } else {
                j + 1
            };
            assert(rest[i] == dict[first]);
            assert(rest[j] == dict[second]);
        }
        if key != removed {
            if exists|i: int| 0 <= i < dict.len() && (#[trigger] dict[i]).0 == key {
                let there = choose|i: int| 0 <= i < dict.len() && (#[trigger] dict[i]).0 == key;
                let here = if there < at {
                    there
                } else {
                    there - 1
                };
                assert(rest[here] == dict[there]);
                lemma_index(dict, key, 0, there);
                lemma_index(rest, key, 0, here);
            } else {
                lemma_no_index(dict, key, 0);
                assert forall|i: int| 0 <= i < rest.len() implies (#[trigger] rest[i]).0 != key by {
                    assert(rest[i] == dict[if i < at { i } else { i + 1 }]);
                }
                lemma_no_index(rest, key, 0);
            }
        }
    } else {
        lemma_no_index(dict, removed, 0);
    }
}

} // verus!
