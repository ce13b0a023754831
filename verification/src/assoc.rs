//! Lists of entries under distinct keys, in the order in which the keys
//! came.

use vstd::prelude::*;

verus! {

/// Where `key` stands in a list of entries, if it does: the first position
/// that holds it.
pub open spec fn position<Key, X>(list: Seq<(Key, X)>, key: Key) -> Option<int> {
    if exists|i: int| 0 <= i < list.len() && list[i].0 == key {
        Some(
            choose|i: int|
                0 <= i < list.len() && list[i].0 == key && forall|j: int|
                    0 <= j < i ==> list[j].0 != key,
        )
    } else {
        None
    }
}

/// The list with `value` under `key`: in the place of the entry that has the
/// key, or else at the end.
pub open spec fn put<Key, X>(list: Seq<(Key, X)>, key: Key, value: X) -> Seq<(Key, X)> {
    match position(list, key) {
        Some(i) => list.update(i, (key, value)),
        None => list.push((key, value)),
    }
}

/// No key occurs twice in the list.
pub open spec fn distinct<Key, X>(list: Seq<(Key, X)>) -> bool {
    forall|i: int, j: int| 0 <= i < j < list.len() ==> list[i].0 != list[j].0
}

/// A position that holds the key, with no earlier one that does, is where
/// the key stands.
pub proof fn lemma_position<Key, X>(list: Seq<(Key, X)>, key: Key, i: int)
    requires
        0 <= i < list.len(),
        list[i].0 == key,
        forall|j: int| 0 <= j < i ==> list[j].0 != key,
    ensures
        position(list, key) == Some(i),
{
    let found = position(list, key)->0;
    assert(found == i);
}

/// Putting a value under a key keeps the keys distinct.
pub proof fn lemma_put_distinct<Key, X>(list: Seq<(Key, X)>, key: Key, value: X)
    requires
        distinct(list),
    ensures
        distinct(put(list, key, value)),
{
    match position(list, key) {
        Some(i) => {
            assert forall|a: int, b: int| 0 <= a < b < list.len() implies list.update(
                i,
                (key, value),
            )[a].0 != list.update(i, (key, value))[b].0 by {
                assert(list[a].0 != list[b].0);
            }
        },
        None => {},
    }
}

} // verus!
