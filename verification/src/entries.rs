//! Sequences of entries in the order of their keys, and the maps that they spell out.

use vstd::prelude::*;
use crate::key::{admits, key_lt, lemma_key_lt_asymmetric, lemma_key_lt_irreflexive, Bound};

verus! {

/// The keys ascend, and none occurs twice.
pub open spec fn sorted<V>(entries: Seq<(Seq<u8>, V)>) -> bool {
    forall|i: int, j: int|
        0 <= i < j < entries.len() ==> key_lt(#[trigger] entries[i].0, #[trigger] entries[j].0)
}

/// No key occurs twice.
pub open spec fn distinct<K, V>(entries: Seq<(K, V)>) -> bool {
    forall|i: int, j: int|
        0 <= i < j < entries.len() ==> #[trigger] entries[i].0 != #[trigger] entries[j].0
}

/// An entry with this key is among `entries`.
pub open spec fn holds_key<K, V>(entries: Seq<(K, V)>, key: K) -> bool {
    exists|i: int| 0 <= i < entries.len() && #[trigger] entries[i].0 == key
}

/// The place of the entry with this key.
pub open spec fn place_of<K, V>(entries: Seq<(K, V)>, key: K) -> int {
    choose|i: int| 0 <= i < entries.len() && #[trigger] entries[i].0 == key
}

/// The map that takes the key of each entry to its value.
pub open spec fn to_map<K, V>(entries: Seq<(K, V)>) -> Map<K, V> {
    Map::new(|key: K| holds_key(entries, key), |key: K| entries[place_of(entries, key)].1)
}

/// The values alone.
pub open spec fn values_of<K, V>(entries: Seq<(K, V)>) -> Seq<V> {
    Seq::new(entries.len(), |i: int| entries[i].1)
}

/// The part of a map whose keys lie in a range.
pub open spec fn within<V>(
    map: Map<Seq<u8>, V>,
    bounds: (Bound<Seq<u8>>, Bound<Seq<u8>>),
) -> Map<Seq<u8>, V> {
    Map::new(
        |key: Seq<u8>| map.contains_key(key) && admits(bounds, key),
        |key: Seq<u8>| map[key],
    )
}

/// What a map holds under a key, if anything.
pub open spec fn lookup<K, V>(map: Map<K, V>, key: K) -> Option<V> {
    if map.contains_key(key) {
        Some(map[key])
    } else {
        None
    }
}

/// Sorted entries are distinct.
pub proof fn lemma_sorted_distinct<V>(entries: Seq<(Seq<u8>, V)>)
    requires
        sorted(entries),
    ensures
        distinct(entries),
{
    assert forall|i: int, j: int| 0 <= i < j < entries.len() implies #[trigger] entries[i].0
        != #[trigger] entries[j].0 by {
        lemma_key_lt_irreflexive(entries[i].0);
    }
}

/// The map of distinct entries holds each entry, at its own place.
pub proof fn lemma_to_map<K, V>(entries: Seq<(K, V)>)
    requires
        distinct(entries),
    ensures
        forall|i: int|
            0 <= i < entries.len() ==> {
                &&& to_map(entries).contains_key(#[trigger] entries[i].0)
                &&& to_map(entries)[entries[i].0] == entries[i].1
                &&& place_of(entries, entries[i].0) == i
            },
        forall|key: K| #[trigger]
            to_map(entries).contains_key(key) ==> {
                &&& 0 <= place_of(entries, key) < entries.len()
                &&& entries[place_of(entries, key)] == (key, to_map(entries)[key])
            },
{
    assert forall|i: int| 0 <= i < entries.len() implies {
        &&& to_map(entries).contains_key(#[trigger] entries[i].0)
        &&& to_map(entries)[entries[i].0] == entries[i].1
        &&& place_of(entries, entries[i].0) == i
    } by {
        let j = place_of(entries, entries[i].0);
        assert(holds_key(entries, entries[i].0));
        assert(0 <= j < entries.len() && entries[j].0 == entries[i].0);
        assert(i == j);
    }
    assert forall|key: K| #[trigger] to_map(entries).contains_key(key) implies {
        &&& 0 <= place_of(entries, key) < entries.len()
        &&& entries[place_of(entries, key)] == (key, to_map(entries)[key])
    } by {
        assert(holds_key(entries, key));
    }
}

/// Replacing the value at a place replaces it in the map.
pub proof fn lemma_map_update<K, V>(entries: Seq<(K, V)>, i: int, value: V)
    requires
        distinct(entries),
        0 <= i < entries.len(),
    ensures
        distinct(entries.update(i, (entries[i].0, value))),
        to_map(entries.update(i, (entries[i].0, value))) == to_map(entries).insert(
            entries[i].0,
            value,
        ),
{
    let key = entries[i].0;
    let after = entries.update(i, (key, value));
    assert forall|a: int, b: int| 0 <= a < b < after.len() implies #[trigger] after[a].0
        != #[trigger] after[b].0 by {
        assert(after[a].0 == entries[a].0 && after[b].0 == entries[b].0);
    }
    lemma_to_map(entries);
    lemma_to_map(after);
    assert(after[i] == (key, value));
    assert forall|k: K| to_map(after).contains_key(k) <==> to_map(entries).insert(
        key,
        value,
    ).contains_key(k) by {
        if to_map(after).contains_key(k) {
            let p = place_of(after, k);
            assert(entries[p].0 == k);
        }
        if to_map(entries).contains_key(k) {
            let p = place_of(entries, k);
            assert(after[p].0 == k);
        }
    }
    assert forall|k: K| #[trigger] to_map(after).contains_key(k) implies to_map(after)[k]
        == to_map(entries).insert(key, value)[k] by {
        let p = place_of(after, k);
        assert(after[p].0 == entries[p].0);
    }
    assert(to_map(after) =~= to_map(entries).insert(key, value));
}

/// Putting in an entry with a new key puts it into the map.
pub proof fn lemma_map_insert<K, V>(entries: Seq<(K, V)>, i: int, key: K, value: V)
    requires
        distinct(entries),
        0 <= i <= entries.len(),
        !holds_key(entries, key),
    ensures
        distinct(entries.insert(i, (key, value))),
        !to_map(entries).contains_key(key),
        to_map(entries.insert(i, (key, value))) == to_map(entries).insert(key, value),
{
    let after = entries.insert(i, (key, value));
    assert forall|j: int| 0 <= j < after.len() implies #[trigger] after[j] == (if j < i {
        entries[j]
    } else if j == i {
        (key, value)
    } else {
        entries[j - 1]
    }) by {}
    assert forall|a: int, b: int| 0 <= a < b < after.len() implies #[trigger] after[a].0
        != #[trigger] after[b].0 by {}
    lemma_to_map(entries);
    lemma_to_map(after);
    assert(after[i] == (key, value) && to_map(after).contains_key(after[i].0));
    assert forall|k: K| to_map(after).contains_key(k) <==> to_map(entries).insert(
        key,
        value,
    ).contains_key(k) by {
        if to_map(after).contains_key(k) {
            let p = place_of(after, k);
            if p < i {
                assert(entries[p].0 == k);
            } else if p > i {
                assert(entries[p - 1].0 == k);
            }
        }
        if to_map(entries).contains_key(k) {
            let p = place_of(entries, k);
            if p < i {
                assert(after[p].0 == k);
            } else {
                assert(after[p + 1].0 == k);
            }
        }
    }
    assert forall|k: K| #[trigger] to_map(after).contains_key(k) implies to_map(after)[k]
        == to_map(entries).insert(key, value)[k] by {
        let p = place_of(after, k);
        if p < i {
            assert(entries[p].0 == k);
        } else if p > i {
            assert(entries[p - 1].0 == k);
        }
    }
    assert(to_map(after) =~= to_map(entries).insert(key, value));
}

/// Taking an entry out takes its key out of the map.
pub proof fn lemma_map_remove<K, V>(entries: Seq<(K, V)>, i: int)
    requires
        distinct(entries),
        0 <= i < entries.len(),
    ensures
        distinct(entries.remove(i)),
        !holds_key(entries.remove(i), entries[i].0),
        to_map(entries.remove(i)) == to_map(entries).remove(entries[i].0),
{
    let after = entries.remove(i);
    let key = entries[i].0;
    assert forall|j: int| 0 <= j < after.len() implies #[trigger] after[j] == (if j < i {
        entries[j]
    } else {
        entries[j + 1]
    }) by {}
    assert forall|a: int, b: int| 0 <= a < b < after.len() implies #[trigger] after[a].0
        != #[trigger] after[b].0 by {}
    lemma_to_map(entries);
    lemma_to_map(after);
    assert forall|k: K| to_map(after).contains_key(k) <==> to_map(entries).remove(
        key,
    ).contains_key(k) by {
        if to_map(after).contains_key(k) {
            let p = place_of(after, k);
            let q = if p < i { p } else { p + 1 };
            assert(entries[q].0 == k);
            assert(q != i);
        }
        if to_map(entries).contains_key(k) && k != key {
            let p = place_of(entries, k);
            let q = if p < i { p } else { p - 1 };
            assert(after[q].0 == k);
        }
    }
    assert forall|k: K| #[trigger] to_map(after).contains_key(k) implies to_map(after)[k]
        == to_map(entries).remove(key)[k] by {
        let p = place_of(after, k);
        let q = if p < i { p } else { p + 1 };
        assert(entries[q].0 == k);
    }
    assert(to_map(after) =~= to_map(entries).remove(key));
    assert(!to_map(after).contains_key(key));
}

/// Replacing the value at a place keeps entries sorted and replaces it in the map.
pub proof fn lemma_update<V>(entries: Seq<(Seq<u8>, V)>, i: int, value: V)
    requires
        sorted(entries),
        0 <= i < entries.len(),
    ensures
        sorted(entries.update(i, (entries[i].0, value))),
        to_map(entries.update(i, (entries[i].0, value))) == to_map(entries).insert(
            entries[i].0,
            value,
        ),
{
    let after = entries.update(i, (entries[i].0, value));
    assert forall|a: int, b: int| 0 <= a < b < after.len() implies key_lt(
        #[trigger] after[a].0,
        #[trigger] after[b].0,
    ) by {
        assert(after[a].0 == entries[a].0 && after[b].0 == entries[b].0);
    }
    lemma_sorted_distinct(entries);
    lemma_map_update(entries, i, value);
}

/// Putting an entry where its key belongs keeps entries sorted and puts it into the map.
pub proof fn lemma_insert<V>(entries: Seq<(Seq<u8>, V)>, i: int, key: Seq<u8>, value: V)
    requires
        sorted(entries),
        0 <= i <= entries.len(),
        forall|j: int| 0 <= j < i ==> key_lt(#[trigger] entries[j].0, key),
        forall|j: int| i <= j < entries.len() ==> key_lt(key, #[trigger] entries[j].0),
    ensures
        sorted(entries.insert(i, (key, value))),
        !to_map(entries).contains_key(key),
        to_map(entries.insert(i, (key, value))) == to_map(entries).insert(key, value),
{
    let after = entries.insert(i, (key, value));
    assert forall|j: int| 0 <= j < after.len() implies #[trigger] after[j] == (if j < i {
        entries[j]
    } else if j == i {
        (key, value)
    } else {
        entries[j - 1]
    }) by {}
    assert forall|a: int, b: int| 0 <= a < b < after.len() implies key_lt(
        #[trigger] after[a].0,
        #[trigger] after[b].0,
    ) by {}
    lemma_key_lt_irreflexive(key);
    lemma_sorted_distinct(entries);
    lemma_map_insert(entries, i, key, value);
}

/// Taking an entry out keeps entries sorted and takes its key out of the map.
pub proof fn lemma_remove<V>(entries: Seq<(Seq<u8>, V)>, i: int)
    requires
        sorted(entries),
        0 <= i < entries.len(),
    ensures
        sorted(entries.remove(i)),
        to_map(entries.remove(i)) == to_map(entries).remove(entries[i].0),
{
    let after = entries.remove(i);
    assert forall|j: int| 0 <= j < after.len() implies #[trigger] after[j] == (if j < i {
        entries[j]
    } else {
        entries[j + 1]
    }) by {}
    assert forall|a: int, b: int| 0 <= a < b < after.len() implies key_lt(
        #[trigger] after[a].0,
        #[trigger] after[b].0,
    ) by {}
    lemma_sorted_distinct(entries);
    lemma_map_remove(entries, i);
}

/// A run of sorted entries that holds exactly those in a range spells out the part of the map in
/// that range.
pub proof fn lemma_subrange<V>(
    entries: Seq<(Seq<u8>, V)>,
    start: int,
    end: int,
    bounds: (Bound<Seq<u8>>, Bound<Seq<u8>>),
)
    requires
        sorted(entries),
        0 <= start <= end <= entries.len(),
        forall|i: int|
            0 <= i < entries.len() ==> (start <= i < end <==> admits(
                bounds,
                #[trigger] entries[i].0,
            )),
    ensures
        sorted(entries.subrange(start, end)),
        to_map(entries.subrange(start, end)) == within(to_map(entries), bounds),
{
    let part = entries.subrange(start, end);
    assert forall|a: int, b: int| 0 <= a < b < part.len() implies key_lt(
        #[trigger] part[a].0,
        #[trigger] part[b].0,
    ) by {
        assert(part[a] == entries[start + a] && part[b] == entries[start + b]);
    }
    lemma_sorted_distinct(entries);
    lemma_sorted_distinct(part);
    lemma_to_map(entries);
    lemma_to_map(part);
    let expected = within(to_map(entries), bounds);
    assert forall|k: Seq<u8>| to_map(part).contains_key(k) <==> expected.contains_key(k) by {
        if to_map(part).contains_key(k) {
            let p = place_of(part, k);
            assert(entries[start + p] == part[p]);
        }
        if expected.contains_key(k) {
            let p = place_of(entries, k);
            assert(part[p - start] == entries[p]);
        }
    }
    assert forall|k: Seq<u8>| #[trigger] to_map(part).contains_key(k) implies to_map(part)[k]
        == expected[k] by {
        let p = place_of(part, k);
        assert(entries[start + p] == part[p]);
    }
    assert(to_map(part) =~= expected);
}

/// Sorted entries are told apart by their maps: the map fixes the sequence.
pub proof fn lemma_sorted_unique<V>(a: Seq<(Seq<u8>, V)>, b: Seq<(Seq<u8>, V)>)
    requires
        sorted(a),
        sorted(b),
        to_map(a) == to_map(b),
    ensures
        a == b,
    decreases a.len(),
{
    lemma_sorted_distinct(a);
    lemma_sorted_distinct(b);
    lemma_to_map(a);
    lemma_to_map(b);
    if a.len() == 0 {
        if b.len() > 0 {
            assert(to_map(a).contains_key(b[0].0));
        }
        assert(a =~= b);
    } else {
        let key = a.last().0;
        assert(to_map(b).contains_key(a[a.len() - 1].0));
        let j = place_of(b, key);
        if j < b.len() - 1 {
            let later = b.last().0;
            assert(key_lt(b[j].0, b[b.len() - 1].0));
            assert(to_map(a).contains_key(b[b.len() - 1].0));
            let i = place_of(a, later);
            lemma_key_lt_irreflexive(key);
            if i < a.len() - 1 {
                assert(key_lt(a[i].0, a[a.len() - 1].0));
                lemma_key_lt_asymmetric(key, later);
            }
            assert(false);
        }
        assert(b.last() == a.last());
        lemma_remove(a, a.len() - 1);
        lemma_remove(b, b.len() - 1);
        assert(a.remove(a.len() - 1) =~= a.drop_last());
        assert(b.remove(b.len() - 1) =~= b.drop_last());
        lemma_sorted_unique(a.drop_last(), b.drop_last());
        assert(a =~= a.drop_last().push(a.last()));
        assert(b =~= b.drop_last().push(b.last()));
    }
}

/// The items in reverse order.
pub fn reversed<T>(items: Vec<T>) -> (stack: Vec<T>)
    ensures
        stack@ == items@.reverse(),
{
    let ghost all = items@;
    let mut items = items;
    let mut stack: Vec<T> = Vec::new();
    loop
        invariant
            items@.len() <= all.len(),
            items@ == all.take(items@.len() as int),
            stack@ == all.skip(items@.len() as int).reverse(),
        ensures
            stack@ == all.reverse(),
        decreases items@.len(),
    {
        match items.pop() {
            Some(item) => {
                stack.push(item);
                assert(items@ =~= all.take(items@.len() as int));
                assert(stack@ =~= all.skip(items@.len() as int).reverse());
            },
            None => {
                assert(all.skip(0) =~= all);
                break ;
            },
        }
    }
    stack
}

/// The map of entries with ascending keys has what the entries have: each value under its key, and
/// nothing else.
pub proof fn lemma_map_has_the_entries<V>(entries: Seq<(Seq<u8>, V)>, key: Seq<u8>, value: V)
    requires
        forall|i: int, j: int|
            0 <= i < j < entries.len() ==> key_lt(
                #[trigger] entries[i].0,
                #[trigger] entries[j].0,
            ),
    ensures
        sorted(entries),
        to_map(entries).contains_pair(key, value) <==> entries.contains((key, value)),
        to_map(entries).contains_key(key) <==> exists|i: int|
            0 <= i < entries.len() && #[trigger] entries[i].0 == key,
{
    lemma_sorted_distinct(entries);
    lemma_to_map(entries);
    if to_map(entries).contains_pair(key, value) {
        assert(entries[place_of(entries, key)] == (key, value));
    }
    if entries.contains((key, value)) {
        let i = choose|i: int| 0 <= i < entries.len() && entries[i] == (key, value);
        assert(entries[i].0 == key);
    }
}

/// The part of a map in a range has the map's values under the keys of the range.
pub proof fn lemma_part_has_the_keys_of_the_range<V>(
    map: Map<Seq<u8>, V>,
    bounds: (Bound<Seq<u8>>, Bound<Seq<u8>>),
    key: Seq<u8>,
    value: V,
)
    ensures
        within(map, bounds).contains_key(key) <==> map.contains_key(key) && admits(bounds, key),
        within(map, bounds).contains_pair(key, value) <==> map.contains_pair(key, value) && admits(
            bounds,
            key,
        ),
{
}

/// Turning items round puts the first last, and keeps each.
pub proof fn lemma_reversed_turns_round<T>(items: Vec<T>, stack: Vec<T>)
    requires
        call_ensures(reversed::<T>, (items,), stack),
    ensures
        stack@.len() == items@.len(),
        forall|i: int|
            0 <= i < items@.len() ==> #[trigger] stack@[i] == items@[items@.len() - 1 - i],
{
}

} // verus!
