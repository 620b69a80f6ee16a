//! A cache that knows which of its entries were used last.

use vstd::prelude::*;
use crate::entries::{
    distinct, holds_key, lemma_map_insert, lemma_map_remove, lemma_map_update, lemma_to_map, lookup,
    place_of, to_map,
};
use crate::key::{compare_keys, KeyOrder};

verus! {

/// A map whose entries are ordered by their last use. It grows without limit until it is told to
/// shrink to its target capacity.
#[derive(Debug)]
pub struct EvictableHashMap<V> {
    /// The entries, the one used last first.
    recent: Vec<(Vec<u8>, V)>,
    target_cap: usize,
}

/// The entries with the one under `key` taken out.
pub open spec fn without<V>(entries: Seq<(Seq<u8>, V)>, key: Seq<u8>) -> Seq<(Seq<u8>, V)> {
    if holds_key(entries, key) {
        entries.remove(place_of(entries, key))
    } else {
        entries
    }
}

/// The entries after the one under `key` was used: it is now the first.
pub open spec fn used<V>(entries: Seq<(Seq<u8>, V)>, key: Seq<u8>) -> Seq<(Seq<u8>, V)> {
    if holds_key(entries, key) {
        without(entries, key).insert(0, entries[place_of(entries, key)])
    } else {
        entries
    }
}

/// The entries after `value` was put under `key`: it is now the first.
pub open spec fn put_first<V>(
    entries: Seq<(Seq<u8>, V)>,
    key: Seq<u8>,
    value: V,
) -> Seq<(Seq<u8>, V)> {
    without(entries, key).insert(0, (key, value))
}

/// The entries that stay when only `cap` can: those used last.
pub open spec fn kept<V>(entries: Seq<(Seq<u8>, V)>, cap: nat) -> Seq<(Seq<u8>, V)> {
    if entries.len() <= cap {
        entries
    } else {
        entries.take(cap as int)
    }
}

/// The bytes that `slots` slots for entries take up. What the entries themselves own elsewhere is
/// not counted.
pub open spec fn slot_bytes<V>(slots: nat) -> nat {
    slots * vstd::layout::size_of::<(Vec<u8>, V)>()
}

/// Counts the bytes that `slots` slots for entries take up.
pub fn bytes_of_slots<V>(slots: usize) -> (bytes: usize)
    requires
        slot_bytes::<V>(slots as nat) <= usize::MAX,
    ensures
        bytes == slot_bytes::<V>(slots as nat),
{
    let size: usize = core::mem::size_of::<(Vec<u8>, V)>();
    assert(slots * size == slot_bytes::<V>(slots as nat));
    slots * size
}

/// Reads with `Vec::capacity` how many elements a vector has room for. The contract claims what std
/// documents: there is room for the elements that are there, and no allocation is larger than
/// `isize::MAX` bytes. How much room there is beyond that is up to the allocator.
#[verifier::external_body]
fn slots_of<T>(items: &Vec<T>) -> (slots: usize)
    ensures
        items@.len() <= slots,
        slots * vstd::layout::size_of::<T>() <= isize::MAX,
{
    items.capacity()
}

/// Taking an entry out keeps the keys distinct and takes the key out of the map.
proof fn lemma_without<V>(entries: Seq<(Seq<u8>, V)>, key: Seq<u8>)
    requires
        distinct(entries),
    ensures
        distinct(without(entries, key)),
        !holds_key(without(entries, key), key),
        to_map(without(entries, key)) == to_map(entries).remove(key),
{
    lemma_to_map(entries);
    if holds_key(entries, key) {
        assert(to_map(entries).contains_key(key));
        lemma_map_remove(entries, place_of(entries, key));
    } else {
        assert(to_map(entries) =~= to_map(entries).remove(key));
    }
}

/// Using an entry changes no value.
pub proof fn lemma_used<V>(entries: Seq<(Seq<u8>, V)>, key: Seq<u8>)
    requires
        distinct(entries),
    ensures
        distinct(used(entries, key)),
        to_map(used(entries, key)) == to_map(entries),
        holds_key(entries, key) ==> used(entries, key)[0] == (key, to_map(entries)[key]),
{
    if holds_key(entries, key) {
        lemma_to_map(entries);
        lemma_without(entries, key);
        let value = entries[place_of(entries, key)].1;
        assert(to_map(entries).contains_key(key));
        lemma_map_insert(without(entries, key), 0, key, value);
        assert(to_map(used(entries, key)) =~= to_map(entries));
    }
}

/// Putting a value under a key changes no other value.
pub proof fn lemma_put_first<V>(entries: Seq<(Seq<u8>, V)>, key: Seq<u8>, value: V)
    requires
        distinct(entries),
    ensures
        distinct(put_first(entries, key, value)),
        to_map(put_first(entries, key, value)) == to_map(entries).insert(key, value),
{
    lemma_without(entries, key);
    lemma_map_insert(without(entries, key), 0, key, value);
    assert(to_map(entries).remove(key).insert(key, value) =~= to_map(entries).insert(key, value));
}

impl<V> View for EvictableHashMap<V> {
    type V = Map<Seq<u8>, V>;

    open spec fn view(&self) -> Map<Seq<u8>, V> {
        to_map(self.entries())
    }
}

impl<V> EvictableHashMap<V> {
    /// The entries, the one used last first.
    pub closed spec fn entries(&self) -> Seq<(Seq<u8>, V)> {
        Seq::new(self.recent@.len(), |i: int| (self.recent@[i].0@, self.recent@[i].1))
    }

    /// The number of entries to which the map shrinks.
    pub closed spec fn capacity(&self) -> usize {
        self.target_cap
    }

    /// No key occurs twice.
    pub open spec fn wf(&self) -> bool {
        distinct(self.entries())
    }

    /// An empty map that is to shrink to `target_cap` entries.
    pub fn new(target_cap: usize) -> (map: Self)
        ensures
            map.wf(),
            map.entries() == Seq::<(Seq<u8>, V)>::empty(),
            map@ == Map::<Seq<u8>, V>::empty(),
            map.capacity() == target_cap,
    {
        let map = EvictableHashMap { recent: Vec::new(), target_cap };
        assert(map.entries() =~= Seq::<(Seq<u8>, V)>::empty());
        assert(map@ =~= Map::<Seq<u8>, V>::empty());
        map
    }

    /// The number of entries to which the map shrinks.
    pub fn target_cap(&self) -> (target_cap: usize)
        ensures
            target_cap == self.capacity(),
    {
        self.target_cap
    }

    /// The number of entries.
    pub fn len(&self) -> (len: usize)
        ensures
            len == self.entries().len(),
    {
        self.recent.len()
    }

    /// The bytes that the map's own storage takes up: those of its slots, whether or not they are
    /// filled.
    pub fn bytes_in_use(&self) -> (bytes: usize)
        ensures
            self.entries().len() * vstd::layout::size_of::<(Vec<u8>, V)>() <= bytes,
            exists|slots: nat| self.entries().len() <= slots && bytes == #[trigger] slot_bytes::<V>(
                slots,
            ),
            bytes <= isize::MAX,
    {
        let slots: usize = slots_of(&self.recent);
        proof {
            vstd::arithmetic::mul::lemma_mul_inequality(
                self.entries().len() as int,
                slots as int,
                vstd::layout::size_of::<(Vec<u8>, V)>() as int,
            );
        }
        bytes_of_slots::<V>(slots)
    }

    /// The place of `key`, if it is there.
    fn position(&self, key: &[u8]) -> (place: Option<usize>)
        requires
            self.wf(),
        ensures
            match place {
                Some(i) => {
                    &&& i < self.entries().len()
                    &&& self.entries()[i as int].0 == key@
                    &&& holds_key(self.entries(), key@)
                    &&& i == place_of(self.entries(), key@)
                },
                None => !holds_key(self.entries(), key@),
            },
    {
        let mut i: usize = 0;
        while i < self.recent.len()
            invariant
                self.wf(),
                i <= self.recent@.len(),
                self.entries().len() == self.recent@.len(),
                forall|j: int| 0 <= j < i ==> #[trigger] self.entries()[j].0 != key@,
            decreases self.recent@.len() - i,
        {
            if compare_keys(&self.recent[i].0, key) == KeyOrder::Equal {
                proof {
                    lemma_to_map(self.entries());
                    assert(self.entries()[i as int].0 == key@);
                }
                return Some(i);
            }
            i = i + 1;
        }
        None
    }

    /// Whether `key` is there. This does not count as a use.
    pub fn contains(&self, key: &[u8]) -> (contains: bool)
        requires
            self.wf(),
        ensures
            contains == self@.contains_key(key@),
    {
        match self.position(key) {
            Some(_) => true,
            None => false,
        }
    }

    /// Makes the entry under `key` the one used last, and tells whether there is one.
    fn touch(&mut self, key: &[u8]) -> (found: bool)
        requires
            old(self).wf(),
        ensures
            final(self).wf(),
            final(self).entries() == used(old(self).entries(), key@),
            final(self)@ == old(self)@,
            final(self).capacity() == old(self).capacity(),
            found == holds_key(old(self).entries(), key@),
            !found ==> *final(self) == *old(self),
            found ==> final(self).entries().len() > 0 && final(self).entries()[0] == (
                key@,
                old(self)@[key@],
            ),
    {
        let ghost before = self.entries();
        proof {
            lemma_used(before, key@);
        }
        match self.position(key) {
            Some(i) => {
                let entry = self.recent.remove(i);
                self.recent.insert(0, entry);
                assert(self.entries() =~= used(before, key@));
                true
            },
            None => false,
        }
    }

    /// The value under `key`, which is thereby used.
    pub fn get(&mut self, key: &[u8]) -> (value: Option<&V>)
        requires
            old(self).wf(),
        ensures
            final(self).wf(),
            final(self).entries() == used(old(self).entries(), key@),
            final(self)@ == old(self)@,
            final(self).capacity() == old(self).capacity(),
            match value {
                Some(value) => lookup(old(self)@, key@) == Some(*value),
                None => lookup(old(self)@, key@) is None,
            },
    {
        if self.touch(key) {
            assert(self.entries()[0].1 == self.recent@[0].1);
            Some(&self.recent[0].1)
        } else {
            None
        }
    }

    /// The value under `key`, to be changed. The key is thereby used.
    pub fn get_mut(&mut self, key: &[u8]) -> (value: Option<&mut V>)
        requires
            old(self).wf(),
        ensures
            final(self).wf(),
            final(self).capacity() == old(self).capacity(),
            match value {
                Some(value) => {
                    &&& lookup(old(self)@, key@) == Some(*value)
                    &&& final(self).entries() == used(old(self).entries(), key@).update(
                        0,
                        (key@, *final(value)),
                    )
                    &&& final(self)@ == old(self)@.insert(key@, *final(value))
                },
                None => {
                    &&& lookup(old(self)@, key@) is None
                    &&& *final(self) == *old(self)
                },
            },
    {
        if self.touch(key) {
            let ghost before = self.entries();
            assert(before[0].1 == self.recent@[0].1);
            let ghost slots = self.recent@;
            proof {
                assert forall|map: Self, slot: (Vec<u8>, V)|
                    map.recent@ == #[trigger] slots.update(0, slot) && slot.0
                        == slots[0].0 implies {
                    &&& #[trigger] map.entries() == before.update(0, (key@, slot.1))
                    &&& map.wf()
                    &&& map@ == to_map(before).insert(key@, slot.1)
                } by {
                    lemma_map_update(before, 0, slot.1);
                    assert(map.entries() =~= before.update(0, (key@, slot.1)));
                }
            }
            let value = &mut self.recent[0].1;
            Some(value)
        } else {
            None
        }
    }

    /// Puts `value` under `key`, in the place of what is there. The key is thereby used.
    pub fn put(&mut self, key: Vec<u8>, value: V)
        requires
            old(self).wf(),
        ensures
            final(self).wf(),
            final(self).entries() == put_first(old(self).entries(), key@, value),
            final(self)@ == old(self)@.insert(key@, value),
            final(self).capacity() == old(self).capacity(),
    {
        let ghost before = self.entries();
        let ghost at = key@;
        proof {
            lemma_put_first(before, at, value);
        }
        match self.position(&key) {
            Some(i) => {
                let _ = self.recent.remove(i);
            },
            None => {},
        }
        self.recent.insert(0, (key, value));
        assert(self.entries() =~= put_first(before, at, value));
    }

    /// Drops the entries that were not used for longest, until no more than the target capacity
    /// are left. Those that stay keep their values.
    pub fn evict_to_target_cap(&mut self)
        requires
            old(self).wf(),
        ensures
            final(self).wf(),
            final(self).capacity() == old(self).capacity(),
            final(self).entries() == kept(old(self).entries(), old(self).capacity() as nat),
            final(self)@.submap_of(old(self)@),
    {
        self.recent.truncate(self.target_cap);
        proof {
            let before = old(self).entries();
            let after = self.entries();
            assert(after =~= kept(before, old(self).capacity() as nat));
            assert forall|i: int, j: int| 0 <= i < j < after.len() implies #[trigger] after[i].0
                != #[trigger] after[j].0 by {
                assert(after[i] == before[i] && after[j] == before[j]);
            }
            lemma_to_map(before);
            lemma_to_map(after);
            assert forall|key: Seq<u8>| #[trigger]
                to_map(after).contains_key(key) implies to_map(before).contains_key(key)
                && to_map(before)[key] == to_map(after)[key] by {
                let i = place_of(after, key);
                assert(before[i] == after[i]);
            }
        }
    }
}

/// The map has what its entries have.
pub proof fn lemma_map_is_its_entries<V>(map: EvictableHashMap<V>, key: Seq<u8>, value: V)
    requires
        map.wf(),
    ensures
        map@.contains_pair(key, value) <==> map.entries().contains((key, value)),
        map@.contains_key(key) <==> exists|i: int|
            0 <= i < map.entries().len() && #[trigger] map.entries()[i].0 == key,
{
    let entries = map.entries();
    lemma_to_map(entries);
    if map@.contains_pair(key, value) {
        assert(entries[place_of(entries, key)] == (key, value));
    }
    if entries.contains((key, value)) {
        let i = choose|i: int| 0 <= i < entries.len() && entries[i] == (key, value);
        assert(entries[i].0 == key);
    }
}

/// The place of a key among distinct ones is the one where it stands, and using it or putting a
/// value under it moves it from there to the front.
pub proof fn lemma_place_is_unique<V>(entries: Seq<(Seq<u8>, V)>, i: int)
    requires
        0 <= i < entries.len(),
        forall|a: int, b: int|
            0 <= a < b < entries.len() ==> #[trigger] entries[a].0 != #[trigger] entries[b].0,
    ensures
        holds_key(entries, entries[i].0),
        place_of(entries, entries[i].0) == i,
        used(entries, entries[i].0) == seq![entries[i]] + entries.remove(i),
        forall|value: V| #[trigger]
            put_first(entries, entries[i].0, value) == seq![(entries[i].0, value)]
                + entries.remove(i),
{
    lemma_to_map(entries);
    assert(used(entries, entries[i].0) =~= seq![entries[i]] + entries.remove(i));
    assert forall|value: V| #[trigger]
        put_first(entries, entries[i].0, value) == seq![(entries[i].0, value)] + entries.remove(
            i,
        ) by {
        assert(put_first(entries, entries[i].0, value) =~= seq![(entries[i].0, value)]
            + entries.remove(i));
    }
}

/// Reading a key that is there finds its value and moves it to the front; the others keep their
/// values and their order. Reading one that is not there finds nothing and changes nothing.
pub proof fn lemma_get_moves_to_the_front<V>(
    map: &mut EvictableHashMap<V>,
    key: &[u8],
    value: Option<&V>,
)
    requires
        forall|a: int, b: int|
            0 <= a < b < old(map).entries().len() ==> #[trigger] old(map).entries()[a].0
                != #[trigger] old(map).entries()[b].0,
        call_ensures(EvictableHashMap::<V>::get, (map, key), value),
    ensures
        final(map).capacity() == old(map).capacity(),
        forall|i: int|
            0 <= i < old(map).entries().len() && #[trigger] old(map).entries()[i].0 == key@ ==> {
                &&& value == Some(&old(map).entries()[i].1)
                &&& final(map).entries() == seq![old(map).entries()[i]] + old(
                    map,
                ).entries().remove(i)
            },
        (forall|i: int|
            0 <= i < old(map).entries().len() ==> #[trigger] old(map).entries()[i].0 != key@) ==> {
            &&& value is None
            &&& final(map).entries() == old(map).entries()
        },
{
    let entries = old(map).entries();
    lemma_to_map(entries);
    assert forall|i: int|
        0 <= i < entries.len() && #[trigger] entries[i].0 == key@ implies {
        &&& value == Some(&entries[i].1)
        &&& final(map).entries() == seq![entries[i]] + entries.remove(i)
    } by {
        lemma_place_is_unique(entries, i);
    }
}

/// A value that is changed in place moves to the front with its key; the others keep their values
/// and their order. Where the key is not there, nothing changes.
pub proof fn lemma_get_mut_moves_to_the_front<V>(
    map: &mut EvictableHashMap<V>,
    key: &[u8],
    value: Option<&mut V>,
)
    requires
        forall|a: int, b: int|
            0 <= a < b < old(map).entries().len() ==> #[trigger] old(map).entries()[a].0
                != #[trigger] old(map).entries()[b].0,
        call_ensures(EvictableHashMap::<V>::get_mut, (map, key), value),
    ensures
        final(map).capacity() == old(map).capacity(),
        forall|i: int|
            0 <= i < old(map).entries().len() && #[trigger] old(map).entries()[i].0 == key@ ==> {
                &&& value is Some
                &&& *value->Some_0 == old(map).entries()[i].1
                &&& final(map).entries() == seq![(key@, *final(value->Some_0))] + old(
                    map,
                ).entries().remove(i)
            },
        (forall|i: int|
            0 <= i < old(map).entries().len() ==> #[trigger] old(map).entries()[i].0 != key@) ==> {
            &&& value is None
            &&& final(map).entries() == old(map).entries()
        },
{
    let entries = old(map).entries();
    lemma_to_map(entries);
    assert forall|i: int|
        0 <= i < entries.len() && #[trigger] entries[i].0 == key@ implies {
        &&& value is Some
        &&& *value->Some_0 == entries[i].1
        &&& final(map).entries() == seq![(key@, *final(value->Some_0))] + entries.remove(i)
    } by {
        lemma_place_is_unique(entries, i);
        assert(final(map).entries() =~= seq![(key@, *final(value->Some_0))] + entries.remove(i));
    }
}

/// A value that is put in goes to the front, in the place of what its key had; the others keep their
/// values and their order, and there is one more entry only where the key is new.
pub proof fn lemma_put_goes_to_the_front<V>(
    map: &mut EvictableHashMap<V>,
    key: Vec<u8>,
    value: V,
)
    requires
        forall|a: int, b: int|
            0 <= a < b < old(map).entries().len() ==> #[trigger] old(map).entries()[a].0
                != #[trigger] old(map).entries()[b].0,
        call_ensures(EvictableHashMap::<V>::put, (map, key, value), ()),
    ensures
        final(map).capacity() == old(map).capacity(),
        forall|i: int|
            0 <= i < old(map).entries().len() && #[trigger] old(map).entries()[i].0 == key@
                ==> final(map).entries() == seq![(key@, value)] + old(map).entries().remove(i),
        (forall|i: int|
            0 <= i < old(map).entries().len() ==> #[trigger] old(map).entries()[i].0 != key@)
            ==> final(map).entries() == seq![(key@, value)] + old(map).entries(),
{
    let entries = old(map).entries();
    assert forall|i: int|
        0 <= i < entries.len() && #[trigger] entries[i].0 == key@ implies final(map).entries()
        == seq![(key@, value)] + entries.remove(i) by {
        lemma_place_is_unique(entries, i);
    }
    if forall|i: int| 0 <= i < entries.len() ==> #[trigger] entries[i].0 != key@ {
        assert(final(map).entries() =~= seq![(key@, value)] + entries);
    }
}

/// Shrinking drops entries from the back, those that were not used for longest, until no more than
/// the capacity are left, and drops none that can stay.
pub proof fn lemma_evict_drops_from_the_back<V>(map: &mut EvictableHashMap<V>)
    requires
        call_ensures(EvictableHashMap::<V>::evict_to_target_cap, (map,), ()),
    ensures
        final(map).capacity() == old(map).capacity(),
        final(map).entries().len() == if old(map).entries().len() <= old(map).capacity() {
            old(map).entries().len()
        } else {
            old(map).capacity() as nat
        },
        forall|i: int|
            0 <= i < final(map).entries().len() ==> #[trigger] final(map).entries()[i] == old(
                map,
            ).entries()[i],
{
}

/// What a map tells of itself: how many entries it has, whether a key is among them, and to how many
/// it shrinks. A new one has none.
pub proof fn lemma_map_tells_what_it_has<V>(
    map: EvictableHashMap<V>,
    key: &[u8],
    contains: bool,
    len: usize,
    cap: usize,
    target_cap: usize,
    new: EvictableHashMap<V>,
)
    requires
        call_ensures(EvictableHashMap::<V>::contains, (&map, key), contains),
        call_ensures(EvictableHashMap::<V>::len, (&map,), len),
        call_ensures(EvictableHashMap::<V>::target_cap, (&map,), cap),
        call_ensures(EvictableHashMap::<V>::new, (target_cap,), new),
    ensures
        contains <==> exists|i: int|
            0 <= i < map.entries().len() && #[trigger] map.entries()[i].0 == key@,
        len == map.entries().len(),
        cap == map.capacity(),
        new.entries().len() == 0,
        new.capacity() == target_cap,
{
}

/// The storage of a map is that of whole slots, each with room for a key and a value, and of no
/// fewer than it has entries.
pub proof fn lemma_storage_is_in_slots<V>(
    map: EvictableHashMap<V>,
    bytes: usize,
    slots: usize,
    bytes_of_these: usize,
)
    requires
        call_ensures(EvictableHashMap::<V>::bytes_in_use, (&map,), bytes),
        call_ensures(bytes_of_slots::<V>, (slots,), bytes_of_these),
    ensures
        exists|n: nat|
            map.entries().len() <= n && bytes == #[trigger] (n * vstd::layout::size_of::<
                (Vec<u8>, V),
            >()),
        bytes_of_these == slots * vstd::layout::size_of::<(Vec<u8>, V)>(),
{
    let n = choose|n: nat| map.entries().len() <= n && bytes == #[trigger] slot_bytes::<V>(n);
    assert(bytes == n * vstd::layout::size_of::<(Vec<u8>, V)>());
}

} // verus!
