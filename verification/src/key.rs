//! Byte-string keys: their order, ranges over them, and the prefix that a table owns.

use vstd::prelude::*;

verus! {

/// `a` and `b` agree on their first `i` bytes.
pub open spec fn agree_up_to(a: Seq<u8>, b: Seq<u8>, i: int) -> bool {
    &&& 0 <= i <= a.len()
    &&& i <= b.len()
    &&& forall|j: int| 0 <= j < i ==> a[j] == b[j]
}

/// `i` is the first place where `a` and `b` part, and `a` comes first there.
pub open spec fn parts_below(a: Seq<u8>, b: Seq<u8>, i: int) -> bool {
    &&& agree_up_to(a, b, i)
    &&& i < b.len()
    &&& i == a.len() || a[i] < b[i]
}

/// The lexicographic order of keys.
pub open spec fn key_lt(a: Seq<u8>, b: Seq<u8>) -> bool {
    exists|i: int| parts_below(a, b, i)
}

pub open spec fn key_le(a: Seq<u8>, b: Seq<u8>) -> bool {
    a == b || key_lt(a, b)
}

/// No key comes before itself.
pub proof fn lemma_key_lt_irreflexive(a: Seq<u8>)
    ensures
        !key_lt(a, a),
{
}

/// The order of keys is transitive.
pub proof fn lemma_key_lt_transitive(a: Seq<u8>, b: Seq<u8>, c: Seq<u8>)
    requires
        key_lt(a, b),
        key_lt(b, c),
    ensures
        key_lt(a, c),
{
    let i = choose|i: int| parts_below(a, b, i);
    let j = choose|j: int| parts_below(b, c, j);
    if i <= j {
        assert(parts_below(a, c, i));
    } else {
        assert(parts_below(a, c, j));
    }
}

/// Of two keys not both can come before the other.
pub proof fn lemma_key_lt_asymmetric(a: Seq<u8>, b: Seq<u8>)
    requires
        key_lt(a, b),
    ensures
        !key_lt(b, a),
        a != b,
{
    if key_lt(b, a) {
        lemma_key_lt_transitive(a, b, a);
    }
}

/// Two keys that agree on their first `i` bytes are equal, or one comes before the other.
proof fn lemma_parting(a: Seq<u8>, b: Seq<u8>, i: int)
    requires
        agree_up_to(a, b, i),
    ensures
        a == b || key_lt(a, b) || key_lt(b, a),
    decreases a.len() - i,
{
    if i == a.len() {
        if i == b.len() {
            assert(a =~= b);
        } else {
            assert(parts_below(a, b, i));
        }
    } else if i == b.len() {
        assert(parts_below(b, a, i));
    } else if a[i] < b[i] {
        assert(parts_below(a, b, i));
    } else if b[i] < a[i] {
        assert(parts_below(b, a, i));
    } else {
        lemma_parting(a, b, i + 1);
    }
}

/// Any two keys are equal, or one comes before the other.
pub proof fn lemma_key_lt_total(a: Seq<u8>, b: Seq<u8>)
    ensures
        a == b || key_lt(a, b) || key_lt(b, a),
{
    lemma_parting(a, b, 0);
}

/// Putting the same prefix before two keys keeps their order.
pub proof fn lemma_key_lt_prefixed(prefix: Seq<u8>, a: Seq<u8>, b: Seq<u8>)
    ensures
        key_lt(prefix + a, prefix + b) <==> key_lt(a, b),
        prefix + a == prefix + b <==> a == b,
{
    if key_lt(a, b) {
        let i = choose|i: int| parts_below(a, b, i);
        assert(parts_below(prefix + a, prefix + b, prefix.len() + i));
    }
    if key_lt(prefix + a, prefix + b) {
        let i = choose|i: int| parts_below(prefix + a, prefix + b, i);
        assert(i >= prefix.len()) by {
            if i < prefix.len() {
                assert((prefix + a)[i] == (prefix + b)[i]);
            }
        }
        let j = i - prefix.len();
        assert forall|l: int| 0 <= l < j implies a[l] == b[l] by {
            assert((prefix + a)[prefix.len() + l] == (prefix + b)[prefix.len() + l]);
        }
        assert(parts_below(a, b, j));
    }
    if prefix + a == prefix + b {
        assert(a =~= (prefix + a).skip(prefix.len() as int));
        assert(b =~= (prefix + b).skip(prefix.len() as int));
    }
}

/// How one key lies to another.
#[derive(Clone, Copy, Debug, PartialEq, Eq, Structural)]
pub enum KeyOrder {
    Less,
    Equal,
    Greater,
}

/// Where `a` lies to `b` in the order of keys.
pub open spec fn key_order(a: Seq<u8>, b: Seq<u8>) -> KeyOrder {
    if key_lt(a, b) {
        KeyOrder::Less
    } else if a == b {
        KeyOrder::Equal
    } else {
        KeyOrder::Greater
    }
}

/// Compares two keys byte by byte.
pub fn compare_keys(a: &[u8], b: &[u8]) -> (order: KeyOrder)
    ensures
        order == key_order(a@, b@),
        order is Less <==> key_lt(a@, b@),
        order is Equal <==> a@ == b@,
        order is Greater <==> key_lt(b@, a@),
{
    let mut i: usize = 0;
    while i < a.len() && i < b.len()
        invariant
            agree_up_to(a@, b@, i as int),
        decreases a.len() - i,
    {
        if a[i] < b[i] {
            proof {
                assert(parts_below(a@, b@, i as int));
                lemma_key_lt_asymmetric(a@, b@);
            }
            return KeyOrder::Less;
        }
        if b[i] < a[i] {
            proof {
                assert(parts_below(b@, a@, i as int));
                lemma_key_lt_asymmetric(b@, a@);
            }
            return KeyOrder::Greater;
        }
        i = i + 1;
    }
    if i < b.len() {
        proof {
            assert(parts_below(a@, b@, i as int));
            lemma_key_lt_asymmetric(a@, b@);
        }
        KeyOrder::Less
    } else if i < a.len() {
        proof {
            assert(parts_below(b@, a@, i as int));
            lemma_key_lt_asymmetric(b@, a@);
        }
        KeyOrder::Greater
    } else {
        proof {
            assert(a@ =~= b@);
            lemma_key_lt_irreflexive(a@);
        }
        KeyOrder::Equal
    }
}

/// A copy of a key.
pub fn copy_key(key: &[u8]) -> (copy: Vec<u8>)
    ensures
        copy@ == key@,
{
    let mut copy: Vec<u8> = Vec::new();
    copy.extend_from_slice(key);
    assert(copy@ =~= key@);
    copy
}

/// `key` starts with `prefix`.
pub open spec fn has_prefix(key: Seq<u8>, prefix: Seq<u8>) -> bool {
    &&& prefix.len() <= key.len()
    &&& forall|i: int| 0 <= i < prefix.len() ==> key[i] == prefix[i]
}

/// The least key that comes after every key with this prefix: the last byte that can grow grows by
/// one, and what follows it is cut off. There is none where every byte is `0xff`.
pub open spec fn next_key_of(prefix: Seq<u8>) -> Option<Seq<u8>>
    decreases prefix.len(),
{
    if prefix.len() == 0 {
        None
    } else if prefix.last() < 0xff {
        Some(prefix.drop_last().push((prefix.last() + 1) as u8))
    } else {
        next_key_of(prefix.drop_last())
    }
}

/// The keys from `prefix` on that come before [`next_key_of`] it are exactly those that start with
/// `prefix`; where there is no next key, they are all the keys from `prefix` on.
pub proof fn lemma_prefix_is_a_range(prefix: Seq<u8>, key: Seq<u8>)
    ensures
        has_prefix(key, prefix) <==> key_le(prefix, key) && match next_key_of(prefix) {
            Some(next) => key_lt(key, next),
            None => true,
        },
    decreases prefix.len(),
{
    if has_prefix(key, prefix) {
        if key.len() == prefix.len() {
            assert(key =~= prefix);
        } else {
            assert(parts_below(prefix, key, prefix.len() as int));
        }
    }
    if prefix.len() == 0 {
        assert(has_prefix(key, prefix));
    } else {
        let n = prefix.len() - 1;
        let shorter = prefix.drop_last();
        if prefix.last() < 0xff {
            let next = next_key_of(prefix).unwrap();
            if has_prefix(key, prefix) {
                assert(parts_below(key, next, n));
            }
            if key_le(prefix, key) && key_lt(key, next) && key != prefix {
                let i = choose|i: int| parts_below(prefix, key, i);
                let j = choose|j: int| parts_below(key, next, j);
                if i < n {
                    if j < i {
                        assert(key[j] == prefix[j]);
                    } else if j == i {
                        assert(next[i] == prefix[i]);
                    } else {
                        assert(key[i] == next[i]);
                    }
                    assert(false);
                }
                if i == n {
                    if j < n {
                        assert(key[j] == prefix[j]);
                        assert(false);
                    }
                    assert(j == n);
                    assert(false);
                }
            }
        } else {
            lemma_prefix_is_a_range(shorter, key);
            if has_prefix(key, prefix) {
                assert(has_prefix(key, shorter)) by {
                    assert forall|i: int| 0 <= i < shorter.len() implies key[i] == shorter[i] by {
                        assert(key[i] == prefix[i]);
                    }
                }
            }
            if key_le(prefix, key) && !has_prefix(key, prefix) {
                let i = choose|i: int| parts_below(prefix, key, i);
                assert(i < prefix.len());
                assert(prefix[i] < key[i]);
                assert(i < n);
                assert(parts_below(shorter, key, i));
                assert(key[i] != shorter[i]);
                assert(!has_prefix(key, shorter));
            }
        }
    }
}

/// The least key after every key with the given prefix, if there is one.
pub fn next_key(key: &[u8]) -> (next: Option<Vec<u8>>)
    ensures
        match next {
            Some(next) => next_key_of(key@) == Some(next@),
            None => next_key_of(key@) is None,
        },
        next matches Some(after) ==> forall|k: Seq<u8>|
            #[trigger] has_prefix(k, key@) <==> key_le(key@, k) && key_lt(k, after@),
        next is None ==> forall|k: Seq<u8>| #[trigger] has_prefix(k, key@) <==> key_le(key@, k),
{
    proof {
        assert(key@.take(key@.len() as int) =~= key@);
    }
    let mut n: usize = key.len();
    while n > 0
        invariant
            n <= key@.len(),
            next_key_of(key@) == next_key_of(key@.take(n as int)),
        decreases n,
    {
        let last: u8 = key[n - 1];
        proof {
            assert(key@.take(n as int).drop_last() =~= key@.take(n - 1));
        }
        if last < 0xff {
            let mut next: Vec<u8> = Vec::new();
            let mut i: usize = 0;
            while i < n - 1
                invariant
                    n <= key@.len(),
                    0 <= i <= n - 1,
                    next@ == key@.take(i as int),
                decreases n - i,
            {
                next.push(key[i]);
                assert(next@ =~= key@.take(i + 1));
                i = i + 1;
            }
            next.push(last + 1);
            proof {
                assert(next_key_of(key@) == Some(next@));
                assert forall|k: Seq<u8>|
                    #[trigger] has_prefix(k, key@) <==> key_le(key@, k) && key_lt(k, next@) by {
                    lemma_prefix_is_a_range(key@, k);
                }
            }
            return Some(next);
        }
        n = n - 1;
    }
    proof {
        assert forall|k: Seq<u8>| #[trigger] has_prefix(k, key@) <==> key_le(key@, k) by {
            lemma_prefix_is_a_range(key@, k);
        }
    }
    None
}

/// One end of a range of keys.
#[derive(Debug, PartialEq, Eq)]
pub enum Bound<T> {
    Included(T),
    Excluded(T),
    Unbounded,
}

impl<T: View> View for Bound<T> {
    type V = Bound<T::V>;

    open spec fn view(&self) -> Bound<T::V> {
        match self {
            Bound::Included(key) => Bound::Included(key@),
            Bound::Excluded(key) => Bound::Excluded(key@),
            Bound::Unbounded => Bound::Unbounded,
        }
    }
}

/// `key` does not lie before the start `start`.
pub open spec fn past_start(start: Bound<Seq<u8>>, key: Seq<u8>) -> bool {
    match start {
        Bound::Included(k) => key_le(k, key),
        Bound::Excluded(k) => key_lt(k, key),
        Bound::Unbounded => true,
    }
}

/// `key` does not lie beyond the end `end`.
pub open spec fn before_end(end: Bound<Seq<u8>>, key: Seq<u8>) -> bool {
    match end {
        Bound::Included(k) => key_le(key, k),
        Bound::Excluded(k) => key_lt(key, k),
        Bound::Unbounded => true,
    }
}

/// `key` lies in the range between the two bounds.
pub open spec fn admits(bounds: (Bound<Seq<u8>>, Bound<Seq<u8>>), key: Seq<u8>) -> bool {
    past_start(bounds.0, key) && before_end(bounds.1, key)
}

/// The two bounds are in order: the start does not come after the end, and where both leave the
/// same key out, there is no range between them.
pub open spec fn in_order(bounds: (Bound<Seq<u8>>, Bound<Seq<u8>>)) -> bool {
    match bounds {
        (Bound::Excluded(start), Bound::Excluded(end)) => key_lt(start, end),
        (Bound::Included(start), Bound::Included(end)) => key_le(start, end),
        (Bound::Included(start), Bound::Excluded(end)) => key_le(start, end),
        (Bound::Excluded(start), Bound::Included(end)) => key_le(start, end),
        _ => true,
    }
}

/// Whether two bounds are in order.
pub fn bounds_in_order(start: &Bound<Vec<u8>>, end: &Bound<Vec<u8>>) -> (ordered: bool)
    ensures
        ordered == in_order((start@, end@)),
{
    match (start, end) {
        (Bound::Excluded(s), Bound::Excluded(e)) => compare_keys(s, e) == KeyOrder::Less,
        (Bound::Included(s), Bound::Included(e)) => compare_keys(s, e) != KeyOrder::Greater,
        (Bound::Included(s), Bound::Excluded(e)) => compare_keys(s, e) != KeyOrder::Greater,
        (Bound::Excluded(s), Bound::Included(e)) => compare_keys(s, e) != KeyOrder::Greater,
        _ => true,
    }
}

/// The range of all keys that start with `prefix`.
pub open spec fn prefix_bounds(prefix: Seq<u8>) -> (Bound<Seq<u8>>, Bound<Seq<u8>>) {
    (
        Bound::Included(prefix),
        match next_key_of(prefix) {
            Some(next) => Bound::Excluded(next),
            None => Bound::Unbounded,
        },
    )
}

/// A key lies in the range of a prefix if and only if it starts with the prefix.
pub proof fn lemma_prefix_bounds(prefix: Seq<u8>, key: Seq<u8>)
    ensures
        admits(prefix_bounds(prefix), key) <==> has_prefix(key, prefix),
{
    lemma_prefix_is_a_range(prefix, key);
}

/// The range of all keys that start with `prefix`.
pub fn bounds_of_prefix(prefix: Vec<u8>) -> (bounds: (Bound<Vec<u8>>, Bound<Vec<u8>>))
    ensures
        (bounds.0@, bounds.1@) == prefix_bounds(prefix@),
        in_order((bounds.0@, bounds.1@)),
        forall|key: Seq<u8>| #[trigger]
            admits((bounds.0@, bounds.1@), key) <==> has_prefix(key, prefix@),
{
    let end = match next_key(&prefix) {
        Some(next) => Bound::Excluded(next),
        None => Bound::Unbounded,
    };
    proof {
        assert forall|key: Seq<u8>| #[trigger]
            admits(prefix_bounds(prefix@), key) <==> has_prefix(key, prefix@) by {
            lemma_prefix_bounds(prefix@, key);
        }
        if next_key_of(prefix@) is Some {
            assert(has_prefix(prefix@, prefix@));
            assert(admits(prefix_bounds(prefix@), prefix@));
        }
    }
    (Bound::Included(prefix), end)
}

/// The part of a store that one table owns: all keys that start with its prefix.
pub struct Keyspace<S> {
    pub store: S,
    pub prefix: Vec<u8>,
}

impl<S> Keyspace<S> {
    /// The keyspace of `store` that starts with `prefix`.
    pub fn new(store: S, prefix: Vec<u8>) -> (keyspace: Self)
        ensures
            keyspace.store == store,
            keyspace.prefix@ == prefix@,
    {
        Keyspace { store, prefix }
    }

    /// The prefix itself.
    pub fn key(&self) -> (key: &Vec<u8>)
        ensures
            key@ == self.prefix@,
    {
        &self.prefix
    }

    /// The store's key for `key` of this keyspace.
    pub fn prefixed_key(&self, key: &Vec<u8>) -> (prefixed: Vec<u8>)
        ensures
            prefixed@ == self.prefix@ + key@,
    {
        let mut prefixed = copy_key(&self.prefix);
        prefixed.extend_from_slice(key);
        assert(prefixed@ =~= self.prefix@ + key@);
        prefixed
    }
}

impl<S: Clone> Clone for Keyspace<S> {
    fn clone(&self) -> (copy: Self)
        ensures
            cloned(self.store, copy.store),
            copy.prefix@ == self.prefix@,
    {
        Keyspace { store: self.store.clone(), prefix: copy_key(&self.prefix) }
    }
}

/// Keys are ordered as words in a dictionary: of two keys that agree up to some place, the lesser
/// byte there decides, whatever follows; and a key comes before every longer key that it starts.
pub proof fn lemma_first_different_byte_decides(
    common: Seq<u8>,
    lesser: u8,
    greater: u8,
    a: Seq<u8>,
    b: Seq<u8>,
)
    ensures
        lesser < greater ==> key_lt(common.push(lesser) + a, common.push(greater) + b),
        lesser < greater ==> !key_lt(common.push(greater) + b, common.push(lesser) + a),
        key_lt(common, common.push(greater) + b),
        !key_lt(common.push(greater) + b, common),
        !key_lt(common, common),
{
    let short = common.push(lesser) + a;
    let long = common.push(greater) + b;
    let place = common.len() as int;
    assert(parts_below(common, long, place));
    lemma_key_lt_asymmetric(common, long);
    if lesser < greater {
        assert(parts_below(short, long, place));
        lemma_key_lt_asymmetric(short, long);
    }
}

/// Comparing two keys tells which of them comes first, as the first byte in which they differ
/// decides, or that they are the same.
pub proof fn lemma_compare_keys_by_first_different_byte(
    common: Seq<u8>,
    x: u8,
    y: u8,
    rest_of_a: Seq<u8>,
    rest_of_b: Seq<u8>,
    a: &[u8],
    b: &[u8],
    order: KeyOrder,
)
    requires
        call_ensures(compare_keys, (a, b), order),
    ensures
        order is Equal <==> a@ == b@,
        a@ == common.push(x) + rest_of_a && b@ == common.push(y) + rest_of_b && x < y
            ==> order is Less,
        a@ == common.push(x) + rest_of_a && b@ == common.push(y) + rest_of_b && x > y
            ==> order is Greater,
        a@ == common && b@ == common.push(y) + rest_of_b ==> order is Less,
        a@ == common.push(x) + rest_of_a && b@ == common ==> order is Greater,
{
    lemma_first_different_byte_decides(common, x, y, rest_of_a, rest_of_b);
    lemma_first_different_byte_decides(common, y, x, rest_of_b, rest_of_a);
}

/// A key starts with a prefix where it is the prefix with something behind it, and only there.
pub proof fn lemma_prefix_is_the_beginning(prefix: Seq<u8>, key: Seq<u8>)
    ensures
        has_prefix(key, prefix) <==> exists|rest: Seq<u8>| key == #[trigger] (prefix + rest),
{
    if has_prefix(key, prefix) {
        assert(key =~= prefix + key.skip(prefix.len() as int));
    }
}

/// A bound stays what it is when it is read: its kind, and its key.
pub proof fn lemma_bound_keeps_its_kind(bound: Bound<Vec<u8>>)
    ensures
        match bound {
            Bound::Included(key) => bound@ == Bound::Included(key@),
            Bound::Excluded(key) => bound@ == Bound::Excluded(key@),
            Bound::Unbounded => bound@ == Bound::<Seq<u8>>::Unbounded,
        },
{
}

/// A range has the keys between its bounds: those that come after its start and before its end,
/// with the start or the end itself where that bound takes it in, and all keys on a side without a
/// bound.
pub proof fn lemma_range_has_the_keys_between(
    start: Bound<Seq<u8>>,
    end: Bound<Seq<u8>>,
    key: Seq<u8>,
)
    ensures
        admits((start, end), key) <==> {
            &&& match start {
                Bound::Included(first) => first == key || key_lt(first, key),
                Bound::Excluded(first) => first != key && key_lt(first, key),
                Bound::Unbounded => true,
            }
            &&& match end {
                Bound::Included(last) => key == last || key_lt(key, last),
                Bound::Excluded(last) => key != last && key_lt(key, last),
                Bound::Unbounded => true,
            }
        },
{
    lemma_key_lt_irreflexive(key);
}

/// Bounds are out of order where the start comes after the end, or where both leave out the same
/// key, and nowhere else; and bounds that have a key between them are in order.
pub proof fn lemma_order_of_bounds(
    start: Bound<Vec<u8>>,
    end: Bound<Vec<u8>>,
    ordered: bool,
    key: Seq<u8>,
)
    requires
        call_ensures(bounds_in_order, (&start, &end), ordered),
    ensures
        ordered <==> match (start, end) {
            (Bound::Excluded(first), Bound::Excluded(last)) => first@ != last@ && !key_lt(
                last@,
                first@,
            ),
            (Bound::Included(first), Bound::Included(last)) => !key_lt(last@, first@),
            (Bound::Included(first), Bound::Excluded(last)) => !key_lt(last@, first@),
            (Bound::Excluded(first), Bound::Included(last)) => !key_lt(last@, first@),
            _ => true,
        },
        ordered <==> in_order((start@, end@)),
        admits((start@, end@), key) ==> ordered,
{
    match (start, end) {
        (Bound::Unbounded, _) => {},
        (_, Bound::Unbounded) => {},
        (Bound::Excluded(a), Bound::Excluded(b)) => lemma_between(a@, b@, key),
        (Bound::Included(a), Bound::Included(b)) => lemma_between(a@, b@, key),
        (Bound::Included(a), Bound::Excluded(b)) => lemma_between(a@, b@, key),
        (Bound::Excluded(a), Bound::Included(b)) => lemma_between(a@, b@, key),
    }
}

/// How two keys lie to each other, and to a third between them.
proof fn lemma_between(first: Seq<u8>, last: Seq<u8>, key: Seq<u8>)
    ensures
        key_le(first, last) <==> !key_lt(last, first),
        key_lt(first, last) <==> !key_le(last, first),
        key_le(first, key) && key_le(key, last) ==> key_le(first, last),
        key_lt(first, key) && key_le(key, last) ==> key_lt(first, last),
        key_le(first, key) && key_lt(key, last) ==> key_lt(first, last),
{
    lemma_key_lt_total(first, last);
    lemma_key_lt_irreflexive(first);
    if key_lt(first, last) {
        lemma_key_lt_asymmetric(first, last);
    }
    if key_lt(last, first) {
        lemma_key_lt_asymmetric(last, first);
    }
    if key_lt(first, key) && key_lt(key, last) {
        lemma_key_lt_transitive(first, key, last);
    }
}

/// The next key after a prefix is the least that comes after every key with the prefix: all keys
/// from the prefix on that come before it, and no others, are the prefix with something behind it.
/// Where there is none, those are all keys from the prefix on.
pub proof fn lemma_next_key_ends_the_prefix(prefix: &[u8], next: Option<Vec<u8>>, key: Seq<u8>)
    requires
        call_ensures(next_key, (prefix,), next),
    ensures
        (exists|rest: Seq<u8>| key == #[trigger] (prefix@ + rest)) <==> {
            &&& prefix@ == key || key_lt(prefix@, key)
            &&& next matches Some(after) ==> key_lt(key, after@)
        },
{
    lemma_prefix_is_a_range(prefix@, key);
    lemma_prefix_is_the_beginning(prefix@, key);
}

/// The range of a prefix has the keys that are the prefix with something behind it, and no others.
pub proof fn lemma_range_of_a_prefix(
    prefix: Vec<u8>,
    bounds: (Bound<Vec<u8>>, Bound<Vec<u8>>),
    key: Seq<u8>,
)
    requires
        call_ensures(bounds_of_prefix, (prefix,), bounds),
    ensures
        admits((bounds.0@, bounds.1@), key) <==> exists|rest: Seq<u8>|
            key == #[trigger] (prefix@ + rest),
        bounds.0 is Included,
        !(bounds.1 is Included),
{
    lemma_prefix_bounds(prefix@, key);
    lemma_prefix_is_the_beginning(prefix@, key);
}

/// The keys of a table stand in the store in the same order, each under the table's prefix.
pub proof fn lemma_prefixed_keys_keep_their_order<S>(
    keyspace: Keyspace<S>,
    a: Vec<u8>,
    b: Vec<u8>,
    stored_a: Vec<u8>,
    stored_b: Vec<u8>,
)
    requires
        call_ensures(Keyspace::<S>::prefixed_key, (&keyspace, &a), stored_a),
        call_ensures(Keyspace::<S>::prefixed_key, (&keyspace, &b), stored_b),
    ensures
        stored_a@ == keyspace.prefix@ + a@,
        stored_a@ == stored_b@ <==> a@ == b@,
        key_lt(stored_a@, stored_b@) <==> key_lt(a@, b@),
{
    lemma_key_lt_prefixed(keyspace.prefix@, a@, b@);
}

} // verus!
