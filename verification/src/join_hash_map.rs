//! The rows of one side of a hash join: a cache per join key over a state table.

use vstd::prelude::*;
use std::ops::{Deref, DerefMut};
use crate::catalog::{ColumnDesc, ColumnId, DataType, OrderType, OrderedRowSerializer};
use crate::entries::{
    distinct, holds_key, lemma_to_map, lookup, place_of, reversed, sorted, to_map,
};
use crate::error::{RwError, RwResult, StorageError, StorageResult};
use crate::evictable::{lemma_put_first, put_first, slot_bytes, used, EvictableHashMap};
use crate::join_entry_state::JoinEntryState;
use crate::join_row::{
    ends_in_degree, lemma_split_undoes_with, split_degree, with_degree, JoinRow, JoinRowView,
};
use crate::key::{copy_key, prefix_bounds, Keyspace};
use crate::mem_table::{
    delete_refused, deleted, insert_refused, inserted, op_entries, MemTable, RowOpView,
};
use crate::row::{copy_indices, indices_within, project, Row, RowView};
use crate::row_iter::StateTableRowIter;
use crate::state_table::{encodable, encodes, StateTable, WriteBatch};

verus! {

pub type StateValueType = JoinRow;

pub type HashValueType = JoinEntryState;

/// A join key in the form in which it is hashed.
#[derive(Debug)]
pub struct HashKey(pub Vec<u8>);

impl View for HashKey {
    type V = Seq<u8>;

    open spec fn view(&self) -> Seq<u8> {
        self.0@
    }
}

/// The rows that a stream yields before it fails or ends.
pub open spec fn rows_yielded(items: Seq<StorageResult<Row>>) -> Seq<RowView>
    decreases items.len(),
{
    if items.len() == 0 {
        Seq::empty()
    } else {
        match items[0] {
            Ok(row) => seq![row@] + rows_yielded(items.skip(1)),
            Err(_) => Seq::empty(),
        }
    }
}

/// The error with which a stream fails, if it does.
pub open spec fn stream_failure(items: Seq<StorageResult<Row>>) -> Option<StorageError>
    decreases items.len(),
{
    if items.len() == 0 {
        None
    } else {
        match items[0] {
            Ok(_) => stream_failure(items.skip(1)),
            Err(error) => Some(error),
        }
    }
}

/// The rows of a join key by their primary keys, each taken apart from its degree. Of rows with the
/// same primary key the last counts.
pub open spec fn entry_of(rows: Seq<RowView>, pk_indices: Seq<usize>) -> Map<RowView, JoinRowView>
    decreases rows.len(),
{
    if rows.len() == 0 {
        Map::empty()
    } else {
        entry_of(rows.drop_last(), pk_indices).insert(
            project(rows.last(), pk_indices),
            split_degree(rows.last()),
        )
    }
}

/// `state` is what a scan for a join key comes to: the error with which it failed, or the entry of
/// the rows that it yielded, and no entry where it yielded none.
pub open spec fn fetches(
    items: Seq<StorageResult<Row>>,
    pk_indices: Seq<usize>,
    state: RwResult<Option<JoinEntryState>>,
) -> bool {
    match stream_failure(items) {
        Some(error) => state matches Err(thrown) && thrown == RwError::StorageError(
            Box::new(error),
        ),
        None => match state {
            Ok(Some(entry)) => {
                &&& items.len() > 0
                &&& entry.wf()
                &&& entry@ == entry_of(rows_yielded(items), pk_indices)
            },
            Ok(None) => items.len() == 0,
            Err(_) => false,
        },
    }
}

/// Every row has the columns of the primary key and ends in a degree.
pub open spec fn join_rows(rows: Seq<RowView>, pk_indices: Seq<usize>) -> bool {
    forall|i: int|
        0 <= i < rows.len() ==> {
            &&& indices_within(pk_indices, #[trigger] rows[i].len())
            &&& ends_in_degree(rows[i])
        }
}

/// A row with this primary key is among `rows`.
pub open spec fn has_pk(rows: Seq<RowView>, pk_indices: Seq<usize>, pk: RowView) -> bool {
    exists|i: int| 0 <= i < rows.len() && project(#[trigger] rows[i], pk_indices) == pk
}

/// An entry has the primary keys of its rows, and no others.
pub proof fn lemma_entry_keys(rows: Seq<RowView>, pk_indices: Seq<usize>, pk: RowView)
    ensures
        entry_of(rows, pk_indices).contains_key(pk) <==> has_pk(rows, pk_indices, pk),
    decreases rows.len(),
{
    if rows.len() > 0 {
        let shorter = rows.drop_last();
        lemma_entry_keys(shorter, pk_indices, pk);
        if has_pk(shorter, pk_indices, pk) {
            let i = choose|i: int|
                0 <= i < shorter.len() && project(#[trigger] shorter[i], pk_indices) == pk;
            assert(rows[i] == shorter[i]);
        }
        if has_pk(rows, pk_indices, pk) {
            let i = choose|i: int|
                0 <= i < rows.len() && project(#[trigger] rows[i], pk_indices) == pk;
            if i < shorter.len() {
                assert(shorter[i] == rows[i]);
            }
        }
        assert(rows.last() == rows[rows.len() - 1]);
    }
}

/// Putting a row into the cached entry of its join key keeps the entry as it would be fetched: it
/// is the entry of the stored rows with the new one among them, wherever it comes in the scan.
pub proof fn lemma_insert_keeps_entry(
    rows: Seq<RowView>,
    place: int,
    join_row: JoinRowView,
    pk_indices: Seq<usize>,
)
    requires
        0 <= place <= rows.len(),
        !has_pk(rows, pk_indices, project(with_degree(join_row), pk_indices)),
    ensures
        entry_of(rows.insert(place, with_degree(join_row)), pk_indices) == entry_of(
            rows,
            pk_indices,
        ).insert(project(with_degree(join_row), pk_indices), join_row),
    decreases rows.len(),
{
    let row = with_degree(join_row);
    let pk = project(row, pk_indices);
    let after = rows.insert(place, row);
    lemma_split_undoes_with(join_row);
    if place == rows.len() {
        assert(after.drop_last() =~= rows);
        assert(after.last() == row);
    } else {
        let shorter = rows.drop_last();
        assert(after.drop_last() =~= shorter.insert(place, row));
        assert(after.last() == rows.last());
        assert(!has_pk(shorter, pk_indices, pk)) by {
            if has_pk(shorter, pk_indices, pk) {
                let i = choose|i: int|
                    0 <= i < shorter.len() && project(#[trigger] shorter[i], pk_indices) == pk;
                assert(rows[i] == shorter[i]);
            }
        }
        lemma_insert_keeps_entry(shorter, place, join_row, pk_indices);
        assert(project(rows[rows.len() - 1], pk_indices) != pk);
        assert(entry_of(after, pk_indices) =~= entry_of(rows, pk_indices).insert(pk, join_row));
    }
}

/// Putting a row into the cached entry of its join key keeps the entry as it would be fetched also
/// where the row takes the place of the one that had its primary key.
pub proof fn lemma_replace_keeps_entry(
    rows: Seq<RowView>,
    place: int,
    join_row: JoinRowView,
    pk_indices: Seq<usize>,
)
    requires
        0 <= place < rows.len(),
        forall|i: int|
            0 <= i < rows.len() ==> (i == place <==> project(#[trigger] rows[i], pk_indices)
                == project(with_degree(join_row), pk_indices)),
    ensures
        entry_of(rows.update(place, with_degree(join_row)), pk_indices) == entry_of(
            rows,
            pk_indices,
        ).insert(project(with_degree(join_row), pk_indices), join_row),
    decreases rows.len(),
{
    let row = with_degree(join_row);
    let pk = project(row, pk_indices);
    let after = rows.update(place, row);
    let shorter = rows.drop_last();
    let last = rows.len() - 1;
    lemma_split_undoes_with(join_row);
    assert(project(rows[place], pk_indices) == pk);
    if place == last {
        assert(after.drop_last() =~= shorter);
        assert(after.last() == row);
        assert(entry_of(after, pk_indices) =~= entry_of(rows, pk_indices).insert(pk, join_row));
    } else {
        assert(after.drop_last() =~= shorter.update(place, row));
        assert(after.last() == rows[last]);
        assert forall|i: int| 0 <= i < shorter.len() implies (i == place <==> project(
            #[trigger] shorter[i],
            pk_indices,
        ) == pk) by {
            assert(shorter[i] == rows[i]);
        }
        lemma_replace_keeps_entry(shorter, place, join_row, pk_indices);
        assert(project(rows[last], pk_indices) != pk);
        assert(entry_of(after, pk_indices) =~= entry_of(rows, pk_indices).insert(pk, join_row));
    }
}

/// Taking a row out of the cached entry of its join key keeps the entry as it would be fetched: it
/// is the entry of the stored rows without it, where no two rows have the same primary key.
pub proof fn lemma_remove_keeps_entry(rows: Seq<RowView>, place: int, pk_indices: Seq<usize>)
    requires
        0 <= place < rows.len(),
        distinct_pks(rows, pk_indices),
    ensures
        entry_of(rows.remove(place), pk_indices) == entry_of(rows, pk_indices).remove(
            project(rows[place], pk_indices),
        ),
    decreases rows.len(),
{
    let pk = project(rows[place], pk_indices);
    let shorter = rows.drop_last();
    let last = rows.len() - 1;
    if place == last {
        assert(rows.remove(place) =~= shorter);
        lemma_entry_keys(shorter, pk_indices, pk);
        if has_pk(shorter, pk_indices, pk) {
            let i = choose|i: int|
                0 <= i < shorter.len() && project(#[trigger] shorter[i], pk_indices) == pk;
            assert(rows[i] == shorter[i]);
            assert(false);
        }
        assert(entry_of(rows, pk_indices).remove(pk) =~= entry_of(shorter, pk_indices));
    } else {
        let after = rows.remove(place);
        assert(after.drop_last() =~= shorter.remove(place));
        assert(after.last() == rows[last]);
        assert forall|i: int, j: int| 0 <= i < j < shorter.len() implies project(
            #[trigger] shorter[i],
            pk_indices,
        ) != project(#[trigger] shorter[j], pk_indices) by {
            assert(shorter[i] == rows[i] && shorter[j] == rows[j]);
        }
        lemma_remove_keeps_entry(shorter, place, pk_indices);
        assert(shorter[place] == rows[place]);
        assert(project(rows[last], pk_indices) != pk);
        assert(entry_of(after, pk_indices) =~= entry_of(rows, pk_indices).remove(pk));
    }
}

/// No two rows have the same primary key.
pub open spec fn distinct_pks(rows: Seq<RowView>, pk_indices: Seq<usize>) -> bool {
    forall|i: int, j: int|
        0 <= i < j < rows.len() ==> project(#[trigger] rows[i], pk_indices) != project(
            #[trigger] rows[j],
            pk_indices,
        )
}

/// An entry holds each of its rows under its primary key, where no two rows have the same.
pub proof fn lemma_entry_values(rows: Seq<RowView>, pk_indices: Seq<usize>, i: int)
    requires
        distinct_pks(rows, pk_indices),
        0 <= i < rows.len(),
    ensures
        entry_of(rows, pk_indices).contains_pair(
            project(rows[i], pk_indices),
            split_degree(rows[i]),
        ),
    decreases rows.len(),
{
    let shorter = rows.drop_last();
    let last = rows.len() - 1;
    if i < last {
        assert forall|a: int, b: int| 0 <= a < b < shorter.len() implies project(
            #[trigger] shorter[a],
            pk_indices,
        ) != project(#[trigger] shorter[b], pk_indices) by {
            assert(shorter[a] == rows[a] && shorter[b] == rows[b]);
        }
        lemma_entry_values(shorter, pk_indices, i);
        assert(shorter[i] == rows[i]);
        assert(project(rows[i], pk_indices) != project(rows[last], pk_indices));
    }
}

/// The order in which the rows of a join key are read does not matter: the same rows make the same
/// entry, where no two have the same primary key.
pub proof fn lemma_order_does_not_matter(
    a: Seq<RowView>,
    b: Seq<RowView>,
    pk_indices: Seq<usize>,
)
    requires
        distinct_pks(a, pk_indices),
        distinct_pks(b, pk_indices),
        forall|row: RowView| #[trigger] a.contains(row) <==> b.contains(row),
    ensures
        entry_of(a, pk_indices) == entry_of(b, pk_indices),
{
    assert forall|pk: RowView|
        #![trigger entry_of(a, pk_indices).contains_key(pk)]
        entry_of(a, pk_indices).contains_key(pk) implies entry_of(b, pk_indices).contains_pair(
        pk,
        entry_of(a, pk_indices)[pk],
    ) by {
        lemma_same_value(a, b, pk_indices, pk);
    }
    assert forall|pk: RowView|
        #![trigger entry_of(b, pk_indices).contains_key(pk)]
        entry_of(b, pk_indices).contains_key(pk) implies entry_of(a, pk_indices).contains_key(
        pk,
    ) by {
        lemma_same_value(b, a, pk_indices, pk);
    }
    assert(entry_of(a, pk_indices) =~= entry_of(b, pk_indices));
}

/// What one entry holds, the entry of the same rows in another order holds too.
proof fn lemma_same_value(
    a: Seq<RowView>,
    b: Seq<RowView>,
    pk_indices: Seq<usize>,
    pk: RowView,
)
    requires
        distinct_pks(a, pk_indices),
        distinct_pks(b, pk_indices),
        forall|row: RowView| #[trigger] a.contains(row) ==> b.contains(row),
        entry_of(a, pk_indices).contains_key(pk),
    ensures
        entry_of(b, pk_indices).contains_pair(pk, entry_of(a, pk_indices)[pk]),
{
    lemma_entry_keys(a, pk_indices, pk);
    let i = choose|i: int| 0 <= i < a.len() && project(#[trigger] a[i], pk_indices) == pk;
    lemma_entry_values(a, pk_indices, i);
    assert(a.contains(a[i]));
    let j = choose|j: int| 0 <= j < b.len() && b[j] == a[i];
    lemma_entry_values(b, pk_indices, j);
}

/// `n` columns, all descending.
pub open spec fn descending(n: nat) -> Seq<OrderType> {
    Seq::new(n, |i: int| OrderType::Descending)
}

/// `n` columns, all descending.
fn descending_order(n: usize) -> (order_types: Vec<OrderType>)
    ensures
        order_types@ == descending(n as nat),
{
    let mut order_types: Vec<OrderType> = Vec::new();
    let mut i: usize = 0;
    while i < n
        invariant
            i <= n,
            order_types@ == descending(i as nat),
        decreases n - i,
    {
        order_types.push(OrderType::Descending);
        assert(order_types@ =~= descending((i + 1) as nat));
        i = i + 1;
    }
    order_types
}

/// Columns of these types, numbered from zero.
pub open spec fn numbered_columns(data_types: Seq<DataType>) -> Seq<ColumnDesc> {
    Seq::new(
        data_types.len(),
        |i: int| ColumnDesc { column_id: ColumnId(i as usize as i32), data_type: data_types[i] },
    )
}

/// The types at `indices`.
pub open spec fn types_at(data_types: Seq<DataType>, indices: Seq<usize>) -> Seq<DataType> {
    Seq::new(indices.len(), |i: int| data_types[indices[i] as int])
}

/// The cache after the entry under `key` was used and became `entry`. A key that is not cached
/// leaves the cache as it is.
pub open spec fn entry_becomes(
    before: EvictableHashMap<JoinEntryState>,
    after: EvictableHashMap<JoinEntryState>,
    key: Seq<u8>,
    entry: Map<RowView, JoinRowView>,
) -> bool {
    if before@.contains_key(key) {
        &&& after@.contains_key(key)
        &&& after@[key]@ == entry
        &&& after.entries() == used(before.entries(), key).update(0, (key, after@[key]))
        &&& after@ == before@.insert(key, after@[key])
        &&& after.capacity() == before.capacity()
    } else {
        after == before
    }
}

/// The rows of one side of a hash join. Those of the join keys used last are cached; all of them
/// stand in a state table.
pub struct JoinHashMap<S> {
    /// The cached rows, by join key.
    inner: EvictableHashMap<JoinEntryState>,
    /// The types of the columns of the join key.
    join_key_data_types: Vec<DataType>,
    /// The columns of the primary key.
    pk_indices: Vec<usize>,
    /// The current epoch.
    current_epoch: u64,
    /// The table in which the rows stand.
    state_table: StateTable<S>,
}

impl<S> JoinHashMap<S> {
    /// The cache.
    pub closed spec fn inner(&self) -> EvictableHashMap<JoinEntryState> {
        self.inner
    }

    pub closed spec fn join_key_data_types(&self) -> Vec<DataType> {
        self.join_key_data_types
    }

    pub closed spec fn pk_indices(&self) -> Seq<usize> {
        self.pk_indices@
    }

    pub closed spec fn current_epoch(&self) -> u64 {
        self.current_epoch
    }

    pub closed spec fn state_table(&self) -> StateTable<S> {
        self.state_table
    }

    /// The cache and every entry in it are in order, and so is the state table, which has the same
    /// primary key.
    pub open spec fn wf(&self) -> bool {
        &&& self.inner().wf()
        &&& forall|key: Seq<u8>| #[trigger]
            self.inner()@.contains_key(key) ==> self.inner()@[key].wf()
        &&& self.state_table().wf()
        &&& self.state_table().pk_indices() == self.pk_indices()
    }

    /// The two maps differ at most in what they hold.
    pub open spec fn same_setup(&self, other: &Self) -> bool {
        &&& self.join_key_data_types() == other.join_key_data_types()
        &&& self.pk_indices() == other.pk_indices()
        &&& self.current_epoch() == other.current_epoch()
    }

    /// An empty map over `keyspace` for rows with columns of `data_types`. Its cache is to shrink
    /// to `target_cap` join keys.
    pub fn new(
        target_cap: usize,
        pk_indices: Vec<usize>,
        join_key_indices: Vec<usize>,
        data_types: Vec<DataType>,
        keyspace: Keyspace<S>,
        dist_key_indices: Option<Vec<usize>>,
    ) -> (map: Self)
        requires
            indices_within(join_key_indices@, data_types@.len()),
        ensures
            map.wf(),
            map.inner().entries() == Seq::<(Seq<u8>, JoinEntryState)>::empty(),
            map.inner().capacity() == target_cap,
            map.join_key_data_types()@ == types_at(data_types@, join_key_indices@),
            map.pk_indices() == pk_indices@,
            map.current_epoch() == 0,
            map.state_table().mem_table()@ == Map::<Seq<u8>, RowOpView>::empty(),
            map.state_table().keyspace() == keyspace,
            map.state_table().column_descs() == numbered_columns(data_types@),
            map.state_table().order_types() == descending(data_types@.len()),
            map.state_table().dist_key_indices() == dist_key_indices.deep_view(),
    {
        let mut join_key_data_types: Vec<DataType> = Vec::new();
        let mut i: usize = 0;
        while i < join_key_indices.len()
            invariant
                indices_within(join_key_indices@, data_types@.len()),
                i <= join_key_indices@.len(),
                join_key_data_types@ == types_at(data_types@, join_key_indices@).take(i as int),
            decreases join_key_indices@.len() - i,
        {
            join_key_data_types.push(data_types[join_key_indices[i]]);
            assert(join_key_data_types@ =~= types_at(data_types@, join_key_indices@).take(i + 1));
            i = i + 1;
        }
        assert(join_key_data_types@ =~= types_at(data_types@, join_key_indices@));
        let mut column_descs: Vec<ColumnDesc> = Vec::new();
        let mut id: usize = 0;
        while id < data_types.len()
            invariant
                id <= data_types@.len(),
                column_descs@ == numbered_columns(data_types@).take(id as int),
            decreases data_types@.len() - id,
        {
            let column_id = ColumnId(#[verifier::truncate] (id as i32));
            column_descs.push(ColumnDesc::unnamed(column_id, data_types[id]));
            assert(column_descs@ =~= numbered_columns(data_types@).take(id + 1));
            id = id + 1;
        }
        assert(column_descs@ =~= numbered_columns(data_types@));
        // Rows of a join key are only ever read together, so any order of them will do.
        let order_types = descending_order(data_types.len());
        let table_pk_indices = copy_indices(&pk_indices);
        let state_table = StateTable::new(
            keyspace,
            column_descs,
            order_types,
            dist_key_indices,
            table_pk_indices,
        );
        let inner = EvictableHashMap::new(target_cap);
        JoinHashMap {
            inner,
            join_key_data_types,
            pk_indices,
            current_epoch: 0,
            state_table,
        }
    }

    /// The bytes that the cache takes up. Only the storage of the cache itself is counted, not
    /// what the cached rows own elsewhere.
    pub fn bytes_in_use(&self) -> (bytes: usize)
        ensures
            self.inner().entries().len() * vstd::layout::size_of::<(Vec<u8>, JoinEntryState)>()
                <= bytes,
            exists|slots: nat|
                self.inner().entries().len() <= slots && bytes == #[trigger] slot_bytes::<
                    JoinEntryState,
                >(slots),
            bytes <= isize::MAX,
    {
        self.inner.bytes_in_use()
    }

    /// The state table in which the rows stand.
    pub fn get_state_table(&self) -> (table: &StateTable<S>)
        ensures
            *table == self.state_table(),
    {
        &self.state_table
    }

    /// Moves on to another epoch.
    pub fn update_epoch(&mut self, epoch: u64)
        ensures
            final(self).current_epoch() == epoch,
            final(self).inner() == old(self).inner(),
            final(self).join_key_data_types() == old(self).join_key_data_types(),
            final(self).pk_indices() == old(self).pk_indices(),
            final(self).state_table() == old(self).state_table(),
            final(self).wf() == old(self).wf(),
    {
        self.current_epoch = epoch;
    }

    /// Whether the rows of a join key are cached. Where they are not, they have to be fetched
    /// before they can be read.
    pub fn is_cached(&self, key: &HashKey) -> (cached: bool)
        requires
            self.wf(),
        ensures
            cached == self.inner()@.contains_key(key@),
    {
        self.inner.contains(&key.0)
    }

    /// `state` is what the map has of a join key, given what was fetched: what is cached, or else
    /// what was fetched, which `after` has cached. In `after` the key is the one used last.
    pub open spec fn gets(
        &self,
        after: &Self,
        key: Seq<u8>,
        remote_state: Option<HashValueType>,
        state: Option<&HashValueType>,
    ) -> bool {
        &&& after.inner().capacity() == self.inner().capacity()
        &&& match lookup(self.inner()@, key) {
            Some(cached) => {
                &&& state == Some(&cached)
                &&& after.inner().entries() == used(self.inner().entries(), key)
                &&& after.inner()@ == self.inner()@
            },
            None => match remote_state {
                Some(remote) => {
                    &&& state == Some(&remote)
                    &&& after.inner().entries() == put_first(self.inner().entries(), key, remote)
                    &&& after.inner()@ == self.inner()@.insert(key, remote)
                },
                None => {
                    &&& state is None
                    &&& after.inner() == self.inner()
                },
            },
        }
    }

    /// The rows of a join key: those that are cached, or else those that were fetched from remote
    /// storage, which are cached from now on. There are none where there are none in storage
    /// either.
    pub fn get(&mut self, key: &HashKey, remote_state: Option<HashValueType>) -> (state: Option<
        &HashValueType,
    >)
        requires
            old(self).wf(),
            remote_state matches Some(remote) ==> remote.wf(),
        ensures
            final(self).wf(),
            final(self).same_setup(old(self)),
            final(self).state_table() == old(self).state_table(),
            old(self).gets(final(self), key@, remote_state, state),
    {
        if !self.inner.contains(&key.0) {
            match remote_state {
                Some(remote) => {
                    self.inner.put(copy_key(&key.0), remote);
                    proof {
                        lemma_used_again(old(self).inner().entries(), key@, remote);
                    }
                },
                None => {
                    return None;
                },
            }
        }
        self.inner.get(&key.0)
    }

    /// As [`Self::get`], but the rows may be changed.
    pub fn get_mut(&mut self, key: &HashKey, remote_state: Option<HashValueType>) -> (state: Option<
        &mut HashValueType,
    >)
        requires
            old(self).wf(),
            remote_state matches Some(remote) ==> remote.wf(),
        ensures
            final(self).same_setup(old(self)),
            final(self).state_table() == old(self).state_table(),
            final(self).inner().capacity() == old(self).inner().capacity(),
            match state {
                Some(state) => {
                    &&& final(state).wf() ==> final(self).wf()
                    &&& final(self).inner()@ == old(self).inner()@.insert(key@, *final(state))
                },
                None => {
                    &&& final(self).wf()
                    &&& final(self).inner() == old(self).inner()
                },
            },
            match lookup(old(self).inner()@, key@) {
                Some(cached) => {
                    &&& state matches Some(state) && *state == cached
                        && final(self).inner().entries() == used(
                        old(self).inner().entries(),
                        key@,
                    ).update(0, (key@, *final(state)))
                },
                None => match remote_state {
                    Some(remote) => {
                        &&& state matches Some(state) && *state == remote
                            && final(self).inner().entries() == put_first(
                            old(self).inner().entries(),
                            key@,
                            *final(state),
                        )
                    },
                    None => state is None,
                },
            },
    {
        if !self.inner.contains(&key.0) {
            match remote_state {
                Some(remote) => {
                    self.inner.put(copy_key(&key.0), remote);
                    proof {
                        lemma_used_again(old(self).inner().entries(), key@, remote);
                    }
                },
                None => {
                    return None;
                },
            }
        }
        self.inner.get_mut(&key.0)
    }

    /// Whether a join key has rows in the cache or in remote storage. Those that were fetched are
    /// cached from now on.
    pub fn contains(&mut self, key: &HashKey, remote_state: Option<HashValueType>) -> (contains:
        bool)
        requires
            old(self).wf(),
            remote_state matches Some(remote) ==> remote.wf(),
        ensures
            final(self).wf(),
            final(self).same_setup(old(self)),
            final(self).state_table() == old(self).state_table(),
            contains == (old(self).inner()@.contains_key(key@) || remote_state is Some),
            match remote_state {
                Some(remote) if !old(self).inner()@.contains_key(key@) => {
                    &&& final(self).inner().entries() == put_first(
                        old(self).inner().entries(),
                        key@,
                        remote,
                    )
                    &&& final(self).inner()@ == old(self).inner()@.insert(key@, remote)
                    &&& final(self).inner().capacity() == old(self).inner().capacity()
                },
                _ => final(self).inner() == old(self).inner(),
            },
    {
        if self.inner.contains(&key.0) {
            true
        } else {
            match remote_state {
                Some(remote) => {
                    self.inner.put(copy_key(&key.0), remote);
                    true
                },
                None => false,
            }
        }
    }

    /// The scan of the state table that finds the rows of a join key. It should only be needed
    /// where the key is not cached.
    pub fn cached_state_scan<
        D: Fn(&HashKey, &Vec<DataType>) -> RwResult<Row>,
        F: Fn(&Row, &OrderedRowSerializer) -> Vec<u8>,
    >(&self, key: &HashKey, deserialize: D, serialize_pk: F) -> (scan: RwResult<
        StateTableRowIter<'_, S>,
    >)
        requires
            self.wf(),
            call_requires(deserialize, (key, &self.join_key_data_types())),
            forall|row: Row|
                call_ensures(deserialize, (key, &self.join_key_data_types()), Ok(row))
                    ==> #[trigger] encodable(serialize_pk, row@, descending(row@.len())),
        ensures
            exists|decoded: RwResult<Row>| #[trigger]
                call_ensures(deserialize, (key, &self.join_key_data_types()), decoded)
                    && match decoded {
                    Ok(row) => scan matches Ok(iter) && exists|prefix: Seq<u8>| #[trigger]
                        encodes(serialize_pk, row@, descending(row@.len()), prefix)
                            && self.state_table().is_scan(
                            iter,
                            prefix_bounds(self.state_table().keyspace().prefix@ + prefix),
                            prefix_bounds(prefix),
                            self.current_epoch(),
                        ),
                    Err(error) => scan matches Err(thrown) && thrown == error,
                },
    {
        let decoded = deserialize(key, &self.join_key_data_types);
        let row = match decoded {
            Ok(row) => row,
            Err(error) => {
                return Err(error);
            },
        };
        assert(encodable(serialize_pk, row@, descending(row@.len())));
        let prefix_serializer = OrderedRowSerializer::new(descending_order(row.size()));
        Ok(
            self.state_table.iter_with_pk_prefix(
                Some(&row),
                prefix_serializer,
                self.current_epoch,
                serialize_pk,
            ),
        )
    }

    /// The rows of a join key as they are cached, made of the rows that a scan yielded. There are
    /// none where it yielded none.
    pub fn fetch_cached_state(&self, rows: Vec<StorageResult<Row>>) -> (state: RwResult<
        Option<HashValueType>,
    >)
        requires
            join_rows(rows_yielded(rows@), self.pk_indices()),
        ensures
            fetches(rows@, self.pk_indices(), state),
    {
        if rows.len() == 0 {
            return Ok(None);
        }
        let ghost all = rows_yielded(rows@);
        let ghost failure = stream_failure(rows@);
        let ghost pk_indices = self.pk_indices();
        let ghost mut left = rows@;
        let ghost mut done = Seq::<RowView>::empty();
        let mut stack = reversed(rows);
        let mut cached = JoinEntryState::new();
        assert(done + all =~= all);
        loop
            invariant
                stack@ == left.reverse(),
                stream_failure(left) == failure,
                all == done + rows_yielded(left),
                pk_indices == self.pk_indices@,
                join_rows(all, pk_indices),
                cached.wf(),
                cached@ == entry_of(done, pk_indices),
                all == rows_yielded(rows@),
                failure == stream_failure(rows@),
                pk_indices == self.pk_indices(),
                rows@.len() > 0,
            ensures
                failure is None,
                cached.wf(),
                cached@ == entry_of(all, pk_indices),
            decreases left.len(),
        {
            proof {
                if left.len() > 0 {
                    assert(stack@[stack@.len() - 1] == left[0]);
                }
            }
            match stack.pop() {
                Some(Ok(row)) => {
                    let ghost now = done.push(row@);
                    proof {
                        assert(stack@ =~= left.skip(1).reverse());
                        assert(all =~= now + rows_yielded(left.skip(1)));
                        assert(all[done.len() as int] == row@);
                        assert(now.drop_last() =~= done);
                        left = left.skip(1);
                        done = now;
                    }
                    let pk = row.by_indices(&self.pk_indices);
                    cached.insert(pk, JoinRow::from_row(row));
                },
                Some(Err(error)) => {
                    return Err(RwError::from(error));
                },
                None => {
                    assert(all =~= done);
                    break ;
                },
            }
        }
        Ok(Some(cached))
    }

    /// Empties the state table's buffer into a batch that is to be written to the store as of the
    /// current epoch, the values with their metadata.
    pub fn flush(&mut self) -> (batch: WriteBatch)
        requires
            old(self).wf(),
        ensures
            final(self).wf(),
            final(self).same_setup(old(self)),
            final(self).inner() == old(self).inner(),
            final(self).state_table().same_layout(&old(self).state_table()),
            final(self).state_table().mem_table()@ == Map::<Seq<u8>, RowOpView>::empty(),
            sorted(op_entries(batch.rows@)),
            to_map(op_entries(batch.rows@)) == old(self).state_table().mem_table()@,
            batch.epoch == old(self).current_epoch(),
            batch.with_value_meta,
    {
        self.state_table.commit_with_value_meta(self.current_epoch)
    }

    /// What a flush comes to, given how the store took the batch.
    pub fn flush_result(written: StorageResult<()>) -> (result: RwResult<()>)
        ensures
            match written {
                Ok(_) => result is Ok,
                Err(error) => result == Err::<(), RwError>(
                    RwError::StorageError(Box::new(error)),
                ),
            },
    {
        match written {
            Ok(_) => Ok(()),
            Err(error) => Err(RwError::from(error)),
        }
    }

    /// Adds a row: to the cached rows of its join key, where they are cached, and with its degree
    /// to the state table. The cache has the row even where the join key cannot be decoded or the
    /// state table refuses the row.
    pub fn insert<
        D: Fn(&HashKey, &Vec<DataType>) -> RwResult<Row>,
        F: Fn(&Row, &OrderedRowSerializer) -> Vec<u8>,
    >(
        &mut self,
        join_key: &HashKey,
        pk: Row,
        value: JoinRow,
        deserialize: D,
        serialize_pk: F,
    ) -> (result: RwResult<()>)
        requires
            old(self).wf(),
            call_requires(deserialize, (join_key, &old(self).join_key_data_types())),
            // The columns of the primary key are read only where the join key can be decoded.
            forall|row: Row| #[trigger]
                call_ensures(
                    deserialize,
                    (join_key, &old(self).join_key_data_types()),
                    Ok::<Row, RwError>(row),
                ) ==> indices_within(old(self).pk_indices(), with_degree(value@).len()) && encodable(
                    serialize_pk,
                    project(with_degree(value@), old(self).pk_indices()),
                    old(self).state_table().order_types(),
                ),
        ensures
            final(self).wf(),
            final(self).same_setup(old(self)),
            final(self).state_table().same_layout(&old(self).state_table()),
            entry_becomes(
                old(self).inner(),
                final(self).inner(),
                join_key@,
                old(self).inner()@[join_key@]@.insert(pk@, value@),
            ),
            exists|decoded: RwResult<Row>| #[trigger]
                call_ensures(deserialize, (join_key, &old(self).join_key_data_types()), decoded)
                    && match decoded {
                    Ok(_) => exists|key: Seq<u8>| #[trigger]
                        encodes(
                            serialize_pk,
                            project(with_degree(value@), old(self).pk_indices()),
                            old(self).state_table().order_types(),
                            key,
                        ) && row_inserted(
                            old(self).state_table().mem_table(),
                            final(self).state_table().mem_table(),
                            key,
                            with_degree(value@),
                            result,
                        ),
                    Err(error) => {
                        &&& result == Err::<(), RwError>(error)
                        &&& final(self).state_table() == old(self).state_table()
                    },
                },
    {
        match self.inner.get_mut(&join_key.0) {
            Some(entry) => {
                entry.insert(pk, value.clone());
            },
            None => {},
        }
        let decoded = deserialize(join_key, &self.join_key_data_types);
        match decoded {
            Ok(_) => {},
            Err(error) => {
                return Err(error);
            },
        }
        // Where no cache is kept, only the buffer of the state table is updated.
        let inserted_row = self.state_table.insert(value.into_row(), serialize_pk);
        match inserted_row {
            Ok(_) => Ok(()),
            Err(error) => Err(RwError::from(error)),
        }
    }

    /// Takes a row away: from the cached rows of its join key, where they are cached, and from the
    /// state table, where `value` is the row with its degree. The cache has the row no longer even
    /// where the join key cannot be decoded or the state table refuses to delete the row.
    pub fn delete<
        D: Fn(&HashKey, &Vec<DataType>) -> RwResult<Row>,
        F: Fn(&Row, &OrderedRowSerializer) -> Vec<u8>,
    >(
        &mut self,
        join_key: &HashKey,
        pk: Row,
        value: Row,
        deserialize: D,
        serialize_pk: F,
    ) -> (result: RwResult<()>)
        requires
            old(self).wf(),
            call_requires(deserialize, (join_key, &old(self).join_key_data_types())),
            // The columns of the primary key are read only where the join key can be decoded.
            forall|row: Row| #[trigger]
                call_ensures(
                    deserialize,
                    (join_key, &old(self).join_key_data_types()),
                    Ok::<Row, RwError>(row),
                ) ==> indices_within(old(self).pk_indices(), value@.len()) && encodable(
                    serialize_pk,
                    project(value@, old(self).pk_indices()),
                    old(self).state_table().order_types(),
                ),
        ensures
            final(self).wf(),
            final(self).same_setup(old(self)),
            final(self).state_table().same_layout(&old(self).state_table()),
            entry_becomes(
                old(self).inner(),
                final(self).inner(),
                join_key@,
                old(self).inner()@[join_key@]@.remove(pk@),
            ),
            exists|decoded: RwResult<Row>| #[trigger]
                call_ensures(deserialize, (join_key, &old(self).join_key_data_types()), decoded)
                    && match decoded {
                    Ok(_) => exists|key: Seq<u8>| #[trigger]
                        encodes(
                            serialize_pk,
                            project(value@, old(self).pk_indices()),
                            old(self).state_table().order_types(),
                            key,
                        ) && row_deleted(
                            old(self).state_table().mem_table(),
                            final(self).state_table().mem_table(),
                            key,
                            value@,
                            result,
                        ),
                    Err(error) => {
                        &&& result == Err::<(), RwError>(error)
                        &&& final(self).state_table() == old(self).state_table()
                    },
                },
    {
        match self.inner.get_mut(&join_key.0) {
            Some(entry) => {
                entry.remove(pk);
            },
            None => {},
        }
        let decoded = deserialize(join_key, &self.join_key_data_types);
        match decoded {
            Ok(_) => {},
            Err(error) => {
                return Err(error);
            },
        }
        // Where no cache is kept, only the buffer of the state table is updated.
        let deleted_row = self.state_table.delete(value, serialize_pk);
        match deleted_row {
            Ok(_) => Ok(()),
            Err(error) => Err(RwError::from(error)),
        }
    }
}

/// A key that was just put to the front is at the front when it is used again.
proof fn lemma_used_again<V>(entries: Seq<(Seq<u8>, V)>, key: Seq<u8>, value: V)
    requires
        distinct(entries),
        !holds_key(entries, key),
    ensures
        used(put_first(entries, key, value), key) == put_first(entries, key, value),
        forall|v: V| #[trigger] put_first(entries, key, value).update(0, (key, v)) == put_first(
            entries,
            key,
            v,
        ),
        forall|v: V|
            to_map(entries).insert(key, value).insert(key, v) == #[trigger] to_map(entries).insert(
                key,
                v,
            ),
{
    let after = put_first(entries, key, value);
    lemma_put_first(entries, key, value);
    lemma_to_map(after);
    assert(after[0].0 == key);
    assert(place_of(after, key) == 0);
    assert(used(after, key) =~= after);
    assert forall|v: V| #[trigger] after.update(0, (key, v)) == put_first(entries, key, v) by {
        assert(after.update(0, (key, v)) =~= put_first(entries, key, v));
    }
    assert forall|v: V|
        to_map(entries).insert(key, value).insert(key, v) == #[trigger] to_map(entries).insert(
            key,
            v,
        ) by {
        assert(to_map(entries).insert(key, value).insert(key, v) =~= to_map(entries).insert(
            key,
            v,
        ));
    }
}

/// The buffer took a new row under `key`, or refused it and stayed as it was.
pub open spec fn row_inserted(
    before: MemTable,
    after: MemTable,
    key: Seq<u8>,
    row: RowView,
    result: RwResult<()>,
) -> bool {
    match result {
        Ok(_) => {
            &&& !insert_refused(before@, key)
            &&& after@ == inserted(before@, key, row)
        },
        Err(error) => {
            &&& insert_refused(before@, key)
            &&& error == RwError::StorageError(
                Box::new(StorageError::StateTable(RwError::DoubleInsert)),
            )
            &&& after == before
        },
    }
}

/// The buffer took the deletion of a row under `key`, or refused it and stayed as it was.
pub open spec fn row_deleted(
    before: MemTable,
    after: MemTable,
    key: Seq<u8>,
    row: RowView,
    result: RwResult<()>,
) -> bool {
    match result {
        Ok(_) => {
            &&& !delete_refused(before@, key)
            &&& after@ == deleted(before@, key, row)
        },
        Err(error) => {
            &&& delete_refused(before@, key)
            &&& error == RwError::StorageError(
                Box::new(StorageError::StateTable(RwError::DoubleDelete)),
            )
            &&& after == before
        },
    }
}

impl<S> Deref for JoinHashMap<S> {
    type Target = EvictableHashMap<JoinEntryState>;

    fn deref(&self) -> (inner: &EvictableHashMap<JoinEntryState>)
        ensures
            *inner == self.inner(),
    {
        &self.inner
    }
}

impl<S> DerefMut for JoinHashMap<S> {
    fn deref_mut(&mut self) -> (inner: &mut EvictableHashMap<JoinEntryState>)
        ensures
            *inner == old(self).inner(),
            final(self).inner() == *final(inner),
            final(self).same_setup(old(self)),
            final(self).state_table() == old(self).state_table(),
    {
        &mut self.inner
    }
}

} // verus!
