//! The state table: relational rows in a key-value store, with a buffer for the current epoch.

use vstd::prelude::*;
use std::sync::Arc;
use crate::catalog::{
    copy_column_descs, ColumnDesc, ColumnDescMapping, OrderType, OrderedRowSerializer,
};
use crate::entries::{lookup, sorted, to_map, within};
use crate::error::{err, RwError, StorageError, StorageResult};
use crate::key::{
    admits, bounds_in_order, bounds_of_prefix, copy_key, has_prefix, in_order,
    lemma_key_lt_prefixed, lemma_prefix_bounds, prefix_bounds, Bound, Keyspace,
};
use crate::mem_table::{
    delete_refused, deleted, insert_refused, inserted, lemma_lookup_overlay, op_entries,
    overlay, updates_stored, MemTable, RowOp, RowOpView,
};
use crate::merge::{lemma_scan_of_a_range, lemma_stored_updates_are_met, merged, updates_met};
use crate::row::{copy_indices, indices_within, project, Row, RowView};
use crate::row_iter::StateTableRowIter;

verus! {

/// `serialize_pk` takes the key row `pk` with columns of these directions.
pub open spec fn encodable<F: Fn(&Row, &OrderedRowSerializer) -> Vec<u8>>(
    serialize_pk: F,
    pk: RowView,
    order_types: Seq<OrderType>,
) -> bool {
    forall|row: Row, serializer: OrderedRowSerializer|
        row@ == pk && serializer.order_types@ == order_types ==> #[trigger] call_requires(
            serialize_pk,
            (&row, &serializer),
        )
}

/// `serialize_pk` may turn the key row `pk` with columns of these directions into the bytes `key`.
pub open spec fn encodes<F: Fn(&Row, &OrderedRowSerializer) -> Vec<u8>>(
    serialize_pk: F,
    pk: RowView,
    order_types: Seq<OrderType>,
    key: Seq<u8>,
) -> bool {
    exists|row: Row, serializer: OrderedRowSerializer, bytes: Vec<u8>|
        row@ == pk && serializer.order_types@ == order_types && bytes@ == key
            && #[trigger] call_ensures(serialize_pk, (&row, &serializer), bytes)
}

/// [`encodable`], of the key row in a bound.
pub open spec fn encodable_bound<F: Fn(&Row, &OrderedRowSerializer) -> Vec<u8>>(
    serialize_pk: F,
    bound: Bound<RowView>,
    order_types: Seq<OrderType>,
) -> bool {
    match bound {
        Bound::Included(pk) => encodable(serialize_pk, pk, order_types),
        Bound::Excluded(pk) => encodable(serialize_pk, pk, order_types),
        Bound::Unbounded => true,
    }
}

/// [`encodes`], of the key row in a bound. A bound stays of its kind.
pub open spec fn encodes_bound<F: Fn(&Row, &OrderedRowSerializer) -> Vec<u8>>(
    serialize_pk: F,
    bound: Bound<RowView>,
    order_types: Seq<OrderType>,
    key_bound: Bound<Seq<u8>>,
) -> bool {
    match (bound, key_bound) {
        (Bound::Included(pk), Bound::Included(key)) => encodes(serialize_pk, pk, order_types, key),
        (Bound::Excluded(pk), Bound::Excluded(key)) => encodes(serialize_pk, pk, order_types, key),
        (Bound::Unbounded, Bound::Unbounded) => true,
        _ => false,
    }
}

/// A bound on the keys of a table, as a bound on the keys of its store.
pub open spec fn prefixed_bound(prefix: Seq<u8>, bound: Bound<Seq<u8>>) -> Bound<Seq<u8>> {
    match bound {
        Bound::Included(key) => Bound::Included(prefix + key),
        Bound::Excluded(key) => Bound::Excluded(prefix + key),
        Bound::Unbounded => Bound::Unbounded,
    }
}

/// Storage and the buffer are scanned over the same keys: a key of the table lies in a range if
/// and only if the store's key for it lies in the range that the store is asked for.
pub proof fn lemma_prefixed_bounds(
    prefix: Seq<u8>,
    bounds: (Bound<Seq<u8>>, Bound<Seq<u8>>),
    key: Seq<u8>,
)
    ensures
        admits(
            (prefixed_bound(prefix, bounds.0), prefixed_bound(prefix, bounds.1)),
            prefix + key,
        ) <==> admits(bounds, key),
{
    match bounds.0 {
        Bound::Included(start) => lemma_key_lt_prefixed(prefix, start, key),
        Bound::Excluded(start) => lemma_key_lt_prefixed(prefix, start, key),
        Bound::Unbounded => {},
    }
    match bounds.1 {
        Bound::Included(end) => lemma_key_lt_prefixed(prefix, key, end),
        Bound::Excluded(end) => lemma_key_lt_prefixed(prefix, key, end),
        Bound::Unbounded => {},
    }
}

/// A scan of a key prefix reads exactly the keys with that prefix, in storage and in the buffer
/// alike, and no key of another table.
pub proof fn lemma_prefix_scan(keyspace: Seq<u8>, pk_prefix: Seq<u8>, key: Seq<u8>)
    ensures
        admits(prefix_bounds(pk_prefix), key) <==> has_prefix(key, pk_prefix),
        admits(prefix_bounds(keyspace + pk_prefix), keyspace + key) <==> has_prefix(key, pk_prefix),
        admits(prefix_bounds(keyspace + pk_prefix), key) ==> has_prefix(key, keyspace),
{
    lemma_prefix_bounds(pk_prefix, key);
    lemma_prefix_bounds(keyspace + pk_prefix, keyspace + key);
    lemma_prefix_bounds(keyspace + pk_prefix, key);
    if has_prefix(key, pk_prefix) {
        assert(has_prefix(keyspace + key, keyspace + pk_prefix));
    }
    if has_prefix(keyspace + key, keyspace + pk_prefix) {
        assert forall|i: int| 0 <= i < pk_prefix.len() implies key[i] == pk_prefix[i] by {
            assert((keyspace + key)[keyspace.len() + i] == (keyspace + pk_prefix)[keyspace.len()
                + i]);
        }
    }
    if has_prefix(key, keyspace + pk_prefix) {
        assert forall|i: int| 0 <= i < keyspace.len() implies key[i] == keyspace[i] by {
            assert((keyspace + pk_prefix)[i] == keyspace[i]);
        }
    }
}

/// The encoding of a row's columns into cells.
#[derive(Clone, Copy, Debug, PartialEq, Eq, Structural)]
pub struct CellBasedRowSerializer;

impl CellBasedRowSerializer {
    pub fn new() -> (serializer: Self)
        ensures
            serializer == CellBasedRowSerializer,
    {
        CellBasedRowSerializer
    }
}

/// The layer that lays rows out as cells in the store: how it does so.
pub struct CellBasedTableExtended<SER> {
    pub column_descs: Vec<ColumnDesc>,
    pub pk_serializer: Option<OrderedRowSerializer>,
    pub dist_key_indices: Option<Vec<usize>>,
    pub cell_based_row_serializer: SER,
}

/// The operations that a commit hands to the store.
#[derive(Debug)]
pub struct WriteBatch {
    /// The operations, in the order of their keys.
    pub rows: Vec<(Vec<u8>, RowOp)>,
    /// The epoch as of which they hold.
    pub epoch: u64,
    /// Whether the values are written with their metadata.
    pub with_value_meta: bool,
}

/// Where a row is to be found.
#[derive(Debug)]
pub enum RowLookup {
    /// The buffer knows: this is the row, or there is none.
    Buffered(Option<Row>),
    /// Storage has to be asked, as of this epoch.
    Stored { epoch: u64 },
}

impl RowLookup {
    /// The row, given what storage answered.
    pub open spec fn resolved(self, stored: StorageResult<Option<Row>>) -> StorageResult<Option<Row>> {
        match self {
            RowLookup::Buffered(row) => Ok(row),
            RowLookup::Stored { .. } => stored,
        }
    }

    /// The row, given what storage answered. The answer counts only where storage had to be asked.
    pub fn resolve(self, stored: StorageResult<Option<Row>>) -> (row: StorageResult<Option<Row>>)
        ensures
            row == self.resolved(stored),
    {
        match self {
            RowLookup::Buffered(row) => Ok(row),
            RowLookup::Stored { .. } => stored,
        }
    }

    /// The lookup finds what the buffer decides, and turns to storage where it does not.
    pub open spec fn finds(self, op: Option<RowOpView>, epoch: u64) -> bool {
        match op {
            Some(op) => match op.row_after() {
                Some(row) => self matches RowLookup::Buffered(Some(found)) && found@ == row,
                None => self == RowLookup::Buffered(None),
            },
            None => self == (RowLookup::Stored { epoch }),
        }
    }
}

/// A row that was looked up in the buffer, and then in storage where it had to be, is the row that
/// would stand if the buffer were carried out on what is stored.
pub proof fn lemma_get_row_reads_own_writes(
    stored: Map<Seq<u8>, RowView>,
    ops: Map<Seq<u8>, RowOpView>,
    key: Seq<u8>,
    epoch: u64,
    found: RowLookup,
    answer: Option<Row>,
)
    requires
        found.finds(lookup(ops, key), epoch),
        answer.deep_view() == lookup(stored, key),
    ensures
        found.resolved(Ok(answer)) matches Ok(row) && row.deep_view() == lookup(
            overlay(stored, ops),
            key,
        ),
{
    lemma_lookup_overlay(stored, ops, key);
}

/// The interface to relational data in a store, with rows encoded as cells.
pub struct StateTableExtended<S, SER> {
    keyspace: Keyspace<S>,
    column_mapping: Arc<ColumnDescMapping>,
    mem_table: MemTable,
    cell_based_table: CellBasedTableExtended<SER>,
    pk_indices: Vec<usize>,
}

pub type StateTable<S> = StateTableExtended<S, CellBasedRowSerializer>;

impl<S> StateTable<S> {
    /// A table over `keyspace` whose rows are laid out as plain cells.
    pub fn new(
        keyspace: Keyspace<S>,
        column_descs: Vec<ColumnDesc>,
        order_types: Vec<OrderType>,
        dist_key_indices: Option<Vec<usize>>,
        pk_indices: Vec<usize>,
    ) -> (table: Self)
        ensures
            table.wf(),
            table.mem_table()@ == Map::<Seq<u8>, RowOpView>::empty(),
            table.keyspace() == keyspace,
            table.column_descs() == column_descs@,
            table.order_types() == order_types@,
            table.dist_key_indices() == dist_key_indices.deep_view(),
            table.pk_indices() == pk_indices@,
            table.cell_based_row_serializer() == CellBasedRowSerializer,
    {
        StateTableExtended::new_extended(
            keyspace,
            column_descs,
            order_types,
            dist_key_indices,
            pk_indices,
            CellBasedRowSerializer::new(),
        )
    }
}

impl<S, SER> StateTableExtended<S, SER> {
    /// The part of the store in which the rows stand.
    pub closed spec fn keyspace(&self) -> Keyspace<S> {
        self.keyspace
    }

    /// The operations of the current epoch.
    pub closed spec fn mem_table(&self) -> MemTable {
        self.mem_table
    }

    /// The columns by which stored rows are read.
    pub closed spec fn column_mapping(&self) -> Arc<ColumnDescMapping> {
        self.column_mapping
    }

    /// The columns of the table's rows.
    pub closed spec fn column_descs(&self) -> Seq<ColumnDesc> {
        self.cell_based_table.column_descs@
    }

    /// How key rows become keys.
    pub closed spec fn pk_serializer(&self) -> OrderedRowSerializer {
        self.cell_based_table.pk_serializer.unwrap()
    }

    /// The direction of each column of a key.
    pub open spec fn order_types(&self) -> Seq<OrderType> {
        self.pk_serializer().order_types@
    }

    /// The columns by which the rows are distributed, where they are.
    pub closed spec fn dist_key_indices(&self) -> Option<Seq<usize>> {
        self.cell_based_table.dist_key_indices.deep_view()
    }

    /// How rows are encoded into cells.
    pub closed spec fn cell_based_row_serializer(&self) -> SER {
        self.cell_based_table.cell_based_row_serializer
    }

    /// The columns of a row that make up its key.
    pub closed spec fn pk_indices(&self) -> Seq<usize> {
        self.pk_indices@
    }

    /// The key row of a row.
    pub open spec fn pk_of(&self, row: RowView) -> RowView {
        project(row, self.pk_indices())
    }

    /// The buffer is in order, key rows can be serialized, and storage is read by the columns that
    /// it is written by.
    pub closed spec fn wf(&self) -> bool {
        &&& self.mem_table.wf()
        &&& self.cell_based_table.pk_serializer is Some
        &&& self.column_mapping.column_descs@ == self.cell_based_table.column_descs@
    }

    /// The two tables differ at most in what is buffered.
    pub open spec fn same_layout(&self, other: &Self) -> bool {
        &&& self.keyspace() == other.keyspace()
        &&& self.column_mapping() == other.column_mapping()
        &&& self.column_descs() == other.column_descs()
        &&& self.pk_serializer() == other.pk_serializer()
        &&& self.dist_key_indices() == other.dist_key_indices()
        &&& self.cell_based_row_serializer() == other.cell_based_row_serializer()
        &&& self.pk_indices() == other.pk_indices()
    }

    /// The buffer of a table is in order, and storage is read by the table's columns.
    pub proof fn lemma_wf(&self)
        requires
            self.wf(),
        ensures
            self.mem_table().wf(),
            self.column_mapping().column_descs@ == self.column_descs(),
    {
    }

    /// `iter` scans this table as of `epoch`: the store over `storage`, and the buffer over `keys`.
    pub open spec fn is_scan(
        &self,
        iter: StateTableRowIter<'_, S>,
        storage: (Bound<Seq<u8>>, Bound<Seq<u8>>),
        keys: (Bound<Seq<u8>>, Bound<Seq<u8>>),
        epoch: u64,
    ) -> bool {
        &&& iter.wf()
        &&& *iter.keyspace == self.keyspace()
        &&& iter.table_descs == self.column_mapping()
        &&& iter.bounds() == storage
        &&& iter.epoch == epoch
        &&& sorted(iter.rest())
        &&& to_map(iter.rest()) == within(self.mem_table()@, keys)
    }

    /// A scan of the table reads what was written to it: where storage delivers the stored rows
    /// of the range in the order of their keys, the scan yields, in that order, exactly the rows of
    /// the range that would stand if the buffer were carried out on what is stored.
    pub proof fn lemma_scan_reads_own_writes(
        &self,
        iter: StateTableRowIter<'_, S>,
        storage: (Bound<Seq<u8>>, Bound<Seq<u8>>),
        keys: (Bound<Seq<u8>>, Bound<Seq<u8>>),
        epoch: u64,
        stored: Map<Seq<u8>, RowView>,
        delivered: Seq<(Seq<u8>, RowView)>,
    )
        requires
            self.is_scan(iter, storage, keys, epoch),
            sorted(delivered),
            to_map(delivered) == within(stored, keys),
        ensures
            sorted(merged(delivered, iter.rest(), false)),
            to_map(merged(delivered, iter.rest(), false)) == within(
                overlay(stored, self.mem_table()@),
                keys,
            ),
            updates_stored(stored, self.mem_table()@) ==> updates_met(delivered, iter.rest()),
    {
        lemma_scan_of_a_range(stored, self.mem_table()@, keys, delivered, iter.rest());
        if updates_stored(stored, self.mem_table()@) {
            lemma_stored_updates_are_met(
                stored,
                self.mem_table()@,
                keys,
                delivered,
                iter.rest(),
            );
        }
    }

    /// A table over `keyspace` with an empty buffer.
    pub fn new_extended(
        keyspace: Keyspace<S>,
        column_descs: Vec<ColumnDesc>,
        order_types: Vec<OrderType>,
        dist_key_indices: Option<Vec<usize>>,
        pk_indices: Vec<usize>,
        cell_based_row_serializer: SER,
    ) -> (table: Self)
        ensures
            table.wf(),
            table.mem_table()@ == Map::<Seq<u8>, RowOpView>::empty(),
            table.keyspace() == keyspace,
            table.column_descs() == column_descs@,
            table.order_types() == order_types@,
            table.dist_key_indices() == dist_key_indices.deep_view(),
            table.pk_indices() == pk_indices@,
            table.cell_based_row_serializer() == cell_based_row_serializer,
    {
        let cell_based_column_descs = copy_column_descs(&column_descs);
        StateTableExtended {
            keyspace,
            column_mapping: Arc::new(ColumnDescMapping { column_descs }),
            mem_table: MemTable::new(),
            cell_based_table: CellBasedTableExtended {
                column_descs: cell_based_column_descs,
                pk_serializer: Some(OrderedRowSerializer::new(order_types)),
                dist_key_indices,
                cell_based_row_serializer,
            },
            pk_indices,
        }
    }

    /// The part of the store in which the rows stand.
    pub fn get_keyspace(&self) -> (keyspace: &Keyspace<S>)
        ensures
            *keyspace == self.keyspace(),
    {
        &self.keyspace
    }

    /// How rows are laid out in the store.
    pub fn get_cell_based_table(&self) -> (table: &CellBasedTableExtended<SER>)
        requires
            self.wf(),
        ensures
            table.column_descs@ == self.column_descs(),
            table.pk_serializer == Some(self.pk_serializer()),
            table.dist_key_indices.deep_view() == self.dist_key_indices(),
            table.cell_based_row_serializer == self.cell_based_row_serializer(),
    {
        &self.cell_based_table
    }

    /// The columns of a row that make up its key.
    pub fn get_pk_indices(&self) -> (pk_indices: &Vec<usize>)
        ensures
            pk_indices@ == self.pk_indices(),
    {
        &self.pk_indices
    }

    /// The key under which a key row stands.
    fn key_of<F: Fn(&Row, &OrderedRowSerializer) -> Vec<u8>>(
        &self,
        pk: &Row,
        serialize_pk: &F,
    ) -> (key: Vec<u8>)
        requires
            self.wf(),
            encodable(*serialize_pk, pk@, self.order_types()),
        ensures
            call_ensures(*serialize_pk, (pk, &self.pk_serializer()), key),
            encodes(*serialize_pk, pk@, self.order_types(), key@),
    {
        let serializer = self.cell_based_table.pk_serializer.as_ref().unwrap();
        let key = serialize_pk(pk, serializer);
        key
    }

    /// Looks the row with the key row `pk` up in the buffer. An inserted or updated row is found
    /// there, a deleted one is known to be gone, and any other has to be read from storage as of
    /// `epoch`.
    pub fn get_row<F: Fn(&Row, &OrderedRowSerializer) -> Vec<u8>>(
        &self,
        pk: &Row,
        epoch: u64,
        serialize_pk: F,
    ) -> (found: RowLookup)
        requires
            self.wf(),
            encodable(serialize_pk, pk@, self.order_types()),
        ensures
            exists|key: Vec<u8>| #[trigger]
                call_ensures(serialize_pk, (pk, &self.pk_serializer()), key) && encodes(
                    serialize_pk,
                    pk@,
                    self.order_types(),
                    key@,
                ) && found.finds(lookup(self.mem_table()@, key@), epoch),
    {
        let key = self.key_of(pk, &serialize_pk);
        match self.mem_table.get_row(&key) {
            Some(op) => match op.row_after() {
                Some(row) => RowLookup::Buffered(Some(row.clone())),
                None => RowLookup::Buffered(None),
            },
            None => RowLookup::Stored { epoch },
        }
    }

    /// Buffers a new row under the key that its key columns spell out.
    pub fn insert<F: Fn(&Row, &OrderedRowSerializer) -> Vec<u8>>(
        &mut self,
        value: Row,
        serialize_pk: F,
    ) -> (result: StorageResult<()>)
        requires
            old(self).wf(),
            indices_within(old(self).pk_indices(), value@.len()),
            encodable(serialize_pk, old(self).pk_of(value@), old(self).order_types()),
        ensures
            final(self).wf(),
            final(self).same_layout(old(self)),
            exists|pk: Row, key: Vec<u8>|
                pk@ == old(self).pk_of(value@) && #[trigger] call_ensures(
                    serialize_pk,
                    (&pk, &old(self).pk_serializer()),
                    key,
                ) && encodes(
                    serialize_pk,
                    old(self).pk_of(value@),
                    old(self).order_types(),
                    key@,
                ) && match result {
                    Ok(_) => {
                        &&& !insert_refused(old(self).mem_table()@, key@)
                        &&& final(self).mem_table()@ == inserted(
                            old(self).mem_table()@,
                            key@,
                            value@,
                        )
                    },
                    Err(error) => {
                        &&& insert_refused(old(self).mem_table()@, key@)
                        &&& error == StorageError::StateTable(RwError::DoubleInsert)
                        &&& final(self).mem_table() == old(self).mem_table()
                    },
                },
    {
        let pk = value.by_indices(&self.pk_indices);
        let key = self.key_of(&pk, &serialize_pk);
        match self.mem_table.insert(key, value) {
            Ok(_) => Ok(()),
            Err(error) => Err(err(error)),
        }
    }

    /// Buffers the deletion of a row under the key that its key columns spell out.
    pub fn delete<F: Fn(&Row, &OrderedRowSerializer) -> Vec<u8>>(
        &mut self,
        old_value: Row,
        serialize_pk: F,
    ) -> (result: StorageResult<()>)
        requires
            old(self).wf(),
            indices_within(old(self).pk_indices(), old_value@.len()),
            encodable(serialize_pk, old(self).pk_of(old_value@), old(self).order_types()),
        ensures
            final(self).wf(),
            final(self).same_layout(old(self)),
            exists|pk: Row, key: Vec<u8>|
                pk@ == old(self).pk_of(old_value@) && #[trigger] call_ensures(
                    serialize_pk,
                    (&pk, &old(self).pk_serializer()),
                    key,
                ) && encodes(
                    serialize_pk,
                    old(self).pk_of(old_value@),
                    old(self).order_types(),
                    key@,
                ) && match result {
                    Ok(_) => {
                        &&& !delete_refused(old(self).mem_table()@, key@)
                        &&& final(self).mem_table()@ == deleted(
                            old(self).mem_table()@,
                            key@,
                            old_value@,
                        )
                    },
                    Err(error) => {
                        &&& delete_refused(old(self).mem_table()@, key@)
                        &&& error == StorageError::StateTable(RwError::DoubleDelete)
                        &&& final(self).mem_table() == old(self).mem_table()
                    },
                },
    {
        let pk = old_value.by_indices(&self.pk_indices);
        let key = self.key_of(&pk, &serialize_pk);
        match self.mem_table.delete(key, old_value) {
            Ok(_) => Ok(()),
            Err(error) => Err(err(error)),
        }
    }

    /// Empties the buffer and hands over what was in it.
    fn take_batch(&mut self, epoch: u64, with_value_meta: bool) -> (batch: WriteBatch)
        requires
            old(self).wf(),
        ensures
            final(self).wf(),
            final(self).same_layout(old(self)),
            final(self).mem_table()@ == Map::<Seq<u8>, RowOpView>::empty(),
            op_entries(batch.rows@) == old(self).mem_table().entries(),
            batch.epoch == epoch,
            batch.with_value_meta == with_value_meta,
    {
        let mut mem_table = MemTable::new();
        std::mem::swap(&mut self.mem_table, &mut mem_table);
        WriteBatch { rows: mem_table.into_parts(), epoch, with_value_meta }
    }

    /// Empties the buffer into a batch that is to be written to the store as of `new_epoch`. The
    /// buffer is empty whether or not the store then takes the batch.
    pub fn commit(&mut self, new_epoch: u64) -> (batch: WriteBatch)
        requires
            old(self).wf(),
        ensures
            final(self).wf(),
            final(self).same_layout(old(self)),
            final(self).mem_table()@ == Map::<Seq<u8>, RowOpView>::empty(),
            sorted(op_entries(batch.rows@)),
            to_map(op_entries(batch.rows@)) == old(self).mem_table()@,
            batch.epoch == new_epoch,
            !batch.with_value_meta,
    {
        self.take_batch(new_epoch, false)
    }

    /// As [`Self::commit`], but the values are to be written with their metadata.
    pub fn commit_with_value_meta(&mut self, new_epoch: u64) -> (batch: WriteBatch)
        requires
            old(self).wf(),
        ensures
            final(self).wf(),
            final(self).same_layout(old(self)),
            final(self).mem_table()@ == Map::<Seq<u8>, RowOpView>::empty(),
            sorted(op_entries(batch.rows@)),
            to_map(op_entries(batch.rows@)) == old(self).mem_table()@,
            batch.epoch == new_epoch,
            batch.with_value_meta,
    {
        self.take_batch(new_epoch, true)
    }

    /// A scan of the store within `cell_based_bounds`, merged with the buffer within the bounds
    /// `start` and `end`.
    fn scan(
        &self,
        cell_based_bounds: (Bound<Vec<u8>>, Bound<Vec<u8>>),
        start: &Bound<Vec<u8>>,
        end: &Bound<Vec<u8>>,
        epoch: u64,
    ) -> (iter: StateTableRowIter<'_, S>)
        requires
            self.wf(),
            in_order((start@, end@)),
        ensures
            self.is_scan(
                iter,
                (cell_based_bounds.0@, cell_based_bounds.1@),
                (start@, end@),
                epoch,
            ),
    {
        let mem_table_iter = self.mem_table.range(start, end);
        StateTableRowIter::new(
            &self.keyspace,
            self.column_mapping.clone(),
            mem_table_iter,
            cell_based_bounds,
            epoch,
        )
    }

    /// A scan of all rows of the table.
    pub fn iter(&self, epoch: u64) -> (iter: StateTableRowIter<'_, S>)
        requires
            self.wf(),
        ensures
            self.is_scan(
                iter,
                prefix_bounds(self.keyspace().prefix@),
                (Bound::Unbounded, Bound::Unbounded),
                epoch,
            ),
            to_map(iter.rest()) == self.mem_table()@,
    {
        let cell_based_bounds = bounds_of_prefix(copy_key(self.keyspace.key()));
        let iter = self.scan(cell_based_bounds, &Bound::Unbounded, &Bound::Unbounded, epoch);
        assert(to_map(iter.rest()) =~= self.mem_table()@);
        iter
    }

    /// A scan of the rows whose keys lie within `key_bounds`.
    pub fn iter_with_key_bounds(
        &self,
        key_bounds: (Bound<Vec<u8>>, Bound<Vec<u8>>),
        epoch: u64,
    ) -> (iter: StateTableRowIter<'_, S>)
        requires
            self.wf(),
            in_order((key_bounds.0@, key_bounds.1@)),
        ensures
            self.is_scan(
                iter,
                (
                    prefixed_bound(self.keyspace().prefix@, key_bounds.0@),
                    prefixed_bound(self.keyspace().prefix@, key_bounds.1@),
                ),
                (key_bounds.0@, key_bounds.1@),
                epoch,
            ),
    {
        let cell_based_bounds = (
            self.stored_bound(&key_bounds.0),
            self.stored_bound(&key_bounds.1),
        );
        self.scan(cell_based_bounds, &key_bounds.0, &key_bounds.1, epoch)
    }

    /// The bound on the store's keys that a bound on the table's keys amounts to.
    fn stored_bound(&self, bound: &Bound<Vec<u8>>) -> (stored: Bound<Vec<u8>>)
        ensures
            stored@ == prefixed_bound(self.keyspace().prefix@, bound@),
    {
        match bound {
            Bound::Included(key) => Bound::Included(self.keyspace.prefixed_key(key)),
            Bound::Excluded(key) => Bound::Excluded(self.keyspace.prefixed_key(key)),
            Bound::Unbounded => Bound::Unbounded,
        }
    }

    /// The bound on the table's keys that a bound on key rows amounts to.
    fn key_bound<F: Fn(&Row, &OrderedRowSerializer) -> Vec<u8>>(
        &self,
        bound: &Bound<Row>,
        serialize_pk: &F,
    ) -> (key_bound: Bound<Vec<u8>>)
        requires
            self.wf(),
            encodable_bound(*serialize_pk, bound@, self.order_types()),
        ensures
            encodes_bound(*serialize_pk, bound@, self.order_types(), key_bound@),
    {
        match bound {
            Bound::Included(pk) => Bound::Included(self.key_of(pk, serialize_pk)),
            Bound::Excluded(pk) => Bound::Excluded(self.key_of(pk, serialize_pk)),
            Bound::Unbounded => Bound::Unbounded,
        }
    }

    /// A scan of the rows whose key rows lie within `pk_bounds`. The keys of the bounds have to be
    /// in order, so where columns descend the start is the larger of the two key rows.
    pub fn iter_with_pk_bounds<F: Fn(&Row, &OrderedRowSerializer) -> Vec<u8>>(
        &self,
        pk_bounds: &(Bound<Row>, Bound<Row>),
        epoch: u64,
        serialize_pk: F,
    ) -> (iter: StateTableRowIter<'_, S>)
        requires
            self.wf(),
            encodable_bound(serialize_pk, pk_bounds.0@, self.order_types()),
            encodable_bound(serialize_pk, pk_bounds.1@, self.order_types()),
            forall|start: Bound<Seq<u8>>, end: Bound<Seq<u8>>|
                #[trigger] encodes_bound(serialize_pk, pk_bounds.0@, self.order_types(), start)
                    && #[trigger] encodes_bound(
                    serialize_pk,
                    pk_bounds.1@,
                    self.order_types(),
                    end,
                ) ==> in_order((start, end)),
        ensures
            exists|start: Bound<Seq<u8>>, end: Bound<Seq<u8>>|
                {
                    &&& #[trigger] encodes_bound(
                        serialize_pk,
                        pk_bounds.0@,
                        self.order_types(),
                        start,
                    )
                    &&& #[trigger] encodes_bound(
                        serialize_pk,
                        pk_bounds.1@,
                        self.order_types(),
                        end,
                    )
                    &&& self.is_scan(
                        iter,
                        (
                            prefixed_bound(self.keyspace().prefix@, start),
                            prefixed_bound(self.keyspace().prefix@, end),
                        ),
                        (start, end),
                        epoch,
                    )
                },
    {
        let start = self.key_bound(&pk_bounds.0, &serialize_pk);
        let end = self.key_bound(&pk_bounds.1, &serialize_pk);
        self.iter_with_key_bounds((start, end), epoch)
    }

    /// As [`Self::iter_with_pk_bounds`], but for any bounds: there is no scan where their keys are
    /// not in order.
    pub fn checked_iter_with_pk_bounds<F: Fn(&Row, &OrderedRowSerializer) -> Vec<u8>>(
        &self,
        pk_bounds: &(Bound<Row>, Bound<Row>),
        epoch: u64,
        serialize_pk: F,
    ) -> (iter: Option<StateTableRowIter<'_, S>>)
        requires
            self.wf(),
            encodable_bound(serialize_pk, pk_bounds.0@, self.order_types()),
            encodable_bound(serialize_pk, pk_bounds.1@, self.order_types()),
        ensures
            exists|start: Bound<Seq<u8>>, end: Bound<Seq<u8>>|
                {
                    &&& #[trigger] encodes_bound(
                        serialize_pk,
                        pk_bounds.0@,
                        self.order_types(),
                        start,
                    )
                    &&& #[trigger] encodes_bound(
                        serialize_pk,
                        pk_bounds.1@,
                        self.order_types(),
                        end,
                    )
                    &&& iter is Some <==> in_order((start, end))
                    &&& iter matches Some(iter) ==> self.is_scan(
                        iter,
                        (
                            prefixed_bound(self.keyspace().prefix@, start),
                            prefixed_bound(self.keyspace().prefix@, end),
                        ),
                        (start, end),
                        epoch,
                    )
                },
    {
        let start = self.key_bound(&pk_bounds.0, &serialize_pk);
        let end = self.key_bound(&pk_bounds.1, &serialize_pk);
        if bounds_in_order(&start, &end) {
            Some(self.iter_with_key_bounds((start, end), epoch))
        } else {
            None
        }
    }

    /// A scan of the rows whose keys start with what `prefix_serializer` makes of `pk_prefix`, or
    /// of all rows where there is no prefix.
    pub fn iter_with_pk_prefix<F: Fn(&Row, &OrderedRowSerializer) -> Vec<u8>>(
        &self,
        pk_prefix: Option<&Row>,
        prefix_serializer: OrderedRowSerializer,
        epoch: u64,
        serialize_pk: F,
    ) -> (iter: StateTableRowIter<'_, S>)
        requires
            self.wf(),
            pk_prefix matches Some(pk_prefix) ==> encodable(
                serialize_pk,
                pk_prefix@,
                prefix_serializer.order_types@,
            ),
        ensures
            match pk_prefix {
                Some(pk_prefix) => exists|key: Vec<u8>| #[trigger]
                    call_ensures(serialize_pk, (pk_prefix, &prefix_serializer), key) && encodes(
                        serialize_pk,
                        pk_prefix@,
                        prefix_serializer.order_types@,
                        key@,
                    ) && self.is_scan(
                        iter,
                        prefix_bounds(self.keyspace().prefix@ + key@),
                        prefix_bounds(key@),
                        epoch,
                    ),
                None => self.is_scan(
                    iter,
                    prefix_bounds(self.keyspace().prefix@),
                    (Bound::Unbounded, Bound::Unbounded),
                    epoch,
                ),
            },
    {
        match pk_prefix {
            Some(pk_prefix) => {
                let key = serialize_pk(pk_prefix, &prefix_serializer);
                assert(encodes(serialize_pk, pk_prefix@, prefix_serializer.order_types@, key@));
                let cell_based_bounds = bounds_of_prefix(self.keyspace.prefixed_key(&key));
                let (start, end) = bounds_of_prefix(key);
                self.scan(cell_based_bounds, &start, &end, epoch)
            },
            None => self.iter(epoch),
        }
    }
}

impl<S: Clone, SER: Clone> Clone for StateTableExtended<S, SER> {
    fn clone(&self) -> (copy: Self)
        ensures
            self.wf() ==> copy.wf(),
            copy.mem_table().entries() == self.mem_table().entries(),
            cloned(self.keyspace().store, copy.keyspace().store),
            copy.keyspace().prefix@ == self.keyspace().prefix@,
            copy.column_mapping() == self.column_mapping(),
            copy.column_descs() == self.column_descs(),
            self.wf() ==> copy.order_types() == self.order_types(),
            copy.dist_key_indices() == self.dist_key_indices(),
            cloned(self.cell_based_row_serializer(), copy.cell_based_row_serializer()),
            copy.pk_indices() == self.pk_indices(),
    {
        let pk_serializer = match &self.cell_based_table.pk_serializer {
            Some(serializer) => Some(serializer.clone()),
            None => None,
        };
        let dist_key_indices = match &self.cell_based_table.dist_key_indices {
            Some(indices) => Some(copy_indices(indices)),
            None => None,
        };
        assert(dist_key_indices.deep_view() =~= self.cell_based_table.dist_key_indices.deep_view());
        StateTableExtended {
            keyspace: self.keyspace.clone(),
            column_mapping: self.column_mapping.clone(),
            mem_table: self.mem_table.clone(),
            cell_based_table: CellBasedTableExtended {
                column_descs: copy_column_descs(&self.cell_based_table.column_descs),
                pk_serializer,
                dist_key_indices,
                cell_based_row_serializer: self.cell_based_table.cell_based_row_serializer.clone(),
            },
            pk_indices: copy_indices(&self.pk_indices),
        }
    }
}

} // verus!
