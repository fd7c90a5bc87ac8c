//! The in-memory transactional table.
//!
//! This is the verified core of the in-memory SQL backend: the same
//! bucket semantics as [`MemoryTable`], plus a transaction marker. As
//! in SQLite, reads on the connection that opened a transaction see
//! its uncommitted writes, so puts apply immediately and the marker
//! only pairs `init_transaction` with `commit`. An outer layer may
//! snapshot the table into a database file.

use vstd::prelude::*;
use crate::errors::LshError;
use crate::hash::DataPoint;
use crate::table::{
    store_contains, store_first_index, tbl_get, tbl_has_key, tbl_insert, tbl_remove, Bucket,
    MemoryTable, TableModel,
};

verus! {

/// An in-memory bucket store with SQL-style transactions.
pub struct SqlTableMem {
    /// The bucket store itself.
    pub sql_table: MemoryTable,
    /// Whether a transaction is open.
    pub in_transaction: bool,
}

impl SqlTableMem {
    /// Structural soundness of the underlying store.
    pub open spec fn wf(self) -> bool {
        self.sql_table.wf()
    }

    /// An empty transactional store with `n_hash_tables` tables.
    pub fn new(n_hash_tables: usize, only_index: bool) -> (r: Result<SqlTableMem, LshError>)
        ensures
            match r {
                Ok(m) => {
                    &&& m.wf()
                    &&& !m.in_transaction
                    &&& m.sql_table.n_hash_tables == n_hash_tables
                    &&& m.sql_table.only_index == only_index
                    &&& m.sql_table.counter == 0
                    &&& forall|t: int|
                        0 <= t < n_hash_tables ==> #[trigger] m.sql_table.table_model(t) == Seq::<
                            (Seq<i8>, Seq<u32>),
                        >::empty()
                },
                Err(e) => e == LshError::InvalidParam && n_hash_tables == 0,
            },
    {
        match MemoryTable::new(n_hash_tables, only_index) {
            Ok(sql_table) => Ok(SqlTableMem { sql_table, in_transaction: false }),
            Err(e) => Err(e),
        }
    }

    /// Files `d` under `hash` in table `hash_table`; ids are assigned
    /// as by [`MemoryTable::put`].
    pub fn put(&mut self, hash: crate::hash::Hash, d: &DataPoint, hash_table: usize) -> (r: Result<
        u32,
        LshError,
    >)
        requires
            old(self).wf(),
            hash_table < old(self).sql_table.n_hash_tables,
            old(self).sql_table.counter < u32::MAX,
        ensures
            final(self).wf(),
            final(self).in_transaction == old(self).in_transaction,
            final(self).sql_table.n_hash_tables == old(self).sql_table.n_hash_tables,
            final(self).sql_table.only_index == old(self).sql_table.only_index,
            final(self).sql_table.blob_model() == old(self).sql_table.blob_model(),
            (hash_table == old(self).sql_table.n_hash_tables - 1
                && !old(self).sql_table.only_index) ==> final(self).sql_table.store_model() == old(
                self,
            ).sql_table.store_model().push(d@),
            !(hash_table == old(self).sql_table.n_hash_tables - 1
                && !old(self).sql_table.only_index) ==> final(self).sql_table.store_model() == old(
                self,
            ).sql_table.store_model(),
            r == Ok::<u32, LshError>(old(self).sql_table.counter),
            final(self).sql_table.table_model(hash_table as int) == tbl_insert(
                old(self).sql_table.table_model(hash_table as int),
                hash@,
                old(self).sql_table.counter,
            ),
            forall|t: int|
                0 <= t < old(self).sql_table.n_hash_tables && t != hash_table ==> final(self).sql_table.table_model(t) == old(self).sql_table.table_model(t),
            hash_table == old(self).sql_table.n_hash_tables - 1 ==> final(self).sql_table.counter
                == old(self).sql_table.counter + 1,
            hash_table != old(self).sql_table.n_hash_tables - 1 ==> final(self).sql_table.counter
                == old(self).sql_table.counter,
    {
        self.sql_table.put(hash, d, hash_table)
    }

    /// Unfiles `d`'s id from the bucket under `hash` in table
    /// `hash_table`, as by [`MemoryTable::delete`].
    pub fn delete(&mut self, hash: &crate::hash::Hash, d: &DataPoint, hash_table: usize) -> (r:
        Result<(), LshError>)
        requires
            old(self).wf(),
            hash_table < old(self).sql_table.n_hash_tables,
        ensures
            final(self).wf(),
            final(self).in_transaction == old(self).in_transaction,
            final(self).sql_table.counter == old(self).sql_table.counter,
            final(self).sql_table.n_hash_tables == old(self).sql_table.n_hash_tables,
            final(self).sql_table.only_index == old(self).sql_table.only_index,
            final(self).sql_table.store_model() == old(self).sql_table.store_model(),
            final(self).sql_table.blob_model() == old(self).sql_table.blob_model(),
            store_contains(old(self).sql_table.store_model(), d@) && tbl_has_key(
                old(self).sql_table.table_model(hash_table as int),
                hash@,
            ) ==> final(self).sql_table.table_model(hash_table as int) == tbl_remove(
                old(self).sql_table.table_model(hash_table as int),
                hash@,
                store_first_index(old(self).sql_table.store_model(), d@) as u32,
            ),
            !store_contains(old(self).sql_table.store_model(), d@) ==> final(self).sql_table.table_model(hash_table as int) == old(self).sql_table.table_model(
                hash_table as int,
            ),
    {
        self.sql_table.delete(hash, d, hash_table)
    }

    /// A copy of the bucket under `hash` in table `hash_table`;
    /// `NotFound` for a key never written.
    pub fn query_bucket(&self, hash: &crate::hash::Hash, hash_table: usize) -> (r: Result<
        Bucket,
        LshError,
    >)
        requires
            self.wf(),
            hash_table < self.sql_table.n_hash_tables,
        ensures
            match r {
                Ok(b) => tbl_get(self.sql_table.table_model(hash_table as int), hash@) == Some(b@),
                Err(e) => e == LshError::NotFound && tbl_get(
                    self.sql_table.table_model(hash_table as int),
                    hash@,
                ) is None,
            },
    {
        self.sql_table.query_bucket(hash, hash_table)
    }

    /// The data point an id was assigned to, as by
    /// [`MemoryTable::idx_to_datapoint`].
    pub fn idx_to_datapoint(&self, idx: u32) -> (r: Result<DataPoint, LshError>)
        requires
            self.wf(),
        ensures
            match r {
                Ok(d) => !self.sql_table.only_index && idx < self.sql_table.counter && d@
                    == self.sql_table.store_model()[idx as int],
                Err(e) => if self.sql_table.only_index {
                    e == LshError::IndexOnly
                } else {
                    e == LshError::NotFound && idx >= self.sql_table.counter
                },
            },
    {
        self.sql_table.idx_to_datapoint(idx)
    }

    /// Every hash component value ever observed as part of a key, each
    /// once, in first-seen order.
    pub fn get_unique_hash_int(&self) -> (r: Vec<i8>)
        ensures
            r@.no_duplicates(),
            forall|x: i8|
                r@.contains(x) <==> exists|t: int|
                    0 <= t < self.sql_table.tables@.len() && crate::table::key_component_in(
                        #[trigger] self.sql_table.table_model(t),
                        x,
                    ),
    {
        self.sql_table.get_unique_hash_int()
    }

    /// Opens a transaction; a second open before commit is refused, as
    /// nested transactions are by SQL.
    pub fn init_transaction(&mut self) -> (r: Result<(), LshError>)
        ensures
            final(self).sql_table == old(self).sql_table,
            match r {
                Ok(()) => !old(self).in_transaction && final(self).in_transaction,
                Err(e) => e == LshError::BackendIO && old(self).in_transaction && final(self).in_transaction,
            },
    {
        if self.in_transaction {
            Err(LshError::BackendIO)
        } else {
            self.in_transaction = true;
            Ok(())
        }
    }

    /// Closes the open transaction; writes made under it stay. A
    /// commit without a transaction is refused.
    pub fn commit(&mut self) -> (r: Result<(), LshError>)
        ensures
            final(self).sql_table == old(self).sql_table,
            match r {
                Ok(()) => old(self).in_transaction && !final(self).in_transaction,
                Err(e) => e == LshError::BackendIO && !old(self).in_transaction && !final(self).in_transaction,
            },
    {
        if self.in_transaction {
            self.in_transaction = false;
            Ok(())
        } else {
            Err(LshError::BackendIO)
        }
    }
}

} // verus!
