//! Bucketed hash-table storage.
//!
//! A table maps hash keys to buckets of data-point ids. The model of a
//! table is the sequence of `(key, bucket)` pairs in insertion order;
//! every operation pins the new model exactly, so that index state is
//! a function of the operation history.

use vstd::prelude::*;
use crate::errors::LshError;
use crate::hash::DataPoint;

verus! {

/// A bucket: the ids of the data points sharing one hash in one table.
/// Ids are unique within a bucket; order is insertion order.
pub type Bucket = Vec<u32>;

/// One `(key, bucket)` slot of a hash table.
pub struct TableEntry {
    /// The hash the bucket is filed under.
    pub key: crate::hash::Hash,
    /// The ids hashed to `key`.
    pub bucket: Bucket,
}

/// The abstract value of a table: its `(key, bucket)` pairs in order.
pub type TableModel = Seq<(Seq<i8>, Seq<u32>)>;

/// Does the model hold the key?
pub open spec fn tbl_has_key(m: TableModel, key: Seq<i8>) -> bool {
    exists|i: int| 0 <= i < m.len() && (#[trigger] m[i]).0 == key
}

/// The position of a key in the model.
pub open spec fn tbl_index_of(m: TableModel, key: Seq<i8>) -> int {
    choose|i: int| 0 <= i < m.len() && (#[trigger] m[i]).0 == key
}

/// The bucket filed under a key, if the key is present.
pub open spec fn tbl_get(m: TableModel, key: Seq<i8>) -> Option<Seq<u32>> {
    if tbl_has_key(m, key) {
        Some(m[tbl_index_of(m, key)].1)
    } else {
        None
    }
}

/// A bucket after an id enters it: appended unless already present.
pub open spec fn bucket_insert(b: Seq<u32>, id: u32) -> Seq<u32> {
    if b.contains(id) {
        b
    } else {
        b.push(id)
    }
}

/// The position of an id in a bucket.
pub open spec fn bucket_pos(b: Seq<u32>, id: u32) -> int {
    choose|p: int| 0 <= p < b.len() && b[p] == id
}

/// A bucket after an id leaves it: unchanged if absent.
pub open spec fn bucket_remove(b: Seq<u32>, id: u32) -> Seq<u32> {
    if b.contains(id) {
        b.remove(bucket_pos(b, id))
    } else {
        b
    }
}

/// A table model after an id is filed under a key: the key's bucket
/// grows by the id, or a fresh singleton bucket is appended.
pub open spec fn tbl_insert(m: TableModel, key: Seq<i8>, id: u32) -> TableModel {
    if tbl_has_key(m, key) {
        let i = tbl_index_of(m, key);
        m.update(i, (key, bucket_insert(m[i].1, id)))
    } else {
        m.push((key, seq![id]))
    }
}

/// A table model after an id is removed from a key's bucket; absent
/// keys and absent ids leave the model unchanged.
pub open spec fn tbl_remove(m: TableModel, key: Seq<i8>, id: u32) -> TableModel {
    if tbl_has_key(m, key) {
        let i = tbl_index_of(m, key);
        m.update(i, (key, bucket_remove(m[i].1, id)))
    } else {
        m
    }
}

/// One hash table: `(key, bucket)` slots in first-seen key order.
pub struct HashTable {
    /// The slots; keys are pairwise distinct.
    pub entries: Vec<TableEntry>,
}

impl HashTable {
    /// The abstract `(key, bucket)` pairs.
    pub open spec fn model(self) -> TableModel {
        self.entries@.map_values(|e: TableEntry| (e.key@, e.bucket@))
    }

    /// Keys are distinct and no bucket repeats an id.
    pub open spec fn wf(self) -> bool {
        &&& forall|i: int, j: int|
            0 <= i < j < self.model().len() ==> (#[trigger] self.model()[i]).0 != (
            #[trigger] self.model()[j]).0
        &&& forall|i: int|
            0 <= i < self.model().len() ==> (#[trigger] self.model()[i]).1.no_duplicates()
    }

    /// An empty table.
    pub fn new() -> (r: HashTable)
        ensures
            r.model() == Seq::<(Seq<i8>, Seq<u32>)>::empty(),
            r.wf(),
    {
        let r = HashTable { entries: Vec::new() };
        proof {
            assert(r.model() =~= Seq::<(Seq<i8>, Seq<u32>)>::empty());
        }
        r
    }

    /// The slot holding `key`, if any.
    fn find_idx(&self, key: &crate::hash::Hash) -> (r: Option<usize>)
        ensures
            match r {
                Some(i) => i < self.model().len() && self.model()[i as int].0 == key@
                    && tbl_has_key(self.model(), key@) && (self.wf() ==> i == tbl_index_of(
                    self.model(),
                    key@,
                )),
                None => !tbl_has_key(self.model(), key@),
            },
    {
        let mut i: usize = 0;
        while i < self.entries.len()
            invariant
                i <= self.entries@.len(),
                forall|t: int| 0 <= t < i ==> (#[trigger] self.model()[t]).0 != key@,
            decreases self.entries@.len() - i,
        {
            if self.entries[i].key == *key {
                proof {
                    assert(self.model()[i as int].0 == key@);
                    if self.wf() {
                        let w = tbl_index_of(self.model(), key@);
                        if w != i as int {
                            assert(self.model()[w].0 == key@);
                        }
                    }
                }
                return Some(i);
            }
            i += 1;
        }
        None
    }

    /// Files `id` under `key`, appending a fresh bucket if the key is
    /// new.
    pub fn insert_id(&mut self, key: &crate::hash::Hash, id: u32)
        requires
            old(self).wf(),
        ensures
            final(self).wf(),
            final(self).model() == tbl_insert(old(self).model(), key@, id),
    {
        let ghost m0 = self.model();
        match self.find_idx(key) {
            Some(i) => {
                let present = bucket_contains(&self.entries[i].bucket, id);
                if !present {
                    self.entries[i].bucket.push(id);
                }
                proof {
                    assert(tbl_has_key(m0, key@));
                    assert(tbl_index_of(m0, key@) == i as int);
                    assert(self.model() =~= tbl_insert(m0, key@, id));
                }
            },
            None => {
                let entry = TableEntry { key: clone_hash(key), bucket: vec_singleton(id) };
                self.entries.push(entry);
                proof {
                    assert(self.model() =~= tbl_insert(m0, key@, id));
                }
            },
        }
        proof {
            lemma_tbl_insert_wf_by(m0, key@, id);
        }
    }

    /// Unfiles `id` from the bucket under `key`, if both exist. Returns
    /// whether the key was present.
    pub fn remove_id(&mut self, key: &crate::hash::Hash, id: u32) -> (found: bool)
        requires
            old(self).wf(),
        ensures
            final(self).wf(),
            found == tbl_has_key(old(self).model(), key@),
            final(self).model() == tbl_remove(old(self).model(), key@, id),
    {
        let ghost m0 = self.model();
        match self.find_idx(key) {
            Some(i) => {
                match bucket_position(&self.entries[i].bucket, id) {
                    Some(p) => {
                        let ghost b0 = self.entries@[i as int].bucket@;
                        self.entries[i].bucket.remove(p);
                        proof {
                            assert(self.model() =~= tbl_remove(m0, key@, id));
                            lemma_remove_no_dup(b0, p as int);
                            assert forall|t: int|
                                0 <= t < self.model().len() implies (#[trigger] self.model()[t]).1.no_duplicates() by {
                                if t != i as int {
                                    assert(self.model()[t] == m0[t]);
                                }
                            }
                        }
                    },
                    None => {
                        proof {
                            assert(self.model() =~= tbl_remove(m0, key@, id));
                        }
                    },
                }
                true
            },
            None => {
                proof {
                    assert(self.model() =~= tbl_remove(m0, key@, id));
                }
                false
            },
        }
    }

    /// A copy of the bucket under `key`, if the key is present.
    pub fn get_bucket(&self, key: &crate::hash::Hash) -> (r: Option<Bucket>)
        requires
            self.wf(),
        ensures
            match r {
                Some(b) => tbl_get(self.model(), key@) == Some(b@),
                None => tbl_get(self.model(), key@) is None,
            },
    {
        match self.find_idx(key) {
            Some(i) => Some(copy_ids(&self.entries[i].bucket)),
            None => None,
        }
    }
}

/// Removing one position keeps the remaining ids distinct.
proof fn lemma_remove_no_dup(b: Seq<u32>, p: int)
    requires
        b.no_duplicates(),
        0 <= p < b.len(),
    ensures
        b.remove(p).no_duplicates(),
{
    let r = b.remove(p);
    assert forall|i: int, j: int| 0 <= i < j < r.len() implies r[i] != r[j] by {
        let bi = if i < p {
            i
        } else {
            i + 1
        };
        let bj = if j < p {
            j
        } else {
            j + 1
        };
        assert(r[i] == b[bi] && r[j] == b[bj]);
    }
}

/// The position of `id` in a bucket, if present.
fn bucket_position(b: &Vec<u32>, id: u32) -> (r: Option<usize>)
    ensures
        match r {
            Some(p) => p < b@.len() && b@[p as int] == id && b@.contains(id) && (
            b@.no_duplicates() ==> p as int == bucket_pos(b@, id)),
            None => !b@.contains(id),
        },
{
    let mut pos: usize = 0;
    while pos < b.len()
        invariant
            pos <= b@.len(),
            forall|t: int| 0 <= t < pos ==> b@[t] != id,
        decreases b@.len() - pos,
    {
        if b[pos] == id {
            proof {
                if b@.no_duplicates() {
                    let w = bucket_pos(b@, id);
                    assert(b@[w] == id);
                }
            }
            return Some(pos);
        }
        pos += 1;
    }
    None
}

/// Copies a bucket.
fn copy_ids(b: &Vec<u32>) -> (r: Vec<u32>)
    ensures
        r@ == b@,
{
    let mut r: Vec<u32> = Vec::new();
    let mut i: usize = 0;
    while i < b.len()
        invariant
            i <= b@.len(),
            r@ == b@.take(i as int),
        decreases b@.len() - i,
    {
        r.push(b[i]);
        proof {
            assert(r@ =~= b@.take(i + 1));
        }
        i += 1;
    }
    proof {
        assert(b@.take(b@.len() as int) =~= b@);
    }
    r
}

/// Does the bucket hold the id?
pub(crate) fn bucket_contains(b: &Vec<u32>, id: u32) -> (r: bool)
    ensures
        r == b@.contains(id),
{
    let mut pos: usize = 0;
    while pos < b.len()
        invariant
            pos <= b@.len(),
            forall|t: int| 0 <= t < pos ==> b@[t] != id,
        decreases b@.len() - pos,
    {
        if b[pos] == id {
            return true;
        }
        pos += 1;
    }
    false
}

/// Copies a hash key.
pub(crate) fn clone_hash(h: &crate::hash::Hash) -> (r: crate::hash::Hash)
    ensures
        r@ == h@,
{
    let mut r: crate::hash::Hash = Vec::new();
    let mut i: usize = 0;
    while i < h.len()
        invariant
            i <= h@.len(),
            r@ == h@.take(i as int),
        decreases h@.len() - i,
    {
        r.push(h[i]);
        proof {
            assert(r@ =~= h@.take(i + 1));
        }
        i += 1;
    }
    proof {
        assert(h@.take(h@.len() as int) =~= h@);
    }
    r
}

/// A one-element bucket.
fn vec_singleton(id: u32) -> (r: Vec<u32>)
    ensures
        r@ =~= seq![id],
{
    let mut r: Vec<u32> = Vec::new();
    r.push(id);
    r
}

/// Copies a data point.
fn copy_datapoint(d: &DataPoint) -> (r: DataPoint)
    ensures
        r@ == d@,
{
    let mut r: DataPoint = Vec::new();
    let mut i: usize = 0;
    while i < d.len()
        invariant
            i <= d@.len(),
            r@ == d@.take(i as int),
        decreases d@.len() - i,
    {
        r.push(d[i]);
        proof {
            assert(r@ =~= d@.take(i + 1));
        }
        i += 1;
    }
    proof {
        assert(d@.take(d@.len() as int) =~= d@);
    }
    r
}

/// Are two data points made of the same component bit patterns?
fn dp_eq(a: &DataPoint, b: &DataPoint) -> (r: bool)
    ensures
        r == (a@ == b@),
{
    if a.len() != b.len() {
        return false;
    }
    let mut i: usize = 0;
    while i < a.len()
        invariant
            i <= a@.len(),
            a@.len() == b@.len(),
            forall|t: int| 0 <= t < i ==> a@[t] == b@[t],
        decreases a@.len() - i,
    {
        if a[i] != b[i] {
            return false;
        }
        i += 1;
    }
    proof {
        assert(a@ =~= b@);
    }
    true
}

/// Every id of every bucket of the model is below `bound`.
pub open spec fn ids_below(m: TableModel, bound: u32) -> bool {
    forall|i: int, j: int|
        0 <= i < m.len() && 0 <= j < (#[trigger] m[i]).1.len() ==> #[trigger] m[i].1[j] < bound
}

/// Does the store hold a data point with these components?
pub open spec fn store_contains(s: Seq<Seq<u32>>, d: Seq<u32>) -> bool {
    exists|i: int| 0 <= i < s.len() && s[i] == d
}

/// The first position of a data point in the store.
pub open spec fn store_first_index(s: Seq<Seq<u32>>, d: Seq<u32>) -> int {
    choose|i: int|
        0 <= i < s.len() && s[i] == d && (forall|j: int| 0 <= j < i ==> s[j] != d)
}

/// The in-memory backend: `L` bucketed hash tables, an id-ordered
/// vector store, and the serialized hasher set.
///
/// Ids are handed out by a counter: the `L` per-table writes of one
/// vector all return the current counter, and the write to the last
/// table advances it, so one vector owns one id however many tables
/// there are.
pub struct MemoryTable {
    /// One bucketed table per hasher.
    pub tables: Vec<HashTable>,
    /// Data points by id; empty when `only_index`.
    pub vec_store: Vec<DataPoint>,
    /// When set, vectors are not stored and cannot be recovered.
    pub only_index: bool,
    /// The next id to hand out.
    pub counter: u32,
    /// The number of hash tables, `L`.
    pub n_hash_tables: usize,
    /// The serialized hasher set, once stored: one byte string per
    /// hasher.
    pub hashers_blob: Option<Vec<Vec<u8>>>,
}

impl MemoryTable {
    /// The abstract value of table `t`.
    pub open spec fn table_model(self, t: int) -> TableModel {
        self.tables@[t].model()
    }

    /// The abstract value of the vector store.
    pub open spec fn store_model(self) -> Seq<Seq<u32>> {
        self.vec_store@.map_values(|p: DataPoint| p@)
    }

    /// The abstract value of the hasher blobs.
    pub open spec fn blob_model(self) -> Option<Seq<Seq<u8>>> {
        match self.hashers_blob {
            Some(b) => Some(b@.map_values(|x: Vec<u8>| x@)),
            None => None,
        }
    }

    /// Structural soundness: `L` well-formed tables, and a vector
    /// store consistent with the id counter.
    pub open spec fn wf(self) -> bool {
        &&& self.tables@.len() == self.n_hash_tables
        &&& self.n_hash_tables >= 1
        &&& forall|t: int| 0 <= t < self.tables@.len() ==> (#[trigger] self.tables@[t]).wf()
        &&& (self.only_index ==> self.store_model().len() == 0)
        &&& (!self.only_index ==> self.store_model().len() == self.counter)
    }

    /// Between insertions, every id in every bucket has been handed
    /// out already.
    pub open spec fn settled(self) -> bool {
        forall|t: int|
            0 <= t < self.tables@.len() ==> ids_below(#[trigger] self.table_model(t), self.counter)
    }

    /// An empty backend with `n_hash_tables` tables. Rejects a table
    /// count of zero.
    pub fn new(n_hash_tables: usize, only_index: bool) -> (r: Result<MemoryTable, LshError>)
        ensures
            match r {
                Ok(m) => {
                    &&& n_hash_tables >= 1
                    &&& m.wf()
                    &&& m.settled()
                    &&& m.n_hash_tables == n_hash_tables
                    &&& m.only_index == only_index
                    &&& m.counter == 0
                    &&& m.store_model().len() == 0
                    &&& m.blob_model() is None
                    &&& forall|t: int|
                        0 <= t < n_hash_tables ==> #[trigger] m.table_model(t) == Seq::<
                            (Seq<i8>, Seq<u32>),
                        >::empty()
                },
                Err(e) => e == LshError::InvalidParam && n_hash_tables == 0,
            },
    {
        if n_hash_tables == 0 {
            return Err(LshError::InvalidParam);
        }
        let mut tables: Vec<HashTable> = Vec::new();
        let mut t: usize = 0;
        while t < n_hash_tables
            invariant
                t <= n_hash_tables,
                tables@.len() == t,
                forall|i: int| 0 <= i < t ==> (#[trigger] tables@[i]).wf() && tables@[i].model()
                    == Seq::<(Seq<i8>, Seq<u32>)>::empty(),
            decreases n_hash_tables - t,
        {
            tables.push(HashTable::new());
            t += 1;
        }
        let m = MemoryTable {
            tables,
            vec_store: Vec::new(),
            only_index,
            counter: 0,
            n_hash_tables,
            hashers_blob: None,
        };
        proof {
            assert(m.store_model() =~= Seq::<Seq<u32>>::empty());
        }
        Ok(m)
    }

    /// Files `d` under `hash` in table `hash_table` and returns its id:
    /// the current counter, which advances when the last table is
    /// written, so the `L` writes of one vector share one id. The write
    /// to the last table also records the data point itself, unless the
    /// backend is index-only.
    pub fn put(&mut self, hash: crate::hash::Hash, d: &DataPoint, hash_table: usize) -> (r: Result<
        u32,
        LshError,
    >)
        requires
            old(self).wf(),
            hash_table < old(self).n_hash_tables,
            old(self).counter < u32::MAX,
        ensures
            final(self).wf(),
            r == Ok::<u32, LshError>(old(self).counter),
            final(self).n_hash_tables == old(self).n_hash_tables,
            final(self).only_index == old(self).only_index,
            final(self).blob_model() == old(self).blob_model(),
            final(self).table_model(hash_table as int) == tbl_insert(
                old(self).table_model(hash_table as int),
                hash@,
                old(self).counter,
            ),
            forall|t: int|
                0 <= t < old(self).n_hash_tables && t != hash_table ==> final(self).table_model(t)
                    == old(self).table_model(t),
            hash_table == old(self).n_hash_tables - 1 ==> final(self).counter == old(self).counter
                + 1,
            hash_table != old(self).n_hash_tables - 1 ==> final(self).counter
                == old(self).counter,
            (hash_table == old(self).n_hash_tables - 1 && !old(self).only_index) ==> final(self).store_model() == old(self).store_model().push(d@),
            !(hash_table == old(self).n_hash_tables - 1 && !old(self).only_index) ==> final(self).store_model() == old(self).store_model(),
    {
        let id = self.counter;
        self.tables[hash_table].insert_id(&hash, id);
        if hash_table == self.n_hash_tables - 1 {
            self.counter = self.counter + 1;
            if !self.only_index {
                self.vec_store.push(copy_datapoint(d));
                proof {
                    assert(self.store_model() =~= old(self).store_model().push(d@));
                }
            }
        }
        Ok(id)
    }

    /// Unfiles `d`'s id from the bucket under `hash` in table
    /// `hash_table`. A data point the store does not hold, or an
    /// index-only store, leaves the backend unchanged; a missing bucket
    /// is `NotFound`.
    pub fn delete(&mut self, hash: &crate::hash::Hash, d: &DataPoint, hash_table: usize) -> (r:
        Result<(), LshError>)
        requires
            old(self).wf(),
            hash_table < old(self).n_hash_tables,
        ensures
            final(self).wf(),
            final(self).n_hash_tables == old(self).n_hash_tables,
            final(self).only_index == old(self).only_index,
            final(self).counter == old(self).counter,
            final(self).store_model() == old(self).store_model(),
            final(self).blob_model() == old(self).blob_model(),
            forall|t: int|
                0 <= t < old(self).n_hash_tables && t != hash_table ==> final(self).table_model(t)
                    == old(self).table_model(t),
            !store_contains(old(self).store_model(), d@) ==> r == Ok::<(), LshError>(()) && final(self).table_model(hash_table as int) == old(self).table_model(hash_table as int),
            store_contains(old(self).store_model(), d@) && tbl_has_key(
                old(self).table_model(hash_table as int),
                hash@,
            ) ==> r == Ok::<(), LshError>(()) && final(self).table_model(hash_table as int)
                == tbl_remove(
                old(self).table_model(hash_table as int),
                hash@,
                store_first_index(old(self).store_model(), d@) as u32,
            ),
            store_contains(old(self).store_model(), d@) && !tbl_has_key(
                old(self).table_model(hash_table as int),
                hash@,
            ) ==> r == Err::<(), LshError>(LshError::NotFound) && final(self).table_model(
                hash_table as int,
            ) == old(self).table_model(hash_table as int),
    {
        let pos = find_datapoint(&self.vec_store, d);
        match pos {
            None => {
                proof {
                    assert forall|j: int|
                        0 <= j < self.store_model().len() implies #[trigger] self.store_model()[j]
                        != d@ by {
                        assert(self.vec_store@[j]@ != d@);
                    }
                    assert(!store_contains(self.store_model(), d@));
                }
                Ok(())
            },
            Some(i) => {
                proof {
                    assert(self.store_model()[i as int] == self.vec_store@[i as int]@);
                    assert(store_contains(self.store_model(), d@));
                    let w = store_first_index(self.store_model(), d@);
                    assert(0 <= w < self.store_model().len() && self.store_model()[w] == d@ && (
                    forall|j: int| 0 <= j < w ==> self.store_model()[j] != d@));
                    assert forall|j: int| 0 <= j < i implies #[trigger] self.store_model()[j]
                        != d@ by {
                        assert(self.vec_store@[j]@ != d@);
                    }
                    assert(w == i as int);
                    assert(self.store_model().len() == self.counter);
                }
                let id: u32 = i as u32;
                let had_key = self.tables[hash_table].remove_id(hash, id);
                if had_key {
                    Ok(())
                } else {
                    Err(LshError::NotFound)
                }
            },
        }
    }

    /// Moves `idx` from the bucket under `old_hash` to the bucket under
    /// `new_hash` in table `hash_table`. A missing source bucket is
    /// `NotFound`.
    pub fn update_by_idx(
        &mut self,
        old_hash: &crate::hash::Hash,
        new_hash: crate::hash::Hash,
        idx: u32,
        hash_table: usize,
    ) -> (r: Result<(), LshError>)
        requires
            old(self).wf(),
            hash_table < old(self).n_hash_tables,
        ensures
            final(self).wf(),
            final(self).n_hash_tables == old(self).n_hash_tables,
            final(self).only_index == old(self).only_index,
            final(self).counter == old(self).counter,
            final(self).store_model() == old(self).store_model(),
            final(self).blob_model() == old(self).blob_model(),
            forall|t: int|
                0 <= t < old(self).n_hash_tables && t != hash_table ==> final(self).table_model(t)
                    == old(self).table_model(t),
            tbl_has_key(old(self).table_model(hash_table as int), old_hash@) ==> r == Ok::<
                (),
                LshError,
            >(()) && final(self).table_model(hash_table as int) == tbl_insert(
                tbl_remove(old(self).table_model(hash_table as int), old_hash@, idx),
                new_hash@,
                idx,
            ),
            !tbl_has_key(old(self).table_model(hash_table as int), old_hash@) ==> r == Err::<
                (),
                LshError,
            >(LshError::NotFound) && final(self).table_model(hash_table as int) == old(
                self,
            ).table_model(hash_table as int),
    {
        let had_key = self.tables[hash_table].remove_id(old_hash, idx);
        if !had_key {
            return Err(LshError::NotFound);
        }
        self.tables[hash_table].insert_id(&new_hash, idx);
        Ok(())
    }

    /// A copy of the bucket under `hash` in table `hash_table`;
    /// `NotFound` when the key was never written, as opposed to a
    /// bucket every id has left.
    pub fn query_bucket(&self, hash: &crate::hash::Hash, hash_table: usize) -> (r: Result<
        Bucket,
        LshError,
    >)
        requires
            self.wf(),
            hash_table < self.n_hash_tables,
        ensures
            match r {
                Ok(b) => tbl_get(self.table_model(hash_table as int), hash@) == Some(b@),
                Err(e) => e == LshError::NotFound && tbl_get(
                    self.table_model(hash_table as int),
                    hash@,
                ) is None,
            },
    {
        match self.tables[hash_table].get_bucket(hash) {
            Some(b) => Ok(b),
            None => Err(LshError::NotFound),
        }
    }

    /// The data point an id was assigned to. `IndexOnly` when vectors
    /// are not stored; `NotFound` when the id was never handed out.
    pub fn idx_to_datapoint(&self, idx: u32) -> (r: Result<DataPoint, LshError>)
        requires
            self.wf(),
        ensures
            match r {
                Ok(d) => !self.only_index && idx < self.counter && d@ == self.store_model()[idx as int],
                Err(e) => if self.only_index {
                    e == LshError::IndexOnly
                } else {
                    e == LshError::NotFound && idx >= self.counter
                },
            },
    {
        if self.only_index {
            return Err(LshError::IndexOnly);
        }
        if (idx as usize) < self.vec_store.len() {
            Ok(copy_datapoint(&self.vec_store[idx as usize]))
        } else {
            Err(LshError::NotFound)
        }
    }

    /// Pre-reserves room for `upper_bound` more data points.
    pub fn increase_storage(&mut self, upper_bound: usize)
        ensures
            final(self).tables == old(self).tables,
            final(self).store_model() == old(self).store_model(),
            final(self).only_index == old(self).only_index,
            final(self).counter == old(self).counter,
            final(self).n_hash_tables == old(self).n_hash_tables,
            final(self).hashers_blob == old(self).hashers_blob,
    {
        self.vec_store.reserve(upper_bound);
    }

    /// Persists the serialized hasher set, one byte string per hasher;
    /// refused once one is stored.
    pub fn store_hashers(&mut self, blob: Vec<Vec<u8>>) -> (r: Result<(), LshError>)
        ensures
            final(self).tables == old(self).tables,
            final(self).vec_store == old(self).vec_store,
            final(self).only_index == old(self).only_index,
            final(self).counter == old(self).counter,
            final(self).n_hash_tables == old(self).n_hash_tables,
            match r {
                Ok(()) => old(self).blob_model() is None && final(self).blob_model() == Some(
                    blob@.map_values(|x: Vec<u8>| x@),
                ),
                Err(e) => e == LshError::BackendIO && old(self).blob_model() is Some && final(self).blob_model() == old(self).blob_model(),
            },
    {
        match &self.hashers_blob {
            Some(_) => Err(LshError::BackendIO),
            None => {
                self.hashers_blob = Some(blob);
                Ok(())
            },
        }
    }

    /// Every hash component value ever observed as part of a key, each
    /// once, in first-seen order.
    pub fn get_unique_hash_int(&self) -> (r: Vec<i8>)
        ensures
            r@.no_duplicates(),
            forall|x: i8|
                r@.contains(x) <==> exists|t: int|
                    0 <= t < self.tables@.len() && key_component_in(
                        #[trigger] self.table_model(t),
                        x,
                    ),
    {
        let mut acc: Vec<i8> = Vec::new();
        let mut t: usize = 0;
        while t < self.tables.len()
            invariant
                t <= self.tables@.len(),
                acc@.no_duplicates(),
                forall|x: i8|
                    acc@.contains(x) <==> exists|s: int|
                        0 <= s < t && key_component_in(#[trigger] self.table_model(s), x),
            decreases self.tables@.len() - t,
        {
            let ghost mt = self.table_model(t as int);
            let ghost acc_t = acc@;
            let table = &self.tables[t];
            let mut i: usize = 0;
            proof {
                assert forall|x: i8| !key_component_in_upto(mt, 0, x) by {}
            }
            while i < table.entries.len()
                invariant
                    i <= table.entries@.len(),
                    t < self.tables@.len(),
                    mt == self.table_model(t as int),
                    table == &self.tables@[t as int],
                    mt.len() == table.entries@.len(),
                    acc@.no_duplicates(),
                    forall|x: i8|
                        acc@.contains(x) <==> (exists|s: int|
                            0 <= s < t && key_component_in(#[trigger] self.table_model(s), x))
                            || key_component_in_upto(mt, i as int, x),
                decreases table.entries@.len() - i,
            {
                let key = &table.entries[i].key;
                let ghost kv = key@;
                proof {
                    assert(mt[i as int].0 == kv);
                }
                let mut p: usize = 0;
                while p < key.len()
                    invariant
                        p <= kv.len(),
                        i < table.entries@.len(),
                        t < self.tables@.len(),
                        mt == self.table_model(t as int),
                        mt.len() == table.entries@.len(),
                        key == &table.entries@[i as int].key,
                        kv == key@,
                        mt[i as int].0 == kv,
                        acc@.no_duplicates(),
                        forall|x: i8|
                            acc@.contains(x) <==> (exists|s: int|
                                0 <= s < t && key_component_in(#[trigger] self.table_model(s), x))
                                || key_component_in_upto(mt, i as int, x) || (exists|q: int|
                                0 <= q < p && kv[q] == x),
                    decreases kv.len() - p,
                {
                    let c = key[p];
                    let ghost pre = acc@;
                    if !component_seen(&acc, c) {
                        acc.push(c);
                    }
                    proof {
                        assert forall|x: i8|
                            acc@.contains(x) <==> (exists|s: int|
                                0 <= s < t && key_component_in(#[trigger] self.table_model(s), x))
                                || key_component_in_upto(mt, i as int, x) || (exists|q: int|
                                0 <= q < p + 1 && kv[q] == x) by {
                            if x == c {
                                assert(kv[p as int] == c);
                                if !pre.contains(c) {
                                    assert(acc@ == pre.push(c));
                                    assert(acc@[pre.len() as int] == c);
                                }
                                assert(acc@.contains(x));
                            } else {
                                if acc@.contains(x) {
                                    let w = choose|w: int|
                                        0 <= w < acc@.len() && acc@[w] == x;
                                    if w < pre.len() {
                                        assert(pre[w] == x);
                                        assert(pre.contains(x));
                                    }
                                }
                                if pre.contains(x) {
                                    let w = choose|w: int| 0 <= w < pre.len() && pre[w] == x;
                                    assert(acc@[w] == x);
                                    assert(acc@.contains(x));
                                }
                                assert((exists|q: int| 0 <= q < p + 1 && kv[q] == x) == (exists|
                                    q: int,
                                | 0 <= q < p && kv[q] == x));
                            }
                        }
                    }
                    p += 1;
                }
                proof {
                    assert forall|x: i8|
                        key_component_in_upto(mt, i + 1, x) == (key_component_in_upto(
                        mt,
                        i as int,
                        x,
                    ) || (exists|q: int| 0 <= q < kv.len() && kv[q] == x)) by {
                        if key_component_in_upto(mt, i + 1, x) {
                            let (a, q) = choose|a: int, q: int|
                                0 <= a < i + 1 && 0 <= q < mt[a].0.len() && #[trigger] mt[a].0[q]
                                    == x;
                            if a < i {
                                assert(key_component_in_upto(mt, i as int, x));
                            } else {
                                assert(mt[i as int].0[q] == x);
                            }
                        }
                        if key_component_in_upto(mt, i as int, x) {
                            assert(key_component_in_upto(mt, i + 1, x));
                        }
                        if exists|q: int| 0 <= q < kv.len() && kv[q] == x {
                            let q = choose|q: int| 0 <= q < kv.len() && kv[q] == x;
                            assert(mt[i as int].0[q] == x);
                            assert(key_component_in_upto(mt, i + 1, x));
                        }
                    }
                }
                i += 1;
            }
            proof {
                assert forall|x: i8|
                    key_component_in_upto(mt, mt.len() as int, x) == key_component_in(mt, x) by {}
            }
            t += 1;
        }
        acc
    }

    /// The stored hasher set; `NotFound` when none was stored.
    pub fn load_hashers(&self) -> (r: Result<Vec<Vec<u8>>, LshError>)
        ensures
            match r {
                Ok(b) => self.blob_model() == Some(b@.map_values(|x: Vec<u8>| x@)),
                Err(e) => e == LshError::NotFound && self.blob_model() is None,
            },
    {
        match &self.hashers_blob {
            Some(b) => {
                let mut out: Vec<Vec<u8>> = Vec::new();
                let mut i: usize = 0;
                while i < b.len()
                    invariant
                        i <= b@.len(),
                        out@.len() == i,
                        forall|t: int| 0 <= t < i ==> #[trigger] out@[t]@ == b@[t]@,
                    decreases b@.len() - i,
                {
                    out.push(copy_bytes(&b[i]));
                    i += 1;
                }
                proof {
                    assert(out@.map_values(|x: Vec<u8>| x@) =~= b@.map_values(|x: Vec<u8>| x@));
                }
                Ok(out)
            },
            None => Err(LshError::NotFound),
        }
    }
}

/// The first slot holding a data point equal to `d`, if any.
fn find_datapoint(store: &Vec<DataPoint>, d: &DataPoint) -> (r: Option<usize>)
    ensures
        match r {
            Some(i) => i < store@.len() && store@[i as int]@ == d@ && (forall|j: int|
                0 <= j < i ==> store@[j]@ != d@),
            None => forall|j: int| 0 <= j < store@.len() ==> store@[j]@ != d@,
        },
{
    let mut i: usize = 0;
    while i < store.len()
        invariant
            i <= store@.len(),
            forall|j: int| 0 <= j < i ==> store@[j]@ != d@,
        decreases store@.len() - i,
    {
        if dp_eq(&store[i], d) {
            return Some(i);
        }
        i += 1;
    }
    None
}

/// Is `x` a component of one of the model's keys?
pub open spec fn key_component_in(m: TableModel, x: i8) -> bool {
    exists|i: int, p: int| 0 <= i < m.len() && 0 <= p < m[i].0.len() && #[trigger] m[i].0[p] == x
}

/// Is `x` a component of one of the model's first `i` keys?
pub open spec fn key_component_in_upto(m: TableModel, i: int, x: i8) -> bool {
    exists|a: int, q: int| 0 <= a < i && 0 <= q < m[a].0.len() && #[trigger] m[a].0[q] == x
}

/// Does the accumulator hold the component?
fn component_seen(acc: &Vec<i8>, x: i8) -> (r: bool)
    ensures
        r == acc@.contains(x),
{
    let mut i: usize = 0;
    while i < acc.len()
        invariant
            i <= acc@.len(),
            forall|t: int| 0 <= t < i ==> acc@[t] != x,
        decreases acc@.len() - i,
    {
        if acc[i] == x {
            return true;
        }
        i += 1;
    }
    false
}

/// Copies a byte string.
fn copy_bytes(b: &Vec<u8>) -> (r: Vec<u8>)
    ensures
        r@ == b@,
{
    let mut r: Vec<u8> = Vec::new();
    let mut i: usize = 0;
    while i < b.len()
        invariant
            i <= b@.len(),
            r@ == b@.take(i as int),
        decreases b@.len() - i,
    {
        r.push(b[i]);
        proof {
            assert(r@ =~= b@.take(i + 1));
        }
        i += 1;
    }
    proof {
        assert(b@.take(b@.len() as int) =~= b@);
    }
    r
}

/// Inserting preserves distinct keys and duplicate-free buckets.
proof fn lemma_tbl_insert_wf_by(m: TableModel, key: Seq<i8>, id: u32)
    requires
        forall|i: int, j: int| 0 <= i < j < m.len() ==> (#[trigger] m[i]).0 != (#[trigger] m[j]).0,
        forall|i: int| 0 <= i < m.len() ==> (#[trigger] m[i]).1.no_duplicates(),
    ensures
        forall|i: int, j: int|
            0 <= i < j < tbl_insert(m, key, id).len() ==> (#[trigger] tbl_insert(m, key, id)[i]).0
                != (#[trigger] tbl_insert(m, key, id)[j]).0,
        forall|i: int|
            0 <= i < tbl_insert(m, key, id).len() ==> (#[trigger] tbl_insert(
                m,
                key,
                id,
            )[i]).1.no_duplicates(),
{
    let m2 = tbl_insert(m, key, id);
    if tbl_has_key(m, key) {
        let w = tbl_index_of(m, key);
        assert(0 <= w < m.len() && m[w].0 == key);
        assert(m2 =~= m.update(w, (key, bucket_insert(m[w].1, id))));
    }
}

} // verus!
