//! Self-contained storage exercises.
//!
//! Each builds an index with the parity family, fills it with
//! deterministic data, and returns it, with the resulting id count
//! pinned in its contract. They serve as smoke benchmarks and as
//! end-to-end exercises of the verified insert path.

use vstd::prelude::*;
use crate::hash::{DataPoint, ParityHash, VecHash};
use crate::lsh::{good_prefix_len, lemma_good_prefix_len, lemma_insert_batch_counter, LSH};
use crate::sqlite_mem::SqlTableMem;

verus! {

/// `n` deterministic data points of dimension `dim`.
fn prep_vecs(n: usize, dim: usize) -> (r: Vec<DataPoint>)
    requires
        n < 100000,
        dim < 64,
    ensures
        r@.len() == n,
        forall|i: int| 0 <= i < n ==> (#[trigger] r@[i])@.len() == dim,
{
    let mut r: Vec<DataPoint> = Vec::new();
    let mut i: usize = 0;
    while i < n
        invariant
            i <= n,
            n < 100000,
            dim < 64,
            r@.len() == i,
            forall|s: int| 0 <= s < i ==> (#[trigger] r@[s])@.len() == dim,
        decreases n - i,
    {
        let mut v: DataPoint = Vec::new();
        let mut j: usize = 0;
        while j < dim
            invariant
                j <= dim,
                dim < 64,
                i < 100000,
                v@.len() == j,
            decreases dim - j,
        {
            v.push(((i * 31 + j * 7) as u32) ^ 0x5a5a_5a5au32);
            j += 1;
        }
        r.push(v);
        i += 1;
    }
    r
}

/// Builds a seven-table parity index and stores `n` deterministic
/// vectors of dimension `dim`.
fn store_n(n: usize, dim: usize, index_only: bool) -> (r: LSH<ParityHash>)
    requires
        1 <= n < 1000,
        1 <= dim < 64,
    ensures
        r.wf(),
        r.ready(),
        r.model().counter == n,
{
    let base: LSH<ParityHash> = LSH::new(20, 7, dim).seed(1);
    let base = if index_only {
        base.only_index()
    } else {
        base
    };
    let mut hashers: Vec<ParityHash> = Vec::new();
    let mut t: usize = 0;
    while t < 7
        invariant
            t <= 7,
            hashers@.len() == t,
        decreases 7 - t,
    {
        hashers.push(ParityHash::new(20));
        t += 1;
    }
    let mut lsh = match base.with_hashers(hashers) {
        Ok(lsh) => lsh,
        Err(_) => vstd::pervasive::unreached(),
    };
    let vs = prep_vecs(n, dim);
    let ghost dvs = vs@.map_values(|p: DataPoint| p@);
    let ghost m0 = lsh.model();
    let ghost hs0 = lsh.hashers@;
    let ghost oi = lsh.only_index_storage;
    let r = lsh.store_vecs(&vs);
    proof {
        lemma_good_prefix_len(dvs, dim as int, dvs.len() as int);
        lemma_insert_batch_counter(m0, hs0, dvs, oi);
    }
    match r {
        Ok(_) => lsh,
        Err(_) => vstd::pervasive::unreached(),
    }
}

/// Stores one hundred vectors, vectors kept.
pub fn bench_storing() -> (r: LSH<ParityHash>)
    ensures
        r.wf(),
        r.ready(),
        r.model().counter == 100,
{
    store_n(100, 60, false)
}

/// Stores one hundred vectors, ids only.
pub fn bench_storing_index_only() -> (r: LSH<ParityHash>)
    ensures
        r.wf(),
        r.ready(),
        r.model().counter == 100,
{
    store_n(100, 60, true)
}

/// Fills the transactional table with one hundred vectors across its
/// tables, ids assigned in input order.
pub fn bench_storing_sqlite_mem() -> (r: SqlTableMem)
    ensures
        r.wf(),
        r.sql_table.counter == 100,
{
    let mut sql = match SqlTableMem::new(8, false) {
        Ok(sql) => sql,
        Err(_) => vstd::pervasive::unreached(),
    };
    let hasher = ParityHash::new(20);
    let vs = prep_vecs(100, 60);
    let mut i: usize = 0;
    while i < vs.len()
        invariant
            i <= vs@.len(),
            vs@.len() == 100,
            sql.wf(),
            sql.sql_table.n_hash_tables == 8,
            sql.sql_table.counter == i,
        decreases vs@.len() - i,
    {
        let mut t: usize = 0;
        while t < 8
            invariant
                t <= 8,
                i < vs@.len(),
                vs@.len() == 100,
                sql.wf(),
                sql.sql_table.n_hash_tables == 8,
                t < 8 ==> sql.sql_table.counter == i,
                t == 8 ==> sql.sql_table.counter == i + 1,
            decreases 8 - t,
        {
            let hash = hasher.hash_vec_put(&vs[i]);
            let res = sql.put(hash, &vs[i], t);
            t += 1;
        }
        i += 1;
    }
    sql
}

/// One put into a one-table, index-only store: the first id is zero.
pub fn bench_sqlite() -> (r: SqlTableMem)
    ensures
        r.wf(),
        r.sql_table.counter == 1,
{
    let mut sql = match SqlTableMem::new(1, true) {
        Ok(sql) => sql,
        Err(_) => vstd::pervasive::unreached(),
    };
    let v: DataPoint = vec![1u32, 2u32];
    let hash: crate::hash::Hash = vec![1i8, 2i8];
    let res = sql.put(hash, &v, 0);
    sql
}

} // verus!
