use lsh_rs::errors::LshError;
use lsh_rs::hash::{DataPoint, ParityHash};
use lsh_rs::lsh::LSH;
use lsh_rs::sqlite_mem::SqlTableMem;
use lsh_rs::table::MemoryTable;

fn parity_index(k: usize, l: usize, dim: usize) -> LSH<ParityHash> {
    let mut hashers = Vec::new();
    for _ in 0..l {
        hashers.push(ParityHash::new(k));
    }
    LSH::new(k, l, dim).seed(1).with_hashers(hashers).unwrap()
}

#[test]
fn stored_vector_is_found() {
    let mut lsh = parity_index(8, 3, 4);
    let v: DataPoint = vec![1, 2, 3, 4];
    let id = lsh.store_vec(&v).unwrap();
    assert_eq!(id, 0);
    let ids = lsh.query_bucket_ids(&v).unwrap();
    assert!(ids.contains(&id));
}

#[test]
fn store_then_delete_restores_membership() {
    let mut lsh = parity_index(8, 3, 4);
    let other: DataPoint = vec![9, 9, 9, 9];
    let other_id = lsh.store_vec(&other).unwrap();
    let v: DataPoint = vec![1, 2, 3, 4];
    let before = lsh.query_bucket_ids(&v).unwrap();
    let id = lsh.store_vec(&v).unwrap();
    assert!(lsh.query_bucket_ids(&v).unwrap().contains(&id));
    lsh.delete_vec(&v).unwrap();
    let after = lsh.query_bucket_ids(&v).unwrap();
    assert_eq!(before, after);
    assert!(lsh.query_bucket_ids(&other).unwrap().contains(&other_id));
}

#[test]
fn batch_and_parallel_batch_agree() {
    let mut lsh = parity_index(8, 3, 4);
    let vs: Vec<DataPoint> = vec![
        vec![1, 2, 3, 4],
        vec![5, 6, 7, 8],
        vec![1, 2, 3, 4],
        vec![2, 4, 6, 8],
    ];
    lsh.store_vecs(&vs).unwrap();
    let seq_ids = lsh.query_bucket_ids_batch(&vs).unwrap();
    let par_ids = lsh.query_bucket_ids_batch_par(&vs).unwrap();
    assert_eq!(seq_ids, par_ids);
}

#[test]
fn seed_determinism() {
    let mut a = parity_index(8, 3, 4);
    let mut b = parity_index(8, 3, 4);
    let vs: Vec<DataPoint> = vec![vec![1, 2, 3, 4], vec![5, 6, 7, 8]];
    a.store_vecs(&vs).unwrap();
    b.store_vecs(&vs).unwrap();
    for v in &vs {
        assert_eq!(a.query_bucket_ids(v).unwrap(), b.query_bucket_ids(v).unwrap());
    }
}

#[test]
fn wrong_dimension_is_dim_error() {
    let mut lsh = parity_index(8, 3, 4);
    let bad: DataPoint = vec![1, 2, 3];
    assert_eq!(lsh.store_vec(&bad), Err(LshError::Dim));
    assert_eq!(lsh.query_bucket_ids(&bad), Err(LshError::Dim));
    assert_eq!(lsh.delete_vec(&bad), Err(LshError::Dim));
    assert_eq!(lsh.query_bucket(&bad), Err(LshError::Dim));
}

#[test]
fn batch_error_keeps_prefix() {
    let mut lsh = parity_index(8, 3, 4);
    let vs: Vec<DataPoint> = vec![vec![1, 2, 3, 4], vec![9, 9, 9]];
    assert_eq!(lsh.store_vecs(&vs), Err(LshError::Dim));
    // The first vector was stored before the error.
    let ids = lsh.query_bucket_ids(&vec![1, 2, 3, 4]).unwrap();
    assert!(ids.contains(&0));
}

#[test]
fn index_only_refuses_vectors() {
    let mut hashers = Vec::new();
    for _ in 0..2 {
        hashers.push(ParityHash::new(8));
    }
    let mut lsh = LSH::new(8, 2, 4).only_index().with_hashers(hashers).unwrap();
    let v: DataPoint = vec![1, 2, 3, 4];
    lsh.store_vec(&v).unwrap();
    assert_eq!(lsh.query_bucket(&v), Err(LshError::IndexOnly));
    assert!(lsh.query_bucket_ids(&v).unwrap().contains(&0));
}

#[test]
fn query_bucket_returns_vectors() {
    let mut lsh = parity_index(8, 2, 4);
    let v: DataPoint = vec![1, 2, 3, 4];
    let id = lsh.store_vec(&v).unwrap();
    let ds = lsh.query_bucket(&v).unwrap();
    assert!(ds.contains(&v));
    assert_eq!(id, 0);
}

#[test]
fn update_by_idx_moves_vector() {
    let mut lsh = parity_index(8, 2, 4);
    let old_v: DataPoint = vec![1, 2, 3, 4];
    let new_v: DataPoint = vec![2, 3, 4, 5];
    let id = lsh.store_vec(&old_v).unwrap();
    lsh.update_by_idx(id, &new_v, &old_v).unwrap();
    assert!(lsh.query_bucket_ids(&new_v).unwrap().contains(&id));
}

#[test]
fn multi_probe_query_still_finds_exact_bucket() {
    let mut hashers = Vec::new();
    for _ in 0..2 {
        hashers.push(ParityHash::new(6));
    }
    let mut lsh = LSH::new(6, 2, 4).multi_probe(8).with_hashers(hashers).unwrap();
    let v: DataPoint = vec![1, 2, 3, 4];
    let id = lsh.store_vec(&v).unwrap();
    assert!(lsh.query_bucket_ids(&v).unwrap().contains(&id));
}

#[test]
fn memory_table_bucket_semantics() {
    let mut m = MemoryTable::new(2, false).unwrap();
    let v: DataPoint = vec![10, 20];
    let id0 = m.put(vec![1, 1], &v, 0).unwrap();
    let id0b = m.put(vec![1, 1], &v, 1).unwrap();
    assert_eq!(id0, 0);
    assert_eq!(id0b, 0);
    let w: DataPoint = vec![30, 40];
    let id1 = m.put(vec![1, 1], &w, 0).unwrap();
    let id1b = m.put(vec![2, 2], &w, 1).unwrap();
    assert_eq!(id1, 1);
    assert_eq!(id1b, 1);
    assert_eq!(m.query_bucket(&vec![1, 1], 0).unwrap(), vec![0, 1]);
    assert_eq!(m.query_bucket(&vec![1, 1], 1).unwrap(), vec![0]);
    assert_eq!(m.query_bucket(&vec![2, 2], 0), Err(LshError::NotFound));
    assert_eq!(m.idx_to_datapoint(0).unwrap(), v);
    assert_eq!(m.idx_to_datapoint(5), Err(LshError::NotFound));
    m.delete(&vec![1, 1], &v, 0).unwrap();
    assert_eq!(m.query_bucket(&vec![1, 1], 0).unwrap(), vec![1]);
}

#[test]
fn memory_table_rejects_zero_tables() {
    assert!(matches!(MemoryTable::new(0, false), Err(LshError::InvalidParam)));
}

#[test]
fn index_only_table_refuses_datapoints() {
    let mut m = MemoryTable::new(1, true).unwrap();
    let v: DataPoint = vec![10];
    m.put(vec![1], &v, 0).unwrap();
    assert_eq!(m.idx_to_datapoint(0), Err(LshError::IndexOnly));
}

#[test]
fn sql_table_mem_transactions() {
    let mut sql = SqlTableMem::new(1, false).unwrap();
    assert!(sql.init_transaction().is_ok());
    assert_eq!(sql.init_transaction(), Err(LshError::BackendIO));
    let v: DataPoint = vec![10];
    let id = sql.put(vec![3], &v, 0).unwrap();
    assert_eq!(id, 0);
    // The writing connection sees its own uncommitted puts.
    assert_eq!(sql.query_bucket(&vec![3], 0).unwrap(), vec![0]);
    assert!(sql.commit().is_ok());
    assert_eq!(sql.commit(), Err(LshError::BackendIO));
    assert_eq!(sql.query_bucket(&vec![3], 0).unwrap(), vec![0]);
}

#[test]
fn bench_exercises() {
    let lsh = lsh_rs::bench::bench_storing();
    assert!(lsh.hash_tables.is_some());
    let lsh2 = lsh_rs::bench::bench_storing_index_only();
    assert!(lsh2.hash_tables.is_some());
    let sql = lsh_rs::bench::bench_storing_sqlite_mem();
    assert_eq!(sql.sql_table.counter, 100);
    let sql2 = lsh_rs::bench::bench_sqlite();
    assert_eq!(sql2.sql_table.counter, 1);
}

#[test]
fn describe_summarizes_buckets() {
    let mut lsh = parity_index(8, 2, 4);
    lsh.store_vec(&vec![1, 2, 3, 4]).unwrap();
    let s = lsh.describe().unwrap();
    assert!(s.contains("table 0"));
    assert!(s.contains("1 buckets"));
}

#[test]
fn update_by_idx_checks_dimensions() {
    let mut lsh = parity_index(8, 2, 4);
    let v: DataPoint = vec![1, 2, 3, 4];
    let id = lsh.store_vec(&v).unwrap();
    let short: DataPoint = vec![1, 2, 3];
    assert_eq!(lsh.update_by_idx(id, &short, &v), Err(LshError::Dim));
    assert_eq!(lsh.update_by_idx(id, &v, &short), Err(LshError::Dim));
    assert!(lsh.query_bucket_ids(&v).unwrap().contains(&id));
}

#[test]
fn empty_batch_stores_nothing() {
    let mut lsh = parity_index(8, 2, 4);
    let vs: Vec<DataPoint> = Vec::new();
    let ids = lsh.store_vecs(&vs).unwrap();
    assert!(ids.is_empty());
}

#[test]
fn unique_hash_components_are_collected() {
    let mut m = MemoryTable::new(2, true).unwrap();
    let v: DataPoint = vec![10];
    m.put(vec![1, -3], &v, 0).unwrap();
    m.put(vec![1, 7], &v, 1).unwrap();
    let mut seen = m.get_unique_hash_int();
    seen.sort();
    assert_eq!(seen, vec![-3, 1, 7]);
    let sql = SqlTableMem::new(1, true).unwrap();
    assert!(sql.get_unique_hash_int().is_empty());
}
