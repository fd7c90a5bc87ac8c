use lsh_rs::hash::{DataPoint, ParityHash};
use lsh_rs::lsh::LSH;

fn parity_index(k: usize, l: usize, dim: usize) -> LSH<ParityHash> {
    let mut hashers = Vec::new();
    for _ in 0..l {
        hashers.push(ParityHash::new(k));
    }
    LSH::new(k, l, dim).seed(7).with_hashers(hashers).unwrap()
}

#[test]
fn dump_load_reproduces_queries() {
    let mut lsh = parity_index(8, 3, 4);
    let vs: Vec<DataPoint> = vec![
        vec![1, 2, 3, 4],
        vec![5, 6, 7, 8],
        vec![1, 3, 5, 7],
    ];
    lsh.store_vecs(&vs).unwrap();
    let blob = lsh.dump().unwrap();
    let restored: LSH<ParityHash> = LSH::<ParityHash>::new(0, 0, 0).load(&blob).unwrap();
    assert_eq!(restored.n_hash_tables, 3);
    assert_eq!(restored.n_projections, 8);
    assert_eq!(restored.dim, 4);
    assert_eq!(restored.seed, 7);
    for v in &vs {
        assert_eq!(lsh.query_bucket_ids(v).unwrap(), restored.query_bucket_ids(v).unwrap());
        assert_eq!(lsh.query_bucket(v).unwrap(), restored.query_bucket(v).unwrap());
    }
}

#[test]
fn dump_load_keeps_growing() {
    let mut lsh = parity_index(6, 2, 3);
    lsh.store_vec(&vec![1, 2, 3]).unwrap();
    let blob = lsh.dump().unwrap();
    let mut restored: LSH<ParityHash> = LSH::<ParityHash>::new(0, 0, 0).load(&blob).unwrap();
    let id = restored.store_vec(&vec![4, 5, 6]).unwrap();
    assert_eq!(id, 1);
    assert!(restored.query_bucket_ids(&vec![4, 5, 6]).unwrap().contains(&1));
    assert!(restored.query_bucket_ids(&vec![1, 2, 3]).unwrap().contains(&0));
}

#[test]
fn load_refuses_garbage() {
    let garbage: Vec<u8> = vec![1, 2, 3];
    assert!(LSH::<ParityHash>::new(0, 0, 0).load(&garbage).is_err());
    let ragged: Vec<u8> = vec![0; 17];
    assert!(LSH::<ParityHash>::new(0, 0, 0).load(&ragged).is_err());
}
