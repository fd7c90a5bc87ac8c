use lsh_rs::hash::{DataPoint, VecHash};
use lsh_rs::lsh::LSH;
use ndarray::{aview1, Array, Array2};
use ndarray_rand::rand_distr::StandardNormal;
use ndarray_rand::RandomExt;
use rand::rngs::SmallRng;
use rand::{Rng, SeedableRng};

// A sign-random-projections hasher, as the application layer builds
// it, exercising the verified index with a real floating-point family.
#[derive(Clone)]
struct Srp {
    hyperplanes: Array2<f32>,
}

impl Srp {
    fn new(k: usize, dim: usize, seed: u64) -> Srp {
        let mut rng = SmallRng::seed_from_u64(seed);
        Srp { hyperplanes: Array::random_using((dim, k), StandardNormal, &mut rng) }
    }

    fn hash_floats(&self, v: &[f32]) -> Vec<i8> {
        let v = aview1(v);
        self.hyperplanes
            .t()
            .dot(&v)
            .iter()
            .map(|&x| if x > 0.0 { 1i8 } else { 0i8 })
            .collect()
    }
}

impl VecHash for Srp {
    fn spec_hash_put(&self, _v: lsh_rs::hash::VectorView) -> lsh_rs::hash::HashView {
        panic!()
    }

    fn spec_hash_query(&self, _v: lsh_rs::hash::VectorView) -> lsh_rs::hash::HashView {
        panic!()
    }

    fn spec_bytes(&self) -> lsh_rs::hash::ByteView {
        panic!()
    }

    fn spec_from_bytes(_b: lsh_rs::hash::ByteView) -> Option<Self> {
        panic!()
    }

    fn hash_vec_query(&self, v: &DataPoint) -> lsh_rs::hash::Hash {
        let floats: Vec<f32> = v.iter().map(|b| f32::from_bits(*b)).collect();
        self.hash_floats(&floats)
    }

    fn hash_vec_put(&self, v: &DataPoint) -> lsh_rs::hash::Hash {
        self.hash_vec_query(v)
    }

    fn to_bytes(&self) -> Vec<u8> {
        let (d, k) = self.hyperplanes.dim();
        let mut out = (d as u64).to_le_bytes().to_vec();
        out.extend((k as u64).to_le_bytes());
        for x in self.hyperplanes.iter() {
            out.extend(x.to_bits().to_le_bytes());
        }
        out
    }

    fn from_bytes(b: &Vec<u8>) -> Option<Srp> {
        if b.len() < 16 {
            return None;
        }
        let d = u64::from_le_bytes(b[0..8].try_into().ok()?) as usize;
        let k = u64::from_le_bytes(b[8..16].try_into().ok()?) as usize;
        if b.len() != 16 + 4 * d * k {
            return None;
        }
        let mut vals = Vec::with_capacity(d * k);
        for i in 0..d * k {
            let off = 16 + 4 * i;
            let bits = u32::from_le_bytes(b[off..off + 4].try_into().ok()?);
            vals.push(f32::from_bits(bits));
        }
        Some(Srp { hyperplanes: Array2::from_shape_vec((d, k), vals).ok()? })
    }
}

fn bits(v: &[f32]) -> DataPoint {
    v.iter().map(|x| x.to_bits()).collect()
}

fn srp_index(k: usize, l: usize, dim: usize, seed: u64) -> LSH<Srp> {
    let mut rng = SmallRng::seed_from_u64(seed);
    let mut hashers = Vec::new();
    for _ in 0..l {
        let s: u64 = rng.gen();
        hashers.push(Srp::new(k, dim, s));
    }
    LSH::new(k, l, dim).seed(seed).with_hashers(hashers).unwrap()
}

#[test]
fn srp_close_vectors_collide() {
    let mut lsh = srp_index(5, 3, 5, 1);
    let v1 = bits(&[1., 2., 3., 1., 3.]);
    let v2 = bits(&[1.1, 2., 3., 1., 3.1]);
    // The distant vector is sign-alternating rather than the
    // all-positive `[100, .., 100.1]`: that one is close in angle to
    // the pair above, and whether five hyperplanes separate it depends
    // on the generator's exact stream, which differs between random
    // libraries. The sign flip keeps the separation stable.
    let far = bits(&[-100., 100., -100., 100., -100.1]);
    let id1 = lsh.store_vec(&v1).unwrap();
    let id2 = lsh.store_vec(&v2).unwrap();
    let id3 = lsh.store_vec(&far).unwrap();
    let found = lsh.query_bucket_ids(&v1).unwrap();
    assert!(found.contains(&id1));
    assert!(found.contains(&id2));
    assert!(!found.contains(&id3));
}

#[test]
fn srp_seed_determinism() {
    let mut a = srp_index(8, 4, 6, 42);
    let mut b = srp_index(8, 4, 6, 42);
    let vs: Vec<DataPoint> = (0..20)
        .map(|i| bits(&[(i as f32) * 0.3 - 2.0, 1.0, -1.0, (i as f32), 0.5, -0.25]))
        .collect();
    a.store_vecs(&vs).unwrap();
    b.store_vecs(&vs).unwrap();
    for v in &vs {
        assert_eq!(a.query_bucket_ids(v).unwrap(), b.query_bucket_ids(v).unwrap());
    }
}

#[test]
fn srp_dump_load_roundtrip() {
    let mut lsh = srp_index(6, 2, 4, 3);
    let vs: Vec<DataPoint> = vec![
        bits(&[1., 0., -1., 2.]),
        bits(&[0.5, 0.5, 0.5, 0.5]),
    ];
    lsh.store_vecs(&vs).unwrap();
    let blob = lsh.dump().unwrap();
    let restored: LSH<Srp> = LSH::<Srp>::new(0, 0, 0).load(&blob).unwrap();
    for v in &vs {
        assert_eq!(lsh.query_bucket_ids(v).unwrap(), restored.query_bucket_ids(v).unwrap());
    }
}

#[test]
fn srp_close_pairs_mostly_collide() {
    // Nearby vectors should receive identical hashes far more often
    // than distant ones: a random-sample check with tolerance.
    let hasher = Srp::new(8, 6, 11);
    let mut rng = SmallRng::seed_from_u64(77);
    let mut close_equal = 0usize;
    let mut far_equal = 0usize;
    let n = 200;
    for _ in 0..n {
        let v: Vec<f32> = (0..6).map(|_| rng.gen_range(-1.0f32..1.0)).collect();
        let close: Vec<f32> = v.iter().map(|x| x + 0.001).collect();
        let far: Vec<f32> = v.iter().map(|x| -x + 0.5).collect();
        let h = hasher.hash_vec_put(&bits(&v));
        if h == hasher.hash_vec_put(&bits(&close)) {
            close_equal += 1;
        }
        if h == hasher.hash_vec_put(&bits(&far)) {
            far_equal += 1;
        }
    }
    assert!(close_equal * 10 >= n * 8, "close pairs collided only {} of {}", close_equal, n);
    assert!(far_equal < close_equal);
}

#[test]
fn srp_batches_agree() {
    let mut lsh = srp_index(7, 3, 5, 9);
    let vs: Vec<DataPoint> = (0..10)
        .map(|i| bits(&[(i as f32), 1.0, -0.5, 2.0 * (i as f32), -1.0]))
        .collect();
    lsh.store_vecs(&vs).unwrap();
    let seq_ids = lsh.query_bucket_ids_batch(&vs).unwrap();
    let par_ids = lsh.query_bucket_ids_batch_par(&vs).unwrap();
    assert_eq!(seq_ids, par_ids);
}
