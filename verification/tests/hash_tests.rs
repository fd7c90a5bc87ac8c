use lsh_rs::hash::{DataPoint, ParityHash, VecHash};

struct ConstHash {
    k: usize,
}

impl VecHash for ConstHash {
    fn spec_hash_put(&self, _v: lsh_rs::hash::VectorView) -> lsh_rs::hash::HashView {
        panic!()
    }

    fn spec_hash_query(&self, _v: lsh_rs::hash::VectorView) -> lsh_rs::hash::HashView {
        panic!()
    }

    fn spec_bytes(&self) -> lsh_rs::hash::ByteView {
        panic!()
    }

    fn spec_from_bytes(_b: lsh_rs::hash::ByteView) -> Option<Self> {
        panic!()
    }

    fn hash_vec_query(&self, _v: &DataPoint) -> lsh_rs::hash::Hash {
        vec![1i8; self.k]
    }

    fn hash_vec_put(&self, _v: &DataPoint) -> lsh_rs::hash::Hash {
        vec![1i8; self.k]
    }

    fn to_bytes(&self) -> Vec<u8> {
        vec![self.k as u8]
    }

    fn from_bytes(b: &Vec<u8>) -> Option<ConstHash> {
        if b.len() == 1 {
            Some(ConstHash { k: b[0] as usize })
        } else {
            None
        }
    }
}

#[test]
fn parity_hash_values() {
    let h = ParityHash::new(4);
    let v: DataPoint = vec![2, 3, 5];
    assert_eq!(h.hash_vec_query(&v), vec![0, 1, 1, 0]);
    assert_eq!(h.hash_vec_put(&v), h.hash_vec_query(&v));
}

#[test]
fn parity_hash_roundtrip_bytes() {
    let h = ParityHash::new(20);
    let b = h.to_bytes();
    let h2 = ParityHash::from_bytes(&b).unwrap();
    assert_eq!(h2.n_projections, 20);
}

#[test]
fn outside_family_implements_trait() {
    let h = ConstHash { k: 3 };
    let v: DataPoint = vec![7];
    assert_eq!(h.hash_vec_put(&v), vec![1, 1, 1]);
}
