//! Hash values, data points, and the hasher interface.

use vstd::prelude::*;

verus! {

/// One component of a hash: a small signed integer.
pub type HashPrimitive = i8;

/// A hash: `K` small signed integers, compared component-wise.
pub type Hash = Vec<HashPrimitive>;

/// A data point: the 32-bit component bit patterns of a vector.
/// Equality of bit patterns is how the index tells vectors apart.
pub type DataPoint = Vec<u32>;

/// The abstract value of a data point, as the hashing specification
/// sees it. Exposed so hash families outside this crate can implement
/// [`VecHash`]: their specification methods name these types and are
/// never run.
pub type VectorView = Seq<u32>;

/// The abstract value of a hash.
pub type HashView = Seq<i8>;

/// The abstract value of a serialized hasher.
pub type ByteView = Seq<u8>;

/// A family member that maps a data point to a `K`-long hash.
///
/// `hash_vec_put` is used when a vector enters the index,
/// `hash_vec_query` when one is looked up; symmetric families make the
/// two agree, asymmetric ones (maximum inner product) do not. Each
/// implementation fixes its behaviour as two functions of the input
/// alone, so the coordinator's contracts can speak about which bucket
/// a vector lands in.
pub trait VecHash: Sized {
    /// The hash a vector is stored under, as a function of the input.
    spec fn spec_hash_put(&self, v: Seq<u32>) -> Seq<i8>;

    /// The hash a vector is looked up under, as a function of the input.
    spec fn spec_hash_query(&self, v: Seq<u32>) -> Seq<i8>;

    /// Hash a vector for lookup.
    fn hash_vec_query(&self, v: &DataPoint) -> (h: Hash)
        ensures
            h@ == self.spec_hash_query(v@),
    ;

    /// Hash a vector for insertion.
    fn hash_vec_put(&self, v: &DataPoint) -> (h: Hash)
        ensures
            h@ == self.spec_hash_put(v@),
    ;

    /// The bytes this hasher serializes to, as a function of the
    /// hasher.
    spec fn spec_bytes(&self) -> Seq<u8>;

    /// Which hasher a byte string is accepted as, if any. A family
    /// whose persistence round-trips accepts its own `spec_bytes`.
    spec fn spec_from_bytes(b: Seq<u8>) -> Option<Self>;

    /// Serializes this hasher for persistence.
    fn to_bytes(&self) -> (r: Vec<u8>)
        ensures
            r@ == self.spec_bytes(),
    ;

    /// Rebuilds a hasher from its serialized bytes, or refuses them.
    fn from_bytes(b: &Vec<u8>) -> (r: Option<Self>)
        ensures
            r == Self::spec_from_bytes(b@),
    ;
}

/// The hash assigned by [`ParityHash`]: bit `i` is the low bit of
/// component `i mod D`.
pub open spec fn parity_hash(v: Seq<u32>, k: nat) -> Seq<i8> {
    Seq::new(k, |i: int| if v.len() == 0 { 0i8 } else { (v[i % v.len() as int] & 1) as i8 })
}

/// A deterministic, dimension-agnostic hasher: hash bit `i` is the low
/// bit of component `i mod D`. It is exact-match rather than
/// locality-sensitive, and serves as the family the index logic is
/// verified and exercised against without floating point.
pub struct ParityHash {
    /// Hash length `K`.
    pub n_projections: usize,
}

impl ParityHash {
    /// A parity hasher producing hashes of length `k`.
    pub fn new(k: usize) -> (r: ParityHash)
        ensures
            r.n_projections == k,
    {
        ParityHash { n_projections: k }
    }
}

impl VecHash for ParityHash {
    open spec fn spec_hash_put(&self, v: Seq<u32>) -> Seq<i8> {
        parity_hash(v, self.n_projections as nat)
    }

    open spec fn spec_hash_query(&self, v: Seq<u32>) -> Seq<i8> {
        parity_hash(v, self.n_projections as nat)
    }

    open spec fn spec_bytes(&self) -> Seq<u8> {
        crate::codec::le_digits(self.n_projections as nat, 8)
    }

    open spec fn spec_from_bytes(b: Seq<u8>) -> Option<ParityHash> {
        if b.len() == 8 && crate::codec::digits_value(b) <= usize::MAX {
            Some(ParityHash { n_projections: crate::codec::digits_value(b) as usize })
        } else {
            None
        }
    }

    fn hash_vec_query(&self, v: &DataPoint) -> (h: Hash) {
        parity_hash_exec(v, self.n_projections)
    }

    fn hash_vec_put(&self, v: &DataPoint) -> (h: Hash) {
        parity_hash_exec(v, self.n_projections)
    }

    fn to_bytes(&self) -> (r: Vec<u8>) {
        let mut out: Vec<u8> = Vec::new();
        crate::codec::push_le_digits(&mut out, self.n_projections as u64);
        proof {
            assert(out@ =~= self.spec_bytes());
        }
        out
    }

    fn from_bytes(b: &Vec<u8>) -> (r: Option<ParityHash>) {
        if b.len() != 8 {
            return None;
        }
        let x = crate::codec::read_le_digits(b);
        if x <= (usize::MAX as u64) {
            Some(ParityHash { n_projections: x as usize })
        } else {
            None
        }
    }
}

/// Law: the parity family's persistence round-trips: the bytes it
/// writes are accepted back as the same hasher.
pub proof fn lemma_parity_codec_roundtrip(h: ParityHash)
    ensures
        ParityHash::spec_from_bytes(h.spec_bytes()) == Some(h),
{
    crate::codec::lemma_le_digits_len(h.n_projections as nat, 8);
    crate::codec::lemma_p256_8();
    crate::codec::lemma_digits_roundtrip(h.n_projections as nat, 8);
}

/// Computes [`parity_hash`].
fn parity_hash_exec(v: &DataPoint, k: usize) -> (h: Hash)
    ensures
        h@ == parity_hash(v@, k as nat),
{
    let mut h: Hash = Vec::new();
    let mut i: usize = 0;
    while i < k
        invariant
            i <= k,
            h@.len() == i as nat,
            forall|j: int| 0 <= j < i ==> h@[j] == parity_hash(v@, k as nat)[j],
        decreases k - i,
    {
        if v.len() == 0 {
            h.push(0i8);
        } else {
            let c: u32 = v[i % v.len()];
            let bit: u32 = c & 1;
            assert(c & 1 <= 1) by (bit_vector);
            h.push(bit as i8);
        }
        i += 1;
    }
    assert(h@ =~= parity_hash(v@, k as nat));
    h
}

} // verus!
