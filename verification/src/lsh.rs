//! The multi-table index coordinator.
//!
//! An index owns `L` hashers and one backend. Inserting a vector files
//! its id under its hash in each of the `L` tables; querying unions the
//! buckets the query hashes to. Every operation pins the resulting
//! backend state as a function of the previous state, the hashers'
//! abstract hash functions, and the inputs, so equal histories yield
//! equal indexes.

use vstd::prelude::*;
use crate::errors::LshError;
use crate::hash::{DataPoint, VecHash};
use crate::table::{
    ids_below, store_contains, store_first_index, tbl_insert, tbl_remove, MemoryTable, TableModel,
};

verus! {

/// The abstract state of an index backend: one table model per hash
/// table, the stored vectors by id, and the id counter.
#[verifier::ext_equal]
pub ghost struct IndexModel {
    /// The `(key, bucket)` pairs of each table.
    pub tables: Seq<TableModel>,
    /// The stored vectors, id order; empty for an index-only store.
    pub store: Seq<Seq<u32>>,
    /// The next id.
    pub counter: int,
}

/// The backend state after one vector enters the index: its id (the
/// counter) is filed under its put-hash in every table, the vector is
/// recorded unless the store is index-only, and the counter advances.
pub open spec fn insert_one<H: VecHash>(
    m: IndexModel,
    hashers: Seq<H>,
    v: Seq<u32>,
    only_index: bool,
) -> IndexModel {
    IndexModel {
        tables: Seq::new(
            m.tables.len(),
            |t: int| tbl_insert(m.tables[t], hashers[t].spec_hash_put(v), m.counter as u32),
        ),
        store: if only_index {
            m.store
        } else {
            m.store.push(v)
        },
        counter: m.counter + 1,
    }
}

/// The backend state after a batch enters the index, in input order.
pub open spec fn insert_batch<H: VecHash>(
    m: IndexModel,
    hashers: Seq<H>,
    vs: Seq<Seq<u32>>,
    only_index: bool,
) -> IndexModel
    decreases vs.len(),
{
    if vs.len() == 0 {
        m
    } else {
        insert_batch(insert_one(m, hashers, vs[0], only_index), hashers, vs.drop_first(), only_index)
    }
}

/// How many vectors at the front of a batch have the right dimension.
pub open spec fn good_prefix_len(dvs: Seq<Seq<u32>>, dim: int) -> int
    decreases dvs.len(),
{
    if dvs.len() == 0 {
        0
    } else if dvs[0].len() != dim {
        0
    } else {
        1 + good_prefix_len(dvs.drop_first(), dim)
    }
}

/// The good prefix ends exactly at the first wrong-dimension vector.
pub proof fn lemma_good_prefix_len(dvs: Seq<Seq<u32>>, dim: int, i: int)
    requires
        0 <= i <= dvs.len(),
        forall|j: int| 0 <= j < i ==> (#[trigger] dvs[j]).len() == dim,
        i < dvs.len() ==> dvs[i].len() != dim,
    ensures
        good_prefix_len(dvs, dim) == i,
    decreases dvs.len(),
{
    if dvs.len() == 0 {
    } else if i == 0 {
    } else {
        assert(dvs[0].len() == dim);
        let rest = dvs.drop_first();
        assert forall|j: int| 0 <= j < i - 1 implies (#[trigger] rest[j]).len() == dim by {
            assert(rest[j] == dvs[j + 1]);
        }
        assert(i - 1 < rest.len() ==> rest[i - 1].len() != dim);
        lemma_good_prefix_len(rest, dim, i - 1);
    }
}

/// A batch insertion hands out exactly one id per vector.
pub proof fn lemma_insert_batch_counter<H: VecHash>(
    m: IndexModel,
    hashers: Seq<H>,
    vs: Seq<Seq<u32>>,
    only_index: bool,
)
    ensures
        insert_batch(m, hashers, vs, only_index).counter == m.counter + vs.len(),
    decreases vs.len(),
{
    if vs.len() == 0 {
    } else {
        lemma_insert_batch_counter(
            insert_one(m, hashers, vs[0], only_index),
            hashers,
            vs.drop_first(),
            only_index,
        );
    }
}

/// An empty backend model with `l` tables.
pub open spec fn empty_model(l: int) -> IndexModel {
    IndexModel {
        tables: Seq::new(l as nat, |t: int| Seq::<(Seq<i8>, Seq<u32>)>::empty()),
        store: Seq::empty(),
        counter: 0,
    }
}

/// The abstract state of a backend value.
pub open spec fn backend_model(ht: MemoryTable) -> IndexModel {
    IndexModel {
        tables: Seq::new(ht.tables@.len() as nat, |t: int| ht.table_model(t)),
        store: ht.store_model(),
        counter: ht.counter as int,
    }
}

/// The multi-table index: `L` hashers, one backend, and the build
/// parameters. Built with [`LSH::new`], configured by the chained
/// builder methods, and armed with hashers by [`LSH::with_hashers`];
/// until then the backend is absent and the index stores nothing.
///
/// The backend is the in-memory table, the one variant whose state can
/// also be dumped and reloaded; the transactional
/// [`crate::sqlite_mem::SqlTableMem`] offers the same verified bucket
/// semantics standalone for callers that drive it hash by hash.
pub struct LSH<H> {
    /// The number of hash tables, `L`.
    pub n_hash_tables: usize,
    /// The hash length, `K`.
    pub n_projections: usize,
    /// One hasher per table.
    pub hashers: Vec<H>,
    /// The vector dimension, `D`.
    pub dim: usize,
    /// The storage backend; absent until a hash family is chosen.
    pub hash_tables: Option<MemoryTable>,
    /// The master seed the hashers were built from; zero means the
    /// hashers were seeded from the machine.
    pub seed: u64,
    /// When set, the backend keeps ids only and vectors cannot be
    /// recovered from it.
    pub only_index_storage: bool,
    /// Whether queries expand into nearby hashes.
    pub multi_probe: bool,
    /// How many extra probes a query may spend, shared per query and
    /// applied to every table alike.
    pub multi_probe_budget: usize,
    /// Where a database-backed sibling of this index would live.
    pub db_path: String,
}

impl<H: VecHash> LSH<H> {
    /// Is a hash family chosen and the backend in place?
    pub open spec fn ready(self) -> bool {
        self.hash_tables is Some
    }

    /// The abstract backend state.
    pub open spec fn model(self) -> IndexModel {
        backend_model(self.hash_tables.unwrap())
    }

    /// One hasher per table, a sound backend, and consistent settings.
    pub open spec fn wf(self) -> bool {
        &&& self.hashers@.len() == self.n_hash_tables
        &&& self.n_projections <= usize::MAX / 2
        &&& match self.hash_tables {
            Some(ht) => {
                &&& ht.wf()
                &&& ht.settled()
                &&& ht.n_hash_tables == self.n_hash_tables
                &&& ht.only_index == self.only_index_storage
            },
            None => true,
        }
    }

    /// A bare index builder: `K` projections, `L` tables, dimension
    /// `D`; no hash family yet.
    pub fn new(n_projections: usize, n_hash_tables: usize, dim: usize) -> (r: LSH<H>)
        ensures
            r.n_projections == n_projections,
            r.n_hash_tables == n_hash_tables,
            r.dim == dim,
            !r.ready(),
            r.hashers@.len() == 0,
            r.seed == 0,
            !r.only_index_storage,
            !r.multi_probe,
            r.multi_probe_budget == 16,
            r.db_path@ == "./lsh.db3"@,
    {
        LSH {
            n_hash_tables,
            n_projections,
            hashers: Vec::new(),
            dim,
            hash_tables: None,
            seed: 0,
            only_index_storage: false,
            multi_probe: false,
            multi_probe_budget: 16,
            db_path: "./lsh.db3".to_owned(),
        }
    }

    /// Records the master seed the caller will build hashers from.
    pub fn seed(self, seed: u64) -> (r: LSH<H>)
        ensures
            r == (LSH { seed, ..self }),
    {
        LSH { seed, ..self }
    }

    /// Keeps ids only: the backend will not record vectors.
    pub fn only_index(self) -> (r: LSH<H>)
        ensures
            r == (LSH { only_index_storage: true, ..self }),
    {
        LSH { only_index_storage: true, ..self }
    }

    /// Turns multi-probe querying on with the given probe budget.
    pub fn multi_probe(self, budget: usize) -> (r: LSH<H>)
        ensures
            r == (LSH { multi_probe: true, multi_probe_budget: budget, ..self }),
    {
        LSH { multi_probe: true, multi_probe_budget: budget, ..self }
    }

    /// Turns multi-probe querying off.
    pub fn base(self) -> (r: LSH<H>)
        ensures
            r == (LSH { multi_probe: false, ..self }),
    {
        LSH { multi_probe: false, ..self }
    }

    /// Records where a database-backed sibling would keep its file.
    pub fn set_database_file(self, path: &str) -> (r: LSH<H>)
        ensures
            r.db_path@ == path@,
            r.n_hash_tables == self.n_hash_tables,
            r.n_projections == self.n_projections,
            r.hashers == self.hashers,
            r.dim == self.dim,
            r.hash_tables == self.hash_tables,
            r.seed == self.seed,
            r.only_index_storage == self.only_index_storage,
            r.multi_probe == self.multi_probe,
            r.multi_probe_budget == self.multi_probe_budget,
    {
        LSH { db_path: path.to_owned(), ..self }
    }

    /// Arms the index with one hasher per table and an empty backend.
    /// The hashers are serialized into the backend so a persisted
    /// index reproduces them; were a serialized set already present,
    /// it would take precedence, and bytes no hasher accepts would
    /// abort with `SerdeFormat`. Rejects a table count of zero.
    pub fn with_hashers(self, hashers: Vec<H>) -> (r: Result<LSH<H>, LshError>)
        requires
            hashers@.len() == self.n_hash_tables,
            self.n_projections <= usize::MAX / 2,
        ensures
            match r {
                Ok(lsh) => {
                    &&& lsh.wf()
                    &&& lsh.ready()
                    &&& lsh.model() == empty_model(self.n_hash_tables as int)
                    &&& lsh.hashers == hashers
                    &&& lsh.n_hash_tables == self.n_hash_tables
                    &&& lsh.n_projections == self.n_projections
                    &&& lsh.dim == self.dim
                    &&& lsh.seed == self.seed
                    &&& lsh.only_index_storage == self.only_index_storage
                    &&& lsh.multi_probe == self.multi_probe
                    &&& lsh.multi_probe_budget == self.multi_probe_budget
                },
                Err(e) => e == LshError::InvalidParam && self.n_hash_tables == 0,
            },
    {
        let mut ht = match MemoryTable::new(self.n_hash_tables, self.only_index_storage) {
            Ok(ht) => ht,
            Err(e) => {
                return Err(e);
            },
        };
        let ghost ht0 = ht;
        let mut blobs: Vec<Vec<u8>> = Vec::new();
        let mut i: usize = 0;
        while i < hashers.len()
            invariant
                i <= hashers@.len(),
                blobs@.len() == i,
                ht == ht0,
            decreases hashers@.len() - i,
        {
            blobs.push(hashers[i].to_bytes());
            i += 1;
        }
        let hashers = match ht.store_hashers(blobs) {
            Ok(()) => hashers,
            Err(_) => {
                proof {
                    // A fresh backend holds no hasher set, so storing
                    // one cannot be refused.
                    assert(ht0.blob_model() is None);
                    assert(false);
                }
                // A stored set takes precedence over the given one.
                let stored = match ht.load_hashers() {
                    Ok(stored) => stored,
                    Err(_) => {
                        return Err(LshError::BackendIO);
                    },
                };
                let loaded = match hashers_from_blobs::<H>(&stored) {
                    Ok(loaded) => loaded,
                    Err(e) => {
                        return Err(e);
                    },
                };
                if loaded.len() != self.n_hash_tables {
                    return Err(LshError::SerdeFormat);
                }
                loaded
            },
        };
        let lsh = LSH {
            hashers,
            hash_tables: Some(ht),
            db_path: self.db_path,
            n_hash_tables: self.n_hash_tables,
            n_projections: self.n_projections,
            dim: self.dim,
            seed: self.seed,
            only_index_storage: self.only_index_storage,
            multi_probe: self.multi_probe,
            multi_probe_budget: self.multi_probe_budget,
        };
        proof {
            assert forall|t: int|
                0 <= t < self.n_hash_tables implies #[trigger] lsh.hash_tables.unwrap().table_model(
                t,
            ) == Seq::<(Seq<i8>, Seq<u32>)>::empty() by {
                assert(ht0.table_model(t) == Seq::<(Seq<i8>, Seq<u32>)>::empty());
                assert(lsh.hash_tables.unwrap().tables == ht0.tables);
            }
            assert(lsh.model().tables =~= empty_model(self.n_hash_tables as int).tables);
            assert(lsh.model().store =~= empty_model(self.n_hash_tables as int).store);
            assert(lsh.model() == empty_model(self.n_hash_tables as int));
        }
        Ok(lsh)
    }

    /// Is the vector of the index dimension?
    fn validate_vec(&self, v: &DataPoint) -> (r: bool)
        ensures
            r == (v@.len() == self.dim),
    {
        v.len() == self.dim
    }

    /// Stores one vector and returns its id. The id is filed under the
    /// vector's put-hash in every table, so a later lookup under any of
    /// those hashes finds it. `Dim` when the vector is not of the index
    /// dimension.
    pub fn store_vec(&mut self, v: &DataPoint) -> (r: Result<u32, LshError>)
        requires
            old(self).wf(),
            old(self).ready(),
            old(self).model().counter < u32::MAX,
        ensures
            final(self).wf(),
            final(self).ready(),
            final(self).hashers == old(self).hashers,
            final(self).n_hash_tables == old(self).n_hash_tables,
            final(self).n_projections == old(self).n_projections,
            final(self).dim == old(self).dim,
            final(self).seed == old(self).seed,
            final(self).only_index_storage == old(self).only_index_storage,
            final(self).multi_probe == old(self).multi_probe,
            final(self).multi_probe_budget == old(self).multi_probe_budget,
            final(self).hash_tables.unwrap().blob_model() == old(self).hash_tables.unwrap().blob_model(),
            v@.len() != old(self).dim ==> r == Err::<u32, LshError>(LshError::Dim) && final(self).model() == old(self).model(),
            v@.len() == old(self).dim ==> {
                &&& r == Ok::<u32, LshError>(old(self).model().counter as u32)
                &&& final(self).model() == insert_one(
                    old(self).model(),
                    old(self).hashers@,
                    v@,
                    old(self).only_index_storage,
                )
            },
    {
        if !self.validate_vec(v) {
            return Err(LshError::Dim);
        }
        let ghost m0 = self.model();
        let ghost hs = self.hashers@;
        let mut ht = self.hash_tables.take().unwrap();
        let id = ht.counter;
        let n = self.n_hash_tables;
        proof {
            assert forall|s: int| 0 <= s < n implies ids_below(
                #[trigger] ht.table_model(s),
                (id + 1) as u32,
            ) by {
                lemma_ids_below_grow(ht.table_model(s), id, (id + 1) as u32);
            }
        }
        let mut t: usize = 0;
        while t < n
            invariant
                t <= n,
                n == self.n_hash_tables,
                self.hashers@ == hs,
                hs.len() == n,
                ht.wf(),
                ht.n_hash_tables == n,
                ht.only_index == self.only_index_storage,
                ht.tables@.len() == n,
                id == m0.counter,
                id < u32::MAX,
                m0.tables.len() == n,
                forall|s: int| 0 <= s < n ==> ids_below(#[trigger] m0.tables[s], id),
                forall|s: int| 0 <= s < t ==> ht.table_model(s) == tbl_insert(
                    m0.tables[s],
                    hs[s].spec_hash_put(v@),
                    id,
                ),
                forall|s: int| t <= s < n ==> ht.table_model(s) == m0.tables[s],
                t < n ==> ht.counter == id && ht.store_model() == m0.store,
                t == n ==> ht.counter == id + 1 && (self.only_index_storage ==> ht.store_model()
                    == m0.store) && (!self.only_index_storage ==> ht.store_model() == m0.store.push(
                    v@,
                )),
                ht.blob_model() == old(self).hash_tables.unwrap().blob_model(),
                forall|s: int| 0 <= s < n ==> ids_below(#[trigger] ht.table_model(s), (id + 1) as u32),
            decreases n - t,
        {
            let hash = self.hashers[t].hash_vec_put(v);
            let res = ht.put(hash, v, t);
            proof {
                lemma_tbl_insert_ids_below(m0.tables[t as int], hs[t as int].spec_hash_put(v@), id);
            }
            t += 1;
        }
        proof {
            assert forall|s: int| 0 <= s < n implies ids_below(
                #[trigger] ht.table_model(s),
                ht.counter,
            ) by {
                lemma_ids_below_grow(ht.table_model(s), (id + 1) as u32, ht.counter);
            }
        }
        self.hash_tables = Some(ht);
        proof {
            assert(self.model() =~= insert_one(m0, hs, v@, self.only_index_storage));
        }
        Ok(id)
    }

    /// The probe keys for table `t` of a query.
    fn probe_keys_exec(&self, t: usize, v: &DataPoint) -> (keys: Vec<crate::hash::Hash>)
        requires
            self.wf(),
            t < self.n_hash_tables,
        ensures
            keys@.len() == probe_keys(
                self.hashers@[t as int],
                self.n_projections,
                self.multi_probe_budget,
                self.multi_probe,
                v@,
            ).len(),
            forall|i: int| 0 <= i < keys@.len() ==> keys@[i]@ == probe_keys(
                self.hashers@[t as int],
                self.n_projections,
                self.multi_probe_budget,
                self.multi_probe,
                v@,
            )[i],
    {
        let ghost spec_keys = probe_keys(
            self.hashers@[t as int],
            self.n_projections,
            self.multi_probe_budget,
            self.multi_probe,
            v@,
        );
        let base = self.hashers[t].hash_vec_query(v);
        let mut keys: Vec<crate::hash::Hash> = Vec::new();
        if !self.multi_probe {
            keys.push(base);
            return keys;
        }
        let perts = crate::multi_probe::step_wise_probing(
            self.n_projections,
            self.multi_probe_budget,
        );
        let ghost base_v = base@;
        let mut j: usize = 0;
        let mut out: Vec<crate::hash::Hash> = Vec::new();
        while j < perts.len()
            invariant
                j <= perts@.len(),
                base@ == base_v,
                out@.len() == j,
                forall|i: int| 0 <= i < perts@.len() ==> perts@[i]@
                    == crate::multi_probe::stepwise_probing_spec(
                    self.n_projections,
                    self.multi_probe_budget,
                )[i],
                perts@.len() == crate::multi_probe::stepwise_probing_spec(
                    self.n_projections,
                    self.multi_probe_budget,
                ).len(),
                forall|i: int| 0 <= i < j ==> out@[i]@ == apply_perturb(
                    base_v,
                    crate::multi_probe::stepwise_probing_spec(
                        self.n_projections,
                        self.multi_probe_budget,
                    )[i],
                ),
            decreases perts@.len() - j,
        {
            out.push(apply_perturb_exec(&base, &perts[j]));
            j += 1;
        }
        keys.push(base);
        let mut i: usize = 0;
        let n_out = out.len();
        while i < n_out
            invariant
                i <= n_out,
                n_out == out@.len(),
                keys@.len() == i + 1,
                keys@[0]@ == base_v,
                forall|s: int| 0 <= s < out@.len() ==> out@[s]@ == apply_perturb(
                    base_v,
                    crate::multi_probe::stepwise_probing_spec(
                        self.n_projections,
                        self.multi_probe_budget,
                    )[s],
                ),
                forall|s: int| 0 <= s < i ==> keys@[s + 1]@ == out@[s]@,
            decreases n_out - i,
        {
            let k = crate::table::clone_hash(&out[i]);
            keys.push(k);
            i += 1;
        }
        proof {
            assert forall|s: int| 0 <= s < keys@.len() implies keys@[s]@ == spec_keys[s] by {
                if s == 0 {
                } else {
                    assert(keys@[s]@ == out@[s - 1]@);
                }
            }
        }
        keys
    }

    /// The ids a query hashes to: the union of the matching buckets
    /// over the `L` tables, first-seen order, absent keys contributing
    /// nothing. `Dim` when the query is not of the index dimension.
    fn query_bucket_union(&self, v: &DataPoint) -> (r: Result<Vec<u32>, LshError>)
        requires
            self.wf(),
            self.ready(),
        ensures
            match r {
                Ok(ids) => v@.len() == self.dim && ids@ == spec_query_ids(*self, v@),
                Err(e) => e == LshError::Dim && v@.len() != self.dim,
            },
    {
        if !self.validate_vec(v) {
            return Err(LshError::Dim);
        }
        let ghost m = self.model();
        let ghost hs = self.hashers@;
        let mut acc: Vec<u32> = Vec::new();
        let n = self.n_hash_tables;
        let mut t: usize = 0;
        while t < n
            invariant
                t <= n,
                n == self.n_hash_tables,
                self.wf(),
                self.ready(),
                m == self.model(),
                hs == self.hashers@,
                m.tables.len() == n,
                union_from(
                    m,
                    hs,
                    self.n_projections,
                    self.multi_probe_budget,
                    self.multi_probe,
                    v@,
                    t as int,
                    acc@,
                ) == spec_query_ids(*self, v@),
            decreases n - t,
        {
            let ghost keys_spec = probe_keys(
                hs[t as int],
                self.n_projections,
                self.multi_probe_budget,
                self.multi_probe,
                v@,
            );
            let keys = self.probe_keys_exec(t, v);
            let ghost acc_t = acc@;
            proof {
                assert(keys_spec.skip(0) =~= keys_spec);
            }
            let mut j: usize = 0;
            while j < keys.len()
                invariant
                    j <= keys@.len(),
                    self.wf(),
                    self.ready(),
                    t < n,
                    n == self.n_hash_tables,
                    m == self.model(),
                    m.tables.len() == n,
                    keys@.len() == keys_spec.len(),
                    forall|i: int| 0 <= i < keys@.len() ==> keys@[i]@ == keys_spec[i],
                    union_over_keys(m.tables[t as int], keys_spec.skip(j as int), acc@)
                        == union_over_keys(m.tables[t as int], keys_spec, acc_t),
                decreases keys@.len() - j,
            {
                let ghost pre = acc@;
                match self.hash_tables.as_ref().unwrap().query_bucket(&keys[j], t) {
                    Ok(b) => {
                        union_into(&mut acc, &b);
                        proof {
                            assert(crate::table::tbl_get(m.tables[t as int], keys_spec[j as int])
                                == Some(b@));
                        }
                    },
                    Err(_) => {
                        proof {
                            assert(crate::table::tbl_get(
                                m.tables[t as int],
                                keys_spec[j as int],
                            ) is None);
                        }
                    },
                }
                proof {
                    let sk = keys_spec.skip(j as int);
                    assert(sk.drop_first() =~= keys_spec.skip(j + 1));
                    assert(sk[0] == keys_spec[j as int]);
                    assert(union_over_keys(m.tables[t as int], sk, pre) == union_over_keys(
                        m.tables[t as int],
                        keys_spec.skip(j + 1),
                        acc@,
                    ));
                }
                j += 1;
            }
            proof {
                assert(keys_spec.skip(keys_spec.len() as int) =~= Seq::<Seq<i8>>::empty());
                assert(acc@ == union_over_keys(m.tables[t as int], keys_spec, acc_t));
            }
            t += 1;
        }
        Ok(acc)
    }

    /// The ids a query hashes to, over all `L` tables. `Dim` when the
    /// query is not of the index dimension.
    pub fn query_bucket_ids(&self, v: &DataPoint) -> (r: Result<Vec<u32>, LshError>)
        requires
            self.wf(),
            self.ready(),
        ensures
            match r {
                Ok(ids) => v@.len() == self.dim && ids@ == spec_query_ids(*self, v@),
                Err(e) => e == LshError::Dim && v@.len() != self.dim,
            },
    {
        self.query_bucket_union(v)
    }

    /// The stored vectors a query hashes to, over all `L` tables.
    /// `Dim` for a query of the wrong dimension; `IndexOnly` when the
    /// backend keeps no vectors.
    pub fn query_bucket(&self, v: &DataPoint) -> (r: Result<Vec<DataPoint>, LshError>)
        requires
            self.wf(),
            self.ready(),
        ensures
            match r {
                Ok(ds) => {
                    &&& v@.len() == self.dim
                    &&& !self.only_index_storage
                    &&& ds@.len() == spec_query_ids(*self, v@).len()
                    &&& forall|i: int| 0 <= i < ds@.len() ==> #[trigger] ds@[i]@
                        == self.model().store[spec_query_ids(*self, v@)[i] as int]
                },
                Err(e) => if v@.len() != self.dim {
                    e == LshError::Dim
                } else {
                    e == LshError::IndexOnly && self.only_index_storage
                },
            },
    {
        if !self.validate_vec(v) {
            return Err(LshError::Dim);
        }
        if self.only_index_storage {
            return Err(LshError::IndexOnly);
        }
        let ids = match self.query_bucket_union(v) {
            Ok(ids) => ids,
            Err(e) => {
                return Err(e);
            },
        };
        let ghost m = self.model();
        proof {
            let ht = self.hash_tables.unwrap();
            assert forall|s: int| 0 <= s < m.tables.len() implies ids_below(
                #[trigger] m.tables[s],
                ht.counter,
            ) by {
                assert(ht.table_model(s) == m.tables[s]);
            }
            lemma_union_from_bound(
                m,
                self.hashers@,
                self.n_projections,
                self.multi_probe_budget,
                self.multi_probe,
                v@,
                0,
                Seq::empty(),
                ht.counter,
            );
        }
        let mut ds: Vec<DataPoint> = Vec::new();
        let mut i: usize = 0;
        while i < ids.len()
            invariant
                i <= ids@.len(),
                self.wf(),
                self.ready(),
                !self.only_index_storage,
                m == self.model(),
                ids@ == spec_query_ids(*self, v@),
                forall|s: int| 0 <= s < ids@.len() ==> #[trigger] ids@[s]
                    < self.hash_tables.unwrap().counter,
                ds@.len() == i,
                forall|s: int| 0 <= s < i ==> #[trigger] ds@[s]@ == m.store[ids@[s] as int],
            decreases ids@.len() - i,
        {
            match self.hash_tables.as_ref().unwrap().idx_to_datapoint(ids[i]) {
                Ok(d) => {
                    ds.push(d);
                },
                Err(_) => {
                    proof {
                        assert(false);
                    }
                },
            }
            i += 1;
        }
        Ok(ds)
    }

    /// The ids each vector of a batch hashes to, in input order. `Dim`
    /// on the first vector of the wrong dimension.
    pub fn query_bucket_ids_batch(&self, vs: &Vec<DataPoint>) -> (r: Result<
        Vec<Vec<u32>>,
        LshError,
    >)
        requires
            self.wf(),
            self.ready(),
        ensures
            match r {
                Ok(rs) => {
                    &&& forall|i: int| 0 <= i < vs@.len() ==> (#[trigger] vs@[i])@.len()
                        == self.dim
                    &&& rs@.len() == vs@.len()
                    &&& forall|i: int| 0 <= i < rs@.len() ==> #[trigger] rs@[i]@ == spec_query_ids(
                        *self,
                        vs@[i]@,
                    )
                },
                Err(e) => e == LshError::Dim && exists|i: int|
                    0 <= i < vs@.len() && (#[trigger] vs@[i])@.len() != self.dim,
            },
    {
        let mut rs: Vec<Vec<u32>> = Vec::new();
        let mut i: usize = 0;
        while i < vs.len()
            invariant
                i <= vs@.len(),
                self.wf(),
                self.ready(),
                rs@.len() == i,
                forall|s: int| 0 <= s < i ==> (#[trigger] vs@[s])@.len() == self.dim,
                forall|s: int| 0 <= s < i ==> #[trigger] rs@[s]@ == spec_query_ids(
                    *self,
                    vs@[s]@,
                ),
            decreases vs@.len() - i,
        {
            match self.query_bucket_ids(&vs[i]) {
                Ok(ids) => {
                    rs.push(ids);
                },
                Err(e) => {
                    return Err(e);
                },
            }
            i += 1;
        }
        Ok(rs)
    }

    /// The ids each vector of a batch hashes to, computed on worker
    /// threads, with the same results in the same order as the
    /// sequential batch: each item is the verified `query_bucket_ids`.
    ///
    /// Relies on rayon's `par_iter().map(..).collect()`, which keeps
    /// input order for the collected `Ok` items and yields an error
    /// some item returned; the only error an item can return here is
    /// `Dim`.
    #[verifier::external_body]
    pub fn query_bucket_ids_batch_par(&self, vs: &Vec<DataPoint>) -> (r: Result<
        Vec<Vec<u32>>,
        LshError,
    >) where H: Sync
        requires
            self.wf(),
            self.ready(),
        ensures
            match r {
                Ok(rs) => {
                    &&& forall|i: int| 0 <= i < vs@.len() ==> (#[trigger] vs@[i])@.len()
                        == self.dim
                    &&& rs@.len() == vs@.len()
                    &&& forall|i: int| 0 <= i < rs@.len() ==> #[trigger] rs@[i]@ == spec_query_ids(
                        *self,
                        vs@[i]@,
                    )
                },
                Err(e) => e == LshError::Dim && exists|i: int|
                    0 <= i < vs@.len() && (#[trigger] vs@[i])@.len() != self.dim,
            },
    {
        rayon::iter::ParallelIterator::collect(
            rayon::iter::ParallelIterator::map(
                rayon::iter::IntoParallelRefIterator::par_iter(vs),
                |v| self.query_bucket_ids(v),
            ),
        )
    }

    /// Stores a batch and returns the ids, in input order: the first
    /// occurrence of a vector gets the next id. `Dim` on the first
    /// vector of the wrong dimension; vectors before it stay stored.
    pub fn store_vecs(&mut self, vs: &Vec<DataPoint>) -> (r: Result<Vec<u32>, LshError>)
        requires
            old(self).wf(),
            old(self).ready(),
            old(self).model().counter + vs@.len() <= u32::MAX,
        ensures
            final(self).wf(),
            final(self).ready(),
            final(self).hashers == old(self).hashers,
            final(self).n_hash_tables == old(self).n_hash_tables,
            final(self).n_projections == old(self).n_projections,
            final(self).dim == old(self).dim,
            final(self).seed == old(self).seed,
            final(self).only_index_storage == old(self).only_index_storage,
            final(self).multi_probe == old(self).multi_probe,
            final(self).multi_probe_budget == old(self).multi_probe_budget,
            ({
                let dvs = vs@.map_values(|p: DataPoint| p@);
                match r {
                    Ok(ids) => {
                        &&& forall|i: int| 0 <= i < dvs.len() ==> (#[trigger] dvs[i]).len()
                            == old(self).dim
                        &&& ids@.len() == vs@.len()
                        &&& forall|i: int| 0 <= i < ids@.len() ==> #[trigger] ids@[i] as int
                            == old(self).model().counter + i
                        &&& final(self).model() == insert_batch(
                            old(self).model(),
                            old(self).hashers@,
                            dvs,
                            old(self).only_index_storage,
                        )
                    },
                    Err(e) => {
                        &&& e == LshError::Dim
                        &&& good_prefix_len(dvs, old(self).dim as int) < dvs.len()
                        &&& final(self).model() == insert_batch(
                            old(self).model(),
                            old(self).hashers@,
                            dvs.take(good_prefix_len(dvs, old(self).dim as int)),
                            old(self).only_index_storage,
                        )
                    },
                }
            }),
    {
        let ghost m0 = old(self).model();
        let ghost hs = old(self).hashers@;
        let ghost dvs = vs@.map_values(|p: DataPoint| p@);
        self.increase_storage(vs.len());
        let mut ids: Vec<u32> = Vec::new();
        let mut i: usize = 0;
        proof {
            assert(dvs.take(0) =~= Seq::<Seq<u32>>::empty());
        }
        while i < vs.len()
            invariant
                i <= vs@.len(),
                self.wf(),
                self.ready(),
                self.hashers == old(self).hashers,
                self.hashers@ == hs,
                self.n_hash_tables == old(self).n_hash_tables,
                self.n_projections == old(self).n_projections,
                self.dim == old(self).dim,
                self.seed == old(self).seed,
                self.only_index_storage == old(self).only_index_storage,
                self.multi_probe == old(self).multi_probe,
                self.multi_probe_budget == old(self).multi_probe_budget,
                dvs == vs@.map_values(|p: DataPoint| p@),
                dvs.len() == vs@.len(),
                m0 == old(self).model(),
                hs == old(self).hashers@,
                m0.counter + vs@.len() <= u32::MAX,
                self.model() == insert_batch(m0, hs, dvs.take(i as int), self.only_index_storage),
                self.model().counter == m0.counter + i,
                ids@.len() == i,
                forall|s: int| 0 <= s < i ==> #[trigger] ids@[s] as int == m0.counter + s,
                forall|s: int| 0 <= s < i ==> (#[trigger] dvs[s]).len() == self.dim,
            decreases vs@.len() - i,
        {
            let ghost mi = self.model();
            match self.store_vec(&vs[i]) {
                Ok(id) => {
                    ids.push(id);
                },
                Err(e) => {
                    proof {
                        let ii = i as int;
                        assert((dvs[ii]).len() != old(self).dim);
                        lemma_good_prefix_len(dvs, old(self).dim as int, ii);
                        let g = good_prefix_len(dvs, old(self).dim as int);
                        assert(g == ii);
                        assert(self.model() == insert_batch(
                            m0,
                            hs,
                            dvs.take(ii),
                            old(self).only_index_storage,
                        ));
                        assert(m0 == old(self).model());
                        assert(hs == old(self).hashers@);
                        assert(self.model() == insert_batch(
                            old(self).model(),
                            old(self).hashers@,
                            dvs.take(g),
                            old(self).only_index_storage,
                        ));
                    }
                    return Err(e);
                },
            }
            proof {
                assert(dvs.take(i + 1) =~= dvs.take(i as int).push(dvs[i as int]));
                lemma_insert_batch_snoc(
                    m0,
                    hs,
                    dvs.take(i as int),
                    dvs[i as int],
                    self.only_index_storage,
                );
            }
            i += 1;
        }
        proof {
            assert(dvs.take(dvs.len() as int) =~= dvs);
        }
        Ok(ids)
    }

    /// Pre-reserves room for `upper_bound` more vectors.
    pub fn increase_storage(&mut self, upper_bound: usize)
        requires
            old(self).wf(),
            old(self).ready(),
        ensures
            final(self).wf(),
            final(self).ready(),
            final(self).model() == old(self).model(),
            final(self).hashers == old(self).hashers,
            final(self).n_hash_tables == old(self).n_hash_tables,
            final(self).n_projections == old(self).n_projections,
            final(self).dim == old(self).dim,
            final(self).seed == old(self).seed,
            final(self).only_index_storage == old(self).only_index_storage,
            final(self).multi_probe == old(self).multi_probe,
            final(self).multi_probe_budget == old(self).multi_probe_budget,
            final(self).hash_tables.unwrap().blob_model() == old(self).hash_tables.unwrap().blob_model(),
    {
        let ghost ht0 = self.hash_tables.unwrap();
        let mut ht = self.hash_tables.take().unwrap();
        ht.increase_storage(upper_bound);
        self.hash_tables = Some(ht);
        proof {
            assert forall|t: int| 0 <= t < ht.tables@.len() implies #[trigger] ht.table_model(t)
                == ht0.table_model(t) by {
                assert(ht.tables == ht0.tables);
            }
            assert(ht.settled()) by {
                assert forall|t: int| 0 <= t < ht.tables@.len() implies ids_below(
                    #[trigger] ht.table_model(t),
                    ht.counter,
                ) by {
                    assert(ht0.settled());
                    assert(ids_below(ht0.table_model(t), ht0.counter));
                }
            }
            assert(self.model().tables =~= old(self).model().tables);
            assert(self.model() == old(self).model());
        }
    }

    /// Removes a vector's id from the bucket its query-hash names in
    /// every table; tables that never saw the hash, and vectors the
    /// store does not hold, are left alone. `Dim` for a vector of the
    /// wrong dimension.
    pub fn delete_vec(&mut self, v: &DataPoint) -> (r: Result<(), LshError>)
        requires
            old(self).wf(),
            old(self).ready(),
        ensures
            final(self).wf(),
            final(self).ready(),
            final(self).hashers == old(self).hashers,
            final(self).n_hash_tables == old(self).n_hash_tables,
            final(self).n_projections == old(self).n_projections,
            final(self).dim == old(self).dim,
            final(self).seed == old(self).seed,
            final(self).only_index_storage == old(self).only_index_storage,
            final(self).multi_probe == old(self).multi_probe,
            final(self).multi_probe_budget == old(self).multi_probe_budget,
            v@.len() != old(self).dim ==> r == Err::<(), LshError>(LshError::Dim) && final(self).model() == old(self).model(),
            v@.len() == old(self).dim ==> r == Ok::<(), LshError>(()) && final(self).model()
                == delete_one(old(self).model(), old(self).hashers@, v@),
    {
        if !self.validate_vec(v) {
            return Err(LshError::Dim);
        }
        let ghost m0 = self.model();
        let ghost hs = self.hashers@;
        let mut ht = self.hash_tables.take().unwrap();
        let n = self.n_hash_tables;
        let mut t: usize = 0;
        while t < n
            invariant
                t <= n,
                n == self.n_hash_tables,
                self.hashers@ == hs,
                hs.len() == n,
                ht.wf(),
                ht.settled(),
                ht.n_hash_tables == n,
                ht.only_index == self.only_index_storage,
                ht.tables@.len() == n,
                ht.counter == m0.counter,
                ht.store_model() == m0.store,
                ht.blob_model() == old(self).hash_tables.unwrap().blob_model(),
                m0.tables.len() == n,
                forall|s: int| 0 <= s < t ==> ht.table_model(s) == delete_one(m0, hs, v@).tables[s],
                forall|s: int| t <= s < n ==> ht.table_model(s) == m0.tables[s],
            decreases n - t,
        {
            let hash = self.hashers[t].hash_vec_query(v);
            let ghost before = ht.table_model(t as int);
            match ht.delete(&hash, v, t) {
                Ok(()) => (),
                Err(_) => (),  // a missing bucket is recovered locally
            }
            proof {
                lemma_tbl_remove_ids_below(before, hs[t as int].spec_hash_query(v@), ht.counter);
                if store_contains(m0.store, v@) {
                    assert(ht.table_model(t as int) == tbl_remove(
                        before,
                        hs[t as int].spec_hash_query(v@),
                        store_first_index(m0.store, v@) as u32,
                    ));
                } else {
                    assert(ht.table_model(t as int) == before);
                }
                assert forall|s: int| 0 <= s < n implies ids_below(
                    #[trigger] ht.table_model(s),
                    ht.counter,
                ) by {
                    if s != t as int {
                    }
                }
            }
            t += 1;
        }
        self.hash_tables = Some(ht);
        proof {
            assert(self.model().tables =~= delete_one(m0, hs, v@).tables);
            assert(self.model() == delete_one(m0, hs, v@));
        }
        Ok(())
    }

    /// Moves an id from the buckets of an old vector's hashes to those
    /// of a new vector's hashes, table by table; a table that never saw
    /// the old hash stops the walk with `NotFound`, leaving earlier
    /// tables moved.
    pub fn update_by_idx(&mut self, idx: u32, new_v: &DataPoint, old_v: &DataPoint) -> (r: Result<
        (),
        LshError,
    >)
        requires
            old(self).wf(),
            old(self).ready(),
            idx < old(self).model().counter,
        ensures
            final(self).wf(),
            final(self).ready(),
            final(self).hashers == old(self).hashers,
            final(self).n_hash_tables == old(self).n_hash_tables,
            final(self).n_projections == old(self).n_projections,
            final(self).dim == old(self).dim,
            final(self).seed == old(self).seed,
            final(self).only_index_storage == old(self).only_index_storage,
            final(self).multi_probe == old(self).multi_probe,
            final(self).multi_probe_budget == old(self).multi_probe_budget,
            final(self).model().store == old(self).model().store,
            final(self).model().counter == old(self).model().counter,
            (new_v@.len() != old(self).dim || old_v@.len() != old(self).dim) ==> r == Err::<
                (),
                LshError,
            >(LshError::Dim) && final(self).model() == old(self).model(),
            r is Ok ==> new_v@.len() == old(self).dim && old_v@.len() == old(self).dim && forall|
                t: int,
            |
                0 <= t < old(self).n_hash_tables ==> #[trigger] final(self).model().tables[t]
                    == moved_table(old(self).model(), old(self).hashers@, idx, new_v@, old_v@, t),
            (r is Err && new_v@.len() == old(self).dim && old_v@.len() == old(self).dim) ==> r
                == Err::<(), LshError>(LshError::NotFound) && exists|ft: int|
                {
                    &&& 0 <= ft < old(self).n_hash_tables
                    &&& !crate::table::tbl_has_key(
                        old(self).model().tables[ft],
                        old(self).hashers@[ft].spec_hash_put(old_v@),
                    )
                    &&& forall|t: int|
                        0 <= t < old(self).n_hash_tables ==> #[trigger] final(self).model().tables[t] == (if t < ft {
                            moved_table(
                                old(self).model(),
                                old(self).hashers@,
                                idx,
                                new_v@,
                                old_v@,
                                t,
                            )
                        } else {
                            old(self).model().tables[t]
                        })
                },
    {
        if !self.validate_vec(new_v) || !self.validate_vec(old_v) {
            return Err(LshError::Dim);
        }
        let ghost m0 = self.model();
        let ghost hs = self.hashers@;
        let mut ht = self.hash_tables.take().unwrap();
        let n = self.n_hash_tables;
        let mut t: usize = 0;
        while t < n
            invariant
                t <= n,
                n == self.n_hash_tables,
                new_v@.len() == self.dim,
                old_v@.len() == self.dim,
                self.hashers == old(self).hashers,
                self.hashers@ == hs,
                self.n_hash_tables == old(self).n_hash_tables,
                self.n_projections == old(self).n_projections,
                self.n_projections <= usize::MAX / 2,
                self.dim == old(self).dim,
                self.seed == old(self).seed,
                self.only_index_storage == old(self).only_index_storage,
                self.multi_probe == old(self).multi_probe,
                self.multi_probe_budget == old(self).multi_probe_budget,
                m0 == old(self).model(),
                hs.len() == n,
                ht.wf(),
                ht.n_hash_tables == n,
                ht.only_index == self.only_index_storage,
                ht.tables@.len() == n,
                ht.counter == m0.counter,
                idx < m0.counter,
                ht.store_model() == m0.store,
                ht.blob_model() == old(self).hash_tables.unwrap().blob_model(),
                m0.tables.len() == n,
                forall|s: int| 0 <= s < t ==> ht.table_model(s) == moved_table(
                    m0,
                    hs,
                    idx,
                    new_v@,
                    old_v@,
                    s,
                ),
                forall|s: int| t <= s < n ==> ht.table_model(s) == m0.tables[s],
                forall|s: int| 0 <= s < n ==> ids_below(#[trigger] ht.table_model(s), ht.counter),
            decreases n - t,
        {
            let new_hash = self.hashers[t].hash_vec_put(new_v);
            let old_hash = self.hashers[t].hash_vec_put(old_v);
            let ghost before = ht.table_model(t as int);
            match ht.update_by_idx(&old_hash, new_hash, idx, t) {
                Ok(()) => {
                    proof {
                        lemma_tbl_remove_ids_below(before, hs[t as int].spec_hash_put(old_v@), ht.counter);
                        lemma_tbl_insert_ids_below_c(
                            tbl_remove(before, hs[t as int].spec_hash_put(old_v@), idx),
                            hs[t as int].spec_hash_put(new_v@),
                            idx,
                            ht.counter,
                        );
                        assert forall|s: int| 0 <= s < n implies ids_below(
                            #[trigger] ht.table_model(s),
                            ht.counter,
                        ) by {
                            if s != t as int {
                            }
                        }
                    }
                },
                Err(e) => {
                    self.hash_tables = Some(ht);
                    proof {
                        let ft = t as int;
                        assert(self.model().tables.len() == n);
                        assert forall|s: int| 0 <= s < n implies #[trigger] self.model().tables[s]
                            == (if s < ft {
                            moved_table(m0, hs, idx, new_v@, old_v@, s)
                        } else {
                            m0.tables[s]
                        }) by {}
                    }
                    return Err(LshError::NotFound);
                },
            }
            t += 1;
        }
        self.hash_tables = Some(ht);
        Ok(())
    }

    /// A per-table summary of the buckets: how many, how many ids in
    /// all (saturating), and the smallest and largest bucket, one
    /// [`table_line`] per table. The original also printed mean and
    /// standard deviation; those are floating point and are left to
    /// outer layers.
    pub fn describe(&self) -> (r: Result<String, LshError>)
        requires
            self.wf(),
            self.ready(),
        ensures
            match r {
                Ok(s) => s@ == describe_spec(self.model().tables, self.n_hash_tables as int),
                Err(_) => false,
            },
    {
        let ht = self.hash_tables.as_ref().unwrap();
        let mut out = String::new();
        let mut t: usize = 0;
        proof {
            assert(out@ =~= describe_spec(self.model().tables, 0));
        }
        while t < ht.tables.len()
            invariant
                self.wf(),
                self.ready(),
                ht == self.hash_tables.unwrap(),
                t <= ht.tables@.len(),
                out@ == describe_spec(self.model().tables, t as int),
            decreases ht.tables@.len() - t,
        {
            let table = &ht.tables[t];
            let ghost mt = table.model();
            proof {
                assert(self.model().tables[t as int] == mt);
            }
            let n_buckets = table.entries.len();
            let mut total: u64 = 0;
            let mut min_len: usize = usize::MAX;
            let mut max_len: usize = 0;
            let mut e: usize = 0;
            while e < table.entries.len()
                invariant
                    e <= table.entries@.len(),
                    mt == table.model(),
                    mt.len() == table.entries@.len(),
                    total == fold_stats(mt, e as int).0,
                    min_len as int == fold_stats(mt, e as int).1,
                    max_len as int == fold_stats(mt, e as int).2,
                decreases table.entries@.len() - e,
            {
                proof {
                    assert(mt[e as int].1 == table.entries@[e as int].bucket@);
                }
                let len = table.entries[e].bucket.len();
                let capped: u64 = len as u64;
                total = if total > u64::MAX - capped {
                    u64::MAX
                } else {
                    total + capped
                };
                if len < min_len {
                    min_len = len;
                }
                if len > max_len {
                    max_len = len;
                }
                e += 1;
            }
            if n_buckets == 0 {
                min_len = 0;
            }
            push_stats_line(&mut out, t, n_buckets, total, min_len, max_len);
            proof {
                assert(out@ == describe_spec(self.model().tables, t as int) + table_line(
                    t as int,
                    mt,
                ));
            }
            t += 1;
        }
        proof {
            assert(self.model().tables.len() == self.n_hash_tables);
        }
        Ok(out)
    }

    /// Serializes the index: the hashers (through the family's own
    /// bytes), the backend tables and store, and the build scalars. An
    /// outer layer writes the blob to a file.
    pub fn dump(&self) -> (r: Result<Vec<u8>, LshError>)
        requires
            self.wf(),
            self.ready(),
        ensures
            match r {
                Ok(bytes) => bytes@ == crate::codec::words_to_bytes_spec(
                    crate::codec::enc_state(dump_state(*self, spec_hasher_bytes(self.hashers@))),
                ),
                Err(_) => false,
            },
    {
        let mut blobs: Vec<Vec<u8>> = Vec::new();
        let mut i: usize = 0;
        while i < self.hashers.len()
            invariant
                i <= self.hashers@.len(),
                blobs@.len() == i,
                forall|t: int| 0 <= t < i ==> #[trigger] blobs@[t]@
                    == self.hashers@[t].spec_bytes(),
            decreases self.hashers@.len() - i,
        {
            blobs.push(self.hashers[i].to_bytes());
            i += 1;
        }
        let ht = self.hash_tables.as_ref().unwrap();
        let bytes = crate::codec::state_bytes(
            self.n_hash_tables as u64,
            self.n_projections as u64,
            self.dim as u64,
            self.seed,
            ht.counter as u64,
            self.only_index_storage,
            &ht.tables,
            &ht.vec_store,
            &blobs,
        );
        proof {
            let bs = blobs@.map_values(|b: Vec<u8>| b@);
            assert(bs =~= spec_hasher_bytes(self.hashers@));
            let st = dump_state(*self, bs);
            assert(ht.tables@.map_values(|t: crate::table::HashTable| t.model())
                =~= self.model().tables);
            assert(ht.vec_store@.map_values(|p: DataPoint| p@) =~= self.model().store);
            assert(bytes@ == crate::codec::words_to_bytes_spec(crate::codec::enc_state(st)));
        }
        Ok(bytes)
    }

    /// Restores an index from a dumped blob: the backend state and the
    /// build scalars come from the blob, the hashers are rebuilt from
    /// their stored bytes, and the probing settings stay as configured
    /// on the receiver. Succeeds exactly when the bytes parse, the
    /// decoded state passes the soundness and range checks, and the
    /// family accepts every stored hasher byte string; everything else
    /// is `SerdeFormat`.
    pub fn load(self, bytes: &Vec<u8>) -> (r: Result<LSH<H>, LshError>)
        ensures
            match crate::codec::bytes_to_words_spec(bytes@) {
                Some(ws) => match crate::codec::dec_state(ws) {
                    Some(st) => {
                        &&& (r is Ok) == (state_ok(st) && all_blobs_accepted::<H>(st.blobs))
                        &&& match r {
                            Ok(lsh2) => {
                                &&& lsh2.wf()
                                &&& lsh2.ready()
                                &&& lsh2.n_hash_tables == st.l
                                &&& lsh2.n_projections == st.k
                                &&& lsh2.dim == st.d
                                &&& lsh2.seed == st.seed
                                &&& lsh2.only_index_storage == st.only_index
                                &&& lsh2.model().tables == st.tables
                                &&& lsh2.model().store == st.store
                                &&& lsh2.model().counter == st.counter
                                &&& lsh2.hashers@.len() == st.blobs.len()
                                &&& forall|i: int|
                                    0 <= i < st.blobs.len() ==> Some(lsh2.hashers@[i])
                                        == H::spec_from_bytes(#[trigger] st.blobs[i])
                                &&& lsh2.multi_probe == self.multi_probe
                                &&& lsh2.multi_probe_budget == self.multi_probe_budget
                            },
                            Err(e) => e == LshError::SerdeFormat,
                        }
                    },
                    None => r == Err::<LSH<H>, LshError>(LshError::SerdeFormat),
                },
                None => r == Err::<LSH<H>, LshError>(LshError::SerdeFormat),
            },
    {
        let di = match crate::codec::read_state(bytes) {
            Some(di) => di,
            None => {
                return Err(LshError::SerdeFormat);
            },
        };
        proof {
            // Each decoding stage yielded exactly the counts the
            // header names.
            let ws = crate::codec::bytes_to_words_spec(bytes@).unwrap();
            let tdec = crate::codec::dec_tables(ws.skip(6), ws[0] as nat);
            assert(tdec is Some);
            crate::codec::lemma_dec_tables_len(ws.skip(6), ws[0] as nat);
            let (tbls, r2) = tdec.unwrap();
            let n_store: nat = if ws[5] == 1 {
                0nat
            } else {
                ws[4] as nat
            };
            assert(crate::codec::dec_store(r2, n_store) is Some);
            crate::codec::lemma_dec_store_len(r2, n_store);
            let (stv, r3) = crate::codec::dec_store(r2, n_store).unwrap();
            assert(crate::codec::dec_blobs(r3, ws[0] as nat) is Some);
            crate::codec::lemma_dec_blobs_len(r3, ws[0] as nat);
        }
        if di.l < 1 || di.l > (usize::MAX as u64) || di.k > ((usize::MAX / 2) as u64) || di.d > (
        usize::MAX as u64) || di.counter > (u32::MAX as u64) {
            return Err(LshError::SerdeFormat);
        }
        let l = di.tables.len();
        proof {
            assert(di.model().tables.len() == di.l);
            assert(di.model().blobs.len() == di.l);
            assert(di.model().store.len() == (if di.only_index {
                0int
            } else {
                di.counter as int
            }));
            assert(l == di.l);
        }
        let mut t: usize = 0;
        let mut all_sound = true;
        while t < l
            invariant
                t <= l,
                l == di.tables@.len(),
                di.counter <= u32::MAX,
                all_sound == (forall|s: int|
                    0 <= s < t ==> (#[trigger] di.tables@[s]).wf() && ids_below(
                        di.tables@[s].model(),
                        di.counter as u32,
                    )),
            decreases l - t,
        {
            let ok = check_table_sound(&di.tables[t], di.counter as u32);
            all_sound = all_sound && ok;
            t += 1;
        }
        let ghost st = di.model();
        if !all_sound {
            proof {
                let s = choose|s: int|
                    0 <= s < l && !((#[trigger] di.tables@[s]).wf() && ids_below(
                        di.tables@[s].model(),
                        di.counter as u32,
                    ));
                assert(st.tables[s] == di.tables@[s].model());
                assert(!(keys_distinct(st.tables[s]) && buckets_distinct(st.tables[s])
                    && ids_below(st.tables[s], st.counter as u32)));
                assert(!state_ok(st));
            }
            return Err(LshError::SerdeFormat);
        }
        let hashers = match hashers_from_blobs::<H>(&di.blobs) {
            Ok(hs) => hs,
            Err(e) => {
                proof {
                    let i = choose|i: int|
                        0 <= i < di.blobs@.len() && H::spec_from_bytes(
                            (#[trigger] di.blobs@[i])@,
                        ) is None;
                    assert(st.blobs[i] == di.blobs@[i]@);
                    assert(!all_blobs_accepted::<H>(st.blobs));
                }
                return Err(e);
            },
        };
        proof {
            assert(state_ok(st)) by {
                assert forall|w: int|
                    0 <= w < st.tables.len() implies keys_distinct(#[trigger] st.tables[w])
                    && buckets_distinct(st.tables[w]) && ids_below(
                    st.tables[w],
                    st.counter as u32,
                ) by {
                    assert(di.tables@[w].wf() && ids_below(
                        di.tables@[w].model(),
                        di.counter as u32,
                    ));
                    assert(st.tables[w] == di.tables@[w].model());
                }
            }
            assert(all_blobs_accepted::<H>(st.blobs)) by {
                assert forall|i: int|
                    0 <= i < st.blobs.len() implies (#[trigger] H::spec_from_bytes(
                    st.blobs[i],
                )) is Some by {
                    assert(st.blobs[i] == di.blobs@[i]@);
                    assert(Some(hashers@[i]) == H::spec_from_bytes(di.blobs@[i]@));
                }
            }
        }
        let mt = MemoryTable {
            tables: di.tables,
            vec_store: di.store,
            only_index: di.only_index,
            counter: di.counter as u32,
            n_hash_tables: l,
            hashers_blob: Some(di.blobs),
        };
        proof {
            assert(mt.store_model() =~= st.store);
            assert(mt.wf());
            assert(mt.settled());
        }
        let lsh2 = LSH {
            n_hash_tables: l,
            n_projections: di.k as usize,
            hashers,
            dim: di.d as usize,
            hash_tables: Some(mt),
            seed: di.seed,
            only_index_storage: di.only_index,
            multi_probe: self.multi_probe,
            multi_probe_budget: self.multi_probe_budget,
            db_path: self.db_path,
        };
        proof {
            assert(lsh2.model().tables =~= st.tables);
        }
        Ok(lsh2)
    }
}

/// The line of text std's formatting lays out for one table's bucket
/// summary. The numbers themselves are computed by the verified scan;
/// only their layout as text is named rather than stated.
pub uninterp spec fn stats_line(t: int, n_buckets: int, total: u64, min_len: int, max_len: int) -> Seq<char>;

/// The bucket-length statistics of a table's first `upto` slots:
/// total id count (saturating), smallest bucket, largest bucket.
pub open spec fn fold_stats(m: TableModel, upto: int) -> (u64, int, int)
    decreases upto,
{
    if upto <= 0 {
        (0u64, usize::MAX as int, 0int)
    } else {
        let prev = fold_stats(m, upto - 1);
        let len = m[upto - 1].1.len() as int;
        (
            if prev.0 + len > u64::MAX {
                u64::MAX
            } else {
                (prev.0 + len) as u64
            },
            if len < prev.1 {
                len
            } else {
                prev.1
            },
            if len > prev.2 {
                len
            } else {
                prev.2
            },
        )
    }
}

/// One table's summary line: its slot count and bucket statistics,
/// with an empty table's smallest bucket reported as zero.
pub open spec fn table_line(t: int, m: TableModel) -> Seq<char> {
    let stats = fold_stats(m, m.len() as int);
    stats_line(
        t,
        m.len() as int,
        stats.0,
        if m.len() == 0 {
            0int
        } else {
            stats.1
        },
        stats.2,
    )
}

/// The whole bucket summary: one line per table, in table order.
pub open spec fn describe_spec(tables: Seq<TableModel>, upto: int) -> Seq<char>
    decreases upto,
{
    if upto <= 0 {
        Seq::empty()
    } else {
        describe_spec(tables, upto - 1) + table_line(upto - 1, tables[upto - 1])
    }
}

/// Relies on std's formatting to lay one table's bucket summary out as
/// a line of text; the numbers come from the verified scan.
#[verifier::external_body]
fn push_stats_line(
    out: &mut String,
    t: usize,
    n_buckets: usize,
    total: u64,
    min_len: usize,
    max_len: usize,
)
    ensures
        final(out)@ == old(out)@ + stats_line(
            t as int,
            n_buckets as int,
            total,
            min_len as int,
            max_len as int,
        ),
{
    out.push_str(
        &format!(
            "table {}: {} buckets, {} ids, smallest bucket {}, largest bucket {}\n",
            t, n_buckets, total, min_len, max_len,
        ),
    );
}

/// Is this table sound: distinct keys, duplicate-free buckets, and
/// every id already handed out?
fn check_table_sound(t: &crate::table::HashTable, counter: u32) -> (r: bool)
    ensures
        r == (t.wf() && ids_below(t.model(), counter)),
{
    let n = t.entries.len();
    let mut i: usize = 0;
    while i < n
        invariant
            i <= n,
            n == t.entries@.len(),
            forall|a: int, b: int|
                0 <= a < b < n && a < i ==> (#[trigger] t.model()[a]).0 != (
                #[trigger] t.model()[b]).0,
        decreases n - i,
    {
        let mut j: usize = i + 1;
        while j < n
            invariant
                i < j <= n || (i + 1 == j && j > n),
                i < n,
                n == t.entries@.len(),
                forall|b: int| i < b < j ==> (#[trigger] t.model()[b]).0 != t.model()[i as int].0,
            decreases n - j,
        {
            if t.entries[i].key == t.entries[j].key {
                proof {
                    assert(t.model()[i as int].0 =~= t.model()[j as int].0);
                }
                return false;
            }
            proof {
                assert(t.model()[i as int].0 == t.entries@[i as int].key@);
                assert(t.model()[j as int].0 == t.entries@[j as int].key@);
                if t.entries@[i as int].key@ == t.entries@[j as int].key@ {
                    assert(t.entries[i as int].key == t.entries[j as int].key);
                }
            }
            j += 1;
        }
        i += 1;
    }
    let mut e: usize = 0;
    while e < n
        invariant
            e <= n,
            n == t.entries@.len(),
            forall|a: int| 0 <= a < e ==> (#[trigger] t.model()[a]).1.no_duplicates() && (forall|
                p: int,
            | 0 <= p < t.model()[a].1.len() ==> #[trigger] t.model()[a].1[p] < counter),
        decreases n - e,
    {
        let b = &t.entries[e].bucket;
        let m = b.len();
        let mut p: usize = 0;
        while p < m
            invariant
                p <= m,
                e < n,
                n == t.entries@.len(),
                m == t.entries@[e as int].bucket@.len(),
                b == &t.entries@[e as int].bucket,
                forall|a: int, c: int| 0 <= a < c < m && a < p ==> b@[a] != b@[c],
                forall|a: int| 0 <= a < p ==> #[trigger] b@[a] < counter,
            decreases m - p,
        {
            if b[p] >= counter {
                proof {
                    assert(t.model()[e as int].1[p as int] == b@[p as int]);
                    assert(!ids_below(t.model(), counter));
                }
                return false;
            }
            let mut q: usize = p + 1;
            while q < m
                invariant
                    p < q <= m || (p + 1 == q && q > m),
                    p < m,
                    e < n,
                    n == t.entries@.len(),
                    m == t.entries@[e as int].bucket@.len(),
                    b == &t.entries@[e as int].bucket,
                    forall|c: int| p < c < q ==> b@[c] != b@[p as int],
                decreases m - q,
            {
                if b[p] == b[q] {
                    proof {
                        assert(t.model()[e as int].1[p as int] == t.model()[e as int].1[q as int]);
                        assert(!(#[trigger] t.model()[e as int]).1.no_duplicates());
                    }
                    return false;
                }
                q += 1;
            }
            p += 1;
        }
        e += 1;
    }
    proof {
        assert forall|a: int|
            0 <= a < t.model().len() implies (#[trigger] t.model()[a]).1.no_duplicates() by {}
        assert(t.wf());
        assert forall|a: int, p: int|
            0 <= a < t.model().len() && 0 <= p < (#[trigger] t.model()[a]).1.len() implies #[trigger] t.model()[a].1[p]
            < counter by {}
    }
    true
}

/// Table `t` after an id moves from the old vector's bucket to the new
/// vector's bucket.
pub open spec fn moved_table<H: VecHash>(
    m: IndexModel,
    hashers: Seq<H>,
    idx: u32,
    new_v: Seq<u32>,
    old_v: Seq<u32>,
    t: int,
) -> TableModel {
    tbl_insert(
        tbl_remove(m.tables[t], hashers[t].spec_hash_put(old_v), idx),
        hashers[t].spec_hash_put(new_v),
        idx,
    )
}

/// The backend state after a vector leaves the index: its id leaves
/// the bucket its query-hash names in every table; the id stays
/// allocated and the vector stays in the store.
pub open spec fn delete_one<H: VecHash>(m: IndexModel, hashers: Seq<H>, v: Seq<u32>) -> IndexModel {
    IndexModel {
        tables: Seq::new(
            m.tables.len(),
            |t: int|
                if store_contains(m.store, v) {
                    tbl_remove(
                        m.tables[t],
                        hashers[t].spec_hash_query(v),
                        store_first_index(m.store, v) as u32,
                    )
                } else {
                    m.tables[t]
                },
        ),
        store: m.store,
        counter: m.counter,
    }
}

/// Ids in a union stay bounded by what bounds its parts.
proof fn lemma_union_step_bound(acc: Seq<u32>, b: Seq<u32>, c: u32)
    requires
        forall|i: int| 0 <= i < acc.len() ==> #[trigger] acc[i] < c,
        forall|i: int| 0 <= i < b.len() ==> #[trigger] b[i] < c,
    ensures
        forall|i: int|
            0 <= i < union_step(acc, b).len() ==> #[trigger] union_step(acc, b)[i] < c,
    decreases b.len(),
{
    if b.len() == 0 {
        assert(union_step(acc, b) == acc);
    } else {
        let acc2 = if acc.contains(b[0]) {
            acc
        } else {
            acc.push(b[0])
        };
        assert forall|i: int| 0 <= i < acc2.len() implies #[trigger] acc2[i] < c by {
            if i < acc.len() {
            } else {
                assert(acc2[i] == b[0]);
            }
        }
        assert forall|i: int| 0 <= i < b.drop_first().len() implies #[trigger] b.drop_first()[i]
            < c by {
            assert(b.drop_first()[i] == b[i + 1]);
        }
        lemma_union_step_bound(acc2, b.drop_first(), c);
        assert(union_step(acc, b) == union_step(acc2, b.drop_first()));
    }
}

/// Ids unioned over a table's keys come from its buckets, so a bound
/// on the table bounds the union.
proof fn lemma_union_over_keys_bound(m: TableModel, keys: Seq<Seq<i8>>, acc: Seq<u32>, c: u32)
    requires
        ids_below(m, c),
        forall|i: int| 0 <= i < acc.len() ==> #[trigger] acc[i] < c,
    ensures
        forall|i: int|
            0 <= i < union_over_keys(m, keys, acc).len() ==> #[trigger] union_over_keys(
                m,
                keys,
                acc,
            )[i] < c,
    decreases keys.len(),
{
    if keys.len() == 0 {
        assert(union_over_keys(m, keys, acc) == acc);
    } else {
        let acc2 = match crate::table::tbl_get(m, keys[0]) {
            Some(b) => union_step(acc, b),
            None => acc,
        };
        match crate::table::tbl_get(m, keys[0]) {
            Some(b) => {
                let w = crate::table::tbl_index_of(m, keys[0]);
                assert(b == m[w].1);
                assert forall|i: int| 0 <= i < b.len() implies #[trigger] b[i] < c by {
                    assert(m[w].1[i] < c);
                }
                lemma_union_step_bound(acc, b, c);
            },
            None => {},
        }
        lemma_union_over_keys_bound(m, keys.drop_first(), acc2, c);
        assert(union_over_keys(m, keys, acc) == union_over_keys(m, keys.drop_first(), acc2));
    }
}

/// Ids unioned over all tables stay bounded by what bounds every
/// table.
proof fn lemma_union_from_bound<H: VecHash>(
    m: IndexModel,
    hashers: Seq<H>,
    k_len: usize,
    budget: usize,
    enabled: bool,
    v: Seq<u32>,
    t: int,
    acc: Seq<u32>,
    c: u32,
)
    requires
        0 <= t <= m.tables.len(),
        forall|s: int| 0 <= s < m.tables.len() ==> ids_below(#[trigger] m.tables[s], c),
        forall|i: int| 0 <= i < acc.len() ==> #[trigger] acc[i] < c,
    ensures
        forall|i: int|
            0 <= i < union_from(m, hashers, k_len, budget, enabled, v, t, acc).len()
                ==> #[trigger] union_from(m, hashers, k_len, budget, enabled, v, t, acc)[i] < c,
    decreases m.tables.len() - t,
{
    if t >= m.tables.len() {
        assert(union_from(m, hashers, k_len, budget, enabled, v, t, acc) == acc);
    } else {
        let acc2 = union_over_keys(
            m.tables[t],
            probe_keys(hashers[t], k_len, budget, enabled, v),
            acc,
        );
        lemma_union_over_keys_bound(
            m.tables[t],
            probe_keys(hashers[t], k_len, budget, enabled, v),
            acc,
            c,
        );
        lemma_union_from_bound(m, hashers, k_len, budget, enabled, v, t + 1, acc2, c);
        assert(union_from(m, hashers, k_len, budget, enabled, v, t, acc) == union_from(
            m,
            hashers,
            k_len,
            budget,
            enabled,
            v,
            t + 1,
            acc2,
        ));
    }
}

/// A batch insertion is one more insertion after the rest.
proof fn lemma_insert_batch_snoc<H: VecHash>(
    m: IndexModel,
    hashers: Seq<H>,
    s: Seq<Seq<u32>>,
    v: Seq<u32>,
    only_index: bool,
)
    ensures
        insert_batch(m, hashers, s.push(v), only_index) == insert_one(
            insert_batch(m, hashers, s, only_index),
            hashers,
            v,
            only_index,
        ),
    decreases s.len(),
{
    if s.len() == 0 {
        assert(s.push(v)[0] == v);
        assert(s.push(v).drop_first() =~= Seq::<Seq<u32>>::empty());
        assert(insert_batch(m, hashers, s, only_index) == m);
        assert(insert_batch(m, hashers, s.push(v), only_index) == insert_batch(
            insert_one(m, hashers, v, only_index),
            hashers,
            s.push(v).drop_first(),
            only_index,
        ));
        assert(insert_batch(insert_one(m, hashers, v, only_index), hashers, Seq::empty(), only_index)
            == insert_one(m, hashers, v, only_index));
    } else {
        assert(s.push(v)[0] == s[0]);
        assert(s.push(v).drop_first() =~= s.drop_first().push(v));
        lemma_insert_batch_snoc(
            insert_one(m, hashers, s[0], only_index),
            hashers,
            s.drop_first(),
            v,
            only_index,
        );
        assert(insert_batch(m, hashers, s.push(v), only_index) == insert_batch(
            insert_one(m, hashers, s[0], only_index),
            hashers,
            s.drop_first().push(v),
            only_index,
        ));
        assert(insert_batch(m, hashers, s, only_index) == insert_batch(
            insert_one(m, hashers, s[0], only_index),
            hashers,
            s.drop_first(),
            only_index,
        ));
    }
}

/// Unfiling an id never raises the ids in a table.
proof fn lemma_tbl_remove_ids_below(m: TableModel, key: Seq<i8>, c: u32)
    requires
        ids_below(m, c),
    ensures
        forall|id: u32| ids_below(#[trigger] tbl_remove(m, key, id), c),
{
    assert forall|id: u32| ids_below(#[trigger] tbl_remove(m, key, id), c) by {
        let m2 = tbl_remove(m, key, id);
        assert forall|i: int, j: int|
            0 <= i < m2.len() && 0 <= j < (#[trigger] m2[i]).1.len() implies #[trigger] m2[i].1[j]
            < c by {
            if crate::table::tbl_has_key(m, key) {
                let w = crate::table::tbl_index_of(m, key);
                if i == w {
                    let b = m[w].1;
                    let b2 = crate::table::bucket_remove(b, id);
                    if b.contains(id) {
                        let p = crate::table::bucket_pos(b, id);
                        let bj = if j < p {
                            j
                        } else {
                            j + 1
                        };
                        assert(b2[j] == b[bj]);
                        assert(m[i].1[bj] < c);
                    } else {
                        assert(m[i].1[j] < c);
                    }
                } else {
                    assert(m2[i] == m[i]);
                    assert(m[i].1[j] < c);
                }
            } else {
                assert(m2[i] == m[i]);
                assert(m[i].1[j] < c);
            }
        }
    }
}

/// The persisted state of an index: its backend tables, store and
/// counter, its build scalars, and one serialized byte string per
/// hasher.
pub open spec fn dump_state<H: VecHash>(
    lsh: LSH<H>,
    blobs: Seq<Seq<u8>>,
) -> crate::codec::LoadedState {
    crate::codec::LoadedState {
        l: lsh.n_hash_tables as u64,
        k: lsh.n_projections as u64,
        d: lsh.dim as u64,
        seed: lsh.seed,
        counter: lsh.model().counter as u64,
        only_index: lsh.only_index_storage,
        tables: lsh.model().tables,
        store: lsh.model().store,
        blobs,
    }
}

/// The bytes each hasher of a set serializes to.
pub open spec fn spec_hasher_bytes<H: VecHash>(hs: Seq<H>) -> Seq<Seq<u8>> {
    hs.map_values(|h: H| h.spec_bytes())
}

/// Does the family accept every stored hasher byte string?
pub open spec fn all_blobs_accepted<H: VecHash>(bs: Seq<Seq<u8>>) -> bool {
    forall|i: int| 0 <= i < bs.len() ==> (#[trigger] H::spec_from_bytes(bs[i])) is Some
}

/// Is a decoded state fit to become an index: at least one table,
/// scalars within machine range, and sound tables?
pub open spec fn state_ok(st: crate::codec::LoadedState) -> bool {
    &&& 1 <= st.l <= usize::MAX
    &&& st.k <= usize::MAX / 2
    &&& st.d <= usize::MAX
    &&& st.counter <= u32::MAX
    &&& forall|t: int|
        0 <= t < st.tables.len() ==> keys_distinct(#[trigger] st.tables[t]) && buckets_distinct(
            st.tables[t],
        ) && ids_below(st.tables[t], st.counter as u32)
}

/// Law: persistence round-trips. The byte blob of an index decodes to
/// exactly the dumped state, that state passes every check `load`
/// makes, and — for a family whose own serialization round-trips —
/// each stored hasher byte string is accepted back as the hasher that
/// wrote it. With [`LSH::load`]'s contract this makes a load of a dump
/// succeed and reproduce the tables, store, counter, scalars and
/// hashers, and with them every subsequent query result.
pub proof fn lemma_dump_load_roundtrip<H: VecHash>(lsh: LSH<H>)
    requires
        lsh.wf(),
        lsh.ready(),
        crate::codec::state_bounded(dump_state(lsh, spec_hasher_bytes(lsh.hashers@))),
        forall|i: int|
            0 <= i < lsh.hashers@.len() ==> H::spec_from_bytes(
                (#[trigger] lsh.hashers@[i]).spec_bytes(),
            ) == Some(lsh.hashers@[i]),
    ensures
        ({
            let st = dump_state(lsh, spec_hasher_bytes(lsh.hashers@));
            let bytes = crate::codec::words_to_bytes_spec(crate::codec::enc_state(st));
            &&& crate::codec::bytes_to_words_spec(bytes) is Some
            &&& crate::codec::dec_state(crate::codec::bytes_to_words_spec(bytes).unwrap()) == Some(
                st,
            )
            &&& state_ok(st)
            &&& all_blobs_accepted::<H>(st.blobs)
            &&& forall|i: int|
                0 <= i < st.blobs.len() ==> H::spec_from_bytes(#[trigger] st.blobs[i]) == Some(
                    lsh.hashers@[i],
                )
        }),
{
    let st = dump_state(lsh, spec_hasher_bytes(lsh.hashers@));
    assert(crate::codec::state_counts_ok(st));
    crate::codec::lemma_state_bytes_roundtrip(st);
    let ht = lsh.hash_tables.unwrap();
    assert forall|t: int|
        0 <= t < st.tables.len() implies keys_distinct(#[trigger] st.tables[t])
        && buckets_distinct(st.tables[t]) && ids_below(st.tables[t], st.counter as u32) by {
        assert(st.tables[t] == ht.table_model(t));
        assert(ht.tables@[t].wf());
        assert(ids_below(ht.table_model(t), ht.counter));
    }
    assert forall|i: int|
        0 <= i < st.blobs.len() implies H::spec_from_bytes(#[trigger] st.blobs[i]) == Some(
        lsh.hashers@[i],
    ) by {
        assert(st.blobs[i] == lsh.hashers@[i].spec_bytes());
    }
}

/// Is `id` a member of the bucket filed under `key`? An absent key has
/// no members.
pub open spec fn member(m: TableModel, key: Seq<i8>, id: u32) -> bool {
    match crate::table::tbl_get(m, key) {
        Some(b) => b.contains(id),
        None => false,
    }
}

/// Pairwise distinct keys.
pub open spec fn keys_distinct(m: TableModel) -> bool {
    forall|i: int, j: int| 0 <= i < j < m.len() ==> (#[trigger] m[i]).0 != (#[trigger] m[j]).0
}

/// No bucket repeats an id.
pub open spec fn buckets_distinct(m: TableModel) -> bool {
    forall|i: int| 0 <= i < m.len() ==> (#[trigger] m[i]).1.no_duplicates()
}

/// Law: a stored vector is found again. After a vector enters the
/// index, every table's bucket at the vector's put-hash holds its id.
pub proof fn lemma_stored_vector_found<H: VecHash>(
    m: IndexModel,
    hashers: Seq<H>,
    v: Seq<u32>,
    only_index: bool,
    t: int,
)
    requires
        0 <= t < m.tables.len(),
        keys_distinct(m.tables[t]),
    ensures
        ({
            let m2 = insert_one(m, hashers, v, only_index);
            member(m2.tables[t], hashers[t].spec_hash_put(v), m.counter as u32)
        }),
{
    let key = hashers[t].spec_hash_put(v);
    let id = m.counter as u32;
    lemma_tbl_insert_member(m.tables[t], key, id);
    assert(insert_one(m, hashers, v, only_index).tables[t] == tbl_insert(m.tables[t], key, id));
}

/// Filing an id makes it a member of the key's bucket.
proof fn lemma_tbl_insert_member(m: TableModel, key: Seq<i8>, id: u32)
    requires
        keys_distinct(m),
    ensures
        member(tbl_insert(m, key, id), key, id),
{
    let m2 = tbl_insert(m, key, id);
    if crate::table::tbl_has_key(m, key) {
        let w = crate::table::tbl_index_of(m, key);
        assert(m2[w].0 == key);
        assert(crate::table::tbl_has_key(m2, key));
        let w2 = crate::table::tbl_index_of(m2, key);
        assert(m2[w2].0 == key);
        if w2 != w {
            assert(m2[w2] == m[w2]);
            assert(m[w2].0 == key && m[w].0 == key);
            assert(false);
        }
        let b = m[w].1;
        if b.contains(id) {
        } else {
            assert(crate::table::bucket_insert(b, id) == b.push(id));
            assert(b.push(id)[b.len() as int] == id);
        }
    } else {
        assert(m2[m.len() as int].0 == key);
        assert(crate::table::tbl_has_key(m2, key));
        let w2 = crate::table::tbl_index_of(m2, key);
        assert(m2[w2].0 == key);
        if w2 != m.len() as int {
            assert(m2[w2] == m[w2]);
            assert(crate::table::tbl_has_key(m, key));
            assert(false);
        }
        assert(m2[w2].1 == seq![id]);
        assert(seq![id][0] == id);
    }
}

/// Law: storing a fresh vector and deleting it restores every bucket
/// membership in every table, for a store that keeps vectors and a
/// family whose put- and query-hashes agree on the vector. The
/// vector's id stays allocated and the vector stays recorded. An
/// already-stored duplicate, or an index-only store, is excluded: the
/// delete path would find a different id, or none.
pub proof fn lemma_store_then_delete_restores<H: VecHash>(
    m: IndexModel,
    hashers: Seq<H>,
    v: Seq<u32>,
    t: int,
)
    requires
        0 <= t < m.tables.len(),
        keys_distinct(m.tables[t]),
        buckets_distinct(m.tables[t]),
        ids_below(m.tables[t], m.counter as u32),
        0 <= m.counter < u32::MAX,
        m.store.len() == m.counter,
        !store_contains(m.store, v),
        hashers[t].spec_hash_put(v) == hashers[t].spec_hash_query(v),
    ensures
        ({
            let m2 = delete_one(insert_one(m, hashers, v, false), hashers, v);
            &&& forall|key: Seq<i8>, id: u32|
                member(#[trigger] m2.tables[t], key, id) == member(m.tables[t], key, id)
            &&& m2.store == m.store.push(v)
            &&& m2.counter == m.counter + 1
        }),
{
    let key = hashers[t].spec_hash_put(v);
    let id = m.counter as u32;
    let m1 = insert_one(m, hashers, v, false);
    let m2 = delete_one(m1, hashers, v);
    let mt = m.tables[t];
    let m1t = m1.tables[t];
    assert(m1t == tbl_insert(mt, key, id));
    // The freshly pushed vector is the first occurrence, so the delete
    // path resolves it to the id just handed out.
    assert(m1.store == m.store.push(v));
    assert(m1.store[m.counter as int] == v);
    assert(store_contains(m1.store, v));
    let w = store_first_index(m1.store, v);
    assert forall|j: int| 0 <= j < m.counter implies m1.store[j] != v by {
        assert(m1.store[j] == m.store[j]);
        if m.store[j] == v {
            assert(store_contains(m.store, v));
        }
    }
    assert(0 <= w < m1.store.len() && m1.store[w] == v && (forall|j: int|
        0 <= j < w ==> m1.store[j] != v)) by {
        assert(m1.store[m.counter as int] == v && (forall|j: int|
            0 <= j < m.counter as int ==> m1.store[j] != v));
    }
    assert(w == m.counter as int);
    assert(m2.tables[t] == tbl_remove(m1t, key, id));
    lemma_tbl_insert_remove_membership(mt, key, id);
}

/// Filing a fresh id under a key and unfiling it changes no
/// membership.
proof fn lemma_tbl_insert_remove_membership(m: TableModel, key: Seq<i8>, id: u32)
    requires
        keys_distinct(m),
        buckets_distinct(m),
        ids_below(m, id),
    ensures
        forall|k2: Seq<i8>, id2: u32|
            member(#[trigger] tbl_remove(tbl_insert(m, key, id), key, id), k2, id2) == member(
                m,
                k2,
                id2,
            ),
{
    let m1 = tbl_insert(m, key, id);
    let m2 = tbl_remove(m1, key, id);
    if crate::table::tbl_has_key(m, key) {
        let w = crate::table::tbl_index_of(m, key);
        let b = m[w].1;
        assert forall|j: int| 0 <= j < b.len() implies b[j] != id by {
            assert(m[w].1[j] < id);
        }
        assert(!b.contains(id));
        assert(m1 == m.update(w, (key, b.push(id))));
        assert(crate::table::tbl_has_key(m1, key)) by {
            assert(m1[w].0 == key);
        }
        let w1 = crate::table::tbl_index_of(m1, key);
        assert(m1[w1].0 == key);
        if w1 != w {
            assert(m1[w1] == m[w1]);
            assert(m[w1].0 == key && m[w].0 == key);
            assert(false);
        }
        let bp = b.push(id);
        assert(bp.contains(id)) by {
            assert(bp[b.len() as int] == id);
        }
        let p = crate::table::bucket_pos(bp, id);
        assert(bp[p] == id);
        if p < b.len() {
            assert(bp[p] == b[p]);
            assert(false);
        }
        assert(p == b.len() as int);
        assert(crate::table::bucket_remove(bp, id) =~= b);
        assert(m2 =~= m1.update(w, (key, b)));
        assert(m2 =~= m);
    } else {
        assert(m1 == m.push((key, seq![id])));
        assert(crate::table::tbl_has_key(m1, key)) by {
            assert(m1[m.len() as int].0 == key);
        }
        let w1 = crate::table::tbl_index_of(m1, key);
        assert(m1[w1].0 == key);
        if w1 != m.len() as int {
            assert(m1[w1] == m[w1]);
            assert(crate::table::tbl_has_key(m, key));
            assert(false);
        }
        let bp = seq![id];
        assert(bp.contains(id)) by {
            assert(bp[0] == id);
        }
        let p = crate::table::bucket_pos(bp, id);
        assert(crate::table::bucket_remove(bp, id) =~= Seq::<u32>::empty());
        assert(m2 =~= m.push((key, Seq::<u32>::empty())));
        assert forall|k2: Seq<i8>, id2: u32| #[trigger]
            member(m2, k2, id2) == member(m, k2, id2) by {
            if k2 == key {
                // The emptied bucket stays, but holds nothing.
                let w2 = crate::table::tbl_index_of(m2, k2);
                assert(m2[m.len() as int].0 == k2);
                assert(crate::table::tbl_has_key(m2, k2));
                assert(m2[w2].0 == k2);
                if w2 != m.len() as int {
                    assert(m2[w2] == m[w2]);
                    assert(crate::table::tbl_has_key(m, key));
                    assert(false);
                }
                assert(!crate::table::tbl_has_key(m, k2));
            } else {
                if crate::table::tbl_has_key(m, k2) {
                    let u = crate::table::tbl_index_of(m, k2);
                    assert(m2[u].0 == k2);
                    assert(crate::table::tbl_has_key(m2, k2));
                    let u2 = crate::table::tbl_index_of(m2, k2);
                    assert(m2[u2].0 == k2);
                    if u2 != u {
                        if u2 == m.len() as int {
                            assert(m2[u2].0 == key);
                            assert(false);
                        }
                        assert(m2[u2] == m[u2]);
                        assert(m[u2].0 == k2 && m[u].0 == k2);
                        assert(false);
                    }
                } else {
                    if crate::table::tbl_has_key(m2, k2) {
                        let u2 = crate::table::tbl_index_of(m2, k2);
                        if u2 == m.len() as int {
                            assert(m2[u2].0 == key);
                            assert(false);
                        }
                        assert(m2[u2] == m[u2]);
                        assert(crate::table::tbl_has_key(m, k2));
                        assert(false);
                    }
                }
            }
        }
    }
}

/// Law: the index is deterministic. Two hasher sets that agree as
/// functions, fed the same batch from the same state, leave the same
/// state — so two indexes built with the same seed, family, and inputs
/// have equal bucket memberships.
pub proof fn lemma_insert_batch_deterministic<H: VecHash>(
    m: IndexModel,
    hashers1: Seq<H>,
    hashers2: Seq<H>,
    vs: Seq<Seq<u32>>,
    only_index: bool,
)
    requires
        hashers1.len() == hashers2.len(),
        m.tables.len() <= hashers1.len(),
        forall|t: int, v: Seq<u32>|
            0 <= t < hashers1.len() ==> #[trigger] hashers1[t].spec_hash_put(v)
                == hashers2[t].spec_hash_put(v),
    ensures
        insert_batch(m, hashers1, vs, only_index) == insert_batch(m, hashers2, vs, only_index),
    decreases vs.len(),
{
    if vs.len() == 0 {
    } else {
        let m1 = insert_one(m, hashers1, vs[0], only_index);
        let m2 = insert_one(m, hashers2, vs[0], only_index);
        assert(m1.tables =~= m2.tables);
        assert(m1 == m2);
        lemma_insert_batch_deterministic(m1, hashers1, hashers2, vs.drop_first(), only_index);
    }
}

/// Filing an id below a bound keeps every id below that bound.
proof fn lemma_tbl_insert_ids_below_c(m: TableModel, key: Seq<i8>, id: u32, c: u32)
    requires
        ids_below(m, c),
        id < c,
    ensures
        ids_below(tbl_insert(m, key, id), c),
{
    let m2 = tbl_insert(m, key, id);
    assert forall|i: int, j: int|
        0 <= i < m2.len() && 0 <= j < (#[trigger] m2[i]).1.len() implies #[trigger] m2[i].1[j]
        < c by {
        if crate::table::tbl_has_key(m, key) {
            let w = crate::table::tbl_index_of(m, key);
            if i == w {
                let b = m[w].1;
                if j < b.len() {
                    assert(m[i].1[j] < c);
                }
            } else {
                assert(m2[i] == m[i]);
                assert(m[i].1[j] < c);
            }
        } else {
            if i < m.len() {
                assert(m2[i] == m[i]);
                assert(m[i].1[j] < c);
            } else {
                assert(m2[i].1 == seq![id]);
            }
        }
    }
}

/// Adds two hash components, saturating at the component bounds.
pub open spec fn sat_add_i8(a: i8, b: i8) -> i8 {
    let s = a + b;
    if s < -128 {
        -128i8
    } else if s > 127 {
        127i8
    } else {
        s as i8
    }
}

/// A base hash shifted by a perturbation vector, component-wise and
/// saturating; components past the perturbation's length stay.
pub open spec fn apply_perturb(base: Seq<i8>, p: Seq<i8>) -> Seq<i8> {
    Seq::new(
        base.len(),
        |j: int|
            if j < p.len() {
                sat_add_i8(base[j], p[j])
            } else {
                base[j]
            },
    )
}

/// The bucket keys one table is asked for: the query hash itself and,
/// under multi-probing, the hash shifted by each perturbation the
/// budget buys.
pub open spec fn probe_keys<H: VecHash>(
    hasher: H,
    k_len: usize,
    budget: usize,
    enabled: bool,
    v: Seq<u32>,
) -> Seq<Seq<i8>> {
    let base = hasher.spec_hash_query(v);
    if enabled {
        seq![base] + crate::multi_probe::stepwise_probing_spec(k_len, budget).map_values(
            |p: Seq<i8>| apply_perturb(base, p),
        )
    } else {
        seq![base]
    }
}

/// Ids of `b` appended to `acc`, first appearance kept, duplicates
/// dropped.
pub open spec fn union_step(acc: Seq<u32>, b: Seq<u32>) -> Seq<u32>
    decreases b.len(),
{
    if b.len() == 0 {
        acc
    } else {
        union_step(
            if acc.contains(b[0]) {
                acc
            } else {
                acc.push(b[0])
            },
            b.drop_first(),
        )
    }
}

/// The union accumulated over one table's probe keys; a key the table
/// does not hold contributes nothing.
pub open spec fn union_over_keys(m: TableModel, keys: Seq<Seq<i8>>, acc: Seq<u32>) -> Seq<u32>
    decreases keys.len(),
{
    if keys.len() == 0 {
        acc
    } else {
        let acc2 = match crate::table::tbl_get(m, keys[0]) {
            Some(b) => union_step(acc, b),
            None => acc,
        };
        union_over_keys(m, keys.drop_first(), acc2)
    }
}

/// The union accumulated over tables `t..`, each asked for its probe
/// keys.
pub open spec fn union_from<H: VecHash>(
    m: IndexModel,
    hashers: Seq<H>,
    k_len: usize,
    budget: usize,
    enabled: bool,
    v: Seq<u32>,
    t: int,
    acc: Seq<u32>,
) -> Seq<u32>
    decreases m.tables.len() - t when t <= m.tables.len()
{
    if t >= m.tables.len() {
        acc
    } else {
        union_from(
            m,
            hashers,
            k_len,
            budget,
            enabled,
            v,
            t + 1,
            union_over_keys(m.tables[t], probe_keys(hashers[t], k_len, budget, enabled, v), acc),
        )
    }
}

/// Everything a query returns: the union of the buckets the query
/// hashes to, over all tables, in first-seen order.
pub open spec fn spec_query_ids<H: VecHash>(lsh: LSH<H>, v: Seq<u32>) -> Seq<u32> {
    union_from(
        lsh.model(),
        lsh.hashers@,
        lsh.n_projections,
        lsh.multi_probe_budget,
        lsh.multi_probe,
        v,
        0,
        Seq::empty(),
    )
}

/// Adds two hash components, saturating at the component bounds.
fn sat_add_i8_exec(a: i8, b: i8) -> (r: i8)
    ensures
        r == sat_add_i8(a, b),
{
    let s: i16 = (a as i16) + (b as i16);
    if s < -128 {
        -128
    } else if s > 127 {
        127
    } else {
        s as i8
    }
}

/// Computes [`apply_perturb`].
fn apply_perturb_exec(base: &crate::hash::Hash, p: &crate::hash::Hash) -> (r: crate::hash::Hash)
    ensures
        r@ == apply_perturb(base@, p@),
{
    let mut r: crate::hash::Hash = Vec::new();
    let mut j: usize = 0;
    while j < base.len()
        invariant
            j <= base@.len(),
            r@.len() == j,
            forall|i: int| 0 <= i < j ==> r@[i] == apply_perturb(base@, p@)[i],
        decreases base@.len() - j,
    {
        if j < p.len() {
            r.push(sat_add_i8_exec(base[j], p[j]));
        } else {
            r.push(base[j]);
        }
        j += 1;
    }
    proof {
        assert(r@ =~= apply_perturb(base@, p@));
    }
    r
}

/// Appends `b`'s ids to `acc`, skipping those already present.
fn union_into(acc: &mut Vec<u32>, b: &crate::table::Bucket)
    ensures
        final(acc)@ == union_step(old(acc)@, b@),
{
    let ghost acc0 = acc@;
    proof {
        assert(b@.skip(0) =~= b@);
    }
    let mut i: usize = 0;
    while i < b.len()
        invariant
            i <= b@.len(),
            union_step(acc@, b@.skip(i as int)) == union_step(acc0, b@),
        decreases b@.len() - i,
    {
        let ghost pre = acc@;
        let id = b[i];
        if !crate::table::bucket_contains(acc, id) {
            acc.push(id);
        }
        proof {
            assert(b@.skip(i as int).drop_first() =~= b@.skip(i + 1));
            assert(b@.skip(i as int)[0] == b@[i as int]);
            assert(union_step(pre, b@.skip(i as int)) == union_step(acc@, b@.skip(i + 1)));
        }
        i += 1;
    }
    proof {
        assert(b@.skip(b@.len() as int) =~= Seq::<u32>::empty());
    }
}

/// Rebuilds a hasher per stored byte string; bytes no hasher accepts
/// are a format error.
fn hashers_from_blobs<H: VecHash>(stored: &Vec<Vec<u8>>) -> (r: Result<Vec<H>, LshError>)
    ensures
        match r {
            Ok(hs) => {
                &&& hs@.len() == stored@.len()
                &&& forall|i: int|
                    0 <= i < hs@.len() ==> Some(hs@[i]) == H::spec_from_bytes(
                        (#[trigger] stored@[i])@,
                    )
            },
            Err(e) => e == LshError::SerdeFormat && exists|i: int|
                0 <= i < stored@.len() && H::spec_from_bytes((#[trigger] stored@[i])@) is None,
        },
{
    let mut loaded: Vec<H> = Vec::new();
    let mut t: usize = 0;
    while t < stored.len()
        invariant
            t <= stored@.len(),
            loaded@.len() == t,
            forall|i: int|
                0 <= i < t ==> Some(loaded@[i]) == H::spec_from_bytes((#[trigger] stored@[i])@),
        decreases stored@.len() - t,
    {
        match H::from_bytes(&stored[t]) {
            Some(h) => loaded.push(h),
            None => {
                return Err(LshError::SerdeFormat);
            },
        }
        t += 1;
    }
    Ok(loaded)
}

/// Filing an id bounded by `bound` keeps every id below `bound + 1`.
proof fn lemma_tbl_insert_ids_below(m: TableModel, key: Seq<i8>, id: u32)
    requires
        ids_below(m, id),
        id < u32::MAX,
    ensures
        ids_below(tbl_insert(m, key, id), (id + 1) as u32),
{
    let m2 = tbl_insert(m, key, id);
    assert forall|i: int, j: int|
        0 <= i < m2.len() && 0 <= j < (#[trigger] m2[i]).1.len() implies #[trigger] m2[i].1[j] < id
        + 1 by {
        if crate::table::tbl_has_key(m, key) {
            let w = crate::table::tbl_index_of(m, key);
            if i == w {
                let b = m[w].1;
                if j < b.len() {
                    assert(m[i].1[j] < id);
                }
            } else {
                assert(m2[i] == m[i]);
            }
        } else {
            if i < m.len() {
                assert(m2[i] == m[i]);
            } else {
                assert(m2[i].1 == seq![id]);
            }
        }
    }
}

/// A bound on bucket ids only loosens.
proof fn lemma_ids_below_grow(m: TableModel, a: u32, b: u32)
    requires
        ids_below(m, a),
        a <= b,
    ensures
        ids_below(m, b),
{
}

} // verus!
