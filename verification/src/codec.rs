//! The persistence codec.
//!
//! An index state is flattened into a sequence of 64-bit words — every
//! count, id, hash component and hasher byte becomes one word — and
//! the words are laid out as little-endian bytes. Encoders and
//! decoders are mirrored specification functions, with one round-trip
//! law: decoding an encoding yields the value back, whatever follows
//! it in the buffer.

use vstd::prelude::*;

verus! {

/// A sequence of ids as words: the count, then one word per id.
pub open spec fn enc_u32s(b: Seq<u32>) -> Seq<u64> {
    seq![b.len() as u64] + b.map_values(|x: u32| x as u64)
}

/// A hash key as words: the count, then one word per component's bit
/// pattern.
pub open spec fn enc_key(k: Seq<i8>) -> Seq<u64> {
    seq![k.len() as u64] + k.map_values(|c: i8| (c as u8) as u64)
}

/// A byte string as words: the count, then one word per byte.
pub open spec fn enc_bytes(b: Seq<u8>) -> Seq<u64> {
    seq![b.len() as u64] + b.map_values(|x: u8| x as u64)
}

/// The words of one word-sequence read back off the front of `s`.
pub open spec fn dec_u32s(s: Seq<u64>) -> Option<(Seq<u32>, Seq<u64>)> {
    if s.len() == 0 {
        None
    } else {
        let n = s[0] as int;
        let rest = s.drop_first();
        if rest.len() < n {
            None
        } else if exists|i: int| 0 <= i < n && #[trigger] rest[i] > u32::MAX {
            None
        } else {
            Some((rest.take(n).map_values(|w: u64| w as u32), rest.skip(n)))
        }
    }
}

/// The key read back off the front of `s`.
pub open spec fn dec_key(s: Seq<u64>) -> Option<(Seq<i8>, Seq<u64>)> {
    if s.len() == 0 {
        None
    } else {
        let n = s[0] as int;
        let rest = s.drop_first();
        if rest.len() < n {
            None
        } else if exists|i: int| 0 <= i < n && #[trigger] rest[i] > u8::MAX {
            None
        } else {
            Some((rest.take(n).map_values(|w: u64| (w as u8) as i8), rest.skip(n)))
        }
    }
}

/// The byte string read back off the front of `s`.
pub open spec fn dec_bytes(s: Seq<u64>) -> Option<(Seq<u8>, Seq<u64>)> {
    if s.len() == 0 {
        None
    } else {
        let n = s[0] as int;
        let rest = s.drop_first();
        if rest.len() < n {
            None
        } else if exists|i: int| 0 <= i < n && #[trigger] rest[i] > u8::MAX {
            None
        } else {
            Some((rest.take(n).map_values(|w: u64| w as u8), rest.skip(n)))
        }
    }
}

/// Reading an encoded id sequence gives it back and leaves the rest.
pub proof fn lemma_dec_enc_u32s(b: Seq<u32>, rest: Seq<u64>)
    requires
        b.len() <= u64::MAX,
    ensures
        dec_u32s(enc_u32s(b) + rest) == Some((b, rest)),
{
    let s = enc_u32s(b) + rest;
    let body = b.map_values(|x: u32| x as u64);
    assert(s[0] == b.len() as u64);
    assert(s.drop_first() =~= body + rest);
    let r2 = s.drop_first();
    let n = b.len() as int;
    assert forall|i: int| 0 <= i < n implies #[trigger] r2[i] <= u32::MAX by {
        assert(r2[i] == body[i]);
        assert(body[i] == b[i] as u64);
    }
    assert(r2.take(n) =~= body);
    assert(r2.take(n).map_values(|w: u64| w as u32) =~= b);
    assert(r2.skip(n) =~= rest);
}

/// Reading an encoded key gives it back and leaves the rest.
pub proof fn lemma_dec_enc_key(k: Seq<i8>, rest: Seq<u64>)
    requires
        k.len() <= u64::MAX,
    ensures
        dec_key(enc_key(k) + rest) == Some((k, rest)),
{
    let s = enc_key(k) + rest;
    let body = k.map_values(|c: i8| (c as u8) as u64);
    assert(s[0] == k.len() as u64);
    assert(s.drop_first() =~= body + rest);
    let r2 = s.drop_first();
    let n = k.len() as int;
    assert forall|i: int| 0 <= i < n implies #[trigger] r2[i] <= u8::MAX by {
        assert(r2[i] == body[i]);
        assert(body[i] == (k[i] as u8) as u64);
    }
    assert(r2.take(n) =~= body);
    let back = r2.take(n).map_values(|w: u64| (w as u8) as i8);
    assert forall|i: int| 0 <= i < n implies #[trigger] back[i] == k[i] by {
        assert(r2.take(n)[i] == (k[i] as u8) as u64);
        let c = k[i];
        assert((((c as u8) as u64) as u8) as i8 == c) by (bit_vector);
    }
    assert(back =~= k);
    assert(r2.skip(n) =~= rest);
}

/// Reading an encoded byte string gives it back and leaves the rest.
pub proof fn lemma_dec_enc_bytes(b: Seq<u8>, rest: Seq<u64>)
    requires
        b.len() <= u64::MAX,
    ensures
        dec_bytes(enc_bytes(b) + rest) == Some((b, rest)),
{
    let s = enc_bytes(b) + rest;
    let body = b.map_values(|x: u8| x as u64);
    assert(s[0] == b.len() as u64);
    assert(s.drop_first() =~= body + rest);
    let r2 = s.drop_first();
    let n = b.len() as int;
    assert forall|i: int| 0 <= i < n implies #[trigger] r2[i] <= u8::MAX by {
        assert(r2[i] == body[i]);
        assert(body[i] == b[i] as u64);
    }
    assert(r2.take(n) =~= body);
    assert(r2.take(n).map_values(|w: u64| w as u8) =~= b);
    assert(r2.skip(n) =~= rest);
}

/// One `(key, bucket)` slot as words.
pub open spec fn enc_entry(e: (Seq<i8>, Seq<u32>)) -> Seq<u64> {
    enc_key(e.0) + enc_u32s(e.1)
}

/// The slots of one table, in order.
pub open spec fn enc_entries(m: Seq<(Seq<i8>, Seq<u32>)>) -> Seq<u64>
    decreases m.len(),
{
    if m.len() == 0 {
        Seq::empty()
    } else {
        enc_entry(m[0]) + enc_entries(m.drop_first())
    }
}

/// One table as words: the slot count, then the slots.
pub open spec fn enc_table(m: Seq<(Seq<i8>, Seq<u32>)>) -> Seq<u64> {
    seq![m.len() as u64] + enc_entries(m)
}

/// All tables as words: the table count, then the tables.
pub open spec fn enc_tables(ts: Seq<Seq<(Seq<i8>, Seq<u32>)>>) -> Seq<u64>
    decreases ts.len(),
{
    if ts.len() == 0 {
        Seq::empty()
    } else {
        enc_table(ts[0]) + enc_tables(ts.drop_first())
    }
}

/// The vector store as words.
pub open spec fn enc_store(vs: Seq<Seq<u32>>) -> Seq<u64>
    decreases vs.len(),
{
    if vs.len() == 0 {
        Seq::empty()
    } else {
        enc_u32s(vs[0]) + enc_store(vs.drop_first())
    }
}

/// The hasher byte strings as words.
pub open spec fn enc_blobs(bs: Seq<Seq<u8>>) -> Seq<u64>
    decreases bs.len(),
{
    if bs.len() == 0 {
        Seq::empty()
    } else {
        enc_bytes(bs[0]) + enc_blobs(bs.drop_first())
    }
}

/// One slot read back off the front of `s`.
pub open spec fn dec_entry(s: Seq<u64>) -> Option<((Seq<i8>, Seq<u32>), Seq<u64>)> {
    match dec_key(s) {
        None => None,
        Some((k, r)) => match dec_u32s(r) {
            None => None,
            Some((b, r2)) => Some(((k, b), r2)),
        },
    }
}

/// `n` slots read back off the front of `s`.
pub open spec fn dec_entries(s: Seq<u64>, n: nat) -> Option<
    (Seq<(Seq<i8>, Seq<u32>)>, Seq<u64>),
>
    decreases n,
{
    if n == 0 {
        Some((Seq::empty(), s))
    } else {
        match dec_entry(s) {
            None => None,
            Some((e, r)) => match dec_entries(r, (n - 1) as nat) {
                None => None,
                Some((es, r2)) => Some((seq![e] + es, r2)),
            },
        }
    }
}

/// One table read back off the front of `s`.
pub open spec fn dec_table(s: Seq<u64>) -> Option<(Seq<(Seq<i8>, Seq<u32>)>, Seq<u64>)> {
    if s.len() == 0 {
        None
    } else {
        dec_entries(s.drop_first(), s[0] as nat)
    }
}

/// `n` tables read back off the front of `s`.
pub open spec fn dec_tables(s: Seq<u64>, n: nat) -> Option<
    (Seq<Seq<(Seq<i8>, Seq<u32>)>>, Seq<u64>),
>
    decreases n,
{
    if n == 0 {
        Some((Seq::empty(), s))
    } else {
        match dec_table(s) {
            None => None,
            Some((t, r)) => match dec_tables(r, (n - 1) as nat) {
                None => None,
                Some((ts, r2)) => Some((seq![t] + ts, r2)),
            },
        }
    }
}

/// `n` stored vectors read back off the front of `s`.
pub open spec fn dec_store(s: Seq<u64>, n: nat) -> Option<(Seq<Seq<u32>>, Seq<u64>)>
    decreases n,
{
    if n == 0 {
        Some((Seq::empty(), s))
    } else {
        match dec_u32s(s) {
            None => None,
            Some((v, r)) => match dec_store(r, (n - 1) as nat) {
                None => None,
                Some((vs, r2)) => Some((seq![v] + vs, r2)),
            },
        }
    }
}

/// `n` hasher byte strings read back off the front of `s`.
pub open spec fn dec_blobs(s: Seq<u64>, n: nat) -> Option<(Seq<Seq<u8>>, Seq<u64>)>
    decreases n,
{
    if n == 0 {
        Some((Seq::empty(), s))
    } else {
        match dec_bytes(s) {
            None => None,
            Some((b, r)) => match dec_blobs(r, (n - 1) as nat) {
                None => None,
                Some((bs, r2)) => Some((seq![b] + bs, r2)),
            },
        }
    }
}

/// Every key and bucket of the table is of machine length.
pub open spec fn table_bounded(m: Seq<(Seq<i8>, Seq<u32>)>) -> bool {
    forall|i: int|
        0 <= i < m.len() ==> (#[trigger] m[i]).0.len() <= u64::MAX && m[i].1.len() <= u64::MAX
}

/// Reading an encoded slot gives it back.
pub proof fn lemma_dec_enc_entry(e: (Seq<i8>, Seq<u32>), rest: Seq<u64>)
    requires
        e.0.len() <= u64::MAX,
        e.1.len() <= u64::MAX,
    ensures
        dec_entry(enc_entry(e) + rest) == Some((e, rest)),
{
    assert(enc_entry(e) + rest =~= enc_key(e.0) + (enc_u32s(e.1) + rest));
    lemma_dec_enc_key(e.0, enc_u32s(e.1) + rest);
    lemma_dec_enc_u32s(e.1, rest);
}

/// Reading encoded slots gives them back.
pub proof fn lemma_dec_enc_entries(m: Seq<(Seq<i8>, Seq<u32>)>, rest: Seq<u64>)
    requires
        table_bounded(m),
    ensures
        dec_entries(enc_entries(m) + rest, m.len()) == Some((m, rest)),
    decreases m.len(),
{
    if m.len() == 0 {
        assert(enc_entries(m) + rest =~= rest);
    } else {
        assert(enc_entries(m) + rest =~= enc_entry(m[0]) + (enc_entries(m.drop_first()) + rest));
        lemma_dec_enc_entry(m[0], enc_entries(m.drop_first()) + rest);
        assert(table_bounded(m.drop_first())) by {
            assert forall|i: int|
                0 <= i < m.drop_first().len() implies (#[trigger] m.drop_first()[i]).0.len()
                <= u64::MAX && m.drop_first()[i].1.len() <= u64::MAX by {
                assert(m.drop_first()[i] == m[i + 1]);
            }
        }
        lemma_dec_enc_entries(m.drop_first(), rest);
        assert(seq![m[0]] + m.drop_first() =~= m);
    }
}

/// Reading an encoded table gives it back.
pub proof fn lemma_dec_enc_table(m: Seq<(Seq<i8>, Seq<u32>)>, rest: Seq<u64>)
    requires
        table_bounded(m),
        m.len() <= u64::MAX,
    ensures
        dec_table(enc_table(m) + rest) == Some((m, rest)),
{
    let s = enc_table(m) + rest;
    assert(s[0] == m.len() as u64);
    assert(s.drop_first() =~= enc_entries(m) + rest);
    lemma_dec_enc_entries(m, rest);
}

/// Reading encoded tables gives them back.
pub proof fn lemma_dec_enc_tables(ts: Seq<Seq<(Seq<i8>, Seq<u32>)>>, rest: Seq<u64>)
    requires
        forall|t: int| 0 <= t < ts.len() ==> table_bounded(#[trigger] ts[t]) && ts[t].len() <= u64::MAX,
    ensures
        dec_tables(enc_tables(ts) + rest, ts.len()) == Some((ts, rest)),
    decreases ts.len(),
{
    if ts.len() == 0 {
        assert(enc_tables(ts) + rest =~= rest);
    } else {
        assert(enc_tables(ts) + rest =~= enc_table(ts[0]) + (enc_tables(ts.drop_first()) + rest));
        lemma_dec_enc_table(ts[0], enc_tables(ts.drop_first()) + rest);
        assert forall|t: int|
            0 <= t < ts.drop_first().len() implies table_bounded(#[trigger] ts.drop_first()[t])
            && ts.drop_first()[t].len() <= u64::MAX by {
            assert(ts.drop_first()[t] == ts[t + 1]);
        }
        lemma_dec_enc_tables(ts.drop_first(), rest);
        assert(seq![ts[0]] + ts.drop_first() =~= ts);
    }
}

/// Reading an encoded store gives it back.
pub proof fn lemma_dec_enc_store(vs: Seq<Seq<u32>>, rest: Seq<u64>)
    requires
        forall|i: int| 0 <= i < vs.len() ==> (#[trigger] vs[i]).len() <= u64::MAX,
    ensures
        dec_store(enc_store(vs) + rest, vs.len()) == Some((vs, rest)),
    decreases vs.len(),
{
    if vs.len() == 0 {
        assert(enc_store(vs) + rest =~= rest);
    } else {
        assert(enc_store(vs) + rest =~= enc_u32s(vs[0]) + (enc_store(vs.drop_first()) + rest));
        lemma_dec_enc_u32s(vs[0], enc_store(vs.drop_first()) + rest);
        assert forall|i: int|
            0 <= i < vs.drop_first().len() implies (#[trigger] vs.drop_first()[i]).len()
            <= u64::MAX by {
            assert(vs.drop_first()[i] == vs[i + 1]);
        }
        lemma_dec_enc_store(vs.drop_first(), rest);
        assert(seq![vs[0]] + vs.drop_first() =~= vs);
    }
}

/// Reading encoded hasher byte strings gives them back.
pub proof fn lemma_dec_enc_blobs(bs: Seq<Seq<u8>>, rest: Seq<u64>)
    requires
        forall|i: int| 0 <= i < bs.len() ==> (#[trigger] bs[i]).len() <= u64::MAX,
    ensures
        dec_blobs(enc_blobs(bs) + rest, bs.len()) == Some((bs, rest)),
    decreases bs.len(),
{
    if bs.len() == 0 {
        assert(enc_blobs(bs) + rest =~= rest);
    } else {
        assert(enc_blobs(bs) + rest =~= enc_bytes(bs[0]) + (enc_blobs(bs.drop_first()) + rest));
        lemma_dec_enc_bytes(bs[0], enc_blobs(bs.drop_first()) + rest);
        assert forall|i: int|
            0 <= i < bs.drop_first().len() implies (#[trigger] bs.drop_first()[i]).len()
            <= u64::MAX by {
            assert(bs.drop_first()[i] == bs[i + 1]);
        }
        lemma_dec_enc_blobs(bs.drop_first(), rest);
        assert(seq![bs[0]] + bs.drop_first() =~= bs);
    }
}

/// The little-endian base-256 digits of `x`, `n` of them.
pub open spec fn le_digits(x: nat, n: nat) -> Seq<u8>
    decreases n,
{
    if n == 0 {
        Seq::empty()
    } else {
        seq![(x % 256) as u8] + le_digits(x / 256, (n - 1) as nat)
    }
}

/// The number the digits spell.
pub open spec fn digits_value(s: Seq<u8>) -> nat
    decreases s.len(),
{
    if s.len() == 0 {
        0
    } else {
        (s[0] + 256 * digits_value(s.drop_first())) as nat
    }
}

/// 256 to the `n`.
pub open spec fn p256(n: nat) -> nat
    decreases n,
{
    if n == 0 {
        1
    } else {
        256 * p256((n - 1) as nat)
    }
}

/// Digits spell back the number they came from.
pub proof fn lemma_digits_roundtrip(x: nat, n: nat)
    requires
        x < p256(n),
    ensures
        digits_value(le_digits(x, n)) == x,
    decreases n,
{
    if n == 0 {
    } else {
        let d = le_digits(x, n);
        assert(d.drop_first() =~= le_digits(x / 256, (n - 1) as nat));
        assert(x / 256 < p256((n - 1) as nat)) by {
            let p = p256((n - 1) as nat);
            vstd::arithmetic::div_mod::lemma_fundamental_div_mod(x as int, 256);
            vstd::arithmetic::div_mod::lemma_mod_bound(x as int, 256);
            if x / 256 >= p {
                assert(x as int == 256 * ((x as int) / 256) + (x as int) % 256);
                assert((x as int) / 256 >= p);
                assert(256 * ((x as int) / 256) >= 256 * p) by (nonlinear_arith)
                    requires
                        (x as int) / 256 >= p,
                        p >= 0,
                ;
            }
        };
        lemma_digits_roundtrip(x / 256, (n - 1) as nat);
        assert(x % 256 + 256 * (x / 256) == x) by {
            vstd::arithmetic::div_mod::lemma_fundamental_div_mod(x as int, 256);
        };
    }
}

/// A digit string has as many digits as asked for.
pub proof fn lemma_le_digits_len(x: nat, n: nat)
    ensures
        le_digits(x, n).len() == n,
    decreases n,
{
    if n > 0 {
        lemma_le_digits_len(x / 256, (n - 1) as nat);
    }
}

/// Eight base-256 digits cover every machine word.
pub proof fn lemma_p256_8()
    ensures
        p256(8) == 0x1_0000_0000_0000_0000,
{
    reveal_with_fuel(p256, 9);
}

/// Digit strings spell numbers below their power.
pub proof fn lemma_digits_value_bound(s: Seq<u8>)
    ensures
        digits_value(s) < p256(s.len()),
    decreases s.len(),
{
    if s.len() == 0 {
    } else {
        lemma_digits_value_bound(s.drop_first());
    }
}

/// The words of a buffer laid out as little-endian bytes.
pub open spec fn words_to_bytes_spec(ws: Seq<u64>) -> Seq<u8>
    decreases ws.len(),
{
    if ws.len() == 0 {
        Seq::empty()
    } else {
        le_digits(ws[0] as nat, 8) + words_to_bytes_spec(ws.drop_first())
    }
}

/// The words a byte buffer spells, or nothing when it is ragged.
pub open spec fn bytes_to_words_spec(bs: Seq<u8>) -> Option<Seq<u64>> {
    if bs.len() % 8 != 0 {
        None
    } else {
        Some(
            Seq::new(
                (bs.len() / 8) as nat,
                |i: int| digits_value(bs.subrange(8 * i, 8 * i + 8)) as u64,
            ),
        )
    }
}

/// Bytes spell back the words they came from.
pub proof fn lemma_words_bytes_roundtrip(ws: Seq<u64>)
    ensures
        words_to_bytes_spec(ws).len() == 8 * ws.len(),
        bytes_to_words_spec(words_to_bytes_spec(ws)) == Some(ws),
    decreases ws.len(),
{
    let bs = words_to_bytes_spec(ws);
    lemma_words_bytes_len(ws);
    assert(bs.len() % 8 == 0);
    let r = bytes_to_words_spec(bs).unwrap();
    assert forall|i: int| 0 <= i < ws.len() implies r[i] == ws[i] by {
        lemma_words_bytes_chunk(ws, i);
        lemma_p256_8();
        lemma_digits_roundtrip(ws[i] as nat, 8);
    }
    assert(r =~= ws);
}

/// The byte layout is eight bytes per word.
pub proof fn lemma_words_bytes_len(ws: Seq<u64>)
    ensures
        words_to_bytes_spec(ws).len() == 8 * ws.len(),
    decreases ws.len(),
{
    if ws.len() == 0 {
    } else {
        lemma_words_bytes_len(ws.drop_first());
        lemma_le_digits_len(ws[0] as nat, 8);
    }
}

/// Word `i`'s bytes sit at offset `8 i`.
pub proof fn lemma_words_bytes_chunk(ws: Seq<u64>, i: int)
    requires
        0 <= i < ws.len(),
    ensures
        words_to_bytes_spec(ws).subrange(8 * i, 8 * i + 8) == le_digits(ws[i] as nat, 8),
    decreases ws.len(),
{
    lemma_words_bytes_len(ws);
    lemma_le_digits_len(ws[0] as nat, 8);
    if i == 0 {
        assert(words_to_bytes_spec(ws).subrange(0, 8) =~= le_digits(ws[0] as nat, 8));
    } else {
        lemma_words_bytes_chunk(ws.drop_first(), i - 1);
        assert(words_to_bytes_spec(ws).subrange(8 * i, 8 * i + 8) =~= words_to_bytes_spec(
            ws.drop_first(),
        ).subrange(8 * (i - 1), 8 * (i - 1) + 8));
        assert(ws.drop_first()[i - 1] == ws[i]);
    }
}

/// Everything the persistence blob carries: the build parameters and
/// the backend state, with one serialized byte string per hasher.
#[verifier::ext_equal]
pub ghost struct LoadedState {
    /// The number of hash tables, `L`.
    pub l: u64,
    /// The hash length, `K`.
    pub k: u64,
    /// The vector dimension, `D`.
    pub d: u64,
    /// The master seed.
    pub seed: u64,
    /// The next id.
    pub counter: u64,
    /// Whether the store keeps ids only.
    pub only_index: bool,
    /// The `(key, bucket)` pairs of each table.
    pub tables: Seq<Seq<(Seq<i8>, Seq<u32>)>>,
    /// The stored vectors, id order.
    pub store: Seq<Seq<u32>>,
    /// One byte string per hasher.
    pub blobs: Seq<Seq<u8>>,
}

/// The counts of a state agree with its scalars.
pub open spec fn state_counts_ok(st: LoadedState) -> bool {
    &&& st.tables.len() == st.l
    &&& st.blobs.len() == st.l
    &&& st.store.len() == (if st.only_index {
        0int
    } else {
        st.counter as int
    })
}

/// Every sequence a state holds is of machine length.
pub open spec fn state_bounded(st: LoadedState) -> bool {
    &&& forall|t: int|
        0 <= t < st.tables.len() ==> table_bounded(#[trigger] st.tables[t]) && st.tables[t].len()
            <= u64::MAX
    &&& forall|i: int| 0 <= i < st.store.len() ==> (#[trigger] st.store[i]).len() <= u64::MAX
    &&& forall|i: int| 0 <= i < st.blobs.len() ==> (#[trigger] st.blobs[i]).len() <= u64::MAX
}

/// A whole state as words: six scalars, the tables, the store, the
/// hasher byte strings.
pub open spec fn enc_state(st: LoadedState) -> Seq<u64> {
    seq![
        st.l,
        st.k,
        st.d,
        st.seed,
        st.counter,
        if st.only_index {
            1u64
        } else {
            0u64
        },
    ] + enc_tables(st.tables) + enc_store(st.store) + enc_blobs(st.blobs)
}

/// The state read back from a word buffer, if it parses exactly.
pub open spec fn dec_state(ws: Seq<u64>) -> Option<LoadedState> {
    if ws.len() < 6 {
        None
    } else {
        let l = ws[0];
        let oiw = ws[5];
        if oiw > 1 {
            None
        } else {
            match dec_tables(ws.skip(6), l as nat) {
                None => None,
                Some((tables, r2)) => match dec_store(
                    r2,
                    if oiw == 1 {
                        0nat
                    } else {
                        ws[4] as nat
                    },
                ) {
                    None => None,
                    Some((store, r3)) => match dec_blobs(r3, l as nat) {
                        None => None,
                        Some((blobs, r4)) => if r4.len() != 0 {
                            None
                        } else {
                            Some(
                                LoadedState {
                                    l,
                                    k: ws[1],
                                    d: ws[2],
                                    seed: ws[3],
                                    counter: ws[4],
                                    only_index: oiw == 1,
                                    tables,
                                    store,
                                    blobs,
                                },
                            )
                        },
                    },
                },
            }
        }
    }
}

/// Law: the codec round-trips. Reading back the encoding of any
/// consistent state yields that state.
pub proof fn lemma_dec_enc_state(st: LoadedState)
    requires
        state_counts_ok(st),
        state_bounded(st),
    ensures
        dec_state(enc_state(st)) == Some(st),
{
    let ws = enc_state(st);
    let a = enc_tables(st.tables);
    let b = enc_store(st.store);
    let c = enc_blobs(st.blobs);
    assert(ws.skip(6) =~= a + (b + (c + Seq::<u64>::empty())));
    lemma_dec_enc_tables(st.tables, b + (c + Seq::<u64>::empty()));
    lemma_dec_enc_store(st.store, c + Seq::<u64>::empty());
    lemma_dec_enc_blobs(st.blobs, Seq::<u64>::empty());
    assert(ws[0] == st.l && ws[1] == st.k && ws[2] == st.d && ws[3] == st.seed && ws[4]
        == st.counter);
    assert(ws[5] == if st.only_index {
        1u64
    } else {
        0u64
    });
}

/// Law: the byte layout round-trips too: the bytes of an encoded
/// state decode to that state.
pub proof fn lemma_state_bytes_roundtrip(st: LoadedState)
    requires
        state_counts_ok(st),
        state_bounded(st),
    ensures
        ({
            let bytes = words_to_bytes_spec(enc_state(st));
            bytes_to_words_spec(bytes) is Some && dec_state(bytes_to_words_spec(bytes).unwrap())
                == Some(st)
        }),
{
    lemma_words_bytes_roundtrip(enc_state(st));
    lemma_dec_enc_state(st);
}

/// Appends one word as eight little-endian bytes.
pub fn push_le_digits(out: &mut Vec<u8>, x: u64)
    ensures
        final(out)@ == old(out)@ + le_digits(x as nat, 8),
{
    let ghost orig = out@;
    let mut xc: u64 = x;
    let mut i: usize = 0;
    proof {
        assert(out@ + le_digits(x as nat, 8) =~= orig + le_digits(x as nat, 8));
    }
    while i < 8
        invariant
            i <= 8,
            out@.len() == orig.len() + i,
            out@.subrange(0, orig.len() as int) =~= orig,
            out@.subrange(orig.len() as int, out@.len() as int) + le_digits(
                xc as nat,
                (8 - i) as nat,
            ) =~= le_digits(x as nat, 8),
        decreases 8 - i,
    {
        let ghost t = out@.subrange(orig.len() as int, out@.len() as int);
        let d: u8 = (xc % 256) as u8;
        out.push(d);
        xc = xc / 256;
        proof {
            assert(le_digits((xc * 256 + d) as nat, (8 - i) as nat) == seq![d] + le_digits(
                xc as nat,
                (7 - i) as nat,
            )) by {
                let y = (xc * 256 + d) as nat;
                assert(y % 256 == d && y / 256 == xc as nat) by (nonlinear_arith)
                    requires
                        d < 256,
                        y == xc * 256 + d,
                        xc >= 0,
                ;
            }
            assert(out@.subrange(0, orig.len() as int) =~= orig);
            assert(out@.subrange(orig.len() as int, out@.len() as int) =~= t.push(d));
            assert(t.push(d) + le_digits(xc as nat, (7 - i) as nat) =~= t + (seq![d] + le_digits(
                xc as nat,
                (7 - i) as nat,
            )));
        }
        i += 1;
    }
    proof {
        lemma_le_digits_len(x as nat, 8);
        assert(le_digits(xc as nat, 0) =~= Seq::<u8>::empty());
        assert(out@.subrange(orig.len() as int, out@.len() as int) + Seq::<u8>::empty()
            =~= out@.subrange(orig.len() as int, out@.len() as int));
        assert(out@ =~= orig + out@.subrange(orig.len() as int, out@.len() as int));
    }
}

/// Reads eight little-endian bytes back as the number they spell.
pub fn read_le_digits(b: &Vec<u8>) -> (r: u64)
    requires
        b@.len() == 8,
    ensures
        r as nat == digits_value(b@),
{
    let mut w: u64 = 0;
    let mut j: usize = 8;
    proof {
        assert(b@.skip(8) =~= Seq::<u8>::empty());
    }
    while j > 0
        invariant
            j <= 8,
            b@.len() == 8,
            w as nat == digits_value(b@.skip(j as int)),
        decreases j,
    {
        j -= 1;
        proof {
            lemma_digits_value_bound(b@.skip(j + 1));
            assert(b@.skip(j + 1).len() == 7 - j);
            assert((w as nat) < p256((7 - j) as nat));
            assert(256 * p256((7 - j) as nat) == p256((8 - j) as nat));
            assert(w * 256 + 256 <= 256 * p256((7 - j) as nat)) by (nonlinear_arith)
                requires
                    (w as nat) < p256((7 - j) as nat),
            ;
            assert(p256((8 - j) as nat) <= p256(8)) by {
                lemma_p256_increases((8 - j) as nat, 8);
            }
            lemma_p256_8();
            assert(b@.skip(j as int).drop_first() =~= b@.skip(j + 1));
            assert(b@.skip(j as int)[0] == b@[j as int]);
        }
        w = w * 256 + (b[j] as u64);
    }
    proof {
        assert(b@.skip(0) =~= b@);
    }
    w
}

/// Lays a word buffer out as little-endian bytes.
fn words_to_bytes(ws: &Vec<u64>) -> (r: Vec<u8>)
    ensures
        r@ == words_to_bytes_spec(ws@),
{
    let mut out: Vec<u8> = Vec::new();
    let mut i: usize = 0;
    proof {
        assert(ws@.skip(0) =~= ws@);
    }
    while i < ws.len()
        invariant
            i <= ws@.len(),
            out@ + words_to_bytes_spec(ws@.skip(i as int)) == words_to_bytes_spec(ws@),
        decreases ws@.len() - i,
    {
        let ghost pre = out@;
        push_le_digits(&mut out, ws[i]);
        proof {
            let sk = ws@.skip(i as int);
            assert(sk.drop_first() =~= ws@.skip(i + 1));
            assert(sk[0] == ws@[i as int]);
            assert(words_to_bytes_spec(sk) == le_digits(ws@[i as int] as nat, 8)
                + words_to_bytes_spec(ws@.skip(i + 1)));
            assert(pre + (le_digits(ws@[i as int] as nat, 8) + words_to_bytes_spec(
                ws@.skip(i + 1),
            )) =~= out@ + words_to_bytes_spec(ws@.skip(i + 1)));
        }
        i += 1;
    }
    proof {
        assert(ws@.skip(ws@.len() as int) =~= Seq::<u64>::empty());
        assert(out@ + Seq::<u8>::empty() =~= out@);
    }
    out
}

/// Reads a byte buffer back as words; ragged buffers are refused.
fn bytes_to_words(bs: &Vec<u8>) -> (r: Option<Vec<u64>>)
    ensures
        match r {
            Some(ws) => bytes_to_words_spec(bs@) == Some(ws@),
            None => bytes_to_words_spec(bs@) is None,
        },
{
    if bs.len() % 8 != 0 {
        return None;
    }
    let n = bs.len() / 8;
    let mut out: Vec<u64> = Vec::new();
    let ghost total = bytes_to_words_spec(bs@).unwrap();
    let mut i: usize = 0;
    while i < n
        invariant
            i <= n,
            n == bs@.len() / 8,
            bs@.len() % 8 == 0,
            bs@.len() <= usize::MAX,
            total == bytes_to_words_spec(bs@).unwrap(),
            bytes_to_words_spec(bs@) is Some,
            total.len() == n,
            out@.len() == i,
            forall|s: int| 0 <= s < i ==> out@[s] == total[s],
        decreases n - i,
    {
        let ghost chunk = bs@.subrange(8 * i as int, 8 * i as int + 8);
        let mut w: u64 = 0;
        let mut j: usize = 8;
        proof {
            assert(chunk.skip(8) =~= Seq::<u8>::empty());
        }
        while j > 0
            invariant
                j <= 8,
                i < n,
                n == bs@.len() / 8,
                bs@.len() % 8 == 0,
                bs@.len() <= usize::MAX,
                chunk == bs@.subrange(8 * i as int, 8 * i as int + 8),
                w as nat == digits_value(chunk.skip(j as int)),
            decreases j,
        {
            j -= 1;
            proof {
                lemma_digits_value_bound(chunk.skip(j as int));
                lemma_le_digits_len(0, 0);
                assert(chunk.skip(j as int).len() == 8 - j);
                assert(p256((8 - j) as nat) <= p256(8)) by {
                    lemma_p256_increases((8 - j) as nat, 8);
                }
                lemma_p256_8();
                assert(chunk.skip(j as int).drop_first() =~= chunk.skip(j + 1));
                assert(chunk.skip(j as int)[0] == chunk[j as int]);
            }
            proof {
                vstd::arithmetic::div_mod::lemma_fundamental_div_mod(bs@.len() as int, 8);
                assert(8 * i + j < bs@.len());
            }
            let b: u8 = bs[8 * i + j];
            proof {
                assert(bs@[8 * i + j] == chunk[j as int]);
                lemma_digits_value_bound(chunk.skip(j + 1));
                assert(chunk.skip(j + 1).len() == 7 - j);
                assert((w as nat) < p256((7 - j) as nat));
                assert(256 * p256((7 - j) as nat) == p256((8 - j) as nat));
                assert(w * 256 + 256 <= 256 * p256((7 - j) as nat)) by (nonlinear_arith)
                    requires
                        (w as nat) < p256((7 - j) as nat),
                ;
                assert(w * 256 + b < p256((8 - j) as nat));
                // The accumulated value stays below the next power.
                assert(digits_value(chunk.skip(j as int)) < p256((8 - j) as nat));
            }
            w = w * 256 + (b as u64);
        }
        proof {
            assert(chunk.skip(0) =~= chunk);
            assert(total[i as int] == digits_value(chunk) as u64);
        }
        out.push(w);
        i += 1;
    }
    proof {
        assert(out@ =~= total);
    }
    Some(out)
}

/// Appends the count and words of an id sequence.
fn push_u32s(out: &mut Vec<u64>, b: &Vec<u32>)
    ensures
        final(out)@ == old(out)@ + enc_u32s(b@),
{
    let ghost orig = out@;
    out.push(b.len() as u64);
    let mut i: usize = 0;
    while i < b.len()
        invariant
            i <= b@.len(),
            out@ =~= orig + seq![b@.len() as u64] + b@.take(i as int).map_values(
                |x: u32| x as u64,
            ),
        decreases b@.len() - i,
    {
        out.push(b[i] as u64);
        proof {
            assert(b@.take(i + 1) =~= b@.take(i as int).push(b@[i as int]));
            assert(b@.take(i + 1).map_values(|x: u32| x as u64) =~= b@.take(i as int).map_values(
                |x: u32| x as u64,
            ).push(b@[i as int] as u64));
        }
        i += 1;
    }
    proof {
        assert(b@.take(b@.len() as int) =~= b@);
        assert(out@ =~= orig + enc_u32s(b@));
    }
}

/// Appends the count and words of a hash key.
fn push_hash_key(out: &mut Vec<u64>, k: &Vec<i8>)
    ensures
        final(out)@ == old(out)@ + enc_key(k@),
{
    let ghost orig = out@;
    out.push(k.len() as u64);
    let mut i: usize = 0;
    while i < k.len()
        invariant
            i <= k@.len(),
            out@ =~= orig + seq![k@.len() as u64] + k@.take(i as int).map_values(
                |c: i8| (c as u8) as u64,
            ),
        decreases k@.len() - i,
    {
        out.push((k[i] as u8) as u64);
        proof {
            assert(k@.take(i + 1) =~= k@.take(i as int).push(k@[i as int]));
            assert(k@.take(i + 1).map_values(|c: i8| (c as u8) as u64) =~= k@.take(
                i as int,
            ).map_values(|c: i8| (c as u8) as u64).push((k@[i as int] as u8) as u64));
        }
        i += 1;
    }
    proof {
        assert(k@.take(k@.len() as int) =~= k@);
        assert(out@ =~= orig + enc_key(k@));
    }
}

/// Appends the count and words of a byte string.
fn push_byte_words(out: &mut Vec<u64>, b: &Vec<u8>)
    ensures
        final(out)@ == old(out)@ + enc_bytes(b@),
{
    let ghost orig = out@;
    out.push(b.len() as u64);
    let mut i: usize = 0;
    while i < b.len()
        invariant
            i <= b@.len(),
            out@ =~= orig + seq![b@.len() as u64] + b@.take(i as int).map_values(|x: u8| x as u64),
        decreases b@.len() - i,
    {
        out.push(b[i] as u64);
        proof {
            assert(b@.take(i + 1) =~= b@.take(i as int).push(b@[i as int]));
            assert(b@.take(i + 1).map_values(|x: u8| x as u64) =~= b@.take(i as int).map_values(
                |x: u8| x as u64,
            ).push(b@[i as int] as u64));
        }
        i += 1;
    }
    proof {
        assert(b@.take(b@.len() as int) =~= b@);
        assert(out@ =~= orig + enc_bytes(b@));
    }
}

/// Appends one table: its slot count, then each slot.
fn push_table(out: &mut Vec<u64>, t: &crate::table::HashTable)
    ensures
        final(out)@ == old(out)@ + enc_table(t.model()),
{
    let ghost orig = out@;
    let ghost m = t.model();
    out.push(t.entries.len() as u64);
    let mut i: usize = 0;
    proof {
        assert(m.skip(0) =~= m);
    }
    while i < t.entries.len()
        invariant
            i <= t.entries@.len(),
            m == t.model(),
            m.len() == t.entries@.len(),
            out@ + enc_entries(m.skip(i as int)) =~= orig + seq![m.len() as u64] + enc_entries(m),
        decreases t.entries@.len() - i,
    {
        let ghost pre = out@;
        push_hash_key(out, &t.entries[i].key);
        push_u32s(out, &t.entries[i].bucket);
        proof {
            let sk = m.skip(i as int);
            assert(sk.drop_first() =~= m.skip(i + 1));
            assert(sk[0] == m[i as int]);
            assert(m[i as int].0 == t.entries@[i as int].key@);
            assert(m[i as int].1 == t.entries@[i as int].bucket@);
            assert(out@ =~= pre + enc_entry(m[i as int]));
            assert(pre + (enc_entry(m[i as int]) + enc_entries(m.skip(i + 1))) =~= out@
                + enc_entries(m.skip(i + 1)));
        }
        i += 1;
    }
    proof {
        assert(m.skip(m.len() as int) =~= Seq::<(Seq<i8>, Seq<u32>)>::empty());
        assert(out@ + Seq::<u64>::empty() =~= out@);
        assert(out@ =~= orig + enc_table(m));
    }
}

/// Appends every table.
fn push_tables(out: &mut Vec<u64>, ts: &Vec<crate::table::HashTable>)
    ensures
        final(out)@ == old(out)@ + enc_tables(
            ts@.map_values(|t: crate::table::HashTable| t.model()),
        ),
{
    let ghost orig = out@;
    let ghost ms = ts@.map_values(|t: crate::table::HashTable| t.model());
    let mut i: usize = 0;
    proof {
        assert(ms.skip(0) =~= ms);
    }
    while i < ts.len()
        invariant
            i <= ts@.len(),
            ms == ts@.map_values(|t: crate::table::HashTable| t.model()),
            ms.len() == ts@.len(),
            out@ + enc_tables(ms.skip(i as int)) =~= orig + enc_tables(ms),
        decreases ts@.len() - i,
    {
        let ghost pre = out@;
        push_table(out, &ts[i]);
        proof {
            let sk = ms.skip(i as int);
            assert(sk.drop_first() =~= ms.skip(i + 1));
            assert(sk[0] == ms[i as int]);
            assert(ms[i as int] == ts@[i as int].model());
            assert(pre + (enc_table(ms[i as int]) + enc_tables(ms.skip(i + 1))) =~= out@
                + enc_tables(ms.skip(i + 1)));
        }
        i += 1;
    }
    proof {
        assert(ms.skip(ms.len() as int) =~= Seq::<Seq<(Seq<i8>, Seq<u32>)>>::empty());
        assert(out@ + Seq::<u64>::empty() =~= out@);
    }
}

/// Appends the vector store.
fn push_store(out: &mut Vec<u64>, vs: &Vec<crate::hash::DataPoint>)
    ensures
        final(out)@ == old(out)@ + enc_store(vs@.map_values(|p: crate::hash::DataPoint| p@)),
{
    let ghost orig = out@;
    let ghost ms = vs@.map_values(|p: crate::hash::DataPoint| p@);
    let mut i: usize = 0;
    proof {
        assert(ms.skip(0) =~= ms);
    }
    while i < vs.len()
        invariant
            i <= vs@.len(),
            ms == vs@.map_values(|p: crate::hash::DataPoint| p@),
            ms.len() == vs@.len(),
            out@ + enc_store(ms.skip(i as int)) =~= orig + enc_store(ms),
        decreases vs@.len() - i,
    {
        let ghost pre = out@;
        push_u32s(out, &vs[i]);
        proof {
            let sk = ms.skip(i as int);
            assert(sk.drop_first() =~= ms.skip(i + 1));
            assert(sk[0] == ms[i as int]);
            assert(ms[i as int] == vs@[i as int]@);
            assert(pre + (enc_u32s(ms[i as int]) + enc_store(ms.skip(i + 1))) =~= out@
                + enc_store(ms.skip(i + 1)));
        }
        i += 1;
    }
    proof {
        assert(ms.skip(ms.len() as int) =~= Seq::<Seq<u32>>::empty());
        assert(out@ + Seq::<u64>::empty() =~= out@);
    }
}

/// Appends the hasher byte strings.
fn push_blobs(out: &mut Vec<u64>, bs: &Vec<Vec<u8>>)
    ensures
        final(out)@ == old(out)@ + enc_blobs(bs@.map_values(|b: Vec<u8>| b@)),
{
    let ghost orig = out@;
    let ghost ms = bs@.map_values(|b: Vec<u8>| b@);
    let mut i: usize = 0;
    proof {
        assert(ms.skip(0) =~= ms);
    }
    while i < bs.len()
        invariant
            i <= bs@.len(),
            ms == bs@.map_values(|b: Vec<u8>| b@),
            ms.len() == bs@.len(),
            out@ + enc_blobs(ms.skip(i as int)) =~= orig + enc_blobs(ms),
        decreases bs@.len() - i,
    {
        let ghost pre = out@;
        push_byte_words(out, &bs[i]);
        proof {
            let sk = ms.skip(i as int);
            assert(sk.drop_first() =~= ms.skip(i + 1));
            assert(sk[0] == ms[i as int]);
            assert(ms[i as int] == bs@[i as int]@);
            assert(pre + (enc_bytes(ms[i as int]) + enc_blobs(ms.skip(i + 1))) =~= out@
                + enc_blobs(ms.skip(i + 1)));
        }
        i += 1;
    }
    proof {
        assert(ms.skip(ms.len() as int) =~= Seq::<Seq<u8>>::empty());
        assert(out@ + Seq::<u64>::empty() =~= out@);
    }
}

/// The words of a whole index state.
pub fn state_words(
    l: u64,
    k: u64,
    d: u64,
    seed: u64,
    counter: u64,
    only_index: bool,
    tables: &Vec<crate::table::HashTable>,
    store: &Vec<crate::hash::DataPoint>,
    blobs: &Vec<Vec<u8>>,
) -> (r: Vec<u64>)
    ensures
        r@ == enc_state(
            LoadedState {
                l,
                k,
                d,
                seed,
                counter,
                only_index,
                tables: tables@.map_values(|t: crate::table::HashTable| t.model()),
                store: store@.map_values(|p: crate::hash::DataPoint| p@),
                blobs: blobs@.map_values(|b: Vec<u8>| b@),
            },
        ),
{
    let mut out: Vec<u64> = Vec::new();
    out.push(l);
    out.push(k);
    out.push(d);
    out.push(seed);
    out.push(counter);
    out.push(if only_index {
        1
    } else {
        0
    });
    let ghost header = out@;
    push_tables(&mut out, tables);
    push_store(&mut out, store);
    push_blobs(&mut out, blobs);
    proof {
        let st = LoadedState {
            l,
            k,
            d,
            seed,
            counter,
            only_index,
            tables: tables@.map_values(|t: crate::table::HashTable| t.model()),
            store: store@.map_values(|p: crate::hash::DataPoint| p@),
            blobs: blobs@.map_values(|b: Vec<u8>| b@),
        };
        assert(out@ =~= enc_state(st));
    }
    out
}

/// Serializes a whole index state as bytes.
pub fn state_bytes(
    l: u64,
    k: u64,
    d: u64,
    seed: u64,
    counter: u64,
    only_index: bool,
    tables: &Vec<crate::table::HashTable>,
    store: &Vec<crate::hash::DataPoint>,
    blobs: &Vec<Vec<u8>>,
) -> (r: Vec<u8>)
    ensures
        r@ == words_to_bytes_spec(
            enc_state(
                LoadedState {
                    l,
                    k,
                    d,
                    seed,
                    counter,
                    only_index,
                    tables: tables@.map_values(|t: crate::table::HashTable| t.model()),
                    store: store@.map_values(|p: crate::hash::DataPoint| p@),
                    blobs: blobs@.map_values(|b: Vec<u8>| b@),
                },
            ),
        ),
{
    let ws = state_words(l, k, d, seed, counter, only_index, tables, store, blobs);
    words_to_bytes(&ws)
}

/// Reads an id sequence at `pos`, returning it and the next position.
fn read_u32s(ws: &Vec<u64>, pos: usize) -> (r: Option<(Vec<u32>, usize)>)
    requires
        pos <= ws@.len(),
    ensures
        match r {
            Some(vp) => pos < vp.1 <= ws@.len() && dec_u32s(ws@.skip(pos as int)) == Some(
                (vp.0@, ws@.skip(vp.1 as int)),
            ),
            None => dec_u32s(ws@.skip(pos as int)) is None,
        },
{
    let ghost s = ws@.skip(pos as int);
    if pos >= ws.len() {
        proof {
            assert(s =~= Seq::<u64>::empty());
        }
        return None;
    }
    let n_word = ws[pos];
    proof {
        assert(s[0] == n_word);
        assert(s.drop_first() =~= ws@.skip(pos + 1));
    }
    let remaining = ws.len() - pos - 1;
    if n_word > remaining as u64 {
        proof {
            assert(s.drop_first().len() == remaining as int);
            assert(s.drop_first().len() < n_word as int);
        }
        return None;
    }
    let n = n_word as usize;
    let mut v: Vec<u32> = Vec::new();
    let mut j: usize = 0;
    while j < n
        invariant
            j <= n,
            pos < ws@.len(),
            pos + 1 + n <= ws@.len(),
            ws@.len() <= usize::MAX,
            n == n_word as int,
            s == ws@.skip(pos as int),
            s.len() > 0,
            s[0] == n_word,
            s.drop_first() == ws@.skip(pos + 1),
            v@.len() == j,
            forall|t: int| 0 <= t < j ==> #[trigger] v@[t] == ws@[pos + 1 + t] as u32,
            forall|t: int| 0 <= t < j ==> #[trigger] ws@[pos + 1 + t] <= u32::MAX,
        decreases n - j,
    {
        let w = ws[pos + 1 + j];
        if w > (u32::MAX as u64) {
            proof {
                let rest = ws@.skip(pos + 1);
                assert(rest[j as int] == w);
                assert(0 <= j < n_word as int && rest[j as int] > u32::MAX);
            }
            return None;
        }
        v.push(w as u32);
        j += 1;
    }
    let p2 = pos + 1 + n;
    proof {
        let rest = ws@.skip(pos + 1);
        assert forall|i: int| 0 <= i < n_word implies !(#[trigger] rest[i] > u32::MAX) by {
            assert(rest[i] == ws@[pos + 1 + i]);
        }
        let back = rest.take(n as int).map_values(|w: u64| w as u32);
        assert forall|i: int| 0 <= i < n implies #[trigger] back[i] == v@[i] by {
            assert(rest.take(n as int)[i] == ws@[pos + 1 + i]);
        }
        assert(v@ =~= back);
        assert(rest.skip(n as int) =~= ws@.skip(p2 as int));
    }
    Some((v, p2))
}

/// Reads a hash key at `pos`.
fn read_key(ws: &Vec<u64>, pos: usize) -> (r: Option<(Vec<i8>, usize)>)
    requires
        pos <= ws@.len(),
    ensures
        match r {
            Some(vp) => pos < vp.1 <= ws@.len() && dec_key(ws@.skip(pos as int)) == Some(
                (vp.0@, ws@.skip(vp.1 as int)),
            ),
            None => dec_key(ws@.skip(pos as int)) is None,
        },
{
    let ghost s = ws@.skip(pos as int);
    if pos >= ws.len() {
        proof {
            assert(s =~= Seq::<u64>::empty());
        }
        return None;
    }
    let n_word = ws[pos];
    proof {
        assert(s[0] == n_word);
        assert(s.drop_first() =~= ws@.skip(pos + 1));
    }
    let remaining = ws.len() - pos - 1;
    if n_word > remaining as u64 {
        proof {
            assert(s.drop_first().len() == remaining as int);
            assert(s.drop_first().len() < n_word as int);
        }
        return None;
    }
    let n = n_word as usize;
    let mut v: Vec<i8> = Vec::new();
    let mut j: usize = 0;
    while j < n
        invariant
            j <= n,
            pos < ws@.len(),
            pos + 1 + n <= ws@.len(),
            ws@.len() <= usize::MAX,
            n == n_word as int,
            s == ws@.skip(pos as int),
            s.len() > 0,
            s[0] == n_word,
            s.drop_first() == ws@.skip(pos + 1),
            v@.len() == j,
            forall|t: int| 0 <= t < j ==> #[trigger] v@[t] == (ws@[pos + 1 + t] as u8) as i8,
            forall|t: int| 0 <= t < j ==> #[trigger] ws@[pos + 1 + t] <= u8::MAX,
        decreases n - j,
    {
        let w = ws[pos + 1 + j];
        if w > (u8::MAX as u64) {
            proof {
                let rest = ws@.skip(pos + 1);
                assert(rest[j as int] == w);
                assert(0 <= j < n_word as int && rest[j as int] > u8::MAX);
            }
            return None;
        }
        v.push((w as u8) as i8);
        j += 1;
    }
    let p2 = pos + 1 + n;
    proof {
        let rest = ws@.skip(pos + 1);
        assert forall|i: int| 0 <= i < n_word implies !(#[trigger] rest[i] > u8::MAX) by {
            assert(rest[i] == ws@[pos + 1 + i]);
        }
        let back = rest.take(n as int).map_values(|w: u64| (w as u8) as i8);
        assert forall|i: int| 0 <= i < n implies #[trigger] back[i] == v@[i] by {
            assert(rest.take(n as int)[i] == ws@[pos + 1 + i]);
        }
        assert(v@ =~= back);
        assert(rest.skip(n as int) =~= ws@.skip(p2 as int));
    }
    Some((v, p2))
}

/// Reads a byte string at `pos`.
fn read_byte_string(ws: &Vec<u64>, pos: usize) -> (r: Option<(Vec<u8>, usize)>)
    requires
        pos <= ws@.len(),
    ensures
        match r {
            Some(vp) => pos < vp.1 <= ws@.len() && dec_bytes(ws@.skip(pos as int)) == Some(
                (vp.0@, ws@.skip(vp.1 as int)),
            ),
            None => dec_bytes(ws@.skip(pos as int)) is None,
        },
{
    let ghost s = ws@.skip(pos as int);
    if pos >= ws.len() {
        proof {
            assert(s =~= Seq::<u64>::empty());
        }
        return None;
    }
    let n_word = ws[pos];
    proof {
        assert(s[0] == n_word);
        assert(s.drop_first() =~= ws@.skip(pos + 1));
    }
    let remaining = ws.len() - pos - 1;
    if n_word > remaining as u64 {
        proof {
            assert(s.drop_first().len() == remaining as int);
            assert(s.drop_first().len() < n_word as int);
        }
        return None;
    }
    let n = n_word as usize;
    let mut v: Vec<u8> = Vec::new();
    let mut j: usize = 0;
    while j < n
        invariant
            j <= n,
            pos < ws@.len(),
            pos + 1 + n <= ws@.len(),
            ws@.len() <= usize::MAX,
            n == n_word as int,
            s == ws@.skip(pos as int),
            s.len() > 0,
            s[0] == n_word,
            s.drop_first() == ws@.skip(pos + 1),
            v@.len() == j,
            forall|t: int| 0 <= t < j ==> #[trigger] v@[t] == ws@[pos + 1 + t] as u8,
            forall|t: int| 0 <= t < j ==> #[trigger] ws@[pos + 1 + t] <= u8::MAX,
        decreases n - j,
    {
        let w = ws[pos + 1 + j];
        if w > (u8::MAX as u64) {
            proof {
                let rest = ws@.skip(pos + 1);
                assert(rest[j as int] == w);
                assert(0 <= j < n_word as int && rest[j as int] > u8::MAX);
            }
            return None;
        }
        v.push(w as u8);
        j += 1;
    }
    let p2 = pos + 1 + n;
    proof {
        let rest = ws@.skip(pos + 1);
        assert forall|i: int| 0 <= i < n_word implies !(#[trigger] rest[i] > u8::MAX) by {
            assert(rest[i] == ws@[pos + 1 + i]);
        }
        let back = rest.take(n as int).map_values(|w: u64| w as u8);
        assert forall|i: int| 0 <= i < n implies #[trigger] back[i] == v@[i] by {
            assert(rest.take(n as int)[i] == ws@[pos + 1 + i]);
        }
        assert(v@ =~= back);
        assert(rest.skip(n as int) =~= ws@.skip(p2 as int));
    }
    Some((v, p2))
}

/// Reads one `(key, bucket)` slot at `pos`.
fn read_entry(ws: &Vec<u64>, pos: usize) -> (r: Option<(crate::table::TableEntry, usize)>)
    requires
        pos <= ws@.len(),
    ensures
        match r {
            Some(vp) => pos < vp.1 <= ws@.len() && dec_entry(ws@.skip(pos as int)) == Some(
                ((vp.0.key@, vp.0.bucket@), ws@.skip(vp.1 as int)),
            ),
            None => dec_entry(ws@.skip(pos as int)) is None,
        },
{
    let (key, p1) = match read_key(ws, pos) {
        Some(kp) => kp,
        None => {
            return None;
        },
    };
    let (bucket, p2) = match read_u32s(ws, p1) {
        Some(bp) => bp,
        None => {
            return None;
        },
    };
    Some((crate::table::TableEntry { key, bucket }, p2))
}

/// A decode suffix prefixed by already-decoded items.
pub open spec fn dec_join<T>(prefix: Seq<T>, r: Option<(Seq<T>, Seq<u64>)>) -> Option<
    (Seq<T>, Seq<u64>),
> {
    match r {
        None => None,
        Some((items, rest)) => Some((prefix + items, rest)),
    }
}

/// A successful read consumes at least the count word.
proof fn lemma_dec_u32s_consumes(s: Seq<u64>)
    requires
        dec_u32s(s) is Some,
    ensures
        dec_u32s(s).unwrap().1.len() < s.len(),
{
}

/// A successful key read consumes at least the count word.
proof fn lemma_dec_key_consumes(s: Seq<u64>)
    requires
        dec_key(s) is Some,
    ensures
        dec_key(s).unwrap().1.len() < s.len(),
{
}

/// A successful byte-string read consumes at least the count word.
proof fn lemma_dec_bytes_consumes(s: Seq<u64>)
    requires
        dec_bytes(s) is Some,
    ensures
        dec_bytes(s).unwrap().1.len() < s.len(),
{
}

/// `n` slots need at least `n` words.
proof fn lemma_dec_entries_needs(s: Seq<u64>, n: nat)
    requires
        dec_entries(s, n) is Some,
    ensures
        n <= s.len(),
        dec_entries(s, n).unwrap().1.len() + n <= s.len(),
    decreases n,
{
    if n > 0 {
        let (e, r) = dec_entry(s).unwrap();
        lemma_dec_key_consumes(s);
        let (k, r1) = dec_key(s).unwrap();
        lemma_dec_u32s_consumes(r1);
        assert(r.len() < s.len());
        lemma_dec_entries_needs(r, (n - 1) as nat);
    }
}

/// `n` tables need at least `n` words.
proof fn lemma_dec_tables_needs(s: Seq<u64>, n: nat)
    requires
        dec_tables(s, n) is Some,
    ensures
        n <= s.len(),
        dec_tables(s, n).unwrap().1.len() + n <= s.len(),
    decreases n,
{
    if n > 0 {
        let (t, r) = dec_table(s).unwrap();
        lemma_dec_entries_needs(s.drop_first(), s[0] as nat);
        assert(r.len() < s.len());
        lemma_dec_tables_needs(r, (n - 1) as nat);
    }
}

/// `n` stored vectors need at least `n` words.
proof fn lemma_dec_store_needs(s: Seq<u64>, n: nat)
    requires
        dec_store(s, n) is Some,
    ensures
        n <= s.len(),
        dec_store(s, n).unwrap().1.len() + n <= s.len(),
    decreases n,
{
    if n > 0 {
        let (v, r) = dec_u32s(s).unwrap();
        lemma_dec_u32s_consumes(s);
        lemma_dec_store_needs(r, (n - 1) as nat);
    }
}

/// `n` hasher byte strings need at least `n` words.
proof fn lemma_dec_blobs_needs(s: Seq<u64>, n: nat)
    requires
        dec_blobs(s, n) is Some,
    ensures
        n <= s.len(),
        dec_blobs(s, n).unwrap().1.len() + n <= s.len(),
    decreases n,
{
    if n > 0 {
        let (b, r) = dec_bytes(s).unwrap();
        lemma_dec_bytes_consumes(s);
        lemma_dec_blobs_needs(r, (n - 1) as nat);
    }
}

/// A table read yields as many tables as asked for.
pub proof fn lemma_dec_tables_len(s: Seq<u64>, n: nat)
    requires
        dec_tables(s, n) is Some,
    ensures
        dec_tables(s, n).unwrap().0.len() == n,
    decreases n,
{
    if n > 0 {
        let (t, r) = dec_table(s).unwrap();
        lemma_dec_tables_len(r, (n - 1) as nat);
    }
}

/// A store read yields as many vectors as asked for.
pub proof fn lemma_dec_store_len(s: Seq<u64>, n: nat)
    requires
        dec_store(s, n) is Some,
    ensures
        dec_store(s, n).unwrap().0.len() == n,
    decreases n,
{
    if n > 0 {
        let (v, r) = dec_u32s(s).unwrap();
        lemma_dec_store_len(r, (n - 1) as nat);
    }
}

/// A blob read yields as many byte strings as asked for.
pub proof fn lemma_dec_blobs_len(s: Seq<u64>, n: nat)
    requires
        dec_blobs(s, n) is Some,
    ensures
        dec_blobs(s, n).unwrap().0.len() == n,
    decreases n,
{
    if n > 0 {
        let (b, r) = dec_bytes(s).unwrap();
        lemma_dec_blobs_len(r, (n - 1) as nat);
    }
}

/// Reads `n` slots at `pos`.
fn read_entries(ws: &Vec<u64>, pos: usize, n: usize) -> (r: Option<
    (Vec<crate::table::TableEntry>, usize),
>)
    requires
        pos <= ws@.len(),
    ensures
        match r {
            Some(vp) => pos <= vp.1 <= ws@.len() && dec_entries(ws@.skip(pos as int), n as nat)
                == Some(
                (
                    vp.0@.map_values(|e: crate::table::TableEntry| (e.key@, e.bucket@)),
                    ws@.skip(vp.1 as int),
                ),
            ),
            None => dec_entries(ws@.skip(pos as int), n as nat) is None,
        },
{
    let mut out: Vec<crate::table::TableEntry> = Vec::new();
    let mut p: usize = pos;
    let mut i: usize = 0;
    proof {
        let x = dec_entries(ws@.skip(pos as int), n as nat);
        if x is Some {
            assert(Seq::<(Seq<i8>, Seq<u32>)>::empty() + x.unwrap().0 =~= x.unwrap().0);
        }
        assert(out@.map_values(|e: crate::table::TableEntry| (e.key@, e.bucket@)) =~= Seq::<
            (Seq<i8>, Seq<u32>),
        >::empty());
    }
    while i < n
        invariant
            i <= n,
            pos <= p <= ws@.len(),
            out@.len() == i,
            dec_entries(ws@.skip(pos as int), n as nat) == dec_join(
                out@.map_values(|e: crate::table::TableEntry| (e.key@, e.bucket@)),
                dec_entries(ws@.skip(p as int), (n - i) as nat),
            ),
        decreases n - i,
    {
        match read_entry(ws, p) {
            Some(ep) => {
                let ghost pre = out@.map_values(
                    |e: crate::table::TableEntry| (e.key@, e.bucket@),
                );
                let ghost em = (ep.0.key@, ep.0.bucket@);
                let ghost inner = dec_entries(ws@.skip(ep.1 as int), (n - i - 1) as nat);
                proof {
                    assert(dec_entries(ws@.skip(p as int), (n - i) as nat) == dec_join(
                        seq![em],
                        inner,
                    ));
                    if inner is Some {
                        assert(pre + (seq![em] + inner.unwrap().0) =~= pre.push(em)
                            + inner.unwrap().0);
                    }
                }
                let p2 = ep.1;
                out.push(ep.0);
                proof {
                    assert(out@.map_values(|e: crate::table::TableEntry| (e.key@, e.bucket@))
                        =~= pre.push(em));
                }
                p = p2;
                i += 1;
            },
            None => {
                return None;
            },
        }
    }
    proof {
        let m = out@.map_values(|e: crate::table::TableEntry| (e.key@, e.bucket@));
        assert(dec_entries(ws@.skip(p as int), 0) == Some(
            (Seq::<(Seq<i8>, Seq<u32>)>::empty(), ws@.skip(p as int)),
        ));
        assert(m + Seq::<(Seq<i8>, Seq<u32>)>::empty() =~= m);
    }
    Some((out, p))
}

/// Reads one table at `pos`.
fn read_table(ws: &Vec<u64>, pos: usize) -> (r: Option<(crate::table::HashTable, usize)>)
    requires
        pos <= ws@.len(),
    ensures
        match r {
            Some(vp) => pos < vp.1 <= ws@.len() && dec_table(ws@.skip(pos as int)) == Some(
                (vp.0.model(), ws@.skip(vp.1 as int)),
            ),
            None => dec_table(ws@.skip(pos as int)) is None,
        },
{
    let ghost s = ws@.skip(pos as int);
    if pos >= ws.len() {
        proof {
            assert(s =~= Seq::<u64>::empty());
        }
        return None;
    }
    let n_word = ws[pos];
    proof {
        assert(s[0] == n_word);
        assert(s.drop_first() =~= ws@.skip(pos + 1));
    }
    let remaining = ws.len() - pos - 1;
    if n_word > remaining as u64 {
        proof {
            if dec_entries(ws@.skip(pos + 1), n_word as nat) is Some {
                lemma_dec_entries_needs(ws@.skip(pos + 1), n_word as nat);
            }
        }
        return None;
    }
    match read_entries(ws, pos + 1, n_word as usize) {
        Some(ep) => {
            let t = crate::table::HashTable { entries: ep.0 };
            proof {
                assert(t.model() == t.entries@.map_values(
                    |e: crate::table::TableEntry| (e.key@, e.bucket@),
                ));
            }
            Some((t, ep.1))
        },
        None => None,
    }
}

/// Reads `n` tables at `pos`.
fn read_tables(ws: &Vec<u64>, pos: usize, n: usize) -> (r: Option<
    (Vec<crate::table::HashTable>, usize),
>)
    requires
        pos <= ws@.len(),
    ensures
        match r {
            Some(vp) => pos <= vp.1 <= ws@.len() && dec_tables(ws@.skip(pos as int), n as nat)
                == Some(
                (vp.0@.map_values(|t: crate::table::HashTable| t.model()), ws@.skip(vp.1 as int)),
            ),
            None => dec_tables(ws@.skip(pos as int), n as nat) is None,
        },
{
    let mut out: Vec<crate::table::HashTable> = Vec::new();
    let mut p: usize = pos;
    let mut i: usize = 0;
    proof {
        let x = dec_tables(ws@.skip(pos as int), n as nat);
        if x is Some {
            assert(Seq::<Seq<(Seq<i8>, Seq<u32>)>>::empty() + x.unwrap().0 =~= x.unwrap().0);
        }
        assert(out@.map_values(|t: crate::table::HashTable| t.model()) =~= Seq::<
            Seq<(Seq<i8>, Seq<u32>)>,
        >::empty());
    }
    while i < n
        invariant
            i <= n,
            pos <= p <= ws@.len(),
            out@.len() == i,
            dec_tables(ws@.skip(pos as int), n as nat) == dec_join(
                out@.map_values(|t: crate::table::HashTable| t.model()),
                dec_tables(ws@.skip(p as int), (n - i) as nat),
            ),
        decreases n - i,
    {
        match read_table(ws, p) {
            Some(tp) => {
                let ghost pre = out@.map_values(|t: crate::table::HashTable| t.model());
                let ghost tm = tp.0.model();
                let ghost inner = dec_tables(ws@.skip(tp.1 as int), (n - i - 1) as nat);
                proof {
                    assert(dec_tables(ws@.skip(p as int), (n - i) as nat) == dec_join(
                        seq![tm],
                        inner,
                    ));
                    if inner is Some {
                        assert(pre + (seq![tm] + inner.unwrap().0) =~= pre.push(tm)
                            + inner.unwrap().0);
                    }
                }
                let p2 = tp.1;
                out.push(tp.0);
                proof {
                    assert(out@.map_values(|t: crate::table::HashTable| t.model()) =~= pre.push(
                        tm,
                    ));
                }
                p = p2;
                i += 1;
            },
            None => {
                return None;
            },
        }
    }
    proof {
        let m = out@.map_values(|t: crate::table::HashTable| t.model());
        assert(dec_tables(ws@.skip(p as int), 0) == Some(
            (Seq::<Seq<(Seq<i8>, Seq<u32>)>>::empty(), ws@.skip(p as int)),
        ));
        assert(m + Seq::<Seq<(Seq<i8>, Seq<u32>)>>::empty() =~= m);
    }
    Some((out, p))
}

/// Reads `n` stored vectors at `pos`.
fn read_store(ws: &Vec<u64>, pos: usize, n: usize) -> (r: Option<
    (Vec<crate::hash::DataPoint>, usize),
>)
    requires
        pos <= ws@.len(),
    ensures
        match r {
            Some(vp) => pos <= vp.1 <= ws@.len() && dec_store(ws@.skip(pos as int), n as nat)
                == Some(
                (vp.0@.map_values(|v: crate::hash::DataPoint| v@), ws@.skip(vp.1 as int)),
            ),
            None => dec_store(ws@.skip(pos as int), n as nat) is None,
        },
{
    let mut out: Vec<crate::hash::DataPoint> = Vec::new();
    let mut p: usize = pos;
    let mut i: usize = 0;
    proof {
        let x = dec_store(ws@.skip(pos as int), n as nat);
        if x is Some {
            assert(Seq::<Seq<u32>>::empty() + x.unwrap().0 =~= x.unwrap().0);
        }
        assert(out@.map_values(|v: crate::hash::DataPoint| v@) =~= Seq::<Seq<u32>>::empty());
    }
    while i < n
        invariant
            i <= n,
            pos <= p <= ws@.len(),
            out@.len() == i,
            dec_store(ws@.skip(pos as int), n as nat) == dec_join(
                out@.map_values(|v: crate::hash::DataPoint| v@),
                dec_store(ws@.skip(p as int), (n - i) as nat),
            ),
        decreases n - i,
    {
        match read_u32s(ws, p) {
            Some(vp) => {
                let ghost pre = out@.map_values(|v: crate::hash::DataPoint| v@);
                let ghost vm = vp.0@;
                let ghost inner = dec_store(ws@.skip(vp.1 as int), (n - i - 1) as nat);
                proof {
                    assert(dec_store(ws@.skip(p as int), (n - i) as nat) == dec_join(
                        seq![vm],
                        inner,
                    ));
                    if inner is Some {
                        assert(pre + (seq![vm] + inner.unwrap().0) =~= pre.push(vm)
                            + inner.unwrap().0);
                    }
                }
                let p2 = vp.1;
                out.push(vp.0);
                proof {
                    assert(out@.map_values(|v: crate::hash::DataPoint| v@) =~= pre.push(vm));
                }
                p = p2;
                i += 1;
            },
            None => {
                return None;
            },
        }
    }
    proof {
        let m = out@.map_values(|v: crate::hash::DataPoint| v@);
        assert(dec_store(ws@.skip(p as int), 0) == Some(
            (Seq::<Seq<u32>>::empty(), ws@.skip(p as int)),
        ));
        assert(m + Seq::<Seq<u32>>::empty() =~= m);
    }
    Some((out, p))
}

/// Reads `n` hasher byte strings at `pos`.
fn read_blobs(ws: &Vec<u64>, pos: usize, n: usize) -> (r: Option<(Vec<Vec<u8>>, usize)>)
    requires
        pos <= ws@.len(),
    ensures
        match r {
            Some(vp) => pos <= vp.1 <= ws@.len() && dec_blobs(ws@.skip(pos as int), n as nat)
                == Some((vp.0@.map_values(|b: Vec<u8>| b@), ws@.skip(vp.1 as int))),
            None => dec_blobs(ws@.skip(pos as int), n as nat) is None,
        },
{
    let mut out: Vec<Vec<u8>> = Vec::new();
    let mut p: usize = pos;
    let mut i: usize = 0;
    proof {
        let x = dec_blobs(ws@.skip(pos as int), n as nat);
        if x is Some {
            assert(Seq::<Seq<u8>>::empty() + x.unwrap().0 =~= x.unwrap().0);
        }
        assert(out@.map_values(|b: Vec<u8>| b@) =~= Seq::<Seq<u8>>::empty());
    }
    while i < n
        invariant
            i <= n,
            pos <= p <= ws@.len(),
            out@.len() == i,
            dec_blobs(ws@.skip(pos as int), n as nat) == dec_join(
                out@.map_values(|b: Vec<u8>| b@),
                dec_blobs(ws@.skip(p as int), (n - i) as nat),
            ),
        decreases n - i,
    {
        match read_byte_string(ws, p) {
            Some(bp) => {
                let ghost pre = out@.map_values(|b: Vec<u8>| b@);
                let ghost bm = bp.0@;
                let ghost inner = dec_blobs(ws@.skip(bp.1 as int), (n - i - 1) as nat);
                proof {
                    assert(dec_blobs(ws@.skip(p as int), (n - i) as nat) == dec_join(
                        seq![bm],
                        inner,
                    ));
                    if inner is Some {
                        assert(pre + (seq![bm] + inner.unwrap().0) =~= pre.push(bm)
                            + inner.unwrap().0);
                    }
                }
                let p2 = bp.1;
                out.push(bp.0);
                proof {
                    assert(out@.map_values(|b: Vec<u8>| b@) =~= pre.push(bm));
                }
                p = p2;
                i += 1;
            },
            None => {
                return None;
            },
        }
    }
    proof {
        let m = out@.map_values(|b: Vec<u8>| b@);
        assert(dec_blobs(ws@.skip(p as int), 0) == Some(
            (Seq::<Seq<u8>>::empty(), ws@.skip(p as int)),
        ));
        assert(m + Seq::<Seq<u8>>::empty() =~= m);
    }
    Some((out, p))
}

/// A decoded index state, fields still unvalidated.
pub struct DecodedIndex {
    /// The number of hash tables, `L`.
    pub l: u64,
    /// The hash length, `K`.
    pub k: u64,
    /// The vector dimension, `D`.
    pub d: u64,
    /// The master seed.
    pub seed: u64,
    /// The next id.
    pub counter: u64,
    /// Whether the store keeps ids only.
    pub only_index: bool,
    /// The decoded tables.
    pub tables: Vec<crate::table::HashTable>,
    /// The decoded store.
    pub store: Vec<crate::hash::DataPoint>,
    /// The decoded hasher byte strings.
    pub blobs: Vec<Vec<u8>>,
}

impl DecodedIndex {
    /// The state this value stands for.
    pub open spec fn model(self) -> LoadedState {
        LoadedState {
            l: self.l,
            k: self.k,
            d: self.d,
            seed: self.seed,
            counter: self.counter,
            only_index: self.only_index,
            tables: self.tables@.map_values(|t: crate::table::HashTable| t.model()),
            store: self.store@.map_values(|v: crate::hash::DataPoint| v@),
            blobs: self.blobs@.map_values(|b: Vec<u8>| b@),
        }
    }
}

/// Reads a whole state back from its bytes; buffers that do not parse
/// exactly are refused.
pub fn read_state(bytes: &Vec<u8>) -> (r: Option<DecodedIndex>)
    ensures
        match r {
            Some(di) => bytes_to_words_spec(bytes@) is Some && dec_state(
                bytes_to_words_spec(bytes@).unwrap(),
            ) == Some(di.model()),
            None => bytes_to_words_spec(bytes@) is None || dec_state(
                bytes_to_words_spec(bytes@).unwrap(),
            ) is None,
        },
{
    let ws = match bytes_to_words(bytes) {
        Some(ws) => ws,
        None => {
            return None;
        },
    };
    if ws.len() < 6 {
        return None;
    }
    let l = ws[0];
    let k = ws[1];
    let d = ws[2];
    let seed = ws[3];
    let counter = ws[4];
    let oiw = ws[5];
    if oiw > 1 {
        return None;
    }
    let only_index = oiw == 1;
    let remaining = ws.len() - 6;
    proof {
        assert(ws@.skip(6).len() == remaining as int);
    }
    if l > remaining as u64 {
        proof {
            if dec_tables(ws@.skip(6), l as nat) is Some {
                lemma_dec_tables_needs(ws@.skip(6), l as nat);
            }
        }
        return None;
    }
    let (tables, p1) = match read_tables(&ws, 6, l as usize) {
        Some(tp) => tp,
        None => {
            return None;
        },
    };
    let store_count_word: u64 = if only_index {
        0
    } else {
        counter
    };
    let rem1 = ws.len() - p1;
    if store_count_word > rem1 as u64 {
        proof {
            if dec_store(ws@.skip(p1 as int), store_count_word as nat) is Some {
                lemma_dec_store_needs(ws@.skip(p1 as int), store_count_word as nat);
            }
        }
        return None;
    }
    let (store, p2) = match read_store(&ws, p1, store_count_word as usize) {
        Some(sp) => sp,
        None => {
            return None;
        },
    };
    let rem2 = ws.len() - p2;
    if l > rem2 as u64 {
        proof {
            if dec_blobs(ws@.skip(p2 as int), l as nat) is Some {
                lemma_dec_blobs_needs(ws@.skip(p2 as int), l as nat);
            }
        }
        return None;
    }
    let (blobs, p3) = match read_blobs(&ws, p2, l as usize) {
        Some(bp) => bp,
        None => {
            return None;
        },
    };
    if p3 != ws.len() {
        proof {
            assert(ws@.skip(p3 as int).len() != 0);
        }
        return None;
    }
    let di = DecodedIndex { l, k, d, seed, counter, only_index, tables, store, blobs };
    proof {
        assert(ws@.skip(p3 as int).len() == 0);
        assert(dec_state(ws@) == Some(di.model()));
    }
    Some(di)
}

/// Powers of 256 only grow.
proof fn lemma_p256_increases(a: nat, b: nat)
    requires
        a <= b,
    ensures
        p256(a) <= p256(b),
    decreases b,
{
    if a < b {
        lemma_p256_increases(a, (b - 1) as nat);
        assert(p256(b) == 256 * p256((b - 1) as nat));
    }
}

} // verus!
