//! Step-wise multi-probe expansion.
//!
//! A query hash is expanded into nearby hashes by perturbing a few of
//! its components by `+1` or `-1`. All single-index perturbations come
//! first, then all two-index ones, and so on, until a probe budget is
//! spent. Perturbation candidates are drawn from the range `0..2K`:
//! candidates below `K` shift index `i` by `+1`, the rest shift index
//! `i / 2` by `-1`.

use vstd::prelude::*;
use itertools::Itertools;

verus! {

/// The smaller of two integers.
pub open spec fn min2(a: int, b: int) -> int {
    if a <= b { a } else { b }
}

/// The binomial coefficient `n choose k`, by Pascal's rule.
pub open spec fn binom(n: nat, k: nat) -> nat
    decreases n, k,
{
    if k == 0 {
        1
    } else if n == 0 {
        0
    } else {
        binom((n - 1) as nat, (k - 1) as nat) + binom((n - 1) as nat, k)
    }
}

/// All strictly increasing `k`-element sequences over `lo..n`, in
/// lexicographic order.
pub open spec fn combs_from(lo: int, n: int, k: nat) -> Seq<Seq<usize>>
    decreases n - lo when lo <= n
{
    if k == 0 {
        seq![Seq::empty()]
    } else if lo + k > n {
        Seq::empty()
    } else {
        combs_from(lo + 1, n, (k - 1) as nat).map_values(|s: Seq<usize>| seq![lo as usize] + s)
            + combs_from(lo + 1, n, k)
    }
}

/// Every element of `combs_from(lo, n, k)` has length `k`, entries in
/// `[lo, n)`, and is strictly increasing.
pub proof fn lemma_combs_from_shape(lo: int, n: int, k: nat)
    requires
        0 <= lo <= n <= usize::MAX,
    ensures
        forall|i: int| 0 <= i < combs_from(lo, n, k).len() ==> {
            let c = #[trigger] combs_from(lo, n, k)[i];
            c.len() == k
                && (forall|a: int| 0 <= a < c.len() ==> lo <= #[trigger] c[a] < n)
                && (forall|a: int, b: int| 0 <= a < b < c.len() ==> c[a] < c[b])
        },
    decreases n - lo,
{
    if k == 0 {
    } else if lo + k > n {
    } else {
        lemma_combs_from_shape(lo + 1, n, (k - 1) as nat);
        lemma_combs_from_shape(lo + 1, n, k);
        let left = combs_from(lo + 1, n, (k - 1) as nat).map_values(
            |s: Seq<usize>| seq![lo as usize] + s,
        );
        let right = combs_from(lo + 1, n, k);
        assert forall|i: int| 0 <= i < combs_from(lo, n, k).len() implies {
            let c = #[trigger] combs_from(lo, n, k)[i];
            c.len() == k
                && (forall|a: int| 0 <= a < c.len() ==> lo <= #[trigger] c[a] < n)
                && (forall|a: int, b: int| 0 <= a < b < c.len() ==> c[a] < c[b])
        } by {
            if i < left.len() {
                let s = combs_from(lo + 1, n, (k - 1) as nat)[i];
                let c = combs_from(lo, n, k)[i];
                assert(c == seq![lo as usize] + s);
                assert(c.len() == k);
                assert(lo as usize as int == lo);
                assert forall|a: int| 0 <= a < c.len() implies lo <= #[trigger] c[a] < n by {
                    if a == 0 {
                        assert(c[0] == lo as usize);
                    } else {
                        assert(c[a] == s[a - 1]);
                    }
                }
                assert forall|a: int, b: int| 0 <= a < b < c.len() implies c[a] < c[b] by {
                    if a == 0 {
                        assert(c[b] == s[b - 1]);
                        assert(lo + 1 <= s[b - 1]);
                    } else {
                        assert(c[a] == s[a - 1] && c[b] == s[b - 1]);
                    }
                }
            } else {
                assert(combs_from(lo, n, k)[i] == right[i - left.len()]);
            }
        }
    }
}

/// The first `limit` combinations of `0..n` taken `k` at a time, in
/// lexicographic order.
///
/// Relies on `itertools::Itertools::combinations`, which walks index
/// combinations in lexicographic order starting from `[0, .., k-1]`.
#[verifier::external_body]
fn combinations_lex(n: usize, k: usize, limit: usize) -> (r: Vec<Vec<usize>>)
    ensures
        r@.len() == min2(limit as int, combs_from(0, n as int, k as nat).len() as int),
        forall|i: int| 0 <= i < r@.len() ==> r@[i]@ == combs_from(0, n as int, k as nat)[i],
{
    (0..n).combinations(k).take(limit).collect()
}

/// `n choose k` is zero once `k` exceeds `n`.
proof fn lemma_binom_past_n(n: nat, k: nat)
    requires
        k > n,
    ensures
        binom(n, k) == 0,
    decreases n,
{
    if n > 0 {
        lemma_binom_past_n((n - 1) as nat, (k - 1) as nat);
        lemma_binom_past_n((n - 1) as nat, k);
    }
}

/// `n choose n` is one.
proof fn lemma_binom_diag(n: nat)
    ensures
        binom(n, n) == 1,
    decreases n,
{
    if n > 0 {
        lemma_binom_diag((n - 1) as nat);
        lemma_binom_past_n((n - 1) as nat, n);
    }
}

/// `n choose k`, saturated at `cap`: Pascal's triangle row by row,
/// with every entry clamped so nothing overflows.
fn binom_capped(n: usize, k: usize, cap: usize) -> (r: usize)
    requires
        cap >= 1,
    ensures
        r as int == min2(binom(n as nat, k as nat) as int, cap as int),
{
    if k > n {
        proof {
            lemma_binom_past_n(n as nat, k as nat);
        }
        return 0;
    }
    let mut row: Vec<usize> = Vec::new();
    row.push(1);
    let mut m: usize = 0;
    while m < n
        invariant
            m <= n,
            cap >= 1,
            row@.len() == m + 1,
            forall|i: int| 0 <= i < row@.len() ==> #[trigger] row@[i] as int == min2(
                binom(m as nat, i as nat) as int,
                cap as int,
            ),
        decreases n - m,
    {
        let ghost prev = row@;
        let mut new_row: Vec<usize> = Vec::new();
        new_row.push(1);
        let mut i: usize = 1;
        while i <= m
            invariant
                1 <= i <= m + 1,
                cap >= 1,
                m < n,
                row@ == prev,
                row@.len() == m + 1,
                forall|t: int| 0 <= t < row@.len() ==> #[trigger] row@[t] as int == min2(
                    binom(m as nat, t as nat) as int,
                    cap as int,
                ),
                new_row@.len() == i,
                forall|t: int| 0 <= t < i ==> #[trigger] new_row@[t] as int == min2(
                    binom((m + 1) as nat, t as nat) as int,
                    cap as int,
                ),
            decreases m + 1 - i,
        {
            let a = row[i - 1];
            let b = row[i];
            let s: usize = if a >= cap - b {
                cap
            } else {
                a + b
            };
            proof {
                assert(binom((m + 1) as nat, i as nat) == binom(m as nat, (i - 1) as nat) + binom(
                    m as nat,
                    i as nat,
                ));
            }
            new_row.push(s);
            i += 1;
        }
        proof {
            lemma_binom_diag((m + 1) as nat);
            lemma_binom_past_n(m as nat, (m + 1) as nat);
        }
        new_row.push(1);
        row = new_row;
        m += 1;
    }
    row[k]
}

/// Twice `n choose k`, saturated at `cap`.
fn binom_times2_capped(n: usize, k: usize, cap: usize) -> (r: usize)
    requires
        cap >= 1,
    ensures
        r as int == min2(2 * binom(n as nat, k as nat) as int, cap as int),
{
    let b = binom_capped(n, k, cap);
    if b > cap / 2 {
        cap
    } else {
        2 * b
    }
}

/// One when the condition holds, zero otherwise.
pub open spec fn bti(b: bool) -> int {
    if b {
        1
    } else {
        0
    }
}

/// The shift that the first `upto` perturbation candidates of `comb`
/// apply to hash index `j`. A candidate `c` below `hash_len` adds one
/// at index `c`; a candidate at or above `hash_len` subtracts one at
/// index `c / 2`.
pub open spec fn perturb_entry_upto(comb: Seq<usize>, upto: int, hash_len: usize, j: int) -> int {
    let pre = comb.take(upto);
    bti(pre.contains(j as usize)) - bti(pre.contains((2 * j) as usize) && 2 * j >= hash_len) - bti(
        pre.contains((2 * j + 1) as usize) && 2 * j + 1 >= hash_len,
    )
}

/// The shift the whole combination applies to hash index `j`.
pub open spec fn perturb_entry(comb: Seq<usize>, hash_len: usize, j: int) -> int {
    perturb_entry_upto(comb, comb.len() as int, hash_len, j)
}

/// The length-`hash_len` perturbation vector of one combination.
pub open spec fn perturb_vec(comb: Seq<usize>, hash_len: usize) -> Seq<i8> {
    Seq::new(hash_len as nat, |j: int| perturb_entry(comb, hash_len, j) as i8)
}

/// The pair `(index, shift)` a perturbation candidate stands for.
pub open spec fn comb_pair(c: usize, hash_len: usize) -> (usize, i8) {
    if c as int > hash_len as int - 1 {
        ((c / 2) as usize, -1i8)
    } else {
        (c, 1i8)
    }
}

/// The pair form of one combination of candidates.
pub open spec fn pairs_of_comb(comb: Seq<usize>, hash_len: usize) -> Seq<(usize, i8)> {
    comb.map_values(|c: usize| comb_pair(c, hash_len))
}

/// All `k`-candidate perturbations of a `hash_len`-long hash, in pair
/// form, in lexicographic candidate order.
pub open spec fn perturb_pairs_list(hash_len: usize, k: nat) -> Seq<Seq<(usize, i8)>> {
    combs_from(0, 2 * hash_len as int, k).map_values(
        |comb: Seq<usize>| pairs_of_comb(comb, hash_len),
    )
}

/// The first `limit` perturbations that shift exactly `n_perturbations`
/// candidates, as `(index, shift)` pairs in lexicographic candidate
/// order.
pub fn step_wise_perturb(hash_length: usize, n_perturbations: usize, limit: usize) -> (r: Vec<
    Vec<(usize, i8)>,
>)
    requires
        1 <= hash_length <= usize::MAX / 2,
    ensures
        r@.len() == min2(
            limit as int,
            perturb_pairs_list(hash_length, n_perturbations as nat).len() as int,
        ),
        forall|i: int| 0 <= i < r@.len() ==> r@[i]@ == perturb_pairs_list(
            hash_length,
            n_perturbations as nat,
        )[i],
{
    let ghost full = perturb_pairs_list(hash_length, n_perturbations as nat);
    let combos = combinations_lex(2 * hash_length, n_perturbations, limit);
    let mut r: Vec<Vec<(usize, i8)>> = Vec::new();
    let mut i: usize = 0;
    while i < combos.len()
        invariant
            i <= combos@.len(),
            1 <= hash_length <= usize::MAX / 2,
            combos@.len() == min2(limit as int, full.len() as int),
            forall|t: int| 0 <= t < combos@.len() ==> combos@[t]@ == combs_from(
                0,
                2 * hash_length as int,
                n_perturbations as nat,
            )[t],
            full == perturb_pairs_list(hash_length, n_perturbations as nat),
            r@.len() == i,
            forall|t: int| 0 <= t < i ==> r@[t]@ == full[t],
        decreases combos@.len() - i,
    {
        let comb = &combos[i];
        let mut pairs: Vec<(usize, i8)> = Vec::new();
        let mut a: usize = 0;
        while a < comb.len()
            invariant
                a <= comb@.len(),
                hash_length >= 1,
                pairs@.len() == a,
                forall|t: int| 0 <= t < a ==> pairs@[t] == comb_pair(comb@[t], hash_length),
            decreases comb@.len() - a,
        {
            let c = comb[a];
            if c > hash_length - 1 {
                pairs.push((c / 2, -1i8));
            } else {
                pairs.push((c, 1i8));
            }
            a += 1;
        }
        proof {
            assert(full[i as int] == pairs_of_comb(
                combs_from(0, 2 * hash_length as int, n_perturbations as nat)[i as int],
                hash_length,
            ));
            assert(pairs@ =~= full[i as int]);
        }
        r.push(pairs);
        i += 1;
    }
    r
}

/// The perturbation vectors of all `k`-candidate combinations, in
/// lexicographic candidate order.
pub open spec fn stage_perturbs(hash_len: usize, k: nat) -> Seq<Seq<i8>> {
    combs_from(0, 2 * hash_len as int, k).map_values(|comb: Seq<usize>| perturb_vec(comb, hash_len))
}

/// Membership in a sequence after a push.
proof fn lemma_push_contains(s: Seq<usize>, c: usize, x: usize)
    ensures
        s.push(c).contains(x) == (s.contains(x) || x == c),
{
    if s.contains(x) {
        let t = choose|t: int| 0 <= t < s.len() && s[t] == x;
        assert(s.push(c)[t] == x);
    }
    if x == c {
        assert(s.push(c)[s.len() as int] == x);
    }
    if s.push(c).contains(x) {
        let t = choose|t: int| 0 <= t < s.push(c).len() && s.push(c)[t] == x;
        if t < s.len() {
            assert(s[t] == x);
        }
    }
}

/// Folds one combination into its length-`hash_len` perturbation vector.
fn perturb_from_comb(comb: &Vec<usize>, hash_len: usize) -> (p: Vec<i8>)
    requires
        1 <= hash_len <= usize::MAX / 2,
        forall|a: int| 0 <= a < comb@.len() ==> #[trigger] comb@[a] < 2 * hash_len,
        forall|a: int, b: int| 0 <= a < b < comb@.len() ==> comb@[a] < comb@[b],
    ensures
        p@ == perturb_vec(comb@, hash_len),
{
    let mut p: Vec<i8> = Vec::new();
    let mut z: usize = 0;
    while z < hash_len
        invariant
            z <= hash_len,
            p@.len() == z,
            forall|j: int| 0 <= j < z ==> p@[j] == 0i8,
        decreases hash_len - z,
    {
        p.push(0i8);
        z += 1;
    }
    proof {
        assert forall|j: int| 0 <= j < hash_len implies perturb_entry_upto(comb@, 0, hash_len, j)
            == 0 by {
            assert(comb@.take(0) =~= Seq::<usize>::empty());
        }
    }
    let mut i: usize = 0;
    while i < comb.len()
        invariant
            i <= comb@.len(),
            1 <= hash_len <= usize::MAX / 2,
            forall|a: int| 0 <= a < comb@.len() ==> #[trigger] comb@[a] < 2 * hash_len,
            forall|a: int, b: int| 0 <= a < b < comb@.len() ==> comb@[a] < comb@[b],
            p@.len() == hash_len,
            forall|j: int| 0 <= j < hash_len ==> #[trigger] p@[j] as int == perturb_entry_upto(
                comb@,
                i as int,
                hash_len,
                j,
            ),
        decreases comb@.len() - i,
    {
        let c = comb[i];
        let ghost pre = comb@.take(i as int);
        proof {
            assert(comb@.take(i + 1) =~= comb@.take(i as int).push(comb@[i as int]));
            // Candidates before position i are smaller than c, so c is new.
            assert forall|x: usize| pre.contains(x) implies x < c by {
                let t = choose|t: int| 0 <= t < pre.len() && pre[t] == x;
                assert(comb@[t] < comb@[i as int]);
            }
            assert(!pre.contains(c));
            // Bounds on every current entry.
            assert forall|j: int| 0 <= j < hash_len implies -2 <= #[trigger] p@[j] as int <= 1 by {
                assert(p@[j] as int == perturb_entry_upto(comb@, i as int, hash_len, j));
            }
        }
        if c > hash_len - 1 {
            let idx = c / 2;
            assert(idx < hash_len);
            let old_v = p[idx];
            p.set(idx, old_v - 1);
            proof {
                let post = comb@.take(i + 1);
                assert forall|j: int| 0 <= j < hash_len implies #[trigger] perturb_entry_upto(
                    comb@,
                    i + 1,
                    hash_len,
                    j,
                ) == perturb_entry_upto(comb@, i as int, hash_len, j) + (if j == idx as int {
                    -1int
                } else {
                    0int
                }) by {
                    assert(post =~= pre.push(c));
                    lemma_push_contains(pre, c, j as usize);
                    lemma_push_contains(pre, c, (2 * j) as usize);
                    lemma_push_contains(pre, c, (2 * j + 1) as usize);
                    assert(2 * (c / 2) == c || 2 * (c / 2) + 1 == c);
                    assert(c as int >= hash_len);
                    if j == idx as int {
                        assert(j != c as int);
                        assert(2 * j == c as int || 2 * j + 1 == c as int);
                        assert(2 * j == c as int ==> 2 * j + 1 != c as int);
                    } else {
                        assert(j != c as int);
                        assert(2 * j == c as int ==> j == idx as int);
                        assert(2 * j + 1 == c as int ==> j == idx as int);
                    }
                }
            }
        } else {
            let old_v = p[c];
            p.set(c, old_v + 1);
            proof {
                let post = comb@.take(i + 1);
                assert forall|j: int| 0 <= j < hash_len implies #[trigger] perturb_entry_upto(
                    comb@,
                    i + 1,
                    hash_len,
                    j,
                ) == perturb_entry_upto(comb@, i as int, hash_len, j) + (if j == c as int {
                    1int
                } else {
                    0int
                }) by {
                    assert(post =~= pre.push(c));
                    lemma_push_contains(pre, c, j as usize);
                    lemma_push_contains(pre, c, (2 * j) as usize);
                    lemma_push_contains(pre, c, (2 * j + 1) as usize);
                    assert(c as int <= hash_len - 1);
                    assert(2 * j >= hash_len ==> 2 * j != c as int);
                    assert(2 * j + 1 >= hash_len ==> 2 * j + 1 != c as int);
                }
            }
        }
        i += 1;
    }
    proof {
        assert(comb@.take(comb@.len() as int) =~= comb@);
        assert(p@ =~= perturb_vec(comb@, hash_len));
    }
    p
}

/// The probe list that a budget buys, stage by stage: at stage `k` the
/// first `remaining` perturbation vectors with `k` shifted candidates
/// are emitted, and twice `hash_len choose k` is charged against the
/// budget.
pub open spec fn stepwise_from(hash_len: usize, remaining: int, k: nat) -> Seq<Seq<i8>>
    decreases hash_len + 1 - k when k <= hash_len + 1
{
    if remaining <= 0 || k > hash_len {
        Seq::empty()
    } else {
        let stage = stage_perturbs(hash_len, k);
        stage.take(min2(remaining, stage.len() as int)) + stepwise_from(
            hash_len,
            remaining - 2 * binom(hash_len as nat, k) as int,
            k + 1,
        )
    }
}

/// Everything `step_wise_probing` returns for a hash length and budget.
pub open spec fn stepwise_probing_spec(hash_len: usize, budget: usize) -> Seq<Seq<i8>> {
    stepwise_from(hash_len, budget as int, 1)
}

/// The perturbation vectors a probe budget buys, nearest first: all
/// single-candidate shifts, then all two-candidate shifts, and so on,
/// until the budget is spent or every index may shift.
pub fn step_wise_probing(hash_len: usize, budget: usize) -> (r: Vec<Vec<i8>>)
    requires
        hash_len <= usize::MAX / 2,
    ensures
        r@.len() == stepwise_probing_spec(hash_len, budget).len(),
        forall|i: int| 0 <= i < r@.len() ==> r@[i]@ == stepwise_probing_spec(hash_len, budget)[i],
{
    let ghost total = stepwise_probing_spec(hash_len, budget);
    let mut r: Vec<Vec<i8>> = Vec::new();
    let ghost done = Seq::<Seq<i8>>::empty();
    let mut remaining: usize = budget;
    let mut k: usize = 1;
    while remaining > 0 && k <= hash_len
        invariant
            1 <= k <= hash_len + 1,
            hash_len <= usize::MAX / 2,
            r@.len() == done.len(),
            forall|i: int| 0 <= i < done.len() ==> r@[i]@ == done[i],
            done + stepwise_from(hash_len, remaining as int, k as nat) == total,
        decreases hash_len + 1 - k,
    {
        let ghost stage = stage_perturbs(hash_len, k as nat);
        let combos = combinations_lex(2 * hash_len, k, remaining);
        proof {
            lemma_combs_from_shape(0, 2 * hash_len as int, k as nat);
            assert(combos@.len() == min2(remaining as int, stage.len() as int));
        }
        let mut t: usize = 0;
        while t < combos.len()
            invariant
                t <= combos@.len(),
                1 <= k <= hash_len,
                1 <= hash_len <= usize::MAX / 2,
                stage == stage_perturbs(hash_len, k as nat),
                combos@.len() <= stage.len(),
                forall|i: int| 0 <= i < combos@.len() ==> combos@[i]@ == combs_from(
                    0,
                    2 * hash_len as int,
                    k as nat,
                )[i],
                forall|i: int| 0 <= i < combos@.len() ==> {
                    let c = #[trigger] combs_from(0, 2 * hash_len as int, k as nat)[i];
                    (forall|a: int| 0 <= a < c.len() ==> 0 <= #[trigger] c[a] < 2 * hash_len)
                        && (forall|a: int, b: int| 0 <= a < b < c.len() ==> c[a] < c[b])
                },
                r@.len() == done.len() + t,
                forall|i: int| 0 <= i < done.len() ==> r@[i]@ == done[i],
                forall|i: int| 0 <= i < t ==> r@[done.len() + i]@ == stage[i],
            decreases combos@.len() - t,
        {
            let p = perturb_from_comb(&combos[t], hash_len);
            proof {
                assert(stage[t as int] == perturb_vec(
                    combs_from(0, 2 * hash_len as int, k as nat)[t as int],
                    hash_len,
                ));
            }
            r.push(p);
            t += 1;
        }
        let used = binom_times2_capped(hash_len, k, remaining);
        proof {
            let taken = stage.take(min2(remaining as int, stage.len() as int));
            assert(taken.len() == combos@.len());
            let done2 = done + taken;
            assert forall|i: int| 0 <= i < done2.len() implies r@[i]@ == done2[i] by {
                if i < done.len() {
                } else {
                    assert(r@[i]@ == stage[i - done.len()]);
                    assert(done2[i] == taken[i - done.len()]);
                }
            }
            // The spec recursion treats a spent budget and a negative one alike.
            let next_spec = remaining as int - 2 * binom(hash_len as nat, k as nat) as int;
            let next_exec = remaining as int - used as int;
            assert(stepwise_from(hash_len, next_spec, (k + 1) as nat) == stepwise_from(
                hash_len,
                next_exec,
                (k + 1) as nat,
            ));
            assert(done2 + stepwise_from(hash_len, next_exec, (k + 1) as nat) =~= total);
        }
        proof {
            done = done + stage.take(min2(remaining as int, stage.len() as int));
        }
        remaining = remaining - used;
        k += 1;
    }
    proof {
        assert(stepwise_from(hash_len, remaining as int, k as nat) =~= Seq::<Seq<i8>>::empty());
        assert(done =~= total);
    }
    r
}

/// Relies on `rand::random`: a machine word from the thread-local
/// generator. Nothing is promised of its value.
#[verifier::external_body]
fn random_u64() -> u64 {
    rand::random()
}

/// Draws `n` distinct elements from `bucket`, swapping each draw out of
/// the active prefix so it cannot be drawn again. The element at the
/// end of the active prefix is never drawn first.
fn uniform_without_replacement(bucket: &mut Vec<usize>, n: usize) -> (samples: Vec<usize>)
    requires
        n < old(bucket)@.len(),
        old(bucket)@.no_duplicates(),
    ensures
        samples@.len() == n,
        samples@.no_duplicates(),
        forall|x: usize| samples@.contains(x) ==> old(bucket)@.contains(x),
        final(bucket)@.to_multiset() == old(bucket)@.to_multiset(),
{
    let ghost orig = bucket@;
    let len = bucket.len();
    let mut max_idx: usize = len - 1;
    let mut samples: Vec<usize> = Vec::new();
    let mut s: usize = 0;
    while s < n
        invariant
            s <= n < len,
            max_idx == len - 1 - s,
            bucket@.len() == len,
            bucket@.no_duplicates(),
            bucket@.to_multiset() == orig.to_multiset(),
            forall|x: usize| bucket@.contains(x) ==> orig.contains(x),
            samples@.len() == s,
            forall|j: int| 0 <= j < s ==> samples@[j] == bucket@[len - 1 - j],
        decreases n - s,
    {
        let r = random_u64();
        let idx = (r % (max_idx as u64)) as usize;
        assert(idx < max_idx);
        let ghost before = bucket@;
        let picked = bucket[idx];
        samples.push(picked);
        let other = bucket[max_idx];
        bucket.set(idx, other);
        bucket.set(max_idx, picked);
        proof {
            lemma_swap_preserves_multiset(before, idx as int, max_idx as int);
            assert(bucket@ =~= before.update(idx as int, before[max_idx as int]).update(
                max_idx as int,
                before[idx as int],
            ));
            assert forall|a: int, b: int|
                0 <= a < b < bucket@.len() implies bucket@[a] != bucket@[b] by {
                let map_pos = |t: int| if t == idx as int {
                    max_idx as int
                } else if t == max_idx as int {
                    idx as int
                } else {
                    t
                };
                assert(bucket@[a] == before[map_pos(a)]);
                assert(bucket@[b] == before[map_pos(b)]);
            }
            assert forall|x: usize| bucket@.contains(x) implies orig.contains(x) by {
                let t = choose|t: int| 0 <= t < bucket@.len() && bucket@[t] == x;
                if t == idx as int {
                    assert(before[max_idx as int] == x);
                } else if t == max_idx as int {
                    assert(before[idx as int] == x);
                } else {
                    assert(before[t] == x);
                }
            }
            assert forall|j: int| 0 <= j < s + 1 implies samples@[j] == bucket@[len - 1 - j] by {
                if j < s {
                    assert(samples@[j] == before[len - 1 - j]);
                }
            }
        }
        max_idx = max_idx - 1;
        s += 1;
    }
    proof {
        assert forall|a: int, b: int|
            0 <= a < b < samples@.len() implies samples@[a] != samples@[b] by {
            assert(samples@[a] == bucket@[len - 1 - a]);
            assert(samples@[b] == bucket@[len - 1 - b]);
        }
        assert forall|x: usize| samples@.contains(x) implies orig.contains(x) by {
            let j = choose|j: int| 0 <= j < samples@.len() && samples@[j] == x;
            assert(bucket@.contains(bucket@[len - 1 - j]));
        }
    }
    samples
}

/// Swapping two positions leaves a sequence's multiset unchanged.
proof fn lemma_swap_preserves_multiset(s: Seq<usize>, a: int, b: int)
    requires
        0 <= a < b < s.len(),
    ensures
        s.update(a, s[b]).update(b, s[a]).to_multiset() == s.to_multiset(),
{
    let s2 = s.update(a, s[b]).update(b, s[a]);
    let p1 = s.take(a);
    let ma = seq![s[a]];
    let mid = s.subrange(a + 1, b);
    let mb = seq![s[b]];
    let p2 = s.skip(b + 1);
    assert(s =~= p1 + ma + mid + mb + p2);
    assert(s2 =~= p1 + mb + mid + ma + p2);
    vstd::seq_lib::lemma_multiset_commutative(p1 + ma + mid + mb, p2);
    vstd::seq_lib::lemma_multiset_commutative(p1 + ma + mid, mb);
    vstd::seq_lib::lemma_multiset_commutative(p1 + ma, mid);
    vstd::seq_lib::lemma_multiset_commutative(p1, ma);
    vstd::seq_lib::lemma_multiset_commutative(p1 + mb + mid + ma, p2);
    vstd::seq_lib::lemma_multiset_commutative(p1 + mb + mid, ma);
    vstd::seq_lib::lemma_multiset_commutative(p1 + mb, mid);
    vstd::seq_lib::lemma_multiset_commutative(p1, mb);
    assert(s2.to_multiset() =~= s.to_multiset());
}

/// A random perturbation of a `hash_len`-long hash: exactly `n`
/// distinct indices, drawn at random, are shifted by `+1` or `-1`
/// (chosen at random each); every other entry is zero.
pub fn create_hash_permutation(hash_len: usize, n: usize) -> (r: Vec<i8>)
    requires
        1 <= hash_len,
        n < hash_len,
    ensures
        r@.len() == hash_len,
        forall|j: int| 0 <= j < r@.len() ==> -1 <= #[trigger] r@[j] <= 1,
        exists|sel: Seq<usize>|
            {
                &&& sel.no_duplicates()
                &&& sel.len() == n
                &&& forall|j: int|
                    0 <= j < r@.len() ==> ((#[trigger] r@[j] != 0) <==> sel.contains(j as usize))
            },
{
    let mut idx: Vec<usize> = Vec::new();
    let mut t: usize = 0;
    while t < hash_len
        invariant
            t <= hash_len,
            idx@.len() == t,
            forall|a: int| 0 <= a < t ==> #[trigger] idx@[a] == a as usize,
        decreases hash_len - t,
    {
        idx.push(t);
        t += 1;
    }
    proof {
        assert(idx@.no_duplicates());
    }
    let ghost orig_idx = idx@;
    let candidates = uniform_without_replacement(&mut idx, n);
    proof {
        assert forall|a: int| 0 <= a < candidates@.len() implies #[trigger] candidates@[a]
            < hash_len by {
            let x = candidates@[a];
            assert(candidates@.contains(x));
            assert(orig_idx.contains(x));
            let w = choose|w: int| 0 <= w < orig_idx.len() && orig_idx[w] == x;
            assert(orig_idx[w] == w as usize);
        }
    }
    let mut permut: Vec<i8> = Vec::new();
    let mut z: usize = 0;
    while z < hash_len
        invariant
            z <= hash_len,
            permut@.len() == z,
            forall|j: int| 0 <= j < z ==> permut@[j] == 0i8,
        decreases hash_len - z,
    {
        permut.push(0i8);
        z += 1;
    }
    let mut i: usize = 0;
    while i < candidates.len()
        invariant
            i <= candidates@.len(),
            candidates@.no_duplicates(),
            forall|a: int| 0 <= a < candidates@.len() ==> #[trigger] candidates@[a] < hash_len,
            permut@.len() == hash_len,
            forall|j: int| 0 <= j < hash_len ==> -1 <= #[trigger] permut@[j] <= 1,
            forall|j: int|
                0 <= j < hash_len ==> ((#[trigger] permut@[j] != 0) <==> candidates@.take(
                    i as int,
                ).contains(j as usize)),
        decreases candidates@.len() - i,
    {
        let c = candidates[i];
        let v: i8 = if random_u64() % 2 == 0 {
            1
        } else {
            -1
        };
        permut.set(c, v);
        proof {
            let ci = candidates@[i as int];
            assert(candidates@.take(i + 1) =~= candidates@.take(i as int).push(ci));
            assert forall|j: int|
                0 <= j < hash_len implies ((#[trigger] permut@[j] != 0) <==> candidates@.take(
                i + 1,
            ).contains(j as usize)) by {
                lemma_push_contains(candidates@.take(i as int), c, j as usize);
            }
        }
        i += 1;
    }
    proof {
        assert(candidates@.take(candidates@.len() as int) =~= candidates@);
        let sel = candidates@;
        assert(sel.no_duplicates() && sel.len() == n && forall|j: int|
            0 <= j < permut@.len() ==> ((#[trigger] permut@[j] != 0) <==> sel.contains(
                j as usize,
            )));
    }
    permut
}

} // verus!
