use vstd::prelude::*;
use vstd::arithmetic::div_mod::*;
use vstd::arithmetic::mul::*;
use vstd::arithmetic::power::*;
use crate::engine::Mstop;
use rand::rngs::StdRng;
use rand::Rng;
use crate::engine::{sum_all, lemma_sum_update, lemma_entry_le_sum, lemma_sum_zeros};
use crate::random_effects::{count_equal, lemma_count_equal_take};

verus! {

/// First observation of fold `i` when `n` observations are cut into `k`
/// consecutive folds whose sizes differ by at most one, the larger folds first.
pub open spec fn fold_start(n: nat, k: nat, i: nat) -> int {
    (i * (n / k)) as int + (if i < n % k { i as int } else { (n % k) as int })
}

/// Fold boundaries grow by the fold size, and the last boundary is `n`.
pub proof fn lemma_fold_start(n: nat, k: nat, i: nat)
    requires
        k > 0,
        i < k,
    ensures
        fold_start(n, k, i + 1) == fold_start(n, k, i) + n / k + (if i < n % k { 1int } else { 0int }),
        0 <= fold_start(n, k, i),
        fold_start(n, k, i + 1) <= n,
{
    lemma_mul_is_distributive_add_other_way((n / k) as int, i as int, 1);
    lemma_fundamental_div_mod(n as int, k as int);
    lemma_mul_inequality((i + 1) as int, k as int, (n / k) as int);
    lemma_mul_is_commutative(k as int, (n / k) as int);
    lemma_mod_bound(n as int, k as int);
    assert(0 <= i * (n / k)) by (nonlinear_arith);
}

/// `fold_start` never decreases.
pub proof fn lemma_fold_start_monotone(n: nat, k: nat, i: nat, j: nat)
    requires
        k > 0,
        i <= j <= k,
    ensures
        fold_start(n, k, i) <= fold_start(n, k, j),
    decreases j - i,
{
    if i < j {
        lemma_fold_start(n, k, (j - 1) as nat);
        lemma_fold_start_monotone(n, k, i, (j - 1) as nat);
    }
}

/// The folds start at 0 and end at `n`.
pub proof fn lemma_fold_ends(n: nat, k: nat)
    requires
        k > 0,
    ensures
        fold_start(n, k, 0) == 0,
        fold_start(n, k, k) == n,
{
    lemma_fundamental_div_mod(n as int, k as int);
    lemma_mul_is_commutative(k as int, (n / k) as int);
    lemma_mod_bound(n as int, k as int);
}

/// Weight of observation `j` in the training set of fold `i`: 0 when `j` is
/// held out in that fold, 1 otherwise.
pub open spec fn kfold_weight(n: nat, k: nat, i: nat, j: int) -> usize {
    if fold_start(n, k, i) <= j < fold_start(n, k, i + 1) { 0 } else { 1 }
}

/// K-fold cross-validation weights: `k` training-weight vectors over `n`
/// observations; vector `i` is 0 on the `i`-th block of consecutive
/// observations and 1 elsewhere. Blocks have `n / k` observations, and the
/// first `n % k` blocks one more.
pub fn kfold_weights(n: usize, k: usize) -> (r: Vec<Vec<usize>>)
    requires
        k > 0,
    ensures
        r.len() == k,
        forall|i: int| 0 <= i < k ==> #[trigger] r[i].len() == n,
        forall|i: int, j: int| 0 <= i < k && 0 <= j < n ==> #[trigger] r[i][j] == kfold_weight(n as nat, k as nat, i as nat, j),
{
    let fold_size = n / k;
    let remainder = n % k;
    let mut weights: Vec<Vec<usize>> = Vec::new();
    let mut start: usize = 0;
    let mut i: usize = 0;
    while i < k
        invariant
            i <= k,
            k > 0,
            fold_size == n / k,
            remainder == n % k,
            start == fold_start(n as nat, k as nat, i as nat),
            weights.len() == i,
            forall|a: int| 0 <= a < i ==> #[trigger] weights[a].len() == n,
            forall|a: int, j: int| 0 <= a < i && 0 <= j < n ==> #[trigger] weights[a][j] == kfold_weight(n as nat, k as nat, a as nat, j),
        decreases k - i,
    {
        proof {
            lemma_fold_start(n as nat, k as nat, i as nat);
        }
        let current = if i < remainder { fold_size + 1 } else { fold_size };
        let end = start + current;
        let mut w: Vec<usize> = Vec::new();
        let mut j: usize = 0;
        while j < n
            invariant
                j <= n,
                w.len() == j,
                start == fold_start(n as nat, k as nat, i as nat),
                end == fold_start(n as nat, k as nat, (i + 1) as nat),
                forall|b: int| 0 <= b < j ==> #[trigger] w[b] == kfold_weight(n as nat, k as nat, i as nat, b),
            decreases n - j,
        {
            if start <= j && j < end {
                w.push(0);
            } else {
                w.push(1);
            }
            j = j + 1;
        }
        weights.push(w);
        start = end;
        i = i + 1;
    }
    weights
}

/// Every observation is held out in exactly one fold.
pub proof fn law_kfold_partition(n: nat, k: nat, j: int)
    requires
        k > 0,
        0 <= j < n,
    ensures
        exists|i: nat| i < k && #[trigger] kfold_weight(n, k, i, j) == 0,
        forall|i1: nat, i2: nat|
            i1 < k && i2 < k && #[trigger] kfold_weight(n, k, i1, j) == 0 && #[trigger] kfold_weight(n, k, i2, j) == 0 ==> i1 == i2,
{
    lemma_fold_ends(n, k);
    // find the fold holding j
    assert(exists|i: nat| i < k && #[trigger] kfold_weight(n, k, i, j) == 0) by {
        let w = choose_fold(n, k, j);
        assert(kfold_weight(n, k, w, j) == 0);
    }
    assert forall|i1: nat, i2: nat|
        i1 < k && i2 < k && #[trigger] kfold_weight(n, k, i1, j) == 0 && #[trigger] kfold_weight(n, k, i2, j) == 0 implies i1 == i2 by {
        if i1 < i2 {
            lemma_fold_start_monotone(n, k, i1 + 1, i2);
        } else if i2 < i1 {
            lemma_fold_start_monotone(n, k, i2 + 1, i1);
        }
    }
}

/// The fold that holds observation `j`.
proof fn choose_fold(n: nat, k: nat, j: int) -> (i: nat)
    requires
        k > 0,
        0 <= j < n,
    ensures
        i < k,
        fold_start(n, k, i) <= j < fold_start(n, k, i + 1),
{
    lemma_fold_ends(n, k);
    search_fold(n, k, j, k)
}

/// Searches folds below `hi` for the one holding `j`, knowing `j` lies before
/// the start of fold `hi`.
proof fn search_fold(n: nat, k: nat, j: int, hi: nat) -> (i: nat)
    requires
        k > 0,
        0 < hi <= k,
        0 <= j < fold_start(n, k, hi),
    ensures
        i < hi,
        fold_start(n, k, i) <= j < fold_start(n, k, i + 1),
    decreases hi,
{
    lemma_fold_ends(n, k);
    if fold_start(n, k, (hi - 1) as nat) <= j {
        (hi - 1) as nat
    } else {
        search_fold(n, k, j, (hi - 1) as nat)
    }
}

/// The random generator that the resampling schemes draw from.
#[verifier::external_type_specification]
#[verifier::external_body]
pub struct ExStdRng(StdRng);

/// `rand::Rng::gen_range` over `0..n`: some index below `n`. The call panics on
/// an empty range, so `n` must be positive. Which index comes back depends on
/// the generator's state; the generator's new state is left unstated.
#[verifier::external_body]
fn draw_index(rng: &mut StdRng, n: usize) -> (r: usize)
    requires
        n > 0,
    ensures
        r < n,
{
    rng.gen_range(0..n)
}

/// `rand::seq::index::sample`, converted with `IndexVec::into_vec`: exactly
/// `amount` distinct indices below `length`, in random order. The call panics
/// when `amount > length`, and for `length` beyond `u32::MAX` it asserts (in
/// debug builds) that `amount < length`. Which indices come back is left
/// unstated.
#[verifier::external_body]
fn sample_distinct(rng: &mut StdRng, length: usize, amount: usize) -> (r: Vec<usize>)
    requires
        amount <= length,
        length <= u32::MAX || amount < length,
    ensures
        r.len() == amount,
        forall|i: int| 0 <= i < amount ==> r[i] < length,
        forall|i: int, j: int| 0 <= i < j < amount ==> r[i] != r[j],
{
    rand::seq::index::sample(rng, length, amount).into_vec()
}

/// A vector of `n` zeros.
fn zeros(n: usize) -> (r: Vec<usize>)
    ensures
        r.len() == n,
        forall|j: int| 0 <= j < n ==> r[j] == 0,
        sum_all(r@) == 0,
{
    let mut w: Vec<usize> = Vec::new();
    let mut j: usize = 0;
    while j < n
        invariant
            j <= n,
            w.len() == j,
            forall|b: int| 0 <= b < j ==> w[b] == 0,
        decreases n - j,
    {
        w.push(0);
        j = j + 1;
    }
    proof {
        lemma_sum_zeros(w@, w@.len());
    }
    w
}

/// How often each of the observations `0..n` occurs in `draws`.
pub fn tally(n: usize, draws: &Vec<usize>) -> (w: Vec<usize>)
    requires
        forall|i: int| 0 <= i < draws@.len() ==> #[trigger] draws@[i] < n,
    ensures
        w.len() == n,
        forall|j: int| 0 <= j < n ==> #[trigger] w@[j] == count_equal(draws@, j),
        sum_all(w@) == draws@.len(),
{
    let mut w = zeros(n);
    let mut t: usize = 0;
    while t < draws.len()
        invariant
            t <= draws@.len(),
            forall|i: int| 0 <= i < draws@.len() ==> #[trigger] draws@[i] < n,
            w.len() == n,
            forall|j: int| 0 <= j < n ==> #[trigger] w@[j] == count_equal(draws@.take(t as int), j),
            sum_all(w@) == t,
        decreases draws@.len() - t,
    {
        let idx = draws[t];
        proof {
            lemma_entry_le_sum(w@, idx as int);
            lemma_sum_update(w@, idx as int, (w[idx as int] + 1) as usize);
        }
        let c = w[idx] + 1;
        w.set(idx, c);
        proof {
            assert forall|j: int| 0 <= j < n implies #[trigger] w@[j] == count_equal(draws@.take(t + 1), j) by {
                lemma_count_equal_take(draws@, t as int, j);
            }
        }
        t = t + 1;
    }
    assert(draws@.take(draws@.len() as int) =~= draws@);
    w
}

/// One bootstrap resample: the number of times each of `n` observations is
/// drawn in `n` draws with replacement.
fn bootstrap_counts(n: usize, rng: &mut StdRng) -> (w: Vec<usize>)
    ensures
        w.len() == n,
        sum_all(w@) == n,
{
    let mut draws: Vec<usize> = Vec::new();
    let mut t: usize = 0;
    while t < n
        invariant
            t <= n,
            draws@.len() == t,
            forall|i: int| 0 <= i < t ==> #[trigger] draws@[i] < n,
        decreases n - t,
    {
        let idx = draw_index(rng, n);
        draws.push(idx);
        t = t + 1;
    }
    tally(n, &draws)
}

/// Bootstrap weights: `b` vectors of draw counts over `n` observations; each
/// vector is the tally (`tally`) of its own `n` calls of `draw_index` and sums
/// to `n`. That each replicate comes from fresh draws of the generator is not
/// stated: the generator is opaque here, so any outcome of the draws,
/// identical replicates included, is one the contract must admit.
pub fn bootstrap_weights(n: usize, b: usize, rng: &mut StdRng) -> (r: Vec<Vec<usize>>)
    ensures
        r.len() == b,
        forall|i: int| 0 <= i < b ==> #[trigger] r[i].len() == n && sum_all(r[i]@) == n,
{
    let mut weights: Vec<Vec<usize>> = Vec::new();
    let mut i: usize = 0;
    while i < b
        invariant
            i <= b,
            weights.len() == i,
            forall|a: int| 0 <= a < i ==> #[trigger] weights[a].len() == n && sum_all(weights[a]@) == n,
        decreases b - i,
    {
        let w = bootstrap_counts(n, rng);
        weights.push(w);
        i = i + 1;
    }
    weights
}

/// The entries of a 0/1 weight vector: every entry is 0 or 1.
pub open spec fn is_indicator(w: Seq<usize>) -> bool {
    forall|j: int| 0 <= j < w.len() ==> #[trigger] w[j] <= 1
}

/// Whether `x` is among the first `t` entries of `s`.
pub open spec fn in_prefix(s: Seq<usize>, t: int, x: usize) -> bool {
    exists|k: int| 0 <= k < t && #[trigger] s[k] == x
}

/// The 0/1 weights over `0..n` that mark the distinct observations listed
/// in `picked`.
pub fn indicator(n: usize, picked: &Vec<usize>) -> (w: Vec<usize>)
    requires
        forall|i: int| 0 <= i < picked@.len() ==> #[trigger] picked@[i] < n,
        forall|i: int, j: int| 0 <= i < j < picked@.len() ==> picked@[i] != picked@[j],
    ensures
        w.len() == n,
        forall|j: int| 0 <= j < n ==> #[trigger] w@[j] == (if picked@.contains(j as usize) { 1usize } else { 0usize }),
        is_indicator(w@),
        sum_all(w@) == picked@.len(),
{
    let amount = picked.len();
    let mut w = zeros(n);
    let mut t: usize = 0;
    while t < amount
        invariant
            t <= amount,
            picked@.len() == amount,
            forall|i: int| 0 <= i < amount ==> #[trigger] picked@[i] < n,
            forall|i: int, j: int| 0 <= i < j < amount ==> picked@[i] != picked@[j],
            w.len() == n,
            forall|j: int| 0 <= j < n ==> #[trigger] w[j] == (if in_prefix(picked@, t as int, j as usize) { 1usize } else { 0usize }),
            sum_all(w@) == t,
        decreases amount - t,
    {
        let idx = picked[t];
        proof {
            assert(!in_prefix(picked@, t as int, idx));
            lemma_sum_update(w@, idx as int, 1);
        }
        w.set(idx, 1);
        proof {
            assert forall|j: int| 0 <= j < n implies #[trigger] w[j] == (if in_prefix(picked@, t + 1, j as usize) { 1usize } else { 0usize }) by {
                if j == idx {
                    assert(picked@[t as int] == idx);
                }
                if in_prefix(picked@, t + 1, j as usize) && j != idx {
                    let k = choose|k: int| 0 <= k < t + 1 && #[trigger] picked@[k] == j as usize;
                    assert(k < t);
                }
            }
        }
        t = t + 1;
    }
    proof {
        assert forall|j: int| 0 <= j < n implies #[trigger] w@[j] == (if picked@.contains(j as usize) { 1usize } else { 0usize }) by {
            if picked@.contains(j as usize) {
                let k = choose|k: int| 0 <= k < picked@.len() && picked@[k] == j as usize;
                assert(in_prefix(picked@, amount as int, j as usize));
            }
            if in_prefix(picked@, amount as int, j as usize) {
                let k = choose|k: int| 0 <= k < amount && #[trigger] picked@[k] == j as usize;
                assert(picked@[k] == j as usize);
            }
        }
    }
    w
}

/// One subsample: weight 1 on `amount` distinct observations drawn without
/// replacement, 0 elsewhere: the `indicator` of what `sample_distinct`
/// returns. Which observations those are rests on the generator and is not
/// stated.
fn subsample_mask(n: usize, amount: usize, rng: &mut StdRng) -> (w: Vec<usize>)
    requires
        amount <= n,
        n <= u32::MAX || amount < n,
    ensures
        w.len() == n,
        is_indicator(w@),
        sum_all(w@) == amount,
{
    let picked = sample_distinct(rng, n, amount);
    indicator(n, &picked)
}

/// Subsampling weights: `b` vectors over `n` observations, each with weight 1
/// on exactly `amount` observations and 0 on the others; each replicate is the
/// indicator of its own `sample_distinct` call. Which observations each
/// replicate picks, and so whether replicates differ, rests on the generator
/// and is not stated.
pub fn subsample_weights(n: usize, b: usize, amount: usize, rng: &mut StdRng) -> (r: Vec<Vec<usize>>)
    requires
        amount <= n,
        n <= u32::MAX || amount < n,
    ensures
        r.len() == b,
        forall|i: int| 0 <= i < b ==> #[trigger] r[i].len() == n && is_indicator(r[i]@) && sum_all(r[i]@) == amount,
{
    let mut weights: Vec<Vec<usize>> = Vec::new();
    let mut i: usize = 0;
    while i < b
        invariant
            i <= b,
            amount <= n,
            n <= u32::MAX || amount < n,
            weights.len() == i,
            forall|a: int| 0 <= a < i ==> #[trigger] weights[a].len() == n && is_indicator(weights[a]@) && sum_all(weights[a]@) == amount,
        decreases b - i,
    {
        let w = subsample_mask(n, amount, rng);
        weights.push(w);
        i = i + 1;
    }
    weights
}

} // verus!

verus! {

/// Digit `i` (least significant first) of `j` written in base `b`.
pub open spec fn digit(j: nat, b: nat, i: nat) -> int {
    (j as int / pow(b as int, i)) % (b as int)
}

/// Configuration number `j` of the tuning grid: parameter `i` takes the level
/// selected by digit `i` of `j` in base `levels.len()`, so the first parameter
/// varies fastest.
pub open spec fn grid_config(levels: Seq<usize>, p: nat, j: nat) -> Seq<usize> {
    Seq::new(p, |i: int| levels[digit(j, levels.len(), i as nat)])
}

/// `v` clamped into `1..=hi`.
pub open spec fn clamp_level(v: usize, hi: usize) -> usize {
    if v < 1 { 1 } else if v > hi { hi } else { v }
}

/// `s` with every run of equal consecutive entries cut to one entry.
pub open spec fn dedup_consecutive(s: Seq<usize>) -> Seq<usize>
    decreases s.len(),
{
    if s.len() == 0 {
        s
    } else {
        let d = dedup_consecutive(s.drop_last());
        if d.len() > 0 && d.last() == s.last() { d } else { d.push(s.last()) }
    }
}

/// The distinct levels of the grid: the candidate counts clamped into
/// `1..=mstop_max`, with repeats of neighbours removed.
pub open spec fn grid_levels(raw: Seq<usize>, mstop_max: usize) -> Seq<usize> {
    dedup_consecutive(raw.map_values(|v: usize| clamp_level(v, mstop_max)))
}

/// Dedup keeps only values of the input, and keeps at least one when the input
/// has one.
pub proof fn lemma_dedup(s: Seq<usize>)
    ensures
        dedup_consecutive(s).len() <= s.len(),
        s.len() > 0 ==> dedup_consecutive(s).len() > 0,
        forall|i: int| 0 <= i < dedup_consecutive(s).len() ==> s.contains(#[trigger] dedup_consecutive(s)[i]),
    decreases s.len(),
{
    if s.len() > 0 {
        let d = dedup_consecutive(s.drop_last());
        lemma_dedup(s.drop_last());
        assert forall|i: int| 0 <= i < dedup_consecutive(s).len() implies s.contains(#[trigger] dedup_consecutive(s)[i]) by {
            if i < d.len() {
                let x = d[i];
                assert(s.drop_last().contains(x));
                let k = choose|k: int| 0 <= k < s.drop_last().len() && s.drop_last()[k] == x;
                assert(s[k] == x);
            } else {
                assert(s[s.len() - 1] == s.last());
            }
        }
    }
}

/// Removes repeats of neighbours.
fn dedup_levels(s: &Vec<usize>) -> (r: Vec<usize>)
    ensures
        r@ == dedup_consecutive(s@),
{
    let mut out: Vec<usize> = Vec::new();
    let mut i: usize = 0;
    while i < s.len()
        invariant
            i <= s.len(),
            out@ == dedup_consecutive(s@.subrange(0, i as int)),
        decreases s.len() - i,
    {
        proof {
            assert(s@.subrange(0, i + 1).drop_last() =~= s@.subrange(0, i as int));
        }
        let n = out.len();
        if n == 0 || out[n - 1] != s[i] {
            out.push(s[i]);
        }
        i = i + 1;
    }
    proof {
        assert(s@.subrange(0, s.len() as int) =~= s@);
    }
    out
}

/// If the `i0` lowest digits of `j` are all `b - 1`, then `j` is one short of
/// a multiple of `b^i0`.
proof fn lemma_low_digits_max(j: nat, b: nat, i0: nat)
    requires
        b > 0,
        forall|i: nat| i < i0 ==> #[trigger] digit(j, b, i) == b - 1,
    ensures
        j as int % pow(b as int, i0) == pow(b as int, i0) - 1,
    decreases i0,
{
    lemma_pow_positive(b as int, i0);
    if i0 == 0 {
        lemma_pow0(b as int);
    } else {
        let k = (i0 - 1) as nat;
        lemma_low_digits_max(j, b, k);
        lemma_pow_positive(b as int, k);
        let pk = pow(b as int, k);
        assert(digit(j, b, k) == b - 1);
        lemma_mod_breakdown(j as int, pk, b as int);
        lemma_pow_adds(b as int, k, 1);
        lemma_pow1(b as int);
        assert(pow(b as int, i0) == pk * b);
        assert(pk * (b - 1) + pk - 1 == pk * b - 1) by (nonlinear_arith);
    }
}

/// `(x + 1) / q` equals `x / q` when `q` is a multiple of `b` and the lowest
/// base-`b` digit of `x` is not `b - 1`.
proof fn lemma_div_no_carry(x: int, b: int, r: int)
    requires
        x >= 0,
        b > 0,
        r > 0,
        x % b != b - 1,
    ensures
        (x + 1) / (b * r) == x / (b * r),
{
    let q = b * r;
    assert(q > 0) by (nonlinear_arith)
        requires
            b > 0,
            r > 0,
            q == b * r,
    ;
    lemma_fundamental_div_mod(x, q);
    lemma_mod_bound(x, q);
    let qq = x / q;
    let rr = x % q;
    if rr + 1 == q {
        // then x % b == b - 1
        assert(x == q * qq + q - 1);
        assert(x == (r * qq + r - 1) * b + (b - 1)) by (nonlinear_arith)
            requires
                x == q * qq + q - 1,
                q == b * r,
        ;
        lemma_fundamental_div_mod_converse(x, b, r * qq + r - 1, b - 1);
        assert(false);
    }
    lemma_mul_is_commutative(q, qq);
    lemma_fundamental_div_mod_converse(x + 1, q, qq, rr + 1);
}

/// Adding one to `j` whose `i0` lowest digits are all `b - 1` and whose digit
/// `i0` is below `b - 1` clears the lower digits, raises digit `i0` by one and
/// keeps the higher digits.
proof fn lemma_increment_digits(j: nat, b: nat, i0: nat, i: nat)
    requires
        b > 0,
        forall|k: nat| k < i0 ==> #[trigger] digit(j, b, k) == b - 1,
        digit(j, b, i0) < b - 1,
    ensures
        digit(j + 1, b, i) == (if i < i0 { 0 } else if i == i0 { digit(j, b, i0) + 1 } else { digit(j, b, i) }),
{
    let bi = b as int;
    let p0 = pow(bi, i0);
    lemma_pow_positive(bi, i0);
    lemma_low_digits_max(j, b, i0);
    lemma_fundamental_div_mod(j as int, p0);
    let x = j as int / p0;
    assert(x >= 0) by {
        lemma_div_pos_is_pos(j as int, p0);
    }
    // j + 1 == p0 * (x + 1)
    assert(j + 1 == p0 * (x + 1)) by (nonlinear_arith)
        requires
            j as int == p0 * x + (p0 - 1),
    ;
    assert(x % bi == digit(j, b, i0));
    if i < i0 {
        let pi = pow(bi, i);
        let e = (i0 - i) as nat;
        let e1 = (e - 1) as nat;
        lemma_pow_positive(bi, i);
        lemma_pow_positive(bi, e1);
        lemma_pow_adds(bi, i, e);
        lemma_pow_adds(bi, 1, e1);
        lemma_pow1(bi);
        assert(p0 == pi * (bi * pow(bi, e1)));
        let m = pow(bi, e1) * (x + 1);
        assert(j + 1 == pi * (bi * m)) by (nonlinear_arith)
            requires
                j + 1 == p0 * (x + 1),
                p0 == pi * (bi * pow(bi, e1)),
                m == pow(bi, e1) * (x + 1),
        ;
        lemma_div_multiples_vanish(bi * m, pi);
        lemma_mul_is_commutative(bi, m);
        lemma_mod_multiples_basic(m, bi);
    } else if i == i0 {
        lemma_mul_is_commutative(p0, x + 1);
        lemma_div_multiples_vanish(x + 1, p0);
        lemma_mod_bound(x, bi);
        if x % bi + 1 < bi {
            lemma_fundamental_div_mod(x, bi);
            lemma_mul_is_commutative(x / bi, bi);
            lemma_fundamental_div_mod_converse(x + 1, bi, x / bi, x % bi + 1);
        }
    } else {
        let e = (i - i0) as nat;
        let e1 = (e - 1) as nat;
        lemma_pow_positive(bi, e);
        lemma_pow_positive(bi, e1);
        lemma_pow_adds(bi, i0, e);
        lemma_pow_adds(bi, 1, e1);
        lemma_pow1(bi);
        let q = pow(bi, e);
        assert(q == bi * pow(bi, e1));
        // digits above i0 only depend on x
        lemma_div_denominator(j as int, p0, q);
        lemma_div_denominator((j + 1) as int, p0, q);
        lemma_mul_is_commutative(p0, x + 1);
        lemma_div_multiples_vanish(x + 1, p0);
        lemma_div_no_carry(x, bi, pow(bi, e1));
    }
}

/// The digit vector of `j` for the first `p` digits.
pub open spec fn digits_of(j: nat, b: nat, p: nat) -> Seq<usize> {
    Seq::new(p, |i: int| digit(j, b, i as nat) as usize)
}

/// Advances the digit vector of `j` to that of `j + 1`. Returns `true` when
/// every digit wrapped around, which happens exactly when `j + 1 == b^p`.
fn advance(current: &mut Vec<usize>, b: usize, Ghost(j): Ghost<nat>) -> (wrapped: bool)
    requires
        b > 0,
        j < pow(b as int, old(current)@.len() as nat),
        old(current)@ == digits_of(j, b as nat, old(current)@.len() as nat),
    ensures
        final(current)@.len() == old(current)@.len(),
        wrapped ==> j + 1 == pow(b as int, old(current)@.len() as nat),
        !wrapped ==> j + 1 < pow(b as int, old(current)@.len() as nat)
            && final(current)@ == digits_of(j + 1, b as nat, old(current)@.len() as nat),
{
    let p = current.len();
    let ghost orig = current@;
    let mut i: usize = 0;
    while i < p
        invariant
            i <= p,
            b > 0,
            p == orig.len(),
            p == old(current)@.len(),
            j < pow(b as int, p as nat),
            current@.len() == p,
            orig == digits_of(j, b as nat, p as nat),
            forall|k: nat| k < i ==> #[trigger] digit(j, b as nat, k) == b - 1,
            forall|k: int| 0 <= k < i ==> current@[k] == 0,
            forall|k: int| i <= k < p ==> current@[k] == orig[k],
        decreases p - i,
    {
        proof {
            lemma_pow_positive(b as int, i as nat);
            lemma_mod_bound(j as int / pow(b as int, i as nat), b as int);
            assert(orig[i as int] == digit(j, b as nat, i as nat));
        }
        if current[i] + 1 < b {
            let v = current[i] + 1;
            current.set(i, v);
            proof {
                assert forall|k: int| 0 <= k < p implies current@[k] == digits_of(j + 1, b as nat, p as nat)[k] by {
                    lemma_increment_digits(j, b as nat, i as nat, k as nat);
                    lemma_digit_bound(j, b as nat, k as nat);
                    lemma_digit_bound(j + 1, b as nat, k as nat);
                    if k < i {
                        assert(current@[k] == 0);
                    } else if k == i {
                        assert(current@[k] == v);
                    } else {
                        assert(current@[k] == orig[k]);
                    }
                }
                assert(current@ =~= digits_of(j + 1, b as nat, p as nat));
                // j + 1 stays below b^p: a digit that can still grow exists
                lemma_pow_positive(b as int, p as nat);
                assert(j + 1 < pow(b as int, p as nat)) by {
                    if j + 1 >= pow(b as int, p as nat) {
                        assert(j + 1 == pow(b as int, p as nat));
                        lemma_increment_digits(j, b as nat, i as nat, i as nat);
                        lemma_pow_adds(b as int, i as nat, (p - i) as nat);
                        lemma_pow_positive(b as int, i as nat);
                        lemma_pow_positive(b as int, (p - i) as nat);
                        lemma_mul_is_commutative(pow(b as int, i as nat), pow(b as int, (p - i) as nat));
                        lemma_div_multiples_vanish(pow(b as int, (p - i) as nat), pow(b as int, i as nat));
                        lemma_digit_of_power(b as nat, (p - i) as nat);
                    }
                }
            }
            return false;
        }
        current.set(i, 0);
        i = i + 1;
    }
    proof {
        lemma_low_digits_max(j, b as nat, p as nat);
        lemma_pow_positive(b as int, p as nat);
        lemma_small_mod(j, pow(b as int, p as nat) as nat);
    }
    true
}

/// The lowest base-`b` digit of `b^e` with `e > 0` is 0, and of `b^0` is 1.
proof fn lemma_digit_of_power(b: nat, e: nat)
    requires
        b > 0,
    ensures
        e > 0 ==> pow(b as int, e) % (b as int) == 0,
        e == 0 ==> pow(b as int, e) == 1,
{
    lemma_pow0(b as int);
    if e > 0 {
        lemma_pow_adds(b as int, 1, (e - 1) as nat);
        lemma_pow1(b as int);
        lemma_pow_positive(b as int, (e - 1) as nat);
        lemma_mul_is_commutative(b as int, pow(b as int, (e - 1) as nat));
        lemma_mod_multiples_basic(pow(b as int, (e - 1) as nat), b as int);
    }
}

} // verus!

verus! {

/// Digits lie in `0..b`.
proof fn lemma_digit_bound(j: nat, b: nat, i: nat)
    requires
        b > 0,
    ensures
        0 <= digit(j, b, i) < b,
{
    lemma_pow_positive(b as int, i);
    lemma_div_pos_is_pos(j as int, pow(b as int, i));
    lemma_mod_bound(j as int / pow(b as int, i), b as int);
}

/// The mstop grid for cross-validation. `raw_levels` are the candidate
/// iteration counts (log-spaced between 1 and `mstop_max`); they are clamped
/// into `1..=mstop_max` and repeats of neighbours are dropped. The grid holds
/// every assignment of these levels to the `params_count` parameters, the
/// first parameter varying fastest. It is empty when there is no parameter,
/// no level, or `mstop_max` is 0.
pub fn mstop_grid(params_count: usize, mstop_max: usize, raw_levels: &Vec<usize>) -> (r: Vec<Mstop>)
    ensures
        (params_count == 0 || mstop_max == 0 || raw_levels.len() == 0) ==> r.len() == 0,
        !(params_count == 0 || mstop_max == 0 || raw_levels.len() == 0) ==> r.len() == pow(
            grid_levels(raw_levels@, mstop_max).len() as int,
            params_count as nat,
        ),
        forall|j: int|
            0 <= j < r.len() ==> (#[trigger] r[j] matches Mstop::PerParam(v) && v@ == grid_config(
                grid_levels(raw_levels@, mstop_max),
                params_count as nat,
                j as nat,
            )),
{
    if params_count == 0 || mstop_max == 0 || raw_levels.len() == 0 {
        return Vec::new();
    }
    let mut clamped: Vec<usize> = Vec::new();
    let mut i: usize = 0;
    while i < raw_levels.len()
        invariant
            i <= raw_levels.len(),
            clamped@ == raw_levels@.subrange(0, i as int).map_values(|v: usize| clamp_level(v, mstop_max)),
        decreases raw_levels.len() - i,
    {
        let v = raw_levels[i];
        let c = if v < 1 { 1 } else if v > mstop_max { mstop_max } else { v };
        clamped.push(c);
        proof {
            assert(clamped@ =~= raw_levels@.subrange(0, i + 1).map_values(|v: usize| clamp_level(v, mstop_max)));
        }
        i = i + 1;
    }
    proof {
        assert(raw_levels@.subrange(0, raw_levels.len() as int) =~= raw_levels@);
    }
    let levels = dedup_levels(&clamped);
    let ghost lv = grid_levels(raw_levels@, mstop_max);
    proof {
        lemma_dedup(clamped@);
    }
    let b = levels.len();
    let p = params_count;
    let mut current: Vec<usize> = Vec::new();
    let mut k: usize = 0;
    while k < p
        invariant
            k <= p,
            b > 0,
            current.len() == k,
            forall|t: int| 0 <= t < k ==> current@[t] == digits_of(0, b as nat, p as nat)[t],
        decreases p - k,
    {
        proof {
            lemma_pow_positive(b as int, k as nat);
            lemma_div_of0(pow(b as int, k as nat));
            lemma_small_mod(0, b as nat);
        }
        current.push(0);
        k = k + 1;
    }
    proof {
        assert(current@ =~= digits_of(0, b as nat, p as nat));
        lemma_pow_positive(b as int, p as nat);
    }
    let mut grid: Vec<Mstop> = Vec::new();
    let ghost mut j: nat = 0;
    loop
        invariant_except_break
            grid.len() == j,
            current@ == digits_of(j, b as nat, p as nat),
        invariant
            b > 0,
            b == lv.len(),
            levels@ == lv,
            current@.len() == p,
            j < pow(b as int, p as nat),
            forall|t: int|
                0 <= t < grid.len() ==> (#[trigger] grid[t] matches Mstop::PerParam(v) && v@ == grid_config(lv, p as nat, t as nat)),
        ensures
            grid.len() == pow(b as int, p as nat),
            forall|t: int|
                0 <= t < grid.len() ==> (#[trigger] grid[t] matches Mstop::PerParam(v) && v@ == grid_config(lv, p as nat, t as nat)),
        decreases pow(b as int, p as nat) - j,
    {
        let mut config: Vec<usize> = Vec::new();
        let mut q: usize = 0;
        while q < p
            invariant
                q <= p,
                b > 0,
                b == levels.len(),
                current@ == digits_of(j, b as nat, p as nat),
                config.len() == q,
                forall|t: int| 0 <= t < q ==> config@[t] == grid_config(levels@, p as nat, j)[t],
            decreases p - q,
        {
            proof {
                lemma_digit_bound(j, b as nat, q as nat);
            }
            config.push(levels[current[q]]);
            q = q + 1;
        }
        proof {
            assert(config@ =~= grid_config(lv, p as nat, j));
        }
        grid.push(Mstop::PerParam(config));
        let wrapped = advance(&mut current, b, Ghost(j));
        if wrapped {
            break;
        }
        proof {
            j = j + 1;
        }
    }
    grid
}

/// The number whose base-`b` digits, least significant first, are `idx`.
pub open spec fn from_digits(idx: Seq<nat>, b: nat) -> nat
    decreases idx.len(),
{
    if idx.len() == 0 {
        0
    } else {
        idx[0] + b * from_digits(idx.drop_first(), b)
    }
}

/// Digits below `b` make a number below `b^len` whose digits they are.
proof fn lemma_from_digits(idx: Seq<nat>, b: nat)
    requires
        b > 0,
        forall|i: int| 0 <= i < idx.len() ==> #[trigger] idx[i] < b,
    ensures
        from_digits(idx, b) < pow(b as int, idx.len()),
        forall|i: int| 0 <= i < idx.len() ==> #[trigger] digit(from_digits(idx, b), b, i as nat) == idx[i],
    decreases idx.len(),
{
    lemma_pow0(b as int);
    if idx.len() > 0 {
        let rest = idx.drop_first();
        assert forall|i: int| 0 <= i < rest.len() implies #[trigger] rest[i] < b by {
            assert(rest[i] == idx[i + 1]);
        }
        lemma_from_digits(rest, b);
        let v = from_digits(idx, b) as int;
        let r = from_digits(rest, b) as int;
        let d0 = idx[0] as int;
        let bi = b as int;
        assert(v == r * bi + d0) by (nonlinear_arith)
            requires
                v == d0 + bi * r,
        ;
        lemma_fundamental_div_mod_converse(v, bi, r, d0);
        let len1 = rest.len();
        lemma_pow_adds(bi, 1, len1);
        lemma_pow1(bi);
        let pr = pow(bi, len1);
        assert(v < pow(bi, idx.len())) by (nonlinear_arith)
            requires
                v == d0 + bi * r,
                0 <= d0 < bi,
                0 <= r < pr,
                pow(bi, idx.len()) == bi * pr,
        ;
        assert forall|i: int| 0 <= i < idx.len() implies #[trigger] digit(from_digits(idx, b), b, i as nat) == idx[i] by {
            if i == 0 {
                assert(v / pow(bi, 0) == v);
            } else {
                let k = (i - 1) as nat;
                lemma_pow_positive(bi, k);
                lemma_pow_adds(bi, 1, k);
                lemma_div_denominator(v, bi, pow(bi, k));
                assert(digit(from_digits(rest, b), b, k) == rest[k as int]);
                assert(rest[k as int] == idx[i]);
            }
        }
    }
}

/// Every assignment of the grid levels to the `p` parameters occurs in the
/// tuning grid: configuration `from_digits(idx)` gives parameter `i` the
/// level `levels[idx[i]]`.
pub proof fn law_grid_complete(levels: Seq<usize>, p: nat, idx: Seq<nat>)
    requires
        levels.len() > 0,
        idx.len() == p,
        forall|i: int| 0 <= i < p ==> #[trigger] idx[i] < levels.len(),
    ensures
        from_digits(idx, levels.len()) < pow(levels.len() as int, p),
        grid_config(levels, p, from_digits(idx, levels.len())) == Seq::new(p, |i: int| levels[idx[i] as int]),
{
    lemma_from_digits(idx, levels.len());
    assert(grid_config(levels, p, from_digits(idx, levels.len())) =~= Seq::new(p, |i: int| levels[idx[i] as int]));
}

} // verus!
