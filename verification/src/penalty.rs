use vstd::prelude::*;
use vstd::arithmetic::div_mod::{lemma_fundamental_div_mod_converse_div, lemma_fundamental_div_mod_converse_mod};

verus! {

/// Entry `(i, j)` of the difference matrix of order `d`: the identity for
/// order zero, and each higher order takes differences of neighbouring rows
/// of the order below.
pub open spec fn diff_entry(d: nat, i: int, j: int) -> int
    decreases d,
{
    if d == 0 {
        if i == j { 1 } else { 0 }
    } else {
        diff_entry((d - 1) as nat, i + 1, j) - diff_entry((d - 1) as nat, i, j)
    }
}

/// `2^d`.
pub open spec fn two_pow(d: nat) -> nat
    decreases d,
{
    if d == 0 { 1 } else { 2 * two_pow((d - 1) as nat) }
}

/// Every entry of the order-`d` difference matrix is bounded by `2^d`.
pub proof fn lemma_diff_entry_bound(d: nat, i: int, j: int)
    ensures
        -two_pow(d) <= diff_entry(d, i, j) <= two_pow(d),
    decreases d,
{
    if d > 0 {
        lemma_diff_entry_bound((d - 1) as nat, i + 1, j);
        lemma_diff_entry_bound((d - 1) as nat, i, j);
    }
}

/// `2^d` grows with `d`.
pub proof fn lemma_two_pow_monotone(d: nat, e: nat)
    requires
        d <= e,
    ensures
        1 <= two_pow(d) <= two_pow(e),
    decreases e,
{
    if e > d {
        lemma_two_pow_monotone(d, (e - 1) as nat);
    } else if d > 0 {
        lemma_two_pow_monotone((d - 1) as nat, (d - 1) as nat);
    }
}

/// Eight more doublings multiply by 256.
proof fn lemma_two_pow_shift8(d: nat)
    ensures
        two_pow(d + 8) == 256 * two_pow(d),
{
    reveal_with_fuel(two_pow, 9);
}

/// `2^d` for the orders whose differences still fit an `i64`.
pub proof fn lemma_two_pow_small(d: nat)
    requires
        d <= 61,
    ensures
        1 <= two_pow(d) <= 0x2000_0000_0000_0000,
{
    lemma_two_pow_monotone(d, 61);
    assert(two_pow(5) == 32) by {
        reveal_with_fuel(two_pow, 6);
    }
    lemma_two_pow_shift8(5);
    lemma_two_pow_shift8(13);
    lemma_two_pow_shift8(21);
    lemma_two_pow_shift8(29);
    lemma_two_pow_shift8(37);
    lemma_two_pow_shift8(45);
    lemma_two_pow_shift8(53);
}

/// `rows` holds the order-`d` difference matrix for `n` columns: `n - d`
/// rows of `n` entries each.
pub open spec fn is_difference_matrix(rows: Seq<Vec<i64>>, n: nat, d: nat) -> bool {
    &&& rows.len() == n - d
    &&& forall|i: int| 0 <= i < rows.len() ==> (#[trigger] rows[i])@.len() == n
    &&& forall|i: int, j: int| 0 <= i < rows.len() && 0 <= j < n ==> #[trigger] rows[i]@[j] == diff_entry(d, i, j)
}

/// The `n`-by-`n` identity.
fn identity_rows(n: usize) -> (rows: Vec<Vec<i64>>)
    ensures
        is_difference_matrix(rows@, n as nat, 0),
{
    let mut rows: Vec<Vec<i64>> = Vec::new();
    let mut i: usize = 0;
    while i < n
        invariant
            i <= n,
            rows@.len() == i,
            forall|a: int| 0 <= a < i ==> (#[trigger] rows@[a])@.len() == n,
            forall|a: int, j: int| 0 <= a < i && 0 <= j < n ==> #[trigger] rows@[a]@[j] == diff_entry(0, a, j),
        decreases n - i,
    {
        let mut row: Vec<i64> = Vec::new();
        let mut j: usize = 0;
        while j < n
            invariant
                j <= n,
                i < n,
                row@.len() == j,
                forall|b: int| 0 <= b < j ==> #[trigger] row@[b] == diff_entry(0, i as int, b),
            decreases n - j,
        {
            if i == j {
                row.push(1);
            } else {
                row.push(0);
            }
            j = j + 1;
        }
        rows.push(row);
        i = i + 1;
    }
    rows
}

/// The difference matrix `D` of order `d` for `n` columns: row `i` of the
/// first order holds `-1` at column `i` and `1` at column `i + 1`, and each
/// higher order differences neighbouring rows of the order below.
pub fn difference_matrix(n: usize, d: usize) -> (rows: Vec<Vec<i64>>)
    requires
        d <= n,
        d <= 62,
    ensures
        is_difference_matrix(rows@, n as nat, d as nat),
{
    let mut cur = identity_rows(n);
    let mut k: usize = 0;
    while k < d
        invariant
            k <= d,
            d <= n,
            d <= 62,
            is_difference_matrix(cur@, n as nat, k as nat),
        decreases d - k,
    {
        let mut next: Vec<Vec<i64>> = Vec::new();
        let m = n - k - 1;
        let mut i: usize = 0;
        while i < m
            invariant
                k < d,
                d <= 62,
                m == n - k - 1,
                i <= m,
                is_difference_matrix(cur@, n as nat, k as nat),
                next@.len() == i,
                forall|a: int| 0 <= a < i ==> (#[trigger] next@[a])@.len() == n,
                forall|a: int, j: int| 0 <= a < i && 0 <= j < n ==> #[trigger] next@[a]@[j] == diff_entry((k + 1) as nat, a, j),
            decreases m - i,
        {
            let mut row: Vec<i64> = Vec::new();
            let mut j: usize = 0;
            while j < n
                invariant
                    k < d,
                    d <= 62,
                    i < m,
                    m == n - k - 1,
                    j <= n,
                    is_difference_matrix(cur@, n as nat, k as nat),
                    row@.len() == j,
                    forall|b: int| 0 <= b < j ==> #[trigger] row@[b] == diff_entry((k + 1) as nat, i as int, b),
                decreases n - j,
            {
                proof {
                    assert(cur@[i + 1]@[j as int] == diff_entry(k as nat, i + 1, j as int));
                    assert(cur@[i as int]@[j as int] == diff_entry(k as nat, i as int, j as int));
                    lemma_diff_entry_bound(k as nat, i + 1, j as int);
                    lemma_diff_entry_bound(k as nat, i as int, j as int);
                    lemma_two_pow_small(k as nat);
                }
                let v = cur[i + 1][j] - cur[i][j];
                row.push(v);
                j = j + 1;
            }
            next.push(row);
            i = i + 1;
        }
        cur = next;
        k = k + 1;
    }
    cur
}

/// Entry `(i, j)` of `DᵀD` summed over the first `rows` rows of the order-`d`
/// difference matrix.
pub open spec fn penalty_entry(d: nat, rows: nat, i: int, j: int) -> int
    decreases rows,
{
    if rows == 0 {
        0
    } else {
        penalty_entry(d, (rows - 1) as nat, i, j) + diff_entry(d, rows - 1, i) * diff_entry(d, rows - 1, j)
    }
}

/// A product of two order-`d` entries is bounded by `4^d`.
proof fn lemma_diff_product_bound(d: nat, r: int, i: int, j: int)
    ensures
        -(two_pow(d) * two_pow(d)) <= diff_entry(d, r, i) * diff_entry(d, r, j) <= two_pow(d) * two_pow(d),
{
    lemma_diff_entry_bound(d, r, i);
    lemma_diff_entry_bound(d, r, j);
    let a = diff_entry(d, r, i);
    let b = diff_entry(d, r, j);
    let t = two_pow(d) as int;
    assert(-(t * t) <= a * b <= t * t) by (nonlinear_arith)
        requires
            -t <= a <= t,
            -t <= b <= t,
    ;
}

/// Partial sums of `DᵀD` grow by at most `4^d` per row.
proof fn lemma_penalty_entry_bound(d: nat, rows: nat, i: int, j: int)
    ensures
        -(rows * (two_pow(d) * two_pow(d))) <= penalty_entry(d, rows, i, j) <= rows * (two_pow(d) * two_pow(d)),
    decreases rows,
{
    if rows > 0 {
        lemma_penalty_entry_bound(d, (rows - 1) as nat, i, j);
        lemma_diff_product_bound(d, rows - 1, i, j);
        let q = two_pow(d) * two_pow(d);
        assert(rows * q == (rows - 1) * q + q) by (nonlinear_arith);
    }
}

/// The penalty `K = DᵀD` of order `d` for `n` coefficients, as an `n`-by-`n`
/// matrix given row by row.
pub fn penalty_matrix(n: usize, d: usize) -> (k: Vec<Vec<i64>>)
    requires
        d <= n,
        d <= 62,
        (n - d) * (two_pow(d as nat) * two_pow(d as nat)) <= i64::MAX,
    ensures
        k@.len() == n,
        forall|i: int| 0 <= i < n ==> (#[trigger] k@[i])@.len() == n,
        forall|i: int, j: int| 0 <= i < n && 0 <= j < n ==> #[trigger] k@[i]@[j] == penalty_entry(d as nat, (n - d) as nat, i, j),
{
    let diff = difference_matrix(n, d);
    let rows = n - d;
    let ghost q = two_pow(d as nat) * two_pow(d as nat);
    let mut k: Vec<Vec<i64>> = Vec::new();
    let mut i: usize = 0;
    while i < n
        invariant
            i <= n,
            rows == n - d,
            q == two_pow(d as nat) * two_pow(d as nat),
            rows * q <= i64::MAX,
            is_difference_matrix(diff@, n as nat, d as nat),
            k@.len() == i,
            forall|a: int| 0 <= a < i ==> (#[trigger] k@[a])@.len() == n,
            forall|a: int, b: int| 0 <= a < i && 0 <= b < n ==> #[trigger] k@[a]@[b] == penalty_entry(d as nat, rows as nat, a, b),
        decreases n - i,
    {
        let mut row: Vec<i64> = Vec::new();
        let mut j: usize = 0;
        while j < n
            invariant
                i < n,
                j <= n,
                rows == n - d,
                q == two_pow(d as nat) * two_pow(d as nat),
                rows * q <= i64::MAX,
                is_difference_matrix(diff@, n as nat, d as nat),
                row@.len() == j,
                forall|b: int| 0 <= b < j ==> #[trigger] row@[b] == penalty_entry(d as nat, rows as nat, i as int, b),
            decreases n - j,
        {
            let mut acc: i64 = 0;
            let mut r: usize = 0;
            while r < rows
                invariant
                    i < n,
                    j < n,
                    r <= rows,
                    rows == n - d,
                    q == two_pow(d as nat) * two_pow(d as nat),
                    rows * q <= i64::MAX,
                    is_difference_matrix(diff@, n as nat, d as nat),
                    acc == penalty_entry(d as nat, r as nat, i as int, j as int),
                decreases rows - r,
            {
                proof {
                    assert(diff@[r as int]@[i as int] == diff_entry(d as nat, r as int, i as int));
                    assert(diff@[r as int]@[j as int] == diff_entry(d as nat, r as int, j as int));
                    lemma_penalty_entry_bound(d as nat, (r + 1) as nat, i as int, j as int);
                    lemma_diff_product_bound(d as nat, r as int, i as int, j as int);
                    assert((r + 1) * q <= rows * q && q <= rows * q) by (nonlinear_arith)
                        requires
                            r + 1 <= rows,
                            0 <= q,
                    ;
                    assert(-q <= diff@[r as int]@[i as int] * diff@[r as int]@[j as int] <= q);
                }
                let prod = diff[r][i] * diff[r][j];
                acc = acc + prod;
                r = r + 1;
            }
            row.push(acc);
            j = j + 1;
        }
        k.push(row);
        i = i + 1;
    }
    k
}

/// `DᵀD` is symmetric.
pub proof fn law_penalty_symmetric(d: nat, rows: nat, i: int, j: int)
    ensures
        penalty_entry(d, rows, i, j) == penalty_entry(d, rows, j, i),
    decreases rows,
{
    if rows > 0 {
        law_penalty_symmetric(d, (rows - 1) as nat, i, j);
        let a = diff_entry(d, rows - 1, i);
        let b = diff_entry(d, rows - 1, j);
        assert(a * b == b * a) by (nonlinear_arith);
    }
}

/// Sum of the first `n` entries of row `i` of the order-`d` difference matrix.
pub open spec fn diff_row_sum(d: nat, i: int, n: nat) -> int
    decreases n,
{
    if n == 0 {
        0
    } else {
        diff_row_sum(d, i, (n - 1) as nat) + diff_entry(d, i, n - 1)
    }
}

/// Row sums of the identity.
proof fn lemma_identity_row_sum(i: int, n: nat)
    ensures
        diff_row_sum(0, i, n) == if 0 <= i < n { 1int } else { 0int },
    decreases n,
{
    if n > 0 {
        lemma_identity_row_sum(i, (n - 1) as nat);
    }
}

/// Row sums follow the differencing of rows.
proof fn lemma_row_sum_step(d: nat, i: int, n: nat)
    requires
        d >= 1,
    ensures
        diff_row_sum(d, i, n) == diff_row_sum((d - 1) as nat, i + 1, n) - diff_row_sum((d - 1) as nat, i, n),
    decreases n,
{
    if n > 0 {
        lemma_row_sum_step(d, i, (n - 1) as nat);
    }
}

/// Every row of a difference matrix of order one or more sums to zero: the
/// penalty leaves a constant coefficient vector unpenalized.
pub proof fn law_difference_rows_sum_to_zero(n: nat, d: nat, i: int)
    requires
        d >= 1,
        0 <= i,
        i + d < n,
    ensures
        diff_row_sum(d, i, n) == 0,
    decreases d,
{
    lemma_row_sum_step(d, i, n);
    if d == 1 {
        lemma_identity_row_sum(i, n);
        lemma_identity_row_sum(i + 1, n);
    } else {
        law_difference_rows_sum_to_zero(n, (d - 1) as nat, i);
        law_difference_rows_sum_to_zero(n, (d - 1) as nat, i + 1);
    }
}

/// `4^d`, for the orders whose entries fit an `i64`.
fn four_pow(d: usize) -> (q: u128)
    requires
        d <= 62,
    ensures
        q == two_pow(d as nat) * two_pow(d as nat),
{
    let mut q: u128 = 1;
    let mut k: usize = 0;
    assert(two_pow(0) == 1);
    while k < d
        invariant
            k <= d,
            d <= 62,
            q == two_pow(k as nat) * two_pow(k as nat),
        decreases d - k,
    {
        proof {
            lemma_two_pow_small(k as nat);
            let t = two_pow(k as nat) as int;
            assert(t * t <= 0x2000_0000_0000_0000 * 0x2000_0000_0000_0000) by (nonlinear_arith)
                requires
                    1 <= t <= 0x2000_0000_0000_0000,
            ;
            assert(two_pow((k + 1) as nat) * two_pow((k + 1) as nat) == 4 * (t * t)) by (nonlinear_arith)
                requires
                    two_pow((k + 1) as nat) == 2 * t,
            ;
        }
        q = q * 4;
        k = k + 1;
    }
    q
}

/// Whether `penalty_matrix(n, d)` can be computed with `i64` entries: the
/// order fits the coefficients, and `(n - d) * 4^d` stays within `i64`.
pub fn penalty_fits(n: usize, d: usize) -> (ok: bool)
    ensures
        ok == (d <= n && d <= 62 && (n - d) * (two_pow(d as nat) * two_pow(d as nat)) <= i64::MAX),
{
    if d > n || d > 62 {
        return false;
    }
    let q = four_pow(d);
    let rows = (n - d) as u128;
    match rows.checked_mul(q) {
        Some(v) => v <= 0x7fff_ffff_ffff_ffffu128,
        None => false,
    }
}

/// Whether `tensor_penalty(p1, p2, d)` can be computed with `i64` entries:
/// the order fits both margins, and `(p1 - d + p2 - d) * 4^d` stays within
/// `i64`.
pub fn tensor_penalty_fits(p1: usize, p2: usize, d: usize) -> (ok: bool)
    ensures
        ok == (d <= p1 && d <= p2 && d <= 62 && (p1 - d) * (two_pow(d as nat) * two_pow(d as nat)) + (p2 - d) * (
        two_pow(d as nat) * two_pow(d as nat)) <= i64::MAX),
{
    if d > p1 || d > p2 || d > 62 {
        return false;
    }
    let q = four_pow(d);
    let rows = (p1 - d) as u128 + (p2 - d) as u128;
    proof {
        assert((p1 - d) * q + (p2 - d) * q == rows * q) by (nonlinear_arith)
            requires
                rows == (p1 - d) + (p2 - d),
        ;
    }
    match rows.checked_mul(q) {
        Some(v) => v <= 0x7fff_ffff_ffff_ffffu128,
        None => false,
    }
}

/// Sum of the first `n` entries of row `i` of `DᵀD` (over the first `rows`
/// rows of `D`).
pub open spec fn penalty_row_sum(d: nat, rows: nat, i: int, n: nat) -> int
    decreases n,
{
    if n == 0 {
        0
    } else {
        penalty_row_sum(d, rows, i, (n - 1) as nat) + penalty_entry(d, rows, i, n - 1)
    }
}

/// `Σ_{r < rows} D[r][i] · (sum of the first n entries of row r of D)`.
spec fn weighted_row_sums(d: nat, rows: nat, i: int, n: nat) -> int
    decreases rows,
{
    if rows == 0 {
        0
    } else {
        weighted_row_sums(d, (rows - 1) as nat, i, n) + diff_entry(d, rows - 1, i) * diff_row_sum(d, rows - 1, n)
    }
}

/// Extending every row sum by one column adds that column of `DᵀD`.
proof fn lemma_weighted_row_sums_step(d: nat, rows: nat, i: int, n: nat)
    requires
        n >= 1,
    ensures
        weighted_row_sums(d, rows, i, n) == weighted_row_sums(d, rows, i, (n - 1) as nat) + penalty_entry(d, rows, i, n - 1),
    decreases rows,
{
    if rows > 0 {
        lemma_weighted_row_sums_step(d, (rows - 1) as nat, i, n);
        let a = diff_entry(d, rows - 1, i);
        let x = diff_row_sum(d, rows - 1, (n - 1) as nat);
        let y = diff_entry(d, rows - 1, n - 1);
        assert(a * (x + y) == a * x + a * y) by (nonlinear_arith);
    }
}

/// Row sums of `DᵀD` are the row sums of `D` weighted by column `i` of `D`.
proof fn lemma_penalty_row_sum(d: nat, rows: nat, i: int, n: nat)
    ensures
        penalty_row_sum(d, rows, i, n) == weighted_row_sums(d, rows, i, n),
    decreases n,
{
    if n == 0 {
        lemma_weighted_row_sums_zero_cols(d, rows, i);
    } else {
        lemma_penalty_row_sum(d, rows, i, (n - 1) as nat);
        lemma_weighted_row_sums_step(d, rows, i, n);
    }
}

/// With no column, every weighted row sum is empty.
proof fn lemma_weighted_row_sums_zero_cols(d: nat, rows: nat, i: int)
    ensures
        weighted_row_sums(d, rows, i, 0) == 0,
    decreases rows,
{
    if rows > 0 {
        lemma_weighted_row_sums_zero_cols(d, (rows - 1) as nat, i);
    }
}

/// When every row of `D` sums to zero, so do the weighted sums.
proof fn lemma_weighted_row_sums_vanish(d: nat, rows: nat, i: int, n: nat)
    requires
        d >= 1,
        rows + d <= n,
    ensures
        weighted_row_sums(d, rows, i, n) == 0,
    decreases rows,
{
    if rows > 0 {
        lemma_weighted_row_sums_vanish(d, (rows - 1) as nat, i, n);
        law_difference_rows_sum_to_zero(n, d, rows - 1);
    }
}

/// The difference penalty of order one or more leaves constant coefficient
/// vectors unpenalized: every row of `K = DᵀD` sums to zero.
pub proof fn law_penalty_rows_sum_to_zero(n: nat, d: nat, i: int)
    requires
        1 <= d <= n,
    ensures
        penalty_row_sum(d, (n - d) as nat, i, n) == 0,
{
    lemma_penalty_row_sum(d, (n - d) as nat, i, n);
    lemma_weighted_row_sums_vanish(d, (n - d) as nat, i, n);
}

/// Entry `(i, j)` of the penalty of a tensor-product spline with `p1`
/// coefficients along the first feature and `p2` along the second,
/// `K1 ⊗ I + I ⊗ K2`: coefficient `i` pairs basis `i / p2` of the first
/// feature with basis `i % p2` of the second.
pub open spec fn tensor_penalty_entry(d: nat, p1: nat, p2: nat, i: int, j: int) -> int {
    let (a, b, c, e) = (i / p2 as int, i % p2 as int, j / p2 as int, j % p2 as int);
    (if b == e { penalty_entry(d, (p1 - d) as nat, a, c) } else { 0 }) + (if a == c {
        penalty_entry(d, (p2 - d) as nat, b, e)
    } else {
        0
    })
}

/// The entry of the tensor penalty at the coefficient pairs `(a, b)` and
/// `(c, e)`.
proof fn lemma_tensor_entry_at(d: nat, p1: nat, p2: nat, a: int, b: int, c: int, e: int)
    requires
        0 <= b < p2,
        0 <= e < p2,
    ensures
        tensor_penalty_entry(d, p1, p2, a * p2 + b, c * p2 + e) == (if b == e {
            penalty_entry(d, (p1 - d) as nat, a, c)
        } else {
            0
        }) + (if a == c { penalty_entry(d, (p2 - d) as nat, b, e) } else { 0 }),
{
    lemma_fundamental_div_mod_converse_div(a * p2 + b, p2 as int, a, b);
    lemma_fundamental_div_mod_converse_mod(a * p2 + b, p2 as int, a, b);
    lemma_fundamental_div_mod_converse_div(c * p2 + e, p2 as int, c, e);
    lemma_fundamental_div_mod_converse_mod(c * p2 + e, p2 as int, c, e);
}

/// The penalty `K1 ⊗ I + I ⊗ K2` of a tensor-product spline: order-`d`
/// difference penalties along both features, with `p1` and `p2`
/// coefficients, on the `p1 * p2` coefficients of the product basis.
pub fn tensor_penalty(p1: usize, p2: usize, d: usize) -> (k: Vec<Vec<i64>>)
    requires
        d <= p1,
        d <= p2,
        d <= 62,
        (p1 - d) * (two_pow(d as nat) * two_pow(d as nat)) + (p2 - d) * (two_pow(d as nat) * two_pow(d as nat)) <= i64::MAX,
    ensures
        k@.len() == p1 * p2,
        forall|i: int| 0 <= i < p1 * p2 ==> (#[trigger] k@[i])@.len() == p1 * p2,
        forall|i: int, j: int| 0 <= i < p1 * p2 && 0 <= j < p1 * p2 ==> #[trigger] k@[i]@[j] == tensor_penalty_entry(
            d as nat,
            p1 as nat,
            p2 as nat,
            i,
            j,
        ),
{
    let ghost q = two_pow(d as nat) * two_pow(d as nat);
    proof {
        lemma_two_pow_monotone(0, d as nat);
        assert(q >= 0) by (nonlinear_arith)
            requires
                q == two_pow(d as nat) * two_pow(d as nat),
        ;
    }
    let k1 = penalty_matrix(p1, d);
    let k2 = penalty_matrix(p2, d);
    let ghost n = p1 * p2;
    let mut out: Vec<Vec<i64>> = Vec::new();
    let mut a: usize = 0;
    while a < p1
        invariant
            a <= p1,
            d <= p1,
            d <= p2,
            q == two_pow(d as nat) * two_pow(d as nat),
            q >= 0,
            (p1 - d) * q + (p2 - d) * q <= i64::MAX,
            n == p1 * p2,
            k1@.len() == p1,
            forall|i: int| 0 <= i < p1 ==> (#[trigger] k1@[i])@.len() == p1,
            forall|i: int, j: int| 0 <= i < p1 && 0 <= j < p1 ==> #[trigger] k1@[i]@[j] == penalty_entry(d as nat, (p1 - d) as nat, i, j),
            k2@.len() == p2,
            forall|i: int| 0 <= i < p2 ==> (#[trigger] k2@[i])@.len() == p2,
            forall|i: int, j: int| 0 <= i < p2 && 0 <= j < p2 ==> #[trigger] k2@[i]@[j] == penalty_entry(d as nat, (p2 - d) as nat, i, j),
            out@.len() == a * p2,
            forall|i: int| 0 <= i < out@.len() ==> (#[trigger] out@[i])@.len() == n,
            forall|i: int, j: int| 0 <= i < out@.len() && 0 <= j < n ==> #[trigger] out@[i]@[j] == tensor_penalty_entry(
                d as nat,
                p1 as nat,
                p2 as nat,
                i,
                j,
            ),
        decreases p1 - a,
    {
        let mut b: usize = 0;
        while b < p2
            invariant
                a < p1,
                b <= p2,
                d <= p1,
                d <= p2,
                q == two_pow(d as nat) * two_pow(d as nat),
                q >= 0,
                (p1 - d) * q + (p2 - d) * q <= i64::MAX,
                n == p1 * p2,
                k1@.len() == p1,
                forall|i: int| 0 <= i < p1 ==> (#[trigger] k1@[i])@.len() == p1,
                forall|i: int, j: int| 0 <= i < p1 && 0 <= j < p1 ==> #[trigger] k1@[i]@[j] == penalty_entry(d as nat, (p1 - d) as nat, i, j),
                k2@.len() == p2,
                forall|i: int| 0 <= i < p2 ==> (#[trigger] k2@[i])@.len() == p2,
                forall|i: int, j: int| 0 <= i < p2 && 0 <= j < p2 ==> #[trigger] k2@[i]@[j] == penalty_entry(d as nat, (p2 - d) as nat, i, j),
                out@.len() == a * p2 + b,
                forall|i: int| 0 <= i < out@.len() ==> (#[trigger] out@[i])@.len() == n,
                forall|i: int, j: int| 0 <= i < out@.len() && 0 <= j < n ==> #[trigger] out@[i]@[j] == tensor_penalty_entry(
                    d as nat,
                    p1 as nat,
                    p2 as nat,
                    i,
                    j,
                ),
            decreases p2 - b,
        {
            let mut row: Vec<i64> = Vec::new();
            let mut c: usize = 0;
            while c < p1
                invariant
                    a < p1,
                    b < p2,
                    c <= p1,
                    d <= p1,
                    d <= p2,
                    q == two_pow(d as nat) * two_pow(d as nat),
                    q >= 0,
                    (p1 - d) * q + (p2 - d) * q <= i64::MAX,
                    k1@.len() == p1,
                    forall|i: int| 0 <= i < p1 ==> (#[trigger] k1@[i])@.len() == p1,
                    forall|i: int, j: int| 0 <= i < p1 && 0 <= j < p1 ==> #[trigger] k1@[i]@[j] == penalty_entry(d as nat, (p1 - d) as nat, i, j),
                    k2@.len() == p2,
                    forall|i: int| 0 <= i < p2 ==> (#[trigger] k2@[i])@.len() == p2,
                    forall|i: int, j: int| 0 <= i < p2 && 0 <= j < p2 ==> #[trigger] k2@[i]@[j] == penalty_entry(d as nat, (p2 - d) as nat, i, j),
                    row@.len() == c * p2,
                    forall|j: int| 0 <= j < row@.len() ==> #[trigger] row@[j] == tensor_penalty_entry(
                        d as nat,
                        p1 as nat,
                        p2 as nat,
                        a * p2 + b,
                        j,
                    ),
                decreases p1 - c,
            {
                let mut e: usize = 0;
                while e < p2
                    invariant
                        a < p1,
                        b < p2,
                        c < p1,
                        e <= p2,
                        d <= p1,
                        d <= p2,
                        q == two_pow(d as nat) * two_pow(d as nat),
                        q >= 0,
                        (p1 - d) * q + (p2 - d) * q <= i64::MAX,
                        k1@.len() == p1,
                        forall|i: int| 0 <= i < p1 ==> (#[trigger] k1@[i])@.len() == p1,
                        forall|i: int, j: int| 0 <= i < p1 && 0 <= j < p1 ==> #[trigger] k1@[i]@[j] == penalty_entry(d as nat, (p1 - d) as nat, i, j),
                        k2@.len() == p2,
                        forall|i: int| 0 <= i < p2 ==> (#[trigger] k2@[i])@.len() == p2,
                        forall|i: int, j: int| 0 <= i < p2 && 0 <= j < p2 ==> #[trigger] k2@[i]@[j] == penalty_entry(d as nat, (p2 - d) as nat, i, j),
                        row@.len() == c * p2 + e,
                        forall|j: int| 0 <= j < row@.len() ==> #[trigger] row@[j] == tensor_penalty_entry(
                            d as nat,
                            p1 as nat,
                            p2 as nat,
                            a * p2 + b,
                            j,
                        ),
                    decreases p2 - e,
                {
                    let ghost t1 = penalty_entry(d as nat, (p1 - d) as nat, a as int, c as int);
                    let ghost t2 = penalty_entry(d as nat, (p2 - d) as nat, b as int, e as int);
                    proof {
                        assert(k1@[a as int]@[c as int] == t1);
                        assert(k2@[b as int]@[e as int] == t2);
                        lemma_penalty_entry_bound(d as nat, (p1 - d) as nat, a as int, c as int);
                        lemma_penalty_entry_bound(d as nat, (p2 - d) as nat, b as int, e as int);
                        lemma_tensor_entry_at(d as nat, p1 as nat, p2 as nat, a as int, b as int, c as int, e as int);
                    }
                    let v1: i64 = if b == e { k1[a][c] } else { 0 };
                    let v2: i64 = if a == c { k2[b][e] } else { 0 };
                    row.push(v1 + v2);
                    e = e + 1;
                }
                proof {
                    assert(c * p2 + p2 == (c + 1) * p2) by (nonlinear_arith);
                }
                c = c + 1;
            }
            proof {
                assert(p1 * p2 == n);
                assert(a * p2 + b < n) by (nonlinear_arith)
                    requires
                        a < p1,
                        b < p2,
                        n == p1 * p2,
                ;
            }
            out.push(row);
            b = b + 1;
        }
        proof {
            assert(a * p2 + p2 == (a + 1) * p2) by (nonlinear_arith);
        }
        a = a + 1;
    }
    out
}

/// The tensor-product penalty is symmetric.
pub proof fn law_tensor_penalty_symmetric(d: nat, p1: nat, p2: nat, i: int, j: int)
    ensures
        tensor_penalty_entry(d, p1, p2, i, j) == tensor_penalty_entry(d, p1, p2, j, i),
{
    law_penalty_symmetric(d, (p1 - d) as nat, i / p2 as int, j / p2 as int);
    law_penalty_symmetric(d, (p2 - d) as nat, i % p2 as int, j % p2 as int);
}

} // verus!
