use vstd::prelude::*;
use crate::data::{DenseMatrix, DesignMatrix, SparseMatrix, csc_position_ok, lemma_csc_entry_uniform};
use crate::data::filled;
use crate::engine::{is_max_or, max_or};

verus! {

/// Number of codes in `s` that are below `k`.
pub open spec fn count_below(s: Seq<usize>, k: int) -> nat
    decreases s.len(),
{
    if s.len() == 0 {
        0
    } else {
        count_below(s.drop_last(), k) + if s.last() < k { 1nat } else { 0nat }
    }
}

/// Number of codes in `s` equal to `c`.
pub open spec fn count_equal(s: Seq<usize>, c: int) -> nat
    decreases s.len(),
{
    if s.len() == 0 {
        0
    } else {
        count_equal(s.drop_last(), c) + if s.last() == c { 1nat } else { 0nat }
    }
}

/// Position of observation `r` in the group-indicator CSC layout: the groups
/// are laid out in increasing code order, and inside a group the observations
/// keep their order.
pub open spec fn group_position(codes: Seq<usize>, r: int) -> int {
    (count_below(codes, codes[r] as int) + count_equal(codes.take(r), codes[r] as int)) as int
}

/// Counting the codes below `k + 1` adds the codes equal to `k`.
pub proof fn lemma_count_below_step(s: Seq<usize>, k: int)
    ensures
        count_below(s, k + 1) == count_below(s, k) + count_equal(s, k),
    decreases s.len(),
{
    if s.len() > 0 {
        lemma_count_below_step(s.drop_last(), k);
    }
}

/// `count_below` grows with its bound and never exceeds the length.
pub proof fn lemma_count_below_monotone(s: Seq<usize>, k: int, k2: int)
    requires
        k <= k2,
    ensures
        count_below(s, k) <= count_below(s, k2) <= s.len(),
    decreases s.len(),
{
    if s.len() > 0 {
        lemma_count_below_monotone(s.drop_last(), k, k2);
    }
}

/// When every code is at most `m`, all of them are below `m + 1`.
pub proof fn lemma_count_below_all(s: Seq<usize>, m: int)
    requires
        forall|i: int| 0 <= i < s.len() ==> s[i] <= m,
    ensures
        count_below(s, m + 1) == s.len(),
    decreases s.len(),
{
    if s.len() > 0 {
        lemma_count_below_all(s.drop_last(), m);
    }
}

/// No code is below zero.
pub proof fn lemma_count_below_zero(s: Seq<usize>)
    ensures
        count_below(s, 0) == 0,
    decreases s.len(),
{
    if s.len() > 0 {
        lemma_count_below_zero(s.drop_last());
    }
}

/// Extending a prefix by one element adds that element to the count.
pub proof fn lemma_count_equal_take(s: Seq<usize>, r: int, c: int)
    requires
        0 <= r < s.len(),
    ensures
        count_equal(s.take(r + 1), c) == count_equal(s.take(r), c) + if s[r] == c { 1nat } else { 0nat },
{
    assert(s.take(r + 1).drop_last() =~= s.take(r));
}

/// Counts over prefixes grow with the prefix.
pub proof fn lemma_count_equal_prefix(s: Seq<usize>, r: int, r2: int, c: int)
    requires
        0 <= r <= r2 <= s.len(),
    ensures
        count_equal(s.take(r), c) <= count_equal(s.take(r2), c),
    decreases r2 - r,
{
    if r < r2 {
        lemma_count_equal_prefix(s, r, r2 - 1, c);
        lemma_count_equal_take(s, r2 - 1, c);
    }
}

/// An observation of group `c` sits strictly inside its group's block.
pub proof fn lemma_group_position_bounds(codes: Seq<usize>, r: int)
    requires
        0 <= r < codes.len(),
    ensures
        count_below(codes, codes[r] as int) <= group_position(codes, r) < count_below(codes, codes[r] + 1),
{
    let c = codes[r] as int;
    lemma_count_equal_take(codes, r, c);
    lemma_count_equal_prefix(codes, r + 1, codes.len() as int, c);
    assert(codes.take(codes.len() as int) =~= codes);
    lemma_count_below_step(codes, c);
}

/// Two observations never share a position.
pub proof fn lemma_group_position_injective(codes: Seq<usize>, r1: int, r2: int)
    requires
        0 <= r1 < r2 < codes.len(),
    ensures
        group_position(codes, r1) != group_position(codes, r2),
{
    let c1 = codes[r1] as int;
    let c2 = codes[r2] as int;
    lemma_group_position_bounds(codes, r1);
    lemma_group_position_bounds(codes, r2);
    if c1 == c2 {
        lemma_count_equal_take(codes, r1, c1);
        lemma_count_equal_prefix(codes, r1 + 1, r2, c1);
    } else if c1 < c2 {
        lemma_count_below_monotone(codes, c1 + 1, c2);
    } else {
        lemma_count_below_monotone(codes, c2 + 1, c1);
    }
}

/// No group holds more codes than the sequence has.
pub proof fn lemma_count_equal_le_len(s: Seq<usize>, c: int)
    ensures
        count_equal(s, c) <= s.len(),
    decreases s.len(),
{
    if s.len() > 0 {
        lemma_count_equal_le_len(s.drop_last(), c);
    }
}

/// `m` is the group-indicator layout of `codes`, with `one` as the stored
/// value: one column per code from zero to the largest code, the columns'
/// blocks in code order, each observation in its group's block in
/// observation order, and nothing else stored.
pub open spec fn group_layout<T>(codes: Seq<usize>, m: SparseMatrix<T>, one: T) -> bool {
    let n = codes.len();
    let ncols = m.shape.1;
    &&& m.shape.0 == n
    &&& ncols >= 1
    &&& is_max_or(codes, 0, (ncols - 1) as usize)
    &&& m.data@ == Seq::new(n, |i: int| one)
    &&& m.indptr@.len() == ncols + 1
    &&& forall|k: int| 0 <= k <= ncols ==> #[trigger] m.indptr@[k] == count_below(codes, k)
    &&& m.indices@.len() == n
    &&& forall|r: int| 0 <= r < n ==> #[trigger] m.indices@[group_position(codes, r)] == r
    &&& forall|c: int, p: int| 0 <= c < ncols && m.indptr@[c] <= p < m.indptr@[c + 1]
        ==> #[trigger] block_holds(codes, m.indices@, c, p)
}

/// Position `p` holds an observation of group `c`.
pub open spec fn block_holds(codes: Seq<usize>, indices: Seq<usize>, c: int, p: int) -> bool {
    0 <= p < indices.len() && indices[p] < codes.len() && codes[indices[p] as int] == c
}

/// Design matrix of a grouping variable: column `c` indicates the
/// observations whose group code is `c`, for every code from zero to the
/// largest one, stored compressed by columns with `one` as the stored value.
/// Without observations the design is the empty dense matrix.
pub fn random_effects_design<T: Copy>(codes: &Vec<usize>, one: T) -> (d: DesignMatrix<T>)
    requires
        forall|i: int| 0 <= i < codes@.len() ==> codes@[i] < usize::MAX,
    ensures
        codes@.len() == 0 ==> (d matches DesignMatrix::Dense(m) && m.wf() && m.rows() == 0 && m.cols() == 0),
        codes@.len() > 0 ==> (d matches DesignMatrix::Csc(m) && group_layout(codes@, m, one)),
{
    let n = codes.len();
    if n == 0 {
        return DesignMatrix::Dense(DenseMatrix::empty());
    }
    let max_code = max_or(codes, 0);
    let ncols = max_code + 1;
    proof {
        lemma_count_below_all(codes@, max_code as int);
    }

    let mut counts = filled(ncols, 0usize);
    let mut r: usize = 0;
    while r < n
        invariant
            n == codes@.len(),
            r <= n,
            ncols == max_code + 1,
            forall|i: int| 0 <= i < n ==> codes@[i] <= max_code,
            counts@.len() == ncols,
            forall|c: int| 0 <= c < ncols ==> #[trigger] counts@[c] == count_equal(codes@.take(r as int), c),
        decreases n - r,
    {
        let c = codes[r];
        proof {
            lemma_count_equal_le_len(codes@.take(r as int), c as int);
            assert forall|k: int| 0 <= k < ncols implies count_equal(codes@.take(r + 1), k) == count_equal(codes@.take(r as int), k) + if k == c { 1nat } else { 0nat } by {
                lemma_count_equal_take(codes@, r as int, k);
            }
        }
        let updated = counts[c] + 1;
        counts.set(c, updated);
        r = r + 1;
    }
    assert(codes@.take(n as int) =~= codes@);

    let mut indptr: Vec<usize> = Vec::new();
    indptr.push(0);
    proof {
        lemma_count_below_zero(codes@);
    }
    let mut current: usize = 0;
    let mut c: usize = 0;
    while c < ncols
        invariant
            n == codes@.len(),
            c <= ncols,
            ncols == max_code + 1,
            count_below(codes@, ncols as int) == n,
            counts@.len() == ncols,
            forall|k: int| 0 <= k < ncols ==> #[trigger] counts@[k] == count_equal(codes@, k),
            indptr@.len() == c + 1,
            current == count_below(codes@, c as int),
            forall|k: int| 0 <= k <= c ==> #[trigger] indptr@[k] == count_below(codes@, k),
        decreases ncols - c,
    {
        proof {
            lemma_count_below_step(codes@, c as int);
            lemma_count_below_monotone(codes@, c + 1, ncols as int);
        }
        current = current + counts[c];
        indptr.push(current);
        c = c + 1;
    }

    let mut offsets = indptr.clone();
    let mut indices = filled(n, 0usize);
    let mut r: usize = 0;
    while r < n
        invariant
            n == codes@.len(),
            r <= n,
            ncols == max_code + 1,
            forall|i: int| 0 <= i < n ==> codes@[i] <= max_code,
            count_below(codes@, ncols as int) == n,
            indptr@.len() == ncols + 1,
            forall|k: int| 0 <= k <= ncols ==> #[trigger] indptr@[k] == count_below(codes@, k),
            offsets@.len() == ncols + 1,
            forall|k: int| 0 <= k < ncols ==> #[trigger] offsets@[k] == indptr@[k] + count_equal(codes@.take(r as int), k),
            indices@.len() == n,
            forall|i: int| 0 <= i < r ==> #[trigger] indices@[group_position(codes@, i)] == i,
            forall|k: int, p: int| 0 <= k < ncols && indptr@[k] <= p < offsets@[k] ==> #[trigger] block_holds(codes@, indices@, k, p),
        decreases n - r,
    {
        let col = codes[r];
        let o = offsets[col];
        proof {
            lemma_group_position_bounds(codes@, r as int);
            assert(o == group_position(codes@, r as int));
            lemma_count_below_monotone(codes@, col + 1, ncols as int);
        }
        let ghost before = indices@;
        let ghost offsets_before = offsets@;
        indices.set(o, r);
        offsets.set(col, o + 1);
        proof {
            assert forall|i: int| 0 <= i < r + 1 implies #[trigger] indices@[group_position(codes@, i)] == i by {
                lemma_group_position_bounds(codes@, i);
                lemma_count_below_monotone(codes@, codes@[i] + 1, ncols as int);
                if i < r {
                    lemma_group_position_injective(codes@, i, r as int);
                    assert(indices@[group_position(codes@, i)] == before[group_position(codes@, i)]);
                }
            }
            assert forall|k: int| 0 <= k < ncols implies #[trigger] offsets@[k] == indptr@[k] + count_equal(codes@.take(r + 1), k) by {
                lemma_count_equal_take(codes@, r as int, k);
            }
            assert forall|k: int, p: int| 0 <= k < ncols && indptr@[k] <= p < offsets@[k] implies #[trigger] block_holds(codes@, indices@, k, p) by {
                if p == o {
                    if k < col {
                        lemma_count_equal_take(codes@, r as int, k);
                        lemma_count_equal_prefix(codes@, r + 1, n as int, k);
                        assert(codes@.take(n as int) =~= codes@);
                        lemma_count_below_step(codes@, k);
                        lemma_count_below_monotone(codes@, k + 1, col as int);
                    } else if k > col {
                        lemma_count_below_monotone(codes@, col + 1, k);
                    }
                } else {
                    assert(block_holds(codes@, before, k, p));
                }
            }
        }
        r = r + 1;
    }
    proof {
        assert forall|k: int, p: int| 0 <= k < ncols && indptr@[k] <= p < indptr@[k + 1] implies #[trigger] block_holds(codes@, indices@, k, p) by {
            assert(codes@.take(n as int) =~= codes@);
            lemma_count_below_step(codes@, k);
        }
    }
    let data = filled(n, one);
    let m = SparseMatrix { data, indices, indptr, shape: (n, ncols) };
    DesignMatrix::Csc(m)
}

/// Column `c` of the group design of `codes` can be read, and reads `one`
/// exactly at the observations whose code is `c`, `zero` at all others.
pub proof fn law_group_column<T>(codes: Seq<usize>, m: SparseMatrix<T>, one: T, zero: T, c: usize, r: int)
    requires
        group_layout(codes, m, one),
        c < m.shape.1,
        0 <= r < codes.len(),
    ensures
        DesignMatrix::Csc(m).readable(c),
        DesignMatrix::Csc(m).entry(r, c, zero) == if codes[r] == c { one } else { zero },
{
    let start = m.indptr@[c as int] as int;
    let end = m.indptr@[c + 1] as int;
    assert forall|p: int| start <= p < end implies #[trigger] csc_position_ok(m, p) by {
        assert(block_holds(codes, m.indices@, c as int, p));
    }
    assert forall|p: int| start <= p < end implies #[trigger] m.data@[p] == one by {
        assert(block_holds(codes, m.indices@, c as int, p));
    }
    lemma_count_below_monotone(codes, c as int, c + 1);
    lemma_count_below_monotone(codes, 0, c as int);
    lemma_count_below_monotone(codes, c + 1, m.shape.1 as int);
    lemma_csc_entry_uniform(m, start, end, r as usize, zero, one);
    if codes[r] == c {
        lemma_group_position_bounds(codes, r);
        assert(m.indices@[group_position(codes, r)] == r);
    } else {
        if exists|p: int| start <= p < end && m.indices@[p] == r as usize {
            let p = choose|p: int| start <= p < end && m.indices@[p] == r as usize;
            assert(block_holds(codes, m.indices@, c as int, p));
        }
    }
}

/// `0, 1, .., n - 1`.
fn index_range(n: usize) -> (v: Vec<usize>)
    ensures
        v@ == Seq::new(n as nat, |i: int| i as usize),
{
    let mut v: Vec<usize> = Vec::new();
    let mut i: usize = 0;
    while i < n
        invariant
            i <= n,
            v@ == Seq::new(i as nat, |k: int| k as usize),
        decreases n - i,
    {
        v.push(i);
        proof {
            assert(v@ =~= Seq::new((i + 1) as nat, |k: int| k as usize));
        }
        i = i + 1;
    }
    v
}

/// `m` is the `n`-by-`n` identity with `one` on the diagonal, compressed by
/// columns.
pub open spec fn identity_layout<T>(m: SparseMatrix<T>, n: nat, one: T) -> bool {
    &&& n < usize::MAX
    &&& m.shape == (n as usize, n as usize)
    &&& m.indptr@ == Seq::new(n + 1, |i: int| i as usize)
    &&& m.indices@ == Seq::new(n, |i: int| i as usize)
    &&& m.data@ == Seq::new(n, |i: int| one)
}

/// Penalty of the group effects: the identity over `n_cols` groups,
/// compressed by columns.
pub fn random_effects_penalty<T: Copy>(n_cols: usize, one: T) -> (d: DesignMatrix<T>)
    requires
        n_cols < usize::MAX,
    ensures
        d matches DesignMatrix::Csc(m) && identity_layout(m, n_cols as nat, one),
{
    let indptr = index_range(n_cols + 1);
    let indices = index_range(n_cols);
    let data = filled(n_cols, one);
    DesignMatrix::Csc(SparseMatrix { data, indices, indptr, shape: (n_cols, n_cols) })
}

/// Column `c` of the identity can be read, and reads `one` on the diagonal
/// and `zero` elsewhere.
pub proof fn law_identity_column<T>(m: SparseMatrix<T>, n: nat, one: T, zero: T, c: usize, r: int)
    requires
        identity_layout(m, n, one),
        c < n,
        0 <= r < n,
    ensures
        DesignMatrix::Csc(m).readable(c),
        DesignMatrix::Csc(m).entry(r, c, zero) == if r == c { one } else { zero },
{
    assert(m.indptr@[c as int] == c);
    assert(m.indptr@[c + 1] == c + 1);
    assert(csc_position_ok(m, c as int));
    lemma_csc_entry_uniform(m, c as int, c + 1, r as usize, zero, one);
    assert(m.data@[c as int] == one);
    assert(m.indices@[c as int] == c);
}

} // verus!
