use vstd::prelude::*;
use crate::error::{decimal, decimal_text, text, BoostlssError};

verus! {

/// A compressed sparse matrix: `data[i]` sits at row (CSC) or column (CSR)
/// `indices[i]`; the entries of column (CSC) or row (CSR) `k` are at
/// positions `indptr[k]..indptr[k + 1]`.
#[derive(Debug)]
pub struct SparseMatrix<T> {
    pub data: Vec<T>,
    pub indices: Vec<usize>,
    pub indptr: Vec<usize>,
    pub shape: (usize, usize),
}

impl<T: Clone> Clone for SparseMatrix<T> {
    fn clone(&self) -> (r: Self)
        ensures
            r.shape == self.shape,
            r.indices@ == self.indices@,
            r.indptr@ == self.indptr@,
            r.data@.len() == self.data@.len(),
            forall|i: int| 0 <= i < self.data@.len() ==> cloned::<T>(self.data@[i], #[trigger] r.data@[i]),
    {
        SparseMatrix {
            data: self.data.clone(),
            indices: self.indices.clone(),
            indptr: self.indptr.clone(),
            shape: self.shape,
        }
    }
}

/// The first structural problem of a compressed sparse matrix, checked in
/// this order: data and indices lengths differ, `indptr` is empty, `indptr`
/// fits neither a CSR nor a CSC layout, or its last entry is not the number
/// of stored entries.
pub open spec fn sparse_problem(data_len: nat, indices_len: nat, indptr: Seq<usize>, shape: (usize, usize)) -> Option<Seq<char>> {
    if data_len != indices_len {
        Some("Data and indices must have the same length"@)
    } else if indptr.len() == 0 {
        Some("indptr must not be empty"@)
    } else if indptr.len() != shape.0 + 1 && indptr.len() != shape.1 + 1 {
        Some("indptr length does not match expected length for CSR or CSC format"@)
    } else if indptr.last() != data_len {
        Some("Last element of indptr must equal the number of non-zero elements"@)
    } else {
        None
    }
}

impl<T> SparseMatrix<T> {
    /// Builds a compressed sparse matrix after checking its structure.
    pub fn new(data: Vec<T>, indices: Vec<usize>, indptr: Vec<usize>, shape: (usize, usize)) -> (r: Result<Self, BoostlssError>)
        ensures
            r is Ok <==> sparse_problem(data@.len(), indices@.len(), indptr@, shape) is None,
            r matches Ok(m) ==> m.data@ == data@ && m.indices@ == indices@ && m.indptr@ == indptr@ && m.shape == shape,
            r matches Err(e) ==> e is DataError && Some(e.detail()) == sparse_problem(data@.len(), indices@.len(), indptr@, shape),
    {
        if data.len() != indices.len() {
            return Err(BoostlssError::DataError(text("Data and indices must have the same length")));
        }
        if indptr.len() == 0 {
            return Err(BoostlssError::DataError(text("indptr must not be empty")));
        }
        let m = indptr.len() - 1;
        if m != shape.0 && m != shape.1 {
            return Err(BoostlssError::DataError(
                text("indptr length does not match expected length for CSR or CSC format"),
            ));
        }
        if indptr[indptr.len() - 1] != data.len() {
            return Err(BoostlssError::DataError(
                text("Last element of indptr must equal the number of non-zero elements"),
            ));
        }
        Ok(SparseMatrix { data, indices, indptr, shape })
    }
}

/// A dense matrix stored row by row.
#[derive(Debug, Clone)]
pub struct DenseMatrix<T> {
    data: Vec<T>,
    nrows: usize,
    ncols: usize,
}

impl<T> DenseMatrix<T> {
    /// Number of rows.
    pub closed spec fn rows(self) -> nat {
        self.nrows as nat
    }

    /// Number of columns.
    pub closed spec fn cols(self) -> nat {
        self.ncols as nat
    }

    /// Entry at row `r`, column `c`.
    pub closed spec fn at(self, r: int, c: int) -> T {
        self.data@[r * self.ncols + c]
    }

    /// The stored entries fill the shape exactly.
    pub closed spec fn wf(self) -> bool {
        self.data@.len() == self.nrows * self.ncols
    }

    /// Builds a matrix from its entries listed row by row.
    pub fn from_row_major(nrows: usize, ncols: usize, data: Vec<T>) -> (r: Result<Self, BoostlssError>)
        ensures
            r is Ok <==> data@.len() == nrows * ncols,
            r matches Ok(m) ==> m.wf() && m.rows() == nrows && m.cols() == ncols
                && forall|i: int, j: int| 0 <= i < nrows && 0 <= j < ncols ==> #[trigger] m.at(i, j) == data@[i * ncols + j],
            r matches Err(e) ==> e is DataError && e.detail() == "Data length does not match the matrix shape"@,
    {
        match nrows.checked_mul(ncols) {
            Some(size) => {
                if data.len() == size {
                    Ok(DenseMatrix { data, nrows, ncols })
                } else {
                    Err(BoostlssError::DataError(text("Data length does not match the matrix shape")))
                }
            },
            None => {
                let len = data.len();
                assert(len != nrows * ncols);
                Err(BoostlssError::DataError(text("Data length does not match the matrix shape")))
            },
        }
    }

    /// The matrix with no rows and no columns.
    pub fn empty() -> (m: Self)
        ensures
            m.wf(),
            m.rows() == 0,
            m.cols() == 0,
    {
        DenseMatrix { data: Vec::new(), nrows: 0, ncols: 0 }
    }

    /// Number of rows.
    pub fn nrows(&self) -> (r: usize)
        ensures
            r == self.rows(),
    {
        self.nrows
    }

    /// Number of columns.
    pub fn ncols(&self) -> (r: usize)
        ensures
            r == self.cols(),
    {
        self.ncols
    }
}

/// `r * ncols + c` addresses an entry inside an `nrows`-by-`ncols` layout.
pub proof fn lemma_row_major_index(r: int, c: int, nrows: int, ncols: int)
    requires
        0 <= r < nrows,
        0 <= c < ncols,
    ensures
        0 <= r * ncols + c < nrows * ncols,
{
    assert(0 <= r * ncols + c < nrows * ncols) by (nonlinear_arith)
        requires
            0 <= r < nrows,
            0 <= c < ncols,
    ;
}

impl<T: Copy> DenseMatrix<T> {
    /// Entry at row `r`, column `c`.
    pub fn get(&self, r: usize, c: usize) -> (v: T)
        requires
            self.wf(),
            r < self.rows(),
            c < self.cols(),
        ensures
            v == self.at(r as int, c as int),
    {
        let len = self.data.len();
        proof {
            lemma_row_major_index(r as int, c as int, self.nrows as int, self.ncols as int);
            assert(r * self.ncols + c < len);
            assert(r * self.ncols <= r * self.ncols + c);
        }
        self.data[r * self.ncols + c]
    }

    /// Column `c` as a vector.
    pub fn column(&self, c: usize) -> (v: Vec<T>)
        requires
            self.wf(),
            c < self.cols(),
        ensures
            v@.len() == self.rows(),
            forall|r: int| 0 <= r < self.rows() ==> #[trigger] v@[r] == self.at(r, c as int),
    {
        let mut v: Vec<T> = Vec::new();
        let mut r: usize = 0;
        while r < self.nrows
            invariant
                self.wf(),
                c < self.cols(),
                r <= self.nrows,
                v@.len() == r,
                forall|i: int| 0 <= i < r ==> #[trigger] v@[i] == self.at(i, c as int),
            decreases self.nrows - r,
        {
            v.push(self.get(r, c));
            r = r + 1;
        }
        v
    }

    /// The rows listed in `rows`, in that order. Fails when a listed row does
    /// not exist.
    pub fn select_rows(&self, rows: &Vec<usize>) -> (out: Result<DenseMatrix<T>, BoostlssError>)
        requires
            self.wf(),
        ensures
            out is Ok <==> forall|i: int| 0 <= i < rows@.len() ==> #[trigger] rows@[i] < self.rows(),
            out matches Ok(m) ==> m.wf() && m.rows() == rows@.len() && m.cols() == self.cols()
                && forall|i: int, j: int| 0 <= i < rows@.len() && 0 <= j < self.cols() ==> #[trigger] m.at(i, j) == self.at(rows@[i] as int, j),
            out matches Err(e) ==> e is DataError && e.detail() == "Index out of bounds"@,
    {
        let mut data: Vec<T> = Vec::new();
        let mut i: usize = 0;
        while i < rows.len()
            invariant
                self.wf(),
                i <= rows.len(),
                forall|a: int| 0 <= a < i ==> #[trigger] rows@[a] < self.rows(),
                data@.len() == i * self.ncols,
                forall|a: int, j: int| 0 <= a < i && 0 <= j < self.ncols ==> #[trigger] data@[a * self.ncols + j] == self.at(rows@[a] as int, j),
            decreases rows.len() - i,
        {
            let src = rows[i];
            if src >= self.nrows {
                return Err(BoostlssError::DataError(text("Index out of bounds")));
            }
            let ghost before = data@;
            let mut j: usize = 0;
            while j < self.ncols
                invariant
                    self.wf(),
                    src < self.rows(),
                    j <= self.ncols,
                    data@.len() == i * self.ncols + j,
                    data@.subrange(0, i * self.ncols) == before,
                    before.len() == i * self.ncols,
                    forall|k: int| 0 <= k < j ==> #[trigger] data@[i * self.ncols + k] == self.at(src as int, k),
                decreases self.ncols - j,
            {
                proof {
                    assert(data@.push(self.at(src as int, j as int)).subrange(0, i * self.ncols) =~= data@.subrange(0, i * self.ncols));
                }
                data.push(self.get(src, j));
                j = j + 1;
            }
            proof {
                assert forall|a: int, k: int| 0 <= a < i + 1 && 0 <= k < self.ncols implies #[trigger] data@[a * self.ncols + k] == self.at(rows@[a] as int, k) by {
                    if a < i {
                        lemma_row_major_index(a, k, i as int, self.ncols as int);
                        assert(data@.subrange(0, i * self.ncols)[a * self.ncols + k] == before[a * self.ncols + k]);
                    }
                }
                assert((i + 1) * self.ncols == i * self.ncols + self.ncols) by (nonlinear_arith);
            }
            i = i + 1;
        }
        let m = DenseMatrix { data, nrows: rows.len(), ncols: self.ncols };
        Ok(m)
    }
}

/// The entries of `v` at the positions listed in `idx`, in that order.
pub fn gather<T: Copy>(v: &Vec<T>, idx: &Vec<usize>) -> (out: Vec<T>)
    requires
        forall|i: int| 0 <= i < idx@.len() ==> #[trigger] idx@[i] < v@.len(),
    ensures
        out@.len() == idx@.len(),
        forall|i: int| 0 <= i < idx@.len() ==> #[trigger] out@[i] == v@[idx@[i] as int],
{
    let mut out: Vec<T> = Vec::new();
    let mut i: usize = 0;
    while i < idx.len()
        invariant
            i <= idx.len(),
            forall|a: int| 0 <= a < idx@.len() ==> #[trigger] idx@[a] < v@.len(),
            out@.len() == i,
            forall|a: int| 0 <= a < i ==> #[trigger] out@[a] == v@[idx@[a] as int],
        decreases idx.len() - i,
    {
        out.push(v[idx[i]]);
        i = i + 1;
    }
    out
}

/// Value a CSC column takes at row `r` when positions `start..end` are written
/// in order: the last stored entry for row `r` wins, `zero` when there is none.
pub open spec fn csc_entry<T>(m: SparseMatrix<T>, start: int, end: int, r: usize, zero: T) -> T
    decreases end - start,
{
    if end <= start {
        zero
    } else if m.indices@[end - 1] == r {
        m.data@[end - 1]
    } else {
        csc_entry(m, start, end - 1, r, zero)
    }
}

/// When every stored value in `start..end` is `one`, a CSC column reads `one`
/// at the rows listed there and `zero` elsewhere.
pub proof fn lemma_csc_entry_uniform<T>(m: SparseMatrix<T>, start: int, end: int, r: usize, zero: T, one: T)
    requires
        0 <= start,
        end <= m.data@.len(),
        forall|p: int| start <= p < end ==> #[trigger] m.data@[p] == one,
    ensures
        csc_entry(m, start, end, r, zero) == if (exists|p: int| start <= p < end && m.indices@[p] == r) {
            one
        } else {
            zero
        },
    decreases end - start,
{
    if end > start {
        assert(m.data@[end - 1] == one);
        if m.indices@[end - 1] != r {
            lemma_csc_entry_uniform(m, start, end - 1, r, zero, one);
            if exists|p: int| start <= p < end && m.indices@[p] == r {
                let p = choose|p: int| start <= p < end && m.indices@[p] == r;
                assert(start <= p < end - 1);
            }
        }
    }
}

/// Value of a CSR row at column `c` found by scanning positions `i..end`: the
/// first stored entry for column `c`, `zero` when there is none.
pub open spec fn csr_entry<T>(m: SparseMatrix<T>, i: int, end: int, c: usize, zero: T) -> T
    decreases end - i,
{
    if i >= end {
        zero
    } else if m.indices@[i] == c {
        m.data@[i]
    } else {
        csr_entry(m, i + 1, end, c, zero)
    }
}

/// Scanning positions `i..end` of a CSR row for column `c` stays inside the
/// stored arrays until the first match.
pub open spec fn csr_scan_ok<T>(m: SparseMatrix<T>, i: int, end: int, c: usize) -> bool
    decreases end - i,
{
    i >= end || (0 <= i < m.indices@.len() && (m.indices@[i] == c ==> i < m.data@.len()) && (m.indices@[i] != c
        ==> csr_scan_ok(m, i + 1, end, c)))
}

/// Column `c` of a CSC matrix can be read: its position range exists, and
/// every position in it holds a stored entry for an existing row.
pub open spec fn csc_readable<T>(m: SparseMatrix<T>, c: usize) -> bool {
    &&& c + 1 < m.indptr@.len()
    &&& forall|i: int| m.indptr@[c as int] <= i < m.indptr@[c + 1] ==> #[trigger] csc_position_ok(m, i)
}

/// Position `i` holds a stored entry for an existing row.
pub open spec fn csc_position_ok<T>(m: SparseMatrix<T>, i: int) -> bool {
    0 <= i < m.indices@.len() && i < m.data@.len() && m.indices@[i] < m.shape.0
}

/// Column `c` of a CSR matrix can be read: every row's position range exists
/// and scanning it for column `c` stays inside the stored arrays.
pub open spec fn csr_readable<T>(m: SparseMatrix<T>, c: usize) -> bool {
    forall|r: int| 0 <= r < m.shape.0 ==> #[trigger] csr_row_readable(m, r, c)
}

/// Row `r` of a CSR matrix has a position range, and scanning it for column
/// `c` stays inside the stored arrays.
pub open spec fn csr_row_readable<T>(m: SparseMatrix<T>, r: int, c: usize) -> bool {
    r + 1 < m.indptr@.len() && csr_scan_ok(m, m.indptr@[r] as int, m.indptr@[r + 1] as int, c)
}

/// A design matrix: dense, or compressed by rows (CSR) or columns (CSC).
#[derive(Debug, Clone)]
pub enum DesignMatrix<T> {
    Dense(DenseMatrix<T>),
    Csr(SparseMatrix<T>),
    Csc(SparseMatrix<T>),
}

impl<T> DesignMatrix<T> {
    /// Number of rows.
    pub open spec fn rows(&self) -> nat {
        match self {
            DesignMatrix::Dense(m) => m.rows(),
            DesignMatrix::Csr(m) => m.shape.0 as nat,
            DesignMatrix::Csc(m) => m.shape.0 as nat,
        }
    }

    /// Number of columns.
    pub open spec fn cols(&self) -> nat {
        match self {
            DesignMatrix::Dense(m) => m.cols(),
            DesignMatrix::Csr(m) => m.shape.1 as nat,
            DesignMatrix::Csc(m) => m.shape.1 as nat,
        }
    }

    /// A dense matrix fills its shape.
    pub open spec fn wf(&self) -> bool {
        self matches DesignMatrix::Dense(m) ==> m.wf()
    }

    /// Column `c` can be read: the compressed arrays hold every position that
    /// reading it touches.
    pub open spec fn readable(&self, c: usize) -> bool {
        match self {
            DesignMatrix::Dense(_) => true,
            DesignMatrix::Csc(m) => csc_readable(*m, c),
            DesignMatrix::Csr(m) => csr_readable(*m, c),
        }
    }

    /// Entry at row `r`, column `c`, with `zero` for entries not stored.
    pub open spec fn entry(&self, r: int, c: usize, zero: T) -> T {
        match self {
            DesignMatrix::Dense(m) => m.at(r, c as int),
            DesignMatrix::Csc(m) => csc_entry(*m, m.indptr@[c as int] as int, m.indptr@[c + 1] as int, r as usize, zero),
            DesignMatrix::Csr(m) => csr_entry(*m, m.indptr@[r] as int, m.indptr@[r + 1] as int, c, zero),
        }
    }

    /// Number of rows.
    pub fn nrows(&self) -> (r: usize)
        ensures
            r == self.rows(),
    {
        match self {
            DesignMatrix::Dense(m) => m.nrows(),
            DesignMatrix::Csr(m) => m.shape.0,
            DesignMatrix::Csc(m) => m.shape.0,
        }
    }

    /// Number of columns.
    pub fn ncols(&self) -> (r: usize)
        ensures
            r == self.cols(),
    {
        match self {
            DesignMatrix::Dense(m) => m.ncols(),
            DesignMatrix::Csr(m) => m.shape.1,
            DesignMatrix::Csc(m) => m.shape.1,
        }
    }

    /// Whether column `c` can be read without leaving the stored arrays.
    pub fn column_readable(&self, c: usize) -> (ok: bool)
        ensures
            ok == self.readable(c),
    {
        match self {
            DesignMatrix::Dense(_) => true,
            DesignMatrix::Csc(m) => csc_check(m, c),
            DesignMatrix::Csr(m) => csr_check(m, c),
        }
    }
}

/// Whether column `c` of a CSC matrix can be read.
fn csc_check<T>(m: &SparseMatrix<T>, c: usize) -> (ok: bool)
    ensures
        ok == csc_readable(*m, c),
{
    let len = m.indptr.len();
    if len == 0 || c >= len - 1 {
        return false;
    }
    let start = m.indptr[c];
    let end = m.indptr[c + 1];
    let mut i = start;
    while i < end
        invariant
            start <= i,
            c + 1 < m.indptr@.len(),
            start == m.indptr@[c as int],
            end == m.indptr@[c + 1],
            forall|k: int| start <= k < i ==> #[trigger] csc_position_ok(*m, k),
        decreases end - i,
    {
        if i >= m.indices.len() || i >= m.data.len() || m.indices[i] >= m.shape.0 {
            proof {
                assert(!csc_position_ok(*m, i as int));
            }
            return false;
        }
        i = i + 1;
    }
    true
}

/// Whether column `c` of a CSR matrix can be read.
fn csr_check<T>(m: &SparseMatrix<T>, c: usize) -> (ok: bool)
    ensures
        ok == csr_readable(*m, c),
{
    let mut r: usize = 0;
    while r < m.shape.0
        invariant
            r <= m.shape.0,
            forall|k: int| 0 <= k < r ==> #[trigger] csr_row_readable(*m, k, c),
        decreases m.shape.0 - r,
    {
        if r + 1 >= m.indptr.len() {
            proof {
                assert(!csr_row_readable(*m, r as int, c));
            }
            return false;
        }
        if !csr_scan_check(m, m.indptr[r], m.indptr[r + 1], c) {
            proof {
                assert(!csr_row_readable(*m, r as int, c));
            }
            return false;
        }
        r = r + 1;
    }
    true
}

/// Whether scanning positions `i..end` for column `c` stays inside the arrays.
fn csr_scan_check<T>(m: &SparseMatrix<T>, i: usize, end: usize, c: usize) -> (ok: bool)
    ensures
        ok == csr_scan_ok(*m, i as int, end as int, c),
    decreases end - i,
{
    if i >= end {
        return true;
    }
    if i >= m.indices.len() {
        return false;
    }
    if m.indices[i] == c {
        i < m.data.len()
    } else {
        csr_scan_check(m, i + 1, end, c)
    }
}

impl<T: Copy> DesignMatrix<T> {
    /// Column `col_idx` as a vector, with `zero` where nothing is stored.
    /// Fails when the column does not exist.
    pub fn get_column(&self, col_idx: usize, zero: T) -> (out: Result<Vec<T>, BoostlssError>)
        requires
            self.wf(),
            col_idx < self.cols() ==> self.readable(col_idx),
        ensures
            out is Ok <==> col_idx < self.cols(),
            out matches Ok(v) ==> v@.len() == self.rows() && forall|r: int| 0 <= r < self.rows() ==> #[trigger] v@[r] == self.entry(r, col_idx, zero),
            out matches Err(e) ==> e is DataError && e.detail() == "Column index out of bounds"@,
    {
        if col_idx >= self.ncols() {
            return Err(BoostlssError::DataError(text("Column index out of bounds")));
        }
        match self {
            DesignMatrix::Dense(m) => Ok(m.column(col_idx)),
            DesignMatrix::Csc(m) => Ok(csc_column(m, col_idx, zero)),
            DesignMatrix::Csr(m) => Ok(csr_column(m, col_idx, zero)),
        }
    }
}

/// `n` copies of `x`.
pub fn filled<T: Copy>(n: usize, x: T) -> (v: Vec<T>)
    ensures
        v@ == Seq::new(n as nat, |i: int| x),
{
    let mut v: Vec<T> = Vec::new();
    let mut i: usize = 0;
    while i < n
        invariant
            i <= n,
            v@ == Seq::new(i as nat, |k: int| x),
        decreases n - i,
    {
        v.push(x);
        proof {
            assert(v@ =~= Seq::new((i + 1) as nat, |k: int| x));
        }
        i = i + 1;
    }
    v
}

/// Reads column `c` of a CSC matrix.
fn csc_column<T: Copy>(m: &SparseMatrix<T>, c: usize, zero: T) -> (v: Vec<T>)
    requires
        csc_readable(*m, c),
    ensures
        v@.len() == m.shape.0,
        forall|r: int| 0 <= r < m.shape.0 ==> #[trigger] v@[r] == csc_entry(*m, m.indptr@[c as int] as int, m.indptr@[c + 1] as int, r as usize, zero),
{
    let mut col = filled(m.shape.0, zero);
    let len = m.indptr.len();
    let start = m.indptr[c];
    let end = m.indptr[c + 1];
    let mut i = start;
    while i < end
        invariant
            start <= i,
            i <= end || i == start,
            c + 1 < m.indptr@.len(),
            start == m.indptr@[c as int],
            end == m.indptr@[c + 1],
            forall|k: int| start <= k < end ==> #[trigger] csc_position_ok(*m, k),
            col@.len() == m.shape.0,
            forall|r: int| 0 <= r < m.shape.0 ==> #[trigger] col@[r] == csc_entry(*m, start as int, i as int, r as usize, zero),
        decreases end - i,
    {
        proof {
            assert(csc_position_ok(*m, i as int));
        }
        let row = m.indices[i];
        let ghost prev = col@;
        col.set(row, m.data[i]);
        proof {
            assert forall|r: int| 0 <= r < m.shape.0 implies #[trigger] col@[r] == csc_entry(*m, start as int, i + 1, r as usize, zero) by {
                if r != row as int {
                    assert(col@[r] == prev[r]);
                }
            }
        }
        i = i + 1;
    }
    col
}

/// Reads column `c` of a CSR matrix.
fn csr_column<T: Copy>(m: &SparseMatrix<T>, c: usize, zero: T) -> (v: Vec<T>)
    requires
        csr_readable(*m, c),
    ensures
        v@.len() == m.shape.0,
        forall|r: int| 0 <= r < m.shape.0 ==> #[trigger] v@[r] == csr_entry(*m, m.indptr@[r] as int, m.indptr@[r + 1] as int, c, zero),
{
    let mut col: Vec<T> = Vec::new();
    let mut r: usize = 0;
    while r < m.shape.0
        invariant
            r <= m.shape.0,
            csr_readable(*m, c),
            col@.len() == r,
            forall|k: int| 0 <= k < r ==> #[trigger] col@[k] == csr_entry(*m, m.indptr@[k] as int, m.indptr@[k + 1] as int, c, zero),
        decreases m.shape.0 - r,
    {
        let len = m.indptr.len();
        assert(csr_row_readable(*m, r as int, c));
        let v = csr_find(m, m.indptr[r], m.indptr[r + 1], c, zero);
        col.push(v);
        r = r + 1;
    }
    col
}

/// Scans positions `i..end` for the first entry of column `c`.
fn csr_find<T: Copy>(m: &SparseMatrix<T>, i: usize, end: usize, c: usize, zero: T) -> (v: T)
    requires
        csr_scan_ok(*m, i as int, end as int, c),
    ensures
        v == csr_entry(*m, i as int, end as int, c, zero),
    decreases end - i,
{
    let mut k = i;
    while k < end
        invariant
            i <= k,
            csr_scan_ok(*m, k as int, end as int, c),
            csr_entry(*m, k as int, end as int, c, zero) == csr_entry(*m, i as int, end as int, c, zero),
        decreases end - k,
    {
        if m.indices[k] == c {
            return m.data[k];
        }
        k = k + 1;
    }
    zero
}

/// The message for a per-observation vector whose length differs from the
/// number of design rows; `subject` names the vector with its verb.
pub open spec fn mismatch_message(n: nat, len: nat, subject: Seq<char>) -> Seq<char> {
    "Design has "@ + decimal(n) + " rows, but "@ + subject + " length "@ + decimal(len)
}

/// The error for a per-observation vector of length `len` when the design
/// has `n` rows.
fn length_mismatch(n: usize, len: usize, subject: &str) -> (e: BoostlssError)
    ensures
        e is DataError,
        e.detail() == mismatch_message(n as nat, len as nat, subject@),
{
    let mut msg = String::from_str("Design has ");
    msg.append(decimal_text(n).as_str());
    msg.append(" rows, but ");
    msg.append(subject);
    msg.append(" length ");
    msg.append(decimal_text(len).as_str());
    BoostlssError::DataError(msg)
}

/// The first problem with observation weights of length `len` for `n`
/// observations: their length, then whether one of them is negative.
pub open spec fn weights_problem(n: nat, len: nat, any_negative: bool, subject: Seq<char>) -> Option<Seq<char>> {
    if len != n {
        Some(mismatch_message(n, len, subject))
    } else if any_negative {
        Some("Weights cannot be negative"@)
    } else {
        None
    }
}

/// Checks observation weights for a design with `n` rows; `any_negative`
/// tells whether one of the weights is below zero.
pub fn check_weights(n: usize, len: usize, any_negative: bool) -> (r: Result<(), BoostlssError>)
    ensures
        r is Ok <==> weights_problem(n as nat, len as nat, any_negative, "weights have"@) is None,
        r matches Err(e) ==> e is DataError && Some(e.detail()) == weights_problem(n as nat, len as nat, any_negative, "weights have"@),
{
    if len != n {
        return Err(length_mismatch(n, len, "weights have"));
    }
    if any_negative {
        return Err(BoostlssError::DataError(text("Weights cannot be negative")));
    }
    Ok(())
}

/// Checks weights that are to multiply the existing ones of a design with
/// `n` rows; `any_negative` tells whether one of them is below zero.
pub fn check_new_weights(n: usize, len: usize, any_negative: bool) -> (r: Result<(), BoostlssError>)
    ensures
        r is Ok <==> weights_problem(n as nat, len as nat, any_negative, "new weights have"@) is None,
        r matches Err(e) ==> e is DataError && Some(e.detail()) == weights_problem(n as nat, len as nat, any_negative, "new weights have"@),
{
    if len != n {
        return Err(length_mismatch(n, len, "new weights have"));
    }
    if any_negative {
        return Err(BoostlssError::DataError(text("Weights cannot be negative")));
    }
    Ok(())
}

/// Checks censoring indicators of length `len` for a design with `n` rows.
pub fn check_censoring(n: usize, len: usize) -> (r: Result<(), BoostlssError>)
    ensures
        r is Ok <==> len == n,
        r matches Err(e) ==> e is DataError && e.detail() == mismatch_message(n as nat, len as nat, "censoring has"@),
{
    if len != n {
        return Err(length_mismatch(n, len, "censoring has"));
    }
    Ok(())
}

/// The first problem of a data set whose design has `n` rows, checked in
/// this order: the response length, the weights (length, then sign), the
/// censoring length.
pub open spec fn dataset_problem(
    n: nat,
    response_len: nat,
    weights_len: Option<usize>,
    any_negative_weight: bool,
    censoring_len: Option<usize>,
) -> Option<Seq<char>> {
    if response_len != n {
        Some(mismatch_message(n, response_len, "response has"@))
    } else if weights_len matches Some(w) && weights_problem(n, w as nat, any_negative_weight, "weights have"@) is Some {
        weights_problem(n, weights_len->0 as nat, any_negative_weight, "weights have"@)
    } else if censoring_len matches Some(c) && c != n {
        Some(mismatch_message(n, censoring_len->0 as nat, "censoring has"@))
    } else {
        None
    }
}

/// Checks the shapes of a data set: a design with `n` rows, a response of
/// length `response_len`, optional weights of length `weights_len` (one of
/// them negative when `any_negative_weight`), and optional censoring
/// indicators of length `censoring_len`.
pub fn check_dataset(
    n: usize,
    response_len: usize,
    weights_len: Option<usize>,
    any_negative_weight: bool,
    censoring_len: Option<usize>,
) -> (r: Result<(), BoostlssError>)
    ensures
        r is Ok <==> dataset_problem(n as nat, response_len as nat, weights_len, any_negative_weight, censoring_len) is None,
        r matches Err(e) ==> e is DataError && Some(e.detail()) == dataset_problem(
            n as nat,
            response_len as nat,
            weights_len,
            any_negative_weight,
            censoring_len,
        ),
{
    if response_len != n {
        return Err(length_mismatch(n, response_len, "response has"));
    }
    if let Some(w) = weights_len {
        match check_weights(n, w, any_negative_weight) {
            Ok(()) => {},
            Err(e) => {
                return Err(e);
            },
        }
    }
    if let Some(c) = censoring_len {
        match check_censoring(n, c) {
            Ok(()) => {},
            Err(e) => {
                return Err(e);
            },
        }
    }
    Ok(())
}

/// Checks a feature index against a design with `ncols` columns.
pub fn check_feature_index(feature_idx: usize, ncols: usize) -> (r: Result<(), BoostlssError>)
    ensures
        r is Ok <==> feature_idx < ncols,
        r matches Err(e) ==> e is DataError && e.detail() == "Feature index "@ + decimal(feature_idx as nat)
            + " out of bounds for design matrix with "@ + decimal(ncols as nat) + " columns"@,
{
    if feature_idx < ncols {
        return Ok(());
    }
    let mut msg = String::from_str("Feature index ");
    msg.append(decimal_text(feature_idx).as_str());
    msg.append(" out of bounds for design matrix with ");
    msg.append(decimal_text(ncols).as_str());
    msg.append(" columns");
    Err(BoostlssError::DataError(msg))
}

} // verus!
