//! Row-compressed sparse operators of the Hodge layer.
//!
//! A matrix holds, for each row, a list of `(column, value)` entries.
//! Values are `f64` quantities kept as their IEEE-754 bit patterns
//! (`f64::to_bits`); an absent entry reads as `0`, the bit pattern of
//! `0.0`. The floating-point products of these operators live with their
//! callers; this module owns the sparsity structure.
use vstd::prelude::*;

verus! {

/// Recoverable failures of the math path.
///
/// `det_bits` and `ridge_bits` are the bit patterns of the `f64`
/// determinant and ridge.
#[derive(Debug, Clone, Copy, PartialEq, Eq)]
pub enum SubstrateError {
    /// Covariance / precision matrix was singular at the listed size.
    SingularMatrix { size: usize, det_bits: u64 },
    /// Even after a ridge the matrix remained ill-conditioned.
    StabilizationFailed { size: usize, ridge_bits: u64 },
    /// Combining vectors/matrices with mismatched extents.
    DimensionMismatch { expected: usize, actual: usize },
}

#[derive(Debug, Clone)]
pub struct SparseMatrix {
    pub rows: usize,
    pub cols: usize,
    /// Row index -> list of (column index, value bits).
    pub data: Vec<Vec<(usize, u64)>>,
}

/// `i` is the first position of `row` whose column is `c`.
pub open spec fn first_match(row: Seq<(usize, u64)>, c: int, i: int) -> bool {
    &&& 0 <= i < row.len()
    &&& row[i].0 == c
    &&& forall|j: int| 0 <= j < i ==> row[j].0 != c
}

/// The value of the first entry of `row` in column `c`, or `0` if there is
/// none.
pub open spec fn row_lookup(row: Seq<(usize, u64)>, c: int) -> u64 {
    if exists|i: int| first_match(row, c, i) {
        row[choose|i: int| first_match(row, c, i)].1
    } else {
        0
    }
}

/// The value of the last entry of `row` in column `c`, or `0` if there is
/// none.
pub open spec fn row_last_lookup(row: Seq<(usize, u64)>, c: int) -> u64
    decreases row.len(),
{
    if row.len() == 0 {
        0
    } else if row.last().0 == c {
        row.last().1
    } else {
        row_last_lookup(row.drop_last(), c)
    }
}

/// `row` after writing `val` into column `c`: the first entry of that
/// column is overwritten, or a new entry is appended if there is none.
pub open spec fn row_with(row: Seq<(usize, u64)>, c: usize, val: u64) -> Seq<(usize, u64)> {
    if exists|i: int| first_match(row, c as int, i) {
        row.update(choose|i: int| first_match(row, c as int, i), (c, val))
    } else {
        row.push((c, val))
    }
}

/// The columns of `row` strictly increase.
pub open spec fn cols_increasing(row: Seq<(usize, u64)>) -> bool {
    forall|i: int, j: int| 0 <= i < j < row.len() ==> row[i].0 < row[j].0
}

/// Some entry of `row` lies in column `c`.
pub open spec fn row_has_col(row: Seq<(usize, u64)>, c: int) -> bool {
    exists|k: int| 0 <= k < row.len() && row[k].0 == c
}

/// No column occurs twice in `row`.
pub open spec fn distinct_cols(row: Seq<(usize, u64)>) -> bool {
    forall|i: int, j: int| 0 <= i < j < row.len() ==> row[i].0 != row[j].0
}

proof fn lemma_first_match_unique(row: Seq<(usize, u64)>, c: int, i: int, k: int)
    requires
        first_match(row, c, i),
        first_match(row, c, k),
    ensures
        i == k,
{
    if i < k {
        assert(row[i].0 != c);
    } else if k < i {
        assert(row[k].0 != c);
    }
}

/// Reading column `c` of a row with a first match at `i`.
proof fn lemma_row_lookup_at(row: Seq<(usize, u64)>, c: int, i: int)
    requires
        first_match(row, c, i),
    ensures
        row_lookup(row, c) == row[i].1,
{
    let k = choose|k: int| first_match(row, c, k);
    lemma_first_match_unique(row, c, i, k);
}

/// Reading a column that does not occur in the row.
proof fn lemma_row_lookup_absent(row: Seq<(usize, u64)>, c: int)
    requires
        forall|j: int| 0 <= j < row.len() ==> row[j].0 != c,
    ensures
        row_lookup(row, c) == 0,
{
}

/// Overwriting the first entry of column `c` changes only column `c`.
proof fn lemma_row_lookup_update(row: Seq<(usize, u64)>, c: int, i: int, val: u64, d: int)
    requires
        first_match(row, c, i),
    ensures
        row_lookup(row.update(i, (c as usize, val)), d) == if d == c {
            val
        } else {
            row_lookup(row, d)
        },
{
    let new = row.update(i, (c as usize, val));
    if d == c {
        assert(first_match(new, c, i));
        lemma_row_lookup_at(new, c, i);
    } else if exists|k: int| first_match(row, d, k) {
        let k = choose|k: int| first_match(row, d, k);
        assert(k != i);
        assert(first_match(new, d, k));
        lemma_row_lookup_at(new, d, k);
        lemma_row_lookup_at(row, d, k);
    } else {
        assert forall|j: int| 0 <= j < row.len() implies row[j].0 != d by {
            if row[j].0 == d {
                lemma_first_index(row, d, j);
                let k = choose|k: int|
                    0 <= k <= j && row[k].0 == d && forall|m: int| 0 <= m < k ==> row[m].0 != d;
                assert(first_match(row, d, k));
            }
        }
        assert forall|j: int| 0 <= j < new.len() implies new[j].0 != d by {
            if j != i {
                assert(new[j] == row[j]);
            }
        }
    }
}

/// Any occurrence of column `d` is preceded by a first occurrence.
proof fn lemma_first_index(row: Seq<(usize, u64)>, d: int, j: int)
    requires
        0 <= j < row.len(),
        row[j].0 == d,
    ensures
        exists|k: int| 0 <= k <= j && row[k].0 == d && forall|m: int| 0 <= m < k ==> row[m].0 != d,
    decreases j,
{
    if exists|m: int| 0 <= m < j && row[m].0 == d {
        let m = choose|m: int| 0 <= m < j && row[m].0 == d;
        lemma_first_index(row, d, m);
    } else {
        assert(0 <= j <= j && row[j].0 == d && forall|m: int| 0 <= m < j ==> row[m].0 != d);
    }
}

/// Appending an entry for a column that does not occur changes only that
/// column.
proof fn lemma_row_lookup_push(row: Seq<(usize, u64)>, c: int, val: u64, d: int)
    requires
        0 <= c <= usize::MAX,
        forall|j: int| 0 <= j < row.len() ==> row[j].0 != c,
    ensures
        row_lookup(row.push((c as usize, val)), d) == if d == c {
            val
        } else {
            row_lookup(row, d)
        },
{
    let new = row.push((c as usize, val));
    if d == c {
        assert(first_match(new, c, row.len() as int));
        lemma_row_lookup_at(new, c, row.len() as int);
    } else if exists|k: int| first_match(row, d, k) {
        let k = choose|k: int| first_match(row, d, k);
        assert(first_match(new, d, k));
        lemma_row_lookup_at(new, d, k);
        lemma_row_lookup_at(row, d, k);
    } else {
        assert forall|j: int| 0 <= j < row.len() implies row[j].0 != d by {
            if row[j].0 == d {
                lemma_first_index(row, d, j);
                let k = choose|k: int|
                    0 <= k <= j && row[k].0 == d && forall|m: int| 0 <= m < k ==> row[m].0 != d;
                assert(first_match(row, d, k));
            }
        }
        assert forall|j: int| 0 <= j < new.len() implies new[j].0 != d by {
            if j < row.len() {
                assert(new[j] == row[j]);
            }
        }
    }
}

/// Writing column `c` into a row whose columns increase and do not exceed
/// `c` keeps them increasing, and adds `c` to the columns present.
proof fn lemma_row_with_shape(row: Seq<(usize, u64)>, c: usize, val: u64)
    requires
        cols_increasing(row),
        forall|q: int| 0 <= q < row.len() ==> row[q].0 <= c,
    ensures
        cols_increasing(row_with(row, c, val)),
        forall|q: int| 0 <= q < row_with(row, c, val).len() ==> row_with(row, c, val)[q].0 <= c,
        forall|d: int| row_has_col(row_with(row, c, val), d) <==> (row_has_col(row, d) || d == c),
{
    let new = row_with(row, c, val);
    if exists|i: int| first_match(row, c as int, i) {
        let i = choose|i: int| first_match(row, c as int, i);
        assert(new == row.update(i, (c, val)));
        assert forall|q: int| 0 <= q < new.len() implies new[q].0 == row[q].0 by {}
        assert forall|d: int| row_has_col(new, d) <==> (row_has_col(row, d) || d == c) by {
            if row_has_col(new, d) {
                let k = choose|k: int| 0 <= k < new.len() && new[k].0 == d;
                assert(row[k].0 == d);
            }
            if row_has_col(row, d) {
                let k = choose|k: int| 0 <= k < row.len() && row[k].0 == d;
                assert(new[k].0 == d);
            }
            if d == c {
                assert(new[i].0 == d);
            }
        }
    } else {
        assert(new == row.push((c, val)));
        assert forall|q: int| 0 <= q < row.len() implies row[q].0 < c by {
            if row[q].0 == c {
                lemma_first_index(row, c as int, q);
                let k = choose|k: int|
                    0 <= k <= q && row[k].0 == c && forall|m: int| 0 <= m < k ==> row[m].0 != c;
                assert(first_match(row, c as int, k));
            }
        }
        assert forall|d: int| row_has_col(new, d) <==> (row_has_col(row, d) || d == c) by {
            if row_has_col(new, d) {
                let k = choose|k: int| 0 <= k < new.len() && new[k].0 == d;
                if k < row.len() {
                    assert(row[k].0 == d);
                }
            }
            if row_has_col(row, d) {
                let k = choose|k: int| 0 <= k < row.len() && row[k].0 == d;
                assert(new[k].0 == d);
            }
            if d == c {
                assert(new[row.len() as int].0 == d);
            }
        }
    }
}

/// In a row without repeated columns the first and the last entry of a
/// column are the same entry.
proof fn lemma_last_lookup_distinct(row: Seq<(usize, u64)>, c: int)
    requires
        distinct_cols(row),
    ensures
        row_last_lookup(row, c) == row_lookup(row, c),
    decreases row.len(),
{
    if row.len() > 0 {
        let n = row.len() - 1;
        let init = row.drop_last();
        if row.last().0 == c {
            assert(first_match(row, c, n));
            lemma_row_lookup_at(row, c, n);
        } else {
            lemma_last_lookup_distinct(init, c);
            if exists|k: int| first_match(init, c, k) {
                let k = choose|k: int| first_match(init, c, k);
                assert(first_match(row, c, k));
                lemma_row_lookup_at(row, c, k);
                lemma_row_lookup_at(init, c, k);
            } else {
                assert forall|j: int| 0 <= j < row.len() implies row[j].0 != c by {
                    if j < n && row[j].0 == c {
                        lemma_first_index(init, c, j);
                        let k = choose|k: int|
                            0 <= k <= j && init[k].0 == c && forall|m: int|
                                0 <= m < k ==> init[m].0 != c;
                        assert(first_match(init, c, k));
                    }
                }
            }
        }
    }
}

impl SparseMatrix {
    /// One list of entries per row.
    pub open spec fn shaped(&self) -> bool {
        self.data@.len() == self.rows
    }

    /// Every entry of a row of the matrix lies in a column of the matrix.
    pub open spec fn entries_in_bounds(&self) -> bool {
        forall|r: int, k: int|
            0 <= r < self.rows && r < self.data@.len() && 0 <= k < self.data@[r]@.len() ==> (
            #[trigger] self.data@[r]@[k]).0 < self.cols
    }

    /// No row of the matrix repeats a column.
    pub open spec fn rows_distinct(&self) -> bool {
        forall|r: int|
            0 <= r < self.rows && r < self.data@.len() ==> #[trigger] distinct_cols(
                self.data@[r]@,
            )
    }

    /// The bits of entry `(r, c)`: the first entry of row `r` in column `c`,
    /// or `0` outside the matrix or its list of rows, or where no entry is
    /// stored.
    pub open spec fn spec_get(&self, r: int, c: int) -> u64 {
        if 0 <= r < self.rows && r < self.data@.len() && 0 <= c < self.cols {
            row_lookup(self.data@[r]@, c)
        } else {
            0
        }
    }

    /// An all-zero `rows x cols` matrix.
    pub fn new(rows: usize, cols: usize) -> (m: Self)
        ensures
            m.rows == rows,
            m.cols == cols,
            m.shaped(),
            m.entries_in_bounds(),
            m.rows_distinct(),
            forall|r: int| 0 <= r < rows ==> (#[trigger] m.data@[r])@.len() == 0,
            forall|r: int, c: int| #[trigger] m.spec_get(r, c) == 0,
    {
        let mut data: Vec<Vec<(usize, u64)>> = Vec::new();
        let mut i: usize = 0;
        while i < rows
            invariant
                i <= rows,
                data@.len() == i,
                forall|r: int| 0 <= r < i ==> (#[trigger] data@[r])@.len() == 0,
            decreases rows - i,
        {
            data.push(Vec::new());
            i = i + 1;
        }
        SparseMatrix { rows, cols, data }
    }

    /// Inserts (or overwrites) the entry at `(r, c)`; indices outside the
    /// matrix are refused with `DimensionMismatch`.
    pub fn insert(&mut self, r: usize, c: usize, val: u64) -> (res: Result<(), SubstrateError>)
        requires
            r < old(self).rows && c < old(self).cols ==> r < old(self).data@.len(),
        ensures
            final(self).rows == old(self).rows,
            final(self).cols == old(self).cols,
            final(self).data@.len() == old(self).data@.len(),
            r >= old(self).rows ==> res == Err::<(), SubstrateError>(
                SubstrateError::DimensionMismatch { expected: old(self).rows, actual: r },
            ) && final(self).data@ == old(self).data@,
            r < old(self).rows && c >= old(self).cols ==> res == Err::<(), SubstrateError>(
                SubstrateError::DimensionMismatch { expected: old(self).cols, actual: c },
            ) && final(self).data@ == old(self).data@,
            r < old(self).rows && c < old(self).cols ==> res is Ok,
            res is Ok ==> final(self).data@[r as int]@ == row_with(old(self).data@[r as int]@, c, val),
            res is Ok ==> forall|i: int, j: int|
                #[trigger] final(self).spec_get(i, j) == if i == r && j == c {
                    val
                } else {
                    old(self).spec_get(i, j)
                },
            res is Ok ==> forall|i: int|
                0 <= i < old(self).data@.len() && i != r ==> #[trigger] final(self).data@[i]
                    == old(self).data@[i],
            old(self).entries_in_bounds() ==> final(self).entries_in_bounds(),
            old(self).rows_distinct() ==> final(self).rows_distinct(),
    {
        if r >= self.rows {
            return Err(SubstrateError::DimensionMismatch { expected: self.rows, actual: r });
        }
        if c >= self.cols {
            return Err(SubstrateError::DimensionMismatch { expected: self.cols, actual: c });
        }
        let ghost old_data = self.data@;
        let ghost row = self.data@[r as int]@;
        let mut row_vec: Vec<(usize, u64)> = Vec::new();
        std::mem::swap(&mut row_vec, &mut self.data[r]);
        assert(row_vec@ == row);
        let n = row_vec.len();
        let mut k: usize = 0;
        while k < n
            invariant
                n == row_vec@.len(),
                row_vec@ == row,
                k <= n,
                forall|j: int| 0 <= j < k ==> row[j].0 != c,
            ensures
                k <= n,
                forall|j: int| 0 <= j < k ==> row[j].0 != c,
                k < n ==> row[k as int].0 == c,
            decreases n - k,
        {
            if row_vec[k].0 == c {
                break;
            }
            k = k + 1;
        }
        if k < n {
            proof {
                assert(first_match(row, c as int, k as int));
                let q = choose|q: int| first_match(row, c as int, q);
                lemma_first_match_unique(row, c as int, k as int, q);
                assert forall|d: int| true implies row_lookup(row.update(k as int, (c, val)), d) == (
                if d == c {
                    val
                } else {
                    row_lookup(row, d)
                }) by {
                    lemma_row_lookup_update(row, c as int, k as int, val, d);
                }
            }
            row_vec.set(k, (c, val));
        } else {
            proof {
                assert(!exists|q: int| first_match(row, c as int, q));
                assert forall|d: int| true implies row_lookup(row.push((c, val)), d) == (if d == c {
                    val
                } else {
                    row_lookup(row, d)
                }) by {
                    lemma_row_lookup_push(row, c as int, val, d);
                }
            }
            row_vec.push((c, val));
        }
        let ghost new_row = row_vec@;
        self.data.set(r, row_vec);
        proof {
            assert(self.data@ == old_data.update(r as int, self.data@[r as int]));
            assert(self.data@[r as int]@ == new_row);
            assert forall|i: int, j: int| #[trigger]
                self.spec_get(i, j) == if i == r && j == c {
                    val
                } else {
                    old(self).spec_get(i, j)
                } by {
                if 0 <= i < self.rows && i < self.data@.len() && 0 <= j < self.cols && i != r {
                    assert(self.data@[i] == old_data[i]);
                }
            }
            if old(self).entries_in_bounds() {
                assert forall|i: int, q: int|
                    0 <= i < self.rows && i < self.data@.len() && 0 <= q < self.data@[i]@.len()
                        implies (#[trigger] self.data@[i]@[q]).0 < self.cols by {
                    if i != r {
                        assert(self.data@[i] == old_data[i]);
                        assert(old_data[i]@[q] == self.data@[i]@[q]);
                    }
                }
            }
            if old(self).rows_distinct() {
                assert forall|i: int|
                    0 <= i < self.rows && i < self.data@.len() implies #[trigger] distinct_cols(
                    self.data@[i]@,
                ) by {
                    if i != r {
                        assert(self.data@[i] == old_data[i]);
                        assert(distinct_cols(old_data[i]@));
                    } else {
                        assert(distinct_cols(old_data[r as int]@));
                    }
                }
            }
        }
        Ok(())
    }

    /// All entries that come before position `k` of row `r`, in row-major
    /// order, lie in a column of the matrix.
    pub open spec fn in_bounds_before(&self, r: int, k: int) -> bool {
        forall|i: int, q: int|
            ((0 <= i < r && 0 <= q < self.data@[i]@.len()) || (i == r && 0 <= q < k)) ==> (
            #[trigger] self.data@[i]@[q]).0 < self.cols
    }

    /// `t` is the transpose of `a`: the shape is swapped; row `j` of `t`
    /// lists, in increasing column order, one entry for each row `i` of `a`
    /// that has an entry in column `j`, holding the last such entry of row
    /// `i`.
    pub open spec fn is_transpose_of(t: SparseMatrix, a: SparseMatrix) -> bool {
        &&& t.rows == a.cols
        &&& t.cols == a.rows
        &&& t.shaped()
        &&& t.entries_in_bounds()
        &&& t.rows_distinct()
        &&& forall|j: int| 0 <= j < t.rows ==> #[trigger] cols_increasing(t.data@[j]@)
        &&& forall|i: int, j: int|
            0 <= i < a.rows && 0 <= j < a.cols ==> (#[trigger] row_has_col(t.data@[j]@, i)
                <==> row_has_col(a.data@[i]@, j))
        &&& forall|i: int, j: int|
            0 <= i < a.rows && 0 <= j < a.cols ==> #[trigger] t.spec_get(j, i) == row_last_lookup(
                a.data@[i]@,
                j,
            )
    }

    /// The transpose; an entry whose column lies outside the matrix is
    /// refused with `DimensionMismatch`, the first such entry in row-major
    /// order being reported.
    pub fn transpose(&self) -> (res: Result<SparseMatrix, SubstrateError>)
        requires
            self.rows <= self.data@.len(),
        ensures
            res is Ok <==> self.entries_in_bounds(),
            match res {
                Ok(t) => Self::is_transpose_of(t, *self),
                Err(e) => exists|r: int, k: int|
                    0 <= r < self.rows && 0 <= k < self.data@[r]@.len() && (#[trigger] self.data@[r]@[k]).0
                        >= self.cols && self.in_bounds_before(r, k) && e == (
                    SubstrateError::DimensionMismatch {
                        expected: self.cols,
                        actual: self.data@[r]@[k].0,
                    }),
            },
    {
        let mut t = SparseMatrix::new(self.cols, self.rows);
        let mut r: usize = 0;
        while r < self.rows
            invariant
                self.rows <= self.data@.len(),
                r <= self.rows,
                t.rows == self.cols,
                t.cols == self.rows,
                t.shaped(),
                t.entries_in_bounds(),
                t.rows_distinct(),
                self.in_bounds_before(r as int, 0),
                forall|j: int| 0 <= j < t.rows ==> #[trigger] cols_increasing(t.data@[j]@),
                forall|j: int, q: int|
                    0 <= j < t.rows && 0 <= q < t.data@[j]@.len() ==> (#[trigger] t.data@[j]@[q]).0
                        < r,
                forall|i: int, j: int|
                    0 <= i < r && 0 <= j < self.cols ==> (#[trigger] row_has_col(t.data@[j]@, i)
                        <==> row_has_col(self.data@[i]@, j)),
                forall|i: int, j: int|
                    0 <= i < r && 0 <= j < self.cols ==> #[trigger] t.spec_get(j, i)
                        == row_last_lookup(self.data@[i]@, j),
                forall|i: int, j: int| r <= i < self.rows ==> #[trigger] t.spec_get(j, i) == 0,
            decreases self.rows - r,
        {
            let row = &self.data[r];
            let n = row.len();
            let mut k: usize = 0;
            while k < n
                invariant
                    self.rows <= self.data@.len(),
                    r < self.rows,
                    n == row@.len(),
                    row@ == self.data@[r as int]@,
                    k <= n,
                    t.rows == self.cols,
                    t.cols == self.rows,
                    t.shaped(),
                    t.entries_in_bounds(),
                    t.rows_distinct(),
                    self.in_bounds_before(r as int, k as int),
                    forall|j: int| 0 <= j < t.rows ==> #[trigger] cols_increasing(t.data@[j]@),
                    forall|j: int, q: int|
                        0 <= j < t.rows && 0 <= q < t.data@[j]@.len() ==> (
                        #[trigger] t.data@[j]@[q]).0 <= r,
                    forall|i: int, j: int|
                        0 <= i < r && 0 <= j < self.cols ==> (#[trigger] row_has_col(
                            t.data@[j]@,
                            i,
                        ) <==> row_has_col(self.data@[i]@, j)),
                    forall|j: int|
                        0 <= j < self.cols ==> (#[trigger] row_has_col(t.data@[j]@, r as int)
                            <==> row_has_col(row@.take(k as int), j)),
                    forall|i: int, j: int|
                        0 <= i < r && 0 <= j < self.cols ==> #[trigger] t.spec_get(j, i)
                            == row_last_lookup(self.data@[i]@, j),
                    forall|j: int|
                        0 <= j < self.cols ==> #[trigger] t.spec_get(j, r as int) == row_last_lookup(
                            row@.take(k as int),
                            j,
                        ),
                    forall|i: int, j: int| r < i < self.rows ==> #[trigger] t.spec_get(j, i) == 0,
                decreases n - k,
            {
                let (c, val) = row[k];
                let ghost before = t;
                match t.insert(c, r, val) {
                    Err(e) => {
                        proof {
                            assert(self.data@[r as int]@[k as int].0 >= self.cols);
                        }
                        return Err(e);
                    },
                    Ok(()) => {},
                }
                proof {
                    assert(row@.take(k + 1).drop_last() =~= row@.take(k as int));
                    assert(row@.take(k + 1).last() == (c, val));
                    let old_row = before.data@[c as int]@;
                    lemma_row_with_shape(old_row, r, val);
                    assert forall|j: int| 0 <= j < t.rows implies #[trigger] cols_increasing(
                        t.data@[j]@,
                    ) by {
                        if j != c {
                            assert(t.data@[j] == before.data@[j]);
                        }
                    }
                    assert forall|j: int, q: int|
                        0 <= j < t.rows && 0 <= q < t.data@[j]@.len() implies (
                        #[trigger] t.data@[j]@[q]).0 <= r by {
                        if j != c {
                            assert(t.data@[j] == before.data@[j]);
                        }
                    }
                    assert forall|i: int, j: int|
                        0 <= i < r && 0 <= j < self.cols implies (#[trigger] row_has_col(
                            t.data@[j]@,
                            i,
                        ) <==> row_has_col(self.data@[i]@, j)) by {
                        if j != c {
                            assert(t.data@[j] == before.data@[j]);
                        }
                        assert(row_has_col(before.data@[j]@, i) <==> row_has_col(self.data@[i]@, j));
                    }
                    assert forall|j: int| 0 <= j < self.cols implies (#[trigger] row_has_col(
                        t.data@[j]@,
                        r as int,
                    ) <==> row_has_col(row@.take(k + 1), j)) by {
                        let tk = row@.take(k as int);
                        let tk1 = row@.take(k + 1);
                        assert(row_has_col(tk1, j) <==> (row_has_col(tk, j) || j == c)) by {
                            if row_has_col(tk1, j) {
                                let q = choose|q: int| 0 <= q < tk1.len() && tk1[q].0 == j;
                                if q < k {
                                    assert(tk[q] == tk1[q]);
                                }
                            }
                            if row_has_col(tk, j) {
                                let q = choose|q: int| 0 <= q < tk.len() && tk[q].0 == j;
                                assert(tk1[q] == tk[q]);
                            }
                            if j == c {
                                assert(tk1[k as int].0 == j);
                            }
                        }
                        if j != c {
                            assert(t.data@[j] == before.data@[j]);
                        }
                        assert(row_has_col(before.data@[j]@, r as int) <==> row_has_col(tk, j));
                    }
                    assert forall|i: int, q: int|
                        ((0 <= i < r && 0 <= q < self.data@[i]@.len()) || (i == r && 0 <= q < k + 1))
                            implies (#[trigger] self.data@[i]@[q]).0 < self.cols by {
                        if i == r && q == k {
                        } else {
                            assert(self.in_bounds_before(r as int, k as int));
                        }
                    }
                    assert forall|j: int| 0 <= j < self.cols implies #[trigger] t.spec_get(
                        j,
                        r as int,
                    ) == row_last_lookup(row@.take(k + 1), j) by {
                        assert(before.spec_get(j, r as int) == row_last_lookup(row@.take(k as int), j));
                    }
                    assert forall|i: int, j: int|
                        0 <= i < r && 0 <= j < self.cols implies #[trigger] t.spec_get(j, i)
                            == row_last_lookup(self.data@[i]@, j) by {
                        assert(before.spec_get(j, i) == row_last_lookup(self.data@[i]@, j));
                    }
                    assert forall|i: int, j: int| r < i < self.rows implies #[trigger] t.spec_get(
                        j,
                        i,
                    ) == 0 by {
                        assert(before.spec_get(j, i) == 0);
                    }
                }
                k = k + 1;
            }
            proof {
                assert(row@.take(n as int) =~= row@);
                assert forall|j: int, q: int|
                    0 <= j < t.rows && 0 <= q < t.data@[j]@.len() implies (
                    #[trigger] t.data@[j]@[q]).0 < r + 1 by {}
                assert forall|i: int, j: int|
                    0 <= i < r + 1 && 0 <= j < self.cols implies (#[trigger] row_has_col(
                        t.data@[j]@,
                        i,
                    ) <==> row_has_col(self.data@[i]@, j)) by {
                    if i == r {
                        assert(row_has_col(t.data@[j]@, r as int) <==> row_has_col(
                            row@.take(n as int),
                            j,
                        ));
                    }
                }
                assert forall|i: int, q: int|
                    ((0 <= i < r + 1 && 0 <= q < self.data@[i]@.len()) || (i == r + 1 && 0 <= q < 0))
                        implies (#[trigger] self.data@[i]@[q]).0 < self.cols by {
                    assert(self.in_bounds_before(r as int, n as int));
                }
            }
            r = r + 1;
        }
        proof {
            assert forall|i: int, q: int|
                0 <= i < self.rows && i < self.data@.len() && 0 <= q < self.data@[i]@.len()
                    implies (#[trigger] self.data@[i]@[q]).0 < self.cols by {
                assert(self.in_bounds_before(self.rows as int, 0));
            }
        }
        Ok(t)
    }

    /// The bits of entry `(r, c)`; `0` outside the matrix or where nothing
    /// is stored.
    pub fn get(&self, r: usize, c: usize) -> (v: u64)
        requires
            r < self.rows && c < self.cols ==> r < self.data@.len(),
        ensures
            v == self.spec_get(r as int, c as int),
    {
        if r >= self.rows || c >= self.cols {
            return 0;
        }
        let row = &self.data[r];
        let n = row.len();
        let mut k: usize = 0;
        while k < n
            invariant
                n == row@.len(),
                r < self.rows,
                c < self.cols,
                r < self.data@.len(),
                row@ == self.data@[r as int]@,
                k <= n,
                forall|j: int| 0 <= j < k ==> row@[j].0 != c,
            decreases n - k,
        {
            if row[k].0 == c {
                proof {
                    assert(first_match(row@, c as int, k as int));
                    lemma_row_lookup_at(row@, c as int, k as int);
                }
                return row[k].1;
            }
            k = k + 1;
        }
        proof {
            lemma_row_lookup_absent(row@, c as int);
        }
        0
    }
}

/// Transposing twice gives every entry back, for a matrix in which no row
/// repeats a column.
pub proof fn law_transpose_twice(a: SparseMatrix, t: SparseMatrix, u: SparseMatrix)
    requires
        a.rows <= a.data@.len(),
        a.rows_distinct(),
        SparseMatrix::is_transpose_of(t, a),
        SparseMatrix::is_transpose_of(u, t),
    ensures
        u.rows == a.rows,
        u.cols == a.cols,
        forall|i: int, j: int| #[trigger] u.spec_get(i, j) == a.spec_get(i, j),
{
    assert forall|i: int, j: int| #[trigger] u.spec_get(i, j) == a.spec_get(i, j) by {
        if 0 <= i < a.rows && 0 <= j < a.cols {
            assert(distinct_cols(t.data@[j]@));
            lemma_last_lookup_distinct(t.data@[j]@, i);
            assert(u.spec_get(i, j) == t.spec_get(j, i));
            assert(distinct_cols(a.data@[i]@));
            lemma_last_lookup_distinct(a.data@[i]@, j);
        }
    }
}

} // verus!
