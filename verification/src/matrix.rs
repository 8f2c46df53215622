//! Row-major sparse matrices: row selection and column compaction.

use vstd::prelude::*;
use vstd::pervasive::VecAdditionalExecFns;
use crate::sparse::{Entry, MAX_COLS, sv_wf, sv_bounded, sv_clone};

verus! {

/// A row-major sparse matrix of fixed-point values.
pub struct SparseMat {
    pub rows: Vec<Vec<Entry>>,
    pub n_cols: usize,
}

/// Some row of `rows` stores an entry for column `c`.
pub open spec fn col_used(rows: Seq<Vec<Entry>>, c: int) -> bool {
    exists|i: int, j: int|
        0 <= i < rows.len() && 0 <= j < rows[i]@.len() && (#[trigger] rows[i]@[j]).index == c
}

impl SparseMat {
    /// Every row is a well-formed sparse vector over `n_cols` columns.
    pub open spec fn wf(&self) -> bool {
        &&& self.n_cols <= MAX_COLS
        &&& forall|i: int|
            0 <= i < self.rows@.len() ==> sv_wf((#[trigger] self.rows@[i])@, self.n_cols as int)
    }

    /// Every stored value has magnitude at most `b`.
    pub open spec fn bounded(&self, b: int) -> bool {
        forall|i: int|
            0 <= i < self.rows@.len() ==> sv_bounded((#[trigger] self.rows@[i])@, b)
    }

    /// Number of rows.
    pub fn rows_len(&self) -> (r: usize)
        ensures
            r == self.rows@.len(),
    {
        self.rows.len()
    }

    /// Number of columns.
    pub fn cols(&self) -> (r: usize)
        ensures
            r == self.n_cols,
    {
        self.n_cols
    }

    /// Returns a new matrix whose row `j` is this matrix's row `idx[j]`.
    /// The column space is unchanged.
    pub fn copy_outer_dims(&self, idx: &Vec<usize>) -> (m: SparseMat)
        requires
            forall|j: int| 0 <= j < idx@.len() ==> #[trigger] idx@[j] < self.rows@.len(),
        ensures
            m.n_cols == self.n_cols,
            m.rows@.len() == idx@.len(),
            forall|j: int|
                0 <= j < idx@.len() ==> (#[trigger] m.rows@[j])@ == self.rows@[idx@[j] as int]@,
    {
        let n = idx.len();
        let mut rows: Vec<Vec<Entry>> = Vec::new();
        for j in 0..n
            invariant
                n == idx.len(),
                forall|k: int| 0 <= k < idx@.len() ==> #[trigger] idx@[k] < self.rows@.len(),
                rows@.len() == j,
                forall|k: int|
                    0 <= k < j ==> (#[trigger] rows@[k])@ == self.rows@[idx@[k] as int]@,
        {
            let r = sv_clone(&self.rows[idx[j]]);
            rows.push(r);
        }
        SparseMat { rows, n_cols: self.n_cols }
    }

    /// Drops the columns that no row stores an entry for and renumbers the
    /// remaining columns, keeping their relative order. Returns the
    /// compacted matrix and the vector mapping each new column index back
    /// to the old one.
    pub fn shrink_column_indices(&self) -> (res: (SparseMat, Vec<u32>))
        requires
            self.wf(),
        ensures
            res.0.wf(),
            res.0.n_cols == res.1@.len(),
            res.0.rows@.len() == self.rows@.len(),
            forall|k1: int, k2: int|
                0 <= k1 < k2 < res.1@.len() ==> res.1@[k1] < res.1@[k2],
            forall|k: int| 0 <= k < res.1@.len() ==> #[trigger] res.1@[k] < self.n_cols,
            forall|k: int| 0 <= k < res.1@.len() ==> col_used(self.rows@, res.1@[k] as int),
            forall|i: int|
                0 <= i < self.rows@.len()
                    ==> (#[trigger] res.0.rows@[i])@.len() == self.rows@[i]@.len(),
            forall|i: int, j: int|
                0 <= i < self.rows@.len() && 0 <= j < self.rows@[i]@.len() ==> {
                    &&& (#[trigger] res.0.rows@[i]@[j]).value == self.rows@[i]@[j].value
                    &&& res.0.rows@[i]@[j].index < res.1@.len()
                    &&& res.1@[res.0.rows@[i]@[j].index as int] == self.rows@[i]@[j].index
                },
            forall|k: int| 0 <= k < res.0.n_cols ==> col_used(res.0.rows@, k),
    {
        let n_rows = self.rows.len();
        let n_cols = self.n_cols;

        // Mark the columns that some row uses.
        let mut used: Vec<bool> = vec![false; n_cols];
        assert(forall|c: int| 0 <= c < n_cols ==> used@[c] == false);
        for i in 0..n_rows
            invariant
                n_rows == self.rows@.len(),
                n_cols == self.n_cols,
                self.wf(),
                used@.len() == n_cols,
                forall|c: int|
                    0 <= c < n_cols ==> #[trigger] used@[c] == col_used(self.rows@.take(i as int), c),
        {
            let row_len = self.rows[i].len();
            for j in 0..row_len
                invariant
                    n_rows == self.rows@.len(),
                    n_cols == self.n_cols,
                    i < n_rows,
                    self.wf(),
                    row_len == self.rows@[i as int]@.len(),
                    used@.len() == n_cols,
                    forall|c: int|
                        0 <= c < n_cols ==> #[trigger] used@[c] == (col_used(
                            self.rows@.take(i as int),
                            c,
                        ) || exists|j2: int|
                            0 <= j2 < j && (#[trigger] self.rows@[i as int]@[j2]).index == c),
            {
                let e = self.rows[i][j];
                let ghost pre = used@;
                used.set(e.index as usize, true);
                proof {
                    assert forall|c: int| 0 <= c < n_cols implies #[trigger] used@[c] == (col_used(
                        self.rows@.take(i as int),
                        c,
                    ) || exists|j2: int|
                        0 <= j2 < j + 1 && (#[trigger] self.rows@[i as int]@[j2]).index == c) by {
                        if c == e.index as int {
                            assert((#[trigger] self.rows@[i as int]@[j as int]).index == c);
                        } else {
                            assert(used@[c] == pre[c]);
                            assert(forall|j2: int|
                                0 <= j2 < j + 1 && (#[trigger] self.rows@[i as int]@[j2]).index == c
                                    ==> j2 < j);
                        }
                    }
                }
            }
            proof {
                assert forall|c: int| 0 <= c < n_cols implies #[trigger] used@[c] == col_used(
                    self.rows@.take(i + 1),
                    c,
                ) by {
                    let pfx = self.rows@.take(i as int);
                    let pfx1 = self.rows@.take(i + 1);
                    assert(forall|k: int| 0 <= k < pfx1.len() ==> #[trigger] pfx1[k] == self.rows@[k]);
                    if used@[c] {
                        if col_used(pfx, c) {
                            let (a, b) = choose|a: int, b: int|
                                0 <= a < pfx.len() && 0 <= b < pfx[a]@.len() && (#[trigger] pfx[a]@[b]).index == c;
                            assert((pfx1[a]@[b]).index == c);
                        } else {
                            let j2 = choose|j2: int|
                                0 <= j2 < row_len && (#[trigger] self.rows@[i as int]@[j2]).index == c;
                            assert((pfx1[i as int]@[j2]).index == c);
                        }
                    } else {
                        if col_used(pfx1, c) {
                            let (a, b) = choose|a: int, b: int|
                                0 <= a < pfx1.len() && 0 <= b < pfx1[a]@.len() && (#[trigger] pfx1[a]@[b]).index == c;
                            if a < i as int {
                                assert((pfx[a]@[b]).index == c);
                                assert(col_used(pfx, c));
                            } else {
                                assert((self.rows@[i as int]@[b]).index == c);
                            }
                        }
                    }
                }
            }
        }
        proof {
            assert(self.rows@.take(n_rows as int) =~= self.rows@);
        }

        // Number the used columns in increasing order.
        let mut map: Vec<u32> = Vec::new();
        let mut newcol: Vec<u32> = vec![0u32; n_cols];
        for c in 0..n_cols
            invariant
                n_cols == self.n_cols,
                n_cols <= MAX_COLS,
                used@.len() == n_cols,
                newcol@.len() == n_cols,
                map@.len() <= c,
                forall|c2: int| 0 <= c2 < n_cols ==> #[trigger] used@[c2] == col_used(self.rows@, c2),
                forall|k1: int, k2: int| 0 <= k1 < k2 < map@.len() ==> map@[k1] < map@[k2],
                forall|k: int| 0 <= k < map@.len() ==> #[trigger] map@[k] < c,
                forall|k: int| 0 <= k < map@.len() ==> used@[#[trigger] map@[k] as int],
                forall|c2: int|
                    0 <= c2 < c && used@[c2] ==> {
                        &&& (#[trigger] newcol@[c2]) < map@.len()
                        &&& map@[newcol@[c2] as int] == c2
                    },
        {
            if used[c] {
                newcol.set(c, map.len() as u32);
                map.push(c as u32);
            }
        }

        // Renumber every row through `newcol`.
        let mut rows: Vec<Vec<Entry>> = Vec::new();
        for i in 0..n_rows
            invariant
                n_rows == self.rows@.len(),
                n_cols == self.n_cols,
                self.wf(),
                used@.len() == n_cols,
                newcol@.len() == n_cols,
                forall|c2: int| 0 <= c2 < n_cols ==> #[trigger] used@[c2] == col_used(self.rows@, c2),
                forall|k1: int, k2: int| 0 <= k1 < k2 < map@.len() ==> map@[k1] < map@[k2],
                forall|k: int| 0 <= k < map@.len() ==> #[trigger] map@[k] < n_cols,
                forall|k: int| 0 <= k < map@.len() ==> used@[#[trigger] map@[k] as int],
                forall|c2: int|
                    0 <= c2 < n_cols && used@[c2] ==> {
                        &&& (#[trigger] newcol@[c2]) < map@.len()
                        &&& map@[newcol@[c2] as int] == c2
                    },
                rows@.len() == i,
                forall|i2: int|
                    0 <= i2 < i ==> (#[trigger] rows@[i2])@.len() == self.rows@[i2]@.len(),
                forall|i2: int, j: int|
                    0 <= i2 < i && 0 <= j < self.rows@[i2]@.len() ==> {
                        &&& (#[trigger] rows@[i2]@[j]).value == self.rows@[i2]@[j].value
                        &&& rows@[i2]@[j].index < map@.len()
                        &&& map@[rows@[i2]@[j].index as int] == self.rows@[i2]@[j].index
                    },
                forall|i2: int| 0 <= i2 < i ==> sv_wf((#[trigger] rows@[i2])@, map@.len() as int),
        {
            let row_len = self.rows[i].len();
            let mut nr: Vec<Entry> = Vec::new();
            for j in 0..row_len
                invariant
                    n_rows == self.rows@.len(),
                    n_cols == self.n_cols,
                    i < n_rows,
                    self.wf(),
                    row_len == self.rows@[i as int]@.len(),
                    used@.len() == n_cols,
                    newcol@.len() == n_cols,
                    forall|c2: int|
                        0 <= c2 < n_cols ==> #[trigger] used@[c2] == col_used(self.rows@, c2),
                    forall|k1: int, k2: int| 0 <= k1 < k2 < map@.len() ==> map@[k1] < map@[k2],
                    forall|k: int| 0 <= k < map@.len() ==> #[trigger] map@[k] < n_cols,
                    forall|c2: int|
                        0 <= c2 < n_cols && used@[c2] ==> {
                            &&& (#[trigger] newcol@[c2]) < map@.len()
                            &&& map@[newcol@[c2] as int] == c2
                        },
                    nr@.len() == j,
                    forall|j2: int|
                        0 <= j2 < j ==> {
                            &&& (#[trigger] nr@[j2]).value == self.rows@[i as int]@[j2].value
                            &&& nr@[j2].index < map@.len()
                            &&& map@[nr@[j2].index as int] == self.rows@[i as int]@[j2].index
                        },
            {
                let e = self.rows[i][j];
                proof {
                    assert(col_used(self.rows@, e.index as int)) by {
                        assert((#[trigger] self.rows@[i as int]@[j as int]).index == e.index as int);
                    }
                }
                let ne = Entry { index: newcol[e.index as usize], value: e.value };
                nr.push(ne);
            }
            proof {
                assert forall|j1: int, j2: int| 0 <= j1 < j2 < nr@.len() implies nr@[j1].index
                    < nr@[j2].index by {
                    let o1 = self.rows@[i as int]@[j1].index as int;
                    let o2 = self.rows@[i as int]@[j2].index as int;
                    assert(o1 < o2);
                    let n1 = nr@[j1].index as int;
                    let n2 = nr@[j2].index as int;
                    assert(map@[n1] == o1 && map@[n2] == o2);
                    if n1 > n2 {
                        assert(map@[n2] < map@[n1]);
                    }
                    if n1 == n2 {
                        assert(map@[n1] == map@[n2]);
                    }
                }
            }
            rows.push(nr);
        }
        let m = SparseMat { rows, n_cols: map.len() };
        proof {
            assert forall|k: int| 0 <= k < m.n_cols implies col_used(m.rows@, k) by {
                assert(col_used(self.rows@, map@[k] as int));
                let (i, j) = choose|i: int, j: int|
                    0 <= i < self.rows@.len() && 0 <= j < self.rows@[i]@.len() && (
                    #[trigger] self.rows@[i]@[j]).index == map@[k] as int;
                let nk = m.rows@[i]@[j].index as int;
                assert(map@[nk] == self.rows@[i]@[j].index);
                assert(nk == k) by {
                    if nk < k {
                        assert(map@[nk] < map@[k]);
                    }
                    if nk > k {
                        assert(map@[k] < map@[nk]);
                    }
                }
                assert((#[trigger] m.rows@[i]@[j]).index == k);
            }
        }
        (m, map)
    }
}

} // verus!
