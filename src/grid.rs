//! A fixed-size two-dimensional table of counters, and the longest common
//! subsequence table of two line sequences built in it.
use vstd::prelude::*;

verus! {

/// A `num_rows` by `num_cols` table of `usize`, stored row by row.
pub struct Grid {
    num_rows: usize,
    num_cols: usize,
    elems: Vec<usize>,
}

proof fn lemma_index_bounds(r: int, c: int, rows: int, cols: int)
    requires
        0 <= r < rows,
        0 <= c < cols,
    ensures
        0 <= r * cols + c < rows * cols,
{
    assert(r * cols + c < rows * cols) by (nonlinear_arith)
        requires 0 <= r < rows, 0 <= c < cols;
    assert(0 <= r * cols) by (nonlinear_arith)
        requires 0 <= r, 0 <= cols;
}

proof fn lemma_index_distinct(r1: int, c1: int, r2: int, c2: int, cols: int)
    requires
        0 <= r1,
        0 <= r2,
        0 <= c1 < cols,
        0 <= c2 < cols,
        r1 != r2 || c1 != c2,
    ensures
        r1 * cols + c1 != r2 * cols + c2,
{
    if r1 == r2 {
    } else if r1 < r2 {
        assert(r1 * cols + c1 < r2 * cols + c2) by (nonlinear_arith)
            requires r1 < r2, 0 <= c1 < cols, 0 <= c2;
    } else {
        assert(r2 * cols + c2 < r1 * cols + c1) by (nonlinear_arith)
            requires r2 < r1, 0 <= c2 < cols, 0 <= c1;
    }
}

impl Grid {
    pub closed spec fn rows(&self) -> nat {
        self.num_rows as nat
    }

    pub closed spec fn cols(&self) -> nat {
        self.num_cols as nat
    }

    /// The value at row `r`, column `c`.
    pub closed spec fn cell(&self, r: int, c: int) -> usize {
        self.elems@[r * self.num_cols + c]
    }

    pub closed spec fn wf(&self) -> bool {
        &&& self.elems@.len() == self.num_rows * self.num_cols
        &&& self.num_rows * self.num_cols <= usize::MAX
    }

    /// A table of zeros.
    pub fn new(num_rows: usize, num_cols: usize) -> (r: Grid)
        requires
            num_rows * num_cols <= usize::MAX,
        ensures
            r.wf(),
            r.rows() == num_rows,
            r.cols() == num_cols,
            forall|i: int, j: int| 0 <= i < num_rows && 0 <= j < num_cols ==> #[trigger] r.cell(i, j) == 0,
    {
        let n = num_rows * num_cols;
        let mut elems: Vec<usize> = Vec::new();
        let mut k: usize = 0;
        while k < n
            invariant
                k <= n,
                elems@.len() == k,
                forall|i: int| 0 <= i < k ==> elems@[i] == 0,
            decreases n - k,
        {
            elems.push(0);
            k += 1;
        }
        let g = Grid { num_rows, num_cols, elems };
        assert forall|i: int, j: int| 0 <= i < num_rows && 0 <= j < num_cols implies #[trigger] g.cell(i, j) == 0 by {
            lemma_index_bounds(i, j, num_rows as int, num_cols as int);
        }
        g
    }

    /// The number of rows and of columns.
    pub fn size(&self) -> (r: (usize, usize))
        ensures
            r.0 == self.rows(),
            r.1 == self.cols(),
    {
        (self.num_rows, self.num_cols)
    }

    /// The value at (`row`, `col`), if that cell exists.
    pub fn get(&self, row: usize, col: usize) -> (r: Option<usize>)
        requires
            self.wf(),
        ensures
            row < self.rows() && col < self.cols() ==> r == Some(self.cell(row as int, col as int)),
            !(row < self.rows() && col < self.cols()) ==> r is None,
    {
        if row < self.num_rows && col < self.num_cols {
            proof {
                lemma_index_bounds(row as int, col as int, self.num_rows as int, self.num_cols as int);
            }
            Some(self.elems[row * self.num_cols + col])
        } else {
            None
        }
    }

    /// Stores `val` at (`row`, `col`); fails, changing nothing, if that cell
    /// does not exist.
    pub fn set(&mut self, row: usize, col: usize, val: usize) -> (r: Result<(), &'static str>)
        requires
            old(self).wf(),
        ensures
            final(self).wf(),
            final(self).rows() == old(self).rows(),
            final(self).cols() == old(self).cols(),
            r is Ok <==> (row < old(self).rows() && col < old(self).cols()),
            r is Ok ==> final(self).cell(row as int, col as int) == val,
            forall|i: int, j: int|
                0 <= i < old(self).rows() && 0 <= j < old(self).cols() && !(r is Ok && i == row && j == col)
                    ==> #[trigger] final(self).cell(i, j) == old(self).cell(i, j),
    {
        if row < self.num_rows && col < self.num_cols {
            proof {
                lemma_index_bounds(row as int, col as int, self.num_rows as int, self.num_cols as int);
            }
            let ghost before = *self;
            self.elems.set(row * self.num_cols + col, val);
            assert forall|i: int, j: int|
                0 <= i < before.rows() && 0 <= j < before.cols() && !(i == row && j == col)
                    implies #[trigger] self.cell(i, j) == before.cell(i, j) by {
                lemma_index_distinct(i, j, row as int, col as int, self.num_cols as int);
                lemma_index_bounds(i, j, self.num_rows as int, self.num_cols as int);
            }
            Ok(())
        } else {
            Err("Grid::set: index out of bounds")
        }
    }
}

/// Length of a longest common subsequence of `a` and `b`.
pub open spec fn lcs_len(a: Seq<Seq<char>>, b: Seq<Seq<char>>) -> nat
    decreases a.len() + b.len(),
{
    if a.len() == 0 || b.len() == 0 {
        0
    } else if a.last() == b.last() {
        lcs_len(a.drop_last(), b.drop_last()) + 1
    } else {
        let x = lcs_len(a.drop_last(), b);
        let y = lcs_len(a, b.drop_last());
        if x >= y {
            x
        } else {
            y
        }
    }
}

proof fn lemma_lcs_bound(a: Seq<Seq<char>>, b: Seq<Seq<char>>)
    ensures
        lcs_len(a, b) <= a.len(),
    decreases a.len() + b.len(),
{
    if a.len() == 0 || b.len() == 0 {
    } else if a.last() == b.last() {
        lemma_lcs_bound(a.drop_last(), b.drop_last());
    } else {
        lemma_lcs_bound(a.drop_last(), b);
        lemma_lcs_bound(a, b.drop_last());
    }
}

/// The lines of `v` as character sequences.
pub open spec fn lines(v: Seq<String>) -> Seq<Seq<char>> {
    v.map_values(|s: String| s@)
}

/// The table whose cell (i, j) is the length of a longest common subsequence
/// of the first i lines of `seq1` and the first j lines of `seq2`.
pub fn lcs(seq1: &Vec<String>, seq2: &Vec<String>) -> (r: Grid)
    requires
        (seq1@.len() + 1) * (seq2@.len() + 1) <= usize::MAX,
    ensures
        r.wf(),
        r.rows() == seq1@.len() + 1,
        r.cols() == seq2@.len() + 1,
        forall|i: int, j: int|
            0 <= i <= seq1@.len() && 0 <= j <= seq2@.len() ==> #[trigger] r.cell(i, j) == lcs_len(
                lines(seq1@).take(i),
                lines(seq2@).take(j),
            ),
{
    assert(seq1@.len() + 1 <= usize::MAX && seq2@.len() + 1 <= usize::MAX) by (nonlinear_arith)
        requires (seq1@.len() + 1) * (seq2@.len() + 1) <= usize::MAX;
    let ghost a = lines(seq1@);
    let ghost b = lines(seq2@);
    let m = seq1.len() + 1;
    let n = seq2.len() + 1;
    let mut c = Grid::new(m, n);
    assert forall|i: int, j: int| 0 <= i < m && 0 <= j < n && (i == 0 || j == 0) implies #[trigger] c.cell(i, j)
        == lcs_len(a.take(i), b.take(j)) by {}
    let mut i: usize = 0;
    while i < m - 1
        invariant
            m == seq1@.len() + 1,
            n == seq2@.len() + 1,
            a == lines(seq1@),
            b == lines(seq2@),
            c.wf(),
            c.rows() == m,
            c.cols() == n,
            i < m,
            forall|p: int, q: int|
                0 <= p < m && 0 <= q < n && (p <= i || q == 0) ==> #[trigger] c.cell(p, q) == lcs_len(
                    a.take(p),
                    b.take(q),
                ),
        decreases m - i,
    {
        let mut j: usize = 0;
        while j < n - 1
            invariant
                m == seq1@.len() + 1,
                n == seq2@.len() + 1,
                a == lines(seq1@),
                b == lines(seq2@),
                c.wf(),
                c.rows() == m,
                c.cols() == n,
                i < m - 1,
                j < n,
                forall|p: int, q: int|
                    0 <= p < m && 0 <= q < n && (p <= i || q == 0 || (p == i + 1 && q <= j))
                        ==> #[trigger] c.cell(p, q) == lcs_len(a.take(p), b.take(q)),
            decreases n - j,
        {
            let ghost ai = a.take(i + 1);
            let ghost bj = b.take(j + 1);
            assert(ai.drop_last() =~= a.take(i as int));
            assert(bj.drop_last() =~= b.take(j as int));
            assert(ai.last() == seq1@[i as int]@);
            assert(bj.last() == seq2@[j as int]@);
            let ghost before = c;
            let v: usize;
            if seq1[i] == seq2[j] {
                let d = c.get(i, j).unwrap();
                proof {
                    lemma_lcs_bound(a.take(i as int), b.take(j as int));
                }
                v = d + 1;
            } else {
                let up = c.get(i + 1, j).unwrap();
                let left = c.get(i, j + 1).unwrap();
                v = if up >= left { up } else { left };
            }
            let _ = c.set(i + 1, j + 1, v);
            assert forall|p: int, q: int|
                0 <= p < m && 0 <= q < n && (p <= i || q == 0 || (p == i + 1 && q <= j + 1))
                    implies #[trigger] c.cell(p, q) == lcs_len(a.take(p), b.take(q)) by {
                if !(p == i + 1 && q == j + 1) {
                    assert(c.cell(p, q) == before.cell(p, q));
                }
            }
            j += 1;
        }
        i += 1;
    }
    c
}

} // verus!
