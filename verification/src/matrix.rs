//! Dense matrices of field elements, stored row by row, together with the
//! matrix-vector product that sharing and reconstruction are built on.

use vstd::prelude::*;

use crate::galois::{GfTables, GF};

verus! {

/// A two-dimensional array of field elements with a fixed number of columns.
pub struct Matrix {
    rows: Vec<Vec<GF>>,
    cols: usize,
}

/// The sum over the first `k` positions of the products `row[j] * v[j]`.
pub open spec fn spec_dot_prefix(t: GfTables, row: Seq<GF>, v: Seq<GF>, k: int) -> GF
    decreases k,
{
    if k <= 0 {
        GF { val: 0 }
    } else {
        t.spec_add(
            spec_dot_prefix(t, row, v, k - 1),
            t.spec_mul(row[k - 1], v[k - 1]),
        )
    }
}

/// The inner product of a matrix row with a vector.
pub open spec fn spec_dot(t: GfTables, row: Seq<GF>, v: Seq<GF>) -> GF {
    spec_dot_prefix(t, row, v, row.len() as int)
}

/// Every element of the sequence is canonical in the field.
pub open spec fn all_valid(t: GfTables, s: Seq<GF>) -> bool {
    forall|i: int| 0 <= i < s.len() ==> t.valid(#[trigger] s[i])
}

/// The pointwise sum of two equally long vectors.
pub open spec fn spec_add_vec(t: GfTables, u: Seq<GF>, v: Seq<GF>) -> Seq<GF> {
    Seq::new(u.len(), |i: int| t.spec_add(u[i], v[i]))
}

impl Matrix {
    /// The rows of the matrix.
    pub closed spec fn view(self) -> Seq<Seq<GF>> {
        Seq::new(self.rows@.len(), |i: int| self.rows@[i]@)
    }

    /// The number of rows.
    pub open spec fn spec_rows(self) -> int {
        self.view().len() as int
    }

    /// The number of columns.
    pub closed spec fn spec_cols(self) -> int {
        self.cols as int
    }

    /// The entry in row `i`, column `j`.
    pub open spec fn spec_index(self, i: int, j: int) -> GF {
        self.view()[i][j]
    }

    /// Every row has exactly `cols` entries, all of them canonical.
    pub open spec fn wf(self, t: GfTables) -> bool {
        forall|i: int|
            0 <= i < self.spec_rows() ==> (#[trigger] self.view()[i]).len() == self.spec_cols()
                && all_valid(t, self.view()[i])
    }

    /// Build a matrix from its rows; every row must have length `cols`.
    pub fn from_rows(rows: Vec<Vec<GF>>, cols: usize) -> (r: Matrix)
        requires
            forall|i: int| 0 <= i < rows@.len() ==> (#[trigger] rows@[i])@.len() == cols,
        ensures
            r.spec_rows() == rows@.len(),
            r.spec_cols() == cols,
            forall|i: int| #![trigger r.view()[i]] 0 <= i < rows@.len() ==> r.view()[i]
                == rows@[i]@,
    {
        Matrix { rows, cols }
    }

    /// The number of rows.
    pub fn num_rows(&self) -> (r: usize)
        ensures
            r == self.spec_rows(),
    {
        self.rows.len()
    }

    /// The number of columns.
    pub fn num_cols(&self) -> (r: usize)
        ensures
            r == self.spec_cols(),
    {
        self.cols
    }

    /// Read one entry.
    pub fn get(&self, i: usize, j: usize) -> (r: GF)
        requires
            0 <= i < self.spec_rows(),
            (0 <= j < self.spec_cols()),
            self.view()[i as int].len() == self.spec_cols(),
        ensures
            r == self.spec_index(i as int, j as int),
    {
        self.rows[i][j]
    }

    /// Borrow one row.
    pub fn row(&self, i: usize) -> (r: &Vec<GF>)
        requires
            0 <= i < self.spec_rows(),
        ensures
            r@ == self.view()[i as int],
    {
        &self.rows[i]
    }

    /// Multiply one row of the matrix with a vector.
    pub fn dot_row(&self, t: &GfTables, i: usize, v: &Vec<GF>) -> (r: GF)
        requires
            t.wf(),
            self.wf(*t),
            0 <= i < self.spec_rows(),
            v@.len() == self.spec_cols(),
            all_valid(*t, v@),
        ensures
            r == spec_dot(*t, self.view()[i as int], v@),
            t.valid(r),
    {
        proof {
            t.lemma_order_bound();
        }
        let row = &self.rows[i];
        let ghost rs = self.view()[i as int];
        let mut acc = GF::zero();
        let mut j: usize = 0;
        while j < row.len()
            invariant
                t.wf(),
                rs == row@,
                rs.len() == v@.len(),
                all_valid(*t, rs),
                all_valid(*t, v@),
                j <= rs.len(),
                acc == spec_dot_prefix(*t, rs, v@, j as int),
                t.valid(acc),
            decreases row.len() - j,
        {
            let p = t.mul(row[j], v[j]);
            acc = t.add(acc, p);
            j += 1;
        }
        acc
    }

    /// Multiply the matrix with a vector: one inner product per row.
    pub fn dot(&self, t: &GfTables, v: &Vec<GF>) -> (r: Vec<GF>)
        requires
            t.wf(),
            self.wf(*t),
            v@.len() == self.spec_cols(),
            all_valid(*t, v@),
        ensures
            r@.len() == self.spec_rows(),
            forall|i: int|
                0 <= i < self.spec_rows() ==> r@[i] == spec_dot(*t, self.view()[i], v@),
            all_valid(*t, r@),
    {
        let mut r: Vec<GF> = Vec::new();
        let mut i: usize = 0;
        let n = self.num_rows();
        while i < n
            invariant
                t.wf(),
                self.wf(*t),
                v@.len() == self.spec_cols(),
                all_valid(*t, v@),
                n == self.spec_rows(),
                i <= n,
                r@.len() == i,
                forall|k: int| 0 <= k < i ==> r@[k] == spec_dot(*t, self.view()[k], v@),
                all_valid(*t, r@),
            decreases n - i,
        {
            let x = self.dot_row(t, i, v);
            r.push(x);
            i += 1;
        }
        r
    }

    /// The transposed matrix.
    pub fn transpose(&self, t: &GfTables) -> (r: Matrix)
        requires
            t.wf(),
            self.wf(*t),
        ensures
            r.spec_rows() == self.spec_cols(),
            r.spec_cols() == self.spec_rows(),
            r.wf(*t),
            forall|i: int, j: int|
                0 <= i < self.spec_cols() && 0 <= j < self.spec_rows() ==> r.spec_index(i, j)
                    == self.spec_index(j, i),
    {
        let rows = self.num_rows();
        let cols = self.num_cols();
        let mut out: Vec<Vec<GF>> = Vec::new();
        let mut i: usize = 0;
        while i < cols
            invariant
                t.wf(),
                self.wf(*t),
                rows == self.spec_rows(),
                cols == self.spec_cols(),
                i <= cols,
                out@.len() == i,
                forall|a: int| 0 <= a < i ==> (#[trigger] out@[a])@.len() == rows,
                forall|a: int, b: int|
                    0 <= a < i && 0 <= b < rows ==> (#[trigger] out@[a]@[b]) == self.spec_index(
                        b,
                        a,
                    ),
            decreases cols - i,
        {
            let mut line: Vec<GF> = Vec::new();
            let mut j: usize = 0;
            while j < rows
                invariant
                    t.wf(),
                    self.wf(*t),
                    rows == self.spec_rows(),
                    cols == self.spec_cols(),
                    i < cols,
                    j <= rows,
                    line@.len() == j,
                    forall|b: int| 0 <= b < j ==> (#[trigger] line@[b]) == self.spec_index(
                        b,
                        i as int,
                    ),
                decreases rows - j,
            {
                line.push(self.get(j, i));
                j += 1;
            }
            out.push(line);
            i += 1;
        }
        let r = Matrix::from_rows(out, rows);
        proof {
            assert forall|a: int| 0 <= a < r.spec_rows() implies (#[trigger] r.view()[a]).len()
                == r.spec_cols() && all_valid(*t, r.view()[a]) by {
                assert(r.view()[a] == out@[a]@);
                assert forall|b: int| 0 <= b < rows implies t.valid(#[trigger] r.view()[a][b]) by {
                    assert(r.view()[a][b] == self.spec_index(b, a));
                    assert(all_valid(*t, self.view()[b]));
                    assert(t.valid(self.view()[b][a]));
                };
            };
            assert forall|a: int, b: int|
                0 <= a < self.spec_cols() && 0 <= b < self.spec_rows() implies r.spec_index(a, b)
                == self.spec_index(b, a) by {
                assert(r.view()[a] == out@[a]@);
            };
        }
        r
    }
}

/// Copy a contiguous stretch of a vector of field elements.
pub fn subvec(v: &Vec<GF>, a: usize, b: usize) -> (r: Vec<GF>)
    requires
        a <= b <= v@.len(),
    ensures
        r@ == v@.subrange(a as int, b as int),
{
    let mut r: Vec<GF> = Vec::new();
    let mut i: usize = a;
    while i < b
        invariant
            a <= i <= b <= v@.len(),
            r@.len() == i - a,
            forall|k: int| 0 <= k < i - a ==> #[trigger] r@[k] == v@[a + k],
        decreases b - i,
    {
        r.push(v[i]);
        i += 1;
    }
    proof {
        assert(r@ =~= v@.subrange(a as int, b as int));
    }
    r
}

/// The inner product is linear: against a pointwise sum it splits into the
/// sum of the two inner products.
pub proof fn lemma_dot_prefix_linear(t: GfTables, row: Seq<GF>, u: Seq<GF>, v: Seq<GF>, k: int)
    requires
        t.wf(),
        all_valid(t, row),
        all_valid(t, u),
        all_valid(t, v),
        u.len() == v.len(),
        row.len() <= u.len(),
        k <= row.len(),
    ensures
        spec_dot_prefix(t, row, spec_add_vec(t, u, v), k) == t.spec_add(
            spec_dot_prefix(t, row, u, k),
            spec_dot_prefix(t, row, v, k),
        ),
        t.valid(spec_dot_prefix(t, row, u, k)),
        t.valid(spec_dot_prefix(t, row, v, k)),
    decreases k,
{
    let z = GF { val: 0 };
    t.lemma_order_bound();
    if k <= 0 {
        t.lemma_add_laws(z, z, z);
    } else {
        lemma_dot_prefix_linear(t, row, u, v, k - 1);
        let du = spec_dot_prefix(t, row, u, k - 1);
        let dv = spec_dot_prefix(t, row, v, k - 1);
        let pu = t.spec_mul(row[k - 1], u[k - 1]);
        let pv = t.spec_mul(row[k - 1], v[k - 1]);
        t.lemma_mul_props(row[k - 1], u[k - 1]);
        t.lemma_mul_props(row[k - 1], v[k - 1]);
        t.lemma_mul_distrib(row[k - 1], u[k - 1], v[k - 1]);
        // Rearrange (du + dv) + (pu + pv) into (du + pu) + (dv + pv): all
        // four summands are XORed together either way.
        let a = du.val;
        let b = dv.val;
        let c = pu.val;
        let d = pv.val;
        assert(((a ^ b) ^ (c ^ d)) == ((a ^ c) ^ (b ^ d))) by (bit_vector);
        t.lemma_add_laws(du, pu, z);
        t.lemma_add_laws(dv, pv, z);
        t.lemma_add_laws(t.spec_add(du, pu), t.spec_add(dv, pv), z);
    }
}

/// Linearity of the full inner product.
pub proof fn lemma_dot_linear(t: GfTables, row: Seq<GF>, u: Seq<GF>, v: Seq<GF>)
    requires
        t.wf(),
        all_valid(t, row),
        all_valid(t, u),
        all_valid(t, v),
        u.len() == v.len(),
        row.len() <= u.len(),
    ensures
        spec_dot(t, row, spec_add_vec(t, u, v)) == t.spec_add(
            spec_dot(t, row, u),
            spec_dot(t, row, v),
        ),
{
    lemma_dot_prefix_linear(t, row, u, v, row.len() as int);
}

} // verus!
