//! Polynomial interpolation matrices over GF(2^w): Lagrange coefficients,
//! Reed-Solomon generators, super-invertible matrices, and ordered index
//! selections.

use vstd::prelude::*;

use crate::galois::{GfTables, GF};
use crate::matrix::{all_valid, Matrix};

verus! {

/// A sequence without repeated elements.
pub open spec fn distinct_seq(s: Seq<GF>) -> bool {
    forall|i: int, j: int| 0 <= i < j < s.len() ==> s[i] != s[j]
}

/// `v` occurs in `s`.
pub open spec fn in_seq(s: Seq<GF>, v: GF) -> bool {
    exists|k: int| 0 <= k < s.len() && s[k] == v
}

/// Product over `j < k`, `j != i`, of the differences `cpos[i] - cpos[j]`.
pub open spec fn spec_denom_prefix(t: GfTables, cpos: Seq<GF>, i: int, k: int) -> GF
    decreases k,
{
    if k <= 0 {
        GF { val: 1 }
    } else {
        let prev = spec_denom_prefix(t, cpos, i, k - 1);
        if k - 1 == i {
            prev
        } else {
            t.spec_mul(prev, t.spec_add(cpos[i], cpos[k - 1]))
        }
    }
}

/// The Lagrange denominator for index `i`: the product of `cpos[i] - cpos[j]`
/// over all `j != i`.
pub open spec fn spec_denom(t: GfTables, cpos: Seq<GF>, i: int) -> GF {
    spec_denom_prefix(t, cpos, i, cpos.len() as int)
}

/// Product over `j < k` of the differences `v - cpos[j]`.
pub open spec fn spec_numer_prefix(t: GfTables, cpos: Seq<GF>, v: GF, k: int) -> GF
    decreases k,
{
    if k <= 0 {
        GF { val: 1 }
    } else {
        t.spec_mul(spec_numer_prefix(t, cpos, v, k - 1), t.spec_add(v, cpos[k - 1]))
    }
}

/// The Lagrange numerator for target `v`: the product of `v - cpos[j]` over
/// all `j`.
pub open spec fn spec_numer(t: GfTables, cpos: Seq<GF>, v: GF) -> GF {
    spec_numer_prefix(t, cpos, v, cpos.len() as int)
}

/// The Lagrange coefficient of evaluation point `cpos[j]` for target `v`:
/// a selection when `v` is itself an evaluation point, and otherwise
/// `numer / ((v - cpos[j]) * denom[j])`.
pub open spec fn spec_lagrange_entry(t: GfTables, cpos: Seq<GF>, v: GF, j: int) -> GF {
    if in_seq(cpos, v) {
        if cpos[j] == v {
            GF { val: 1 }
        } else {
            GF { val: 0 }
        }
    } else {
        t.spec_div(
            spec_numer(t, cpos, v),
            t.spec_mul(t.spec_add(v, cpos[j]), spec_denom(t, cpos, j)),
        )
    }
}

proof fn lemma_distinct_add_nonzero(t: GfTables, a: GF, b: GF)
    requires
        t.wf(),
        a != b,
    ensures
        t.spec_add(a, b).val != 0,
{
    let x = a.val;
    let y = b.val;
    assert((x != y) ==> (x ^ y) != 0) by (bit_vector);
}

proof fn lemma_denom_prefix_props(t: GfTables, cpos: Seq<GF>, i: int, k: int)
    requires
        t.wf(),
        all_valid(t, cpos),
        distinct_seq(cpos),
        0 <= i < cpos.len(),
        k <= cpos.len(),
    ensures
        t.valid(spec_denom_prefix(t, cpos, i, k)),
        spec_denom_prefix(t, cpos, i, k).val != 0,
    decreases k,
{
    t.lemma_order_bound();
    if k > 0 {
        lemma_denom_prefix_props(t, cpos, i, k - 1);
        if k - 1 != i {
            let prev = spec_denom_prefix(t, cpos, i, k - 1);
            lemma_distinct_add_nonzero(t, cpos[i], cpos[k - 1]);
            t.lemma_add_laws(cpos[i], cpos[k - 1], cpos[i]);
            t.lemma_mul_props(prev, t.spec_add(cpos[i], cpos[k - 1]));
        }
    }
}

/// When the target `v` coincides with the evaluation point `cpos[idx]`, the
/// Lagrange coefficients reduce to the unit row selecting position `idx`.
pub proof fn lemma_lagrange_unit_row(t: GfTables, cpos: Seq<GF>, v: GF, idx: int, j: int)
    requires
        t.wf(),
        distinct_seq(cpos),
        0 <= idx < cpos.len(),
        cpos[idx] == v,
        0 <= j < cpos.len(),
    ensures
        spec_lagrange_entry(t, cpos, v, j) == if j == idx {
            GF { val: 1 }
        } else {
            GF { val: 0 }
        },
{
    assert(in_seq(cpos, v));
}

/// Compute the Lagrange coefficient matrix mapping evaluations of a
/// polynomial at the points `cpos` to its evaluations at the points `npos`.
/// Row `i` holds the coefficients for target `npos[i]`.
pub fn lagrange_coeffs(t: &GfTables, cpos: &Vec<GF>, npos: &Vec<GF>) -> (m: Matrix)
    requires
        t.wf(),
        all_valid(*t, cpos@),
        all_valid(*t, npos@),
        distinct_seq(cpos@),
        distinct_seq(npos@),
        cpos@.len() >= 1,
    ensures
        m.spec_rows() == npos@.len(),
        m.spec_cols() == cpos@.len(),
        m.wf(*t),
        forall|i: int, j: int|
            0 <= i < npos@.len() && 0 <= j < cpos@.len() ==> m.spec_index(i, j)
                == spec_lagrange_entry(*t, cpos@, npos@[i], j),
{
    proof {
        t.lemma_order_bound();
    }
    let nc = cpos.len();

    // Denominators: denom[i] is the product of cpos[i] - cpos[j] over j != i.
    let mut denom: Vec<GF> = Vec::new();
    let mut i: usize = 0;
    while i < nc
        invariant
            t.wf(),
            all_valid(*t, cpos@),
            distinct_seq(cpos@),
            nc == cpos@.len(),
            i <= nc,
            denom@.len() == i,
            forall|k: int| 0 <= k < i ==> #[trigger] denom@[k] == spec_denom(*t, cpos@, k),
        decreases nc - i,
    {
        proof {
            t.lemma_order_bound();
        }
        let mut acc = GF::one();
        let mut j: usize = 0;
        while j < nc
            invariant
                t.wf(),
                all_valid(*t, cpos@),
                distinct_seq(cpos@),
                nc == cpos@.len(),
                i < nc,
                j <= nc,
                t.valid(acc),
                acc == spec_denom_prefix(*t, cpos@, i as int, j as int),
            decreases nc - j,
        {
            if j != i {
                acc = t.mul(acc, t.sub(cpos[i], cpos[j]));
            }
            j += 1;
        }
        denom.push(acc);
        i += 1;
    }

    let mut rows_v: Vec<Vec<GF>> = Vec::new();
    let mut r: usize = 0;
    while r < npos.len()
        invariant
            t.wf(),
            all_valid(*t, cpos@),
            all_valid(*t, npos@),
            distinct_seq(cpos@),
            nc == cpos@.len(),
            nc >= 1,
            denom@.len() == nc,
            forall|k: int| 0 <= k < nc ==> #[trigger] denom@[k] == spec_denom(*t, cpos@, k),
            r <= npos@.len(),
            rows_v@.len() == r,
            forall|a: int| 0 <= a < r ==> (#[trigger] rows_v@[a])@.len() == nc,
            forall|a: int, b: int|
                0 <= a < r && 0 <= b < nc ==> (#[trigger] rows_v@[a]@[b]) == spec_lagrange_entry(
                    *t,
                    cpos@,
                    npos@[a],
                    b,
                ),
            forall|a: int, b: int|
                0 <= a < r && 0 <= b < nc ==> t.valid(#[trigger] rows_v@[a]@[b]),
        decreases npos@.len() - r,
    {
        let v = npos[r];

        // Look for the target among the evaluation points.
        let mut found = false;
        let mut fidx: usize = 0;
        let mut j: usize = 0;
        while j < nc
            invariant
                nc == cpos@.len(),
                j <= nc,
                found <==> exists|k: int| 0 <= k < j && cpos@[k] == v,
                found ==> fidx < j && cpos@[fidx as int] == v,
            decreases nc - j,
        {
            if cpos[j] == v {
                found = true;
                fidx = j;
            }
            j += 1;
        }

        let mut row: Vec<GF> = Vec::new();
        if found {
            let mut j: usize = 0;
            while j < nc
                invariant
                    t.wf(),
                    nc == cpos@.len(),
                    j <= nc,
                    fidx < nc,
                    row@.len() == j,
                    forall|b: int|
                        0 <= b < j ==> #[trigger] row@[b] == if b == fidx {
                            (GF { val: 1 })
                        } else {
                            (GF { val: 0 })
                        },
                decreases nc - j,
            {
                if j == fidx {
                    row.push(GF::one());
                } else {
                    row.push(GF::zero());
                }
                j += 1;
            }
            proof {
                assert(in_seq(cpos@, v));
                assert forall|b: int| 0 <= b < nc implies #[trigger] row@[b]
                    == spec_lagrange_entry(*t, cpos@, v, b) && t.valid(row@[b]) by {
                    t.lemma_order_bound();
                    if b != fidx {
                        assert(cpos@[b] != v);
                    }
                };
            }
        } else {
            proof {
                assert(!in_seq(cpos@, v));
            }
            // The numerator: the product of v - cpos[j] over all j.
            proof {
                t.lemma_order_bound();
            }
            let mut numer = GF::one();
            let mut j: usize = 0;
            while j < nc
                invariant
                    t.wf(),
                    all_valid(*t, cpos@),
                    t.valid(v),
                    nc == cpos@.len(),
                    j <= nc,
                    t.valid(numer),
                    numer == spec_numer_prefix(*t, cpos@, v, j as int),
                decreases nc - j,
            {
                numer = t.mul(numer, t.sub(v, cpos[j]));
                j += 1;
            }

            let mut j: usize = 0;
            while j < nc
                invariant
                    t.wf(),
                    all_valid(*t, cpos@),
                    all_valid(*t, npos@),
                    distinct_seq(cpos@),
                    t.valid(v),
                    !in_seq(cpos@, v),
                    nc == cpos@.len(),
                    denom@.len() == nc,
                    forall|k: int|
                        0 <= k < nc ==> #[trigger] denom@[k] == spec_denom(*t, cpos@, k),
                    numer == spec_numer(*t, cpos@, v),
                    t.valid(numer),
                    j <= nc,
                    row@.len() == j,
                    forall|b: int|
                        0 <= b < j ==> #[trigger] row@[b] == spec_lagrange_entry(*t, cpos@, v, b),
                    forall|b: int| 0 <= b < j ==> t.valid(#[trigger] row@[b]),
                decreases nc - j,
            {
                proof {
                    lemma_denom_prefix_props(*t, cpos@, j as int, nc as int);
                    lemma_distinct_add_nonzero(*t, v, cpos@[j as int]);
                    t.lemma_add_laws(v, cpos@[j as int], v);
                    t.lemma_mul_props(t.spec_add(v, cpos@[j as int]), spec_denom(*t, cpos@, j as int));
                }
                let d = t.mul(t.sub(v, cpos[j]), denom[j]);
                row.push(t.div(numer, d));
                j += 1;
            }
        }
        rows_v.push(row);
        r += 1;
    }
    Matrix::from_rows(rows_v, nc)
}

/// The `e`-th power of a field element, with `b^0 == one`.
pub open spec fn spec_pow(t: GfTables, b: GF, e: nat) -> GF
    decreases e,
{
    if e == 0 {
        GF { val: 1 }
    } else {
        t.spec_mul(spec_pow(t, b, (e - 1) as nat), b)
    }
}

/// The Reed-Solomon generator matrix with `code_len` rows and `mssg_len`
/// columns: entry `(k, i)` is `(k+1)^(i+1)` in the field.
pub fn rs_gen_mat(t: &GfTables, mssg_len: usize, code_len: usize) -> (m: Matrix)
    requires
        t.wf(),
        mssg_len >= 1,
        1 <= code_len < t.spec_order(),
    ensures
        m.spec_rows() == code_len,
        m.spec_cols() == mssg_len,
        m.wf(*t),
        forall|k: int, i: int|
            0 <= k < code_len && 0 <= i < mssg_len ==> m.spec_index(k, i) == spec_pow(
                *t,
                (GF { val: (k + 1) as u32 }),
                (i + 1) as nat,
            ),
{
    proof {
        t.lemma_order_bound();
    }
    let mut rows_v: Vec<Vec<GF>> = Vec::new();
    let mut k: usize = 0;
    while k < code_len
        invariant
            t.wf(),
            t.spec_order() <= 0x20000000u32,
            mssg_len >= 1,
            1 <= code_len < t.spec_order(),
            k <= code_len,
            rows_v@.len() == k,
            forall|a: int| 0 <= a < k ==> (#[trigger] rows_v@[a])@.len() == mssg_len,
            forall|a: int, b: int|
                0 <= a < k && 0 <= b < mssg_len ==> (#[trigger] rows_v@[a]@[b]) == spec_pow(
                    *t,
                    (GF { val: (a + 1) as u32 }),
                    (b + 1) as nat,
                ),
            forall|a: int, b: int|
                0 <= a < k && 0 <= b < mssg_len ==> t.valid(#[trigger] rows_v@[a]@[b]),
        decreases code_len - k,
    {
        let b = GF { val: (k as u32) + 1 };
        proof {
            t.lemma_order_bound();
            t.lemma_mul_props((GF { val: 1 }), b);
            t.lemma_mul_ident(b);
            assert(spec_pow(*t, b, 0nat) == (GF { val: 1 }));
            assert(spec_pow(*t, b, 1nat) == t.spec_mul(spec_pow(*t, b, 0nat), b));
            assert(spec_pow(*t, b, 1nat) == b);
        }
        let mut row: Vec<GF> = Vec::new();
        let mut cur = b;
        let mut i: usize = 0;
        while i < mssg_len
            invariant
                t.wf(),
                t.valid(b),
                i <= mssg_len,
                row@.len() == i,
                cur == spec_pow(*t, b, (i + 1) as nat),
                t.valid(cur),
                forall|x: int|
                    0 <= x < i ==> (#[trigger] row@[x]) == spec_pow(*t, b, (x + 1) as nat),
                forall|x: int| 0 <= x < i ==> t.valid(#[trigger] row@[x]),
            decreases mssg_len - i,
        {
            row.push(cur);
            cur = t.mul(cur, b);
            i += 1;
        }
        rows_v.push(row);
        k += 1;
    }
    Matrix::from_rows(rows_v, mssg_len)
}

/// A super-invertible matrix with `num_out` rows and `num_inp` columns: the
/// transposed Reed-Solomon generator, so entry `(i, j)` is `(j+1)^(i+1)`.
pub fn super_inv_matrix(t: &GfTables, num_inp: usize, num_out: usize) -> (m: Matrix)
    requires
        t.wf(),
        num_inp >= num_out,
        num_out >= 1,
        num_inp < t.spec_order(),
    ensures
        m.spec_rows() == num_out,
        m.spec_cols() == num_inp,
        m.wf(*t),
        forall|i: int, j: int|
            0 <= i < num_out && 0 <= j < num_inp ==> m.spec_index(i, j) == spec_pow(
                *t,
                (GF { val: (j + 1) as u32 }),
                (i + 1) as nat,
            ),
{
    let g = rs_gen_mat(t, num_out, num_inp);
    g.transpose(t)
}

/// Failures of the binary super-invertible matrix text format.
#[derive(Debug, Clone, Copy, PartialEq, Eq, Structural)]
pub enum SupMatError {
    /// A token other than a single `0` or `1`, or a missing token.
    NonBinary,
    /// Rows of unequal length.
    Ragged,
    /// No rows at all.
    Empty,
}

/// The digit byte of a binary entry.
pub open spec fn spec_digit(e: GF) -> u8 {
    if e.val == 1 {
        49u8
    } else {
        48u8
    }
}

/// One grid row rendered as single-space-separated digit bytes.
pub open spec fn spec_render_row(row: Seq<GF>) -> Seq<u8>
    decreases row.len(),
{
    if row.len() == 0 {
        Seq::empty()
    } else if row.len() == 1 {
        seq![spec_digit(row[0])]
    } else {
        spec_render_row(row.drop_last()) + seq![32u8, spec_digit(row.last())]
    }
}

/// A grid rendered as newline-separated rows.
pub open spec fn spec_render_grid(g: Seq<Seq<GF>>) -> Seq<u8>
    decreases g.len(),
{
    if g.len() == 0 {
        Seq::empty()
    } else if g.len() == 1 {
        spec_render_row(g[0])
    } else {
        spec_render_grid(g.drop_last()) + seq![10u8] + spec_render_row(g.last())
    }
}

/// A grid rendered as full lines, each closed by a newline.
pub open spec fn spec_render_lines(g: Seq<Seq<GF>>) -> Seq<u8> {
    if g.len() == 0 {
        Seq::empty()
    } else {
        spec_render_grid(g) + seq![10u8]
    }
}

/// `m` holds exactly the entries of the grid `g`, transposed.
pub open spec fn spec_transposed(m: Matrix, g: Seq<Seq<GF>>) -> bool {
    &&& g.len() >= 1
    &&& m.spec_rows() == g[0].len()
    &&& m.spec_cols() == g.len()
    &&& (forall|i: int, j: int|
        0 <= i < m.spec_rows() && 0 <= j < m.spec_cols() ==> m.spec_index(i, j) == g[j][i])
}

/// The nested view of a vector of grid rows.
pub open spec fn grid_view(v: Vec<Vec<GF>>) -> Seq<Seq<GF>> {
    Seq::new(v@.len(), |i: int| v@[i]@)
}

/// The matrix `m` is the transpose of a nonempty rectangular binary grid
/// whose rendering, with or without a final newline, is exactly `content`.
pub open spec fn spec_supmat_parses_to(content: Seq<u8>, m: Matrix, g: Seq<Seq<GF>>) -> bool {
    &&& spec_transposed(m, g)
    &&& m.spec_rows() >= 1
    &&& (forall|a: int| 0 <= a < g.len() ==> (#[trigger] g[a]).len() == g[0].len())
    &&& (forall|a: int, b: int|
        0 <= a < g.len() && 0 <= b < g[a].len() ==> (#[trigger] g[a][b]).val <= 1)
    &&& (content == spec_render_grid(g) || content == spec_render_lines(g))
}

/// Some grid renders exactly to `content` and transposes to `m`.
pub open spec fn spec_supmat_ok(content: Seq<u8>, m: Matrix) -> bool {
    exists|g: Seq<Seq<GF>>| spec_supmat_parses_to(content, m, g)
}

/// The state of the grid reader after some prefix of the text: the finished
/// rows, the row being read, the position within the line (`0` at a line
/// start, `1` right after a digit, `2` right after a space), and whether the
/// text has already gone wrong.
pub struct SupMatState {
    /// The rows completed so far.
    pub grid: Seq<Seq<GF>>,
    /// The entries of the line being read.
    pub row: Seq<GF>,
    /// The position within the current line.
    pub st: int,
    /// Whether a byte outside the format has been seen.
    pub dead: bool,
}

/// The reader state at the start of the text.
pub open spec fn supmat_start() -> SupMatState {
    SupMatState { grid: Seq::empty(), row: Seq::empty(), st: 0, dead: false }
}

/// One byte of the grid format: a newline closes a row, a space separates
/// tokens, a digit extends the row; anything else, or any byte out of
/// place, is fatal.
pub open spec fn supmat_step(m: SupMatState, c: u8) -> SupMatState {
    if m.dead {
        m
    } else if c == 10 {
        if m.st == 1 {
            SupMatState { grid: m.grid.push(m.row), row: Seq::empty(), st: 0, dead: false }
        } else {
            SupMatState { grid: m.grid, row: m.row, st: m.st, dead: true }
        }
    } else if c == 32 {
        if m.st == 1 {
            SupMatState { grid: m.grid, row: m.row, st: 2, dead: false }
        } else {
            SupMatState { grid: m.grid, row: m.row, st: m.st, dead: true }
        }
    } else if c == 48 || c == 49 {
        if m.st == 1 {
            SupMatState { grid: m.grid, row: m.row, st: m.st, dead: true }
        } else {
            SupMatState {
                grid: m.grid,
                row: m.row.push(
                    GF {
                        val: if c == 49 {
                            1
                        } else {
                            0
                        },
                    },
                ),
                st: 1,
                dead: false,
            }
        }
    } else {
        SupMatState { grid: m.grid, row: m.row, st: m.st, dead: true }
    }
}

/// The reader state after the whole byte sequence.
pub open spec fn supmat_run(m: SupMatState, s: Seq<u8>) -> SupMatState
    decreases s.len(),
{
    if s.len() == 0 {
        m
    } else {
        supmat_run(supmat_step(m, s.first()), s.drop_first())
    }
}

/// The grid the text describes: the finished rows, plus the pending row if
/// the final line lacks a newline.
pub open spec fn supmat_final_grid(m: SupMatState) -> Seq<Seq<GF>> {
    if m.st == 1 {
        m.grid.push(m.row)
    } else {
        m.grid
    }
}

/// What reading the whole text decides: the error it earns, or nothing when
/// it is a well-formed grid.
pub open spec fn spec_supmat_outcome(s: Seq<u8>) -> Option<SupMatError> {
    let m = supmat_run(supmat_start(), s);
    let g = supmat_final_grid(m);
    if m.dead || m.st == 2 {
        Some(SupMatError::NonBinary)
    } else if g.len() == 0 {
        Some(SupMatError::Empty)
    } else if exists|a: int| 0 <= a < g.len() && (#[trigger] g[a]).len() != g[0].len() {
        Some(SupMatError::Ragged)
    } else {
        None
    }
}

proof fn lemma_supmat_run_push(m: SupMatState, s: Seq<u8>, c: u8)
    ensures
        supmat_run(m, s.push(c)) == supmat_step(supmat_run(m, s), c),
    decreases s.len(),
{
    reveal_with_fuel(supmat_run, 3);
    if s.len() == 0 {
        assert(s.push(c).first() == c);
        assert(s.push(c).drop_first() =~= Seq::<u8>::empty());
    } else {
        assert(s.push(c).first() == s.first());
        assert(s.push(c).drop_first() =~= s.drop_first().push(c));
        lemma_supmat_run_push(supmat_step(m, s.first()), s.drop_first(), c);
    }
}

proof fn lemma_supmat_run_append(m: SupMatState, s1: Seq<u8>, s2: Seq<u8>)
    ensures
        supmat_run(m, s1 + s2) == supmat_run(supmat_run(m, s1), s2),
    decreases s1.len(),
{
    reveal_with_fuel(supmat_run, 3);
    if s1.len() == 0 {
        assert(s1 + s2 =~= s2);
    } else {
        assert((s1 + s2).first() == s1.first());
        assert((s1 + s2).drop_first() =~= s1.drop_first() + s2);
        lemma_supmat_run_append(supmat_step(m, s1.first()), s1.drop_first(), s2);
    }
}

proof fn lemma_supmat_dead_absorbs(m: SupMatState, s: Seq<u8>)
    requires
        m.dead,
    ensures
        supmat_run(m, s).dead,
    decreases s.len(),
{
    if s.len() > 0 {
        lemma_supmat_dead_absorbs(supmat_step(m, s.first()), s.drop_first());
    }
}

/// The reader state at a line start with `grid` rows finished.
pub open spec fn supmat_st0(grid: Seq<Seq<GF>>) -> SupMatState {
    SupMatState { grid, row: Seq::empty(), st: 0, dead: false }
}

/// The reader state right after a digit, mid-line.
pub open spec fn supmat_st1(grid: Seq<Seq<GF>>, row: Seq<GF>) -> SupMatState {
    SupMatState { grid, row, st: 1, dead: false }
}

proof fn lemma_supmat_run_row(grid0: Seq<Seq<GF>>, row: Seq<GF>)
    requires
        row.len() >= 1,
        forall|k: int| 0 <= k < row.len() ==> (#[trigger] row[k]).val <= 1,
    ensures
        supmat_run(supmat_st0(grid0), spec_render_row(row)) == supmat_st1(grid0, row),
    decreases row.len(),
{
    reveal_with_fuel(supmat_run, 5);
    if row.len() == 1 {
        let c = spec_digit(row[0]);
        assert(c == 48 || c == 49);
        assert(spec_render_row(row) == seq![c]);
        assert(seq![c].first() == c);
        assert(seq![c].drop_first() =~= Seq::<u8>::empty());
        assert(GF { val: if c == 49 { 1u32 } else { 0u32 } } == row[0]);
        assert(Seq::<GF>::empty().push(row[0]) =~= row);
    } else {
        let rd = row.drop_last();
        assert(forall|k: int| 0 <= k < rd.len() ==> (#[trigger] rd[k]).val <= 1);
        lemma_supmat_run_row(grid0, rd);
        let c = spec_digit(row.last());
        assert(c == 48 || c == 49);
        assert(spec_render_row(row) == spec_render_row(rd) + seq![32u8, c]);
        lemma_supmat_run_append(supmat_st0(grid0), spec_render_row(rd), seq![32u8, c]);
        assert(seq![32u8, c].first() == 32u8);
        assert(seq![32u8, c].drop_first() =~= seq![c]);
        assert(seq![c].first() == c);
        assert(seq![c].drop_first() =~= Seq::<u8>::empty());
        assert(GF { val: if c == 49 { 1u32 } else { 0u32 } } == row.last());
        assert(rd.push(row.last()) =~= row);
    }
}

proof fn lemma_supmat_run_grid(g: Seq<Seq<GF>>)
    requires
        g.len() >= 1,
        forall|a: int| 0 <= a < g.len() ==> (#[trigger] g[a]).len() >= 1,
        forall|a: int, k: int|
            0 <= a < g.len() && 0 <= k < g[a].len() ==> (#[trigger] g[a][k]).val <= 1,
    ensures
        supmat_run(supmat_start(), spec_render_grid(g)) == supmat_st1(g.drop_last(), g.last()),
    decreases g.len(),
{
    reveal_with_fuel(supmat_run, 5);
    if g.len() == 1 {
        assert(spec_render_grid(g) == spec_render_row(g[0]));
        assert(supmat_start() == supmat_st0(Seq::<Seq<GF>>::empty()));
        lemma_supmat_run_row(Seq::<Seq<GF>>::empty(), g[0]);
        assert(g.drop_last() =~= Seq::<Seq<GF>>::empty());
    } else {
        let gd = g.drop_last();
        assert(forall|a: int| 0 <= a < gd.len() ==> (#[trigger] gd[a]).len() >= 1);
        assert forall|a: int, k: int|
            0 <= a < gd.len() && 0 <= k < gd[a].len() implies (#[trigger] gd[a][k]).val <= 1 by {
            assert(gd[a] == g[a]);
        };
        lemma_supmat_run_grid(gd);
        assert(spec_render_grid(g) == spec_render_grid(gd) + seq![10u8] + spec_render_row(
            g.last(),
        ));
        lemma_supmat_run_append(
            supmat_start(),
            spec_render_grid(gd) + seq![10u8],
            spec_render_row(g.last()),
        );
        lemma_supmat_run_append(supmat_start(), spec_render_grid(gd), seq![10u8]);
        assert(seq![10u8].first() == 10u8);
        assert(seq![10u8].drop_first() =~= Seq::<u8>::empty());
        assert(gd.drop_last().push(gd.last()) =~= gd);
        assert(supmat_run(supmat_start(), spec_render_grid(gd) + seq![10u8]) == supmat_st0(gd));
        lemma_supmat_run_row(gd, g.last());
    }
}

/// Well-formed grid text is always accepted: the rendering of a nonempty
/// rectangular binary grid, with or without a final newline, earns no
/// error, so by the parser's contract it parses successfully.
pub proof fn lemma_supmat_render_accepted(g: Seq<Seq<GF>>)
    requires
        g.len() >= 1,
        g[0].len() >= 1,
        forall|a: int| 0 <= a < g.len() ==> (#[trigger] g[a]).len() == g[0].len(),
        forall|a: int, k: int|
            0 <= a < g.len() && 0 <= k < g[a].len() ==> (#[trigger] g[a][k]).val <= 1,
    ensures
        spec_supmat_outcome(spec_render_grid(g)) is None,
        spec_supmat_outcome(spec_render_lines(g)) is None,
{
    reveal_with_fuel(supmat_run, 3);
    assert(forall|a: int| 0 <= a < g.len() ==> (#[trigger] g[a]).len() >= 1);
    lemma_supmat_run_grid(g);
    let m1 = supmat_st1(g.drop_last(), g.last());
    assert(supmat_final_grid(m1) =~= g);
    assert(spec_render_lines(g) == spec_render_grid(g) + seq![10u8]);
    lemma_supmat_run_append(supmat_start(), spec_render_grid(g), seq![10u8]);
    assert(seq![10u8].first() == 10u8);
    assert(seq![10u8].drop_first() =~= Seq::<u8>::empty());
    assert(g.drop_last().push(g.last()) =~= g);
    assert(supmat_run(supmat_start(), spec_render_lines(g)) == supmat_st0(g));
    assert(supmat_final_grid(supmat_st0(g)) == g);
}

proof fn lemma_supmat_dead_outcome(s: Seq<u8>, p: int)
    requires
        0 <= p < s.len(),
        supmat_run(supmat_start(), s.subrange(0, p + 1)).dead,
    ensures
        spec_supmat_outcome(s) == Some(SupMatError::NonBinary),
{
    assert(s =~= s.subrange(0, p + 1) + s.subrange(p + 1, s.len() as int));
    lemma_supmat_run_append(
        supmat_start(),
        s.subrange(0, p + 1),
        s.subrange(p + 1, s.len() as int),
    );
    lemma_supmat_dead_absorbs(
        supmat_run(supmat_start(), s.subrange(0, p + 1)),
        s.subrange(p + 1, s.len() as int),
    );
}

/// Parse a binary super-invertible matrix from its text form: one row per
/// line, tokens separated by single spaces, each token exactly `0` or `1`.
/// Parsing succeeds exactly on text the format accepts, each failure earns
/// the error the text deserves, and on success the text is exactly the
/// rendering of a rectangular binary grid, with or without a final newline,
/// whose transpose is the result.  Together with
/// [`lemma_supmat_render_accepted`], every such rendering parses.
pub fn binary_super_inv_matrix(content: &[u8]) -> (r: Result<Matrix, SupMatError>)
    ensures
        r is Ok ==> spec_supmat_ok(content@, r.unwrap()),
        r is Ok <==> spec_supmat_outcome(content@) is None,
        r matches Err(e) ==> spec_supmat_outcome(content@) == Some(e),
{
    let n = content.len();
    let mut grid: Vec<Vec<GF>> = Vec::new();
    let mut row: Vec<GF> = Vec::new();
    proof {
        assert(content@.subrange(0, 0) =~= Seq::<u8>::empty());
        assert(grid_view(grid) =~= Seq::<Seq<GF>>::empty());
        assert(supmat_run(supmat_start(), content@.subrange(0, 0)) == supmat_start());
    }
    // 0: at the start of a line, a digit is expected;
    // 1: right after a digit, a separator is expected;
    // 2: right after a space, a digit is expected.
    let mut state: u8 = 0;
    let mut p: usize = 0;
    while p < n
        invariant
            n == content@.len(),
            p <= n,
            state <= 2,
            supmat_run(supmat_start(), content@.subrange(0, p as int)) == (SupMatState {
                grid: grid_view(grid),
                row: row@,
                st: state as int,
                dead: false,
            }),
            forall|a: int| 0 <= a < grid@.len() ==> (#[trigger] grid@[a])@.len() >= 1,
            forall|a: int, b: int|
                0 <= a < grid@.len() && 0 <= b < grid@[a]@.len() ==> (#[trigger] grid@[a]@[b]).val
                    <= 1,
            forall|b: int| 0 <= b < row@.len() ==> (#[trigger] row@[b]).val <= 1,
            state == 1 ==> row@.len() >= 1,
            state == 2 ==> row@.len() >= 1,
            state == 0 ==> row@.len() == 0 && content@.subrange(0, p as int)
                == spec_render_lines(grid_view(grid)),
            state == 1 ==> content@.subrange(0, p as int) == spec_render_lines(grid_view(grid))
                + spec_render_row(row@),
            state == 2 ==> content@.subrange(0, p as int) == spec_render_lines(grid_view(grid))
                + spec_render_row(row@) + seq![32u8],
        decreases n - p,
    {
        let c = content[p];
        let ghost pre = content@.subrange(0, p as int);
        let ghost old_state = state;
        let ghost old_grid = grid_view(grid);
        let ghost old_row = row@;
        proof {
            assert(content@.subrange(0, p + 1) =~= pre.push(content@[p as int]));
            lemma_supmat_run_push(supmat_start(), pre, content@[p as int]);
        }
        if c == 10u8 {
            if state != 1 {
                proof {
                    lemma_supmat_dead_outcome(content@, p as int);
                }
                return Err(SupMatError::NonBinary);
            }
            grid.push(row);
            row = Vec::new();
            state = 0;
            proof {
                let g2 = grid_view(grid);
                assert(g2.drop_last() =~= old_grid);
                assert(g2.last() == old_row);
                assert(g2 =~= old_grid.push(old_row));
                assert(supmat_step(
                    SupMatState { grid: old_grid, row: old_row, st: old_state as int, dead: false },
                    c,
                ) == (SupMatState {
                    grid: grid_view(grid),
                    row: row@,
                    st: state as int,
                    dead: false,
                }));
                if old_grid.len() == 0 {
                    assert(spec_render_grid(g2) == spec_render_row(old_row));
                    assert(pre =~= spec_render_row(old_row));
                } else {
                    assert(spec_render_grid(g2) == spec_render_grid(old_grid) + seq![10u8]
                        + spec_render_row(old_row));
                }
                assert(content@.subrange(0, p + 1) =~= spec_render_grid(g2) + seq![10u8]);
            }
        } else if c == 32u8 {
            if state != 1 {
                proof {
                    lemma_supmat_dead_outcome(content@, p as int);
                }
                return Err(SupMatError::NonBinary);
            }
            state = 2;
            proof {
                assert(content@.subrange(0, p + 1) =~= spec_render_lines(old_grid)
                    + spec_render_row(old_row) + seq![32u8]);
                assert(supmat_step(
                    SupMatState { grid: old_grid, row: old_row, st: old_state as int, dead: false },
                    c,
                ) == (SupMatState {
                    grid: grid_view(grid),
                    row: row@,
                    st: state as int,
                    dead: false,
                }));
            }
        } else if c == 48u8 || c == 49u8 {
            if state == 1 {
                proof {
                    lemma_supmat_dead_outcome(content@, p as int);
                }
                return Err(SupMatError::NonBinary);
            }
            let e = if c == 49u8 {
                GF { val: 1 }
            } else {
                GF { val: 0 }
            };
            row.push(e);
            state = 1;
            proof {
                assert(spec_digit(e) == c);
                assert(row@ =~= old_row.push(e));
                assert(supmat_step(
                    SupMatState { grid: old_grid, row: old_row, st: old_state as int, dead: false },
                    c,
                ) == (SupMatState {
                    grid: grid_view(grid),
                    row: row@,
                    st: state as int,
                    dead: false,
                }));
                if old_state == 0 {
                    assert(row@ =~= seq![e]);
                    assert(spec_render_row(row@) =~= seq![spec_digit(e)]);
                    assert(content@.subrange(0, p + 1) =~= spec_render_lines(old_grid)
                        + spec_render_row(row@));
                } else {
                    assert(row@.drop_last() =~= old_row);
                    assert(row@.len() >= 2);
                    assert(spec_render_row(row@) == spec_render_row(old_row) + seq![
                        32u8,
                        spec_digit(e),
                    ]);
                    assert(content@.subrange(0, p + 1) =~= spec_render_lines(old_grid)
                        + spec_render_row(row@));
                }
            }
        } else {
            proof {
                lemma_supmat_dead_outcome(content@, p as int);
            }
            return Err(SupMatError::NonBinary);
        }
        p += 1;
    }
    proof {
        assert(content@.subrange(0, n as int) =~= content@);
    }
    let ghost mfin = supmat_run(supmat_start(), content@);
    proof {
        assert(mfin == (SupMatState {
            grid: grid_view(grid),
            row: row@,
            st: state as int,
            dead: false,
        }));
    }
    if state == 2 {
        return Err(SupMatError::NonBinary);
    }
    let ghost parsed_grid = grid_view(grid);
    let ghost final_row = row@;
    if state == 1 {
        let ghost old_grid = grid_view(grid);
        grid.push(row);
        proof {
            let g2 = grid_view(grid);
            assert(g2.drop_last() =~= old_grid);
            assert(g2.last() == final_row);
            if old_grid.len() == 0 {
                assert(spec_render_grid(g2) == spec_render_row(final_row));
                assert(content@ =~= spec_render_grid(g2));
            } else {
                assert(spec_render_grid(g2) == spec_render_grid(old_grid) + seq![10u8]
                    + spec_render_row(final_row));
                assert(content@ =~= spec_render_grid(g2));
            }
            assert(supmat_final_grid(mfin) =~= g2);
        }
    } else {
        proof {
            assert(supmat_final_grid(mfin) == grid_view(grid));
        }
    }
    if grid.len() == 0 {
        return Err(SupMatError::Empty);
    }
    let ghost g = grid_view(grid);
    proof {
        assert(content@ == spec_render_grid(g) || content@ == spec_render_lines(g));
        assert(supmat_final_grid(mfin) == g);
        assert(g.len() >= 1);
    }

    let nrows = grid.len();
    let ncols = grid[0].len();
    let mut i: usize = 0;
    while i < nrows
        invariant
            nrows == grid@.len(),
            nrows >= 1,
            ncols == grid@[0]@.len(),
            g == grid_view(grid),
            supmat_final_grid(supmat_run(supmat_start(), content@)) == g,
            !supmat_run(supmat_start(), content@).dead,
            supmat_run(supmat_start(), content@).st != 2,
            g.len() >= 1,
            i <= nrows,
            forall|a: int| 0 <= a < grid@.len() ==> (#[trigger] grid@[a])@.len() >= 1,
            forall|a: int, b: int|
                0 <= a < grid@.len() && 0 <= b < grid@[a]@.len() ==> (#[trigger] grid@[a]@[b]).val
                    <= 1,
            forall|a: int| 0 <= a < i ==> (#[trigger] grid@[a])@.len() == ncols,
        decreases nrows - i,
    {
        if grid[i].len() != ncols {
            proof {
                assert(g[i as int] == grid@[i as int]@);
                assert(g[0] == grid@[0]@);
                assert(g[i as int].len() != g[0].len());
                assert(spec_supmat_outcome(content@) == Some(SupMatError::Ragged));
            }
            return Err(SupMatError::Ragged);
        }
        i += 1;
    }
    proof {
        assert forall|a: int| 0 <= a < g.len() implies (#[trigger] g[a]).len() == g[0].len() by {
            assert(g[a] == grid@[a]@);
            assert(g[0] == grid@[0]@);
        };
        assert(spec_supmat_outcome(content@) is None);
    }

    // Transpose the parsed grid.
    let mut out: Vec<Vec<GF>> = Vec::new();
    let mut j: usize = 0;
    while j < ncols
        invariant
            nrows == grid@.len(),
            nrows >= 1,
            ncols >= 1,
            forall|a: int| 0 <= a < grid@.len() ==> (#[trigger] grid@[a])@.len() == ncols,
            forall|a: int, b: int|
                0 <= a < grid@.len() && 0 <= b < grid@[a]@.len() ==> (#[trigger] grid@[a]@[b]).val
                    <= 1,
            j <= ncols,
            out@.len() == j,
            forall|a: int| 0 <= a < j ==> (#[trigger] out@[a])@.len() == nrows,
            forall|a: int, b: int|
                0 <= a < j && 0 <= b < nrows ==> (#[trigger] out@[a]@[b]) == grid@[b]@[a],
        decreases ncols - j,
    {
        let mut line: Vec<GF> = Vec::new();
        let mut i2: usize = 0;
        while i2 < nrows
            invariant
                nrows == grid@.len(),
                j < ncols,
                forall|a: int| 0 <= a < grid@.len() ==> (#[trigger] grid@[a])@.len() == ncols,
                i2 <= nrows,
                line@.len() == i2,
                forall|b: int| 0 <= b < i2 ==> (#[trigger] line@[b]) == grid@[b]@[j as int],
            decreases nrows - i2,
        {
            line.push(grid[i2][j]);
            i2 += 1;
        }
        out.push(line);
        j += 1;
    }
    let m = Matrix::from_rows(out, nrows);
    proof {
        assert forall|a: int, b: int|
            0 <= a < m.spec_rows() && 0 <= b < m.spec_cols() implies (#[trigger] m.spec_index(
            a,
            b,
        )) == g[b][a] by {
            assert(m.view()[a] == out@[a]@);
            assert(out@[a]@[b] == grid@[b]@[a]);
        };
        assert(spec_transposed(m, g));
        assert(forall|a: int| 0 <= a < g.len() ==> (#[trigger] g[a]).len() == g[0].len());
        assert forall|a: int, b: int|
            0 <= a < g.len() && 0 <= b < g[a].len() implies (#[trigger] g[a][b]).val <= 1 by {
            assert(g[a][b] == grid@[a]@[b]);
        };
        assert(spec_supmat_parses_to(content@, m, g));
        assert(spec_supmat_ok(content@, m));
    }
    Ok(m)
}

/// An ordered selection with repetitions: applying it to an input sequence
/// yields the elements at the stored indices, in order.
#[derive(Clone)]
pub struct Combination {
    map: Vec<usize>,
}

impl Combination {
    /// The stored index map.
    pub closed spec fn view(self) -> Seq<usize> {
        self.map@
    }

    /// Define the selection directly by its index map.
    pub fn new(map: Vec<usize>) -> (r: Self)
        ensures
            r@ == map@,
    {
        Combination { map }
    }

    /// Infer the map from an example, so that `out[i] == inp[map[i]]`.
    /// Every element of `out` must occur in `inp`; when `inp` repeats an
    /// element, the later index wins.
    pub fn from_instance(inp: &Vec<GF>, out: &Vec<GF>) -> (r: Self)
        requires
            forall|i: int| 0 <= i < out@.len() ==> in_seq(inp@, #[trigger] out@[i]),
        ensures
            r@.len() == out@.len(),
            forall|i: int|
                0 <= i < out@.len() ==> (#[trigger] r@[i]) < inp@.len() && inp@[r@[i] as int]
                    == out@[i] && (forall|j: int| r@[i] < j < inp@.len() ==> inp@[j] != out@[i]),
    {
        let mut map: Vec<usize> = Vec::new();
        let mut i: usize = 0;
        while i < out.len()
            invariant
                forall|a: int| 0 <= a < out@.len() ==> in_seq(inp@, #[trigger] out@[a]),
                i <= out@.len(),
                map@.len() == i,
                forall|a: int|
                    0 <= a < i ==> (#[trigger] map@[a]) < inp@.len() && inp@[map@[a] as int]
                        == out@[a] && (forall|j: int|
                        map@[a] < j < inp@.len() ==> inp@[j] != out@[a]),
            decreases out@.len() - i,
        {
            let target = out[i];
            let mut idx: usize = 0;
            let mut found = false;
            let mut j: usize = 0;
            while j < inp.len()
                invariant
                    j <= inp@.len(),
                    found <==> exists|k: int| 0 <= k < j && inp@[k] == target,
                    found ==> idx < j && inp@[idx as int] == target && (forall|k: int|
                        idx < k < j ==> inp@[k] != target),
                decreases inp@.len() - j,
            {
                if inp[j] == target {
                    idx = j;
                    found = true;
                }
                j += 1;
            }
            proof {
                assert(in_seq(inp@, target));
            }
            map.push(idx);
            i += 1;
        }
        Combination { map }
    }

    /// The length of the selection's output.
    pub fn len(&self) -> (r: usize)
        ensures
            r == self@.len(),
    {
        self.map.len()
    }

    /// Apply the selection to an input vector.
    pub fn apply<T: Copy>(&self, v: &Vec<T>) -> (r: Vec<T>)
        requires
            forall|i: int| 0 <= i < self@.len() ==> (#[trigger] self@[i]) < v@.len(),
        ensures
            r@.len() == self@.len(),
            forall|i: int| 0 <= i < self@.len() ==> #[trigger] r@[i] == v@[self@[i] as int],
    {
        let mut r: Vec<T> = Vec::new();
        let mut i: usize = 0;
        while i < self.map.len()
            invariant
                forall|a: int| 0 <= a < self@.len() ==> (#[trigger] self@[a]) < v@.len(),
                i <= self@.len(),
                r@.len() == i,
                forall|a: int| 0 <= a < i ==> #[trigger] r@[a] == v@[self@[a] as int],
            decreases self@.len() - i,
        {
            r.push(v[self.map[i]]);
            i += 1;
        }
        r
    }
}

} // verus!
