//! Packed secret sharing: several secrets are stored on one polynomial of
//! degree `d`, each at its own evaluation position, and the `n` parties hold
//! the polynomial's values at the share positions `0..n`.  Reconstruction
//! recomputes redundant shares to detect tampering.

use vstd::prelude::*;

use crate::galois::{sample_below, GfTables, GF};
use crate::math::{distinct_seq, lagrange_coeffs, spec_lagrange_entry};
use crate::matrix::{all_valid, spec_add_vec, spec_dot, subvec, lemma_dot_linear, Matrix};

verus! {

/// A single packed share: one field element.
pub type PackedShare = GF;

/// Errors surfaced by checked reconstruction.
#[derive(Debug, Clone, Copy, PartialEq, Eq, Structural)]
pub enum ProtoErrorKind {
    /// The number of shares handed in does not match the number of parties.
    InputLength,
    /// A redundant share disagrees with the reconstructed polynomial.
    MaliciousBehavior,
}

/// The canonical share positions `GF(0), ..., GF(n-1)` as a sequence.
pub open spec fn spec_share_pos(n: int) -> Seq<GF> {
    Seq::new(n as nat, |i: int| GF { val: i as u32 })
}

/// The expected shares of a sharing determined by `secrets` and the random
/// pads: the pads are themselves the first shares, and the remaining shares
/// come out of the coefficient matrix applied to `secrets ++ pads`.
pub open spec fn spec_share_vals(
    t: GfTables,
    coeffs: Matrix,
    secrets: Seq<GF>,
    pads: Seq<GF>,
) -> Seq<GF> {
    let points = secrets + pads;
    pads + Seq::new(coeffs.spec_rows() as nat, |i: int| spec_dot(t, coeffs.view()[i], points))
}

/// Parameters and precomputed coefficient matrices of one packed-sharing
/// instance.
pub struct PackedSharing {
    n: usize,
    np: usize,
    l: usize,
    pos: Vec<GF>,
    share_coeffs: Matrix,
    recon_coeffs: Matrix,
    rand_coeffs: Matrix,
}

impl PackedSharing {
    /// The number of parties.
    pub closed spec fn spec_n(self) -> int {
        self.n as int
    }

    /// The number of evaluations defining the polynomial, `d + 1`.
    pub closed spec fn spec_np(self) -> int {
        self.np as int
    }

    /// The number of packed secrets.
    pub closed spec fn spec_l(self) -> int {
        self.l as int
    }

    /// The secret evaluation positions.
    pub closed spec fn spec_pos(self) -> Seq<GF> {
        self.pos@
    }

    /// The stored share-coefficient matrix.
    pub closed spec fn spec_share_coeffs(self) -> Matrix {
        self.share_coeffs
    }

    /// The stored reconstruction-coefficient matrix.
    pub closed spec fn spec_recon_coeffs(self) -> Matrix {
        self.recon_coeffs
    }

    /// The stored randomness-coefficient matrix.
    pub closed spec fn spec_rand_coeffs(self) -> Matrix {
        self.rand_coeffs
    }

    /// The secret positions followed by the share positions.
    pub open spec fn spec_all_pos(self) -> Seq<GF> {
        self.spec_pos() + spec_share_pos(self.spec_n())
    }

    /// The structural invariant: parameters are in range, the secret
    /// positions are canonical, distinct and disjoint from the share
    /// positions, and the three matrices hold exactly the Lagrange
    /// coefficients of the position layout.
    pub open spec fn wf(self, t: GfTables) -> bool {
        let n = self.spec_n();
        let np = self.spec_np();
        let l = self.spec_l();
        let all = self.spec_all_pos();
        &&& 1 <= np <= n
        &&& n <= t.spec_order()
        &&& l == self.spec_pos().len()
        &&& l <= np
        &&& all_valid(t, self.spec_pos())
        &&& distinct_seq(self.spec_pos())
        &&& (forall|i: int| 0 <= i < l ==> (#[trigger] self.spec_pos()[i]).val >= n)
        &&& self.spec_share_coeffs().spec_rows() == l + n - np
        &&& self.spec_share_coeffs().spec_cols() == np
        &&& self.spec_share_coeffs().wf(t)
        &&& (forall|i: int, j: int|
            0 <= i < l + n - np && 0 <= j < np ==> self.spec_share_coeffs().spec_index(i, j)
                == spec_lagrange_entry(t, all.subrange(0, np), all[np + i], j))
        &&& self.spec_recon_coeffs().spec_rows() == l + n - np
        &&& self.spec_recon_coeffs().spec_cols() == np
        &&& self.spec_recon_coeffs().wf(t)
        &&& (forall|i: int, j: int|
            0 <= i < l + n - np && 0 <= j < np ==> self.spec_recon_coeffs().spec_index(i, j)
                == spec_lagrange_entry(t, all.subrange(l + n - np, l + n), all[i], j))
        &&& self.spec_rand_coeffs().spec_rows() == n - np
        &&& self.spec_rand_coeffs().spec_cols() == np
        &&& self.spec_rand_coeffs().wf(t)
        &&& (forall|i: int, j: int|
            0 <= i < n - np && 0 <= j < np ==> self.spec_rand_coeffs().spec_index(i, j)
                == spec_lagrange_entry(
                t,
                spec_share_pos(n).subrange(0, np),
                spec_share_pos(n)[np + i],
                j,
            ))
    }

    /// The default secret positions: `GF(n), ..., GF(n+l-1)`.
    pub fn default_pos(t: &GfTables, n: u32, l: u32) -> (r: Vec<GF>)
        requires
            t.wf(),
            n + l <= t.spec_order(),
        ensures
            r@.len() == l,
            forall|i: int| 0 <= i < l ==> (#[trigger] r@[i]).val == n + i,
            all_valid(*t, r@),
            distinct_seq(r@),
            forall|i: int| 0 <= i < l ==> (#[trigger] r@[i]).val >= n,
    {
        let mut r: Vec<GF> = Vec::new();
        let mut i: u32 = 0;
        while i < l
            invariant
                n + l <= t.spec_order(),
                t.spec_order() <= u32::MAX,
                i <= l,
                r@.len() == i,
                forall|k: int| 0 <= k < i ==> (#[trigger] r@[k]).val == n + k,
            decreases l - i,
        {
            r.push(GF { val: n + i });
            i += 1;
        }
        r
    }

    /// The share positions `GF(0), ..., GF(n-1)`.
    pub fn share_pos(t: &GfTables, n: u32) -> (r: Vec<GF>)
        requires
            t.wf(),
            n <= t.spec_order(),
        ensures
            r@ == spec_share_pos(n as int),
            all_valid(*t, r@),
            distinct_seq(r@),
    {
        let mut r: Vec<GF> = Vec::new();
        let mut i: u32 = 0;
        while i < n
            invariant
                n <= t.spec_order(),
                t.spec_order() <= u32::MAX,
                i <= n,
                r@.len() == i,
                forall|k: int| 0 <= k < i ==> (#[trigger] r@[k]).val == k,
            decreases n - i,
        {
            r.push(GF { val: i });
            i += 1;
        }
        proof {
            assert(r@ =~= spec_share_pos(n as int));
        }
        r
    }

    /// Map wire identifiers to their evaluation positions `GF(w + n + l)`,
    /// reduced into the field.
    pub fn wire_to_pos(t: &GfTables, n: u32, l: u32, wires: &Vec<u32>) -> (r: Vec<GF>)
        requires
            t.wf(),
            n + l <= u32::MAX,
            forall|i: int| 0 <= i < wires@.len() ==> (#[trigger] wires@[i]) + n + l <= u32::MAX,
        ensures
            r@.len() == wires@.len(),
            all_valid(*t, r@),
            forall|i: int|
                0 <= i < wires@.len() ==> (#[trigger] r@[i]).val == t.spec_reduce(
                    (wires@[i] + n + l) as u32,
                ),
    {
        let offset = n + l;
        let mut r: Vec<GF> = Vec::new();
        let mut i: usize = 0;
        while i < wires.len()
            invariant
                t.wf(),
                offset == n + l,
                forall|k: int| 0 <= k < wires@.len() ==> (#[trigger] wires@[k]) + n + l
                    <= u32::MAX,
                i <= wires@.len(),
                r@.len() == i,
                all_valid(*t, r@),
                forall|k: int|
                    0 <= k < i ==> (#[trigger] r@[k]).val == t.spec_reduce(
                        (wires@[k] + n + l) as u32,
                    ),
            decreases wires@.len() - i,
        {
            r.push(t.elem_from(wires[i] + offset));
            i += 1;
        }
        r
    }

    /// The Lagrange matrix carrying the `np` defining evaluations (secrets,
    /// then the leading shares) to the remaining share positions.
    pub fn compute_share_coeffs(t: &GfTables, d: u32, n: u32, pos: &Vec<GF>) -> (m: Matrix)
        requires
            t.wf(),
            1 <= d + 1 <= n,
            n <= t.spec_order(),
            pos@.len() <= d + 1,
            all_valid(*t, pos@),
            distinct_seq(pos@),
            forall|i: int| 0 <= i < pos@.len() ==> (#[trigger] pos@[i]).val >= n,
        ensures
            ({
                let np = d + 1;
                let l = pos@.len() as int;
                let all = pos@ + spec_share_pos(n as int);
                &&& m.spec_rows() == l + n - np
                &&& m.spec_cols() == np
                &&& m.wf(*t)
                &&& (forall|i: int, j: int|
                    0 <= i < l + n - np && 0 <= j < np ==> m.spec_index(i, j)
                        == spec_lagrange_entry(*t, all.subrange(0, np as int), all[np + i], j))
            }),
    {
        let np = (d + 1) as usize;
        let sh = Self::share_pos(t, n);
        let mut all: Vec<GF> = subvec(pos, 0, pos.len());
        let mut k: usize = 0;
        while k < sh.len()
            invariant
                k <= sh@.len(),
                all@ == pos@ + sh@.subrange(0, k as int),
            decreases sh@.len() - k,
        {
            all.push(sh[k]);
            proof {
                assert(all@ =~= pos@ + sh@.subrange(0, k + 1));
            }
            k += 1;
        }
        proof {
            assert(all@ =~= pos@ + sh@);
            lemma_all_pos_distinct(*t, pos@, n as int);
        }
        let cpos = subvec(&all, 0, np);
        let npos = subvec(&all, np, all.len());
        lagrange_coeffs(t, &cpos, &npos)
    }

    /// The Lagrange matrix carrying the last `np` shares back to the secrets
    /// followed by the leading (redundant) shares.
    pub fn compute_recon_coeffs(t: &GfTables, d: u32, n: u32, pos: &Vec<GF>) -> (m: Matrix)
        requires
            t.wf(),
            1 <= d + 1 <= n,
            n <= t.spec_order(),
            pos@.len() <= d + 1,
            all_valid(*t, pos@),
            distinct_seq(pos@),
            forall|i: int| 0 <= i < pos@.len() ==> (#[trigger] pos@[i]).val >= n,
        ensures
            ({
                let np = d + 1;
                let l = pos@.len() as int;
                let all = pos@ + spec_share_pos(n as int);
                &&& m.spec_rows() == l + n - np
                &&& m.spec_cols() == np
                &&& m.wf(*t)
                &&& (forall|i: int, j: int|
                    0 <= i < l + n - np && 0 <= j < np ==> m.spec_index(i, j)
                        == spec_lagrange_entry(
                        *t,
                        all.subrange(l + n - np, l + n as int),
                        all[i],
                        j,
                    ))
            }),
    {
        let np = (d + 1) as usize;
        let sh = Self::share_pos(t, n);
        let mut all: Vec<GF> = subvec(pos, 0, pos.len());
        let mut k: usize = 0;
        while k < sh.len()
            invariant
                k <= sh@.len(),
                all@ == pos@ + sh@.subrange(0, k as int),
            decreases sh@.len() - k,
        {
            all.push(sh[k]);
            proof {
                assert(all@ =~= pos@ + sh@.subrange(0, k + 1));
            }
            k += 1;
        }
        proof {
            assert(all@ =~= pos@ + sh@);
            lemma_all_pos_distinct(*t, pos@, n as int);
        }
        proof {
            t.lemma_order_bound();
        }
        let split = pos.len() + (n as usize) - np;
        let cpos = subvec(&all, split, all.len());
        let npos = subvec(&all, 0, split);
        lagrange_coeffs(t, &cpos, &npos)
    }
}

/// Compute the shares determined by `secrets` and explicit `pads`: the pads
/// are the leading shares, the rest come from the coefficient matrix applied
/// to `secrets ++ pads`.
fn share_vals_with_pads(
    t: &GfTables,
    coeffs: &Matrix,
    secrets: &Vec<GF>,
    pads: &Vec<GF>,
) -> (r: Vec<GF>)
    requires
        t.wf(),
        coeffs.wf(*t),
        secrets@.len() + pads@.len() == coeffs.spec_cols(),
        all_valid(*t, secrets@),
        all_valid(*t, pads@),
    ensures
        r@ == spec_share_vals(*t, *coeffs, secrets@, pads@),
        r@.len() == pads@.len() + coeffs.spec_rows(),
        all_valid(*t, r@),
{
    let mut points = subvec(secrets, 0, secrets.len());
    let mut k: usize = 0;
    while k < pads.len()
        invariant
            k <= pads@.len(),
            points@ == secrets@ + pads@.subrange(0, k as int),
        decreases pads@.len() - k,
    {
        points.push(pads[k]);
        proof {
            assert(points@ =~= secrets@ + pads@.subrange(0, k + 1));
        }
        k += 1;
    }
    proof {
        assert(points@ =~= secrets@ + pads@);
    }
    let rest = coeffs.dot(t, &points);
    let mut r = subvec(pads, 0, pads.len());
    let mut k: usize = 0;
    while k < rest.len()
        invariant
            k <= rest@.len(),
            r@ == pads@ + rest@.subrange(0, k as int),
        decreases rest@.len() - k,
    {
        r.push(rest[k]);
        proof {
            assert(r@ =~= pads@ + rest@.subrange(0, k + 1));
        }
        k += 1;
    }
    proof {
        assert(r@ =~= pads@ + rest@);
        assert(r@ =~= spec_share_vals(*t, *coeffs, secrets@, pads@));
    }
    r
}

impl PackedSharing {
    /// Precompute the sharing, reconstruction and randomness coefficient
    /// matrices for degree `d`, `n` parties and secret positions `pos`.
    pub fn new(t: &GfTables, d: u32, n: u32, pos: Vec<GF>) -> (r: Self)
        requires
            t.wf(),
            1 <= d + 1 <= n,
            n <= t.spec_order(),
            pos@.len() <= d + 1,
            all_valid(*t, pos@),
            distinct_seq(pos@),
            forall|i: int| 0 <= i < pos@.len() ==> (#[trigger] pos@[i]).val >= n,
        ensures
            r.wf(*t),
            r.spec_n() == n,
            r.spec_np() == d + 1,
            r.spec_l() == pos@.len(),
            r.spec_pos() == pos@,
    {
        let share_coeffs = Self::compute_share_coeffs(t, d, n, &pos);
        let recon_coeffs = Self::compute_recon_coeffs(t, d, n, &pos);
        let empty: Vec<GF> = Vec::new();
        let rand_coeffs = Self::compute_share_coeffs(t, d, n, &empty);
        proof {
            assert(empty@ + spec_share_pos(n as int) =~= spec_share_pos(n as int));
        }
        let l = pos.len() as u32;
        let r = PackedSharing {
            n: (n as usize),
            np: ((d + 1) as usize),
            l: (l as usize),
            pos,
            share_coeffs,
            recon_coeffs,
            rand_coeffs,
        };
        r
    }

    /// The shares of `secrets` with the random pads given explicitly: the
    /// deterministic core of [`PackedSharing::share`].
    pub fn share_with_pads(&self, t: &GfTables, secrets: &Vec<GF>, pads: &Vec<GF>) -> (r: Vec<
        GF,
    >)
        requires
            t.wf(),
            self.wf(*t),
            secrets@.len() == self.spec_l(),
            pads@.len() == self.spec_np() - self.spec_l(),
            all_valid(*t, secrets@),
            all_valid(*t, pads@),
        ensures
            r@ == spec_share_vals(*t, self.spec_share_coeffs(), secrets@, pads@),
            r@.len() == self.spec_n(),
            all_valid(*t, r@),
    {
        share_vals_with_pads(t, &self.share_coeffs, secrets, pads)
    }

    /// Share `secrets` with fresh uniform pads from the caller's generator.
    /// Whatever pads come out, the result is exactly the sharing those pads
    /// determine.
    pub fn share(&self, t: &GfTables, secrets: &Vec<GF>, rng: &mut rand::rngs::StdRng) -> (r:
        Vec<GF>)
        requires
            t.wf(),
            self.wf(*t),
            secrets@.len() == self.spec_l(),
            all_valid(*t, secrets@),
        ensures
            r@.len() == self.spec_n(),
            all_valid(*t, r@),
            exists|pads: Seq<GF>|
                pads.len() == self.spec_np() - self.spec_l() && all_valid(*t, pads) && r@
                    == spec_share_vals(*t, self.spec_share_coeffs(), secrets@, pads),
    {
        let count = self.np - self.l;
        let mut pads: Vec<GF> = Vec::new();
        let mut k: usize = 0;
        while k < count
            invariant
                t.wf(),
                k <= count,
                pads@.len() == k,
                all_valid(*t, pads@),
            decreases count - k,
        {
            pads.push(GF::rand(t, rng));
            k += 1;
        }
        let r = self.share_with_pads(t, secrets, &pads);
        proof {
            assert(r@ == spec_share_vals(*t, self.spec_share_coeffs(), secrets@, pads@));
        }
        r
    }

    /// Share `secrets` using a precomputed coefficient matrix, sampling the
    /// `cols - l` pads from the caller's generator.
    pub fn share_using_coeffs(
        t: &GfTables,
        secrets: &Vec<GF>,
        coeffs: &Matrix,
        l: u32,
        rng: &mut rand::rngs::StdRng,
    ) -> (r: Vec<GF>)
        requires
            t.wf(),
            coeffs.wf(*t),
            secrets@.len() == l,
            l <= coeffs.spec_cols(),
            all_valid(*t, secrets@),
        ensures
            r@.len() == coeffs.spec_cols() - l + coeffs.spec_rows(),
            all_valid(*t, r@),
            exists|pads: Seq<GF>|
                pads.len() == coeffs.spec_cols() - l && all_valid(*t, pads) && r@
                    == spec_share_vals(*t, *coeffs, secrets@, pads),
    {
        let count = coeffs.num_cols() - (l as usize);
        let mut pads: Vec<GF> = Vec::new();
        let mut k: usize = 0;
        while k < count
            invariant
                t.wf(),
                k <= count,
                pads@.len() == k,
                all_valid(*t, pads@),
            decreases count - k,
        {
            pads.push(GF::rand(t, rng));
            k += 1;
        }
        let r = share_vals_with_pads(t, coeffs, secrets, &pads);
        proof {
            assert(r@ == spec_share_vals(*t, *coeffs, secrets@, pads@));
        }
        r
    }

    /// Reconstruct with a precomputed coefficient matrix: the matrix applied
    /// to the trailing `cols` shares.
    pub fn recon_using_coeffs(t: &GfTables, shares: &Vec<GF>, coeffs: &Matrix) -> (r: Vec<GF>)
        requires
            t.wf(),
            coeffs.wf(*t),
            coeffs.spec_cols() <= shares@.len(),
            all_valid(*t, shares@),
        ensures
            r@.len() == coeffs.spec_rows(),
            all_valid(*t, r@),
            forall|i: int|
                0 <= i < coeffs.spec_rows() ==> r@[i] == spec_dot(
                    *t,
                    coeffs.view()[i],
                    shares@.subrange(
                        shares@.len() - coeffs.spec_cols(),
                        shares@.len() as int,
                    ),
                ),
    {
        let start = shares.len() - coeffs.num_cols();
        let tail = subvec(shares, start, shares.len());
        proof {
            assert(all_valid(*t, tail@));
        }
        coeffs.dot(t, &tail)
    }

    /// A fresh uniformly random degree-`d` sharing of uniformly random
    /// secrets: `np` uniform shares determine the rest.
    pub fn rand(&self, t: &GfTables, rng: &mut rand::rngs::StdRng) -> (r: Vec<GF>)
        requires
            t.wf(),
            self.wf(*t),
        ensures
            r@.len() == self.spec_n(),
            all_valid(*t, r@),
            exists|defs: Seq<GF>|
                defs.len() == self.spec_np() && all_valid(*t, defs) && r@ == spec_share_vals(
                    *t,
                    self.spec_rand_coeffs(),
                    Seq::empty(),
                    defs,
                ),
    {
        let count = self.np;
        let mut defs: Vec<GF> = Vec::new();
        let mut k: usize = 0;
        while k < count
            invariant
                t.wf(),
                k <= count,
                defs@.len() == k,
                all_valid(*t, defs@),
            decreases count - k,
        {
            defs.push(GF::rand(t, rng));
            k += 1;
        }
        let empty: Vec<GF> = Vec::new();
        let r = share_vals_with_pads(t, &self.rand_coeffs, &empty, &defs);
        proof {
            assert(r@ == spec_share_vals(*t, self.spec_rand_coeffs(), Seq::empty(), defs@));
        }
        r
    }

    /// Semi-honest reconstruction: the first `l` rows of the reconstruction
    /// matrix applied to the trailing `np` shares, with no consistency
    /// check.
    pub fn semihon_recon(&self, t: &GfTables, shares: &Vec<GF>) -> (r: Vec<GF>)
        requires
            t.wf(),
            self.wf(*t),
            shares@.len() == self.spec_n(),
            all_valid(*t, shares@),
        ensures
            r@.len() == self.spec_l(),
            all_valid(*t, r@),
            forall|i: int|
                0 <= i < self.spec_l() ==> r@[i] == spec_dot(
                    *t,
                    self.spec_recon_coeffs().view()[i],
                    shares@.subrange(self.spec_n() - self.spec_np(), self.spec_n()),
                ),
    {
        let start = self.n - self.np;
        let tail = subvec(shares, start, shares.len());
        proof {
            assert(all_valid(*t, tail@));
        }
        let mut r: Vec<GF> = Vec::new();
        let mut i: usize = 0;
        while i < self.l
            invariant
                t.wf(),
                self.wf(*t),
                tail@ == shares@.subrange(self.spec_n() - self.spec_np(), self.spec_n()),
                tail@.len() == self.spec_np(),
                all_valid(*t, tail@),
                i <= self.spec_l(),
                r@.len() == i,
                all_valid(*t, r@),
                forall|k: int|
                    0 <= k < i ==> r@[k] == spec_dot(
                        *t,
                        self.spec_recon_coeffs().view()[k],
                        tail@,
                    ),
            decreases self.spec_l() - i,
        {
            let x = self.recon_coeffs.dot_row(t, i, &tail);
            r.push(x);
            i += 1;
        }
        r
    }

    /// Reconstruction with the malicious-behavior check: recompute the
    /// leading `n - np` shares from the trailing `np` and compare; any
    /// mismatch is reported, otherwise the secrets are returned.
    pub fn recon(&self, t: &GfTables, shares: &Vec<GF>) -> (r: Result<Vec<GF>, ProtoErrorKind>)
        requires
            t.wf(),
            self.wf(*t),
            all_valid(*t, shares@),
        ensures
            (shares@.len() != self.spec_n()) <==> r == Err::<Vec<GF>, ProtoErrorKind>(
                ProtoErrorKind::InputLength,
            ),
            (shares@.len() == self.spec_n() && (exists|i: int|
                0 <= i < self.spec_n() - self.spec_np() && spec_dot(
                    *t,
                    self.spec_recon_coeffs().view()[self.spec_l() + i],
                    shares@.subrange(self.spec_n() - self.spec_np(), self.spec_n()),
                ) != shares@[i])) <==> r == Err::<Vec<GF>, ProtoErrorKind>(
                ProtoErrorKind::MaliciousBehavior,
            ),
            match r {
                Ok(res) => {
                    &&& res@.len() == self.spec_l()
                    &&& all_valid(*t, res@)
                    &&& forall|i: int|
                        0 <= i < self.spec_l() ==> res@[i] == spec_dot(
                            *t,
                            self.spec_recon_coeffs().view()[i],
                            shares@.subrange(self.spec_n() - self.spec_np(), self.spec_n()),
                        )
                },
                Err(_) => true,
            },
    {
        if shares.len() != self.n {
            return Err(ProtoErrorKind::InputLength);
        }
        let start = self.n - self.np;
        let tail = subvec(shares, start, shares.len());
        proof {
            assert(all_valid(*t, tail@));
        }
        let recon_vals = self.recon_coeffs.dot(t, &tail);
        let mut i: usize = 0;
        let count = self.n - self.np;
        while i < count
            invariant
                t.wf(),
                self.wf(*t),
                shares@.len() == self.spec_n(),
                tail@ == shares@.subrange(self.spec_n() - self.spec_np(), self.spec_n()),
                count == self.spec_n() - self.spec_np(),
                recon_vals@.len() == self.spec_l() + self.spec_n() - self.spec_np(),
                forall|k: int|
                    0 <= k < recon_vals@.len() ==> recon_vals@[k] == spec_dot(
                        *t,
                        self.spec_recon_coeffs().view()[k],
                        tail@,
                    ),
                i <= count,
                forall|k: int| 0 <= k < i ==> recon_vals@[self.spec_l() + k] == shares@[k],
            decreases count - i,
        {
            let expect = recon_vals[self.l + i];
            if expect != shares[i] {
                return Err(ProtoErrorKind::MaliciousBehavior);
            }
            i += 1;
        }
        let res = subvec(&recon_vals, 0, self.l);
        proof {
            assert(all_valid(*t, res@));
            assert forall|k: int| 0 <= k < self.spec_l() implies res@[k] == spec_dot(
                *t,
                self.spec_recon_coeffs().view()[k],
                tail@,
            ) by {
                assert(res@[k] == recon_vals@[k]);
            };
        }
        Ok(res)
    }

    /// The first `l` rows of the reconstruction matrix: the coefficients
    /// that carry the trailing `np` shares to the secrets.
    pub fn recon_coeffs(&self, t: &GfTables) -> (m: Matrix)
        requires
            t.wf(),
            self.wf(*t),
        ensures
            m.spec_rows() == self.spec_l(),
            m.spec_cols() == self.spec_np(),
            m.wf(*t),
            forall|i: int, j: int|
                0 <= i < self.spec_l() && 0 <= j < self.spec_np() ==> m.spec_index(i, j)
                    == self.spec_recon_coeffs().spec_index(i, j),
    {
        let mut rows_v: Vec<Vec<GF>> = Vec::new();
        let mut i: usize = 0;
        while i < self.l
            invariant
                t.wf(),
                self.wf(*t),
                i <= self.spec_l(),
                rows_v@.len() == i,
                forall|a: int|
                    0 <= a < i ==> (#[trigger] rows_v@[a])@ == self.spec_recon_coeffs().view()[a],
            decreases self.spec_l() - i,
        {
            let row = self.recon_coeffs.row(i);
            rows_v.push(subvec(row, 0, row.len()));
            proof {
                assert(rows_v@[i as int]@ =~= self.spec_recon_coeffs().view()[i as int]);
            }
            i += 1;
        }
        let m = Matrix::from_rows(rows_v, self.recon_coeffs.num_cols());
        proof {
            assert forall|a: int| 0 <= a < m.spec_rows() implies (#[trigger] m.view()[a]).len()
                == m.spec_cols() && all_valid(*t, m.view()[a]) by {
                assert(m.view()[a] == rows_v@[a]@);
                assert(m.view()[a] == self.spec_recon_coeffs().view()[a]);
            };
            assert forall|a: int, b: int|
                0 <= a < self.spec_l() && 0 <= b < self.spec_np() implies m.spec_index(a, b)
                == self.spec_recon_coeffs().spec_index(a, b) by {
                assert(m.view()[a] == rows_v@[a]@);
            };
        }
        m
    }

    /// The number of parties.
    pub fn num_parties(&self) -> (r: u32)
        requires
            self.spec_n() <= u32::MAX,
        ensures
            r == self.spec_n(),
    {
        self.n as u32
    }

    /// The number of packed secrets.
    pub fn num_secrets(&self) -> (r: u32)
        requires
            self.spec_l() <= u32::MAX,
        ensures
            r == self.spec_l(),
    {
        self.l as u32
    }

    /// The degree of the sharing polynomial.
    pub fn degree(&self) -> (r: u32)
        requires
            1 <= self.spec_np() <= u32::MAX,
        ensures
            r == self.spec_np() - 1,
    {
        (self.np - 1) as u32
    }

    /// Reconstruction is linear: applied to the pointwise sum of two share
    /// vectors, each reconstruction row yields the sum of its values on the
    /// two vectors separately.
    pub proof fn lemma_recon_row_linear(self, t: GfTables, u: Seq<GF>, v: Seq<GF>, i: int)
        requires
            t.wf(),
            self.wf(t),
            u.len() == self.spec_n(),
            v.len() == self.spec_n(),
            all_valid(t, u),
            all_valid(t, v),
            0 <= i < self.spec_l() + self.spec_n() - self.spec_np(),
        ensures
            spec_dot(
                t,
                self.spec_recon_coeffs().view()[i],
                spec_add_vec(t, u, v).subrange(
                    self.spec_n() - self.spec_np(),
                    self.spec_n(),
                ),
            ) == t.spec_add(
                spec_dot(
                    t,
                    self.spec_recon_coeffs().view()[i],
                    u.subrange(self.spec_n() - self.spec_np(), self.spec_n()),
                ),
                spec_dot(
                    t,
                    self.spec_recon_coeffs().view()[i],
                    v.subrange(self.spec_n() - self.spec_np(), self.spec_n()),
                ),
            ),
    {
        let a = self.spec_n() - self.spec_np();
        let n = self.spec_n();
        let row = self.spec_recon_coeffs().view()[i];
        let us = u.subrange(a, n);
        let vs = v.subrange(a, n);
        assert(spec_add_vec(t, u, v).subrange(a, n) =~= spec_add_vec(t, us, vs));
        assert(all_valid(t, us));
        assert(all_valid(t, vs));
        assert(row.len() == self.spec_np() && all_valid(t, row));
        lemma_dot_linear(t, row, us, vs);
    }
}

impl PackedSharing {
    /// Altering a redundant leading share while the trailing `np` defining
    /// shares stay fixed never goes unnoticed: the recomputed value cannot
    /// match both the old and the new share, so at most one of the two
    /// vectors passes the consistency check.
    pub proof fn lemma_leading_tamper_detected(self, t: GfTables, u: Seq<GF>, v: Seq<GF>, i: int)
        requires
            t.wf(),
            self.wf(t),
            u.len() == self.spec_n(),
            v.len() == self.spec_n(),
            u.subrange(self.spec_n() - self.spec_np(), self.spec_n()) == v.subrange(
                self.spec_n() - self.spec_np(),
                self.spec_n(),
            ),
            0 <= i < self.spec_n() - self.spec_np(),
            u[i] != v[i],
        ensures
            !((spec_dot(
                t,
                self.spec_recon_coeffs().view()[self.spec_l() + i],
                u.subrange(self.spec_n() - self.spec_np(), self.spec_n()),
            ) == u[i]) && (spec_dot(
                t,
                self.spec_recon_coeffs().view()[self.spec_l() + i],
                v.subrange(self.spec_n() - self.spec_np(), self.spec_n()),
            ) == v[i])),
    {
    }
}

/// The concatenation of distinct secret positions (all at or above `n`) with
/// the share positions `0..n` is distinct throughout.
proof fn lemma_all_pos_distinct(t: GfTables, pos: Seq<GF>, n: int)
    requires
        t.wf(),
        0 <= n <= t.spec_order(),
        all_valid(t, pos),
        distinct_seq(pos),
        forall|i: int| 0 <= i < pos.len() ==> (#[trigger] pos[i]).val >= n,
    ensures
        distinct_seq(pos + spec_share_pos(n)),
        all_valid(t, pos + spec_share_pos(n)),
{
    let all = pos + spec_share_pos(n);
    let l = pos.len() as int;
    t.lemma_order_bound();
    assert forall|i: int, j: int| 0 <= i < j < all.len() implies all[i] != all[j] by {
        if j >= l {
            assert(0 <= j - l < n && n <= 0x20000000);
            assert(all[j] == spec_share_pos(n)[j - l]);
            assert(spec_share_pos(n)[j - l] == (GF { val: (j - l) as u32 }));
            assert(all[j].val == j - l);
        }
        if i >= l {
            assert(0 <= i - l < n && n <= 0x20000000);
            assert(all[i] == spec_share_pos(n)[i - l]);
            assert(spec_share_pos(n)[i - l] == (GF { val: (i - l) as u32 }));
            assert(all[i].val == i - l);
        }
        if i < l && j >= l {
            assert(all[i].val >= n && all[j].val < n);
        } else if i >= l && j >= l {
            assert(all[i].val == i - l && all[j].val == j - l);
        }
    };
    assert forall|i: int| 0 <= i < all.len() implies t.valid(#[trigger] all[i]) by {
        if i >= l {
            assert(all[i] == spec_share_pos(n)[i - l]);
            assert(all[i].val == i - l && i - l < n);
        }
    };
}

} // verus!
