//! Arithmetic in the finite field GF(2^w) for widths `1 <= w <= 29`.
//!
//! Addition is bitwise XOR.  Multiplication and division go through
//! log/antilog tables built once per width by [`GF::init`]: the antilog table
//! lists the powers of `x` modulo a primitive polynomial, and the log table is
//! its inverse.  The table constructor checks at run time every structural
//! property that the arithmetic and its laws rely on (the powers of `x`
//! enumerate every nonzero element exactly once and cycle back to one), and
//! fails if any check does not hold, so no field law rests on the particular
//! polynomial constants.

use vstd::prelude::*;

verus! {

use vstd::arithmetic::div_mod::{
    lemma_add_mod_noop, lemma_mod_add_multiples_vanish, lemma_mod_bound, lemma_mod_self_0,
    lemma_small_mod,
};

/// An element of GF(2^w): an unsigned integer below `2^w`.
#[derive(Debug, Clone, Copy, PartialEq, Eq, Structural, Hash)]
pub struct GF {
    pub val: u32,
}

/// Failure of field initialization.
#[derive(Debug, Clone, Copy, PartialEq, Eq, Structural)]
pub enum GfError {
    /// The width lies outside the supported range `1..=29`.
    UnsupportedWidth,
    /// The arithmetic tables could not be validated for this width.
    InitFailed,
}

/// One doubling step: multiply `v` by `x` and reduce by the field polynomial.
pub closed spec fn spec_xtimes(v: u32, order: u32, poly: u32) -> u32 {
    if (v << 1u32) >= order {
        (v << 1u32) ^ poly
    } else {
        v << 1u32
    }
}

/// Log/antilog tables for one width, the context for all field arithmetic.
pub struct GfTables {
    w: u8,
    order: u32,
    poly: u32,
    exp: Vec<u32>,
    log: Vec<u32>,
}

impl GfTables {
    /// The field width w.
    pub closed spec fn spec_w(self) -> u8 {
        self.w
    }

    /// The field order, `2^w`.
    pub closed spec fn spec_order(self) -> u32 {
        self.order
    }

    /// `a` is a canonical element of this field.
    pub open spec fn valid(self, a: GF) -> bool {
        a.val < self.spec_order()
    }

    spec fn n(self) -> int {
        self.order - 1
    }

    /// The discrete log of a nonzero element.
    pub closed spec fn spec_log(self, a: GF) -> int {
        self.log@[a.val as int] as int
    }

    /// The `i`-th power of `x` in the field.
    pub closed spec fn spec_exp(self, i: int) -> u32 {
        self.exp@[i]
    }

    /// The structural invariant of the tables, established by [`GF::init`]:
    /// `exp` lists the successive powers of `x`, hitting every nonzero
    /// element exactly once before cycling back to one, and `log` is its
    /// inverse.
    pub closed spec fn wf(self) -> bool {
        &&& 1 <= self.w <= 29
        &&& self.order == 1u32 << (self.w as u32)
        &&& self.order <= self.poly < 2 * self.order
        &&& self.exp@.len() == self.order - 1
        &&& self.log@.len() == self.order
        &&& self.exp@[0] == 1
        &&& (forall|i: int| 0 <= i < self.n() ==> 1 <= #[trigger] self.exp@[i] < self.order)
        &&& (forall|i: int|
            0 <= i < self.n() ==> self.log@[#[trigger] self.exp@[i] as int] == i)
        &&& (forall|v: int|
            1 <= v < self.order ==> #[trigger] self.log@[v] < self.n()
                && self.exp@[self.log@[v] as int] == v)
        &&& (forall|i: int|
            0 <= i < self.n() ==> #[trigger] self.exp@[(i + 1) % self.n()]
                == spec_xtimes(self.exp@[i], self.order, self.poly))
    }

    /// The field width.
    pub fn w(&self) -> (r: u8)
        ensures
            r == self.spec_w(),
    {
        self.w
    }

    /// The field order, `2^w`.
    pub fn order(&self) -> (r: u32)
        ensures
            r == self.spec_order(),
    {
        self.order
    }
}

/// The primitive polynomial used for width `w`, including its `x^w` term.
fn width_poly(w: u8) -> u32 {
    match w {
        1 => 0x3,
        2 => 0x7,
        3 => 0xB,
        4 => 0x13,
        5 => 0x25,
        6 => 0x43,
        7 => 0x89,
        8 => 0x11D,
        9 => 0x211,
        10 => 0x409,
        11 => 0x805,
        12 => 0x1053,
        13 => 0x201B,
        14 => 0x4443,
        15 => 0x8003,
        16 => 0x1100B,
        17 => 0x20009,
        18 => 0x40081,
        19 => 0x80027,
        20 => 0x100009,
        21 => 0x200005,
        22 => 0x400003,
        23 => 0x800021,
        24 => 0x1000087,
        25 => 0x2000009,
        26 => 0x4000047,
        27 => 0x8000027,
        28 => 0x10000009,
        29 => 0x20000005,
        _ => 0,
    }
}

/// Multiply `v` by `x` and reduce by the field polynomial.
fn xtimes(v: u32, w: u8, order: u32, poly: u32) -> (r: u32)
    requires
        1 <= w <= 29,
        order == 1u32 << (w as u32),
        v < order,
        order <= poly < 2 * order,
    ensures
        r == spec_xtimes(v, order, poly),
        r < order,
{
    proof {
        assert((v << 1u32) < 2 * order && (((v << 1u32) >= order) ==> ((v << 1u32) ^ poly)
            < order)) by (bit_vector)
            requires
                1 <= w <= 29,
                order == 1u32 << (w as u32),
                v < order,
                order <= poly,
                poly < 2 * order,
        ;
    }
    let d = v << 1u32;
    if d >= order {
        d ^ poly
    } else {
        d
    }
}

impl GF {
    /// The additive identity.
    pub fn zero() -> (r: GF)
        ensures
            r.val == 0,
    {
        GF { val: 0 }
    }

    /// The multiplicative identity.
    pub fn one() -> (r: GF)
        ensures
            r.val == 1,
    {
        GF { val: 1 }
    }

    /// Whether this is the additive identity.
    pub fn is_zero(&self) -> (b: bool)
        ensures
            b == (self.val == 0),
    {
        self.val == 0
    }

    /// Build and validate the arithmetic tables for GF(2^w).
    ///
    /// The antilog table is filled with the successive powers of `x` modulo
    /// the primitive polynomial for `w`; the construction fails unless those
    /// powers visit every nonzero element exactly once and return to one,
    /// which is exactly the invariant [`GfTables::wf`] records.  Widths
    /// outside `1..=29` are always rejected, and are the only source of
    /// [`GfError::UnsupportedWidth`].  For a supported width, success rests
    /// on the polynomial constant being primitive; that is a fact of number
    /// theory the construction checks at run time instead of assuming, so it
    /// is not promised here, and a wrong constant yields
    /// [`GfError::InitFailed`] rather than unsound arithmetic.
    pub fn init(w: u8) -> (r: Result<GfTables, GfError>)
        ensures
            match r {
                Ok(t) => t.wf() && t.spec_w() == w,
                Err(_) => true,
            },
            (w == 0 || w > 29) <==> (r matches Err(GfError::UnsupportedWidth)),
    {
        if w == 0 || w > 29 {
            return Err(GfError::UnsupportedWidth);
        }
        let order: u32 = 1u32 << (w as u32);
        proof {
            assert(2 <= order <= 0x20000000u32) by (bit_vector)
                requires
                    1 <= w <= 29,
                    order == 1u32 << (w as u32),
            ;
        }
        let poly = width_poly(w);
        if poly < order || poly >= 2 * order {
            return Err(GfError::InitFailed);
        }
        let n: u32 = order - 1;

        let mut log: Vec<u32> = Vec::new();
        let mut j: u32 = 0;
        while j < order
            invariant
                j <= order,
                log@.len() == j,
                forall|k: int| 0 <= k < j ==> #[trigger] log@[k] == n,
            decreases order - j,
        {
            log.push(n);
            j += 1;
        }

        let mut exp: Vec<u32> = Vec::new();
        let mut cur: u32 = 1;
        let mut i: u32 = 0;
        while i < n
            invariant
                1 <= w <= 29,
                order == 1u32 << (w as u32),
                2 <= order,
                n == order - 1,
                order <= poly < 2 * order,
                i <= n,
                exp@.len() == i,
                log@.len() == order,
                cur < order,
                i == 0 ==> cur == 1,
                i > 0 ==> exp@[0] == 1,
                i > 0 ==> cur == spec_xtimes(exp@[i - 1], order, poly),
                forall|k: int| 0 <= k < i ==> 1 <= #[trigger] exp@[k] < order,
                forall|k: int| 0 <= k < i ==> log@[#[trigger] exp@[k] as int] == k,
                forall|v: int|
                    0 <= v < order ==> #[trigger] log@[v] == n || (log@[v] < i
                        && exp@[log@[v] as int] == v),
                forall|k: int|
                    0 <= k && k + 1 < i ==> #[trigger] exp@[k + 1] == spec_xtimes(
                        exp@[k],
                        order,
                        poly,
                    ),
            decreases n - i,
        {
            if cur == 0 {
                return Err(GfError::InitFailed);
            }
            if log[cur as usize] != n {
                return Err(GfError::InitFailed);
            }
            exp.push(cur);
            log[cur as usize] = i;
            cur = xtimes(cur, w, order, poly);
            i += 1;
        }
        if cur != 1 {
            return Err(GfError::InitFailed);
        }

        let mut v: u32 = 1;
        while v < order
            invariant
                1 <= w <= 29,
                order == log@.len(),
                n == order - 1,
                v >= 1,
                forall|x: int| 1 <= x < v ==> #[trigger] log@[x] < n,
            decreases order - v,
        {
            if log[v as usize] >= n {
                return Err(GfError::InitFailed);
            }
            v += 1;
        }

        let t = GfTables { w, order, poly, exp, log };
        proof {
            assert forall|k: int| 0 <= k < t.n() implies #[trigger] t.exp@[(k + 1) % t.n()]
                == spec_xtimes(t.exp@[k], t.order, t.poly) by {
                if k + 1 < t.n() {
                    lemma_small_mod((k + 1) as nat, t.n() as nat);
                } else {
                    assert(k + 1 == t.n());
                    lemma_mod_self_0(t.n());
                }
            };
        }
        Ok(t)
    }
}

impl GfTables {
    /// Addition: bitwise XOR of the representations.
    pub open spec fn spec_add(self, a: GF, b: GF) -> GF {
        GF { val: a.val ^ b.val }
    }

    /// Field addition; subtraction and negation coincide with it in
    /// characteristic two.
    pub fn add(&self, a: GF, b: GF) -> (r: GF)
        requires
            self.wf(),
            self.valid(a),
            self.valid(b),
        ensures
            r == self.spec_add(a, b),
            self.valid(r),
    {
        proof {
            let w = self.w;
            let order = self.order;
            let x = a.val;
            let y = b.val;
            assert((x ^ y) < order) by (bit_vector)
                requires
                    1 <= w <= 29,
                    order == 1u32 << (w as u32),
                    x < order,
                    y < order,
            ;
        }
        GF { val: a.val ^ b.val }
    }

    /// Multiplication through the tables: discrete logs are added modulo
    /// `2^w - 1`, and zero absorbs everything.
    pub closed spec fn spec_mul(self, a: GF, b: GF) -> GF {
        if a.val == 0 || b.val == 0 {
            GF { val: 0 }
        } else {
            GF {
                val: self.exp@[(self.log@[a.val as int] + self.log@[b.val as int]) % self.n()],
            }
        }
    }

    /// Division through the tables: discrete logs are subtracted modulo
    /// `2^w - 1`; zero divided by anything is zero.
    pub closed spec fn spec_div(self, a: GF, b: GF) -> GF {
        if a.val == 0 {
            GF { val: 0 }
        } else {
            GF {
                val: self.exp@[(self.log@[a.val as int] + self.n() - self.log@[b.val as int])
                    % self.n()],
            }
        }
    }

    /// The order of a well-formed field is exactly two to the width, so it
    /// lies between two and `2^29`; in particular zero and one are canonical
    /// elements, and callers can compute the order of a concrete width.
    pub proof fn lemma_order_bound(self)
        requires
            self.wf(),
        ensures
            2 <= self.spec_order() <= 0x20000000u32,
            self.spec_order() == 1u32 << (self.spec_w() as u32),
            1 <= self.spec_w() <= 29,
    {
        let w = self.w;
        let order = self.order;
        assert(2 <= order <= 0x20000000u32) by (bit_vector)
            requires
                1 <= w <= 29,
                order == 1u32 << (w as u32),
        ;
    }

    /// Field multiplication.
    pub fn mul(&self, a: GF, b: GF) -> (r: GF)
        requires
            self.wf(),
            self.valid(a),
            self.valid(b),
        ensures
            r == self.spec_mul(a, b),
            self.valid(r),
    {
        proof {
            self.lemma_order_bound();
        }
        if a.val == 0 || b.val == 0 {
            GF { val: 0 }
        } else {
            let la = self.log[a.val as usize];
            let lb = self.log[b.val as usize];
            let s = (la + lb) % (self.order - 1);
            proof {
                lemma_mod_bound((la + lb) as int, self.n());
            }
            GF { val: self.exp[s as usize] }
        }
    }

    /// Field division.  The divisor must be nonzero.
    pub fn div(&self, a: GF, b: GF) -> (r: GF)
        requires
            self.wf(),
            self.valid(a),
            self.valid(b),
            b.val != 0,
        ensures
            r == self.spec_div(a, b),
            self.valid(r),
    {
        proof {
            self.lemma_order_bound();
        }
        if a.val == 0 {
            GF { val: 0 }
        } else {
            let la = self.log[a.val as usize];
            let lb = self.log[b.val as usize];
            let s = (la + (self.order - 1) - lb) % (self.order - 1);
            proof {
                lemma_mod_bound((la + self.n() - lb) as int, self.n());
            }
            GF { val: self.exp[s as usize] }
        }
    }

    /// Field subtraction: identical to addition.
    pub fn sub(&self, a: GF, b: GF) -> (r: GF)
        requires
            self.wf(),
            self.valid(a),
            self.valid(b),
        ensures
            r == self.spec_add(a, b),
            self.valid(r),
    {
        self.add(a, b)
    }

    /// Additive inverse: the identity map in characteristic two.
    pub fn neg(&self, a: GF) -> (r: GF)
        requires
            self.wf(),
            self.valid(a),
        ensures
            r == a,
    {
        a
    }
}

impl GfTables {
    /// Repeated multiplication by `x`: the `k`-fold iterate of one reduction
    /// step.
    spec fn spec_xpow(self, k: nat, v: u32) -> u32
        decreases k,
    {
        if k == 0 {
            v
        } else {
            spec_xtimes(self.spec_xpow((k - 1) as nat, v), self.order, self.poly)
        }
    }

    proof fn lemma_xtimes_valid(self, v: u32)
        requires
            self.wf(),
            v < self.order,
        ensures
            spec_xtimes(v, self.order, self.poly) < self.order,
            v == 0 ==> spec_xtimes(v, self.order, self.poly) == 0,
    {
        let w = self.w;
        let order = self.order;
        let poly = self.poly;
        assert(spec_xtimes(v, order, poly) < order && (v == 0 ==> spec_xtimes(v, order, poly)
            == 0)) by (bit_vector)
            requires
                1 <= w <= 29,
                order == 1u32 << (w as u32),
                v < order,
                order <= poly,
                poly < 2 * order,
        ;
    }

    proof fn lemma_xtimes_linear(self, u: u32, v: u32)
        requires
            self.wf(),
            u < self.order,
            v < self.order,
        ensures
            spec_xtimes(u ^ v, self.order, self.poly) == spec_xtimes(u, self.order, self.poly)
                ^ spec_xtimes(v, self.order, self.poly),
    {
        let w = self.w;
        let order = self.order;
        let poly = self.poly;
        assert(spec_xtimes(u ^ v, order, poly) == spec_xtimes(u, order, poly) ^ spec_xtimes(
            v,
            order,
            poly,
        )) by (bit_vector)
            requires
                1 <= w <= 29,
                order == 1u32 << (w as u32),
                u < order,
                v < order,
                order <= poly,
                poly < 2 * order,
        ;
    }

    proof fn lemma_xpow_valid(self, k: nat, v: u32)
        requires
            self.wf(),
            v < self.order,
        ensures
            self.spec_xpow(k, v) < self.order,
            v == 0 ==> self.spec_xpow(k, v) == 0,
        decreases k,
    {
        if k > 0 {
            self.lemma_xpow_valid((k - 1) as nat, v);
            self.lemma_xtimes_valid(self.spec_xpow((k - 1) as nat, v));
        }
    }

    proof fn lemma_xpow_linear(self, k: nat, u: u32, v: u32)
        requires
            self.wf(),
            u < self.order,
            v < self.order,
        ensures
            self.spec_xpow(k, u ^ v) == self.spec_xpow(k, u) ^ self.spec_xpow(k, v),
        decreases k,
    {
        let w = self.w;
        let order = self.order;
        if k > 0 {
            let k1 = (k - 1) as nat;
            self.lemma_xpow_linear(k1, u, v);
            self.lemma_xpow_valid(k1, u);
            self.lemma_xpow_valid(k1, v);
            self.lemma_xtimes_linear(self.spec_xpow(k1, u), self.spec_xpow(k1, v));
            assert((u ^ v) < order) by (bit_vector)
                requires
                    1 <= w <= 29,
                    order == 1u32 << (w as u32),
                    u < order,
                    v < order,
            ;
        }
    }

    proof fn lemma_xpow_exp(self, j: int, k: nat)
        requires
            self.wf(),
            0 <= j < self.n(),
        ensures
            self.spec_xpow(k, self.exp@[j]) == self.exp@[(j + k) % self.n()],
        decreases k,
    {
        let n = self.n();
        if k == 0 {
            lemma_small_mod(j as nat, n as nat);
        } else {
            let k1 = (k - 1) as nat;
            self.lemma_xpow_exp(j, k1);
            let i = (j + k1) % n;
            lemma_mod_bound(j + k1, n);
            assert(self.exp@[(i + 1) % n] == spec_xtimes(self.exp@[i], self.order, self.poly));
            lemma_add_mod_noop(j + k1, 1, n);
            if n > 1 {
                lemma_small_mod(1nat, n as nat);
            } else {
                lemma_mod_bound(i + 1, n);
                lemma_mod_bound(j + k, n);
            }
            lemma_mod_bound(j + k1, n);
        }
    }

    proof fn lemma_mul_as_xpow(self, a: GF, v: GF)
        requires
            self.wf(),
            self.valid(a),
            self.valid(v),
            a.val != 0,
        ensures
            self.spec_mul(a, v).val == self.spec_xpow(self.log@[a.val as int] as nat, v.val),
    {
        let n = self.n();
        let la = self.log@[a.val as int] as int;
        if v.val == 0 {
            self.lemma_xpow_valid(la as nat, 0);
        } else {
            let lv = self.log@[v.val as int] as int;
            self.lemma_xpow_exp(lv, la as nat);
        }
    }

    /// The laws of field addition: associativity, commutativity, zero as the
    /// identity, and every element being its own additive inverse, which
    /// makes subtraction coincide with addition.
    pub proof fn lemma_add_laws(self, a: GF, b: GF, c: GF)
        requires
            self.wf(),
            self.valid(a),
            self.valid(b),
            self.valid(c),
        ensures
            self.spec_add(self.spec_add(a, b), c) == self.spec_add(a, self.spec_add(b, c)),
            self.spec_add(a, b) == self.spec_add(b, a),
            self.spec_add(a, (GF { val: 0 })) == a,
            self.spec_add(a, a) == (GF { val: 0 }),
            self.valid(self.spec_add(a, b)),
    {
        let w = self.w;
        let order = self.order;
        let x = a.val;
        let y = b.val;
        let z = c.val;
        assert(((x ^ y) ^ z) == (x ^ (y ^ z)) && (x ^ y) == (y ^ x) && (x ^ 0) == x && (x ^ x)
            == 0 && (x ^ y) < order) by (bit_vector)
            requires
                1 <= w <= 29,
                order == 1u32 << (w as u32),
                x < order,
                y < order,
                z < order,
        ;
    }

    /// Multiplication sends two canonical elements to a canonical element,
    /// is commutative, and yields zero exactly when one factor is zero.
    pub proof fn lemma_mul_props(self, a: GF, b: GF)
        requires
            self.wf(),
            self.valid(a),
            self.valid(b),
        ensures
            self.valid(self.spec_mul(a, b)),
            self.spec_mul(a, b) == self.spec_mul(b, a),
            (self.spec_mul(a, b).val == 0) <==> (a.val == 0 || b.val == 0),
    {
        if a.val != 0 && b.val != 0 {
            let la = self.log@[a.val as int] as int;
            let lb = self.log@[b.val as int] as int;
            lemma_mod_bound(la + lb, self.n());
        }
    }

    /// Associativity of multiplication.
    pub proof fn lemma_mul_assoc(self, a: GF, b: GF, c: GF)
        requires
            self.wf(),
            self.valid(a),
            self.valid(b),
            self.valid(c),
        ensures
            self.spec_mul(self.spec_mul(a, b), c) == self.spec_mul(a, self.spec_mul(b, c)),
    {
        let n = self.n();
        if a.val == 0 || b.val == 0 || c.val == 0 {
            self.lemma_mul_props(a, b);
            self.lemma_mul_props(b, c);
            self.lemma_mul_props(self.spec_mul(a, b), c);
            self.lemma_mul_props(a, self.spec_mul(b, c));
        } else {
            let la = self.log@[a.val as int] as int;
            let lb = self.log@[b.val as int] as int;
            let lc = self.log@[c.val as int] as int;
            self.lemma_mul_props(a, b);
            self.lemma_mul_props(b, c);
            lemma_mod_bound(la + lb, n);
            lemma_mod_bound(lb + lc, n);
            // log of either product is the modular sum of the factors' logs.
            assert(self.log@[self.spec_mul(a, b).val as int] == (la + lb) % n);
            assert(self.log@[self.spec_mul(b, c).val as int] == (lb + lc) % n);
            lemma_add_mod_noop(la + lb, lc, n);
            lemma_add_mod_noop(la, lb + lc, n);
            lemma_small_mod(lc as nat, n as nat);
            lemma_small_mod(la as nat, n as nat);
        }
    }

    /// One is the multiplicative identity and zero is absorbing.
    pub proof fn lemma_mul_ident(self, a: GF)
        requires
            self.wf(),
            self.valid(a),
        ensures
            self.spec_mul(a, (GF { val: 1 })) == a,
            self.spec_mul(a, (GF { val: 0 })) == (GF { val: 0 }),
    {
        if a.val != 0 {
            let la = self.log@[a.val as int] as int;
            assert(self.log@[self.exp@[0] as int] == 0);
            lemma_small_mod(la as nat, self.n() as nat);
        }
    }

    /// Multiplication distributes over addition.
    pub proof fn lemma_mul_distrib(self, a: GF, b: GF, c: GF)
        requires
            self.wf(),
            self.valid(a),
            self.valid(b),
            self.valid(c),
        ensures
            self.spec_mul(a, self.spec_add(b, c)) == self.spec_add(
                self.spec_mul(a, b),
                self.spec_mul(a, c),
            ),
    {
        self.lemma_add_laws(b, c, c);
        if a.val == 0 {
            assert((0u32 ^ 0u32) == 0u32) by (bit_vector);
            assert(self.spec_mul(a, self.spec_add(b, c)).val == 0);
        } else {
            let la = self.log@[a.val as int] as nat;
            self.lemma_mul_as_xpow(a, self.spec_add(b, c));
            self.lemma_mul_as_xpow(a, b);
            self.lemma_mul_as_xpow(a, c);
            self.lemma_xpow_linear(la, b.val, c.val);
            assert(self.spec_mul(a, self.spec_add(b, c)).val == self.spec_mul(a, b).val
                ^ self.spec_mul(a, c).val);
        }
    }

    /// Division by a nonzero element inverts multiplication by it:
    /// `(a * b) / b == a`, and in particular `(one / b) * b == one`.
    pub proof fn lemma_div_cancel(self, a: GF, b: GF)
        requires
            self.wf(),
            self.valid(a),
            self.valid(b),
            b.val != 0,
        ensures
            self.spec_div(self.spec_mul(a, b), b) == a,
            self.spec_mul(self.spec_div(a, b), b) == a,
            self.valid(self.spec_div(a, b)),
    {
        let n = self.n();
        let lb = self.log@[b.val as int] as int;
        self.lemma_mul_props(a, b);
        if a.val != 0 {
            let la = self.log@[a.val as int] as int;
            // First: division undoes the multiplication.
            lemma_mod_bound(la + lb, n);
            assert(self.log@[self.spec_mul(a, b).val as int] == (la + lb) % n);
            lemma_mod_add_multiples_vanish(la, n);
            lemma_small_mod(la as nat, n as nat);
            if lb == 0 {
                assert((la + lb) % n == la);
            } else {
                lemma_add_mod_noop(la + lb, n - lb, n);
                lemma_small_mod((n - lb) as nat, n as nat);
            }
            // Second: multiplication undoes the division.
            lemma_mod_bound(la + n - lb, n);
            let q = self.spec_div(a, b);
            assert(q.val == self.exp@[(la + n - lb) % n]);
            assert(self.log@[q.val as int] == (la + n - lb) % n);
            lemma_add_mod_noop(la + n - lb, lb, n);
            lemma_small_mod(lb as nat, n as nat);
        }
    }
}

/// The integer a little-endian byte sequence stands for.
pub open spec fn le_bytes_val(s: Seq<u8>) -> nat
    decreases s.len(),
{
    if s.len() == 0 {
        0
    } else {
        s[0] as nat + 256 * le_bytes_val(s.subrange(1, s.len() as int))
    }
}

proof fn lemma_le_bytes_val_small(s: Seq<u8>)
    requires
        1 <= s.len() <= 4,
    ensures
        s.len() == 1 ==> le_bytes_val(s) == s[0],
        s.len() == 2 ==> le_bytes_val(s) == s[0] + 0x100 * (s[1] as nat),
        s.len() == 3 ==> le_bytes_val(s) == s[0] + 0x100 * (s[1] as nat) + 0x10000 * (
        s[2] as nat),
        s.len() == 4 ==> le_bytes_val(s) == s[0] + 0x100 * (s[1] as nat) + 0x10000 * (
        s[2] as nat) + 0x1000000 * (s[3] as nat),
    decreases s.len(),
{
    reveal_with_fuel(le_bytes_val, 5);
    let t = s.subrange(1, s.len() as int);
    if s.len() == 1 {
        assert(t.len() == 0);
    } else {
        lemma_le_bytes_val_small(t);
        assert(t[0] == s[1]);
        if s.len() >= 3 {
            assert(t[1] == s[2]);
        }
        if s.len() >= 4 {
            assert(t[2] == s[3]);
        }
    }
}

impl GfTables {
    /// Width of one serialized element in bytes.
    pub open spec fn spec_num_bytes(self) -> int {
        (self.spec_w() + 7) / 8
    }

    /// Width of one serialized element in bytes.
    pub fn num_bytes(&self) -> (r: usize)
        ensures
            r == self.spec_num_bytes(),
    {
        ((self.w as usize) + 7) / 8
    }

    /// The little-endian bytes of an element.
    pub open spec fn spec_serialize(self, a: GF) -> Seq<u8> {
        Seq::new(
            self.spec_num_bytes() as nat,
            |i: int| ((a.val >> ((8 * i) as u32)) & 0xFF) as u8,
        )
    }

    /// Serialize an element as exactly `num_bytes` little-endian bytes.
    pub fn serialize(&self, a: GF) -> (r: Vec<u8>)
        requires
            self.wf(),
        ensures
            r@ == self.spec_serialize(a),
            r@.len() == self.spec_num_bytes(),
    {
        let nb = self.num_bytes();
        let mut r: Vec<u8> = Vec::new();
        let mut i: usize = 0;
        while i < nb
            invariant
                i <= nb,
                nb == self.spec_num_bytes(),
                1 <= self.spec_w() <= 29,
                r@.len() == i,
                forall|k: int| 0 <= k < i ==> r@[k] == self.spec_serialize(a)[k],
            decreases nb - i,
        {
            r.push(((a.val >> (8 * (i as u32))) & 0xFF) as u8);
            i += 1;
        }
        proof {
            assert(r@ =~= self.spec_serialize(a));
        }
        r
    }

    /// Read an element back from exactly `num_bytes` little-endian bytes.
    /// The value is taken as it stands; it is not reduced into the field.
    pub fn deserialize(&self, bytes: &[u8]) -> (r: GF)
        requires
            self.wf(),
            bytes@.len() == self.spec_num_bytes(),
        ensures
            r.val == le_bytes_val(bytes@),
    {
        let n = bytes.len();
        let b0 = bytes[0] as u32;
        let mut val = b0;
        if n >= 2 {
            val = val + (bytes[1] as u32) * 0x100;
        }
        if n >= 3 {
            val = val + (bytes[2] as u32) * 0x10000;
        }
        if n >= 4 {
            val = val + (bytes[3] as u32) * 0x1000000;
        }
        proof {
            let s = bytes@;
            lemma_le_bytes_val_small(s);
        }
        GF { val }
    }

    /// Serializing any canonical element and reading it back is the
    /// identity.
    pub proof fn lemma_serialize_roundtrip(self, a: GF)
        requires
            self.wf(),
            self.valid(a),
        ensures
            le_bytes_val(self.spec_serialize(a)) == a.val,
    {
        let w = self.w;
        let order = self.order;
        let v = a.val;
        let s = self.spec_serialize(a);
        let nb = self.spec_num_bytes();
        let b0 = (v >> 0u32) & 0xFF;
        let b1 = (v >> 8u32) & 0xFF;
        let b2 = (v >> 16u32) & 0xFF;
        let b3 = (v >> 24u32) & 0xFF;
        lemma_le_bytes_val_small(s);
        assert(b0 < 0x100 && b1 < 0x100 && b2 < 0x100 && b3 < 0x100) by (bit_vector)
            requires
                b0 == (v >> 0u32) & 0xFF,
                b1 == (v >> 8u32) & 0xFF,
                b2 == (v >> 16u32) & 0xFF,
                b3 == (v >> 24u32) & 0xFF,
        ;
        assert(s[0] == b0 as u8 && (nb >= 2 ==> s[1] == b1 as u8) && (nb >= 3 ==> s[2]
            == b2 as u8) && (nb >= 4 ==> s[3] == b3 as u8));
        if nb == 1 {
            assert(v == b0) by (bit_vector)
                requires
                    1 <= w <= 8,
                    order == 1u32 << (w as u32),
                    v < order,
                    b0 == (v >> 0u32) & 0xFF,
            ;
        } else if nb == 2 {
            assert(v == b0 + 0x100 * b1) by (bit_vector)
                requires
                    9 <= w <= 16,
                    order == 1u32 << (w as u32),
                    v < order,
                    b0 == (v >> 0u32) & 0xFF,
                    b1 == (v >> 8u32) & 0xFF,
            ;
        } else if nb == 3 {
            assert(v == b0 + 0x10000 * b2 + 0x100 * b1) by (bit_vector)
                requires
                    17 <= w <= 24,
                    order == 1u32 << (w as u32),
                    v < order,
                    b0 == (v >> 0u32) & 0xFF,
                    b1 == (v >> 8u32) & 0xFF,
                    b2 == (v >> 16u32) & 0xFF,
            ;
        } else {
            assert(nb == 4);
            assert(v == b0 + 0x1000000 * b3 + 0x10000 * b2 + 0x100 * b1) by (bit_vector)
                requires
                    25 <= w <= 29,
                    order == 1u32 << (w as u32),
                    v < order,
                    b0 == (v >> 0u32) & 0xFF,
                    b1 == (v >> 8u32) & 0xFF,
                    b2 == (v >> 16u32) & 0xFF,
                    b3 == (v >> 24u32) & 0xFF,
            ;
        }
    }

    /// One step of polynomial reduction: clear bit `j` of `x` by adding the
    /// field polynomial shifted up to it.
    spec fn spec_reduce_step(self, x: u32, j: int) -> u32 {
        if (x >> (j as u32)) & 1 == 1 {
            x ^ (self.poly << ((j - self.spec_w()) as u32))
        } else {
            x
        }
    }

    spec fn spec_reduce_down(self, x: u32, i: int) -> u32
        decreases i,
    {
        if i <= self.spec_w() {
            x
        } else {
            self.spec_reduce_down(self.spec_reduce_step(x, i - 1), i - 1)
        }
    }

    /// An arbitrary integer reduced modulo the field polynomial.
    pub closed spec fn spec_reduce(self, v: u32) -> u32 {
        self.spec_reduce_down(v, 32)
    }

    /// Bring an arbitrary integer into the field: a value below the order
    /// maps to itself, a larger one is reduced modulo the field polynomial.
    pub fn elem_from(&self, v: u32) -> (r: GF)
        requires
            self.wf(),
        ensures
            self.valid(r),
            r.val == self.spec_reduce(v),
            v < self.spec_order() ==> r.val == v,
    {
        let w32 = self.w as u32;
        let order = self.order;
        let poly = self.poly;
        let mut x = v;
        let mut i: u32 = 32;
        while i > w32
            invariant
                self.wf(),
                w32 == self.spec_w(),
                order == self.spec_order(),
                poly == self.poly,
                w32 <= i <= 32,
                self.spec_reduce_down(x, i as int) == self.spec_reduce(v),
                i < 32 ==> (x as u64) < (1u64 << i),
                v < order ==> x == v,
            decreases i,
        {
            i = i - 1;
            let w = self.w;
            proof {
                assert((v < (1u32 << (w as u32)) && x == v && (w as u32) <= i < 32) ==> ((x >> i)
                    & 1 == 0)) by (bit_vector);
            }
            if (x >> i) & 1 == 1 {
                let shifted = poly << (i - w32);
                proof {
                    let xx = x;
                    let sh: u32 = (i - w32) as u32;
                    assert(((xx ^ (poly << sh)) as u64) < (1u64 << i)) by (bit_vector)
                        requires
                            1 <= w <= 29,
                            order == 1u32 << (w as u32),
                            order <= poly < 2 * order,
                            (w as u32) + sh == i,
                            i < 32,
                            (xx >> i) & 1 == 1,
                            i < 31 ==> (xx as u64) < (1u64 << (i + 1)),
                    ;
                }
                x = x ^ shifted;
            } else {
                proof {
                    let xx = x;
                    assert(((xx >> i) & 1 == 0) || ((xx >> i) & 1 == 1)) by (bit_vector);
                    assert((i < 31 && (xx as u64) < (1u64 << (i + 1)) && (xx >> i) & 1 == 0) ==> (
                    (xx as u64) < (1u64 << i))) by (bit_vector);
                    assert((i == 31 && (xx >> i) & 1 == 0) ==> ((xx as u64) < (1u64 << i)))
                        by (bit_vector);
                }
            }
        }
        proof {
            let xx = x;
            let w = self.w;
            assert(((xx as u64) < (1u64 << (w as u32))) ==> xx < (1u32 << (w as u32)))
                by (bit_vector)
                requires
                    1 <= w <= 29,
            ;
        }
        GF { val: x }
    }
}

/// Carrier for the standard random number generator of the rand crate.
#[verifier::external_type_specification]
#[verifier::external_body]
pub struct ExStdRng(rand::rngs::StdRng);

/// Relies on rand::Rng::gen_range over `0..bound`: the sample is uniform and
/// strictly below `bound`.
#[verifier::external_body]
pub(crate) fn sample_below(rng: &mut rand::rngs::StdRng, bound: u32) -> (r: u32)
    requires
        bound >= 1,
    ensures
        r < bound,
{
    rand::Rng::gen_range(rng, 0..bound)
}

impl GF {
    /// Sample an element uniformly at random from the field.
    pub fn rand(t: &GfTables, rng: &mut rand::rngs::StdRng) -> (r: GF)
        requires
            t.wf(),
        ensures
            t.valid(r),
    {
        proof {
            t.lemma_order_bound();
        }
        GF { val: sample_below(rng, t.order()) }
    }
}

} // verus!
