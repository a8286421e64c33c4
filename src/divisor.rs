use vstd::prelude::*;
use vstd::arithmetic::div_mod::*;
use std::rc::Rc;
use crate::field::{Fp, is_prime, lemma_mul_nonzero};
use crate::evals::Evals;
use crate::poly::{eval, padd, pmul, represents, lemma_eval_cons, lemma_padd, lemma_pmul, lemma_pmul_len};

verus! {

/// The `A` value at one sample of a product of `A1 - y B1` and `A2 - y B2`,
/// with `y^2` replaced by the modulus value `m`.
pub open spec fn prod_a(p: int, a1: int, b1: int, a2: int, b2: int, m: int) -> int {
    (a1 * a2 + b1 * b2 * m) % p
}

/// The `B` value at one sample of a product of `A1 - y B1` and `A2 - y B2`.
pub open spec fn prod_b(p: int, a1: int, b1: int, a2: int, b2: int) -> int {
    (a1 * b2 + a2 * b1) % p
}

/// `q` is the quotient of `n` by `d` modulo `p`, with zero where `d` is zero.
pub open spec fn is_quotient(p: int, n: int, d: int, q: int) -> bool {
    &&& 0 <= q < p
    &&& d == 0 ==> q == 0
    &&& d != 0 ==> (q * d) % p == n
}

/// The value at sample `i` of `(x - x1)(x - x2)`.
pub open spec fn root_pair_at(p: int, i: int, x1: int, x2: int) -> int {
    (((i % p) - x1) * ((i % p) - x2)) % p
}

/// The value at sample `i` of the line `slope * x + intercept`.
pub open spec fn line_at(p: int, slope: int, intercept: int, i: int) -> int {
    (intercept + slope * i) % p
}

/// Helper: one sample of the product, computed with three multiplications for
/// the two cross terms' sum.
fn mul_sample(f: Fp, a1: u64, b1: u64, a2: u64, b2: u64, m: u64) -> (r: (u64, u64))
    requires
        f.wf(),
        f.elem(a1),
        f.elem(b1),
        f.elem(a2),
        f.elem(b2),
        f.elem(m),
    ensures
        f.elem(r.0),
        f.elem(r.1),
        r.0 as int == prod_a(f.p as int, a1 as int, b1 as int, a2 as int, b2 as int, m as int),
        r.1 as int == prod_b(f.p as int, a1 as int, b1 as int, a2 as int, b2 as int),
{
    let ghost p = f.p as int;
    let a1a2 = f.mul(a1, a2);
    let b1b2 = f.mul(b1, b2);
    let s1 = f.add(a1, b1);
    let s2 = f.add(a2, b2);
    let cross = f.mul(s1, s2);
    let t = f.add(a1a2, b1b2);
    let b = f.sub(cross, t);
    let bm = f.mul(b1b2, m);
    let a = f.add(a1a2, bm);
    proof {
        lemma_mul_mod_noop((a1 + b1) as int, (a2 + b2) as int, p);
        lemma_add_mod_noop(a1 * a2, b1 * b2, p);
        lemma_sub_mod_noop((a1 + b1) * (a2 + b2), a1 * a2 + b1 * b2, p);
        assert((a1 + b1) * (a2 + b2) - (a1 * a2 + b1 * b2) == a1 * b2 + a2 * b1) by (nonlinear_arith);
        lemma_small_mod(m as nat, p as nat);
        lemma_mul_mod_noop(b1 * b2, m as int, p);
        lemma_add_mod_noop(a1 * a2, b1 * b2 * m, p);
    }
    (a, b)
}


/// The divisor of a single curve point, `A(x) = slope * x + intercept` and
/// `B(x) = b`, kept as coefficients and evaluated on demand.
#[derive(Clone, Copy, Debug, PartialEq, Eq)]
pub struct SmallDivisor {
    /// `(slope, intercept)` of `A`.
    pub a: (u64, u64),
    pub b: u64,
}

impl SmallDivisor {
    pub open spec fn wf(&self, f: Fp) -> bool {
        f.elem(self.a.0) && f.elem(self.a.1) && f.elem(self.b)
    }

    pub fn new(a: (u64, u64), b: u64) -> (r: SmallDivisor)
        ensures
            r.a == a,
            r.b == b,
    {
        SmallDivisor { a, b }
    }
}

/// The function `A(x) - y B(x)` on the curve `y^2 = x^3 + a x + b`, with `A`
/// and `B` in evaluation form; `modulus` holds `x^3 + a x + b` at the same
/// samples and is shared by all divisors of one computation.
pub struct Divisor {
    pub a: Evals,
    pub b: Evals,
    pub modulus: Rc<Evals>,
    pub field: Fp,
}

impl Divisor {
    pub open spec fn wf(&self) -> bool {
        &&& self.field.wf()
        &&& self.a.wf(self.field)
        &&& self.b.wf(self.field)
        &&& self.modulus.wf(self.field)
        &&& self.a.spec_len() == self.modulus.spec_len()
        &&& self.b.spec_len() == self.modulus.spec_len()
    }

    pub open spec fn spec_len(&self) -> nat {
        self.modulus.spec_len()
    }

    pub open spec fn p(&self) -> int {
        self.field.p as int
    }

    /// Two divisors of one computation: same field, same shared modulus table.
    pub open spec fn compatible(&self, other: &Divisor) -> bool {
        self.field == other.field && *self.modulus == *other.modulus
    }

    /// The degree bounds `(A, B)` of the product of `self` and `other`.
    pub open spec fn spec_new_degree(&self, other: &Divisor) -> (int, int) {
        let (a1, b1) = (self.a.degree as int, self.b.degree as int);
        let (a2, b2) = (other.a.degree as int, other.b.degree as int);
        (
            if a1 + a2 >= 3 + b1 + b2 { a1 + a2 } else { 3 + b1 + b2 },
            if a1 + b2 >= a2 + b1 { a1 + b2 } else { a2 + b1 },
        )
    }

    /// `r` holds, sample by sample, the product of `self` and `other`.
    pub open spec fn is_product(&self, other: &Divisor, r: &Divisor) -> bool {
        &&& r.spec_len() == self.spec_len()
        &&& forall|i: int| 0 <= i < self.spec_len() ==> {
            &&& #[trigger] r.a.evals@[i] as int == prod_a(self.p(), self.a.evals@[i] as int,
                self.b.evals@[i] as int, other.a.evals@[i] as int, other.b.evals@[i] as int,
                self.modulus.evals@[i] as int)
            &&& r.b.evals@[i] as int == prod_b(self.p(), self.a.evals@[i] as int,
                self.b.evals@[i] as int, other.a.evals@[i] as int, other.b.evals@[i] as int)
        }
    }

    pub fn new(a: Evals, b: Evals, modulus: Rc<Evals>, field: Fp) -> (r: Divisor)
        requires
            field.wf(),
            a.wf(field),
            b.wf(field),
            modulus.wf(field),
            a.spec_len() == modulus.spec_len(),
            b.spec_len() == modulus.spec_len(),
        ensures
            r.wf(),
            r.a == a,
            r.b == b,
            r.modulus == modulus,
            r.field == field,
    {
        Divisor { a, b, modulus, field }
    }

    pub fn a(&self) -> (r: &Evals)
        ensures
            *r == self.a,
    {
        &self.a
    }

    pub fn b(&self) -> (r: &Evals)
        ensures
            *r == self.b,
    {
        &self.b
    }

    /// The values of `A` and `B` at sample `i`.
    pub fn ab(&self, i: usize) -> (r: (u64, u64))
        requires
            self.wf(),
            i < self.spec_len(),
        ensures
            r == (self.a.evals@[i as int], self.b.evals@[i as int]),
    {
        (self.a.evals[i], self.b.evals[i])
    }

    /// Degree bounds of `A` and `B` after multiplying by `other`:
    /// `max(a1 + a2, 3 + b1 + b2)` and `max(a1 + b2, a2 + b1)`; the `3` is the
    /// degree of the modulus `x^3 + a x + b`.
    pub fn new_degree(&self, other: &Divisor) -> (r: (usize, usize))
        requires
            self.spec_new_degree(other).0 < usize::MAX,
            self.spec_new_degree(other).1 < usize::MAX,
        ensures
            r.0 as int == self.spec_new_degree(other).0,
            r.1 as int == self.spec_new_degree(other).1,
    {
        let (a1, b1) = (self.a.degree, self.b.degree);
        let (a2, b2) = (other.a.degree, other.b.degree);
        let a = if a1 + a2 >= 3 + b1 + b2 { a1 + a2 } else { 3 + b1 + b2 };
        let b = if a1 + b2 >= a2 + b1 { a1 + b2 } else { a2 + b1 };
        (a, b)
    }

    /// The product `A1A2 + m B1B2 - y (A1B2 + A2B1)` of two divisors, where the
    /// curve equation `y^2 = m(x)` folds the `y^2` term back into `A`.
    pub fn mul(self, rhs: &Divisor) -> (r: Divisor)
        requires
            self.wf(),
            rhs.wf(),
            self.compatible(rhs),
            self.spec_new_degree(rhs).0 < self.spec_len(),
            self.spec_new_degree(rhs).1 < self.spec_len(),
        ensures
            r.wf(),
            r.compatible(&self),
            self.is_product(rhs, &r),
            r.a.degree as int == self.spec_new_degree(rhs).0,
            r.b.degree as int == self.spec_new_degree(rhs).1,
    {
        let ghost orig = self;
        let mut d = self;
        let len = d.a.len();
        let (da, db) = d.new_degree(rhs);
        let f = d.field;
        let mut i: usize = 0;
        while i < len
            invariant
                orig.wf(),
                rhs.wf(),
                orig.compatible(rhs),
                f == orig.field,
                len == orig.spec_len(),
                d.field == orig.field,
                d.modulus == orig.modulus,
                d.a.degree == orig.a.degree,
                d.b.degree == orig.b.degree,
                d.a.spec_len() == len,
                d.b.spec_len() == len,
                i <= len,
                forall|j: int| i <= j < len ==> #[trigger] d.a.evals@[j] == orig.a.evals@[j],
                forall|j: int| i <= j < len ==> #[trigger] d.b.evals@[j] == orig.b.evals@[j],
                d.a.wf(f),
                d.b.wf(f),
                forall|j: int| 0 <= j < i ==> {
                    &&& #[trigger] d.a.evals@[j] as int == prod_a(orig.p(), orig.a.evals@[j] as int,
                        orig.b.evals@[j] as int, rhs.a.evals@[j] as int, rhs.b.evals@[j] as int,
                        orig.modulus.evals@[j] as int)
                    &&& d.b.evals@[j] as int == prod_b(orig.p(), orig.a.evals@[j] as int,
                        orig.b.evals@[j] as int, rhs.a.evals@[j] as int, rhs.b.evals@[j] as int)
                },
            decreases len - i,
        {
            let m = d.modulus.evals[i];
            let a1 = d.a.evals[i];
            let b1 = d.b.evals[i];
            let (a2, b2) = rhs.ab(i);
            let (a, b) = mul_sample(f, a1, b1, a2, b2, m);
            d.a.evals[i] = a;
            d.b.evals[i] = b;
            i += 1;
        }
        d.a.degree = da;
        d.b.degree = db;
        d
    }
}


/// Degree bounds `(A, B)` after multiplying bounds `(da, db)` by a linear divisor:
/// `max(da, db + 3)` and `max(da, db + 1)`.
pub open spec fn small_degree(da: int, db: int) -> (int, int) {
    (if da >= db + 3 { da } else { db + 3 }, if da >= db + 1 { da } else { db + 1 })
}

/// The quotient of `a * inv` by the element whose inverse is `inv`.
proof fn lemma_quotient(p: int, a: int, d: int, inv: int)
    requires
        p > 1,
        0 <= a < p,
        (d * inv) % p == 1,
    ensures
        (((a * inv) % p) * d) % p == a,
{
    lemma_mul_mod_noop_left(a * inv, d, p);
    assert((a * inv) * d == a * (d * inv)) by (nonlinear_arith);
    lemma_mul_mod_noop_right(a, d * inv, p);
    lemma_small_mod(a as nat, p as nat);
}

impl Divisor {
    pub open spec fn spec_small_degree(&self) -> (int, int) {
        small_degree(self.a.degree as int, self.b.degree as int)
    }

    /// `r` holds, sample by sample, the product of `self` and the linear divisor `s`.
    pub open spec fn is_small_product(&self, s: SmallDivisor, r: &Divisor) -> bool {
        &&& r.spec_len() == self.spec_len()
        &&& forall|i: int| 0 <= i < self.spec_len() ==> {
            &&& #[trigger] r.a.evals@[i] as int == prod_a(self.p(), self.a.evals@[i] as int,
                self.b.evals@[i] as int, line_at(self.p(), s.a.0 as int, s.a.1 as int, i),
                s.b as int, self.modulus.evals@[i] as int)
            &&& r.b.evals@[i] as int == prod_b(self.p(), self.a.evals@[i] as int,
                self.b.evals@[i] as int, line_at(self.p(), s.a.0 as int, s.a.1 as int, i),
                s.b as int)
        }
    }

    /// `r` holds, sample by sample, `self` divided by `den` (zero where `den` is zero).
    pub open spec fn is_quotient_by(&self, den: Seq<u64>, r: &Divisor) -> bool {
        &&& r.spec_len() == self.spec_len()
        &&& forall|i: int| 0 <= i < self.spec_len() ==> {
            &&& is_quotient(self.p(), self.a.evals@[i] as int, den[i] as int, #[trigger] r.a.evals@[i] as int)
            &&& is_quotient(self.p(), self.b.evals@[i] as int, den[i] as int, r.b.evals@[i] as int)
        }
    }

    /// The product with the divisor of one point; the point's `A` is evaluated
    /// by adding its slope at each step, its `B` is a constant.
    pub fn mul_small(self, rhs: SmallDivisor) -> (r: Divisor)
        requires
            self.wf(),
            rhs.wf(self.field),
            self.spec_small_degree().0 < self.spec_len(),
        ensures
            r.wf(),
            r.compatible(&self),
            self.is_small_product(rhs, &r),
            r.a.degree as int == self.spec_small_degree().0,
            r.b.degree as int == self.spec_small_degree().1,
    {
        let ghost orig = self;
        let mut d = self;
        let len = d.a.len();
        let f = d.field;
        let ghost p = f.p as int;
        let mut a2: u64 = rhs.a.1;
        let b2: u64 = rhs.b;
        proof {
            lemma_small_mod(rhs.a.1 as nat, f.p as nat);
        }
        let mut i: usize = 0;
        while i < len
            invariant
                orig.wf(),
                rhs.wf(f),
                f == orig.field,
                p == f.p,
                len == orig.spec_len(),
                d.field == orig.field,
                d.modulus == orig.modulus,
                d.a.degree == orig.a.degree,
                d.b.degree == orig.b.degree,
                d.a.spec_len() == len,
                d.b.spec_len() == len,
                i <= len,
                b2 == rhs.b,
                a2 as int == line_at(p, rhs.a.0 as int, rhs.a.1 as int, i as int),
                forall|j: int| i <= j < len ==> #[trigger] d.a.evals@[j] == orig.a.evals@[j],
                forall|j: int| i <= j < len ==> #[trigger] d.b.evals@[j] == orig.b.evals@[j],
                d.a.wf(f),
                d.b.wf(f),
                forall|j: int| 0 <= j < i ==> {
                    &&& #[trigger] d.a.evals@[j] as int == prod_a(orig.p(), orig.a.evals@[j] as int,
                        orig.b.evals@[j] as int, line_at(p, rhs.a.0 as int, rhs.a.1 as int, j),
                        rhs.b as int, orig.modulus.evals@[j] as int)
                    &&& d.b.evals@[j] as int == prod_b(orig.p(), orig.a.evals@[j] as int,
                        orig.b.evals@[j] as int, line_at(p, rhs.a.0 as int, rhs.a.1 as int, j),
                        rhs.b as int)
                },
            decreases len - i,
        {
            proof {
                lemma_mod_bound(rhs.a.1 + rhs.a.0 * i, p);
            }
            let m = d.modulus.evals[i];
            let a1 = d.a.evals[i];
            let b1 = d.b.evals[i];
            let (a, b) = mul_sample(f, a1, b1, a2, b2, m);
            let next = f.add(a2, rhs.a.0);
            proof {
                let x = rhs.a.1 + rhs.a.0 * i;
                lemma_small_mod(rhs.a.0 as nat, f.p as nat);
                lemma_add_mod_noop(x, rhs.a.0 as int, p);
                assert(x + rhs.a.0 == rhs.a.1 + rhs.a.0 * (i + 1)) by (nonlinear_arith)
                    requires
                        x == rhs.a.1 + rhs.a.0 * i,
                ;
            }
            a2 = next;
            d.a.evals[i] = a;
            d.b.evals[i] = b;
            i += 1;
        }
        assert(orig.is_small_product(rhs, &d));
        let da = d.a.degree;
        let db = d.b.degree;
        d.a.degree = if da >= db + 3 { da } else { db + 3 };
        d.b.degree = if da >= db + 1 { da } else { db + 1 };
        assert(orig.is_small_product(rhs, &d));
        d
    }

    /// Exact division by the polynomial that `rhs` holds, through one batched
    /// inversion of its samples; both degree bounds drop by `rhs.degree`.
    pub fn div(self, rhs: Evals) -> (r: Divisor)
        requires
            self.wf(),
            rhs.spec_len() == self.spec_len(),
            forall|i: int| 0 <= i < rhs.spec_len() ==> self.field.elem(#[trigger] rhs.evals@[i]),
            rhs.degree <= self.a.degree,
            rhs.degree <= self.b.degree,
        ensures
            r.wf(),
            r.compatible(&self),
            self.is_quotient_by(rhs.evals@, &r),
            r.a.degree == self.a.degree - rhs.degree,
            r.b.degree == self.b.degree - rhs.degree,
    {
        let ghost orig = self;
        let ghost den = rhs.evals@;
        let mut d = self;
        let len = rhs.len();
        let f = d.field;
        let ghost p = f.p as int;
        let mut inv = rhs.evals;
        f.batch_invert(&mut inv);
        let mut i: usize = 0;
        while i < len
            invariant
                orig.wf(),
                f == orig.field,
                p == f.p,
                len == orig.spec_len(),
                den.len() == len,
                inv@.len() == len,
                forall|j: int| 0 <= j < len ==> f.inverse_of(den[j], #[trigger] inv@[j]),
                d.field == orig.field,
                d.modulus == orig.modulus,
                d.a.degree == orig.a.degree,
                d.b.degree == orig.b.degree,
                d.a.spec_len() == len,
                d.b.spec_len() == len,
                i <= len,
                forall|j: int| i <= j < len ==> #[trigger] d.a.evals@[j] == orig.a.evals@[j],
                forall|j: int| i <= j < len ==> #[trigger] d.b.evals@[j] == orig.b.evals@[j],
                d.a.wf(f),
                d.b.wf(f),
                forall|j: int| 0 <= j < i ==> {
                    &&& is_quotient(p, orig.a.evals@[j] as int, den[j] as int, #[trigger] d.a.evals@[j] as int)
                    &&& is_quotient(p, orig.b.evals@[j] as int, den[j] as int, d.b.evals@[j] as int)
                },
            decreases len - i,
        {
            let t = inv[i];
            let qa = f.mul(d.a.evals[i], t);
            let qb = f.mul(d.b.evals[i], t);
            proof {
                assert(qa == (orig.a.evals@[i as int] * t) % p);
                assert(0 <= orig.a.evals@[i as int] < p);
                assert(f.inverse_of(den[i as int], t));
                assert(qb == (orig.b.evals@[i as int] * t) % p);
                assert(0 <= orig.b.evals@[i as int] < p);
                if den[i as int] != 0 {
                    lemma_quotient(p, orig.a.evals@[i as int] as int, den[i as int] as int, t as int);
                    lemma_quotient(p, orig.b.evals@[i as int] as int, den[i as int] as int, t as int);
                } else {
                    lemma_small_mod(0, f.p as nat);
                    let (oa, ob) = (orig.a.evals@[i as int] as int, orig.b.evals@[i as int] as int);
                    assert(oa * t == 0 && ob * t == 0) by (nonlinear_arith)
                        requires
                            t == 0,
                    ;
                }
                assert(is_quotient(p, orig.a.evals@[i as int] as int, den[i as int] as int, qa as int));
                assert(is_quotient(p, orig.b.evals@[i as int] as int, den[i as int] as int, qb as int));
            }
            d.a.evals[i] = qa;
            d.b.evals[i] = qb;
            i += 1;
        }
        assert(orig.is_quotient_by(den, &d));
        d.a.degree = d.a.degree - rhs.degree;
        d.b.degree = d.b.degree - rhs.degree;
        assert(orig.is_quotient_by(den, &d));
        d
    }
}


impl Divisor {
    /// The value at sample `i` of the numerator of a merge: the product of
    /// `d1`, `d2` and the linear divisor `s`.
    pub open spec fn merge_num(d1: &Divisor, d2: &Divisor, s: SmallDivisor, i: int) -> (int, int) {
        let p = d1.p();
        let (a1, b1) = (d1.a.evals@[i] as int, d1.b.evals@[i] as int);
        let (a2, b2) = (d2.a.evals@[i] as int, d2.b.evals@[i] as int);
        let m = d1.modulus.evals@[i] as int;
        let ta = prod_a(p, a1, b1, a2, b2, m);
        let tb = prod_b(p, a1, b1, a2, b2);
        let l = line_at(p, s.a.0 as int, s.a.1 as int, i);
        (prod_a(p, ta, tb, l, s.b as int, m), prod_b(p, ta, tb, l, s.b as int))
    }

    /// Degree bounds `(A, B)` of the numerator of a merge.
    pub open spec fn merge_degree(d1: &Divisor, d2: &Divisor) -> (int, int) {
        let (da, db) = d1.spec_new_degree(d2);
        small_degree(da, db)
    }

    /// Removes the two roots `x1` and `x2` by dividing by `(x - x1)(x - x2)`;
    /// at a sample equal to `x1` or `x2` the result is zero.
    pub fn remove_diff(self, x1: u64, x2: u64) -> (r: Divisor)
        requires
            self.wf(),
            self.field.elem(x1),
            self.field.elem(x2),
            2 <= self.a.degree,
            2 <= self.b.degree,
        ensures
            r.wf(),
            r.compatible(&self),
            r.spec_len() == self.spec_len(),
            forall|i: int| 0 <= i < self.spec_len() ==> {
                &&& is_quotient(self.p(), self.a.evals@[i] as int,
                    root_pair_at(self.p(), i, x1 as int, x2 as int), #[trigger] r.a.evals@[i] as int)
                &&& is_quotient(self.p(), self.b.evals@[i] as int,
                    root_pair_at(self.p(), i, x1 as int, x2 as int), r.b.evals@[i] as int)
            },
            r.a.degree == self.a.degree - 2,
            r.b.degree == self.b.degree - 2,
    {
        let len = self.a.len();
        let f = self.field;
        let ghost p = f.p as int;
        let mut den: Vec<u64> = Vec::with_capacity(len);
        let mut i: usize = 0;
        while i < len
            invariant
                f.wf(),
                p == f.p,
                f.elem(x1),
                f.elem(x2),
                i <= len,
                den@.len() == i,
                forall|j: int| 0 <= j < i ==> f.elem(#[trigger] den@[j]),
                forall|j: int| 0 <= j < i ==> #[trigger] den@[j] as int == root_pair_at(p, j, x1 as int, x2 as int),
            decreases len - i,
        {
            let x = f.from_index(i);
            proof {
                lemma_mod_bound(i as int, p);
            }
            let u = f.sub(x, x1);
            let v = f.sub(x, x2);
            let w = f.mul(u, v);
            proof {
                lemma_mul_mod_noop(x - x1, x - x2, p);
            }
            den.push(w);
            i += 1;
        }
        let den = Evals::new(den, 2);
        self.div(den)
    }

    /// Combines `d1`, `d2` and the divisor of one more point into a divisor of
    /// all their points: multiplies the three, then divides out the two roots
    /// `denom = (x1, x2)` that the product holds in excess.
    pub fn merge(d1: Divisor, d2: Divisor, small: SmallDivisor, denom: (u64, u64)) -> (r: Divisor)
        requires
            d1.wf(),
            d2.wf(),
            d1.compatible(&d2),
            small.wf(d1.field),
            d1.field.elem(denom.0),
            d1.field.elem(denom.1),
            d1.spec_new_degree(&d2).0 < d1.spec_len(),
            d1.spec_new_degree(&d2).1 < d1.spec_len(),
            Divisor::merge_degree(&d1, &d2).0 < d1.spec_len(),
            2 <= Divisor::merge_degree(&d1, &d2).1,
        ensures
            r.wf(),
            r.compatible(&d1),
            r.spec_len() == d1.spec_len(),
            forall|i: int| 0 <= i < d1.spec_len() ==> {
                &&& is_quotient(d1.p(), Divisor::merge_num(&d1, &d2, small, i).0,
                    root_pair_at(d1.p(), i, denom.0 as int, denom.1 as int), #[trigger] r.a.evals@[i] as int)
                &&& is_quotient(d1.p(), Divisor::merge_num(&d1, &d2, small, i).1,
                    root_pair_at(d1.p(), i, denom.0 as int, denom.1 as int), r.b.evals@[i] as int)
            },
            r.a.degree == Divisor::merge_degree(&d1, &d2).0 - 2,
            r.b.degree == Divisor::merge_degree(&d1, &d2).1 - 2,
    {
        let numerator = d1.mul(&d2);
        let numerator = numerator.mul_small(small);
        let (x1, x2) = denom;
        numerator.remove_diff(x1, x2)
    }
}


/// The value of `A - y B` modulo `p`, given the values `a` and `b` of `A` and `B`.
pub open spec fn fn_value(p: int, a: int, b: int, y: int) -> int {
    (a - y * b) % p
}

/// One sample of the product: folding `y^2` into `A` through `m` keeps the value
/// of the product of the two functions wherever `y^2 = m`.
pub proof fn lemma_sample_product_value(p: int, a1: int, b1: int, a2: int, b2: int, m: int, y: int)
    requires
        p > 1,
        0 <= m < p,
        (y * y) % p == m,
    ensures
        fn_value(p, prod_a(p, a1, b1, a2, b2, m), prod_b(p, a1, b1, a2, b2), y)
            == (fn_value(p, a1, b1, y) * fn_value(p, a2, b2, y)) % p,
{
    let x = a1 * a2 + b1 * b2 * m;
    let w = a1 * b2 + a2 * b1;
    let z = (a1 - y * b1) * (a2 - y * b2);
    lemma_mul_mod_noop(a1 - y * b1, a2 - y * b2, p);
    lemma_mul_mod_noop_right(y, w, p);
    lemma_mod_twice(x, p);
    lemma_sub_mod_noop(x % p, y * (w % p), p);
    lemma_sub_mod_noop(x, y * w, p);
    lemma_fundamental_div_mod(y * y, p);
    let k = (y * y) / p;
    let c = b1 * b2;
    let yy = y * y;
    let u = a2 - y * b2;
    assert(z == a1 * u - (y * b1) * u) by (nonlinear_arith)
        requires
            z == (a1 - y * b1) * u,
    ;
    assert(a1 * u == a1 * a2 - y * (a1 * b2)) by (nonlinear_arith)
        requires
            u == a2 - y * b2,
    ;
    assert((y * b1) * u == y * (a2 * b1) - c * yy) by (nonlinear_arith)
        requires
            u == a2 - y * b2,
            c == b1 * b2,
            yy == y * y,
    ;
    assert(y * w == y * (a1 * b2) + y * (a2 * b1)) by (nonlinear_arith)
        requires
            w == a1 * b2 + a2 * b1,
    ;
    assert(c * yy == c * m + p * (c * k)) by (nonlinear_arith)
        requires
            yy == p * k + m,
    ;
    assert(x == a1 * a2 + c * m) by (nonlinear_arith)
        requires
            x == a1 * a2 + b1 * b2 * m,
            c == b1 * b2,
    ;
    assert(p * (-(c * k)) == -(p * (c * k))) by (nonlinear_arith);
    assert(x - y * w == z + p * (-(c * k)));
    lemma_mod_multiples_vanish(-(c * k), z, p);
}

/// Multiplication is exact at every sample: the product divisor's value there
/// is the product of the two values, for every `y` with `y^2 = m(x)`.
pub proof fn lemma_mul_evaluates(d1: &Divisor, d2: &Divisor, r: &Divisor, i: int, y: int)
    requires
        d1.wf(),
        d1.is_product(d2, r),
        0 <= i < d1.spec_len(),
        (y * y) % d1.p() == d1.modulus.evals@[i] as int,
    ensures
        fn_value(d1.p(), r.a.evals@[i] as int, r.b.evals@[i] as int, y) == (fn_value(
            d1.p(),
            d1.a.evals@[i] as int,
            d1.b.evals@[i] as int,
            y,
        ) * fn_value(d1.p(), d2.a.evals@[i] as int, d2.b.evals@[i] as int, y)) % d1.p(),
{
    assert(d1.field.elem(d1.modulus.evals@[i]));
    assert(r.a.evals@[i] as int == prod_a(d1.p(), d1.a.evals@[i] as int, d1.b.evals@[i] as int,
        d2.a.evals@[i] as int, d2.b.evals@[i] as int, d1.modulus.evals@[i] as int));
    lemma_sample_product_value(d1.p(), d1.a.evals@[i] as int, d1.b.evals@[i] as int,
        d2.a.evals@[i] as int, d2.b.evals@[i] as int, d1.modulus.evals@[i] as int, y);
}

/// Modulo a prime, a non-zero factor cancels.
proof fn lemma_cancel(p: int, x: int, d: int, q: int)
    requires
        is_prime(p),
        0 <= x < p,
        0 <= q < p,
        d % p != 0,
        (q * d) % p == (x * d) % p,
    ensures
        q == x,
{
    lemma_sub_mod_noop(q * d, x * d, p);
    lemma_small_mod(0, p as nat);
    assert((q - x) * d == q * d - x * d) by (nonlinear_arith);
    if (q - x) % p != 0 {
        lemma_mul_nonzero(p, q - x, d);
    }
    if q < x {
        lemma_mod_multiples_vanish(1, q - x, p);
        lemma_small_mod((p + q - x) as nat, p as nat);
    } else {
        lemma_small_mod((q - x) as nat, p as nat);
    }
}

/// `scaled` holds the tables of `d` multiplied sample by sample by `den`.
pub open spec fn is_scaled(d: &Divisor, den: Seq<u64>, scaled: &Divisor) -> bool {
    &&& den.len() == d.spec_len()
    &&& scaled.spec_len() == d.spec_len()
    &&& scaled.field == d.field
    &&& forall|i: int| 0 <= i < d.spec_len() ==> {
        &&& #[trigger] scaled.a.evals@[i] as int == (d.a.evals@[i] * den[i]) % d.p()
        &&& scaled.b.evals@[i] as int == (d.b.evals@[i] * den[i]) % d.p()
    }
}

/// Division undoes multiplication by the same denominator on every sample,
/// given that `d` vanishes wherever the denominator does.
pub proof fn lemma_div_undoes_mul(d: &Divisor, den: Seq<u64>, scaled: &Divisor, r: &Divisor)
    requires
        d.wf(),
        forall|i: int| 0 <= i < den.len() ==> d.field.elem(#[trigger] den[i]),
        forall|i: int| 0 <= i < den.len() && #[trigger] den[i] == 0 ==> d.a.evals@[i] == 0 && d.b.evals@[i] == 0,
        is_scaled(d, den, scaled),
        scaled.is_quotient_by(den, r),
        r.wf(),
    ensures
        r.a.evals@ =~= d.a.evals@,
        r.b.evals@ =~= d.b.evals@,
{
    let p = d.p();
    assert forall|i: int| 0 <= i < d.spec_len() implies r.a.evals@[i] == d.a.evals@[i]
        && r.b.evals@[i] == d.b.evals@[i] by {
        assert(scaled.a.evals@[i] as int == (d.a.evals@[i] * den[i]) % p);
        assert(d.field.elem(d.a.evals@[i]) && d.field.elem(d.b.evals@[i]));
        if den[i] != 0 {
            lemma_small_mod(den[i] as nat, p as nat);
            lemma_cancel(p, d.a.evals@[i] as int, den[i] as int, r.a.evals@[i] as int);
            lemma_cancel(p, d.b.evals@[i] as int, den[i] as int, r.b.evals@[i] as int);
        }
    }
}

/// A merge is exact at every sample: its value there times the value of
/// `(x - x1)(x - x2)` is the product of the values of the three inputs, for
/// every `y` with `y^2 = m(x)`.
pub proof fn lemma_merge_evaluates(d1: &Divisor, d2: &Divisor, s: SmallDivisor, denom: (u64, u64), r: &Divisor, i: int, y: int)
    requires
        d1.wf(),
        0 <= i < d1.spec_len(),
        (y * y) % d1.p() == d1.modulus.evals@[i] as int,
        is_quotient(d1.p(), Divisor::merge_num(d1, d2, s, i).0,
            root_pair_at(d1.p(), i, denom.0 as int, denom.1 as int), r.a.evals@[i] as int),
        is_quotient(d1.p(), Divisor::merge_num(d1, d2, s, i).1,
            root_pair_at(d1.p(), i, denom.0 as int, denom.1 as int), r.b.evals@[i] as int),
        root_pair_at(d1.p(), i, denom.0 as int, denom.1 as int) != 0,
    ensures
        (fn_value(d1.p(), r.a.evals@[i] as int, r.b.evals@[i] as int, y)
            * root_pair_at(d1.p(), i, denom.0 as int, denom.1 as int)) % d1.p()
        == (((fn_value(d1.p(), d1.a.evals@[i] as int, d1.b.evals@[i] as int, y)
            * fn_value(d1.p(), d2.a.evals@[i] as int, d2.b.evals@[i] as int, y)) % d1.p())
            * fn_value(d1.p(), line_at(d1.p(), s.a.0 as int, s.a.1 as int, i), s.b as int, y)) % d1.p(),
{
    let p = d1.p();
    let (a1, b1) = (d1.a.evals@[i] as int, d1.b.evals@[i] as int);
    let (a2, b2) = (d2.a.evals@[i] as int, d2.b.evals@[i] as int);
    let m = d1.modulus.evals@[i] as int;
    assert(d1.field.elem(d1.modulus.evals@[i]));
    let ta = prod_a(p, a1, b1, a2, b2, m);
    let tb = prod_b(p, a1, b1, a2, b2);
    let l = line_at(p, s.a.0 as int, s.a.1 as int, i);
    let den = root_pair_at(p, i, denom.0 as int, denom.1 as int);
    let (qa, qb) = (r.a.evals@[i] as int, r.b.evals@[i] as int);
    let (na, nb) = (prod_a(p, ta, tb, l, s.b as int, m), prod_b(p, ta, tb, l, s.b as int));
    lemma_sample_product_value(p, a1, b1, a2, b2, m, y);
    lemma_sample_product_value(p, ta, tb, l, s.b as int, m, y);
    // the right-hand side is the value of the numerator
    assert(fn_value(p, na, nb, y) == (((fn_value(p, a1, b1, y) * fn_value(p, a2, b2, y)) % p)
        * fn_value(p, l, s.b as int, y)) % p);
    // the left-hand side is the value of the numerator too
    assert((qa * den) % p == na);
    assert((qb * den) % p == nb);
    lemma_mul_mod_noop_left(qa - y * qb, den, p);
    assert((qa - y * qb) * den == qa * den - y * (qb * den)) by (nonlinear_arith);
    lemma_sub_mod_noop(qa * den, y * (qb * den), p);
    lemma_mul_mod_noop_right(y, qb * den, p);
    lemma_sub_mod_noop(na, y * nb, p);
    lemma_mod_bound(ta * l + tb * (s.b as int) * m, p);
    lemma_small_mod(na as nat, p as nat);
    assert((fn_value(p, qa, qb, y) * den) % p == fn_value(p, na, nb, y));
}

/// The value of a merge at a sample depends only on the product of the values
/// of what it combines: two merges with the same roots whose inputs multiply to
/// the same value there (for a `y` on the curve) agree there, away from the
/// roots. So the order in which points are merged does not change the result.
pub proof fn lemma_merge_order_free(
    d1: &Divisor,
    d2: &Divisor,
    s: SmallDivisor,
    r: &Divisor,
    e1: &Divisor,
    e2: &Divisor,
    t: SmallDivisor,
    q: &Divisor,
    denom: (u64, u64),
    i: int,
    y: int,
)
    requires
        d1.wf(),
        e1.wf(),
        d1.compatible(e1),
        0 <= i < d1.spec_len(),
        (y * y) % d1.p() == d1.modulus.evals@[i] as int,
        root_pair_at(d1.p(), i, denom.0 as int, denom.1 as int) != 0,
        is_quotient(d1.p(), Divisor::merge_num(d1, d2, s, i).0,
            root_pair_at(d1.p(), i, denom.0 as int, denom.1 as int), r.a.evals@[i] as int),
        is_quotient(d1.p(), Divisor::merge_num(d1, d2, s, i).1,
            root_pair_at(d1.p(), i, denom.0 as int, denom.1 as int), r.b.evals@[i] as int),
        is_quotient(e1.p(), Divisor::merge_num(e1, e2, t, i).0,
            root_pair_at(e1.p(), i, denom.0 as int, denom.1 as int), q.a.evals@[i] as int),
        is_quotient(e1.p(), Divisor::merge_num(e1, e2, t, i).1,
            root_pair_at(e1.p(), i, denom.0 as int, denom.1 as int), q.b.evals@[i] as int),
        (((fn_value(d1.p(), d1.a.evals@[i] as int, d1.b.evals@[i] as int, y)
            * fn_value(d1.p(), d2.a.evals@[i] as int, d2.b.evals@[i] as int, y)) % d1.p())
            * fn_value(d1.p(), line_at(d1.p(), s.a.0 as int, s.a.1 as int, i), s.b as int, y)) % d1.p()
        == (((fn_value(d1.p(), e1.a.evals@[i] as int, e1.b.evals@[i] as int, y)
            * fn_value(d1.p(), e2.a.evals@[i] as int, e2.b.evals@[i] as int, y)) % d1.p())
            * fn_value(d1.p(), line_at(d1.p(), t.a.0 as int, t.a.1 as int, i), t.b as int, y)) % d1.p(),
    ensures
        fn_value(d1.p(), r.a.evals@[i] as int, r.b.evals@[i] as int, y)
            == fn_value(d1.p(), q.a.evals@[i] as int, q.b.evals@[i] as int, y),
{
    let p = d1.p();
    let den = root_pair_at(p, i, denom.0 as int, denom.1 as int);
    lemma_merge_evaluates(d1, d2, s, denom, r, i, y);
    lemma_merge_evaluates(e1, e2, t, denom, q, i, y);
    let vr = fn_value(p, r.a.evals@[i] as int, r.b.evals@[i] as int, y);
    let vq = fn_value(p, q.a.evals@[i] as int, q.b.evals@[i] as int, y);
    lemma_mod_bound(r.a.evals@[i] - y * r.b.evals@[i], p);
    lemma_mod_bound(q.a.evals@[i] - y * q.b.evals@[i], p);
    lemma_mod_bound((((i % p) - denom.0) * ((i % p) - denom.1)), p);
    lemma_small_mod(den as nat, p as nat);
    lemma_cancel(p, vq, den, vr);
}

/// One sample of a product, from the values of the factors' polynomials.
proof fn lemma_sample_of_polys(p: int, e1: int, f1: int, e2: int, f2: int, em: int)
    requires
        p > 0,
    ensures
        prod_a(p, e1 % p, f1 % p, e2 % p, f2 % p, em % p) == (e1 * e2 + em * (f1 * f2)) % p,
        prod_b(p, e1 % p, f1 % p, e2 % p, f2 % p) == (e1 * f2 + e2 * f1) % p,
{
    let g = (f1 % p) * (f2 % p);
    lemma_mul_mod_noop(e1, e2, p);
    lemma_mul_mod_noop(f1, f2, p);
    lemma_mul_mod_noop_left(g, em % p, p);
    lemma_mul_mod_noop(f1 * f2, em, p);
    lemma_add_mod_noop((e1 % p) * (e2 % p), g * (em % p), p);
    lemma_add_mod_noop(e1 * e2, (f1 * f2) * em, p);
    assert((f1 * f2) * em == em * (f1 * f2)) by (nonlinear_arith);
    lemma_mul_mod_noop(e1, f2, p);
    lemma_mul_mod_noop(e2, f1, p);
    lemma_add_mod_noop((e1 % p) * (f2 % p), (e2 % p) * (f1 % p), p);
    lemma_add_mod_noop(e1 * f2, e2 * f1, p);
}

/// The product's tables are evaluations of the product's polynomials,
/// `A1A2 + m B1B2` and `A1B2 + A2B1`, at every sample.
proof fn lemma_product_tables(
    p: int,
    d1: &Divisor,
    d2: &Divisor,
    r: &Divisor,
    a1: Seq<int>,
    b1: Seq<int>,
    a2: Seq<int>,
    b2: Seq<int>,
    m: Seq<int>,
)
    requires
        p == d1.p(),
        d1.wf(),
        d2.wf(),
        d1.compatible(d2),
        r.wf(),
        d1.is_product(d2, r),
        represents(p, d1.a.evals@, a1, d1.a.degree as int),
        represents(p, d1.b.evals@, b1, d1.b.degree as int),
        represents(p, d2.a.evals@, a2, d2.a.degree as int),
        represents(p, d2.b.evals@, b2, d2.b.degree as int),
        represents(p, d1.modulus.evals@, m, 3),
    ensures
        forall|i: int| 0 <= i < r.a.evals@.len() ==> #[trigger] r.a.evals@[i] as int == eval(
            padd(pmul(a1, a2), pmul(m, pmul(b1, b2))),
            i,
        ) % p,
        forall|i: int| 0 <= i < r.b.evals@.len() ==> #[trigger] r.b.evals@[i] as int == eval(
            padd(pmul(a1, b2), pmul(a2, b1)),
            i,
        ) % p,
{
    assert forall|i: int| #![trigger r.a.evals@[i]] #![trigger r.b.evals@[i]]
        0 <= i < r.a.evals@.len() implies r.a.evals@[i] as int == eval(
        padd(pmul(a1, a2), pmul(m, pmul(b1, b2))),
        i,
    ) % p && r.b.evals@[i] as int == eval(padd(pmul(a1, b2), pmul(a2, b1)), i) % p by {
        assert(d1.a.evals@[i] as int == eval(a1, i) % p);
        assert(d1.b.evals@[i] as int == eval(b1, i) % p);
        assert(d2.a.evals@[i] as int == eval(a2, i) % p);
        assert(d2.b.evals@[i] as int == eval(b2, i) % p);
        assert(d1.modulus.evals@[i] as int == eval(m, i) % p);
        lemma_sample_of_polys(p, eval(a1, i), eval(b1, i), eval(a2, i), eval(b2, i), eval(m, i));
        lemma_pmul(a1, a2, i);
        lemma_pmul(b1, b2, i);
        lemma_pmul(m, pmul(b1, b2), i);
        lemma_padd(pmul(a1, a2), pmul(m, pmul(b1, b2)), i);
        lemma_pmul(a1, b2, i);
        lemma_pmul(a2, b1, i);
        lemma_padd(pmul(a1, b2), pmul(a2, b1), i);
    }
}

/// Degree bounds are never underestimates under multiplication: where the
/// tables of `d1`, `d2` and the modulus are evaluations of polynomials within
/// their bounds, those of the product are evaluations of polynomials within
/// the product's bounds.
pub proof fn lemma_mul_degree_sound(
    d1: &Divisor,
    d2: &Divisor,
    r: &Divisor,
    a1: Seq<int>,
    b1: Seq<int>,
    a2: Seq<int>,
    b2: Seq<int>,
    m: Seq<int>,
)
    requires
        d1.wf(),
        d2.wf(),
        d1.compatible(d2),
        r.wf(),
        d1.is_product(d2, r),
        r.a.degree as int == d1.spec_new_degree(d2).0,
        r.b.degree as int == d1.spec_new_degree(d2).1,
        represents(d1.p(), d1.a.evals@, a1, d1.a.degree as int),
        represents(d1.p(), d1.b.evals@, b1, d1.b.degree as int),
        represents(d1.p(), d2.a.evals@, a2, d2.a.degree as int),
        represents(d1.p(), d2.b.evals@, b2, d2.b.degree as int),
        represents(d1.p(), d1.modulus.evals@, m, 3),
    ensures
        represents(d1.p(), r.a.evals@, padd(pmul(a1, a2), pmul(m, pmul(b1, b2))), r.a.degree as int),
        represents(d1.p(), r.b.evals@, padd(pmul(a1, b2), pmul(a2, b1)), r.b.degree as int),
{
    let p = d1.p();
    lemma_product_tables(p, d1, d2, r, a1, b1, a2, b2, m);
    let (da1, db1) = (d1.a.degree as nat, d1.b.degree as nat);
    let (da2, db2) = (d2.a.degree as nat, d2.b.degree as nat);
    lemma_pmul_len(a1, a2, da1, da2);
    lemma_pmul_len(b1, b2, db1, db2);
    lemma_pmul_len(m, pmul(b1, b2), 3, db1 + db2);
    lemma_padd(pmul(a1, a2), pmul(m, pmul(b1, b2)), 0);
    lemma_pmul_len(a1, b2, da1, db2);
    lemma_pmul_len(a2, b1, da2, db1);
    lemma_padd(pmul(a1, b2), pmul(a2, b1), 0);
}

/// The polynomial of a linear divisor's `A`: `intercept + slope x`.
pub open spec fn line_poly(s: SmallDivisor) -> Seq<int> {
    seq![s.a.1 as int, s.a.0 as int]
}

/// The constant polynomial of a linear divisor's `B`.
pub open spec fn const_poly(s: SmallDivisor) -> Seq<int> {
    seq![s.b as int]
}

/// Degree bounds are never underestimates under multiplication by a linear
/// divisor, for a divisor whose `A` bound is at most two above its `B` bound
/// (as for the divisor of a set of points): the tables of the product are
/// evaluations of polynomials within the product's bounds.
pub proof fn lemma_mul_small_degree_sound(
    d: &Divisor,
    s: SmallDivisor,
    r: &Divisor,
    a1: Seq<int>,
    b1: Seq<int>,
    m: Seq<int>,
)
    requires
        d.wf(),
        s.wf(d.field),
        r.wf(),
        d.is_small_product(s, r),
        r.a.degree as int == d.spec_small_degree().0,
        r.b.degree as int == d.spec_small_degree().1,
        d.a.degree <= d.b.degree + 2,
        represents(d.p(), d.a.evals@, a1, d.a.degree as int),
        represents(d.p(), d.b.evals@, b1, d.b.degree as int),
        represents(d.p(), d.modulus.evals@, m, 3),
    ensures
        represents(
            d.p(),
            r.a.evals@,
            padd(pmul(a1, line_poly(s)), pmul(m, pmul(b1, const_poly(s)))),
            r.a.degree as int,
        ),
        represents(d.p(), r.b.evals@, padd(pmul(a1, const_poly(s)), pmul(line_poly(s), b1)), r.b.degree as int),
{
    let p = d.p();
    let (l, c) = (line_poly(s), const_poly(s));
    assert forall|i: int| #![trigger r.a.evals@[i]] #![trigger r.b.evals@[i]]
        0 <= i < r.a.evals@.len() implies r.a.evals@[i] as int == eval(
        padd(pmul(a1, l), pmul(m, pmul(b1, c))),
        i,
    ) % p && r.b.evals@[i] as int == eval(padd(pmul(a1, c), pmul(l, b1)), i) % p by {
        assert(d.a.evals@[i] as int == eval(a1, i) % p);
        assert(d.b.evals@[i] as int == eval(b1, i) % p);
        assert(d.modulus.evals@[i] as int == eval(m, i) % p);
        assert(l =~= seq![s.a.1 as int] + seq![s.a.0 as int]);
        assert(seq![s.a.0 as int] =~= seq![s.a.0 as int] + Seq::<int>::empty());
        lemma_eval_cons(s.a.0 as int, Seq::<int>::empty(), i);
        lemma_eval_cons(s.a.1 as int, seq![s.a.0 as int], i);
        assert(c =~= seq![s.b as int] + Seq::<int>::empty());
        lemma_eval_cons(s.b as int, Seq::<int>::empty(), i);
        lemma_small_mod(s.b as nat, p as nat);
        assert(eval(l, i) == s.a.1 + i * s.a.0);
        assert(s.a.1 + i * s.a.0 == s.a.1 + s.a.0 * i) by (nonlinear_arith);
        lemma_sample_of_polys(p, eval(a1, i), eval(b1, i), eval(l, i), eval(c, i), eval(m, i));
        lemma_pmul(a1, l, i);
        lemma_pmul(b1, c, i);
        lemma_pmul(m, pmul(b1, c), i);
        lemma_padd(pmul(a1, l), pmul(m, pmul(b1, c)), i);
        lemma_pmul(a1, c, i);
        lemma_pmul(l, b1, i);
        lemma_padd(pmul(a1, c), pmul(l, b1), i);
        assert(eval(a1, i) * eval(c, i) + eval(l, i) * eval(b1, i) == eval(a1, i) * eval(c, i) + eval(
            b1,
            i,
        ) * eval(l, i)) by (nonlinear_arith);
    }
    let (da, db) = (d.a.degree as nat, d.b.degree as nat);
    lemma_pmul_len(a1, l, da, 1);
    lemma_pmul_len(b1, c, db, 0);
    lemma_pmul_len(m, pmul(b1, c), 3, db);
    lemma_padd(pmul(a1, l), pmul(m, pmul(b1, c)), 0);
    lemma_pmul_len(a1, c, da, 0);
    lemma_pmul_len(l, b1, 1, db);
    lemma_padd(pmul(a1, c), pmul(l, b1), 0);
}

} // verus!
