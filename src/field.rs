use vstd::prelude::*;
use vstd::arithmetic::div_mod::*;
use vstd::arithmetic::mul::*;

verus! {

/// `p` is prime: greater than one, with no divisor strictly between one and itself.
pub open spec fn is_prime(p: int) -> bool {
    p > 1 && forall|d: int| 1 < d < p ==> #[trigger] (p % d) != 0
}

/// The prime field of integers modulo `p`.
///
/// Elements are `u64` values in `0..p`; `p` stays below 2^32 so that
/// a product of two elements fits in a `u64`.
#[derive(Clone, Copy, Debug, PartialEq, Eq)]
pub struct Fp {
    pub p: u64,
}

impl Fp {
    pub open spec fn wf(self) -> bool {
        is_prime(self.p as int) && self.p < 0x1_0000_0000
    }

    /// `x` is a canonical element of the field.
    pub open spec fn elem(self, x: u64) -> bool {
        x < self.p
    }

    pub fn new(p: u64) -> (r: Fp)
        requires
            is_prime(p as int),
            p < 0x1_0000_0000,
        ensures
            r.p == p,
            r.wf(),
    {
        Fp { p }
    }

    pub fn add(self, x: u64, y: u64) -> (r: u64)
        requires
            self.wf(),
            self.elem(x),
            self.elem(y),
        ensures
            r as int == (x + y) % (self.p as int),
    {
        let s: u64 = x + y;
        if s >= self.p {
            proof {
                lemma_fundamental_div_mod_converse_mod(s as int, self.p as int, 1, s - self.p);
            }
            s - self.p
        } else {
            proof {
                lemma_small_mod(s as nat, self.p as nat);
            }
            s
        }
    }

    pub fn sub(self, x: u64, y: u64) -> (r: u64)
        requires
            self.wf(),
            self.elem(x),
            self.elem(y),
        ensures
            r as int == (x - y) % (self.p as int),
    {
        if x >= y {
            proof {
                lemma_small_mod((x - y) as nat, self.p as nat);
            }
            x - y
        } else {
            let r: u64 = self.p - y + x;
            proof {
                lemma_fundamental_div_mod_converse_mod(x - y, self.p as int, -1, r as int);
            }
            r
        }
    }

    pub fn mul(self, x: u64, y: u64) -> (r: u64)
        requires
            self.wf(),
            self.elem(x),
            self.elem(y),
        ensures
            r as int == (x * y) % (self.p as int),
    {
        proof {
            lemma_mul_upper_bound(x as int, 0xffff_ffff, y as int, 0xffff_ffff);
        }
        (x * y) % self.p
    }

    /// The field element that the integer `i` maps to.
    pub fn from_index(self, i: usize) -> (r: u64)
        requires
            self.wf(),
        ensures
            r as int == (i as int) % (self.p as int),
    {
        (i as u64) % self.p
    }
}


/// Every element that is not zero modulo a prime `p` has an inverse modulo `p`.
pub proof fn lemma_inverse_exists(p: int, a: int) -> (r: int)
    requires
        is_prime(p),
        0 < a < p,
    ensures
        (a * r) % p == 1,
    decreases a,
{
    if a == 1 {
        lemma_small_mod(1, p as nat);
        1
    } else {
        let q = p / a;
        let c = p % a;
        assert(p % a != 0);
        lemma_fundamental_div_mod(p, a);
        lemma_mod_pos_bound(p, a);
        let t = lemma_inverse_exists(p, c);
        assert(a * (-q * t) == c * t + p * (-t)) by (nonlinear_arith)
            requires
                p == a * q + c,
        ;
        lemma_mod_multiples_vanish(-t, c * t, p);
        -q * t
    }
}

/// A product of two elements that are not zero modulo a prime is not zero modulo it.
pub proof fn lemma_mul_nonzero(p: int, a: int, b: int)
    requires
        is_prime(p),
        a % p != 0,
        b % p != 0,
    ensures
        (a * b) % p != 0,
{
    lemma_mod_bound(a, p);
    let ai = lemma_inverse_exists(p, a % p);
    if (a * b) % p == 0 {
        lemma_mul_mod_noop_right(b, (a % p) * ai, p);
        assert(b * ((a % p) * ai) == (b * (a % p)) * ai) by (nonlinear_arith);
        lemma_mul_mod_noop_left(b * (a % p), ai, p);
        lemma_mul_mod_noop_right(b, a, p);
        assert(b * a == a * b) by (nonlinear_arith);
        assert(0 * ai == 0);
        lemma_small_mod(0, p as nat);
        assert(b * 1 == b);
    }
}

/// Regrouping a product of three factors taken modulo `m`.
proof fn lemma_regroup(m: int, pre: int, x: int, inv: int)
    requires
        m > 0,
    ensures
        (x * ((pre * inv) % m)) % m == (((pre * x) % m) * inv) % m,
        (pre * ((inv * x) % m)) % m == (((pre * x) % m) * inv) % m,
{
    lemma_mul_mod_noop_right(x, pre * inv, m);
    lemma_mul_mod_noop_right(pre, inv * x, m);
    lemma_mul_mod_noop_left(pre * x, inv, m);
    assert(x * (pre * inv) == (pre * x) * inv) by (nonlinear_arith);
    assert(pre * (inv * x) == (pre * x) * inv) by (nonlinear_arith);
}

/// `x` itself where it is not zero, else one: zeros are skipped by batched inversion.
pub open spec fn skip_zero(x: int) -> int {
    if x == 0 {
        1
    } else {
        x
    }
}

/// The product modulo `p` of the non-zero values among the first `i` of `s`.
pub open spec fn prefix_prod(p: int, s: Seq<u64>, i: int) -> int
    decreases i,
{
    if i <= 0 {
        1
    } else {
        (prefix_prod(p, s, i - 1) * skip_zero(s[i - 1] as int)) % p
    }
}

impl Fp {
    /// `r` is what inversion gives for `x`: its inverse, or zero for zero.
    pub open spec fn inverse_of(self, x: u64, r: u64) -> bool {
        &&& r < self.p
        &&& x == 0 ==> r == 0
        &&& x != 0 ==> (x * r) % (self.p as int) == 1
    }

    /// The multiplicative inverse of `x`; zero has none and maps to zero.
    pub fn inv(self, x: u64) -> (r: u64)
        requires
            self.wf(),
            self.elem(x),
        ensures
            self.inverse_of(x, r),
    {
        if x == 0 {
            return 0;
        }
        let p = self.p;
        let mut c: u64 = x;
        let mut acc: u64 = 1;
        proof {
            lemma_small_mod(x as nat, p as nat);
        }
        while c != 1
            invariant
                self.wf(),
                p == self.p,
                0 < x < p,
                0 < c < p,
                acc < p,
                (x * acc) % (p as int) == c,
            decreases c,
        {
            let q: u64 = p / c;
            let rem: u64 = p % c;
            proof {
                assert((p as int) % (c as int) != 0);
                lemma_fundamental_div_mod(p as int, c as int);
                lemma_mod_pos_bound(p as int, c as int);
                assert(q >= 1) by (nonlinear_arith)
                    requires
                        p == c * q + rem,
                        rem < c,
                        c < p,
                ;
            }
            let neg_q: u64 = p - q;
            let acc2 = self.mul(acc, neg_q);
            proof {
                let pi = p as int;
                lemma_mul_mod_noop_right(x as int, acc * neg_q, pi);
                assert(x * (acc * neg_q) == (x * acc) * neg_q) by (nonlinear_arith);
                lemma_mul_mod_noop_left(x * acc, neg_q as int, pi);
                assert(c * neg_q == rem + pi * (c - 1)) by (nonlinear_arith)
                    requires
                        pi == c * q + rem,
                        neg_q == pi - q,
                ;
                lemma_mod_multiples_vanish(c - 1, rem as int, pi);
                lemma_small_mod(rem as nat, p as nat);
            }
            acc = acc2;
            c = rem;
        }
        acc
    }

    /// Inverts every element of `v` in place with a single field inversion
    /// (Montgomery's trick); zeros stay zero.
    pub fn batch_invert(self, v: &mut Vec<u64>)
        requires
            self.wf(),
            forall|i: int| 0 <= i < old(v)@.len() ==> self.elem(#[trigger] old(v)@[i]),
        ensures
            final(v)@.len() == old(v)@.len(),
            forall|i: int| 0 <= i < old(v)@.len() ==> self.inverse_of(old(v)@[i], #[trigger] final(v)@[i]),
    {
        let ghost orig = v@;
        let ghost pi = self.p as int;
        let n = v.len();
        let mut scratch: Vec<u64> = Vec::with_capacity(n);
        let mut acc: u64 = 1;
        let mut i: usize = 0;
        proof {
            lemma_small_mod(1, self.p as nat);
        }
        while i < n
            invariant
                self.wf(),
                pi == self.p,
                v@ == orig,
                n == orig.len(),
                i <= n,
                forall|j: int| 0 <= j < n ==> self.elem(#[trigger] orig[j]),
                scratch@.len() == i,
                forall|j: int| 0 <= j < i ==> #[trigger] scratch@[j] == prefix_prod(pi, orig, j),
                acc == prefix_prod(pi, orig, i as int),
                0 < acc < self.p,
            decreases n - i,
        {
            scratch.push(acc);
            let x = v[i];
            if x != 0 {
                proof {
                    lemma_small_mod(acc as nat, self.p as nat);
                    lemma_small_mod(x as nat, self.p as nat);
                    lemma_mul_nonzero(pi, acc as int, x as int);
                }
                acc = self.mul(acc, x);
            } else {
                proof {
                    lemma_small_mod(acc as nat, self.p as nat);
                }
            }
            i += 1;
        }
        let mut inv_all = self.inv(acc);
        let mut k: usize = n;
        while k > 0
            invariant
                self.wf(),
                pi == self.p,
                n == orig.len(),
                v@.len() == n,
                k <= n,
                forall|j: int| 0 <= j < n ==> self.elem(#[trigger] orig[j]),
                scratch@.len() == n,
                forall|j: int| 0 <= j < n ==> #[trigger] scratch@[j] == prefix_prod(pi, orig, j),
                forall|j: int| 0 <= j < k ==> #[trigger] v@[j] == orig[j],
                forall|j: int| k <= j < n ==> self.inverse_of(orig[j], #[trigger] v@[j]),
                inv_all < self.p,
                (prefix_prod(pi, orig, k as int) * inv_all) % pi == 1,
            decreases k,
        {
            k -= 1;
            let x = v[k];
            if x != 0 {
                let pre = scratch[k];
                let t = self.mul(pre, inv_all);
                let ghost old_inv = inv_all;
                inv_all = self.mul(inv_all, x);
                proof {
                    lemma_regroup(pi, pre as int, x as int, old_inv as int);
                }
                v[k] = t;
            } else {
                proof {
                    assert(prefix_prod(pi, orig, k + 1) == (prefix_prod(pi, orig, k as int) * 1) % pi);
                    lemma_small_mod(scratch@[k as int] as nat, self.p as nat);
                }
            }
        }
    }
}

} // verus!
