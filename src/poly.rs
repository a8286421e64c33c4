use vstd::prelude::*;

verus! {

/// The value at `x` of the polynomial with coefficients `c`, constant term first.
pub open spec fn eval(c: Seq<int>, x: int) -> int
    decreases c.len(),
{
    if c.len() == 0 {
        0
    } else {
        c[0] + x * eval(c.drop_first(), x)
    }
}

/// The sum of two polynomials.
pub open spec fn padd(u: Seq<int>, v: Seq<int>) -> Seq<int>
    decreases u.len(),
{
    if u.len() == 0 {
        v
    } else if v.len() == 0 {
        u
    } else {
        seq![u[0] + v[0]] + padd(u.drop_first(), v.drop_first())
    }
}

/// The polynomial `u` times the constant `k`.
pub open spec fn pscale(k: int, u: Seq<int>) -> Seq<int> {
    u.map_values(|a: int| k * a)
}

/// The product of two polynomials.
pub open spec fn pmul(u: Seq<int>, v: Seq<int>) -> Seq<int>
    decreases u.len(),
{
    if u.len() == 0 {
        seq![]
    } else {
        padd(pscale(u[0], v), seq![0] + pmul(u.drop_first(), v))
    }
}

pub proof fn lemma_eval_cons(h: int, t: Seq<int>, x: int)
    ensures
        eval(seq![h] + t, x) == h + x * eval(t, x),
{
    assert((seq![h] + t).drop_first() =~= t);
}

pub proof fn lemma_padd(u: Seq<int>, v: Seq<int>, x: int)
    ensures
        eval(padd(u, v), x) == eval(u, x) + eval(v, x),
        padd(u, v).len() == if u.len() >= v.len() { u.len() } else { v.len() },
    decreases u.len(),
{
    if u.len() != 0 && v.len() != 0 {
        lemma_padd(u.drop_first(), v.drop_first(), x);
        lemma_eval_cons(u[0] + v[0], padd(u.drop_first(), v.drop_first()), x);
        assert(x * eval(padd(u.drop_first(), v.drop_first()), x) == x * eval(u.drop_first(), x) + x
            * eval(v.drop_first(), x)) by (nonlinear_arith)
            requires
                eval(padd(u.drop_first(), v.drop_first()), x) == eval(u.drop_first(), x) + eval(
                    v.drop_first(),
                    x,
                ),
        ;
    }
}

pub proof fn lemma_pscale(k: int, u: Seq<int>, x: int)
    ensures
        eval(pscale(k, u), x) == k * eval(u, x),
        pscale(k, u).len() == u.len(),
    decreases u.len(),
{
    if u.len() != 0 {
        lemma_pscale(k, u.drop_first(), x);
        assert(pscale(k, u).drop_first() =~= pscale(k, u.drop_first()));
        let e = eval(u.drop_first(), x);
        assert(k * u[0] + x * (k * e) == k * (u[0] + x * e)) by (nonlinear_arith);
    }
}

pub proof fn lemma_pmul(u: Seq<int>, v: Seq<int>, x: int)
    ensures
        eval(pmul(u, v), x) == eval(u, x) * eval(v, x),
    decreases u.len(),
{
    if u.len() != 0 {
        let t = pmul(u.drop_first(), v);
        lemma_pmul(u.drop_first(), v, x);
        lemma_pscale(u[0], v, x);
        lemma_eval_cons(0, t, x);
        lemma_padd(pscale(u[0], v), seq![0] + t, x);
        let (ev, et) = (eval(v, x), eval(u.drop_first(), x));
        assert(u[0] * ev + x * (et * ev) == (u[0] + x * et) * ev) by (nonlinear_arith);
    }
}

/// A product's degree is at most the sum of the factors' degrees.
pub proof fn lemma_pmul_len(u: Seq<int>, v: Seq<int>, du: nat, dv: nat)
    requires
        u.len() <= du + 1,
        v.len() <= dv + 1,
    ensures
        pmul(u, v).len() <= du + dv + 1,
    decreases u.len(),
{
    if u.len() != 0 {
        let x = 0;
        lemma_pscale(u[0], v, x);
        lemma_padd(pscale(u[0], v), seq![0] + pmul(u.drop_first(), v), x);
        if du >= 1 {
            lemma_pmul_len(u.drop_first(), v, (du - 1) as nat, dv);
        } else {
            assert(pmul(u.drop_first(), v) == Seq::<int>::empty());
        }
    }
}

/// The table `t` holds, at every sample `i`, the value modulo `p` of the
/// polynomial `c`, whose degree is at most `d`.
pub open spec fn represents(p: int, t: Seq<u64>, c: Seq<int>, d: int) -> bool {
    &&& c.len() <= d + 1
    &&& forall|i: int| 0 <= i < t.len() ==> #[trigger] t[i] as int == eval(c, i) % p
}

} // verus!
