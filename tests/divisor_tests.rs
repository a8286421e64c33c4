use ec_divisors::divisor::{Divisor, SmallDivisor};
use ec_divisors::evals::Evals;
use ec_divisors::field::Fp;
use std::rc::Rc;

const P: u64 = 97;

fn field() -> Fp {
    Fp::new(P)
}

/// x^3 + 2x + 3 at the samples 0..n.
fn modulus(n: usize) -> Rc<Evals> {
    let v: Vec<u64> = (0..n as u64).map(|x| (x * x * x + 2 * x + 3) % P).collect();
    Rc::new(Evals::new(v, 3))
}

fn table(n: usize, f: impl Fn(u64) -> u64, degree: usize) -> Evals {
    Evals::new((0..n as u64).map(|x| f(x) % P).collect(), degree)
}

fn unit(n: usize, m: &Rc<Evals>) -> Divisor {
    Divisor::new(table(n, |_| 1, 0), table(n, |_| 0, 0), m.clone(), field())
}

/// The vertical line `x - x0`.
fn vertical(x0: u64) -> SmallDivisor {
    SmallDivisor::new((1, (P - x0) % P), 0)
}

fn value(a: u64, b: u64, y: u64) -> u64 {
    (a + P * P - (y * b) % P) % P
}

#[test]
fn new_degree_formula() {
    let m = modulus(16);
    let d1 = Divisor::new(table(16, |x| x, 4), table(16, |x| x, 1), m.clone(), field());
    let d2 = Divisor::new(table(16, |x| x, 2), table(16, |x| x, 5), m.clone(), field());
    // max(4 + 2, 3 + 1 + 5), max(4 + 5, 2 + 1)
    assert_eq!(d1.new_degree(&d2), (9, 9));
    // max(2 + 4, 3 + 5 + 1), max(2 + 1, 4 + 5)
    assert_eq!(d2.new_degree(&d1), (9, 9));
    let d3 = Divisor::new(table(16, |x| x, 7), table(16, |x| x, 0), m.clone(), field());
    // max(7 + 7, 3), max(7, 7)
    assert_eq!(d3.new_degree(&d3), (14, 7));
}

#[test]
fn mul_pointwise_formula() {
    let n = 8;
    let m = modulus(n);
    let d1 = Divisor::new(table(n, |x| 3 * x + 5, 1), table(n, |x| x + 2, 0), m.clone(), field());
    let d2 = Divisor::new(table(n, |x| 7 * x + 1, 1), table(n, |x| 11, 0), m.clone(), field());
    let r = d1.mul(&d2);
    assert_eq!(r.a().degree(), 3);
    assert_eq!(r.b().degree(), 1);
    for i in 0..n {
        let x = i as u64;
        let (a1, b1, a2, b2, mi) = ((3 * x + 5) % P, (x + 2) % P, (7 * x + 1) % P, 11, m.evals()[i]);
        assert_eq!(r.a().evals()[i], (a1 * a2 + (b1 * b2 % P) * mi) % P);
        assert_eq!(r.b().evals()[i], (a1 * b2 + a2 * b1) % P);
    }
}

#[test]
fn mul_evaluates_on_curve_points() {
    // (1, 43) and (4, 47) lie on y^2 = x^3 + 2x + 3 over F_97
    let n = 8;
    let m = modulus(n);
    let d1 = Divisor::new(table(n, |x| 3 * x + 5, 1), table(n, |x| x + 2, 0), m.clone(), field());
    let d2 = Divisor::new(table(n, |x| 7 * x + 1, 1), table(n, |x| 11, 0), m.clone(), field());
    let before: Vec<(u64, u64, u64, u64)> =
        (0..n).map(|i| { let (a1, b1) = d1.ab(i); let (a2, b2) = d2.ab(i); (a1, b1, a2, b2) }).collect();
    let r = d1.mul(&d2);
    for (i, y) in [(1usize, 43u64), (1, 54), (4, 47), (4, 50)] {
        assert_eq!(y * y % P, m.evals()[i]);
        let (a1, b1, a2, b2) = before[i];
        let (a, b) = r.ab(i);
        assert_eq!(value(a, b, y), value(a1, b1, y) * value(a2, b2, y) % P);
    }
}

#[test]
fn mul_small_follows_the_line() {
    let n = 8;
    let m = modulus(n);
    let d = Divisor::new(table(n, |x| 2 * x + 9, 1), table(n, |x| 4, 0), m.clone(), field());
    let s = SmallDivisor::new((5, 3), 6);
    let r = d.mul_small(s);
    // max(1, 0 + 3), max(1, 0 + 1)
    assert_eq!(r.a().degree(), 3);
    assert_eq!(r.b().degree(), 1);
    for i in 0..n {
        let x = i as u64;
        let (a1, b1, a2, b2, mi) = ((2 * x + 9) % P, 4, (5 * x + 3) % P, 6, m.evals()[i]);
        assert_eq!(r.a().evals()[i], (a1 * a2 + (b1 * b2 % P) * mi) % P);
        assert_eq!(r.b().evals()[i], (a1 * b2 + a2 * b1) % P);
    }
}

#[test]
fn mul_small_degree_uses_b_degree() {
    let n = 12;
    let m = modulus(n);
    let d = Divisor::new(table(n, |x| x, 2), table(n, |x| x, 5), m.clone(), field());
    let r = d.mul_small(SmallDivisor::new((1, 1), 1));
    // max(2, 5 + 3), max(2, 5 + 1)
    assert_eq!(r.a().degree(), 8);
    assert_eq!(r.b().degree(), 6);
}

#[test]
fn div_undoes_mul_by_denominator() {
    let n = 10;
    let m = modulus(n);
    let den: Vec<u64> = (0..n as u64).map(|x| ((x + P - 1) * (x + P - 4)) % P).collect();
    // d vanishes at the samples 1 and 4
    let da: Vec<u64> = (0..n as u64).map(|x| ((x + P - 1) * (x + P - 4) * (x + 3)) % P).collect();
    let db: Vec<u64> = (0..n as u64).map(|x| ((x + P - 1) * (x + P - 4) * 5) % P).collect();
    let sa: Vec<u64> = (0..n).map(|i| da[i] * den[i] % P).collect();
    let sb: Vec<u64> = (0..n).map(|i| db[i] * den[i] % P).collect();
    let scaled = Divisor::new(Evals::new(sa, 5), Evals::new(sb, 4), m.clone(), field());
    let r = scaled.div(Evals::new(den, 2));
    assert_eq!(r.a().evals(), &da);
    assert_eq!(r.b().evals(), &db);
    assert_eq!(r.a().degree(), 3);
    assert_eq!(r.b().degree(), 2);
}

#[test]
fn div_zero_denominator_gives_zero() {
    let n = 4;
    let m = modulus(n);
    let d = Divisor::new(table(n, |x| x + 1, 3), table(n, |x| x + 2, 3), m.clone(), field());
    let r = d.div(Evals::new(vec![0, 2, 0, 96], 1));
    assert_eq!(r.a().evals(), &vec![0, 1, 0, 93]);
    assert_eq!(r.b().evals(), &vec![0, 50, 0, 92]);
    assert_eq!(r.a().degree(), 2);
}

#[test]
fn two_points_divided_by_their_roots() {
    // lines through (1, 43) and (4, 47): their product divided by (x - 1)(x - 4) is 1
    let n = 10;
    let m = modulus(n);
    let r = unit(n, &m).mul_small(vertical(1)).mul_small(vertical(4)).remove_diff(1, 4);
    for i in 0..n {
        let (a, b) = r.ab(i);
        assert_eq!(b, 0);
        assert_eq!(a, if i == 1 || i == 4 { 0 } else { 1 });
    }
    assert_eq!(r.a().degree(), 2);
    assert_eq!(r.b().degree(), 1);
}

#[test]
fn three_lines_divided_by_two_roots() {
    // (x - 1)(x - 4)(x - 2) / ((x - 1)(x - 4)) = x - 2
    let n = 8;
    let m = modulus(n);
    let r = unit(n, &m).mul_small(vertical(1)).mul_small(vertical(4)).mul_small(vertical(2)).remove_diff(1, 4);
    for i in 0..n {
        let (a, b) = r.ab(i);
        assert_eq!(b, 0);
        let want = if i == 1 || i == 4 { 0 } else { (i as u64 + P - 2) % P };
        assert_eq!(a, want);
    }
    assert_eq!(r.a().degree(), 4);
    assert_eq!(r.b().degree(), 2);
}

#[test]
fn remove_diff_with_y_dependence() {
    // f = (y - 43)(x - 1)(x - 4), so f / ((x - 1)(x - 4)) = 43 - y, that is A = 43, B = 1
    let n = 10;
    let m = modulus(n);
    let d = Divisor::new(table(n, |_| 43, 0), table(n, |_| 1, 0), m.clone(), field());
    let r = d.mul_small(vertical(1)).mul_small(vertical(4)).remove_diff(1, 4);
    for i in 0..n {
        let (a, b) = r.ab(i);
        if i == 1 || i == 4 {
            assert_eq!((a, b), (0, 0));
        } else {
            assert_eq!((a, b), (43, 1));
        }
    }
}

#[test]
fn merge_combines_and_clears_roots() {
    let n = 8;
    let m = modulus(n);
    let d1 = Divisor::new(table(n, |x| x + P - 1, 1), table(n, |_| 0, 0), m.clone(), field());
    let d2 = Divisor::new(table(n, |x| x + P - 4, 1), table(n, |_| 0, 0), m.clone(), field());
    let r = Divisor::merge(d1, d2, vertical(2), (1, 4));
    for i in 0..n {
        let (a, b) = r.ab(i);
        assert_eq!(b, 0);
        let want = if i == 1 || i == 4 { 0 } else { (i as u64 + P - 2) % P };
        assert_eq!(a, want);
    }
    // (max(2, 3), max(1, 1)), then (max(3, 4), max(3, 2)), then minus 2
    assert_eq!(r.a().degree(), 2);
    assert_eq!(r.b().degree(), 1);
}

#[test]
fn merge_orders_agree_away_from_roots() {
    // the lines through 1 and 4 merged with 2, against those through 1 and 2 merged with 4:
    // with the roots 1 and 2 cleared, both give x - 4 away from them
    let n = 8;
    let m = modulus(n);
    let line = |x0: u64| table(n, move |x| x + P - x0, 1);
    let zero = || table(n, |_| 0, 0);
    let first = Divisor::merge(
        Divisor::new(line(1), zero(), m.clone(), field()),
        Divisor::new(line(4), zero(), m.clone(), field()),
        vertical(2),
        (1, 2),
    );
    let second = Divisor::merge(
        Divisor::new(line(1), zero(), m.clone(), field()),
        Divisor::new(line(2), zero(), m.clone(), field()),
        vertical(4),
        (1, 2),
    );
    for i in 0..n {
        if i != 1 && i != 2 {
            assert_eq!(first.ab(i), second.ab(i));
            assert_eq!(first.ab(i), ((i as u64 + P - 4) % P, 0));
        }
    }
}

#[test]
fn minimum_domain_size() {
    // product degree bounds (3, 1) with exactly 4 samples
    let n = 4;
    let m = modulus(n);
    let d1 = Divisor::new(table(n, |x| x + 1, 1), table(n, |_| 2, 0), m.clone(), field());
    let d2 = Divisor::new(table(n, |x| 2 * x, 1), table(n, |_| 3, 0), m.clone(), field());
    let r = d1.mul(&d2);
    assert_eq!(r.a().degree(), n - 1);
    for i in 0..n {
        let x = i as u64;
        let (a1, b1, a2, b2, mi) = (x + 1, 2, 2 * x, 3, m.evals()[i]);
        assert_eq!(r.a().evals()[i], (a1 * a2 + b1 * b2 * mi) % P);
        assert_eq!(r.b().evals()[i], (a1 * b2 + a2 * b1) % P);
    }
    // dividing by a constant keeps the bound at the largest the 4 samples allow
    let q = r.div(Evals::new(vec![1, 1, 1, 1], 0));
    assert_eq!(q.a().degree(), 3);
    assert_eq!(q.a().evals().len(), 4);
}

#[test]
fn evals_accessors() {
    let e = Evals::new(vec![1, 2, 3], 2);
    assert_eq!(e.len(), 3);
    assert_eq!(e.degree(), 2);
    assert_eq!(e.evals(), &vec![1, 2, 3]);
}

fn poly_at(c: &[u64], x: u64) -> u64 {
    c.iter().rev().fold(0, |acc, k| (acc * x + k) % P)
}

fn poly_mul(u: &[u64], v: &[u64]) -> Vec<u64> {
    let mut r = vec![0; u.len() + v.len() - 1];
    for (i, a) in u.iter().enumerate() {
        for (j, b) in v.iter().enumerate() {
            r[i + j] = (r[i + j] + a * b) % P;
        }
    }
    r
}

fn poly_add(u: &[u64], v: &[u64]) -> Vec<u64> {
    (0..u.len().max(v.len())).map(|i| (u.get(i).unwrap_or(&0) + v.get(i).unwrap_or(&0)) % P).collect()
}

#[test]
fn degree_bounds_cover_products() {
    let n = 12;
    let m = modulus(n);
    let cm = vec![3, 2, 0, 1];
    let (a1, b1, a2, b2) = (vec![5, 1, 7], vec![2, 9], vec![1, 3, 3, 8], vec![6, 4]);
    let sampled = |c: &Vec<u64>, d: usize| Evals::new((0..n as u64).map(|x| poly_at(c, x)).collect(), d);
    let d1 = Divisor::new(sampled(&a1, 2), sampled(&b1, 1), m.clone(), field());
    let d2 = Divisor::new(sampled(&a2, 3), sampled(&b2, 1), m.clone(), field());
    let r = d1.mul(&d2);
    let ra = poly_add(&poly_mul(&a1, &a2), &poly_mul(&cm, &poly_mul(&b1, &b2)));
    let rb = poly_add(&poly_mul(&a1, &b2), &poly_mul(&a2, &b1));
    assert!(ra.len() <= r.a().degree() + 1);
    assert!(rb.len() <= r.b().degree() + 1);
    for i in 0..n {
        assert_eq!(r.a().evals()[i], poly_at(&ra, i as u64));
        assert_eq!(r.b().evals()[i], poly_at(&rb, i as u64));
    }
    // a linear divisor next: A is at most two degrees above B (5 and 5 here)
    let s = SmallDivisor::new((4, 9), 2);
    let r2 = r.mul_small(s);
    let (line, konst) = (vec![9, 4], vec![2]);
    let sa = poly_add(&poly_mul(&ra, &line), &poly_mul(&cm, &poly_mul(&rb, &konst)));
    let sb = poly_add(&poly_mul(&ra, &konst), &poly_mul(&line, &rb));
    assert!(sa.len() <= r2.a().degree() + 1);
    assert!(sb.len() <= r2.b().degree() + 1);
    for i in 0..n {
        assert_eq!(r2.a().evals()[i], poly_at(&sa, i as u64));
        assert_eq!(r2.b().evals()[i], poly_at(&sb, i as u64));
    }
}
