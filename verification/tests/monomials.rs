use mvpoly::field::Fe;
use mvpoly::sparse::Sparse;

struct Rng {
    s: u64,
}

impl Rng {
    fn new(seed: u64) -> Rng {
        Rng { s: seed ^ 0x9e3779b97f4a7c15 }
    }

    fn next(&mut self) -> u64 {
        let mut x = self.s;
        x ^= x << 13;
        x ^= x >> 7;
        x ^= x << 17;
        self.s = x;
        x
    }

    fn fe(&mut self) -> Fe {
        Fe::new(self.next())
    }

    fn below(&mut self, n: u64) -> u64 {
        self.next() % n
    }
}

fn point(rng: &mut Rng, n: usize) -> Vec<Fe> {
    let mut out = Vec::new();
    for _ in 0..n {
        out.push(rng.fe());
    }
    out
}

/// A random polynomial whose total degree stays at most `max_deg`.
fn rnd_poly(rng: &mut Rng, n: usize, d: usize, max_deg: usize) -> Sparse {
    let mut p = Sparse::zero(n, d);
    for _ in 0..8 {
        let mut exps = vec![0usize; n];
        let mut left = max_deg;
        for i in 0..n {
            if left == 0 {
                break;
            }
            let e = rng.below(left as u64 + 1) as usize;
            exps[i] = e;
            left -= e;
        }
        p.add_monomial(&exps, rng.fe());
    }
    // make sure a monomial of the highest degree is present
    let mut top = vec![0usize; n];
    top[0] = max_deg;
    p.add_monomial(&top, Fe::new(1 + rng.next() % 1000));
    p
}

#[test]
fn test_mul_by_one() {
    let mut rng = Rng::new(7);
    let p1 = rnd_poly(&mut rng, 7, 2, 2);
    let one = Sparse::one(7, 2);
    let p2 = p1.mul(&one);
    assert_eq!(p1, p2);
    let p3 = one.mul(&p1);
    assert_eq!(p1, p3);
}

#[test]
fn test_mul_by_zero() {
    let mut rng = Rng::new(8);
    let p1 = rnd_poly(&mut rng, 5, 4, 4);
    let zero = Sparse::zero(5, 4);
    let p2 = p1.mul(&zero);
    assert_eq!(zero, p2);
    let p3 = zero.mul(&p1);
    assert_eq!(zero, p3);
}

#[test]
fn test_add_zero() {
    let mut rng = Rng::new(9);
    let p1 = rnd_poly(&mut rng, 3, 4, 4);
    let zero = Sparse::zero(3, 4);
    let p2 = p1.add(&zero);
    assert_eq!(p1, p2);
    let p3 = zero.add(&p1);
    assert_eq!(p1, p3);
}

#[test]
fn test_double_is_add_twice() {
    let mut rng = Rng::new(10);
    let p1 = rnd_poly(&mut rng, 3, 4, 4);
    let p2 = p1.add(&p1);
    let p3 = p1.double();
    assert_eq!(p2, p3);
}

#[test]
fn test_sub_zero() {
    let mut rng = Rng::new(11);
    let p1 = rnd_poly(&mut rng, 3, 4, 4);
    let zero = Sparse::zero(3, 4);
    let p2 = p1.sub(&zero);
    assert_eq!(p1, p2);
}

#[test]
fn test_neg() {
    let mut rng = Rng::new(12);
    let p1 = rnd_poly(&mut rng, 3, 4, 4);
    let p2 = p1.neg();
    let sum = p1.add(&p2);
    assert_eq!(sum, Sparse::zero(3, 4));
    let p3 = p2.neg();
    assert_eq!(p1, p3);
    let zero = Sparse::zero(3, 4);
    let neg_zero = zero.neg();
    assert_eq!(zero, neg_zero);
}

#[test]
fn test_eval_pbt_add() {
    let mut rng = Rng::new(13);
    let x = point(&mut rng, 6);
    let p1 = rnd_poly(&mut rng, 6, 4, 4);
    let p2 = rnd_poly(&mut rng, 6, 4, 4);
    let e1 = p1.eval(&x);
    let e2 = p2.eval(&x);
    let p3 = p1.add(&p2);
    assert_eq!(p3.eval(&x), e1.add(e2));
}

#[test]
fn test_eval_pbt_sub() {
    let mut rng = Rng::new(14);
    let x = point(&mut rng, 6);
    let p1 = rnd_poly(&mut rng, 6, 4, 4);
    let p2 = rnd_poly(&mut rng, 6, 4, 4);
    let e1 = p1.eval(&x);
    let e2 = p2.eval(&x);
    let p3 = p1.sub(&p2);
    assert_eq!(p3.eval(&x), e1.sub(e2));
}

#[test]
fn test_eval_pbt_mul_by_scalar() {
    let mut rng = Rng::new(15);
    let x = point(&mut rng, 6);
    let p = rnd_poly(&mut rng, 6, 4, 4);
    let c = rng.fe();
    assert_eq!(p.mul_by_scalar(c).eval(&x), c.mul(p.eval(&x)));
}

#[test]
fn test_eval_pbt_neg() {
    let mut rng = Rng::new(16);
    let x = point(&mut rng, 6);
    let p = rnd_poly(&mut rng, 6, 4, 4);
    assert_eq!(p.neg().eval(&x), p.eval(&x).neg());
}

#[test]
fn test_neg_ref() {
    let mut rng = Rng::new(17);
    let p1 = rnd_poly(&mut rng, 3, 4, 4);
    let p2 = p1.neg();
    let sum = p1.add(&p2);
    assert_eq!(sum, Sparse::zero(3, 4));
    let p3 = p2.neg();
    assert_eq!(p1, p3);
}

#[test]
fn test_mul_by_scalar() {
    let mut rng = Rng::new(18);
    let p1 = rnd_poly(&mut rng, 4, 5, 4);
    let c = rng.fe();
    let p2 = Sparse::from_scalar(4, 5, c);
    assert_eq!(p2.mul(&p1), p1.mul_by_scalar(c));
}

#[test]
fn test_mul_by_scalar_with_zero() {
    let mut rng = Rng::new(19);
    let p1 = rnd_poly(&mut rng, 4, 5, 5);
    let c = Fe::zero();
    assert_eq!(p1.mul_by_scalar(c), Sparse::zero(4, 5));
}

#[test]
fn test_mul_by_scalar_with_one() {
    let mut rng = Rng::new(20);
    let p1 = rnd_poly(&mut rng, 4, 5, 5);
    let c = Fe::one();
    assert_eq!(p1.mul_by_scalar(c), p1);
}

#[test]
fn test_evaluation_zero_polynomial() {
    let mut rng = Rng::new(21);
    let x = point(&mut rng, 4);
    let zero = Sparse::zero(4, 5);
    assert_eq!(zero.eval(&x), Fe::zero());
}

#[test]
fn test_evaluation_constant_polynomial() {
    let mut rng = Rng::new(22);
    let x = point(&mut rng, 4);
    let c = rng.fe();
    let p = Sparse::from_scalar(4, 5, c);
    assert_eq!(p.eval(&x), c);
}

#[test]
fn test_degree_constant() {
    let mut rng = Rng::new(23);
    let c = rng.fe();
    let p = Sparse::from_scalar(4, 5, c);
    assert_eq!(p.degree(), 0);
}

#[test]
fn test_degree_random_degree() {
    let mut rng = Rng::new(24);
    for _ in 0..10 {
        let deg = rng.below(6) as usize;
        let mut exps = vec![0usize; 4];
        let mut left = deg;
        for i in 0..4 {
            let e = rng.below(left as u64 + 1) as usize;
            exps[i] = e;
            left -= e;
        }
        exps[3] += left;
        let p = Sparse::from_monomial(4, 5, &exps, Fe::new(3));
        assert_eq!(p.degree(), deg);
    }
    let exps = vec![17usize];
    let p = Sparse::from_monomial(1, 20, &exps, Fe::new(5));
    assert_eq!(p.degree(), 17);
}

#[test]
fn test_is_constant() {
    let mut rng = Rng::new(25);
    let c = rng.fe();
    let p = Sparse::from_scalar(4, 5, c);
    assert!(p.is_constant());

    let p = Sparse::zero(4, 5);
    assert!(p.is_constant());

    let p = rnd_poly(&mut rng, 4, 5, 5);
    assert!(!p.is_constant());
}

#[test]
fn test_mvpoly_add_degree_pbt() {
    let mut rng = Rng::new(26);
    let p1 = rnd_poly(&mut rng, 4, 5, 4);
    let p2 = rnd_poly(&mut rng, 4, 5, 3);
    let r = p1.add(&p2);
    assert!(r.degree() <= p1.degree().max(p2.degree()));
}

#[test]
fn test_mvpoly_sub_degree_pbt() {
    let mut rng = Rng::new(27);
    let p1 = rnd_poly(&mut rng, 4, 5, 4);
    let p2 = rnd_poly(&mut rng, 4, 5, 3);
    let r = p1.sub(&p2);
    assert!(r.degree() <= p1.degree().max(p2.degree()));
}

#[test]
fn test_mvpoly_neg_degree_pbt() {
    let mut rng = Rng::new(28);
    let p1 = rnd_poly(&mut rng, 4, 5, 4);
    assert_eq!(p1.neg().degree(), p1.degree());
}

#[test]
fn test_mvpoly_mul_by_scalar_degree_pbt() {
    let mut rng = Rng::new(29);
    let p1 = rnd_poly(&mut rng, 4, 5, 4);
    let c = Fe::new(1 + rng.next() % 1000);
    assert!(p1.mul_by_scalar(c).degree() <= p1.degree());
}

#[test]
fn test_mvpoly_mul_degree_pbt() {
    let mut rng = Rng::new(30);
    let p1 = rnd_poly(&mut rng, 4, 6, 3);
    let p2 = rnd_poly(&mut rng, 4, 6, 2);
    let r = p1.mul(&p2);
    assert!(r.degree() <= p1.degree() + p2.degree());
}

#[test]
fn test_mvpoly_mul_eval_pbt() {
    let mut rng = Rng::new(31);
    let x = point(&mut rng, 4);
    let p1 = rnd_poly(&mut rng, 4, 6, 3);
    let p2 = rnd_poly(&mut rng, 4, 6, 3);
    let r = p1.mul(&p2);
    assert_eq!(r.eval(&x), p1.eval(&x).mul(p2.eval(&x)));
}

#[test]
fn test_mvpoly_mul_pbt() {
    let mut rng = Rng::new(32);
    let p1 = rnd_poly(&mut rng, 4, 6, 3);
    let p2 = rnd_poly(&mut rng, 4, 6, 3);
    assert_eq!(p1.mul(&p2), p2.mul(&p1));
}

#[test]
fn test_can_be_printed_with_debug() {
    let mut rng = Rng::new(33);
    let p = rnd_poly(&mut rng, 2, 2, 2);
    let s = format!("{:?}", p);
    assert!(!s.is_empty());
}

#[test]
fn test_is_zero() {
    let mut rng = Rng::new(34);
    let zero = Sparse::zero(4, 6);
    assert!(zero.is_zero());
    let p = rnd_poly(&mut rng, 4, 6, 6);
    assert!(!p.is_zero());
}

#[test]
fn test_homogeneous_eval() {
    let mut rng = Rng::new(35);
    let x = point(&mut rng, 4);
    let u = rng.fe();
    // the homogeneous form of the constant one is the square of the slack
    let p1 = Sparse::one(4, 2);
    assert_eq!(p1.homogeneous_eval(&x, u), u.mul(u));

    let mut p2 = Sparse::zero(4, 2);
    p2.add_monomial(&vec![1, 0, 0, 0], Fe::one());
    assert_eq!(p2.homogeneous_eval(&x, u), x[0].mul(u));

    let mut p3 = Sparse::zero(4, 2);
    p3.add_monomial(&vec![0, 1, 0, 0], Fe::one());
    assert_eq!(p3.homogeneous_eval(&x, u), x[1].mul(u));

    let mut p4 = Sparse::zero(4, 2);
    p4.add_monomial(&vec![1, 1, 0, 0], Fe::one());
    assert_eq!(p4.homogeneous_eval(&x, u), x[0].mul(x[1]));

    let mut p5 = Sparse::zero(4, 2);
    p5.add_monomial(&vec![2, 0, 0, 0], Fe::one());
    assert_eq!(p5.homogeneous_eval(&x, u), x[0].mul(x[0]));

    let mut p6 = Sparse::zero(4, 2);
    p6.add_monomial(&vec![0, 2, 0, 0], Fe::one());
    p6.add_monomial(&vec![2, 0, 0, 0], Fe::one());
    assert_eq!(p6.homogeneous_eval(&x, u), x[1].mul(x[1]).add(x[0].mul(x[0])));

    let mut p7 = Sparse::zero(4, 2);
    p7.add_monomial(&vec![0, 2, 0, 0], Fe::one());
    p7.add_monomial(&vec![2, 0, 0, 0], Fe::one());
    p7.add_monomial(&vec![1, 0, 0, 0], Fe::one());
    p7.add_monomial(&vec![0, 0, 0, 0], Fe::new(42));
    assert_eq!(
        p7.homogeneous_eval(&x, u),
        x[1].mul(x[1]).add(x[0].mul(x[0])).add(u.mul(x[0])).add(u.mul(u).mul(Fe::new(42)))
    );
}

#[test]
fn test_add_monomial() {
    let mut rng = Rng::new(36);

    let mut p1 = Sparse::zero(4, 2);
    p1.add_monomial(&vec![0, 0, 0, 0], Fe::one());
    assert_eq!(p1, Sparse::one(4, 2));

    let mut p2 = Sparse::zero(4, 2);
    let random_c = rng.fe();
    p2.add_monomial(&vec![0, 0, 0, 0], random_c);
    assert_eq!(p2, Sparse::from_scalar(4, 2, random_c));

    let mut p3 = Sparse::zero(4, 2);
    let c1 = rng.fe();
    let c2 = rng.fe();
    p3.add_monomial(&vec![1, 0, 0, 0], c1);
    p3.add_monomial(&vec![0, 1, 0, 0], c2);
    let x = point(&mut rng, 4);
    assert_eq!(p3.eval(&x), c1.mul(x[0]).add(c2.mul(x[1])));

    let mut p4 = Sparse::zero(4, 2);
    let c1 = rng.fe();
    let c2 = rng.fe();
    p4.add_monomial(&vec![2, 0, 0, 0], c1);
    p4.add_monomial(&vec![0, 2, 0, 0], c2);
    let x = point(&mut rng, 4);
    assert_eq!(p4.eval(&x), c1.mul(x[0]).mul(x[0]).add(c2.mul(x[1]).mul(x[1])));
}

fn cross_term_value(ct: &Vec<(usize, Fe)>, k: usize) -> Fe {
    for &(p, v) in ct.iter() {
        if p == k {
            return v;
        }
    }
    panic!("missing cross term");
}

fn check_folding(p: &Sparse, n: usize, d: usize, rng: &mut Rng) {
    let x1 = point(rng, n);
    let x2 = point(rng, n);
    let u1 = rng.fe();
    let u2 = rng.fe();
    let ct = p.compute_cross_terms(&x1, &x2, u1, u2);
    assert_eq!(ct.len(), d - 1);

    let r = rng.fe();
    let mut comb = Vec::new();
    for i in 0..n {
        comb.push(x1[i].add(r.mul(x2[i])));
    }
    let lhs = p.homogeneous_eval(&comb, u1.add(r.mul(u2)));
    let e1 = p.homogeneous_eval(&x1, u1);
    let e2 = p.homogeneous_eval(&x2, u2);
    let mut rhs = e1.add(r.pow(d as u64).mul(e2));
    for &(k, v) in ct.iter() {
        rhs = rhs.add(r.pow(k as u64).mul(v));
    }
    assert_eq!(lhs, rhs);
}

#[test]
fn test_mvpoly_compute_cross_terms_degree_two_unit_test() {
    let mut rng = Rng::new(37);
    // the homogeneous form of the constant one is the square of the slack
    let p1 = Sparse::from_scalar(4, 2, Fe::new(1));
    let x1 = point(&mut rng, 4);
    let x2 = point(&mut rng, 4);
    let u1 = rng.fe();
    let u2 = rng.fe();
    let ct = p1.compute_cross_terms(&x1, &x2, u1, u2);
    assert_eq!(ct.len(), 1);
    let t1 = cross_term_value(&ct, 1);
    let expected = u1.mul(u2).add(u1.mul(u2));
    assert_eq!(t1, expected);
}

#[test]
fn test_mvpoly_compute_cross_terms_degree_two() {
    let mut rng = Rng::new(38);
    let p1 = rnd_poly(&mut rng, 4, 2, 2);
    check_folding(&p1, 4, 2, &mut rng);
}

#[test]
fn test_mvpoly_compute_cross_terms_degree_three() {
    let mut rng = Rng::new(39);
    let p1 = rnd_poly(&mut rng, 4, 3, 3);
    check_folding(&p1, 4, 3, &mut rng);
}

#[test]
fn test_mvpoly_compute_cross_terms_degree_four() {
    let mut rng = Rng::new(40);
    let p1 = rnd_poly(&mut rng, 6, 4, 4);
    check_folding(&p1, 6, 4, &mut rng);
}

#[test]
fn test_mvpoly_compute_cross_terms_degree_five() {
    let mut rng = Rng::new(41);
    let p1 = rnd_poly(&mut rng, 3, 5, 5);
    check_folding(&p1, 3, 5, &mut rng);
}

#[test]
fn test_mvpoly_compute_cross_terms_degree_six() {
    let mut rng = Rng::new(42);
    let p1 = rnd_poly(&mut rng, 4, 6, 6);
    check_folding(&p1, 4, 6, &mut rng);
}

#[test]
fn test_mvpoly_compute_cross_terms_degree_seven() {
    let mut rng = Rng::new(43);
    let p1 = rnd_poly(&mut rng, 4, 7, 7);
    check_folding(&p1, 4, 7, &mut rng);
}

#[test]
fn test_is_multilinear() {
    let mut rng = Rng::new(44);
    let p1 = Sparse::zero(6, 2);
    assert!(p1.is_multilinear());

    let c = rng.fe();
    let p2 = Sparse::from_scalar(6, 2, c);
    assert!(p2.is_multilinear());

    {
        let mut p = Sparse::zero(6, 3);
        let c = rng.fe();
        let idx = rng.below(6) as usize;
        let mut exps = vec![0usize; 6];
        exps[idx] = 1;
        p.add_monomial(&exps, c);
        assert!(p.is_multilinear());
    }

    {
        let mut p = Sparse::zero(6, 4);
        let c = rng.fe();
        let nb_var = rng.below(4) as usize;
        let mut exps = vec![0usize; 6];
        for i in 0..6 {
            if i <= nb_var {
                exps[i] = 1;
            }
        }
        // shuffle the exponents
        for i in (1..6usize).rev() {
            let j = rng.below(i as u64 + 1) as usize;
            exps.swap(i, j);
        }
        p.add_monomial(&exps, c);
        assert!(p.is_multilinear());
    }

    let mut p3 = Sparse::zero(6, 4);
    p3.add_monomial(&vec![2, 1, 0, 0, 0, 0], rng.fe());
    assert!(!p3.is_multilinear());
}
