use mvpoly::dense::Dense;
use mvpoly::field::Fe;

struct Rng {
    s: u64,
}

impl Rng {
    fn new(seed: u64) -> Rng {
        Rng { s: seed ^ 0x9e3779b97f4a7c15 }
    }

    fn next(&mut self) -> u64 {
        let mut x = self.s;
        x ^= x << 13;
        x ^= x >> 7;
        x ^= x << 17;
        self.s = x;
        x
    }

    fn fe(&mut self) -> Fe {
        Fe::new(self.next())
    }
}

/// A dense polynomial with random coefficients in every position.
fn rnd_dense(rng: &mut Rng, n: usize, d: usize) -> Dense {
    let dim = Dense::new(n, d).dimension();
    let mut cs = Vec::new();
    for _ in 0..dim {
        cs.push(rng.fe());
    }
    Dense::from_coefficients(n, d, cs)
}

#[test]
fn test_vector_space_dimension() {
    assert_eq!(Dense::new(2, 2).dimension(), 6);
    assert_eq!(Dense::new(3, 2).dimension(), 10);
    assert_eq!(Dense::new(1, 10).dimension(), 11);
}

#[test]
fn test_add() {
    let p1 = Dense::new(2, 2);
    let p2 = Dense::new(2, 2);
    let _p3 = p1.add(&p2);
}

#[test]
pub fn test_normalized_indices() {
    let indices = Dense::new(2, 2).compute_normalized_indices();
    assert_eq!(indices.len(), 6);
    assert_eq!(indices[0], 1);
    assert_eq!(indices[1], 2);
    assert_eq!(indices[2], 3);
    assert_eq!(indices[3], 4);
    assert_eq!(indices[4], 6);
    assert_eq!(indices[5], 9);

    let indices = Dense::new(3, 2).compute_normalized_indices();
    assert_eq!(indices.len(), 10);
    assert_eq!(indices[0], 1);
    assert_eq!(indices[1], 2);
    assert_eq!(indices[2], 3);
    assert_eq!(indices[3], 4);
    assert_eq!(indices[4], 5);
    assert_eq!(indices[5], 6);
    assert_eq!(indices[6], 9);
    assert_eq!(indices[7], 10);
    assert_eq!(indices[8], 15);
    assert_eq!(indices[9], 25);
}

#[test]
fn test_is_homogeneous() {
    // X1 X2 + X1^2 + X2^2
    let coeffs = vec![Fe::zero(), Fe::zero(), Fe::zero(), Fe::one(), Fe::one(), Fe::one()];
    let p = Dense::from_coefficients(2, 2, coeffs);
    assert!(p.is_homogeneous());

    // X1 X2 + X1^2
    let coeffs = vec![Fe::zero(), Fe::zero(), Fe::zero(), Fe::one(), Fe::one(), Fe::zero()];
    let p = Dense::from_coefficients(2, 2, coeffs);
    assert!(p.is_homogeneous());

    // X1 X2 + X2^2
    let coeffs = vec![Fe::zero(), Fe::zero(), Fe::zero(), Fe::one(), Fe::zero(), Fe::one()];
    let p = Dense::from_coefficients(2, 2, coeffs);
    assert!(p.is_homogeneous());

    // X1 X2
    let coeffs = vec![Fe::zero(), Fe::zero(), Fe::zero(), Fe::one(), Fe::zero(), Fe::zero()];
    let p = Dense::from_coefficients(2, 2, coeffs);
    assert!(p.is_homogeneous());
}

#[test]
fn test_is_not_homogeneous() {
    // 1 + X1 X2 + X1^2 + X2^2
    let coeffs = vec![
        Fe::new(42),
        Fe::zero(),
        Fe::zero(),
        Fe::one(),
        Fe::one(),
        Fe::one(),
    ];
    let p = Dense::from_coefficients(2, 2, coeffs);
    assert!(!p.is_homogeneous());

    let coeffs = vec![Fe::zero(), Fe::zero(), Fe::one(), Fe::one(), Fe::one(), Fe::zero()];
    let p = Dense::from_coefficients(2, 2, coeffs);
    assert!(!p.is_homogeneous());
}

#[test]
fn test_mul() {
    let coeff_p1 = vec![Fe::zero(), Fe::new(2), Fe::one(), Fe::zero(), Fe::zero(), Fe::zero()];
    let coeff_p2 = vec![Fe::new(3), Fe::zero(), Fe::one(), Fe::zero(), Fe::zero(), Fe::zero()];
    let coeff_p3 = vec![Fe::zero(), Fe::new(6), Fe::new(3), Fe::zero(), Fe::new(2), Fe::one()];

    let p1 = Dense::from_coefficients(2, 2, coeff_p1);
    let p2 = Dense::from_coefficients(2, 2, coeff_p2);
    let exp_p3 = Dense::from_coefficients(2, 2, coeff_p3);
    let p3 = p1.mul(&p2);
    assert_eq!(p3, exp_p3);
}

#[test]
fn prime_test_mul_by_one() {
    let mut rng = Rng::new(51);
    let p1 = rnd_dense(&mut rng, 7, 2);
    let one = Dense::one(7, 2);
    let p2 = p1.mul(&one);
    assert_eq!(p1, p2);
    let p3 = one.mul(&p1);
    assert_eq!(p1, p3);
}

#[test]
fn prime_test_mul_by_zero() {
    let mut rng = Rng::new(52);
    let p1 = rnd_dense(&mut rng, 5, 4);
    let zero = Dense::new(5, 4);
    let p2 = p1.mul(&zero);
    assert_eq!(zero, p2);
    let p3 = zero.mul(&p1);
    assert_eq!(zero, p3);
}

#[test]
fn prime_test_add_zero() {
    let mut rng = Rng::new(53);
    let p1 = rnd_dense(&mut rng, 3, 4);
    let zero = Dense::new(3, 4);
    let p2 = p1.add(&zero);
    assert_eq!(p1, p2);
    let p3 = zero.add(&p1);
    assert_eq!(p1, p3);
}

#[test]
fn prime_test_double_is_add_twice() {
    let mut rng = Rng::new(54);
    let p1 = rnd_dense(&mut rng, 3, 4);
    let p2 = p1.add(&p1);
    let p3 = p1.double();
    assert_eq!(p2, p3);
}

#[test]
fn prime_test_sub_zero() {
    let mut rng = Rng::new(55);
    let p1 = rnd_dense(&mut rng, 3, 4);
    let zero = Dense::new(3, 4);
    let p2 = p1.sub(&zero);
    assert_eq!(p1, p2);
}

#[test]
fn prime_test_neg() {
    let mut rng = Rng::new(56);
    let p1 = rnd_dense(&mut rng, 3, 4);
    let p2 = p1.neg();

    let sum = p1.add(&p2);
    assert_eq!(sum, Dense::new(3, 4));

    let p3 = p2.neg();
    assert_eq!(p1, p3);

    let zero = Dense::new(3, 4);
    let neg_zero = zero.neg();
    assert_eq!(zero, neg_zero);
}

#[test]
fn prime_test_neg_ref() {
    let mut rng = Rng::new(57);
    let p1 = rnd_dense(&mut rng, 3, 4);
    let p2 = p1.neg();

    let sum = p1.add(&p2);
    assert_eq!(sum, Dense::new(3, 4));

    let p3 = p2.neg();
    assert_eq!(p1, p3);
}

#[test]
fn prime_test_mul_by_scalar() {
    let mut rng = Rng::new(58);
    let p1 = rnd_dense(&mut rng, 4, 5);
    let mut p2 = Dense::new(4, 5);
    let c = rng.fe();
    p2.set_coeff(0, c);
    assert_eq!(p2.mul(&p1), p1.mul_by_scalar(c));
}

#[test]
fn prime_test_mul_by_scalar_with_zero() {
    let mut rng = Rng::new(59);
    let p1 = rnd_dense(&mut rng, 4, 5);
    let c = Fe::zero();
    assert_eq!(p1.mul_by_scalar(c), Dense::new(4, 5));
}

#[test]
fn prime_test_mul_by_scalar_with_one() {
    let mut rng = Rng::new(60);
    let p1 = rnd_dense(&mut rng, 4, 5);
    let c = Fe::one();
    assert_eq!(p1.mul_by_scalar(c), p1);
}

#[test]
fn test_mul_by_scalar_with_from() {
    let mut rng = Rng::new(61);
    let p = rnd_dense(&mut rng, 4, 5);
    let c = rng.fe();

    let constant_poly = Dense::from_scalar(4, 5, c);
    let result1 = p.mul_by_scalar(c);
    let result2 = p.mul(&constant_poly);
    assert_eq!(result1, result2);
}

#[test]
fn test_dense_sparse_round_trip() {
    let mut rng = Rng::new(62);
    let p = rnd_dense(&mut rng, 3, 3);
    let sp = p.to_sparse();
    let back = Dense::from_sparse(&sp);
    assert_eq!(p, back);
    // the two representations evaluate alike
    let x = vec![rng.fe(), rng.fe(), rng.fe()];
    assert_eq!(p.eval(&x), sp.eval(&x));
}
