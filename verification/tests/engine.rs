use mvpoly::field::{Fe, MODULUS};
use mvpoly::primes::{is_prime, naive_prime_factors, PrimeNumberGenerator};
use mvpoly::sparse::Sparse;

#[test]
fn test_field_ops() {
    let a = Fe::new(5);
    let b = Fe::new(7);
    assert_eq!(a.add(b), Fe::new(12));
    assert_eq!(a.mul(b), Fe::new(35));
    assert_eq!(b.sub(a), Fe::new(2));
    assert_eq!(a.sub(b), Fe::new(MODULUS - 2));
    assert_eq!(a.neg().add(a), Fe::zero());
    assert_eq!(Fe::new(2).pow(31), Fe::new(2).mul(Fe::new(2).pow(30)));
    // reduction wraps at the modulus
    assert_eq!(Fe::new(MODULUS), Fe::zero());
    assert_eq!(Fe::new(MODULUS + 1), Fe::one());
}

#[test]
fn test_modulus_is_prime() {
    // the field laws rest on the modulus being prime
    assert!(is_prime(MODULUS as usize));
}

#[test]
fn test_is_prime_small() {
    assert!(!is_prime(0));
    assert!(!is_prime(1));
    assert!(is_prime(2));
    assert!(is_prime(3));
    assert!(!is_prime(4));
    assert!(is_prime(5));
    assert!(!is_prime(9));
    assert!(is_prime(97));
    assert!(!is_prime(91));
}

#[test]
fn test_prime_generator() {
    let mut gen = PrimeNumberGenerator::new();
    assert_eq!(gen.get_nth_prime(1), 2);
    assert_eq!(gen.get_nth_prime(2), 3);
    assert_eq!(gen.get_nth_prime(5), 11);
    assert_eq!(gen.get_nth_prime(10), 29);
    assert_eq!(gen.get_next_prime(), 31);
    let firsts = gen.get_first_nth_primes(7);
    assert_eq!(&firsts[..7], &[2, 3, 5, 7, 11, 13, 17]);
    assert!(gen.is_prime(101));
    assert!(!gen.is_prime(1001));
}

#[test]
fn test_prime_factors() {
    let mut gen = PrimeNumberGenerator::new();
    let primes = gen.get_first_nth_primes(6);
    let f = naive_prime_factors(12, primes.clone());
    assert_eq!(f, vec![(2, 2), (3, 1)]);
    let f = naive_prime_factors(1, primes.clone());
    assert_eq!(f, vec![]);
    let f = naive_prime_factors(90, primes.clone());
    assert_eq!(f, vec![(2, 1), (3, 2), (5, 1)]);
    // a factor outside the listed primes stays in the quotient
    let f = naive_prime_factors(2 * 17, vec![2, 3, 5]);
    assert_eq!(f, vec![(2, 1)]);
}

#[test]
fn test_mapping_with_primes() {
    let mapping = mvpoly::primes::get_mapping_with_primes::<3>();
    assert_eq!(mapping, vec![1, 2, 3, 2, 3, 5]);
}

#[test]
fn test_homogeneous_eval_unit_slack() {
    // with slack one the homogenized value is the plain value
    let mut p = Sparse::zero(3, 4);
    p.add_monomial(&vec![1, 2, 0], Fe::new(7));
    p.add_monomial(&vec![0, 0, 1], Fe::new(11));
    p.add_monomial(&vec![0, 0, 0], Fe::new(13));
    let x = vec![Fe::new(3), Fe::new(5), Fe::new(2)];
    assert_eq!(p.homogeneous_eval(&x, Fe::one()), p.eval(&x));
}

#[test]
fn test_single_monomial_homogeneous_eval() {
    // a single monomial of degree one is padded by one power of the slack
    let mut p = Sparse::zero(4, 2);
    p.add_monomial(&vec![1, 0, 0, 0], Fe::one());
    let a = Fe::new(12345);
    let u = Fe::new(6789);
    let x = vec![a, Fe::zero(), Fe::zero(), Fe::zero()];
    assert_eq!(p.homogeneous_eval(&x, u), a.mul(u));
}

#[test]
fn test_eval_sum_of_two_random_polys() {
    let mut p1 = Sparse::zero(6, 2);
    let mut p2 = Sparse::zero(6, 2);
    let mut s: u64 = 0x1234;
    let mut next = move || {
        s ^= s << 13;
        s ^= s >> 7;
        s ^= s << 17;
        s
    };
    for _ in 0..6 {
        let mut e1 = vec![0usize; 6];
        let mut e2 = vec![0usize; 6];
        e1[(next() % 6) as usize] = (next() % 3) as usize % 3;
        e2[(next() % 6) as usize] = (next() % 3) as usize % 3;
        if e1.iter().sum::<usize>() <= 2 {
            p1.add_monomial(&e1, Fe::new(next()));
        }
        if e2.iter().sum::<usize>() <= 2 {
            p2.add_monomial(&e2, Fe::new(next()));
        }
    }
    let mut pt = Vec::new();
    for _ in 0..6 {
        pt.push(Fe::new(next()));
    }
    let sum = p1.add(&p2);
    assert_eq!(sum.eval(&pt), p1.eval(&pt).add(p2.eval(&pt)));
}

#[test]
fn test_sparse_product_fixture() {
    // (2 X1 + X2) * (3 + X2) over two variables of degree bound two
    let mut p1 = Sparse::zero(2, 2);
    p1.add_monomial(&vec![1, 0], Fe::new(2));
    p1.add_monomial(&vec![0, 1], Fe::one());
    let mut p2 = Sparse::zero(2, 2);
    p2.add_monomial(&vec![0, 0], Fe::new(3));
    p2.add_monomial(&vec![0, 1], Fe::one());
    let r = p1.mul(&p2);
    let mut expected = Sparse::zero(2, 2);
    expected.add_monomial(&vec![1, 0], Fe::new(6));
    expected.add_monomial(&vec![0, 1], Fe::new(3));
    expected.add_monomial(&vec![1, 1], Fe::new(2));
    expected.add_monomial(&vec![0, 2], Fe::one());
    assert_eq!(r, expected);
}

#[test]
fn test_add_monomial_cancellation() {
    // merging an opposite coefficient deletes the entry
    let mut p = Sparse::zero(3, 2);
    let c = Fe::new(99);
    p.add_monomial(&vec![1, 1, 0], c);
    p.add_monomial(&vec![1, 1, 0], c.neg());
    assert!(p.is_zero());
    assert_eq!(p, Sparse::zero(3, 2));
}

#[test]
fn test_scalar_product_associates() {
    // (c p) q == c (p q)
    let c = Fe::new(424242);
    let mut p = Sparse::zero(3, 6);
    p.add_monomial(&vec![1, 2, 0], Fe::new(5));
    p.add_monomial(&vec![0, 0, 3], Fe::new(17));
    let mut q = Sparse::zero(3, 6);
    q.add_monomial(&vec![1, 0, 1], Fe::new(23));
    q.add_monomial(&vec![0, 1, 0], Fe::new(29));
    let lhs = p.mul_by_scalar(c).mul(&q);
    let rhs = p.mul(&q).mul_by_scalar(c);
    assert_eq!(lhs, rhs);
}

#[test]
fn test_mul_associates() {
    // (p q) z == p (q z) while the degrees stay within the bound
    let mut p = Sparse::zero(2, 6);
    p.add_monomial(&vec![1, 0], Fe::new(3));
    p.add_monomial(&vec![0, 1], Fe::new(4));
    let mut q = Sparse::zero(2, 6);
    q.add_monomial(&vec![1, 1], Fe::new(5));
    let mut z = Sparse::zero(2, 6);
    z.add_monomial(&vec![0, 2], Fe::new(7));
    z.add_monomial(&vec![0, 0], Fe::new(1));
    assert_eq!(p.mul(&q).mul(&z), p.mul(&q.mul(&z)));
}

#[test]
fn test_sparse_is_homogeneous() {
    let mut p = Sparse::zero(2, 2);
    p.add_monomial(&vec![1, 1], Fe::one());
    p.add_monomial(&vec![2, 0], Fe::one());
    p.add_monomial(&vec![0, 2], Fe::one());
    assert!(p.is_homogeneous());

    let mut q = Sparse::zero(2, 2);
    q.add_monomial(&vec![0, 0], Fe::new(42));
    q.add_monomial(&vec![1, 1], Fe::one());
    assert!(!q.is_homogeneous());
}
