use polyring::poly::Polynomial;
use polyring::ring::ring_poly::RingPolynomial;
use polyring::ring::zq::Zq;
use polyring::ring::{PolynomialRingTrait, Ring};

fn zqs(values: &[u64]) -> Vec<Zq> {
    values.iter().map(|v| Zq::new(*v)).collect()
}

type R4 = RingPolynomial<4>;

#[test]
fn new_folds_with_x_to_the_n_equal_to_minus_one() {
    // 1 + 2x + 3x^2 + 4x^3 + 5x^4 + 6x^5 = (1 - 5) + (2 - 6)x + 3x^2 + 4x^3
    let r = R4::from_coefficients(zqs(&[1, 2, 3, 4, 5, 6]));
    assert_eq!(r.coefficients(), zqs(&[13, 13, 3, 4]));
    // x^8 = (x^4)^2 = 1
    let r = R4::new(Polynomial::from_coefficients(zqs(&[0, 0, 0, 0, 0, 0, 0, 0, 1])));
    assert_eq!(r.coefficients(), zqs(&[1]));
}

#[test]
fn new_drops_trailing_zeros_and_is_idempotent() {
    let r = R4::from_coefficients(zqs(&[1, 0, 2, 0, 0, 0]));
    assert_eq!(r.coefficients(), zqs(&[1, 0, 2]));
    let again = R4::new(r.inner.clone());
    assert_eq!(again, r);
    let z = R4::from_coefficients(zqs(&[0, 0, 0, 0, 0]));
    assert!(z.coefficients().is_empty());
    assert!(z.is_zero());
}

#[test]
fn degree_zero_bound_reduces_everything_to_zero() {
    let r = RingPolynomial::<0>::from_coefficients(zqs(&[3, 4, 5]));
    assert!(r.coefficients().is_empty());
    assert_eq!(RingPolynomial::<0>::modulus().coefficients(), zqs(&[2]));
}

#[test]
fn modulus_is_x_to_the_n_plus_one() {
    assert_eq!(R4::modulus().coefficients(), zqs(&[1, 0, 0, 0, 1]));
    assert_eq!(RingPolynomial::<1>::modulus().coefficients(), zqs(&[1, 1]));
}

#[test]
fn multiplication_wraps_with_sign() {
    let x3 = R4::from_coefficients(zqs(&[0, 0, 0, 1]));
    let x = R4::from_coefficients(zqs(&[0, 1]));
    assert_eq!((x3.clone() * x.clone()).coefficients(), zqs(&[16]));
    assert_eq!((x.clone() * &x3).coefficients(), zqs(&[16]));
    // (1 + x)(1 + x^3) = 1 + x + x^3 + x^4 = x + x^3
    let a = R4::from_coefficients(zqs(&[1, 1]));
    let b = R4::from_coefficients(zqs(&[1, 0, 0, 1]));
    assert_eq!((a.clone() * b.clone()).coefficients(), zqs(&[0, 1, 0, 1]));
    assert_eq!((b.clone() * a.clone()), (a.clone() * b.clone()));
    let mut c = a.clone();
    c *= b;
    assert_eq!(c.coefficients(), zqs(&[0, 1, 0, 1]));
}

#[test]
fn addition_and_subtraction() {
    let a = R4::from_coefficients(zqs(&[1, 2, 3]));
    let b = R4::from_coefficients(zqs(&[16, 15, 3, 1]));
    assert_eq!((a.clone() + b.clone()).coefficients(), zqs(&[0, 0, 6, 1]));
    assert_eq!((a.clone() + &b).coefficients(), zqs(&[0, 0, 6, 1]));
    assert_eq!((a.clone() - b.clone()).coefficients(), zqs(&[2, 4, 0, 16]));
    assert_eq!((a.clone() - a.clone()).coefficients(), zqs(&[]));
    assert_eq!((a.clone() - &b).coefficients(), zqs(&[2, 4, 0, 16]));
    assert_eq!(a.clone() - &b, a.clone() - b.clone());
    let mut c = a.clone();
    c += b.clone();
    assert_eq!(c.coefficients(), zqs(&[0, 0, 6, 1]));
    let mut d = a.clone();
    d -= b;
    assert_eq!(d.coefficients(), zqs(&[2, 4, 0, 16]));
}

#[test]
fn degree_evaluate_and_coefficients() {
    let p = R4::from_coefficients(zqs(&[5, 1, 3]));
    assert_eq!(p.degree(), 2);
    // 5 + 2 + 3 * 4 = 19 = 2 (mod 17)
    assert_eq!(p.evaluate(&Zq::new(2)), Zq::new(2));
    assert_eq!(p.evaluate(&Zq::new(0)), Zq::new(5));
    assert_eq!(R4::zero().degree(), 0);
    assert!(R4::zero().is_zero());
    assert_eq!(R4::zero().evaluate(&Zq::new(3)), Zq::zero());
}

#[test]
fn set_coefficient_pads_with_zeros() {
    let mut p = R4::zero();
    p.set_coefficient(2, Zq::new(7));
    assert_eq!(p.coefficients(), zqs(&[0, 0, 7]));
    p.set_coefficient(0, Zq::new(1));
    assert_eq!(p.coefficients(), zqs(&[1, 0, 7]));
    p.set_coefficient(2, Zq::new(0));
    assert_eq!(p.coefficients(), zqs(&[1, 0, 0]));
    assert_eq!(p.degree(), 0);
    p.normalize();
    assert_eq!(p.coefficients(), zqs(&[1]));
}

#[test]
fn rendering() {
    assert_eq!(R4::from_coefficients(zqs(&[5, 1, 3])).to_string(), "3x^2 + x + 5");
    assert_eq!(R4::from_coefficients(zqs(&[0, 2, 0, 1])).to_string(), "x^3 + 2x");
    assert_eq!(RingPolynomial::<20>::from_coefficients(zqs(&[0, 0, 0, 0, 0, 0, 0, 0, 0, 0, 0, 0, 16])).to_string(), "16x^12");
    assert_eq!(R4::zero().to_string(), "0");
    assert_eq!(R4::from_coefficients(zqs(&[1])).to_string(), "1");
    let mut p = R4::zero();
    p.set_coefficient(0, Zq::new(0));
    assert_eq!(p.to_string(), "0");
    p.set_coefficient(1, Zq::new(0));
    assert_eq!(p.to_string(), "");
}

#[test]
fn random_polynomials_are_reduced() {
    let mut rng = rand::thread_rng();
    for _ in 0..20 {
        let p = R4::rand_with_bound_degree(&mut rng);
        assert!(p.coefficients().len() <= 4);
        let q = R4::rand(&mut rng, 9);
        assert!(q.coefficients().len() <= 4);
        assert_eq!(R4::new(q.inner.clone()), q);
    }
}

#[test]
fn ring_laws_on_examples() {
    let a = R4::from_coefficients(zqs(&[3, 0, 16, 5]));
    let b = R4::from_coefficients(zqs(&[1, 7, 2]));
    let c = R4::from_coefficients(zqs(&[9, 9, 9, 9]));
    let one = R4::from_coefficients(zqs(&[1]));
    assert_eq!((a.clone() + b.clone()) + c.clone(), a.clone() + (b.clone() + c.clone()));
    assert_eq!(a.clone() + b.clone(), b.clone() + a.clone());
    assert_eq!(a.clone() + R4::zero(), a.clone());
    assert_eq!(a.clone() * b.clone(), b.clone() * a.clone());
    assert_eq!(a.clone() * (b.clone() + c.clone()), (a.clone() * b.clone()) + (a.clone() * c.clone()));
    assert_eq!(a.clone() * one.clone(), a.clone());
    assert_eq!((a.clone() * b.clone()) * c.clone(), a.clone() * (b.clone() * c.clone()));
}

#[test]
fn modulus_reduces_to_zero() {
    assert!(R4::new(R4::modulus()).coefficients().is_empty());
    assert!(RingPolynomial::<1>::new(RingPolynomial::<1>::modulus()).is_zero());
    assert!(RingPolynomial::<0>::new(RingPolynomial::<0>::modulus()).is_zero());
}
