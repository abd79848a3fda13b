use polyring::ring::zq::Zq;
use polyring::ring::Ring;

#[test]
fn new_reduces_modulo_q() {
    assert_eq!(Zq::new(17 * 3 + 4), Zq::new(4));
    assert_eq!(Zq::new(u64::MAX), Zq::new(u64::MAX % 17));
    assert_eq!(Zq::new(16).to_string(), "16");
    assert_eq!(Zq::new(35).to_string(), "1");
}

#[test]
fn from_agrees_with_new() {
    for v in [0u64, 1, 16, 17, 18, 1000, u64::MAX] {
        assert_eq!(Zq::from(v), Zq::new(v));
    }
}

#[test]
fn assign_operators_agree_with_binary_ones() {
    for a in 0..17u64 {
        for b in 0..17u64 {
            let (x, y) = (Zq::new(a), Zq::new(b));
            let mut s = x;
            s += y;
            assert_eq!(s, x + y);
            let mut s2 = x;
            s2 += &y;
            assert_eq!(s2, x + &y);
            let mut m = x;
            m *= y;
            assert_eq!(m, x * y);
            let mut m2 = x;
            m2 *= &y;
            assert_eq!(m2, x * &y);
            let mut d = x;
            d -= y;
            assert_eq!(d, x - y);
            assert_eq!(x - y, x + (-y));
        }
    }
}

#[test]
fn division_is_unique_inverse_of_multiplication() {
    for a in 0..17u64 {
        for b in 1..17u64 {
            let q = Zq::new(a) / Zq::new(b);
            assert_eq!(q * Zq::new(b), Zq::new(a));
        }
    }
    assert_eq!(Zq::new(3) / Zq::new(16), Zq::new(14));
}

#[test]
fn square_and_pow_agree_with_repeated_multiplication() {
    for a in 0..17u64 {
        let x = Zq::new(a);
        assert_eq!(x.square(), x * x);
        let mut acc = Zq::one();
        for e in 0..40u64 {
            assert_eq!(x.pow(e), acc);
            acc *= x;
        }
    }
}

#[test]
fn fermat_for_every_nonzero_element() {
    for a in 1..17u64 {
        assert_eq!(Zq::new(a).pow(16), Zq::one());
        assert_eq!(Zq::new(a).pow(17), Zq::new(a));
    }
}

#[test]
fn random_elements_are_residues() {
    let mut rng = rand::thread_rng();
    for _ in 0..100 {
        let a = Zq::rand(&mut rng);
        let b = Zq::random(&mut rng);
        assert!(a.to_string().parse::<u64>().unwrap() < 17);
        assert!(b.to_string().parse::<u64>().unwrap() < 17);
        assert_eq!(a + Zq::zero(), a);
    }
}
