use polyring::ring::zq::Zq;
use polyring::ring::Ring;

#[test]
fn test_new_Zq() {
    assert_eq!(Zq::zero(), Zq::new(Zq::MODULUS));
    assert_eq!(Zq::one(), Zq::new(1));
}

#[test]
fn test_Zq_to_string_and_display() {
    let mut rng = rand::thread_rng();
    let lhs = Zq::random(&mut rng);
    let str = lhs.to_string();
    println!("{:?}", lhs);
    println!("{}", lhs.to_string());
    println!("to_string: {:?}", str);
}

#[test]
fn test_rand_Zq() {
    let mut rng = rand::thread_rng();
    let lhs = Zq::rand(&mut rng);
    let rhs = Zq::rand(&mut rng);
    assert_ne!(lhs, rhs);
}

#[test]
fn test_Zq_addition() {
    assert_eq!(Zq::new(8), Zq::new(5) + Zq::new(3)); // 13 mod 17 = 13
    assert_eq!(Zq::new(15), Zq::new(7) + Zq::new(8)); // 15 mod 17 = 15
    assert_eq!(Zq::new(1), Zq::new(9) + Zq::new(9)); // 18 mod 17 = 1
}

#[test]
fn test_Zq_add_assign() {
    let mut a = Zq::new(5);
    let b = Zq::new(3);
    a += b;
    assert_eq!(a, Zq::new(8));

    let mut c = Zq::new(15);
    let d = Zq::new(5);
    c += d;
    assert_eq!(c, Zq::new(3)); // (15 + 5) % 17 = 3
}

#[test]
fn test_Zq_mul_assign() {
    let mut a = Zq::new(5);
    let b = Zq::new(3);
    a *= b;
    assert_eq!(a, Zq::new(15));

    let mut c = Zq::new(15);
    let d = Zq::new(5);
    c *= d;
    assert_eq!(c, Zq::new(75));
}

#[test]
fn test_Zq_subtraction() {
    let a = Zq::new(5);
    let b = Zq::new(3);
    assert_eq!(Zq::new(2), a - b);
    assert_eq!(Zq::new(16), Zq::new(3) - Zq::new(4)); // -1 mod 17 = 16
    assert_eq!(Zq::new(0), Zq::new(7) - Zq::new(7));
}

#[test]
fn test_Zq_multiplication() {
    let a = Zq::new(5);
    let b = Zq::new(3);
    assert_eq!(Zq::new(15), a * b);
    assert_eq!(Zq::new(1), Zq::new(6) * Zq::new(3)); // 18 mod 17 = 1
    assert_eq!(Zq::new(0), Zq::new(17) * Zq::new(5)); // 85 mod 17 = 0
}

#[test]
fn test_Zq_division() {
    let a = Zq::new(8);
    let b = Zq::new(2);
    assert_eq!(Zq::new(4), a / b);
    assert_eq!(Zq::new(1), Zq::new(5) / Zq::new(5));
    assert_eq!(Zq::new(9), Zq::new(1) / Zq::new(2)); // 1 * 9 = 18 ≡ 1 (mod 17)
}

#[test]
fn test_Zq_negation() {
    assert_eq!(Zq::new(0), -Zq::new(0));
    assert_eq!(Zq::new(12), -Zq::new(5)); // -5 mod 17 = 12
    assert_eq!(Zq::new(1), -Zq::new(16));
}

#[test]
fn test_Zq_additive_inverse() {
    for i in 0..17 {
        let a = Zq::new(i);
        assert_eq!(Zq::new(0), a + (-a));
    }
}

#[test]
fn test_Zq_multiplicative_inverse() {
    for i in 1..17 {
        let a = Zq::new(i);
        assert_eq!(Zq::new(1), a * (Zq::new(1) / a));
    }
}

#[test]
fn test_Zq_associativity() {
    let a = Zq::new(5);
    let b = Zq::new(7);
    let c = Zq::new(11);
    assert_eq!((a + b) + c, a + (b + c));
    assert_eq!((a * b) * c, a * (b * c));
}

#[test]
fn test_Zq_commutativity() {
    let a = Zq::new(5);
    let b = Zq::new(7);
    assert_eq!(a + b, b + a);
    assert_eq!(a * b, b * a);
}

#[test]
fn test_Zq_distributivity() {
    let a = Zq::new(5);
    let b = Zq::new(7);
    let c = Zq::new(11);
    assert_eq!(a * (b + c), (a * b) + (a * c));
}

#[test]
fn test_Zq_pow() {
    // Test x^0 = 1 for any x
    assert_eq!(Zq::new(5).pow(0), Zq::one());
    assert_eq!(Zq::new(0).pow(0), Zq::one());

    // Test x^1 = x for any x
    assert_eq!(Zq::new(7).pow(1), Zq::new(7));

    // Test 0^x = 0 for x > 0
    assert_eq!(Zq::new(0).pow(5), Zq::zero());

    // Test some specific cases
    assert_eq!(Zq::new(2).pow(3), Zq::new(8)); // 2^3 = 8
    assert_eq!(Zq::new(3).pow(4), Zq::new(81)); // 3^4 = 81

    // Test a larger exponent
    assert_eq!(Zq::new(2).pow(10), Zq::new(1024)); // 2^10 = 1024

    // Test with modulus (assuming MODULUS = 17)
    assert_eq!(Zq::new(3).pow(16), Zq::one()); // 3^16 ≡ 1 (mod 17) by Fermat's Little Theorem
}
