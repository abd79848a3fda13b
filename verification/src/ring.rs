use rand::rngs::ThreadRng;
use vstd::prelude::*;

pub mod ring_poly;
pub mod zq;

verus! {

/// Ring of integers mod q
pub trait Ring: Sized + Copy {
    const MODULUS: u64;

    /// An element drawn from the thread-local random generator.
    /// May unwind, through the generator, when the operating system's entropy source fails
    /// while the thread-local generator reseeds.
    fn rand(rng: &mut ThreadRng) -> Self;

    fn zero() -> Self;

    fn one() -> Self;

    fn square(&self) -> Self;

    /// Computes self^exponent using exponentiation by squaring
    fn pow(&self, power: u64) -> Self;
}

/// Polynomial Ring
/// eg: Z_q[x]/(x^n+1)
pub trait PolynomialRingTrait: Sized {
    type PolyType;

    type PolyCoeff;

    /// The degree `n` of the modulus `x^n + 1`.
    spec fn bound_degree() -> nat;

    fn modulus() -> Self::PolyType
        requires
            Self::bound_degree() < usize::MAX,
    ;

    /// Remove leading zero coefficients
    fn normalize(&mut self);

    fn rand(rng: &mut ThreadRng, degree: usize) -> Self
        requires
            degree < usize::MAX,
    ;

    /// generate a random PolyRing with default degree 'n', aka the bound degree.
    fn rand_with_bound_degree(rng: &mut ThreadRng) -> Self
        requires
            Self::bound_degree() < usize::MAX,
    ;

    /// Create a zero polynomial
    fn zero() -> Self;

    /// Get the degree of the polynomial
    fn degree(&self) -> usize;

    /// Set the coefficient of the x^i term
    fn set_coefficient(&mut self, i: usize, value: Self::PolyCoeff)
        requires
            i < usize::MAX,
    ;

    /// Evaluate the polynomial at a given point
    fn evaluate(&self, x: &Self::PolyCoeff) -> Self::PolyCoeff;

    /// Create a polynomial from a list of coefficients
    fn from_coefficients(coeffs: Vec<Self::PolyCoeff>) -> Self;

    /// Get all coefficients of the polynomial
    fn coefficients(&self) -> Vec<Self::PolyCoeff>;

    /// Check if the polynomial is zero
    fn is_zero(&self) -> bool;
}

} // verus!
