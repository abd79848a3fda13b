use crate::random::{gen_u64, next_u64};
use crate::ring::Ring;
use crate::text::{decimal, decimal_string};
use rand::rngs::ThreadRng;
use std::ops::{Add, AddAssign, Div, Mul, MulAssign, Neg, Sub, SubAssign};
use vstd::arithmetic::div_mod::*;
use vstd::arithmetic::mul::*;
use vstd::arithmetic::power::*;
use vstd::prelude::*;

verus! {

/// The modulus `q` of `Z_q`.
pub const ZQ_MODULUS: u64 = 17;

/// `(a + b) mod q`.
pub open spec fn add_mod(a: nat, b: nat) -> nat {
    (a + b) % (ZQ_MODULUS as nat)
}

/// `(a * b) mod q`.
pub open spec fn mul_mod(a: nat, b: nat) -> nat {
    (a * b) % (ZQ_MODULUS as nat)
}

/// `(a - b) mod q`, taken in `[0, q)`.
pub open spec fn sub_mod(a: nat, b: nat) -> nat {
    ((a - b) % (ZQ_MODULUS as int)) as nat
}

/// `(-a) mod q`, taken in `[0, q)`.
pub open spec fn neg_mod(a: nat) -> nat {
    ((0 - a) % (ZQ_MODULUS as int)) as nat
}

/// `a^e mod q`.
pub open spec fn pow_mod(a: nat, e: nat) -> nat {
    (pow(a as int, e) % (ZQ_MODULUS as int)) as nat
}

/// The greatest common divisor, by Euclid's recursion.
pub open spec fn gcd(a: nat, b: nat) -> nat
    decreases b,
{
    if b == 0 {
        a
    } else {
        gcd(b, a % b)
    }
}

/// An element of `Z_q`, the ring of integers modulo `q`; its value always lies in `[0, q)`.
#[derive(Debug, Copy, Clone, PartialEq, Eq, Structural, PartialOrd, Ord)]
pub struct Zq {
    value: u64,
}

impl View for Zq {
    type V = nat;

    /// The residue in `[0, q)` that this element stands for.
    closed spec fn view(&self) -> nat {
        self.value as nat
    }
}

impl Zq {
    /// Every element holds a residue: `use_type_invariant` on an element gives `z@ < q`.
    #[verifier::type_invariant]
    pub open spec fn is_reduced(self) -> bool {
        self@ < ZQ_MODULUS
    }

    /// Two elements are equal exactly when their residues are.
    pub proof fn lemma_view_injective(a: Zq, b: Zq)
        ensures
            (a@ == b@) == (a == b),
    {
    }

    /// The element `value mod q`.
    pub fn new(value: u64) -> (r: Self)
        ensures
            r@ == value % ZQ_MODULUS,
    {
        Zq { value: value % ZQ_MODULUS }
    }

    /// The inverse of `a >= 0` modulo `m` by the extended Euclidean algorithm:
    /// `Some(x)` with `x < m` and `a * x = 1 (mod m)` exactly when `gcd(a, m) = 1`.
    fn inverse(a: i64, m: i64) -> (r: Option<u64>)
        requires
            0 <= a,
            1 < m <= i64::MAX / 2,
        ensures
            r is Some <==> gcd(a as nat, m as nat) == 1,
            r matches Some(x) ==> x < m && (a * x) % (m as int) == 1,
    {
        let mut t: i64 = 0;
        let mut newt: i64 = 1;
        let mut r: i64 = m;
        let mut newr: i64 = a;
        let ghost mut s: int = 1;
        let ghost mut news: int = 0;
        proof {
            lemma_gcd_swap(a as nat, m as nat);
        }
        while newr != 0
            invariant
                0 <= a,
                1 < m <= i64::MAX / 2,
                0 <= newr,
                0 < r,
                gcd(r as nat, newr as nat) == gcd(a as nat, m as nat),
                s * m + t * a == r,
                news * m + newt * a == newr,
                -m <= t <= m,
                -m <= newt <= m,
                abs_int(newt as int) * r + abs_int(t as int) * newr <= m,
            decreases newr,
        {
            let quotient = r / newr;
            proof {
                lemma_fundamental_div_mod(r as int, newr as int);
                lemma_euclid_step(
                    m as int,
                    a as int,
                    r as int,
                    newr as int,
                    t as int,
                    newt as int,
                    s,
                    news,
                    quotient as int,
                );
            }
            let next_t = t - quotient * newt;
            let next_r = r - quotient * newr;
            proof {
                let next_s = s - quotient * news;
                s = news;
                news = next_s;
            }
            t = newt;
            newt = next_t;
            r = newr;
            newr = next_r;
        }
        if r > 1 {
            None
        } else {
            proof {
                lemma_bezout_inverse(m as int, a as int, s, t as int);
            }
            Some(((t + m) % m) as u64)
        }
    }

    /// A uniformly drawn word reduced modulo `q`.
    /// May unwind, through the generator, when the operating system's entropy source fails
    /// while the thread-local generator reseeds.
    pub fn random(rng: &mut ThreadRng) -> (r: Self)
        ensures
            r@ < ZQ_MODULUS,
    {
        Self::new(gen_u64(rng))
    }

    /// The value in `[0, q)`.
    pub fn value(&self) -> (v: u64)
        ensures
            v == self@,
            v < ZQ_MODULUS,
    {
        proof {
            use_type_invariant(self);
        }
        self.value
    }

    /// The decimal notation of the value.
    pub fn to_string(&self) -> (s: String)
        ensures
            s@ == decimal(self@),
    {
        decimal_string(self.value)
    }
}

/// `|x|`.
pub open spec fn abs_int(x: int) -> int {
    if x < 0 {
        -x
    } else {
        x
    }
}

/// `gcd(a, m) == gcd(m, a)` for `m > 1`.
proof fn lemma_gcd_swap(a: nat, m: nat)
    requires
        m > 1,
    ensures
        gcd(a, m) == gcd(m, a),
{
    reveal_with_fuel(gcd, 2);
    if a < m {
        lemma_small_mod(a, m);
    } else if a > m {
        lemma_small_mod(m, a);
    }
}

/// One step of the extended Euclidean algorithm keeps the Bezout relations,
/// the bound on the coefficients and the gcd.
proof fn lemma_euclid_step(
    m: int,
    a: int,
    r: int,
    newr: int,
    t: int,
    newt: int,
    s: int,
    news: int,
    q: int,
)
    requires
        0 < newr,
        0 < r,
        q == r / newr,
        r == newr * q + r % newr,
        s * m + t * a == r,
        news * m + newt * a == newr,
        -m <= t <= m,
        -m <= newt <= m,
        abs_int(newt) * r + abs_int(t) * newr <= m,
    ensures
        -m <= q * newt <= m,
        q * newr <= r,
        r - q * newr == r % newr,
        0 <= r - q * newr < newr,
        (s - q * news) * m + (t - q * newt) * a == r - q * newr,
        -m <= t - q * newt <= m,
        abs_int(t - q * newt) * newr + abs_int(newt) * (r - q * newr) <= m,
{
    let rem = r % newr;
    assert(0 <= rem < newr);
    lemma_mul_is_commutative(newr, q);
    assert(q >= 0) by {
        lemma_div_pos_is_pos(r, newr);
    }
    assert(q * newr <= r);
    // |q * newt| * newr <= |newt| * r <= m, hence |q * newt| <= m.
    assert(abs_int(newt) * (q * newr) <= abs_int(newt) * r) by {
        lemma_mul_inequality(q * newr, r, abs_int(newt));
        lemma_mul_is_commutative(q * newr, abs_int(newt));
        lemma_mul_is_commutative(r, abs_int(newt));
    }
    assert(abs_int(q * newt) == q * abs_int(newt)) by (nonlinear_arith)
        requires
            q >= 0,
    ;
    assert(abs_int(q * newt) * newr <= m) by (nonlinear_arith)
        requires
            abs_int(q * newt) == q * abs_int(newt),
            abs_int(newt) * (q * newr) <= abs_int(newt) * r,
            abs_int(newt) * r + abs_int(t) * newr <= m,
            abs_int(t) >= 0,
            newr > 0,
    ;
    assert(abs_int(q * newt) <= m) by (nonlinear_arith)
        requires
            abs_int(q * newt) * newr <= m,
            newr >= 1,
            abs_int(q * newt) >= 0,
    ;
    assert((s - q * news) * m + (t - q * newt) * a == r - q * newr) by (nonlinear_arith)
        requires
            s * m + t * a == r,
            news * m + newt * a == newr,
    ;
    assert(abs_int(t - q * newt) * newr + abs_int(newt) * (r - q * newr) <= m) by (nonlinear_arith)
        requires
            abs_int(q * newt) == q * abs_int(newt),
            abs_int(newt) * r + abs_int(t) * newr <= m,
            newr > 0,
            q >= 0,
            r - q * newr >= 0,
    {
        assert(abs_int(t - q * newt) <= abs_int(t) + q * abs_int(newt));
        assert(abs_int(t - q * newt) * newr <= (abs_int(t) + q * abs_int(newt)) * newr);
    }
    assert(abs_int(t - q * newt) * newr <= m) by (nonlinear_arith)
        requires
            abs_int(t - q * newt) * newr + abs_int(newt) * (r - q * newr) <= m,
            r - q * newr >= 0,
    ;
    assert(abs_int(t - q * newt) <= m) by (nonlinear_arith)
        requires
            abs_int(t - q * newt) * newr <= m,
            newr >= 1,
    ;
}

/// From `s * m + t * a == 1` with `|t| <= m`, the residue `(t + m) mod m`
/// is an inverse of `a` modulo `m`.
proof fn lemma_bezout_inverse(m: int, a: int, s: int, t: int)
    requires
        1 < m,
        0 <= a,
        s * m + t * a == 1,
        -m <= t <= m,
    ensures
        0 <= (t + m) % m < m,
        (a * ((t + m) % m)) % m == 1,
{
    lemma_mod_bound(t + m, m);
    lemma_mul_mod_noop_right(a, t + m, m);
    assert(a * (t + m) == m * a + a * t) by (nonlinear_arith);
    lemma_mod_multiples_vanish(a, a * t, m);
    assert(a * t == m * (-s) + 1) by (nonlinear_arith)
        requires
            s * m + t * a == 1,
    ;
    lemma_mod_multiples_vanish(-s, 1, m);
    lemma_small_mod(1, m as nat);
}

/// Every nonzero residue is coprime to `q`.
proof fn lemma_nonzero_coprime(b: nat)
    requires
        1 <= b < ZQ_MODULUS,
    ensures
        gcd(b, ZQ_MODULUS as nat) == 1,
{
    reveal_with_fuel(gcd, 8);
    assert(ZQ_MODULUS as nat == 17);
    assert(gcd(1, 17) == 1);
    assert(gcd(2, 17) == 1);
    assert(gcd(3, 17) == 1);
    assert(gcd(4, 17) == 1);
    assert(gcd(5, 17) == 1);
    assert(gcd(6, 17) == 1);
    assert(gcd(7, 17) == 1);
    assert(gcd(8, 17) == 1);
    assert(gcd(9, 17) == 1);
    assert(gcd(10, 17) == 1);
    assert(gcd(11, 17) == 1);
    assert(gcd(12, 17) == 1);
    assert(gcd(13, 17) == 1);
    assert(gcd(14, 17) == 1);
    assert(gcd(15, 17) == 1);
    assert(gcd(16, 17) == 1);
}

impl Ring for Zq {
    const MODULUS: u64 = ZQ_MODULUS;

    /// A word from the thread-local generator reduced modulo `q`. May unwind, through the
    /// generator, when the operating system's entropy source fails while it reseeds.
    fn rand(rng: &mut ThreadRng) -> (r: Self)
        ensures
            r@ < ZQ_MODULUS,
    {
        Self::new(next_u64(rng))
    }

    fn zero() -> (r: Self)
        ensures
            r@ == 0,
    {
        Self::new(0)
    }

    fn one() -> (r: Self)
        ensures
            r@ == 1,
    {
        Self::new(1)
    }

    fn square(&self) -> (r: Self)
        ensures
            r@ == mul_mod(self@, self@),
    {
        proof {
            use_type_invariant(self);
        }
        assert(self.value as u128 * self.value as u128 <= 256) by (nonlinear_arith)
            requires
                self.value < 17,
        ;
        let squared_value = (self.value as u128 * self.value as u128) % (ZQ_MODULUS as u128);
        Self::new(squared_value as u64)
    }

    fn pow(&self, power: u64) -> (r: Self)
        ensures
            r@ == pow_mod(self@, power as nat),
    {
        let mut base = *self;
        let mut result = Self::one();
        let mut exponent = power;
        proof {
            lemma_pow0(self@ as int);
            lemma_mul_basics(pow(self@ as int, power as nat));
        }
        while exponent > 0
            invariant
                (result@ * pow(base@ as int, exponent as nat)) % (ZQ_MODULUS as int) == pow(
                    self@ as int,
                    power as nat,
                ) % (ZQ_MODULUS as int),
            decreases exponent,
        {
            let local_base = base;
            let odd = exponent & 1 == 1;
            proof {
                assert((exponent & 1 == 1) == (exponent % 2 == 1)) by (bit_vector);
                assert(exponent >> 1 == exponent / 2) by (bit_vector);
                lemma_square_and_multiply_step(result@, local_base@, exponent as nat);
            }
            if odd {
                result.mul_assign(&local_base);
            }
            base = local_base.square();
            exponent = exponent >> 1;
        }
        proof {
            use_type_invariant(&result);
            lemma_pow0(base@ as int);
            lemma_small_mod(result@, ZQ_MODULUS as nat);
        }
        result
    }
}

/// One round of square-and-multiply keeps `result * base^exponent (mod q)`.
proof fn lemma_square_and_multiply_step(r: nat, b: nat, e: nat)
    requires
        e > 0,
    ensures
        e % 2 == 1 ==> (mul_mod(r, b) * pow(mul_mod(b, b) as int, e / 2)) % (ZQ_MODULUS as int)
            == (r * pow(b as int, e)) % (ZQ_MODULUS as int),
        e % 2 == 0 ==> (r * pow(mul_mod(b, b) as int, e / 2)) % (ZQ_MODULUS as int) == (r * pow(
            b as int,
            e,
        )) % (ZQ_MODULUS as int),
{
    let qm = ZQ_MODULUS as int;
    let h = e / 2;
    let x = pow((b * b) as int, h);
    let y = pow(mul_mod(b, b) as int, h);
    lemma_pow_mod_noop((b * b) as int, h, qm);
    assert(y % qm == x % qm);
    lemma_square_is_pow2(b as int);
    lemma_pow_multiplies(b as int, 2, h);
    assert(x == pow(b as int, 2 * h));
    lemma_pow_adds(b as int, 2 * h, e % 2);
    assert(e == 2 * h + e % 2);
    if e % 2 == 1 {
        lemma_pow1(b as int);
        assert(pow(b as int, e) == x * b);
        lemma_mul_mod_noop_left((r * b) as int, y, qm);
        lemma_mul_mod_noop_right((r * b) as int, y, qm);
        lemma_mul_mod_noop_right((r * b) as int, x, qm);
        assert((r * b) * x == r * (x * b)) by (nonlinear_arith);
    } else {
        lemma_pow0(b as int);
        assert(pow(b as int, e) == x);
        lemma_mul_mod_noop_right(r as int, y, qm);
        lemma_mul_mod_noop_right(r as int, x, qm);
    }
}

impl From<u64> for Zq {
    fn from(value: u64) -> (r: Self)
        ensures
            r@ == value % ZQ_MODULUS,
    {
        Zq { value: value % ZQ_MODULUS }
    }
}

impl vstd::std_specs::convert::FromSpecImpl<u64> for Zq {
    open spec fn obeys_from_spec() -> bool {
        true
    }

    closed spec fn from_spec(v: u64) -> Zq {
        Zq { value: v % ZQ_MODULUS }
    }
}

impl vstd::std_specs::ops::AddSpecImpl for Zq {
    open spec fn obeys_add_spec() -> bool {
        true
    }

    open spec fn add_req(self, rhs: Zq) -> bool {
        true
    }

    closed spec fn add_spec(self, rhs: Zq) -> Zq {
        Zq { value: add_mod(self.value as nat, rhs.value as nat) as u64 }
    }
}

impl Add for Zq {
    type Output = Zq;

    fn add(self, rhs: Zq) -> (r: Zq)
        ensures
            r@ == add_mod(self@, rhs@),
    {
        proof {
            use_type_invariant(&self);
            use_type_invariant(&rhs);
        }
        Zq::new(self.value + rhs.value)
    }
}

impl<'a> vstd::std_specs::ops::AddSpecImpl<&'a Zq> for Zq {
    open spec fn obeys_add_spec() -> bool {
        true
    }

    open spec fn add_req(self, rhs: &'a Zq) -> bool {
        true
    }

    closed spec fn add_spec(self, rhs: &'a Zq) -> Zq {
        Zq { value: add_mod(self.value as nat, rhs.value as nat) as u64 }
    }
}

impl<'a> Add<&'a Zq> for Zq {
    type Output = Zq;

    fn add(self, rhs: &'a Zq) -> (r: Zq)
        ensures
            r@ == add_mod(self@, rhs@),
    {
        proof {
            use_type_invariant(&self);
            use_type_invariant(rhs);
        }
        Zq::new(self.value + rhs.value)
    }
}

impl AddAssign for Zq {
    fn add_assign(&mut self, rhs: Zq)
        ensures
            final(self)@ == add_mod(old(self)@, rhs@),
    {
        proof {
            use_type_invariant(&*self);
            use_type_invariant(&rhs);
        }
        self.value = (self.value + rhs.value) % ZQ_MODULUS;
    }
}

impl<'a> AddAssign<&'a Zq> for Zq {
    fn add_assign(&mut self, rhs: &'a Zq)
        ensures
            final(self)@ == add_mod(old(self)@, rhs@),
    {
        proof {
            use_type_invariant(&*self);
            use_type_invariant(rhs);
        }
        self.value = (self.value + rhs.value) % ZQ_MODULUS;
    }
}

impl vstd::std_specs::ops::MulSpecImpl for Zq {
    open spec fn obeys_mul_spec() -> bool {
        true
    }

    open spec fn mul_req(self, rhs: Zq) -> bool {
        true
    }

    closed spec fn mul_spec(self, rhs: Zq) -> Zq {
        Zq { value: mul_mod(self.value as nat, rhs.value as nat) as u64 }
    }
}

impl Mul for Zq {
    type Output = Zq;

    fn mul(self, rhs: Zq) -> (r: Zq)
        ensures
            r@ == mul_mod(self@, rhs@),
    {
        proof {
            use_type_invariant(&self);
            use_type_invariant(&rhs);
            lemma_mul_upper_bound(self.value as int, 16, rhs.value as int, 16);
        }
        Zq::new(self.value * rhs.value)
    }
}

impl<'a> vstd::std_specs::ops::MulSpecImpl<&'a Zq> for Zq {
    open spec fn obeys_mul_spec() -> bool {
        true
    }

    open spec fn mul_req(self, rhs: &'a Zq) -> bool {
        true
    }

    closed spec fn mul_spec(self, rhs: &'a Zq) -> Zq {
        Zq { value: mul_mod(self.value as nat, rhs.value as nat) as u64 }
    }
}

impl<'a> Mul<&'a Zq> for Zq {
    type Output = Zq;

    fn mul(self, rhs: &'a Zq) -> (r: Zq)
        ensures
            r@ == mul_mod(self@, rhs@),
    {
        proof {
            use_type_invariant(&self);
            use_type_invariant(rhs);
            lemma_mul_upper_bound(self.value as int, 16, rhs.value as int, 16);
        }
        Zq::new(self.value * rhs.value)
    }
}

impl MulAssign for Zq {
    fn mul_assign(&mut self, rhs: Zq)
        ensures
            final(self)@ == mul_mod(old(self)@, rhs@),
    {
        proof {
            use_type_invariant(&*self);
            use_type_invariant(&rhs);
            lemma_mul_upper_bound(self.value as int, 16, rhs.value as int, 16);
        }
        self.value = (self.value * rhs.value) % ZQ_MODULUS;
    }
}

impl<'a> MulAssign<&'a Zq> for Zq {
    fn mul_assign(&mut self, rhs: &'a Zq)
        ensures
            final(self)@ == mul_mod(old(self)@, rhs@),
    {
        proof {
            use_type_invariant(&*self);
            use_type_invariant(rhs);
            lemma_mul_upper_bound(self.value as int, 16, rhs.value as int, 16);
        }
        self.value = (self.value * rhs.value) % ZQ_MODULUS;
    }
}

impl vstd::std_specs::ops::NegSpecImpl for Zq {
    open spec fn obeys_neg_spec() -> bool {
        true
    }

    open spec fn neg_req(self) -> bool {
        true
    }

    closed spec fn neg_spec(self) -> Zq {
        Zq { value: neg_mod(self.value as nat) as u64 }
    }
}

impl Neg for Zq {
    type Output = Zq;

    fn neg(self) -> (r: Zq)
        ensures
            r@ == neg_mod(self@),
    {
        proof {
            use_type_invariant(&self);
        }
        let value = if self.value == 0 {
            0
        } else {
            ZQ_MODULUS - self.value
        };
        Zq { value }
    }
}

impl vstd::std_specs::ops::SubSpecImpl for Zq {
    open spec fn obeys_sub_spec() -> bool {
        true
    }

    open spec fn sub_req(self, rhs: Zq) -> bool {
        true
    }

    closed spec fn sub_spec(self, rhs: Zq) -> Zq {
        Zq { value: sub_mod(self.value as nat, rhs.value as nat) as u64 }
    }
}

impl Sub for Zq {
    type Output = Zq;

    /// `a - b mod q = (a + (q - b)) mod q`.
    fn sub(self, rhs: Zq) -> (r: Zq)
        ensures
            r@ == sub_mod(self@, rhs@),
    {
        proof {
            use_type_invariant(&self);
            use_type_invariant(&rhs);
        }
        Zq::new(self.value + ZQ_MODULUS - rhs.value)
    }
}

impl SubAssign for Zq {
    fn sub_assign(&mut self, rhs: Zq)
        ensures
            final(self)@ == sub_mod(old(self)@, rhs@),
    {
        proof {
            use_type_invariant(&*self);
            use_type_invariant(&rhs);
        }
        self.value = (self.value + ZQ_MODULUS - rhs.value) % ZQ_MODULUS;
    }
}

impl vstd::std_specs::ops::DivSpecImpl for Zq {
    open spec fn obeys_div_spec() -> bool {
        true
    }

    open spec fn div_req(self, rhs: Zq) -> bool {
        rhs@ != 0
    }

    closed spec fn div_spec(self, rhs: Zq) -> Zq {
        choose|r: Zq| r.value < ZQ_MODULUS && mul_mod(r.value as nat, rhs.value as nat) == self.value
    }
}

impl Div for Zq {
    type Output = Zq;

    /// The quotient `self * rhs^(-1)`: the residue that `rhs` multiplies back to `self`.
    /// Dividing by zero is left out by the requirement `rhs != 0`.
    fn div(self, rhs: Zq) -> (r: Zq)
        ensures
            r@ < ZQ_MODULUS,
            mul_mod(r@, rhs@) == self@,
    {
        proof {
            use_type_invariant(&self);
            use_type_invariant(&rhs);
            lemma_nonzero_coprime(rhs.value as nat);
        }
        let inv = Self::inverse(rhs.value as i64, ZQ_MODULUS as i64).unwrap();
        proof {
            lemma_mul_upper_bound(self.value as int, 16, inv as int, 16);
            lemma_quotient(self@, rhs@, inv as nat);
        }
        let r = Self::new(self.value * inv);
        proof {
            let c = choose|c: Zq| c.value < ZQ_MODULUS && mul_mod(c.value as nat, rhs.value as nat) == self.value;
            assert(r.value < ZQ_MODULUS && mul_mod(r.value as nat, rhs.value as nat) == self.value);
            lemma_quotient_unique(c.value as nat, r.value as nat, rhs.value as nat);
            assert(r == c);
        }
        r
    }
}

/// `((a * inv) mod q) * b = a (mod q)` when `b * inv = 1 (mod q)` and `a < q`.
proof fn lemma_quotient(a: nat, b: nat, inv: nat)
    requires
        a < ZQ_MODULUS,
        (b * inv) % (ZQ_MODULUS as nat) == 1,
    ensures
        (((a * inv) % (ZQ_MODULUS as nat)) * b) % (ZQ_MODULUS as nat) == a,
{
    let qm = ZQ_MODULUS as int;
    lemma_mul_mod_noop_left((a * inv) as int, b as int, qm);
    assert((a * inv) * b == a * (b * inv)) by (nonlinear_arith);
    lemma_mul_mod_noop_right(a as int, (b * inv) as int, qm);
    lemma_small_mod(a, ZQ_MODULUS as nat);
}

/// Addition in `Z_q` is commutative.
pub proof fn lemma_add_commutative(a: nat, b: nat)
    ensures
        add_mod(a, b) == add_mod(b, a),
{
}

/// Addition in `Z_q` is associative.
pub proof fn lemma_add_associative(a: nat, b: nat, c: nat)
    ensures
        add_mod(add_mod(a, b), c) == add_mod(a, add_mod(b, c)),
{
    let qm = ZQ_MODULUS as int;
    assert(add_mod(add_mod(a, b), c) == (a + b + c) % 17) by {
        lemma_add_mod_noop_right(c as int, (a + b) as int, qm);
    }
    assert(add_mod(a, add_mod(b, c)) == (a + b + c) % 17) by {
        lemma_add_mod_noop_right(a as int, (b + c) as int, qm);
    }
}

/// Multiplication in `Z_q` is commutative.
pub proof fn lemma_mul_commutative(a: nat, b: nat)
    ensures
        mul_mod(a, b) == mul_mod(b, a),
{
    lemma_mul_is_commutative(a as int, b as int);
}

/// Multiplication in `Z_q` is associative.
pub proof fn lemma_mul_associative(a: nat, b: nat, c: nat)
    ensures
        mul_mod(mul_mod(a, b), c) == mul_mod(a, mul_mod(b, c)),
{
    let qm = ZQ_MODULUS as int;
    lemma_mul_mod_noop_left((a * b) as int, c as int, qm);
    lemma_mul_mod_noop_right(a as int, (b * c) as int, qm);
    lemma_mul_is_associative(a as int, b as int, c as int);
}

/// Multiplication distributes over addition in `Z_q`.
pub proof fn lemma_mul_distributes_over_add(a: nat, b: nat, c: nat)
    ensures
        mul_mod(a, add_mod(b, c)) == add_mod(mul_mod(a, b), mul_mod(a, c)),
{
    let qm = ZQ_MODULUS as int;
    lemma_mul_mod_noop_right(a as int, (b + c) as int, qm);
    lemma_mul_is_distributive_add(a as int, b as int, c as int);
    lemma_add_mod_noop((a * b) as int, (a * c) as int, qm);
}

/// Zero is the additive identity and one the multiplicative identity of `Z_q`.
pub proof fn lemma_identities(a: nat)
    requires
        a < ZQ_MODULUS,
    ensures
        add_mod(a, 0) == a,
        mul_mod(a, 1) == a,
        mul_mod(a, 0) == 0,
{
}

/// Every element plus its negation is zero.
pub proof fn lemma_additive_inverse(a: nat)
    ensures
        add_mod(a, neg_mod(a)) == 0,
{
    let qm = ZQ_MODULUS as int;
    lemma_mod_bound(0 - a, qm);
    lemma_add_mod_noop_right(a as int, 0 - a, qm);
}

/// Subtraction is addition of the negation: `a - b = a + (q - b) (mod q)`.
pub proof fn lemma_sub_is_add_neg(a: nat, b: nat)
    ensures
        sub_mod(a, b) == add_mod(a, neg_mod(b)),
{
    let qm = ZQ_MODULUS as int;
    lemma_mod_bound(0 - b, qm);
    lemma_add_mod_noop_right(a as int, 0 - b, qm);
}

/// Every element that is not zero modulo `q` has a multiplicative inverse.
pub proof fn lemma_multiplicative_inverse(b: nat)
    requires
        b % (ZQ_MODULUS as nat) != 0,
    ensures
        exists|x: nat| x < ZQ_MODULUS && #[trigger] mul_mod(b, x) == 1,
{
    let qm = ZQ_MODULUS as int;
    let r = b % 17;
    let x: nat = if r == 1 {
        1
    } else if r == 2 {
        9
    } else if r == 3 {
        6
    } else if r == 4 {
        13
    } else if r == 5 {
        7
    } else if r == 6 {
        3
    } else if r == 7 {
        5
    } else if r == 8 {
        15
    } else if r == 9 {
        2
    } else if r == 10 {
        12
    } else if r == 11 {
        14
    } else if r == 12 {
        10
    } else if r == 13 {
        4
    } else if r == 14 {
        11
    } else if r == 15 {
        8
    } else {
        16
    };
    lemma_mul_mod_noop_left(b as int, x as int, qm);
    assert(mul_mod(b, x) == 1);
}

/// A quotient in `Z_q` is unique: if `r1 * b = r2 * b (mod q)` with `b` nonzero, then `r1 = r2`.
pub proof fn lemma_quotient_unique(r1: nat, r2: nat, b: nat)
    requires
        r1 < ZQ_MODULUS,
        r2 < ZQ_MODULUS,
        b % (ZQ_MODULUS as nat) != 0,
        mul_mod(r1, b) == mul_mod(r2, b),
    ensures
        r1 == r2,
{
    let qm = ZQ_MODULUS as int;
    lemma_multiplicative_inverse(b);
    let x = choose|x: nat| x < ZQ_MODULUS && #[trigger] mul_mod(b, x) == 1;
    assert forall|r: nat| r < ZQ_MODULUS implies mul_mod(mul_mod(r, b), x) == r by {
        lemma_mul_associative(r, b, x);
        assert(mul_mod(b, x) == 1);
        assert(mul_mod(r, 1) == r % 17);
        lemma_small_mod(r, 17);
    }
    assert(mul_mod(mul_mod(r1, b), x) == r1);
    assert(mul_mod(mul_mod(r2, b), x) == r2);
}

/// Fermat's little theorem in `Z_q`: `a^(q-1) = 1` for every `a` that is not zero modulo `q`.
pub proof fn lemma_fermat(a: nat)
    requires
        a % (ZQ_MODULUS as nat) != 0,
    ensures
        pow_mod(a, 16) == 1,
{
    let qm = ZQ_MODULUS as int;
    lemma_pow_mod_noop(a as int, 16, qm);
    let r = a % 17;
    reveal_with_fuel(pow, 17);
    assert(pow(1, 16) % 17 == 1);
    assert(pow(2, 16) % 17 == 1);
    assert(pow(3, 16) % 17 == 1);
    assert(pow(4, 16) % 17 == 1);
    assert(pow(5, 16) % 17 == 1);
    assert(pow(6, 16) % 17 == 1);
    assert(pow(7, 16) % 17 == 1);
    assert(pow(8, 16) % 17 == 1);
    assert(pow(9, 16) % 17 == 1);
    assert(pow(10, 16) % 17 == 1);
    assert(pow(11, 16) % 17 == 1);
    assert(pow(12, 16) % 17 == 1);
    assert(pow(13, 16) % 17 == 1);
    assert(pow(14, 16) % 17 == 1);
    assert(pow(15, 16) % 17 == 1);
    assert(pow(16, 16) % 17 == 1);
}

/// `(a + b) - (c + d) = (a - c) + (b - d)` in `Z_q`.
pub proof fn lemma_sub_of_sums(a: nat, b: nat, c: nat, d: nat)
    ensures
        sub_mod(add_mod(a, b), add_mod(c, d)) == add_mod(sub_mod(a, c), sub_mod(b, d)),
{
    let qm = ZQ_MODULUS as int;
    lemma_sub_mod_noop((a + b) as int, (c + d) as int, qm);
    lemma_add_mod_noop(a - c, b - d, qm);
    assert((a + b) - (c + d) == (a - c) + (b - d));
}

/// `(x + y) + (p + q) = (x + p) + (y + q)` in `Z_q`.
pub proof fn lemma_add_swap_middle(x: nat, y: nat, p: nat, q: nat)
    ensures
        add_mod(add_mod(x, y), add_mod(p, q)) == add_mod(add_mod(x, p), add_mod(y, q)),
{
    let qm = ZQ_MODULUS as int;
    lemma_add_mod_noop((x + y) as int, (p + q) as int, qm);
    lemma_add_mod_noop((x + p) as int, (y + q) as int, qm);
    lemma_mod_twice((x + y) as int, qm);
    lemma_mod_twice((p + q) as int, qm);
    lemma_mod_twice((x + p) as int, qm);
    lemma_mod_twice((y + q) as int, qm);
    lemma_add_mod_noop(x as int, y as int, qm);
    assert(add_mod(add_mod(x, y), add_mod(p, q)) == (x + y + p + q) % 17) by {
        lemma_add_mod_noop((x + y) as int, (p + q) as int, qm);
    }
    assert(add_mod(add_mod(x, p), add_mod(y, q)) == (x + p + y + q) % 17) by {
        lemma_add_mod_noop((x + p) as int, (y + q) as int, qm);
    }
}

/// Zero times anything is zero in `Z_q`.
pub proof fn lemma_mul_zero(x: nat)
    ensures
        mul_mod(0, x) == 0,
        mul_mod(x, 0) == 0,
{
    lemma_mul_basics(x as int);
}

} // verus!
