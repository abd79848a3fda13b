use crate::poly::laws::{
    lemma_mul_canonical, lemma_poly_add_associative, lemma_poly_add_commutative,
    lemma_poly_mul_associative, lemma_poly_mul_commutative, lemma_poly_mul_one,
    lemma_reduce_add_left, lemma_reduce_multiple_zero, lemma_reduce_mul_left, lemma_trim_by_coeffs,
    x_n_plus_one,
};
use crate::poly::{
    canonical, degree_of, eval, fold_negacyclic, lemma_reduce_bounded, lemma_trim_reduce,
    poly_add, poly_mul, poly_sub, reduce, residues, set_coeff, trim, Polynomial,
};
use crate::ring::zq::{Zq, ZQ_MODULUS};
use crate::ring::{PolynomialRingTrait, Ring};
use crate::text::{append_decimal, decimal, is_numeral, lemma_decimal_is_numeral, lemma_decimal_nonempty};
use rand::rngs::ThreadRng;
use std::ops::{Add, AddAssign, Mul, MulAssign, Sub, SubAssign};
use vstd::prelude::*;

verus! {

/// The coefficient list of `x^n + 1`; for `n = 0`, the constant `2`.
pub open spec fn modulus_seq(n: nat) -> Seq<nat> {
    if n == 0 {
        seq![2nat]
    } else {
        x_n_plus_one(n)
    }
}

/// The text of one nonzero term `c * x^i`: `c`, `x`, `cx`, `x^i` or `cx^i`.
pub open spec fn render_term(c: nat, i: nat) -> Seq<char> {
    if i == 0 {
        decimal(c)
    } else if i == 1 {
        if c == 1 {
            seq!['x']
        } else {
            decimal(c) + seq!['x']
        }
    } else if c == 1 {
        seq!['x', '^'] + decimal(i)
    } else {
        decimal(c) + seq!['x', '^'] + decimal(i)
    }
}

/// The nonzero terms of `s` of degree at least `i`, highest degree first, joined by `" + "`.
pub open spec fn render_from(s: Seq<nat>, i: int) -> Seq<char>
    decreases s.len() - i,
{
    if i < 0 || i >= s.len() {
        Seq::empty()
    } else {
        let above = render_from(s, i + 1);
        if s[i] == 0 {
            above
        } else if above.len() == 0 {
            render_term(s[i], i as nat)
        } else {
            above + seq![' ', '+', ' '] + render_term(s[i], i as nat)
        }
    }
}

/// The text of the polynomial `s`: `"0"` for no coefficients or the single coefficient 0,
/// and otherwise its nonzero terms, highest degree first, joined by `" + "`.
pub open spec fn render(s: Seq<nat>) -> Seq<char> {
    if s.len() == 0 || (s.len() == 1 && s[0] == 0) {
        seq!['0']
    } else {
        render_from(s, 0)
    }
}

/// A term's text is never empty.
proof fn lemma_render_term_nonempty(c: nat, i: nat)
    ensures
        render_term(c, i).len() >= 1,
{
    lemma_decimal_nonempty(c);
    lemma_decimal_nonempty(i);
}

/// How the text of a term `c * x^i` reads: for `i == 0` it is the numeral of `c`; otherwise it
/// holds one `x`, before which stands nothing when `c == 1` and the numeral of `c` else, and after
/// which stands nothing when `i == 1` and, when `i >= 2`, a `^` followed by the full numeral of `i`.
pub proof fn lemma_render_term_reads_back(c: nat, i: nat)
    ensures
        i == 0 ==> is_numeral(render_term(c, i), c),
        i >= 1 ==> exists|k: int|
            0 <= k < render_term(c, i).len() && #[trigger] render_term(c, i)[k] == 'x' && (if c
                == 1 {
                k == 0
            } else {
                is_numeral(render_term(c, i).subrange(0, k), c)
            }) && (if i == 1 {
                k + 1 == render_term(c, i).len()
            } else {
                k + 2 < render_term(c, i).len() && render_term(c, i)[k + 1] == '^' && is_numeral(
                    render_term(c, i).subrange(k + 2, render_term(c, i).len() as int),
                    i,
                )
            }),
{
    lemma_decimal_is_numeral(c);
    lemma_decimal_is_numeral(i);
    let t = render_term(c, i);
    if i == 1 {
        if c == 1 {
            assert(t[0] == 'x');
        } else {
            let k = decimal(c).len() as int;
            assert(t[k] == 'x');
            assert(t.subrange(0, k) =~= decimal(c));
        }
    } else if i >= 2 {
        let p = if c == 1 { Seq::<char>::empty() } else { decimal(c) };
        let k = p.len() as int;
        assert(t =~= p + seq!['x', '^'] + decimal(i));
        assert(t[k] == 'x');
        assert(t[k + 1] == '^');
        assert(t.subrange(0, k) =~= p);
        assert(t.subrange(k + 2, t.len() as int) =~= decimal(i));
    }
}

/// Appends the text of the term `c * x^i` to `out`.
fn append_term(out: &mut String, c: Zq, i: usize)
    ensures
        final(out)@ == old(out)@ + render_term(c@, i as nat),
{
    let one = Zq::one();
    proof {
        Zq::lemma_view_injective(c, one);
    }
    if i == 0 {
        out.append(c.to_string().as_str());
    } else if i == 1 {
        if c == one {
            out.append("x");
            proof {
                reveal_strlit("x");
            }
        } else {
            out.append(c.to_string().as_str());
            out.append("x");
            proof {
                reveal_strlit("x");
            }
        }
    } else {
        if c == one {
            out.append("x^");
            proof {
                reveal_strlit("x^");
            }
            append_decimal(out, i as u64);
        } else {
            out.append(c.to_string().as_str());
            out.append("x^");
            proof {
                reveal_strlit("x^");
            }
            append_decimal(out, i as u64);
        }
    }
    proof {
        assert(out@ =~= old(out)@ + render_term(c@, i as nat));
    }
}

/// An element of the polynomial ring `Z_q[x]/(x^n+1)`, `n` being `DEGREE_BOUND`.
#[derive(Debug, PartialEq, Eq, PartialOrd, Ord)]
pub struct RingPolynomial<const DEGREE_BOUND: u64> {
    pub inner: Polynomial,
}

impl<const DEGREE_BOUND: u64> Clone for RingPolynomial<DEGREE_BOUND> {
    /// A copy with the same coefficients.
    fn clone(&self) -> (r: Self)
        ensures
            r@ == self@,
    {
        RingPolynomial { inner: self.inner.clone() }
    }
}

impl<const DEGREE_BOUND: u64> View for RingPolynomial<DEGREE_BOUND> {
    type V = Seq<nat>;

    /// The coefficients of the inner polynomial, lowest degree first.
    open spec fn view(&self) -> Seq<nat> {
        self.inner@
    }
}

impl<const DEGREE_BOUND: u64> RingPolynomial<DEGREE_BOUND> {
    /// The class of `poly`: its remainder modulo `x^n + 1`, which has at most `n`
    /// coefficients (degree below `n`) and no trailing zero.
    pub fn new(poly: Polynomial) -> (r: Self)
        ensures
            r@ == reduce(poly@, DEGREE_BOUND as nat),
            r@.len() <= DEGREE_BOUND,
            r@.len() == 0 || r@.last() != 0,
            canonical(r@),
    {
        let inner = poly.rem_negacyclic(DEGREE_BOUND);
        proof {
            lemma_reduce_bounded(poly@, DEGREE_BOUND as nat);
            use_type_invariant(&inner);
        }
        Self { inner }
    }

    /// The text of the polynomial, e.g. `"3x^2 + x + 5"`; `"0"` for the zero polynomial.
    pub fn to_string(&self) -> (out: String)
        ensures
            out@ == render(self@),
    {
        let coeffs = self.coefficients();
        let ghost s = self@;
        let zero = Zq::zero();
        let mut out = String::new();
        if coeffs.len() == 0 {
            out.append("0");
            proof {
                reveal_strlit("0");
            }
            return out;
        }
        if coeffs.len() == 1 {
            let c0 = coeffs[0];
            proof {
                Zq::lemma_view_injective(c0, zero);
                assert(s[0] == c0@);
            }
            if c0 == zero {
                out.append("0");
                proof {
                    reveal_strlit("0");
                }
                return out;
            }
        }
        let mut first = true;
        let mut i = coeffs.len();
        proof {
            assert(out@ =~= render_from(s, i as int));
        }
        while i > 0
            invariant
                i <= coeffs@.len() == s.len(),
                residues(coeffs@) == s,
                zero@ == 0,
                out@ == render_from(s, i as int),
                first == (out@.len() == 0),
            decreases i,
        {
            i = i - 1;
            let c = coeffs[i];
            proof {
                assert(s[i as int] == c@);
                Zq::lemma_view_injective(c, zero);
                lemma_render_term_nonempty(c@, i as nat);
            }
            if c != zero {
                let ghost above = out@;
                if !first {
                    out.append(" + ");
                    proof {
                        reveal_strlit(" + ");
                    }
                }
                first = false;
                let ghost before_term = out@;
                append_term(&mut out, c, i);
                proof {
                    assert(out@ =~= before_term + render_term(c@, i as nat));
                    assert(out@ =~= render_from(s, i as int));
                }
            }
        }
        proof {
            assert(s.len() == 0 || !(s.len() == 1 && s[0] == 0));
        }
        out
    }
}

impl<const DEGREE_BOUND: u64> PolynomialRingTrait for RingPolynomial<DEGREE_BOUND> {
    type PolyType = Polynomial;

    type PolyCoeff = Zq;

    open spec fn bound_degree() -> nat {
        DEGREE_BOUND as nat
    }

    /// `x^n + 1`; for `n = 0`, the constant `2`.
    fn modulus() -> (m: Polynomial)
        ensures
            m@ == modulus_seq(DEGREE_BOUND as nat),
    {
        let coeffs = if DEGREE_BOUND == 0 {
            let mut c: Vec<Zq> = Vec::new();
            c.push(Zq::from(2u64));
            c
        } else {
            let n = DEGREE_BOUND as usize;
            let mut c: Vec<Zq> = Vec::new();
            while c.len() <= n
                invariant
                    n == DEGREE_BOUND,
                    n < usize::MAX,
                    c@.len() <= n + 1,
                    forall|k: int| 0 <= k < c@.len() ==> #[trigger] c@[k]@ == 0,
                decreases n + 1 - c.len(),
            {
                c.push(Zq::zero());
            }
            c.set(0, Zq::one());
            c.set(n, Zq::one());
            c
        };
        let m = Polynomial::from_coefficients(coeffs);
        proof {
            assert(m@ =~= modulus_seq(DEGREE_BOUND as nat));
        }
        m
    }

    fn normalize(&mut self)
        ensures
            final(self)@ == trim(old(self)@),
            canonical(final(self)@),
    {
        self.inner.normalize();
        proof {
            use_type_invariant(&self.inner);
        }
    }

    /// The class of a random polynomial with `degree + 1` coefficients. May unwind, through
    /// the generator, when the operating system's entropy source fails while it reseeds.
    fn rand(rng: &mut ThreadRng, degree: usize) -> (r: Self)
        ensures
            exists|s: Seq<nat>|
                s.len() == degree + 1 && (forall|i: int| 0 <= i < s.len() ==> #[trigger] s[i]
                    < ZQ_MODULUS) && r@ == reduce(s, DEGREE_BOUND as nat),
            canonical(r@),
    {
        let p = Polynomial::rand(rng, degree);
        Self::new(p)
    }

    /// The class of a random polynomial with `n + 1` coefficients. May unwind as `rand` may.
    fn rand_with_bound_degree(rng: &mut ThreadRng) -> (r: Self)
        ensures
            exists|s: Seq<nat>|
                s.len() == DEGREE_BOUND + 1 && (forall|i: int| 0 <= i < s.len() ==> #[trigger] s[i]
                    < ZQ_MODULUS) && r@ == reduce(s, DEGREE_BOUND as nat),
            canonical(r@),
    {
        Self::rand(rng, DEGREE_BOUND as usize)
    }

    fn zero() -> (r: Self)
        ensures
            r@ == Seq::<nat>::empty(),
    {
        Self::new(Polynomial::zero())
    }

    fn degree(&self) -> (d: usize)
        ensures
            d == degree_of(self@),
    {
        self.inner.degree()
    }

    fn set_coefficient(&mut self, i: usize, value: Zq)
        ensures
            final(self)@ == set_coeff(old(self)@, i as nat, value@),
            canonical(final(self)@),
    {
        self.inner.set_coefficient(i, value);
        proof {
            use_type_invariant(&self.inner);
        }
    }

    fn evaluate(&self, x: &Zq) -> (r: Zq)
        ensures
            r@ == eval(self@, x@),
    {
        self.inner.evaluate(x)
    }

    fn from_coefficients(coeffs: Vec<Zq>) -> (r: Self)
        ensures
            r@ == reduce(residues(coeffs@), DEGREE_BOUND as nat),
            canonical(r@),
    {
        Self::new(Polynomial::from_coefficients(coeffs))
    }

    fn coefficients(&self) -> (v: Vec<Zq>)
        ensures
            residues(v@) == self@,
    {
        self.inner.coefficients()
    }

    fn is_zero(&self) -> (z: bool)
        ensures
            z == (forall|i: int| 0 <= i < self@.len() ==> self@[i] == 0),
    {
        let z = self.inner.is_zero();
        proof {
            let s = self.inner@;
            assert(self@ == s);
            assert(z == (forall|i: int| 0 <= i < s.len() ==> s[i] == 0));
        }
        z
    }
}

impl<const DEGREE_BOUND: u64> vstd::std_specs::ops::AddSpecImpl for RingPolynomial<DEGREE_BOUND> {
    /// The sum is stated by `add`'s own `ensures`, over the view: a polynomial value
    /// cannot be built in spec code.
    open spec fn obeys_add_spec() -> bool {
        false
    }

    open spec fn add_req(self, rhs: Self) -> bool {
        true
    }

    open spec fn add_spec(self, rhs: Self) -> Self {
        self
    }
}

impl<const DEGREE_BOUND: u64> Add for RingPolynomial<DEGREE_BOUND> {
    type Output = Self;

    fn add(self, rhs: Self) -> (r: Self)
        ensures
            r@ == reduce(poly_add(self@, rhs@), DEGREE_BOUND as nat),
            canonical(r@),
    {
        let sum = self.inner.add(&rhs.inner);
        proof {
            lemma_trim_reduce(poly_add(self@, rhs@), DEGREE_BOUND as nat);
        }
        Self::new(sum)
    }
}

impl<'a, const DEGREE_BOUND: u64> vstd::std_specs::ops::AddSpecImpl<&'a Self> for RingPolynomial<DEGREE_BOUND> {
    /// The sum is stated by `add`'s own `ensures`, over the view.
    open spec fn obeys_add_spec() -> bool {
        false
    }

    open spec fn add_req(self, rhs: &'a Self) -> bool {
        true
    }

    open spec fn add_spec(self, rhs: &'a Self) -> Self {
        self
    }
}

impl<'a, const DEGREE_BOUND: u64> Add<&'a Self> for RingPolynomial<DEGREE_BOUND> {
    type Output = Self;

    fn add(self, rhs: &'a Self) -> (r: Self)
        ensures
            r@ == reduce(poly_add(self@, rhs@), DEGREE_BOUND as nat),
            canonical(r@),
    {
        let sum = self.inner.add(&rhs.inner);
        proof {
            lemma_trim_reduce(poly_add(self@, rhs@), DEGREE_BOUND as nat);
        }
        Self::new(sum)
    }
}

impl<const DEGREE_BOUND: u64> AddAssign for RingPolynomial<DEGREE_BOUND> {
    /// Adds the coefficients in place, without trailing zeros; the sum is not reduced
    /// modulo `x^n + 1`.
    fn add_assign(&mut self, rhs: Self)
        ensures
            final(self)@ == trim(poly_add(old(self)@, rhs@)),
            canonical(final(self)@),
    {
        self.inner = self.inner.add(&rhs.inner);
        proof {
            use_type_invariant(&self.inner);
        }
    }
}

impl<const DEGREE_BOUND: u64> vstd::std_specs::ops::MulSpecImpl for RingPolynomial<DEGREE_BOUND> {
    /// The product is stated by `mul`'s own `ensures`, over the view.
    open spec fn obeys_mul_spec() -> bool {
        false
    }

    open spec fn mul_req(self, rhs: Self) -> bool {
        self@.len() + rhs@.len() <= usize::MAX
    }

    open spec fn mul_spec(self, rhs: Self) -> Self {
        self
    }
}

impl<const DEGREE_BOUND: u64> Mul for RingPolynomial<DEGREE_BOUND> {
    type Output = Self;

    /// The product reduced modulo `x^n + 1`.
    fn mul(self, rhs: Self) -> (r: Self)
        ensures
            r@ == reduce(poly_mul(self@, rhs@), DEGREE_BOUND as nat),
            canonical(r@),
    {
        let product = self.inner.mul(&rhs.inner);
        let module_one = product.rem_negacyclic(DEGREE_BOUND);
        proof {
            lemma_trim_reduce(poly_mul(self@, rhs@), DEGREE_BOUND as nat);
            crate::poly::lemma_reduce_idempotent(poly_mul(self@, rhs@), DEGREE_BOUND as nat);
        }
        Self::new(module_one)
    }
}

impl<'a, const DEGREE_BOUND: u64> vstd::std_specs::ops::MulSpecImpl<&'a Self> for RingPolynomial<DEGREE_BOUND> {
    /// The product is stated by `mul`'s own `ensures`, over the view.
    open spec fn obeys_mul_spec() -> bool {
        false
    }

    open spec fn mul_req(self, rhs: &'a Self) -> bool {
        self@.len() + rhs@.len() <= usize::MAX
    }

    open spec fn mul_spec(self, rhs: &'a Self) -> Self {
        self
    }
}

impl<'a, const DEGREE_BOUND: u64> Mul<&'a Self> for RingPolynomial<DEGREE_BOUND> {
    type Output = Self;

    /// The product reduced modulo `x^n + 1`.
    fn mul(self, rhs: &'a Self) -> (r: Self)
        ensures
            r@ == reduce(poly_mul(self@, rhs@), DEGREE_BOUND as nat),
            canonical(r@),
    {
        let product = self.inner.mul(&rhs.inner);
        let module_one = product.rem_negacyclic(DEGREE_BOUND);
        proof {
            lemma_trim_reduce(poly_mul(self@, rhs@), DEGREE_BOUND as nat);
            crate::poly::lemma_reduce_idempotent(poly_mul(self@, rhs@), DEGREE_BOUND as nat);
        }
        Self::new(module_one)
    }
}

impl<const DEGREE_BOUND: u64> MulAssign for RingPolynomial<DEGREE_BOUND> {
    /// The product reduced modulo `x^n + 1`: the same value as `*` gives.
    fn mul_assign(&mut self, rhs: Self)
        requires
            old(self)@.len() + rhs@.len() <= usize::MAX,
        ensures
            final(self)@ == reduce(poly_mul(old(self)@, rhs@), DEGREE_BOUND as nat),
            canonical(final(self)@),
    {
        let product = self.inner.mul(&rhs.inner);
        proof {
            lemma_trim_reduce(poly_mul(old(self)@, rhs@), DEGREE_BOUND as nat);
        }
        self.inner = product.rem_negacyclic(DEGREE_BOUND);
        proof {
            use_type_invariant(&self.inner);
        }
    }
}

impl<const DEGREE_BOUND: u64> vstd::std_specs::ops::SubSpecImpl for RingPolynomial<DEGREE_BOUND> {
    /// The difference is stated by `sub`'s own `ensures`, over the view.
    open spec fn obeys_sub_spec() -> bool {
        false
    }

    open spec fn sub_req(self, rhs: Self) -> bool {
        true
    }

    open spec fn sub_spec(self, rhs: Self) -> Self {
        self
    }
}

impl<const DEGREE_BOUND: u64> Sub for RingPolynomial<DEGREE_BOUND> {
    type Output = Self;

    fn sub(self, rhs: Self) -> (r: Self)
        ensures
            r@ == reduce(poly_sub(self@, rhs@), DEGREE_BOUND as nat),
            canonical(r@),
    {
        let difference = self.inner.sub(&rhs.inner);
        proof {
            lemma_trim_reduce(poly_sub(self@, rhs@), DEGREE_BOUND as nat);
        }
        Self::new(difference)
    }
}

impl<'a, const DEGREE_BOUND: u64> vstd::std_specs::ops::SubSpecImpl<&'a Self> for RingPolynomial<DEGREE_BOUND> {
    /// The result is stated by `sub`'s own `ensures`, over the view.
    open spec fn obeys_sub_spec() -> bool {
        false
    }

    open spec fn sub_req(self, rhs: &'a Self) -> bool {
        true
    }

    open spec fn sub_spec(self, rhs: &'a Self) -> Self {
        self
    }
}

impl<'a, const DEGREE_BOUND: u64> Sub<&'a Self> for RingPolynomial<DEGREE_BOUND> {
    type Output = Self;

    /// The difference reduced modulo `x^n + 1`.
    fn sub(self, rhs: &'a Self) -> (r: Self)
        ensures
            r@ == reduce(poly_sub(self@, rhs@), DEGREE_BOUND as nat),
            canonical(r@),
    {
        let difference = self.inner.sub(&rhs.inner);
        proof {
            lemma_trim_reduce(poly_sub(self@, rhs@), DEGREE_BOUND as nat);
        }
        Self::new(difference)
    }
}

impl<const DEGREE_BOUND: u64> SubAssign for RingPolynomial<DEGREE_BOUND> {
    /// Subtracts the coefficients in place, without trailing zeros; the difference is not
    /// reduced modulo `x^n + 1`.
    fn sub_assign(&mut self, rhs: Self)
        ensures
            final(self)@ == trim(poly_sub(old(self)@, rhs@)),
            canonical(final(self)@),
    {
        self.inner = self.inner.sub(&rhs.inner);
        proof {
            use_type_invariant(&self.inner);
        }
    }
}

/// Addition in `Z_q[x]/(x^n + 1)` is commutative.
pub proof fn lemma_ring_add_commutative(a: Seq<nat>, b: Seq<nat>, n: nat)
    ensures
        reduce(poly_add(a, b), n) == reduce(poly_add(b, a), n),
{
    lemma_poly_add_commutative(a, b);
}

/// Addition in `Z_q[x]/(x^n + 1)` is associative.
pub proof fn lemma_ring_add_associative(a: Seq<nat>, b: Seq<nat>, c: Seq<nat>, n: nat)
    requires
        canonical(a),
        canonical(b),
        canonical(c),
    ensures
        reduce(poly_add(reduce(poly_add(a, b), n), c), n) == reduce(
            poly_add(a, reduce(poly_add(b, c), n)),
            n,
        ),
{
    lemma_reduce_add_left(poly_add(a, b), c, n);
    lemma_poly_add_commutative(a, reduce(poly_add(b, c), n));
    lemma_reduce_add_left(poly_add(b, c), a, n);
    lemma_poly_add_commutative(poly_add(b, c), a);
    lemma_poly_add_associative(a, b, c);
}

/// The zero polynomial is an additive identity in `Z_q[x]/(x^n + 1)`.
pub proof fn lemma_ring_add_zero(a: Seq<nat>, n: nat)
    requires
        canonical(a),
    ensures
        reduce(poly_add(a, Seq::empty()), n) == reduce(a, n),
{
    assert(poly_add(a, Seq::empty()) =~= a);
}

/// Multiplication in `Z_q[x]/(x^n + 1)` is commutative.
pub proof fn lemma_ring_mul_commutative(a: Seq<nat>, b: Seq<nat>, n: nat)
    ensures
        reduce(poly_mul(a, b), n) == reduce(poly_mul(b, a), n),
{
    lemma_poly_mul_commutative(a, b);
}

/// The class of `1` is a multiplicative identity in `Z_q[x]/(x^n + 1)` for `n >= 1`.
pub proof fn lemma_ring_mul_one(a: Seq<nat>, n: nat)
    requires
        n >= 1,
        canonical(a),
    ensures
        reduce(seq![1nat], n) == seq![1nat],
        reduce(poly_mul(a, reduce(seq![1nat], n)), n) == reduce(a, n),
{
    let one = seq![1nat];
    assert(fold_negacyclic(one, n) == one);
    assert(one.drop_last() =~= Seq::<nat>::empty());
    assert(trim(one) == one);
    lemma_poly_mul_one(a);
}

/// Multiplication in `Z_q[x]/(x^n + 1)` is associative.
pub proof fn lemma_ring_mul_associative(a: Seq<nat>, b: Seq<nat>, c: Seq<nat>, n: nat)
    requires
        canonical(a),
        canonical(b),
        canonical(c),
    ensures
        reduce(poly_mul(reduce(poly_mul(a, b), n), c), n) == reduce(
            poly_mul(a, reduce(poly_mul(b, c), n)),
            n,
        ),
{
    let ab = poly_mul(a, b);
    let bc = poly_mul(b, c);
    lemma_mul_canonical(a, b);
    lemma_mul_canonical(b, c);
    lemma_reduce_mul_left(ab, c, n);
    lemma_poly_mul_commutative(a, reduce(bc, n));
    lemma_reduce_mul_left(bc, a, n);
    lemma_poly_mul_commutative(bc, a);
    lemma_poly_mul_associative(a, b, c);
    lemma_mul_canonical(ab, c);
    lemma_mul_canonical(a, bc);
    lemma_trim_by_coeffs(poly_mul(ab, c), poly_mul(a, bc));
    lemma_trim_reduce(poly_mul(ab, c), n);
    lemma_trim_reduce(poly_mul(a, bc), n);
}

/// The modulus is zero in `Z_q[x]/(x^n + 1)`: its remainder is the zero polynomial.
pub proof fn lemma_ring_modulus_is_zero(n: nat)
    ensures
        reduce(modulus_seq(n), n) == Seq::<nat>::empty(),
{
    if n >= 1 {
        let q = x_n_plus_one(n);
        let one = seq![1nat];
        assert(canonical(one));
        assert(canonical(q));
        lemma_reduce_multiple_zero(one, n);
        lemma_poly_mul_commutative(one, q);
        lemma_poly_mul_one(q);
    }
}

} // verus!
