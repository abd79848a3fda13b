use crate::ring::zq::{
    add_mod, lemma_add_commutative, lemma_mul_commutative, mul_mod, sub_mod, Zq, ZQ_MODULUS,
};
use crate::ring::Ring;
use rand::rngs::ThreadRng;
use vstd::prelude::*;

pub mod laws;

verus! {

/// The residues of a sequence of `Z_q` elements.
pub open spec fn residues(v: Seq<Zq>) -> Seq<nat> {
    v.map_values(|c: Zq| c@)
}

/// The coefficient of `x^i` in the coefficient list `s` (zero beyond its end).
pub open spec fn coeff(s: Seq<nat>, i: int) -> nat {
    if 0 <= i < s.len() {
        s[i]
    } else {
        0
    }
}

/// `s` without its trailing zero coefficients.
pub open spec fn trim(s: Seq<nat>) -> Seq<nat>
    decreases s.len(),
{
    if s.len() == 0 {
        s
    } else if s.last() == 0 {
        trim(s.drop_last())
    } else {
        s
    }
}

/// The degree of `s`: the index of its highest nonzero coefficient, or 0 when there is none.
pub open spec fn degree_of(s: Seq<nat>) -> nat {
    if trim(s).len() == 0 {
        0
    } else {
        (trim(s).len() - 1) as nat
    }
}

/// `s` with the coefficient of `x^i` set to `v`, padded with zeros up to `x^i`.
pub open spec fn set_coeff(s: Seq<nat>, i: nat, v: nat) -> Seq<nat> {
    Seq::new(
        if i < s.len() {
            s.len()
        } else {
            i + 1
        },
        |k: int|
            if k == i {
                v
            } else {
                coeff(s, k)
            },
    )
}

/// The value of the polynomial `s` at `x`, in `Z_q`: `s[0] + x * (s[1] + x * (...))`.
pub open spec fn eval(s: Seq<nat>, x: nat) -> nat
    decreases s.len(),
{
    if s.len() == 0 {
        0
    } else {
        add_mod(s[0], mul_mod(x, eval(s.drop_first(), x)))
    }
}

/// The coefficient-wise sum of `a` and `b` in `Z_q`.
pub open spec fn poly_add(a: Seq<nat>, b: Seq<nat>) -> Seq<nat> {
    Seq::new(
        if a.len() >= b.len() {
            a.len()
        } else {
            b.len()
        },
        |k: int| add_mod(coeff(a, k), coeff(b, k)),
    )
}

/// The coefficient-wise difference of `a` and `b` in `Z_q`.
pub open spec fn poly_sub(a: Seq<nat>, b: Seq<nat>) -> Seq<nat> {
    Seq::new(
        if a.len() >= b.len() {
            a.len()
        } else {
            b.len()
        },
        |k: int| sub_mod(coeff(a, k), coeff(b, k)),
    )
}

/// `sum_{0 <= i < n} a[i] * b[k - i]` in `Z_q`: the first `n` terms of the coefficient
/// of `x^k` in the product of `a` and `b`.
pub open spec fn conv(a: Seq<nat>, b: Seq<nat>, k: int, n: int) -> nat
    decreases n,
{
    if n <= 0 {
        0
    } else {
        add_mod(conv(a, b, k, n - 1), mul_mod(coeff(a, n - 1), coeff(b, k - (n - 1))))
    }
}

/// The product of `a` and `b` in `Z_q[x]`, with `a.len() + b.len() - 1` coefficients.
pub open spec fn poly_mul(a: Seq<nat>, b: Seq<nat>) -> Seq<nat> {
    if a.len() == 0 || b.len() == 0 {
        Seq::empty()
    } else {
        Seq::new((a.len() + b.len() - 1) as nat, |k: int| conv(a, b, k, a.len() as int))
    }
}

/// Folds every coefficient at or above `x^n` down using `x^n = -1`: while the list is longer
/// than `n`, its leading term `c * x^L` is removed and `c` is subtracted from the coefficient
/// of `x^(L - n)`.
pub open spec fn fold_negacyclic(s: Seq<nat>, n: nat) -> Seq<nat>
    decreases s.len(),
{
    if n == 0 || s.len() <= n {
        s
    } else {
        let top = s.len() - 1;
        let rest = s.drop_last();
        fold_negacyclic(rest.update(top - n, sub_mod(rest[top - n], s[top])), n)
    }
}

/// The remainder of `s` modulo `x^n + 1` in `Z_q[x]`, without trailing zeros. For `n = 0` the
/// modulus is the constant `2`, a unit of `Z_q`, and every remainder is zero.
pub open spec fn reduce(s: Seq<nat>, n: nat) -> Seq<nat> {
    if n == 0 {
        Seq::empty()
    } else {
        trim(fold_negacyclic(s, n))
    }
}

/// Every partial sum of a product coefficient is a residue.
pub(crate) proof fn lemma_conv_bound(a: Seq<nat>, b: Seq<nat>, k: int, n: int)
    ensures
        conv(a, b, k, n) < ZQ_MODULUS,
{
}

/// A polynomial over `Z_q`, as its list of coefficients, lowest degree first.
#[derive(Debug, PartialEq, Eq, PartialOrd, Ord)]
pub struct Polynomial {
    coeffs: Vec<Zq>,
}

impl Clone for Polynomial {
    /// A copy with the same coefficients.
    fn clone(&self) -> (p: Self)
        ensures
            p@ == self@,
    {
        proof {
            use_type_invariant(self);
        }
        Polynomial { coeffs: self.coefficients() }
    }
}

impl View for Polynomial {
    type V = Seq<nat>;

    /// The residues of the coefficients, lowest degree first.
    closed spec fn view(&self) -> Seq<nat> {
        residues(self.coeffs@)
    }
}

impl Polynomial {
    /// Every coefficient is a residue: `use_type_invariant` on a polynomial gives
    /// `canonical(p@)`.
    #[verifier::type_invariant]
    pub open spec fn is_canonical(self) -> bool {
        canonical(self@)
    }

    /// The polynomial with the given coefficients, lowest degree first.
    pub fn from_coefficients(coeffs: Vec<Zq>) -> (p: Self)
        ensures
            p@ == residues(coeffs@),
    {
        let mut i: usize = 0;
        while i < coeffs.len()
            invariant
                i <= coeffs.len(),
                forall|j: int| 0 <= j < i ==> #[trigger] residues(coeffs@)[j] < ZQ_MODULUS,
            decreases coeffs.len() - i,
        {
            let c = coeffs[i];
            proof {
                use_type_invariant(&c);
            }
            i = i + 1;
        }
        Polynomial { coeffs }
    }

    /// A polynomial with `degree + 1` coefficients drawn from the thread-local random generator.
    /// May unwind, through the generator, when the operating system's entropy source fails
    /// while the thread-local generator reseeds.
    pub fn rand(rng: &mut ThreadRng, degree: usize) -> (p: Self)
        requires
            degree < usize::MAX,
        ensures
            p@.len() == degree + 1,
            forall|i: int| 0 <= i < p@.len() ==> #[trigger] p@[i] < ZQ_MODULUS,
    {
        let mut coeffs: Vec<Zq> = Vec::new();
        while coeffs.len() <= degree
            invariant
                degree < usize::MAX,
                coeffs@.len() <= degree + 1,
                forall|i: int| 0 <= i < coeffs@.len() ==> #[trigger] coeffs@[i]@ < ZQ_MODULUS,
            decreases degree + 1 - coeffs.len(),
        {
            coeffs.push(Zq::rand(rng));
        }
        Polynomial { coeffs }
    }

    /// The coefficients, lowest degree first.
    pub fn coefficients(&self) -> (v: Vec<Zq>)
        ensures
            residues(v@) == self@,
    {
        let mut v: Vec<Zq> = Vec::new();
        let mut i: usize = 0;
        while i < self.coeffs.len()
            invariant
                i <= self.coeffs.len(),
                v@ == self.coeffs@.take(i as int),
            decreases self.coeffs.len() - i,
        {
            v.push(self.coeffs[i]);
            i = i + 1;
            proof {
                assert(v@ =~= self.coeffs@.take(i as int));
            }
        }
        proof {
            assert(v@ =~= self.coeffs@);
        }
        v
    }

    /// The zero polynomial, with no coefficients.
    pub fn zero() -> (p: Self)
        ensures
            p@ == Seq::<nat>::empty(),
    {
        let p = Polynomial { coeffs: Vec::new() };
        proof {
            assert(p@ =~= Seq::<nat>::empty());
        }
        p
    }

    /// Removes the trailing zero coefficients.
    pub fn normalize(&mut self)
        ensures
            final(self)@ == trim(old(self)@),
    {
        proof {
            use_type_invariant(&*self);
        }
        let ghost orig = self@;
        let mut v: Vec<Zq> = Vec::new();
        std::mem::swap(&mut v, &mut self.coeffs);
        loop
            invariant
                trim(residues(v@)) == trim(orig),
                canonical(residues(v@)),
            ensures
                residues(v@) == trim(orig),
                canonical(residues(v@)),
            decreases v.len(),
        {
            let n = v.len();
            if n == 0 {
                break;
            }
            let last = v[n - 1];
            let zero = Zq::zero();
            proof {
                Zq::lemma_view_injective(last, zero);
            }
            if last != zero {
                break;
            }
            let ghost before = residues(v@);
            v.pop();
            proof {
                assert(residues(v@) =~= before.drop_last());
            }
        }
        self.coeffs = v;
    }

    /// The index of the highest nonzero coefficient, or 0 when there is none.
    pub fn degree(&self) -> (d: usize)
        ensures
            d == degree_of(self@),
    {
        let mut i = self.coeffs.len();
        proof {
            assert(self@.take(i as int) =~= self@);
        }
        while i > 0
            invariant
                i <= self.coeffs.len(),
                trim(self@.take(i as int)) == trim(self@),
            decreases i,
        {
            let c = self.coeffs[i - 1];
            let zero = Zq::zero();
            proof {
                Zq::lemma_view_injective(c, zero);
            }
            if c != zero {
                proof {
                    assert(self@.take(i as int).last() == c@);
                }
                return i - 1;
            }
            proof {
                assert(self@.take(i as int).drop_last() =~= self@.take(i - 1));
            }
            i = i - 1;
        }
        0
    }

    /// Whether every coefficient is zero.
    pub fn is_zero(&self) -> (z: bool)
        ensures
            z == (forall|i: int| 0 <= i < self@.len() ==> self@[i] == 0),
    {
        let mut i: usize = 0;
        while i < self.coeffs.len()
            invariant
                i <= self.coeffs.len(),
                forall|j: int| 0 <= j < i ==> self@[j] == 0,
            decreases self.coeffs.len() - i,
        {
            let c = self.coeffs[i];
            let zero = Zq::zero();
            proof {
                Zq::lemma_view_injective(c, zero);
            }
            if c != zero {
                proof {
                    assert(self@[i as int] == c@);
                }
                return false;
            }
            i = i + 1;
        }
        true
    }

    /// Sets the coefficient of `x^i` to `value`, padding with zero coefficients as needed.
    pub fn set_coefficient(&mut self, i: usize, value: Zq)
        requires
            i < usize::MAX,
        ensures
            final(self)@ == set_coeff(old(self)@, i as nat, value@),
    {
        proof {
            use_type_invariant(&*self);
            use_type_invariant(&value);
        }
        let ghost orig = self@;
        let mut v: Vec<Zq> = Vec::new();
        std::mem::swap(&mut v, &mut self.coeffs);
        while v.len() <= i
            invariant
                i < usize::MAX,
                orig.len() <= v@.len() <= (if i < orig.len() { orig.len() as int } else { i + 1 }),
                forall|k: int| 0 <= k < v@.len() ==> #[trigger] v@[k]@ == coeff(orig, k),
            decreases i + 1 - v.len(),
        {
            v.push(Zq::zero());
        }
        v.set(i, value);
        proof {
            assert(residues(v@) =~= set_coeff(orig, i as nat, value@));
        }
        self.coeffs = v;
    }

    /// The value of the polynomial at `x`, by Horner's rule.
    pub fn evaluate(&self, x: &Zq) -> (r: Zq)
        ensures
            r@ == eval(self@, x@),
    {
        let ghost s = self@;
        let len = self.coeffs.len();
        let mut acc = Zq::zero();
        let mut i = len;
        proof {
            assert(s.subrange(i as int, len as int) =~= Seq::<nat>::empty());
        }
        while i > 0
            invariant
                i <= len == self.coeffs.len(),
                s == self@,
                acc@ == eval(s.subrange(i as int, len as int), x@),
            decreases i,
        {
            let c = self.coeffs[i - 1];
            let ghost tail = s.subrange(i as int, len as int);
            let ghost prev = acc@;
            acc = acc * *x + c;
            i = i - 1;
            proof {
                let cur = s.subrange(i as int, len as int);
                assert(cur.drop_first() =~= tail);
                assert(cur[0] == c@);
                lemma_mul_commutative(prev, x@);
                lemma_add_commutative(mul_mod(x@, prev), c@);
            }
        }
        proof {
            assert(s.subrange(0, len as int) =~= s);
        }
        acc
    }

    /// The coefficient-wise sum, without trailing zeros.
    pub fn add(&self, rhs: &Polynomial) -> (p: Polynomial)
        ensures
            p@ == trim(poly_add(self@, rhs@)),
    {
        let la = self.coeffs.len();
        let lb = rhs.coeffs.len();
        let n = if la >= lb {
            la
        } else {
            lb
        };
        let mut v: Vec<Zq> = Vec::new();
        let mut k: usize = 0;
        while k < n
            invariant
                k <= n,
                la == self.coeffs.len(),
                lb == rhs.coeffs.len(),
                n == (if la >= lb { la } else { lb }),
                v@.len() == k,
                forall|j: int| 0 <= j < k ==> #[trigger] v@[j]@ == add_mod(coeff(self@, j), coeff(rhs@, j)),
            decreases n - k,
        {
            let x = if k < la {
                self.coeffs[k]
            } else {
                Zq::zero()
            };
            let y = if k < lb {
                rhs.coeffs[k]
            } else {
                Zq::zero()
            };
            proof {
                assert(x@ == coeff(self@, k as int));
                assert(y@ == coeff(rhs@, k as int));
            }
            v.push(x + y);
            k = k + 1;
        }
        let mut p = Polynomial { coeffs: v };
        proof {
            assert(p@ =~= poly_add(self@, rhs@));
        }
        p.normalize();
        p
    }

    /// The product, without trailing zeros, by schoolbook multiplication.
    pub fn mul(&self, rhs: &Polynomial) -> (p: Polynomial)
        requires
            self@.len() + rhs@.len() <= usize::MAX,
        ensures
            p@ == trim(poly_mul(self@, rhs@)),
    {
        let la = self.coeffs.len();
        let lb = rhs.coeffs.len();
        if la == 0 || lb == 0 {
            let p = Polynomial::zero();
            proof {
                assert(poly_mul(self@, rhs@) =~= Seq::<nat>::empty());
            }
            return p;
        }
        let ghost a = self@;
        let ghost b = rhs@;
        let n = la + lb - 1;
        let mut v: Vec<Zq> = Vec::new();
        while v.len() < n
            invariant
                v@.len() <= n,
                forall|k: int| 0 <= k < v@.len() ==> #[trigger] v@[k]@ == 0,
            decreases n - v.len(),
        {
            v.push(Zq::zero());
        }
        let mut i: usize = 0;
        while i < la
            invariant
                la == self.coeffs.len(),
                lb == rhs.coeffs.len(),
                a == self@,
                b == rhs@,
                n == la + lb - 1,
                i <= la,
                v@.len() == n,
                forall|k: int| 0 <= k < n ==> #[trigger] v@[k]@ == conv(a, b, k, i as int),
            decreases la - i,
        {
            let ai = self.coeffs[i];
            let mut j: usize = 0;
            while j < lb
                invariant
                    la == self.coeffs.len(),
                    lb == rhs.coeffs.len(),
                    a == self@,
                    b == rhs@,
                    n == la + lb - 1,
                    i < la,
                    j <= lb,
                    ai@ == a[i as int],
                    v@.len() == n,
                    forall|k: int|
                        0 <= k < n ==> #[trigger] v@[k]@ == (if i <= k < i + j {
                            conv(a, b, k, i + 1)
                        } else {
                            conv(a, b, k, i as int)
                        }),
                decreases lb - j,
            {
                let idx = i + j;
                let cur = v[idx];
                let bj = rhs.coeffs[j];
                proof {
                    assert(bj@ == b[j as int]);
                    assert(cur@ == conv(a, b, idx as int, i as int));
                }
                v.set(idx, cur + ai * bj);
                j = j + 1;
            }
            proof {
                assert forall|k: int| 0 <= k < n implies #[trigger] v@[k]@ == conv(a, b, k, i + 1) by {
                    if !(i <= k < i + lb) {
                        lemma_conv_bound(a, b, k, i as int);
                        assert(coeff(b, k - i) == 0);
                        assert(mul_mod(coeff(a, i as int), 0) == 0);
                        assert(conv(a, b, k, i + 1) == add_mod(conv(a, b, k, i as int), 0));
                        vstd::arithmetic::div_mod::lemma_small_mod(conv(a, b, k, i as int), 17);
                    }
                }
            }
            i = i + 1;
        }
        let mut p = Polynomial { coeffs: v };
        proof {
            assert(p@ =~= poly_mul(a, b));
        }
        p.normalize();
        p
    }

    /// The remainder modulo `x^n + 1`, without trailing zeros; for `n = 0` the modulus is the
    /// constant `2`, a unit, and the remainder is zero.
    pub fn rem_negacyclic(&self, n: u64) -> (p: Polynomial)
        ensures
            p@ == reduce(self@, n as nat),
    {
        if n == 0 {
            return Polynomial::zero();
        }
        proof {
            use_type_invariant(self);
        }
        let mut v = self.coefficients();
        let ghost s0 = self@;
        while v.len() as u64 > n
            invariant
                n > 0,
                fold_negacyclic(residues(v@), n as nat) == fold_negacyclic(s0, n as nat),
                canonical(residues(v@)),
            decreases v.len(),
        {
            let ghost before = residues(v@);
            let c = v.pop().unwrap();
            let idx = v.len() - n as usize;
            let cur = v[idx];
            v.set(idx, cur - c);
            proof {
                let top = before.len() - 1;
                let rest = before.drop_last();
                assert(residues(v@) =~= rest.update(top - n, sub_mod(rest[top - n], before[top])));
                assert forall|j: int| 0 <= j < v@.len() implies #[trigger] residues(v@)[j]
                    < ZQ_MODULUS by {
                    if j != top - n {
                        assert(residues(v@)[j] == before[j]);
                    }
                }
            }
        }
        let mut p = Polynomial { coeffs: v };
        p.normalize();
        p
    }

    /// The coefficient-wise difference, without trailing zeros.
    pub fn sub(&self, rhs: &Polynomial) -> (p: Polynomial)
        ensures
            p@ == trim(poly_sub(self@, rhs@)),
    {
        let la = self.coeffs.len();
        let lb = rhs.coeffs.len();
        let n = if la >= lb {
            la
        } else {
            lb
        };
        let mut v: Vec<Zq> = Vec::new();
        let mut k: usize = 0;
        while k < n
            invariant
                k <= n,
                la == self.coeffs.len(),
                lb == rhs.coeffs.len(),
                n == (if la >= lb { la } else { lb }),
                v@.len() == k,
                forall|j: int| 0 <= j < k ==> #[trigger] v@[j]@ == sub_mod(coeff(self@, j), coeff(rhs@, j)),
            decreases n - k,
        {
            let x = if k < la {
                self.coeffs[k]
            } else {
                Zq::zero()
            };
            let y = if k < lb {
                rhs.coeffs[k]
            } else {
                Zq::zero()
            };
            proof {
                assert(x@ == coeff(self@, k as int));
                assert(y@ == coeff(rhs@, k as int));
            }
            v.push(x - y);
            k = k + 1;
        }
        let mut p = Polynomial { coeffs: v };
        proof {
            assert(p@ =~= poly_sub(self@, rhs@));
        }
        p.normalize();
        p
    }
}

/// Trimming drops only trailing zeros: it keeps a prefix, leaves no trailing zero, and
/// trimming again changes nothing.
pub proof fn lemma_trim(s: Seq<nat>)
    ensures
        trim(s).len() <= s.len(),
        trim(s) == s.take(trim(s).len() as int),
        trim(s).len() == 0 || trim(s).last() != 0,
        forall|i: int| trim(s).len() <= i < s.len() ==> s[i] == 0,
        trim(trim(s)) == trim(s),
    decreases s.len(),
{
    if s.len() == 0 {
        assert(s.take(0) =~= s);
    } else if s.last() == 0 {
        lemma_trim(s.drop_last());
        let t = trim(s.drop_last());
        assert(s.drop_last().take(t.len() as int) =~= s.take(t.len() as int));
        assert forall|i: int| t.len() <= i < s.len() implies s[i] == 0 by {
            if i < s.len() - 1 {
                assert(s.drop_last()[i] == s[i]);
            }
        }
    } else {
        assert(s.take(s.len() as int) =~= s);
    }
}

/// Folding modulo `x^n + 1` leaves `min(len, n)` coefficients.
pub(crate) proof fn lemma_fold_len(s: Seq<nat>, n: nat)
    requires
        n > 0,
    ensures
        fold_negacyclic(s, n).len() == (if s.len() <= n { s.len() } else { n }),
    decreases s.len(),
{
    if s.len() > n {
        let top = s.len() - 1;
        let rest = s.drop_last();
        lemma_fold_len(rest.update(top - n, sub_mod(rest[top - n], s[top])), n);
    }
}

/// A remainder modulo `x^n + 1` has at most `n` coefficients, hence degree below `n`,
/// and no trailing zero.
pub proof fn lemma_reduce_bounded(s: Seq<nat>, n: nat)
    ensures
        reduce(s, n).len() <= n,
        reduce(s, n).len() == 0 || reduce(s, n).last() != 0,
{
    if n > 0 {
        lemma_fold_len(s, n);
        lemma_trim(fold_negacyclic(s, n));
    }
}

/// Reducing a remainder again changes nothing.
pub proof fn lemma_reduce_idempotent(s: Seq<nat>, n: nat)
    ensures
        reduce(reduce(s, n), n) == reduce(s, n),
{
    if n > 0 {
        lemma_reduce_bounded(s, n);
        lemma_trim(fold_negacyclic(s, n));
    }
}

/// Trailing zeros do not change a remainder modulo `x^n + 1`, for coefficient lists of residues.
pub proof fn lemma_trim_reduce(s: Seq<nat>, n: nat)
    requires
        forall|i: int| 0 <= i < s.len() ==> #[trigger] s[i] < ZQ_MODULUS,
    ensures
        reduce(trim(s), n) == reduce(s, n),
    decreases s.len(),
{
    if n > 0 && s.len() > 0 && s.last() == 0 {
        let d = s.drop_last();
        lemma_trim_reduce(d, n);
        if s.len() > n {
            let top = s.len() - 1;
            assert(d.update(top - n, sub_mod(d[top - n], s[top])) =~= d);
        }
    }
}

/// Every coefficient of `s` is a residue modulo `q`.
pub open spec fn canonical(s: Seq<nat>) -> bool {
    forall|i: int| 0 <= i < s.len() ==> #[trigger] s[i] < ZQ_MODULUS
}

} // verus!
