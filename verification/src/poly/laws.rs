//! Laws of polynomial arithmetic over `Z_q` and of the reduction modulo `x^n + 1`: the
//! operations of `Z_q[x]/(x^n + 1)` form a commutative ring.
use crate::poly::{
    canonical, coeff, conv, degree_of, eval, poly_sub, set_coeff, fold_negacyclic, lemma_conv_bound, lemma_fold_len,
    lemma_reduce_idempotent, lemma_trim, lemma_trim_reduce, poly_add, poly_mul, reduce, trim,
};
use crate::ring::zq::{
    add_mod, lemma_add_associative, lemma_add_commutative, lemma_add_swap_middle,
    lemma_mul_associative, lemma_mul_commutative, lemma_mul_distributes_over_add, lemma_mul_zero,
    lemma_sub_of_sums, mul_mod, pow_mod, sub_mod, ZQ_MODULUS,
};
use vstd::arithmetic::power::pow;
use vstd::prelude::*;

verus! {

/// `sum_{0 <= i < n} f(i)` in `Z_q`.
pub open spec fn sum_mod(f: spec_fn(int) -> nat, n: int) -> nat
    decreases n,
{
    if n <= 0 {
        0
    } else {
        add_mod(sum_mod(f, n - 1), f(n - 1))
    }
}

/// The terms of the coefficient of `x^k` in the product of `a` and `b`.
pub open spec fn conv_terms(a: Seq<nat>, b: Seq<nat>, k: int) -> spec_fn(int) -> nat {
    |i: int| mul_mod(coeff(a, i), coeff(b, k - i))
}

proof fn lemma_conv_is_sum(a: Seq<nat>, b: Seq<nat>, k: int, n: int)
    ensures
        conv(a, b, k, n) == sum_mod(conv_terms(a, b, k), n),
    decreases n,
{
    if n > 0 {
        lemma_conv_is_sum(a, b, k, n - 1);
    }
}

proof fn lemma_sum_bound(f: spec_fn(int) -> nat, n: int)
    ensures
        sum_mod(f, n) < ZQ_MODULUS,
{
}

/// Zero terms past `n` do not change the sum.
proof fn lemma_sum_zero_tail(f: spec_fn(int) -> nat, n: int, m: int)
    requires
        0 <= n <= m,
        forall|i: int| n <= i < m ==> #[trigger] f(i) == 0,
    ensures
        sum_mod(f, m) == sum_mod(f, n),
    decreases m - n,
{
    if m > n {
        lemma_sum_zero_tail(f, n, m - 1);
        lemma_sum_bound(f, m - 1);
        vstd::arithmetic::div_mod::lemma_small_mod(sum_mod(f, m - 1), 17);
    }
}

/// The sum with its first term taken out.
proof fn lemma_sum_peel_first(f: spec_fn(int) -> nat, n: int)
    requires
        n >= 1,
    ensures
        sum_mod(f, n) == add_mod(f(0), sum_mod(|i: int| f(i + 1), n - 1)),
    decreases n,
{
    let g = |i: int| f(i + 1);
    if n == 1 {
        assert(sum_mod(g, 0) == 0);
        assert(sum_mod(f, 0) == 0);
        assert(sum_mod(f, 1) == add_mod(0, f(0)));
    } else {
        lemma_sum_peel_first(f, n - 1);
        lemma_add_associative(f(0), sum_mod(g, n - 2), g(n - 2));
        assert(sum_mod(g, n - 1) == add_mod(sum_mod(g, n - 2), g(n - 2)));
        assert(g(n - 2) == f(n - 1));
    }
}

/// A sum is the same summed backwards.
proof fn lemma_sum_reverse(f: spec_fn(int) -> nat, n: int)
    requires
        n >= 0,
    ensures
        sum_mod(f, n) == sum_mod(|i: int| f(n - 1 - i), n),
    decreases n,
{
    if n > 0 {
        let h = |i: int| f(n - 1 - i);
        lemma_sum_reverse(f, n - 1);
        lemma_sum_peel_first(h, n);
        let h1 = |i: int| h(i + 1);
        let fr = |i: int| f(n - 1 - 1 - i);
        assert(h1 =~= fr);
        lemma_add_commutative(sum_mod(f, n - 1), f(n - 1));
    }
}

/// Sums that agree term by term are equal.
proof fn lemma_sum_congruent(f: spec_fn(int) -> nat, g: spec_fn(int) -> nat, m: int)
    requires
        forall|i: int| 0 <= i < m ==> #[trigger] f(i) == g(i),
    ensures
        sum_mod(f, m) == sum_mod(g, m),
    decreases m,
{
    if m > 0 {
        lemma_sum_congruent(f, g, m - 1);
    }
}

/// A sum of zeros is zero.
proof fn lemma_sum_zeros(f: spec_fn(int) -> nat, m: int)
    requires
        forall|i: int| 0 <= i < m ==> #[trigger] f(i) == 0,
    ensures
        sum_mod(f, m) == 0,
    decreases m,
{
    if m > 0 {
        lemma_sum_zeros(f, m - 1);
    }
}

/// The sum of termwise sums is the sum of the sums.
proof fn lemma_sum_add(f: spec_fn(int) -> nat, g: spec_fn(int) -> nat, m: int)
    ensures
        sum_mod(|i: int| add_mod(f(i), g(i)), m) == add_mod(sum_mod(f, m), sum_mod(g, m)),
    decreases m,
{
    if m > 0 {
        lemma_sum_add(f, g, m - 1);
        lemma_add_swap_middle(sum_mod(f, m - 1), sum_mod(g, m - 1), f(m - 1), g(m - 1));
    } else {
        assert(add_mod(0, 0) == 0);
    }
}

/// A sum times a factor is the sum of the terms times the factor.
proof fn lemma_sum_scale(f: spec_fn(int) -> nat, x: nat, m: int)
    ensures
        sum_mod(|i: int| mul_mod(f(i), x), m) == mul_mod(sum_mod(f, m), x),
    decreases m,
{
    if m > 0 {
        lemma_sum_scale(f, x, m - 1);
        lemma_mul_commutative(add_mod(sum_mod(f, m - 1), f(m - 1)), x);
        lemma_mul_distributes_over_add(x, sum_mod(f, m - 1), f(m - 1));
        lemma_mul_commutative(sum_mod(f, m - 1), x);
        lemma_mul_commutative(f(m - 1), x);
        let fx = |i: int| mul_mod(f(i), x);
        assert(sum_mod(fx, m) == add_mod(sum_mod(fx, m - 1), fx(m - 1)));
    } else {
        vstd::arithmetic::mul::lemma_mul_basics(x as int);
        assert(mul_mod(0, x) == 0);
    }
}

/// A factor times a sum is the sum of the factor times the terms.
proof fn lemma_sum_scale_left(x: nat, f: spec_fn(int) -> nat, m: int)
    ensures
        sum_mod(|i: int| mul_mod(x, f(i)), m) == mul_mod(x, sum_mod(f, m)),
{
    lemma_sum_scale(f, x, m);
    lemma_mul_commutative(sum_mod(f, m), x);
    assert forall|i: int| 0 <= i < m implies #[trigger] mul_mod(x, f(i)) == mul_mod(f(i), x) by {
        lemma_mul_commutative(x, f(i));
    }
    lemma_sum_congruent(|i: int| mul_mod(x, f(i)), |i: int| mul_mod(f(i), x), m);
}

/// The order of summation over a rectangle does not matter.
proof fn lemma_sum_swap(g: spec_fn(int, int) -> nat, m: int, n: int)
    requires
        m >= 0,
        n >= 0,
    ensures
        sum_mod(|i: int| sum_mod(|j: int| g(i, j), n), m) == sum_mod(
            |j: int| sum_mod(|i: int| g(i, j), m),
            n,
        ),
    decreases m,
{
    if m > 0 {
        lemma_sum_swap(g, m - 1, n);
        let f = |j: int| sum_mod(|i: int| g(i, j), m - 1);
        let h = |j: int| g(m - 1, j);
        lemma_sum_add(f, h, n);
        let fh = |j: int| add_mod(f(j), h(j));
        let target = |j: int| sum_mod(|i: int| g(i, j), m);
        assert forall|j: int| 0 <= j < n implies #[trigger] fh(j) == target(j) by {}
        lemma_sum_congruent(fh, target, n);
    } else {
        lemma_sum_zeros(|j: int| sum_mod(|i: int| g(i, j), m), n);
    }
}

/// Leading zero terms can be skipped by shifting the index.
proof fn lemma_sum_shift(f: spec_fn(int) -> nat, s: int, m: int)
    requires
        0 <= s <= m,
        forall|i: int| 0 <= i < s ==> #[trigger] f(i) == 0,
    ensures
        sum_mod(f, m) == sum_mod(|l: int| f(l + s), m - s),
    decreases s,
{
    if s > 0 {
        lemma_sum_peel_first(f, m);
        let g = |i: int| f(i + 1);
        lemma_sum_shift(g, s - 1, m - 1);
        lemma_sum_bound(g, m - 1);
        vstd::arithmetic::div_mod::lemma_small_mod(sum_mod(g, m - 1), 17);
        let g2 = |l: int| g(l + (s - 1));
        let f2 = |l: int| f(l + s);
        assert(g2 =~= f2);
    } else {
        assert((|l: int| f(l + s)) =~= f);
    }
}

/// Addition of coefficient lists is commutative.
pub proof fn lemma_poly_add_commutative(a: Seq<nat>, b: Seq<nat>)
    ensures
        poly_add(a, b) == poly_add(b, a),
{
    assert(poly_add(a, b) =~= poly_add(b, a));
}

/// Multiplication of coefficient lists is commutative.
pub proof fn lemma_poly_mul_commutative(a: Seq<nat>, b: Seq<nat>)
    ensures
        poly_mul(a, b) == poly_mul(b, a),
{
    if a.len() > 0 && b.len() > 0 {
        let len = a.len() + b.len() - 1;
        assert forall|k: int| 0 <= k < len implies #[trigger] conv(a, b, k, a.len() as int) == conv(
            b,
            a,
            k,
            b.len() as int,
        ) by {
            let f = conv_terms(a, b, k);
            let g = conv_terms(b, a, k);
            let m = (a.len() + b.len()) as int;
            lemma_conv_is_sum(a, b, k, a.len() as int);
            lemma_conv_is_sum(b, a, k, b.len() as int);
            assert forall|i: int| a.len() <= i < m implies #[trigger] f(i) == 0 by {
                assert(coeff(a, i) == 0);
                assert(mul_mod(0, coeff(b, k - i)) == 0);
            }
            lemma_sum_zero_tail(f, a.len() as int, m);
            assert forall|i: int| k + 1 <= i < m implies #[trigger] f(i) == 0 by {
                assert(coeff(b, k - i) == 0);
                assert(mul_mod(coeff(a, i), 0) == 0);
            }
            lemma_sum_zero_tail(f, k + 1, m);
            assert forall|i: int| b.len() <= i < m implies #[trigger] g(i) == 0 by {
                assert(coeff(b, i) == 0);
                assert(mul_mod(0, coeff(a, k - i)) == 0);
            }
            lemma_sum_zero_tail(g, b.len() as int, m);
            assert forall|i: int| k + 1 <= i < m implies #[trigger] g(i) == 0 by {
                assert(coeff(a, k - i) == 0);
                assert(mul_mod(coeff(b, i), 0) == 0);
            }
            lemma_sum_zero_tail(g, k + 1, m);
            lemma_sum_reverse(f, k + 1);
            let fr = |i: int| f(k + 1 - 1 - i);
            assert forall|i: int| #[trigger] fr(i) == g(i) by {
                lemma_mul_commutative(coeff(a, k - i), coeff(b, i));
            }
            assert(fr =~= g);
        }
        assert(poly_mul(a, b) =~= poly_mul(b, a));
    }
}

/// Coefficient lists with the same coefficient at every degree trim to the same list.
pub proof fn lemma_trim_by_coeffs(s1: Seq<nat>, s2: Seq<nat>)
    requires
        forall|k: int| #[trigger] coeff(s1, k) == coeff(s2, k),
    ensures
        trim(s1) == trim(s2),
    decreases s1.len() + s2.len(),
{
    if s1.len() > s2.len() {
        assert(coeff(s1, s1.len() - 1) == coeff(s2, s1.len() - 1));
        let d = s1.drop_last();
        assert forall|k: int| #[trigger] coeff(d, k) == coeff(s2, k) by {
            assert(coeff(s1, k) == coeff(s2, k));
        }
        lemma_trim_by_coeffs(d, s2);
    } else if s2.len() > s1.len() {
        assert(coeff(s1, s2.len() - 1) == coeff(s2, s2.len() - 1));
        let d = s2.drop_last();
        assert forall|k: int| #[trigger] coeff(s1, k) == coeff(d, k) by {
            assert(coeff(s1, k) == coeff(s2, k));
        }
        lemma_trim_by_coeffs(s1, d);
    } else {
        assert forall|k: int| 0 <= k < s1.len() implies s1[k] == s2[k] by {
            assert(coeff(s1, k) == coeff(s2, k));
        }
        assert(s1 =~= s2);
    }
}

/// Trimming keeps every coefficient.
pub proof fn lemma_trim_coeffs(s: Seq<nat>)
    ensures
        forall|k: int| #[trigger] coeff(trim(s), k) == coeff(s, k),
{
    lemma_trim(s);
    assert forall|k: int| #[trigger] coeff(trim(s), k) == coeff(s, k) by {
        if 0 <= k < trim(s).len() {
            assert(trim(s)[k] == s.take(trim(s).len() as int)[k]);
        }
    }
}

/// The coefficients of a sum are the sums of the coefficients.
pub proof fn lemma_add_coeffs(a: Seq<nat>, b: Seq<nat>)
    ensures
        forall|k: int| #[trigger] coeff(poly_add(a, b), k) == add_mod(coeff(a, k), coeff(b, k)),
{
}

/// Addition of coefficient lists is associative.
pub proof fn lemma_poly_add_associative(a: Seq<nat>, b: Seq<nat>, c: Seq<nat>)
    ensures
        poly_add(poly_add(a, b), c) == poly_add(a, poly_add(b, c)),
{
    let l = poly_add(poly_add(a, b), c);
    let r = poly_add(a, poly_add(b, c));
    assert forall|k: int| 0 <= k < l.len() implies l[k] == r[k] by {
        lemma_add_associative(coeff(a, k), coeff(b, k), coeff(c, k));
    }
    assert(l =~= r);
}

/// One folding step: the leading term `c * x^L` (with `L >= n`) becomes `-c * x^(L - n)`.
pub open spec fn fold_step(s: Seq<nat>, n: nat) -> Seq<nat> {
    let top = s.len() - 1;
    s.drop_last().update(top - n, sub_mod(s[top - n], s[top]))
}

proof fn lemma_fold_unfold(s: Seq<nat>, n: nat)
    requires
        n > 0,
        s.len() > n,
    ensures
        fold_negacyclic(s, n) == fold_negacyclic(fold_step(s, n), n),
{
    let top = s.len() - 1;
    assert(s.drop_last()[top - n] == s[top - n]);
}

/// `u` folded once when it reaches degree `t`, and unchanged when it is shorter.
spec fn fold_at(u: Seq<nat>, t: int, n: nat) -> Seq<nat> {
    if u.len() == t + 1 {
        fold_step(u, n)
    } else {
        u
    }
}

proof fn lemma_fold_at(u: Seq<nat>, t: int, n: nat)
    requires
        n > 0,
        n <= t,
        u.len() <= t + 1,
        canonical(u),
    ensures
        fold_at(u, t, n).len() <= t,
        canonical(fold_at(u, t, n)),
        fold_negacyclic(fold_at(u, t, n), n) == fold_negacyclic(u, n),
        forall|k: int|
            0 <= k < t ==> #[trigger] coeff(fold_at(u, t, n), k) == (if k == t - n {
                sub_mod(coeff(u, t - n), coeff(u, t))
            } else {
                coeff(u, k)
            }),
{
    if u.len() == t + 1 {
        lemma_fold_unfold(u, n);
    } else {
        assert forall|k: int| 0 <= k < t implies #[trigger] coeff(fold_at(u, t, n), k) == (if k == t
            - n {
            sub_mod(coeff(u, t - n), coeff(u, t))
        } else {
            coeff(u, k)
        }) by {
            if k == t - n {
                vstd::arithmetic::div_mod::lemma_small_mod(coeff(u, k), 17);
            }
        }
    }
}

/// Folding modulo `x^n + 1` commutes with addition.
#[verifier::rlimit(50)]
#[verifier::spinoff_prover]
pub proof fn lemma_fold_add(u: Seq<nat>, v: Seq<nat>, n: nat)
    requires
        n > 0,
        canonical(u),
        canonical(v),
    ensures
        fold_negacyclic(poly_add(u, v), n) == poly_add(
            fold_negacyclic(u, n),
            fold_negacyclic(v, n),
        ),
    decreases u.len() + v.len(),
{
    let w = poly_add(u, v);
    if u.len() > n || v.len() > n {
        let t = w.len() - 1;
        let u2 = fold_at(u, t, n);
        let v2 = fold_at(v, t, n);
        lemma_fold_at(u, t, n);
        lemma_fold_at(v, t, n);
        lemma_fold_unfold(w, n);
        let w2 = fold_step(w, n);
        lemma_sub_of_sums(coeff(u, t - n), coeff(v, t - n), coeff(u, t), coeff(v, t));
        assert forall|k: int| 0 <= k < t implies w2[k] == #[trigger] poly_add(u2, v2)[k] by {
            assert(coeff(u2, k) == coeff(u2, k));
            assert(coeff(v2, k) == coeff(v2, k));
        }
        assert(w2 =~= poly_add(u2, v2));
        lemma_fold_add(u2, v2, n);
    }
}

/// Folding keeps coefficient lists of residues.
proof fn lemma_fold_canonical(s: Seq<nat>, n: nat)
    requires
        canonical(s),
    ensures
        canonical(fold_negacyclic(s, n)),
    decreases s.len(),
{
    if n > 0 && s.len() > n {
        lemma_fold_unfold(s, n);
        lemma_fold_canonical(fold_step(s, n), n);
    }
}

/// A remainder of a list of residues is a list of residues.
pub proof fn lemma_reduce_canonical(s: Seq<nat>, n: nat)
    requires
        canonical(s),
    ensures
        canonical(reduce(s, n)),
{
    if n > 0 {
        lemma_fold_canonical(s, n);
        lemma_trim(fold_negacyclic(s, n));
        let f = fold_negacyclic(s, n);
        assert forall|i: int| 0 <= i < trim(f).len() implies #[trigger] trim(f)[i] < ZQ_MODULUS by {
            assert(trim(f)[i] == f.take(trim(f).len() as int)[i]);
        }
    }
}

/// Reduction modulo `x^n + 1` is additive: the remainder of a sum is the remainder of the
/// sum of the remainders.
pub proof fn lemma_reduce_add(u: Seq<nat>, v: Seq<nat>, n: nat)
    requires
        canonical(u),
        canonical(v),
    ensures
        reduce(poly_add(reduce(u, n), reduce(v, n)), n) == reduce(poly_add(u, v), n),
{
    if n > 0 {
        let fu = fold_negacyclic(u, n);
        let fv = fold_negacyclic(v, n);
        lemma_fold_len(u, n);
        lemma_fold_len(v, n);
        lemma_trim(fu);
        lemma_trim(fv);
        let s = poly_add(trim(fu), trim(fv));
        assert(fold_negacyclic(s, n) == s);
        lemma_trim_coeffs(fu);
        lemma_trim_coeffs(fv);
        lemma_add_coeffs(trim(fu), trim(fv));
        lemma_add_coeffs(fu, fv);
        assert forall|k: int| #[trigger] coeff(s, k) == coeff(poly_add(fu, fv), k) by {
            assert(coeff(trim(fu), k) == coeff(fu, k));
            assert(coeff(trim(fv), k) == coeff(fv, k));
        }
        lemma_trim_by_coeffs(s, poly_add(fu, fv));
        lemma_fold_add(u, v, n);
    }
}

/// Adding a remainder in place of a polynomial does not change the remainder of the sum.
pub proof fn lemma_reduce_add_left(u: Seq<nat>, v: Seq<nat>, n: nat)
    requires
        canonical(u),
        canonical(v),
    ensures
        reduce(poly_add(reduce(u, n), v), n) == reduce(poly_add(u, v), n),
{
    lemma_reduce_canonical(u, n);
    lemma_reduce_add(reduce(u, n), v, n);
    lemma_reduce_idempotent(u, n);
    lemma_reduce_add(u, v, n);
}

/// A product coefficient depends only on the coefficients of its factors.
proof fn lemma_conv_congruent(a: Seq<nat>, y1: Seq<nat>, y2: Seq<nat>, k: int, m: int)
    requires
        forall|j: int| #[trigger] coeff(y1, j) == coeff(y2, j),
    ensures
        conv(a, y1, k, m) == conv(a, y2, k, m),
    decreases m,
{
    if m > 0 {
        lemma_conv_congruent(a, y1, y2, k, m - 1);
        assert(coeff(y1, k - (m - 1)) == coeff(y2, k - (m - 1)));
    }
}

/// A product coefficient is additive in the second factor.
proof fn lemma_conv_linear(a: Seq<nat>, b: Seq<nat>, c: Seq<nat>, k: int, m: int)
    ensures
        conv(a, poly_add(b, c), k, m) == add_mod(conv(a, b, k, m), conv(a, c, k, m)),
    decreases m,
{
    if m > 0 {
        lemma_conv_linear(a, b, c, k, m - 1);
        let j = k - (m - 1);
        let x = coeff(a, m - 1);
        lemma_add_coeffs(b, c);
        assert(coeff(poly_add(b, c), j) == add_mod(coeff(b, j), coeff(c, j)));
        lemma_mul_distributes_over_add(x, coeff(b, j), coeff(c, j));
        lemma_add_swap_middle(
            conv(a, b, k, m - 1),
            conv(a, c, k, m - 1),
            mul_mod(x, coeff(b, j)),
            mul_mod(x, coeff(c, j)),
        );
    }
}

/// A product coefficient whose terms all vanish is zero.
proof fn lemma_conv_zero(x: Seq<nat>, y: Seq<nat>, k: int, m: int)
    requires
        forall|i: int| 0 <= i < m ==> coeff(x, i) == 0 || coeff(y, k - i) == 0,
    ensures
        conv(x, y, k, m) == 0,
    decreases m,
{
    if m > 0 {
        lemma_conv_zero(x, y, k, m - 1);
        let p = coeff(x, m - 1);
        let r = coeff(y, k - (m - 1));
        assert(p == 0 || r == 0);
        vstd::arithmetic::mul::lemma_mul_basics(p as int);
        vstd::arithmetic::mul::lemma_mul_basics(r as int);
        assert(p * r == 0);
        assert(mul_mod(p, r) == 0);
    }
}

/// Every coefficient of a product, also beyond its end, is the convolution sum.
proof fn lemma_mul_coeffs(x: Seq<nat>, y: Seq<nat>)
    ensures
        forall|k: int| #[trigger] coeff(poly_mul(x, y), k) == conv(x, y, k, x.len() as int),
{
    assert forall|k: int| #[trigger] coeff(poly_mul(x, y), k) == conv(x, y, k, x.len() as int) by {
        if x.len() == 0 || y.len() == 0 || k < 0 || k >= x.len() + y.len() - 1 {
            assert forall|i: int| 0 <= i < x.len() implies coeff(x, i) == 0 || coeff(y, k - i)
                == 0 by {}
            lemma_conv_zero(x, y, k, x.len() as int);
        }
    }
}

/// Multiplication distributes over addition in `Z_q[x]/(x^n + 1)`.
pub proof fn lemma_reduce_mul_distributes(a: Seq<nat>, b: Seq<nat>, c: Seq<nat>, n: nat)
    requires
        canonical(a),
        canonical(b),
        canonical(c),
    ensures
        reduce(poly_mul(a, reduce(poly_add(b, c), n)), n) == reduce(
            poly_add(reduce(poly_mul(a, b), n), reduce(poly_mul(a, c), n)),
            n,
        ),
{
    let s = poly_add(b, c);
    let m1 = poly_mul(a, s);
    let m2 = poly_add(poly_mul(a, b), poly_mul(a, c));
    lemma_poly_mul_commutative(a, reduce(s, n));
    lemma_reduce_mul_left(s, a, n);
    lemma_poly_mul_commutative(s, a);
    lemma_mul_coeffs(a, s);
    lemma_mul_coeffs(a, b);
    lemma_mul_coeffs(a, c);
    lemma_add_coeffs(poly_mul(a, b), poly_mul(a, c));
    assert forall|k: int| #[trigger] coeff(m1, k) == coeff(m2, k) by {
        lemma_conv_linear(a, b, c, k, a.len() as int);
    }
    lemma_trim_by_coeffs(m1, m2);
    lemma_mul_canonical(a, s);
    lemma_mul_canonical(a, b);
    lemma_mul_canonical(a, c);
    lemma_trim_reduce(m1, n);
    lemma_trim_reduce(m2, n);
    lemma_reduce_add(poly_mul(a, b), poly_mul(a, c), n);
}

proof fn lemma_conv_one(a: Seq<nat>, k: int, m: int)
    requires
        0 <= k,
        canonical(a),
    ensures
        conv(a, seq![1nat], k, m) == (if k < m { coeff(a, k) } else { 0 }),
    decreases m,
{
    if m > 0 {
        lemma_conv_one(a, k, m - 1);
        let one = seq![1nat];
        assert(coeff(a, k) < ZQ_MODULUS);
        if k == m - 1 {
            assert(coeff(one, 0) == 1);
            vstd::arithmetic::div_mod::lemma_small_mod(coeff(a, k), 17);
            assert(conv(a, one, k, m - 1) == 0);
            assert(coeff(a, m - 1) * 1 == coeff(a, k));
            assert(mul_mod(coeff(a, m - 1), coeff(one, k - (m - 1))) == coeff(a, k));
            assert(add_mod(0, coeff(a, k)) == coeff(a, k));
        } else {
            assert(coeff(one, k - (m - 1)) == 0);
            assert(mul_mod(coeff(a, m - 1), 0) == 0);
            lemma_conv_bound(a, one, k, m - 1);
            vstd::arithmetic::div_mod::lemma_small_mod(conv(a, one, k, m - 1), 17);
        }
    }
}

/// The constant polynomial `1` is a multiplicative identity for lists of residues.
pub proof fn lemma_poly_mul_one(a: Seq<nat>)
    requires
        canonical(a),
    ensures
        poly_mul(a, seq![1nat]) == a,
{
    if a.len() > 0 {
        assert forall|k: int| 0 <= k < a.len() implies #[trigger] poly_mul(a, seq![1nat])[k] == a[k] by {
            lemma_conv_one(a, k, a.len() as int);
        }
        assert(poly_mul(a, seq![1nat]) =~= a);
    } else {
        assert(poly_mul(a, seq![1nat]) =~= a);
    }
}

/// A product coefficient as a sum over any range that covers the first factor.
proof fn lemma_conv_as_sum(x: Seq<nat>, y: Seq<nat>, k: int, m: int)
    requires
        m >= x.len(),
    ensures
        conv(x, y, k, x.len() as int) == sum_mod(conv_terms(x, y, k), m),
{
    lemma_conv_is_sum(x, y, k, x.len() as int);
    let f = conv_terms(x, y, k);
    assert forall|i: int| x.len() <= i < m implies #[trigger] f(i) == 0 by {
        lemma_mul_zero(coeff(y, k - i));
    }
    lemma_sum_zero_tail(f, x.len() as int, m);
}

#[verifier::rlimit(50)]
#[verifier::spinoff_prover]
proof fn lemma_poly_mul_associative_at(a: Seq<nat>, b: Seq<nat>, c: Seq<nat>, k: int)
    ensures
        coeff(poly_mul(poly_mul(a, b), c), k) == coeff(poly_mul(a, poly_mul(b, c)), k),
{
    if k >= 0 {
        let ab = poly_mul(a, b);
        let bc = poly_mul(b, c);
        let mm = (a.len() + b.len() + c.len() + k + 1) as int;
        let g = |i: int, j: int| mul_mod(mul_mod(coeff(a, j), coeff(b, i - j)), coeff(c, k - i));
        let h = |j: int, l: int| mul_mod(coeff(a, j), mul_mod(coeff(b, l), coeff(c, k - j - l)));
        // The left side as a double sum, inner over j.
        lemma_mul_coeffs(ab, c);
        lemma_mul_coeffs(a, b);
        lemma_conv_as_sum(ab, c, k, mm);
        let lt = conv_terms(ab, c, k);
        let lrow = |i: int| sum_mod(|j: int| g(i, j), mm);
        assert forall|i: int| 0 <= i < mm implies #[trigger] lt(i) == lrow(i) by {
            lemma_conv_as_sum(a, b, i, mm);
            lemma_sum_scale(conv_terms(a, b, i), coeff(c, k - i), mm);
            let s1 = |j: int| mul_mod(conv_terms(a, b, i)(j), coeff(c, k - i));
            assert(s1 =~= |j: int| g(i, j));
        }
        lemma_sum_congruent(lt, lrow, mm);
        lemma_sum_swap(g, mm, mm);
        // The right side as a double sum, inner over l.
        lemma_mul_coeffs(a, bc);
        lemma_mul_coeffs(b, c);
        lemma_conv_as_sum(a, bc, k, mm);
        let rt = conv_terms(a, bc, k);
        let rrow = |j: int| sum_mod(|l: int| h(j, l), mm);
        assert forall|j: int| 0 <= j < mm implies #[trigger] rt(j) == rrow(j) by {
            lemma_conv_as_sum(b, c, k - j, mm);
            lemma_sum_scale_left(coeff(a, j), conv_terms(b, c, k - j), mm);
            let s1 = |l: int| mul_mod(coeff(a, j), conv_terms(b, c, k - j)(l));
            assert(s1 =~= |l: int| h(j, l));
        }
        lemma_sum_congruent(rt, rrow, mm);
        // Row by row, the two inner sums agree.
        let lcol = |j: int| sum_mod(|i: int| g(i, j), mm);
        assert forall|j: int| 0 <= j < mm implies #[trigger] lcol(j) == rrow(j) by {
            let gj = |i: int| g(i, j);
            let hj = |l: int| h(j, l);
            if j >= a.len() {
                assert forall|i: int| 0 <= i < mm implies #[trigger] gj(i) == 0 by {
                    lemma_mul_zero(coeff(b, i - j));
                    lemma_mul_zero(coeff(c, k - i));
                }
                assert forall|l: int| 0 <= l < mm implies #[trigger] hj(l) == 0 by {
                    lemma_mul_zero(mul_mod(coeff(b, l), coeff(c, k - j - l)));
                }
                lemma_sum_zeros(gj, mm);
                lemma_sum_zeros(hj, mm);
            } else {
                assert forall|i: int| 0 <= i < j implies #[trigger] gj(i) == 0 by {
                    lemma_mul_zero(coeff(a, j));
                    lemma_mul_zero(coeff(c, k - i));
                }
                lemma_sum_shift(gj, j, mm);
                let gs = |l: int| gj(l + j);
                assert forall|l: int| 0 <= l < mm - j implies #[trigger] gs(l) == hj(l) by {
                    lemma_mul_associative(coeff(a, j), coeff(b, l), coeff(c, k - j - l));
                    assert(l + j - j == l);
                    assert(k - (l + j) == k - j - l);
                }
                lemma_sum_congruent(gs, hj, mm - j);
                assert forall|l: int| mm - j <= l < mm implies #[trigger] hj(l) == 0 by {
                    lemma_mul_zero(coeff(c, k - j - l));
                    lemma_mul_zero(coeff(a, j));
                }
                lemma_sum_zero_tail(hj, mm - j, mm);
            }
        }
        lemma_sum_congruent(lcol, rrow, mm);
    }
}

/// Multiplication of coefficient lists is associative, coefficient by coefficient.
pub proof fn lemma_poly_mul_associative(a: Seq<nat>, b: Seq<nat>, c: Seq<nat>)
    ensures
        forall|k: int| #[trigger] coeff(poly_mul(poly_mul(a, b), c), k) == coeff(
            poly_mul(a, poly_mul(b, c)),
            k,
        ),
{
    assert forall|k: int| #[trigger] coeff(poly_mul(poly_mul(a, b), c), k) == coeff(
        poly_mul(a, poly_mul(b, c)),
        k,
    ) by {
        lemma_poly_mul_associative_at(a, b, c, k);
    }
}

/// The coefficient list of `x^n + 1`.
pub open spec fn x_n_plus_one(n: nat) -> Seq<nat> {
    Seq::new(n + 1, |i: int| if i == 0 || i == n { 1nat } else { 0nat })
}

/// A product is a list of residues.
pub proof fn lemma_mul_canonical(x: Seq<nat>, y: Seq<nat>)
    ensures
        canonical(poly_mul(x, y)),
{
    assert forall|i: int| 0 <= i < poly_mul(x, y).len() implies #[trigger] poly_mul(x, y)[i]
        < ZQ_MODULUS by {
        lemma_conv_bound(x, y, i, x.len() as int);
    }
}

/// A product coefficient depends only on the coefficients of the first factor.
proof fn lemma_mul_congruent_left(x1: Seq<nat>, x2: Seq<nat>, y: Seq<nat>)
    requires
        forall|j: int| #[trigger] coeff(x1, j) == coeff(x2, j),
    ensures
        forall|k: int| #[trigger] coeff(poly_mul(x1, y), k) == coeff(poly_mul(x2, y), k),
{
    lemma_poly_mul_commutative(x1, y);
    lemma_poly_mul_commutative(x2, y);
    lemma_mul_coeffs(y, x1);
    lemma_mul_coeffs(y, x2);
    assert forall|k: int| #[trigger] coeff(poly_mul(x1, y), k) == coeff(poly_mul(x2, y), k) by {
        lemma_conv_congruent(y, x1, x2, k, y.len() as int);
    }
}

/// A sum over a list with at most two nonzero coefficients, at `p` and `q`.
proof fn lemma_conv_two_points(x: Seq<nat>, y: Seq<nat>, k: int, m: int, p: int, q: int)
    requires
        0 <= p < q,
        forall|i: int| 0 <= i < m && i != p && i != q ==> #[trigger] coeff(x, i) == 0,
    ensures
        conv(x, y, k, m) == add_mod(
            if p < m {
                mul_mod(coeff(x, p), coeff(y, k - p))
            } else {
                0
            },
            if q < m {
                mul_mod(coeff(x, q), coeff(y, k - q))
            } else {
                0
            },
        ),
    decreases m,
{
    if m > 0 {
        lemma_conv_two_points(x, y, k, m - 1, p, q);
        let i = m - 1;
        let tp = mul_mod(coeff(x, p), coeff(y, k - p));
        let tq = mul_mod(coeff(x, q), coeff(y, k - q));
        vstd::arithmetic::div_mod::lemma_small_mod(tp, 17);
        if i != p && i != q {
            assert(coeff(x, i) == 0);
            lemma_mul_zero(coeff(y, k - i));
            lemma_conv_bound(x, y, k, m - 1);
            vstd::arithmetic::div_mod::lemma_small_mod(conv(x, y, k, m - 1), 17);
        }
    } else {
        assert(add_mod(0, 0) == 0);
    }
}

/// The coefficients of a product by `x^n + 1`.
proof fn lemma_mul_x_n_plus_one_coeffs(p: Seq<nat>, n: nat)
    requires
        n >= 1,
        canonical(p),
    ensures
        forall|k: int| #[trigger] coeff(poly_mul(p, x_n_plus_one(n)), k) == add_mod(
            coeff(p, k),
            coeff(p, k - n),
        ),
{
    let q = x_n_plus_one(n);
    lemma_poly_mul_commutative(p, q);
    lemma_mul_coeffs(q, p);
    assert forall|k: int| #[trigger] coeff(poly_mul(p, q), k) == add_mod(
        coeff(p, k),
        coeff(p, k - n),
    ) by {
        assert forall|i: int| 0 <= i < q.len() && i != 0 && i != n implies #[trigger] coeff(q, i)
            == 0 by {}
        lemma_conv_two_points(q, p, k, q.len() as int, 0, n as int);
        assert(coeff(q, 0) == 1);
        assert(coeff(q, n as int) == 1);
        assert(coeff(p, k) < ZQ_MODULUS);
        assert(coeff(p, k - n) < ZQ_MODULUS);
        vstd::arithmetic::div_mod::lemma_small_mod(coeff(p, k), 17);
        vstd::arithmetic::div_mod::lemma_small_mod(coeff(p, k - n), 17);
        assert(mul_mod(1, coeff(p, k)) == coeff(p, k));
        assert(mul_mod(1, coeff(p, k - n)) == coeff(p, k - n));
        assert(coeff(poly_mul(p, q), k) == coeff(poly_mul(q, p), k));
    }
}

/// A multiple of `x^n + 1` has remainder zero.
#[verifier::rlimit(50)]
#[verifier::spinoff_prover]
pub proof fn lemma_reduce_multiple_zero(p: Seq<nat>, n: nat)
    requires
        n >= 1,
        canonical(p),
    ensures
        reduce(poly_mul(p, x_n_plus_one(n)), n) == Seq::<nat>::empty(),
    decreases p.len(),
{
    let q = x_n_plus_one(n);
    let w = poly_mul(p, q);
    if p.len() == 0 {
        assert(w == Seq::<nat>::empty());
    } else {
        let l = p.len() as int;
        let p2 = p.drop_last();
        lemma_reduce_multiple_zero(p2, n);
        let w2 = poly_mul(p2, q);
        lemma_fold_unfold(w, n);
        let sw = fold_step(w, n);
        let top = w.len() - 1;
        assert(top == l + n - 1);
        lemma_mul_x_n_plus_one_coeffs(p, n);
        lemma_mul_x_n_plus_one_coeffs(p2, n);
        lemma_mul_canonical(p, q);
        lemma_mul_canonical(p2, q);
        assert forall|k: int| #[trigger] coeff(sw, k) == coeff(w2, k) by {
            assert(coeff(w2, k) == add_mod(coeff(p2, k), coeff(p2, k - n)));
            if 0 <= k < top && k != l - 1 {
                assert(coeff(w, k) == add_mod(coeff(p, k), coeff(p, k - n)));
                assert(coeff(p2, k) == coeff(p, k));
                assert(coeff(p2, k - n) == coeff(p, k - n));
            } else if k == l - 1 {
                let x = p[l - 1];
                let y = coeff(p, l - 1 - n);
                assert(coeff(w, k) == add_mod(x, y));
                assert(coeff(w, top) == add_mod(coeff(p, top), x));
                assert(coeff(p, top) == 0);
                lemma_add_commutative(0, x);
                lemma_sub_of_sums(x, y, x, 0);
                vstd::arithmetic::div_mod::lemma_small_mod(y, 17);
                vstd::arithmetic::div_mod::lemma_small_mod(x, 17);
                assert(coeff(p2, k) == 0);
                assert(coeff(p2, k - n) == y);
            } else {
                assert(coeff(p2, k) == 0);
                assert(coeff(p2, k - n) == 0);
            }
        }
        assert(canonical(sw)) by {
            assert forall|i: int| 0 <= i < sw.len() implies #[trigger] sw[i] < ZQ_MODULUS by {
                assert(coeff(sw, i) == sw[i]);
            }
        }
        lemma_trim_by_coeffs(sw, w2);
        lemma_trim_reduce(sw, n);
        lemma_trim_reduce(w2, n);
    }
}

/// What one folding step of `u` takes away: `c * x^(t-n) * (x^n + 1)`, where `c * x^t` is the
/// leading term of `u`.
spec fn fold_residue(u: Seq<nat>, n: nat) -> Seq<nat> {
    let t = u.len() - 1;
    Seq::new((t + 1) as nat, |i: int| if i == t - n || i == t { u[t] } else { 0nat })
}

proof fn lemma_fold_split(u: Seq<nat>, n: nat)
    requires
        n >= 1,
        u.len() > n,
        canonical(u),
    ensures
        forall|j: int| #[trigger] coeff(u, j) == coeff(poly_add(fold_step(u, n), fold_residue(u, n)), j),
{
    let t = u.len() - 1;
    let c = u[t];
    let u2 = fold_step(u, n);
    let d = fold_residue(u, n);
    lemma_add_coeffs(u2, d);
    assert forall|j: int| #[trigger] coeff(u, j) == coeff(poly_add(u2, d), j) by {
        vstd::arithmetic::div_mod::lemma_small_mod(coeff(u, j), 17);
        if j == t - n {
            let x = u[t - n];
            vstd::arithmetic::div_mod::lemma_small_mod(x, 17);
            vstd::arithmetic::div_mod::lemma_add_mod_noop(x - c, c as int, 17);
            vstd::arithmetic::div_mod::lemma_mod_twice(x - c, 17);
            vstd::arithmetic::div_mod::lemma_small_mod(c, 17);
        }
    }
}

proof fn lemma_mul_split(u: Seq<nat>, u2: Seq<nat>, d: Seq<nat>, v: Seq<nat>)
    requires
        forall|j: int| #[trigger] coeff(u, j) == coeff(poly_add(u2, d), j),
    ensures
        forall|k: int| #[trigger] coeff(poly_mul(u, v), k) == coeff(
            poly_add(poly_mul(u2, v), poly_mul(d, v)),
            k,
        ),
{
    lemma_mul_congruent_left(u, poly_add(u2, d), v);
    lemma_poly_mul_commutative(poly_add(u2, d), v);
    lemma_poly_mul_commutative(u2, v);
    lemma_poly_mul_commutative(d, v);
    lemma_mul_coeffs(v, poly_add(u2, d));
    lemma_mul_coeffs(v, u2);
    lemma_mul_coeffs(v, d);
    lemma_add_coeffs(poly_mul(u2, v), poly_mul(d, v));
    assert forall|k: int| #[trigger] coeff(poly_mul(u, v), k) == coeff(
        poly_add(poly_mul(u2, v), poly_mul(d, v)),
        k,
    ) by {
        lemma_conv_linear(v, u2, d, k, v.len() as int);
    }
}

#[verifier::rlimit(50)]
#[verifier::spinoff_prover]
proof fn lemma_fold_residue_product(u: Seq<nat>, v: Seq<nat>, n: nat)
    requires
        n >= 1,
        u.len() > n,
        canonical(u),
    ensures
        reduce(poly_mul(fold_residue(u, n), v), n) == Seq::<nat>::empty(),
{
    let t = u.len() - 1;
    let c = u[t];
    let d = fold_residue(u, n);
    let m2 = poly_mul(d, v);
    let p = Seq::new((t - n + v.len()) as nat, |j: int| mul_mod(c, coeff(v, j - (t - n))));
    assert forall|j: int| #[trigger] coeff(p, j) == mul_mod(c, coeff(v, j - (t - n))) by {
        lemma_mul_zero(c);
    }
    assert(canonical(p));
    let q = x_n_plus_one(n);
    lemma_mul_x_n_plus_one_coeffs(p, n);
    lemma_mul_coeffs(d, v);
    assert forall|k: int| #[trigger] coeff(m2, k) == coeff(poly_mul(p, q), k) by {
        assert forall|i: int| 0 <= i < d.len() && i != t - n && i != t implies #[trigger] coeff(d, i)
            == 0 by {}
        lemma_conv_two_points(d, v, k, d.len() as int, t - n, t);
        assert(k - n - (t - n) == k - t);
    }
    lemma_mul_canonical(d, v);
    lemma_mul_canonical(p, q);
    lemma_trim_by_coeffs(m2, poly_mul(p, q));
    lemma_trim_reduce(m2, n);
    lemma_trim_reduce(poly_mul(p, q), n);
    lemma_reduce_multiple_zero(p, n);
}

/// One folding step of the first factor does not change the remainder of a product.
#[verifier::rlimit(50)]
#[verifier::spinoff_prover]
proof fn lemma_reduce_mul_step(u: Seq<nat>, v: Seq<nat>, n: nat)
    requires
        n >= 1,
        u.len() > n,
        canonical(u),
        canonical(v),
    ensures
        reduce(poly_mul(fold_step(u, n), v), n) == reduce(poly_mul(u, v), n),
{
    let u2 = fold_step(u, n);
    let d = fold_residue(u, n);
    let m1 = poly_mul(u2, v);
    let m2 = poly_mul(d, v);
    lemma_fold_split(u, n);
    lemma_mul_split(u, u2, d, v);
    lemma_mul_canonical(u, v);
    lemma_mul_canonical(u2, v);
    lemma_mul_canonical(d, v);
    lemma_trim_by_coeffs(poly_mul(u, v), poly_add(m1, m2));
    lemma_trim_reduce(poly_mul(u, v), n);
    lemma_trim_reduce(poly_add(m1, m2), n);
    lemma_fold_residue_product(u, v, n);
    lemma_reduce_add(m1, m2, n);
    lemma_reduce_canonical(m1, n);
    let r1 = reduce(m1, n);
    assert(poly_add(r1, Seq::<nat>::empty()) =~= r1);
    lemma_reduce_idempotent(m1, n);
}

/// Folding the first factor does not change the remainder of a product.
proof fn lemma_reduce_mul_fold(u: Seq<nat>, v: Seq<nat>, n: nat)
    requires
        n >= 1,
        canonical(u),
        canonical(v),
    ensures
        reduce(poly_mul(fold_negacyclic(u, n), v), n) == reduce(poly_mul(u, v), n),
    decreases u.len(),
{
    if u.len() > n {
        lemma_fold_unfold(u, n);
        let u2 = fold_step(u, n);
        assert(canonical(u2));
        lemma_reduce_mul_fold(u2, v, n);
        lemma_reduce_mul_step(u, v, n);
    }
}

/// Reduction modulo `x^n + 1` is compatible with multiplication: multiplying the remainder
/// in place of a polynomial does not change the remainder of the product.
pub proof fn lemma_reduce_mul_left(u: Seq<nat>, v: Seq<nat>, n: nat)
    requires
        canonical(u),
        canonical(v),
    ensures
        reduce(poly_mul(reduce(u, n), v), n) == reduce(poly_mul(u, v), n),
{
    if n >= 1 {
        let f = fold_negacyclic(u, n);
        lemma_fold_canonical(u, n);
        lemma_trim_coeffs(f);
        lemma_mul_congruent_left(trim(f), f, v);
        lemma_mul_canonical(trim(f), v);
        lemma_mul_canonical(f, v);
        lemma_trim_by_coeffs(poly_mul(trim(f), v), poly_mul(f, v));
        lemma_trim_reduce(poly_mul(trim(f), v), n);
        lemma_trim_reduce(poly_mul(f, v), n);
        lemma_reduce_mul_fold(u, v, n);
    }
}

/// `x^(j+1) = x * x^j` in `Z_q`.
proof fn lemma_pow_mod_step(x: nat, j: nat)
    ensures
        pow_mod(x, j + 1) == mul_mod(x, pow_mod(x, j)),
{
    let p = pow(x as int, j);
    assert(pow(x as int, j + 1) == x * p) by {
        vstd::arithmetic::power::lemma_pow_adds(x as int, j, 1);
        vstd::arithmetic::power::lemma_pow1(x as int);
        vstd::arithmetic::mul::lemma_mul_is_commutative(p, x as int);
    }
    vstd::arithmetic::div_mod::lemma_mul_mod_noop_right(x as int, p, 17);
    vstd::arithmetic::div_mod::lemma_mod_bound(p, 17);
}

/// The value of a polynomial at `x` is the sum of its terms: `sum_i s[i] * x^i` in `Z_q`.
pub proof fn lemma_eval_is_sum(s: Seq<nat>, x: nat)
    ensures
        eval(s, x) == sum_mod(|i: int| mul_mod(coeff(s, i), pow_mod(x, i as nat)), s.len() as int),
    decreases s.len(),
{
    let f = |i: int| mul_mod(coeff(s, i), pow_mod(x, i as nat));
    if s.len() > 0 {
        let t = s.drop_first();
        let g = |j: int| mul_mod(coeff(t, j), pow_mod(x, j as nat));
        lemma_eval_is_sum(t, x);
        lemma_sum_peel_first(f, s.len() as int);
        let f1 = |j: int| f(j + 1);
        let xg = |j: int| mul_mod(x, g(j));
        assert forall|j: int| 0 <= j < s.len() - 1 implies #[trigger] f1(j) == xg(j) by {
            assert(coeff(s, j + 1) == coeff(t, j));
            lemma_pow_mod_step(x, j as nat);
            assert((j + 1) as nat == j as nat + 1);
            lemma_mul_associative(coeff(t, j), x, pow_mod(x, j as nat));
            lemma_mul_associative(x, coeff(t, j), pow_mod(x, j as nat));
            lemma_mul_commutative(coeff(t, j), x);
        }
        lemma_sum_congruent(f1, xg, s.len() - 1);
        lemma_sum_scale_left(x, g, s.len() - 1);
        assert(pow_mod(x, 0) == 1) by {
            vstd::arithmetic::power::lemma_pow0(x as int);
        }
        assert(coeff(s, 0) == s[0]);
        assert(f(0) == mul_mod(s[0], pow_mod(x, 0)));
        vstd::arithmetic::mul::lemma_mul_basics(s[0] as int);
        assert(mul_mod(s[0], 1) == s[0] % 17);
        assert(f(0) == s[0] % 17);
        vstd::arithmetic::div_mod::lemma_add_mod_noop(s[0] as int, mul_mod(x, eval(t, x)) as int, 17);
        vstd::arithmetic::div_mod::lemma_mod_twice(s[0] as int, 17);
        vstd::arithmetic::div_mod::lemma_small_mod(mul_mod(x, eval(t, x)), 17);
    }
}

/// Subtraction works degree by degree: at every degree `k` the difference holds
/// `a[k] - b[k]` in `Z_q`, coefficients beyond a list's end counting as zero, and it is as
/// long as the longer operand, so no coefficient of either operand is dropped.
pub proof fn lemma_poly_sub_coeffs(a: Seq<nat>, b: Seq<nat>)
    ensures
        poly_sub(a, b).len() == (if a.len() >= b.len() { a.len() } else { b.len() }),
        forall|k: int| #[trigger] coeff(poly_sub(a, b), k) == sub_mod(coeff(a, k), coeff(b, k)),
{
    assert forall|k: int| #[trigger] coeff(poly_sub(a, b), k) == sub_mod(coeff(a, k), coeff(b, k)) by {
        if k < 0 || k >= poly_sub(a, b).len() {
            assert(coeff(a, k) == 0 && coeff(b, k) == 0);
            assert(sub_mod(0, 0) == 0);
        }
    }
}

/// Subtracting and adding back the same polynomial gives back the first one:
/// `(a - b) + b = a` at every degree, for a list of residues `a`.
pub proof fn lemma_poly_sub_add_cancel(a: Seq<nat>, b: Seq<nat>)
    requires
        canonical(a),
    ensures
        forall|k: int| #[trigger] coeff(poly_add(poly_sub(a, b), b), k) == coeff(a, k),
        trim(poly_add(poly_sub(a, b), b)) == trim(a),
{
    lemma_poly_sub_coeffs(a, b);
    lemma_add_coeffs(poly_sub(a, b), b);
    assert forall|k: int| #[trigger] coeff(poly_add(poly_sub(a, b), b), k) == coeff(a, k) by {
        let x = coeff(a, k);
        let y = coeff(b, k);
        assert(x < ZQ_MODULUS);
        assert(coeff(poly_add(poly_sub(a, b), b), k) == add_mod(sub_mod(x, y), y));
        vstd::arithmetic::div_mod::lemma_mod_bound(x - y, 17);
        vstd::arithmetic::div_mod::lemma_add_mod_noop_right(y as int, x - y, 17);
        assert(y + (x - y) == x);
        vstd::arithmetic::div_mod::lemma_small_mod(x, 17);
        assert(add_mod(sub_mod(x, y), y) == x);
    }
    lemma_trim_by_coeffs(poly_add(poly_sub(a, b), b), a);
}

/// The degree is the index of the highest nonzero coefficient: that coefficient is nonzero
/// and every one above it is zero; a list with no nonzero coefficient has degree 0.
pub proof fn lemma_degree_is_highest_nonzero(s: Seq<nat>)
    ensures
        (forall|j: int| 0 <= j < s.len() ==> #[trigger] s[j] == 0) ==> degree_of(s) == 0,
        (exists|j: int| 0 <= j < s.len() && #[trigger] s[j] != 0) ==> {
            &&& degree_of(s) < s.len()
            &&& s[degree_of(s) as int] != 0
            &&& forall|j: int| degree_of(s) < j < s.len() ==> #[trigger] s[j] == 0
        },
{
    lemma_trim(s);
    let t = trim(s).len() as int;
    if t > 0 {
        assert(trim(s)[t - 1] == s.take(t)[t - 1]);
        assert(s[t - 1] != 0);
    }
    if exists|j: int| 0 <= j < s.len() && #[trigger] s[j] != 0 {
        let j = choose|j: int| 0 <= j < s.len() && #[trigger] s[j] != 0;
        assert(t > 0);
    }
}

/// Setting the coefficient of `x^i` to `v` changes that coefficient only: the new list holds
/// `v` at degree `i` and the old coefficient at every other degree.
pub proof fn lemma_set_coeff_changes_one(s: Seq<nat>, i: nat, v: nat)
    ensures
        coeff(set_coeff(s, i, v), i as int) == v,
        forall|k: int| k != i ==> #[trigger] coeff(set_coeff(s, i, v), k) == coeff(s, k),
        set_coeff(s, i, v).len() == (if i < s.len() { s.len() } else { i + 1 }),
{
}

} // verus!
