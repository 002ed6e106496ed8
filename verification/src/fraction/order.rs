//! How the arithmetic on pairs keeps order: putting pairs in lowest terms,
//! and adding, subtracting or scaling by a value that is not negative.
use crate::arith::{is_canonical, lemma_normalize_canonical, normalize};
use crate::fraction::{frac_add, frac_le, frac_mul, frac_sub};
use vstd::prelude::*;

verus! {

/// Lowest terms keep the order of two pairs with positive denominators.
pub(crate) proof fn lemma_normalize_le(n: int, d: int, n2: int, d2: int)
    requires
        d > 0,
        d2 > 0,
        n * d2 <= n2 * d,
    ensures
        frac_le(normalize(n, d), normalize(n2, d2)),
{
    lemma_normalize_canonical(n, d);
    lemma_normalize_canonical(n2, d2);
    let (a, b) = normalize(n, d);
    let (a2, b2) = normalize(n2, d2);
    assert(a * b2 * (d * d2) == n * d2 * (b * b2)) by (nonlinear_arith)
        requires
            a * d == n * b,
    ;
    assert(a2 * b * (d * d2) == n2 * d * (b * b2)) by (nonlinear_arith)
        requires
            a2 * d2 == n2 * b2,
    ;
    assert(n * d2 * (b * b2) <= n2 * d * (b * b2)) by (nonlinear_arith)
        requires
            n * d2 <= n2 * d,
            b > 0,
            b2 > 0,
    ;
    assert(a * b2 <= a2 * b) by (nonlinear_arith)
        requires
            a * b2 * (d * d2) <= a2 * b * (d * d2),
            d > 0,
            d2 > 0,
    ;
}

/// A pair in lowest terms of a value that is not negative has a numerator
/// that is not negative.
pub(crate) proof fn lemma_normalize_nonneg(n: int, d: int)
    requires
        n >= 0,
        d > 0,
    ensures
        normalize(n, d).0 >= 0,
        normalize(n, d).1 > 0,
{
    lemma_normalize_canonical(n, d);
    let (a, b) = normalize(n, d);
    assert(a >= 0) by (nonlinear_arith)
        requires
            a * d == n * b,
            n >= 0,
            d > 0,
            b > 0,
    ;
}

/// Subtracting the same value keeps order.
pub(crate) proof fn lemma_sub_le(a: (int, int), b: (int, int), c: (int, int))
    requires
        a.1 > 0,
        b.1 > 0,
        c.1 > 0,
        frac_le(a, b),
    ensures
        frac_le(frac_sub(a, c), frac_sub(b, c)),
{
    let (a0, a1) = a;
    let (b0, b1) = b;
    let (c0, c1) = c;
    assert(a1 * c1 > 0 && b1 * c1 > 0) by (nonlinear_arith)
        requires
            a1 > 0,
            b1 > 0,
            c1 > 0,
    ;
    let cc = c1 * c1;
    vstd::arithmetic::mul::lemma_mul_is_distributive_sub_other_way(b1 * c1, a0 * c1, c0 * a1);
    vstd::arithmetic::mul::lemma_mul_is_distributive_sub_other_way(a1 * c1, b0 * c1, c0 * b1);
    assert((a0 * c1) * (b1 * c1) == cc * (a0 * b1)) by (nonlinear_arith)
        requires
            cc == c1 * c1,
    ;
    assert((b0 * c1) * (a1 * c1) == cc * (b0 * a1)) by (nonlinear_arith)
        requires
            cc == c1 * c1,
    ;
    assert((c0 * a1) * (b1 * c1) == (c0 * b1) * (a1 * c1)) by (nonlinear_arith);
    assert(cc * (a0 * b1) <= cc * (b0 * a1)) by (nonlinear_arith)
        requires
            a0 * b1 <= b0 * a1,
            cc == c1 * c1,
    ;
    lemma_normalize_le(a0 * c1 - c0 * a1, a1 * c1, b0 * c1 - c0 * b1, b1 * c1);
}

/// Scaling by a value that is not negative keeps order.
pub(crate) proof fn lemma_mul_le(k: (int, int), a: (int, int), b: (int, int))
    requires
        k.0 >= 0,
        k.1 > 0,
        a.1 > 0,
        b.1 > 0,
        frac_le(a, b),
    ensures
        frac_le(frac_mul(k, a), frac_mul(k, b)),
{
    let (k0, k1) = k;
    let (a0, a1) = a;
    let (b0, b1) = b;
    assert(k1 * a1 > 0 && k1 * b1 > 0) by (nonlinear_arith)
        requires
            k1 > 0,
            a1 > 0,
            b1 > 0,
    ;
    let kk = k0 * k1;
    assert(kk >= 0) by (nonlinear_arith)
        requires
            k0 >= 0,
            k1 > 0,
            kk == k0 * k1,
    ;
    assert((k0 * a0) * (k1 * b1) == kk * (a0 * b1)) by (nonlinear_arith)
        requires
            kk == k0 * k1,
    ;
    assert((k0 * b0) * (k1 * a1) == kk * (b0 * a1)) by (nonlinear_arith)
        requires
            kk == k0 * k1,
    ;
    assert(kk * (a0 * b1) <= kk * (b0 * a1)) by (nonlinear_arith)
        requires
            a0 * b1 <= b0 * a1,
            kk >= 0,
    ;
    lemma_normalize_le(k0 * a0, k1 * a1, k0 * b0, k1 * b1);
}

/// Adding the same value keeps order, and gives pairs in lowest terms.
pub(crate) proof fn lemma_add_le(t: (int, int), a: (int, int), b: (int, int))
    requires
        t.1 > 0,
        a.1 > 0,
        b.1 > 0,
        frac_le(a, b),
    ensures
        frac_le(frac_add(t, a), frac_add(t, b)),
        is_canonical(frac_add(t, a)),
        is_canonical(frac_add(t, b)),
{
    let (t0, t1) = t;
    let (a0, a1) = a;
    let (b0, b1) = b;
    assert(t1 * a1 > 0 && t1 * b1 > 0) by (nonlinear_arith)
        requires
            t1 > 0,
            a1 > 0,
            b1 > 0,
    ;
    let tt = t1 * t1;
    vstd::arithmetic::mul::lemma_mul_is_distributive_add_other_way(t1 * b1, t0 * a1, a0 * t1);
    vstd::arithmetic::mul::lemma_mul_is_distributive_add_other_way(t1 * a1, t0 * b1, b0 * t1);
    assert((t0 * a1) * (t1 * b1) == (t0 * b1) * (t1 * a1)) by (nonlinear_arith);
    assert((a0 * t1) * (t1 * b1) == tt * (a0 * b1)) by (nonlinear_arith)
        requires
            tt == t1 * t1,
    ;
    assert((b0 * t1) * (t1 * a1) == tt * (b0 * a1)) by (nonlinear_arith)
        requires
            tt == t1 * t1,
    ;
    assert(tt * (a0 * b1) <= tt * (b0 * a1)) by (nonlinear_arith)
        requires
            a0 * b1 <= b0 * a1,
            tt == t1 * t1,
    ;
    lemma_normalize_le(t0 * a1 + a0 * t1, t1 * a1, t0 * b1 + b0 * t1, t1 * b1);
    lemma_normalize_canonical(t0 * a1 + a0 * t1, t1 * a1);
    lemma_normalize_canonical(t0 * b1 + b0 * t1, t1 * b1);
}

} // verus!
