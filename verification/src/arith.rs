//! Integer facts that the rational arithmetic rests on: Euclid's greatest
//! common divisor and the canonical (lowest-terms) form of a quotient.
use vstd::arithmetic::div_mod::{
    lemma_fundamental_div_mod, lemma_fundamental_div_mod_converse, lemma_mod_multiples_basic,
};
use vstd::prelude::*;

verus! {

/// Greatest common divisor of two naturals, by Euclid's algorithm.
pub open spec fn gcd(a: nat, b: nat) -> nat
    decreases b,
{
    if b == 0 {
        a
    } else {
        gcd(b, a % b)
    }
}

/// Absolute value of an integer.
pub open spec fn abs_nat(x: int) -> nat {
    if x < 0 {
        (-x) as nat
    } else {
        x as nat
    }
}

/// Whether an integer can be held in an `i64`.
pub open spec fn fits_i64(x: int) -> bool {
    i64::MIN <= x <= i64::MAX
}

/// The lowest-terms form of `n / d` with a positive denominator (for `d != 0`),
/// as `num::rational::Ratio::new` computes it.
pub open spec fn normalize(n: int, d: int) -> (int, int) {
    let g = gcd(abs_nat(n), abs_nat(d));
    let mag = abs_nat(n) / g;
    let den = abs_nat(d) / g;
    let negative = (n < 0) != (d < 0);
    (if negative { -(mag as int) } else { mag as int }, den as int)
}

/// A pair is canonical when it is its own lowest-terms form.
pub open spec fn is_canonical(p: (int, int)) -> bool {
    p.1 > 0 && normalize(p.0, p.1) == p
}

/// Whether both parts of a pair fit in an `i64`.
pub open spec fn pair_fits(p: (int, int)) -> bool {
    fits_i64(p.0) && fits_i64(p.1)
}

/// The greatest common divisor divides both arguments and is positive
/// when one of them is.
pub proof fn lemma_gcd_divides(a: nat, b: nat)
    requires
        a > 0 || b > 0,
    ensures
        gcd(a, b) > 0,
        a % gcd(a, b) == 0,
        b % gcd(a, b) == 0,
    decreases b,
{
    if b == 0 {
        lemma_mod_multiples_basic(1, a as int);
    } else {
        let r = a % b;
        lemma_gcd_divides(b, r);
        let g = gcd(b, r);
        lemma_fundamental_div_mod(a as int, b as int);
        lemma_fundamental_div_mod(b as int, g as int);
        lemma_fundamental_div_mod(r as int, g as int);
        let q = a as int / b as int;
        let kb = b as int / g as int;
        let kr = r as int / g as int;
        assert(a as int == (q * kb + kr) * g) by (nonlinear_arith)
            requires
                a as int == b as int * q + r as int,
                b as int == g as int * kb,
                r as int == g as int * kr,
        ;
        lemma_mod_multiples_basic(q * kb + kr, g as int);
    }
}

/// `(k * x) % (k * y) == k * (x % y)` for positive `k` and `y`.
pub proof fn lemma_mod_scale(k: nat, x: nat, y: nat)
    requires
        k > 0,
        y > 0,
    ensures
        (k * x) % (k * y) == k * (x % y),
{
    lemma_fundamental_div_mod(x as int, y as int);
    let q = x as int / y as int;
    let r = x as int % y as int;
    assert(0 <= k * r < k * y) by (nonlinear_arith)
        requires
            0 <= r < y,
            k > 0,
    ;
    assert(k * x == q * (k * y) + k * r) by (nonlinear_arith)
        requires
            x == y * q + r,
    ;
    lemma_fundamental_div_mod_converse((k * x) as int, (k * y) as int, q, (k * r) as int);
}

/// Scaling both arguments scales their greatest common divisor.
pub proof fn lemma_gcd_scale(k: nat, x: nat, y: nat)
    requires
        k > 0,
    ensures
        gcd(k * x, k * y) == k * gcd(x, y),
    decreases y,
{
    if y == 0 {
        assert(k * y == 0);
    } else {
        assert(k * y > 0) by (nonlinear_arith)
            requires
                k > 0,
                y > 0,
        ;
        lemma_mod_scale(k, x, y);
        lemma_gcd_scale(k, y, x % y);
    }
}

/// Dividing out the greatest common divisor leaves coprime parts.
pub proof fn lemma_gcd_quotients_coprime(a: nat, b: nat)
    requires
        a > 0 || b > 0,
    ensures
        gcd(a / gcd(a, b), b / gcd(a, b)) == 1,
        a == gcd(a, b) * (a / gcd(a, b)),
        b == gcd(a, b) * (b / gcd(a, b)),
{
    lemma_gcd_divides(a, b);
    let g = gcd(a, b);
    lemma_fundamental_div_mod(a as int, g as int);
    lemma_fundamental_div_mod(b as int, g as int);
    let a1 = a / g;
    let b1 = b / g;
    assert(a == g * a1);
    assert(b == g * b1);
    lemma_gcd_scale(g, a1, b1);
    assert(g * gcd(a1, b1) == g * 1);
    assert(gcd(a1, b1) == 1) by (nonlinear_arith)
        requires
            g * gcd(a1, b1) == g * 1,
            g > 0,
    ;
}

/// `normalize` gives a canonical pair whose value equals `n / d`.
pub proof fn lemma_normalize_canonical(n: int, d: int)
    requires
        d != 0,
    ensures
        is_canonical(normalize(n, d)),
        normalize(n, d).0 * d == n * normalize(n, d).1,
{
    let an = abs_nat(n);
    let ad = abs_nat(d);
    lemma_gcd_quotients_coprime(an, ad);
    let g = gcd(an, ad);
    let p = normalize(n, d);
    let mag = an / g;
    let den = ad / g;
    assert(den > 0) by (nonlinear_arith)
        requires
            ad == g * den,
            ad > 0,
    ;
    assert(abs_nat(p.0) == mag);
    assert(abs_nat(p.1) == den);
    assert(gcd(mag, den) == 1);
    lemma_div_by_one(mag);
    lemma_div_by_one(den);
    assert(normalize(p.0, p.1) == p);
    // value preservation
    assert(p.0 * d == n * p.1) by (nonlinear_arith)
        requires
            an == g * mag,
            ad == g * den,
            p.1 == den,
            p.0 == (if (n < 0) != (d < 0) {
                -(mag as int)
            } else {
                mag as int
            }),
            an == (if n < 0 {
                -n
            } else {
                n
            }),
            ad == (if d < 0 {
                -d
            } else {
                d
            }),
    ;
}

proof fn lemma_div_by_one(x: nat)
    ensures
        x / 1 == x,
{
}

/// A canonical pair with denominator one is an integer.
pub proof fn lemma_integer_canonical(n: int)
    ensures
        is_canonical((n, 1)),
{
    let a = abs_nat(n);
    assert(gcd(a, 1) == gcd(1, a % 1));
    assert(a % 1 == 0);
    assert(gcd(1, 0) == 1);
    assert(gcd(a, 1) == 1);
    lemma_div_by_one(a);
    lemma_div_by_one(1);
    assert(abs_nat(1) == 1);
    assert(normalize(n, 1).1 == 1);
    assert(normalize(n, 1).0 == n);
}


/// Scaling a pair by a positive factor does not change its lowest terms.
pub proof fn lemma_normalize_scale(k: int, n: int, d: int)
    requires
        k > 0,
        d != 0,
    ensures
        normalize(k * n, k * d) == normalize(n, d),
{
    let an = abs_nat(n);
    let ad = abs_nat(d);
    assert(abs_nat(k * n) == k * an) by (nonlinear_arith)
        requires
            k > 0,
            an == abs_nat(n),
    ;
    assert(abs_nat(k * d) == k * ad) by (nonlinear_arith)
        requires
            k > 0,
            ad == abs_nat(d),
    ;
    lemma_gcd_scale(k as nat, an, ad);
    lemma_gcd_divides(an, ad);
    let g = gcd(an, ad);
    vstd::arithmetic::div_mod::lemma_div_multiples_vanish_quotient(k, an as int, g as int);
    vstd::arithmetic::div_mod::lemma_div_multiples_vanish_quotient(k, ad as int, g as int);
    assert((k * n < 0) == (n < 0)) by (nonlinear_arith)
        requires
            k > 0,
    ;
    assert((k * d < 0) == (d < 0)) by (nonlinear_arith)
        requires
            k > 0,
    ;
}

/// Two pairs in lowest terms with the same value are the same pair.
pub proof fn lemma_canonical_unique(p: (int, int), q: (int, int))
    requires
        is_canonical(p),
        is_canonical(q),
        p.0 * q.1 == q.0 * p.1,
    ensures
        p == q,
{
    lemma_normalize_scale(q.1, p.0, p.1);
    lemma_normalize_scale(p.1, q.0, q.1);
    assert(q.1 * p.0 == p.1 * q.0) by (nonlinear_arith)
        requires
            p.0 * q.1 == q.0 * p.1,
    ;
    assert(q.1 * p.1 == p.1 * q.1) by (nonlinear_arith);
}

} // verus!
