//! Why the continued-fraction walk of `limit_denominator` ends on the closest
//! fraction: the last convergent and the last semiconvergent are neighbours
//! that enclose the value, and no fraction between them has a small
//! enough denominator.
use crate::arith::{abs_nat, is_canonical, lemma_canonical_unique, lemma_normalize_canonical, normalize};
use crate::fraction::{cf_walk, fits_i128, frac_le, frac_lt, lemma_normalize_den_le, spec_limit_denominator};
use vstd::arithmetic::div_mod::{lemma_fundamental_div_mod, lemma_mod_bound};
use vstd::prelude::*;

verus! {

/// `a` lies no farther from `x` than `b` does (denominators positive).
pub open spec fn frac_no_farther(x: (int, int), a: (int, int), b: (int, int)) -> bool {
    abs_nat(x.0 * a.1 - a.0 * x.1) * b.1 <= abs_nat(x.0 * b.1 - b.0 * x.1) * a.1
}

/// What holds of each state `(p0, q0, p1, q1, n, d)` of the walk over
/// `n0 / d0`: the two convergents map the remainder pair back to the value,
/// they are neighbours, and their denominators are within `max`.
pub open spec fn walk_inv(s: (int, int, int, int, int, int), n0: int, d0: int, max: int) -> bool {
    let (p0, q0, p1, q1, n, d) = s;
    &&& n0 == p1 * n + p0 * d
    &&& d0 == q1 * n + q0 * d
    &&& (p1 * q0 - p0 * q1 == 1 || p1 * q0 - p0 * q1 == -1)
    &&& 0 <= q0 <= max
    &&& 0 <= q1 <= max
    &&& d >= 0
    &&& (q1 == 0 || n > d)
}

/// The walk keeps its invariant and stops when the remainder is zero or the
/// next convergent's denominator would pass `max`.
proof fn lemma_cf_walk_inv(s: (int, int, int, int, int, int), n0: int, d0: int, max: int)
    requires
        walk_inv(s, n0, d0, max),
        cf_walk(s, max) is Some,
    ensures
        walk_inv(cf_walk(s, max)->0, n0, d0, max),
        ({
            let r = cf_walk(s, max)->0;
            &&& r.5 == 0 || (r.5 > 0 && r.1 + (r.4 / r.5) * r.3 > max)
            &&& s.3 > 0 ==> r.3 > 0
            &&& s.5 > 0 && s.3 == 0 && s.1 <= max ==> r.3 > 0
        }),
    decreases (if s.5 > 0 {
        s.5
    } else {
        0
    }),
{
    let (p0, q0, p1, q1, n, d) = s;
    if d > 0 {
        let a = n / d;
        let q2 = q0 + a * q1;
        if q1 == 0 {
            assert(a * q1 == 0) by (nonlinear_arith)
                requires
                    q1 == 0,
            ;
            assert(p0 * q1 == 0) by (nonlinear_arith)
                requires
                    q1 == 0,
            ;
            assert(q0 != 0) by (nonlinear_arith)
                requires
                    p1 * q0 == 1 || p1 * q0 == -1,
            ;
        }
        if q2 <= max {
            let p2 = p0 + a * p1;
            lemma_fundamental_div_mod(n, d);
            lemma_mod_bound(n, d);
            let r = n - a * d;
            assert(r == n % d);
            if q1 != 0 {
                assert(a >= 1) by (nonlinear_arith)
                    requires
                        n > d,
                        d > 0,
                        n == d * a + n % d,
                        n % d < d,
                ;
                assert(a * q1 >= q1) by (nonlinear_arith)
                    requires
                        a >= 1,
                        q1 >= 0,
                ;
            }
            assert(n0 == p2 * d + p1 * r) by (nonlinear_arith)
                requires
                    n0 == p1 * n + p0 * d,
                    p2 == p0 + a * p1,
                    r == n - a * d,
            ;
            assert(d0 == q2 * d + q1 * r) by (nonlinear_arith)
                requires
                    d0 == q1 * n + q0 * d,
                    q2 == q0 + a * q1,
                    r == n - a * d,
            ;
            assert(p2 * q1 - p1 * q2 == -(p1 * q0 - p0 * q1)) by (nonlinear_arith)
                requires
                    p2 == p0 + a * p1,
                    q2 == q0 + a * q1,
            ;
            let s2 = (p1, q1, p2, q2, d, r);
            assert(walk_inv(s2, n0, d0, max));
            // A step that leaves the 128-bit range ends the walk with `None`.
            if fits_i128(a * q1) && fits_i128(q2) && fits_i128(a * p1) && fits_i128(p2) && fits_i128(
                a * d,
            ) {
                assert(cf_walk(s, max) == cf_walk(s2, max));
                lemma_cf_walk_inv(s2, n0, d0, max);
                if q1 == 0 {
                    assert(q2 == q0);
                }
            }
        }
    }
}

/// With `b1 = p1 / q1` and `b2 = pb / qb` neighbours (`p1 * qb - pb * q1 == e`,
/// `e` one or minus one) whose denominators sum past `max`, the distances of
/// `x` to them being `d / q1` and `m / qb` (over `d0`), a fraction `p / q`
/// with `q <= max` is no nearer to `x` than the nearer of the two.
proof fn lemma_no_nearer_than_neighbours(
    x: (int, int),
    p1: int,
    q1: int,
    pb: int,
    qb: int,
    d: int,
    m: int,
    e: int,
    p: int,
    q: int,
)
    requires
        e == 1 || e == -1,
        p1 * qb - pb * q1 == e,
        q1 > 0,
        qb > 0,
        d >= 0,
        m > 0,
        x.0 * q1 - p1 * x.1 == -e * d,
        x.0 * qb - pb * x.1 == e * m,
        1 <= q < q1 + qb,
    ensures
        d * qb <= m * q1 ==> frac_no_farther(x, (p1, q1), (p, q)),
        d * qb > m * q1 ==> frac_no_farther(x, (pb, qb), (p, q)),
{
    let a1 = p1 * q - p * q1;
    let a2 = p * qb - pb * q;
    let b1 = e * a1;
    let b2 = e * a2;
    assert(q * e == a1 * qb + a2 * q1) by (nonlinear_arith)
        requires
            a1 == p1 * q - p * q1,
            a2 == p * qb - pb * q,
            p1 * qb - pb * q1 == e,
    ;
    assert(p * e == a1 * pb + a2 * p1) by (nonlinear_arith)
        requires
            a1 == p1 * q - p * q1,
            a2 == p * qb - pb * q,
            p1 * qb - pb * q1 == e,
    ;
    assert(q == b1 * qb + b2 * q1) by (nonlinear_arith)
        requires
            q * e == a1 * qb + a2 * q1,
            b1 == e * a1,
            b2 == e * a2,
            e == 1 || e == -1,
    ;
    let nn = x.0 * q - p * x.1;
    let t1 = x.0 * qb - pb * x.1;
    let t2 = x.0 * q1 - p1 * x.1;
    let x0 = x.0;
    let x1 = x.1;
    assert(nn * e == x0 * (q * e) - x1 * (p * e)) by (nonlinear_arith)
        requires
            nn == x0 * q - p * x1,
    ;
    assert(x0 * (a1 * qb + a2 * q1) == a1 * (x0 * qb) + a2 * (x0 * q1)) by (nonlinear_arith);
    assert(x1 * (a1 * pb + a2 * p1) == a1 * (pb * x1) + a2 * (p1 * x1)) by (nonlinear_arith);
    assert(a1 * t1 == a1 * (x0 * qb) - a1 * (pb * x1)) by (nonlinear_arith)
        requires
            t1 == x0 * qb - pb * x1,
    ;
    assert(a2 * t2 == a2 * (x0 * q1) - a2 * (p1 * x1)) by (nonlinear_arith)
        requires
            t2 == x0 * q1 - p1 * x1,
    ;
    assert(nn * e == a1 * t1 + a2 * t2);
    if e == 1 {
        assert(e * m == m) by (nonlinear_arith)
            requires
                e == 1,
        ;
        assert(-e * d == -d) by (nonlinear_arith)
            requires
                e == 1,
        ;
        assert(t1 == m);
        assert(t2 == -d);
        assert(a2 * t2 == a2 * (-d)) by (nonlinear_arith)
            requires
                t2 == -d,
        ;
        assert(nn == b1 * m - b2 * d) by (nonlinear_arith)
            requires
                nn * 1 == a1 * m + a2 * (-d),
                b1 == 1 * a1,
                b2 == 1 * a2,
        ;
    } else {
        assert(e * m == -m) by (nonlinear_arith)
            requires
                e == -1,
        ;
        assert(-e * d == d) by (nonlinear_arith)
            requires
                e == -1,
        ;
        assert(t1 == -m);
        assert(t2 == d);
        assert(a1 * t1 == a1 * (-m)) by (nonlinear_arith)
            requires
                t1 == -m,
        ;
        assert(nn == -(b1 * m - b2 * d)) by (nonlinear_arith)
            requires
                nn * (-1) == a1 * (-m) + a2 * d,
                b1 == (-1) * a1,
                b2 == (-1) * a2,
        ;
    }
    let nb = b1 * m - b2 * d;
    assert(abs_nat(nn) == abs_nat(nb));
    let dn = abs_nat(nn) as int;
    // Both coefficients at least one would make q at least q1 + qb.
    if b1 >= 1 && b2 >= 1 {
        assert(b1 * qb + b2 * q1 >= qb + q1) by (nonlinear_arith)
            requires
                b1 >= 1,
                b2 >= 1,
                qb > 0,
                q1 > 0,
        ;
    }
    let near_b1 = d * q <= dn * q1;
    let near_b2 = m * q <= dn * qb;
    if b1 <= 0 {
        assert(b2 >= 1) by (nonlinear_arith)
            requires
                q == b1 * qb + b2 * q1,
                b1 <= 0,
                q >= 1,
                qb > 0,
                q1 > 0,
        ;
        assert(d * q <= dn * q1) by (nonlinear_arith)
            requires
                q == b1 * qb + b2 * q1,
                nb == b1 * m - b2 * d,
                dn == abs_nat(nb),
                b1 <= 0,
                b2 >= 1,
                d >= 0,
                m > 0,
                qb > 0,
                q1 > 0,
        ;
    } else {
        assert(b2 <= 0);
        assert(m * q <= dn * qb) by (nonlinear_arith)
            requires
                q == b1 * qb + b2 * q1,
                nb == b1 * m - b2 * d,
                dn == abs_nat(nb),
                b1 >= 1,
                b2 <= 0,
                d >= 0,
                m > 0,
                qb > 0,
                q1 > 0,
        ;
    }
    assert(abs_nat(x.0 * q1 - p1 * x.1) == d) by {
        if e == 1 {
            assert(-e * d == -d) by (nonlinear_arith)
                requires
                    e == 1,
            ;
            assert(x.0 * q1 - p1 * x.1 == -d);
        } else {
            assert(-e * d == d) by (nonlinear_arith)
                requires
                    e == -1,
            ;
            assert(x.0 * q1 - p1 * x.1 == d);
        }
    }
    assert(abs_nat(x.0 * qb - pb * x.1) == m) by {
        if e == 1 {
            assert(e * m == m) by (nonlinear_arith)
                requires
                    e == 1,
            ;
            assert(x.0 * qb - pb * x.1 == m);
        } else {
            assert(e * m == -m) by (nonlinear_arith)
                requires
                    e == -1,
            ;
            assert(x.0 * qb - pb * x.1 == -m);
        }
    }
    if d * qb <= m * q1 {
        if !near_b1 {
            assert(near_b2);
            assert(d * q <= dn * q1) by (nonlinear_arith)
                requires
                    m * q <= dn * qb,
                    d * qb <= m * q1,
                    qb > 0,
                    q1 > 0,
                    q > 0,
            ;
        }
        assert(frac_no_farther(x, (p1, q1), (p, q)));
    } else {
        if !near_b2 {
            assert(near_b1);
            assert(m * q <= dn * qb) by (nonlinear_arith)
                requires
                    d * q <= dn * q1,
                    d * qb > m * q1,
                    qb > 0,
                    q1 > 0,
                    q > 0,
            ;
        }
        assert(frac_no_farther(x, (pb, qb), (p, q)));
    }
}

/// Putting a fraction in lowest terms does not move it.
proof fn lemma_no_farther_normalize(x: (int, int), b: (int, int), y: (int, int))
    requires
        b.1 > 0,
        y.1 > 0,
        frac_no_farther(x, b, y),
    ensures
        frac_no_farther(x, normalize(b.0, b.1), y),
{
    lemma_normalize_canonical(b.0, b.1);
    let nb = normalize(b.0, b.1);
    assert(nb.1 > 0);
    let u = x.0 * b.1 - b.0 * x.1;
    let v = x.0 * nb.1 - nb.0 * x.1;
    let w = abs_nat(x.0 * y.1 - y.0 * x.1) as int;
    assert(u * nb.1 == v * b.1) by (nonlinear_arith)
        requires
            nb.0 * b.1 == b.0 * nb.1,
            u == x.0 * b.1 - b.0 * x.1,
            v == x.0 * nb.1 - nb.0 * x.1,
    ;
    assert(abs_nat(v) * y.1 <= w * nb.1) by (nonlinear_arith)
        requires
            u * nb.1 == v * b.1,
            abs_nat(u) * y.1 <= w * b.1,
            b.1 > 0,
            nb.1 > 0,
            y.1 > 0,
    ;
}

/// `limit_denominator`, where it yields a result, yields the fraction
/// closest to `x` among those whose denominator is at most `max`.
pub(crate) proof fn lemma_limit_denominator_closest(x: (int, int), max: int, p: int, q: int)
    requires
        x.1 > 0,
        max >= 1,
        1 <= q <= max,
        spec_limit_denominator(x, max) is Some,
    ensures
        frac_no_farther(x, spec_limit_denominator(x, max)->0, (p, q)),
{
    if x.1 > max {
        let s0 = (0int, 1int, 1int, 0int, x.0, x.1);
        assert(walk_inv(s0, x.0, x.1, max));
        lemma_cf_walk_inv(s0, x.0, x.1, max);
        let s = cf_walk(s0, max)->0;
        let (p0, q0, p1, q1, n, d) = s;
        let k = (max - q0) / q1;
        let pb = p0 + k * p1;
        let qb = q0 + k * q1;
        let e = p1 * q0 - p0 * q1;
        lemma_fundamental_div_mod(max - q0, q1);
        lemma_mod_bound(max - q0, q1);
        assert(k >= 0) by (nonlinear_arith)
            requires
                max - q0 >= 0,
                q1 > 0,
                k == (max - q0) / q1,
        ;
        assert(k * q1 >= 0) by (nonlinear_arith)
            requires
                k >= 0,
                q1 > 0,
        ;
        assert(qb + q1 > max) by (nonlinear_arith)
            requires
                max - q0 == q1 * k + (max - q0) % q1,
                (max - q0) % q1 < q1,
                qb == q0 + k * q1,
        ;
        assert(p1 * qb - pb * q1 == e) by (nonlinear_arith)
            requires
                pb == p0 + k * p1,
                qb == q0 + k * q1,
                e == p1 * q0 - p0 * q1,
        ;
        assert(x.0 * q1 == p1 * n * q1 + p0 * d * q1) by (nonlinear_arith)
            requires
                x.0 == p1 * n + p0 * d,
        ;
        assert(p1 * x.1 == p1 * q1 * n + p1 * q0 * d) by (nonlinear_arith)
            requires
                x.1 == q1 * n + q0 * d,
        ;
        assert(p1 * n * q1 == p1 * q1 * n) by (nonlinear_arith);
        assert(-e * d == p0 * d * q1 - p1 * q0 * d) by (nonlinear_arith)
            requires
                e == p1 * q0 - p0 * q1,
        ;
        assert(x.0 * q1 - p1 * x.1 == -e * d);
        let m = n - k * d;
        assert(x.0 * qb == x.0 * q0 + k * (x.0 * q1)) by (nonlinear_arith)
            requires
                qb == q0 + k * q1,
        ;
        assert(pb * x.1 == p0 * x.1 + k * (p1 * x.1)) by (nonlinear_arith)
            requires
                pb == p0 + k * p1,
        ;
        assert(x.0 * q0 == p1 * n * q0 + p0 * d * q0) by (nonlinear_arith)
            requires
                x.0 == p1 * n + p0 * d,
        ;
        assert(p0 * x.1 == p0 * q1 * n + p0 * q0 * d) by (nonlinear_arith)
            requires
                x.1 == q1 * n + q0 * d,
        ;
        assert(x.0 * q0 - p0 * x.1 == e * n) by (nonlinear_arith)
            requires
                x.0 * q0 == p1 * n * q0 + p0 * d * q0,
                p0 * x.1 == p0 * q1 * n + p0 * q0 * d,
                e == p1 * q0 - p0 * q1,
        ;
        assert(x.0 * qb - pb * x.1 == (x.0 * q0 - p0 * x.1) + k * (x.0 * q1 - p1 * x.1))
            by (nonlinear_arith)
            requires
                x.0 * qb == x.0 * q0 + k * (x.0 * q1),
                pb * x.1 == p0 * x.1 + k * (p1 * x.1),
        ;
        assert(k * (-e * d) == -(e * (k * d))) by (nonlinear_arith);
        assert(e * n - e * (k * d) == e * m) by (nonlinear_arith)
            requires
                m == n - k * d,
        ;
        assert(x.0 * qb - pb * x.1 == e * m);
        assert(q0 + k * q1 <= max) by (nonlinear_arith)
            requires
                max - q0 == q1 * k + (max - q0) % q1,
                (max - q0) % q1 >= 0,
        ;
        if d > 0 {
            let a = n / d;
            lemma_fundamental_div_mod(n, d);
            lemma_mod_bound(n, d);
            assert(q0 + a * q1 > max);
            assert(k < a) by (nonlinear_arith)
                requires
                    q0 + a * q1 > max,
                    q0 + k * q1 <= max,
                    q1 > 0,
            ;
            assert(m >= d) by (nonlinear_arith)
                requires
                    n == d * a + n % d,
                    n % d >= 0,
                    k < a,
                    d > 0,
                    m == n - k * d,
            ;
        } else {
            assert(x.1 == q1 * n);
            assert(n > 0) by (nonlinear_arith)
                requires
                    x.1 == q1 * n,
                    x.1 > 0,
                    q1 > 0,
            ;
            assert(m == n);
        }
        assert(qb > 0);
        lemma_no_nearer_than_neighbours(x, p1, q1, pb, qb, d, m, e, p, q);
        let near = d * qb;
        let far = (n - k * d) * q1;
        assert(far == m * q1);
        assert(m * q1 > 0) by (nonlinear_arith)
            requires
                m > 0,
                q1 > 0,
        ;
        assert(abs_nat(far) == far);
        let chosen = if near <= abs_nat(far) {
            normalize(p1, q1)
        } else {
            normalize(pb, qb)
        };
        assert(spec_limit_denominator(x, max) == Some(chosen));
        if near <= abs_nat(far) {
            lemma_no_farther_normalize(x, (p1, q1), (p, q));
        } else {
            lemma_no_farther_normalize(x, (pb, qb), (p, q));
        }
    } else {
        assert(spec_limit_denominator(x, max) == Some(x));
        let z = x.0 * x.1 - x.0 * x.1;
        assert(abs_nat(z) == 0);
        assert(abs_nat(z) * q == 0) by (nonlinear_arith)
            requires
                abs_nat(z) == 0,
        ;
    }
}


/// The result of limiting a pair in lowest terms is in lowest terms, with a
/// denominator between one and `max`; a pair whose denominator is already
/// within `max` is its own result.
pub(crate) proof fn lemma_limit_denominator_result(x: (int, int), max: int)
    requires
        is_canonical(x),
        max >= 1,
        spec_limit_denominator(x, max) is Some,
    ensures
        ({
            let r = spec_limit_denominator(x, max)->0;
            &&& is_canonical(r)
            &&& 1 <= r.1 <= max
            &&& x.1 <= max ==> r == x
        }),
{
    if x.1 > max {
        let s0 = (0int, 1int, 1int, 0int, x.0, x.1);
        assert(walk_inv(s0, x.0, x.1, max));
        lemma_cf_walk_inv(s0, x.0, x.1, max);
        let s = cf_walk(s0, max)->0;
        let (p0, q0, p1, q1, n, d) = s;
        let k = (max - q0) / q1;
        let pb = p0 + k * p1;
        let qb = q0 + k * q1;
        lemma_fundamental_div_mod(max - q0, q1);
        lemma_mod_bound(max - q0, q1);
        assert(k >= 0) by (nonlinear_arith)
            requires
                max - q0 >= 0,
                q1 > 0,
                k == (max - q0) / q1,
        ;
        assert(k * q1 >= 0) by (nonlinear_arith)
            requires
                k >= 0,
                q1 > 0,
        ;
        assert(q0 + k * q1 <= max) by (nonlinear_arith)
            requires
                max - q0 == q1 * k + (max - q0) % q1,
                (max - q0) % q1 >= 0,
        ;
        let near = d * qb;
        let far = (n - k * d) * q1;
        if near <= abs_nat(far) {
            lemma_normalize_canonical(p1, q1);
            lemma_normalize_den_le(p1, q1);
        } else {
            lemma_normalize_canonical(pb, qb);
            lemma_normalize_den_le(pb, qb);
        }
    }
}

/// Limiting the denominator keeps order: for pairs in lowest terms, `x <= y`
/// gives `limit(x) <= limit(y)`.
pub(crate) proof fn lemma_limit_denominator_monotone(x: (int, int), y: (int, int), max: int)
    requires
        is_canonical(x),
        is_canonical(y),
        frac_le(x, y),
        max >= 1,
        spec_limit_denominator(x, max) is Some,
        spec_limit_denominator(y, max) is Some,
    ensures
        frac_le(spec_limit_denominator(x, max)->0, spec_limit_denominator(y, max)->0),
{
    let r = spec_limit_denominator(x, max)->0;
    let s = spec_limit_denominator(y, max)->0;
    lemma_limit_denominator_result(x, max);
    lemma_limit_denominator_result(y, max);
    if frac_lt(s, r) {
        lemma_limit_denominator_closest(x, max, s.0, s.1);
        lemma_limit_denominator_closest(y, max, r.0, r.1);
        let (x0, x1) = x;
        let (y0, y1) = y;
        let (r0, r1) = r;
        let (s0, s1) = s;
        let big_x = x0 * y1 * r1 * s1;
        let big_y = y0 * x1 * r1 * s1;
        let big_r = r0 * x1 * y1 * s1;
        let big_s = s0 * x1 * y1 * r1;
        assert(big_x <= big_y) by (nonlinear_arith)
            requires
                x0 * y1 <= y0 * x1,
                r1 > 0,
                s1 > 0,
                big_x == x0 * y1 * r1 * s1,
                big_y == y0 * x1 * r1 * s1,
        ;
        assert(big_s < big_r) by (nonlinear_arith)
            requires
                s0 * r1 < r0 * s1,
                x1 > 0,
                y1 > 0,
                big_r == r0 * x1 * y1 * s1,
                big_s == s0 * x1 * y1 * r1,
        ;
        let u = x0 * r1 - r0 * x1;
        let v = x0 * s1 - s0 * x1;
        assert(big_x - big_r == y1 * s1 * u) by (nonlinear_arith)
            requires
                u == x0 * r1 - r0 * x1,
                big_x == x0 * y1 * r1 * s1,
                big_r == r0 * x1 * y1 * s1,
        ;
        assert(big_x - big_s == y1 * r1 * v) by (nonlinear_arith)
            requires
                v == x0 * s1 - s0 * x1,
                big_x == x0 * y1 * r1 * s1,
                big_s == s0 * x1 * y1 * r1,
        ;
        assert(abs_nat(big_x - big_r) <= abs_nat(big_x - big_s)) by (nonlinear_arith)
            requires
                big_x - big_r == y1 * s1 * u,
                big_x - big_s == y1 * r1 * v,
                abs_nat(u) * s1 <= abs_nat(v) * r1,
                y1 > 0,
                s1 > 0,
                r1 > 0,
        ;
        let w = y0 * s1 - s0 * y1;
        let z = y0 * r1 - r0 * y1;
        let xr = x1 * r1;
        let xs = x1 * s1;
        assert(big_y == xr * (y0 * s1)) by (nonlinear_arith)
            requires
                big_y == y0 * x1 * r1 * s1,
                xr == x1 * r1,
        ;
        assert(big_s == xr * (s0 * y1)) by (nonlinear_arith)
            requires
                big_s == s0 * x1 * y1 * r1,
                xr == x1 * r1,
        ;
        assert(xr * (y0 * s1) - xr * (s0 * y1) == xr * w) by (nonlinear_arith)
            requires
                w == y0 * s1 - s0 * y1,
        ;
        assert(big_y - big_s == x1 * r1 * w);
        assert(big_y == xs * (y0 * r1)) by (nonlinear_arith)
            requires
                big_y == y0 * x1 * r1 * s1,
                xs == x1 * s1,
        ;
        assert(big_r == xs * (r0 * y1)) by (nonlinear_arith)
            requires
                big_r == r0 * x1 * y1 * s1,
                xs == x1 * s1,
        ;
        assert(xs * (y0 * r1) - xs * (r0 * y1) == xs * z) by (nonlinear_arith)
            requires
                z == y0 * r1 - r0 * y1,
        ;
        assert(big_y - big_r == x1 * s1 * z);
        assert(abs_nat(big_y - big_s) <= abs_nat(big_y - big_r)) by (nonlinear_arith)
            requires
                big_y - big_s == x1 * r1 * w,
                big_y - big_r == x1 * s1 * z,
                abs_nat(w) * r1 <= abs_nat(z) * s1,
                x1 > 0,
                s1 > 0,
                r1 > 0,
        ;
        assert(big_x == big_y);
        assert(x0 * y1 == y0 * x1) by (nonlinear_arith)
            requires
                big_x == big_y,
                big_x == x0 * y1 * r1 * s1,
                big_y == y0 * x1 * r1 * s1,
                r1 > 0,
                s1 > 0,
        ;
        lemma_canonical_unique(x, y);
        assert(r == s);
    }
}

} // verus!
