//! Exact rational numbers for bar positions and elapsed times.
//!
//! A `Fraction` is held in lowest terms with a positive denominator, as
//! `num::rational::Ratio<i64>` holds it; its view is that pair of integers.
use crate::arith::{
    abs_nat, fits_i64, gcd, is_canonical, lemma_gcd_divides, lemma_integer_canonical,
    lemma_normalize_canonical, normalize, pair_fits,
};
use crate::text::{
    find_char, find_char_exec, int_decimal, parse_i64, parse_int_range, push_int_decimal, slice_vec,
    string_of, trim, trim_bounds, chars_of, lemma_find_char_bound,
};
use vstd::arithmetic::div_mod::{lemma_fundamental_div_mod, lemma_mod_bound};
use vstd::prelude::*;

pub mod closest;
pub mod order;

verus! {

/// A rational number in lowest terms with a positive denominator.
#[derive(Clone, Copy, PartialEq, Eq, Structural, Hash, Debug)]
pub struct Fraction {
    numer: i64,
    denom: i64,
}

impl View for Fraction {
    type V = (int, int);

    closed spec fn view(&self) -> (int, int) {
        (self.numer as int, self.denom as int)
    }
}

/// The fraction whose view is the pair `p` (meaningful for canonical pairs that fit).
pub closed spec fn frac_of(p: (int, int)) -> Fraction {
    Fraction { numer: p.0 as i64, denom: p.1 as i64 }
}

/// `frac_of` inverts the view.
pub proof fn lemma_frac_of_view(f: Fraction)
    ensures
        frac_of(f@) == f,
{
}

/// The view of `frac_of(p)` is `p` for a pair that fits.
pub proof fn lemma_view_frac_of(p: (int, int))
    requires
        pair_fits(p),
    ensures
        frac_of(p)@ == p,
{
}

/// Two fractions are equal exactly when their views are.
pub proof fn lemma_fraction_eq_view(a: Fraction, b: Fraction)
    ensures
        (a == b) <==> (a@ == b@),
{
}

/// Sum of two rationals given as pairs.
pub open spec fn frac_add(a: (int, int), b: (int, int)) -> (int, int) {
    normalize(a.0 * b.1 + b.0 * a.1, a.1 * b.1)
}

/// Difference of two rationals given as pairs.
pub open spec fn frac_sub(a: (int, int), b: (int, int)) -> (int, int) {
    normalize(a.0 * b.1 - b.0 * a.1, a.1 * b.1)
}

/// Product of two rationals given as pairs.
pub open spec fn frac_mul(a: (int, int), b: (int, int)) -> (int, int) {
    normalize(a.0 * b.0, a.1 * b.1)
}

/// Quotient of two rationals given as pairs (`b` nonzero).
pub open spec fn frac_div(a: (int, int), b: (int, int)) -> (int, int) {
    normalize(a.0 * b.1, a.1 * b.0)
}

/// `a < b` for rationals with positive denominators.
pub open spec fn frac_lt(a: (int, int), b: (int, int)) -> bool {
    a.0 * b.1 < b.0 * a.1
}

/// `a <= b` for rationals with positive denominators.
pub open spec fn frac_le(a: (int, int), b: (int, int)) -> bool {
    a.0 * b.1 <= b.0 * a.1
}

/// Largest integer not above `a` (positive denominator).
pub open spec fn frac_floor(a: (int, int)) -> int {
    a.0 / a.1
}

/// Smallest integer not below `a` (positive denominator).
pub open spec fn frac_ceil(a: (int, int)) -> int {
    -((-a.0) / a.1)
}

/// `a` rounded toward zero (positive denominator).
pub open spec fn frac_trunc(a: (int, int)) -> int {
    if a.0 < 0 {
        -((-a.0) / a.1)
    } else {
        a.0 / a.1
    }
}

/// Whether an integer can be held in an `i128`.
pub open spec fn fits_i128(x: int) -> bool {
    i128::MIN < x <= i128::MAX
}

/// The continued-fraction walk of `Fraction::limit_denominator` over the state
/// `(p0, q0, p1, q1, n, d)`: each step takes the next partial quotient
/// `a = floor(n / d)` while the next convergent's denominator `q0 + a * q1`
/// stays within `max`. `None` when a step leaves the 128-bit range.
pub open spec fn cf_walk(s: (int, int, int, int, int, int), max: int) -> Option<
    (int, int, int, int, int, int),
>
    decreases (if s.5 > 0 {
        s.5
    } else {
        0
    }),
{
    let (p0, q0, p1, q1, n, d) = s;
    if d <= 0 {
        Some(s)
    } else {
        let a = n / d;
        let q2 = q0 + a * q1;
        if !fits_i128(a * q1) || !fits_i128(q2) {
            None
        } else if q2 > max {
            Some(s)
        } else {
            let p2 = p0 + a * p1;
            if !fits_i128(a * p1) || !fits_i128(p2) || !fits_i128(a * d) {
                None
            } else {
                proof {
                    lemma_fundamental_div_mod(n, d);
                    lemma_mod_bound(n, d);
                }
                cf_walk((p1, q1, p2, q2, d, n - a * d), max)
            }
        }
    }
}

/// The closest fraction to `x` whose denominator is at most `max`, chosen
/// between the last convergent `p1/q1` and the semiconvergent
/// `(p0 + k*p1)/(q0 + k*q1)` with `k = (max - q0) / q1`; the convergent wins
/// ties. (`d * q'` against `(n - k*d) * q1` compares the two distances to `x`.)
pub open spec fn spec_limit_denominator(x: (int, int), max: int) -> Option<(int, int)> {
    if x.1 <= max {
        Some(x)
    } else {
        match cf_walk((0, 1, 1, 0, x.0, x.1), max) {
            None => None,
            Some(s) => {
                let (p0, q0, p1, q1, n, d) = s;
                if q1 <= 0 || max < q0 {
                    None
                } else {
                    let k = (max - q0) / q1;
                    let pb = p0 + k * p1;
                    let qb = q0 + k * q1;
                    let near = d * qb;
                    let far = (n - k * d) * q1;
                    if !fits_i128(k * p1) || !fits_i128(pb) || !fits_i128(k * q1) || !fits_i128(qb)
                        || !fits_i128(k * d) || !fits_i128(n - k * d) || !fits_i128(near)
                        || !fits_i128(far) || qb == 0 {
                        None
                    } else {
                        let chosen = if near <= abs_nat(far) {
                            normalize(p1, q1)
                        } else {
                            normalize(pb, qb)
                        };
                        if pair_fits(chosen) {
                            Some(chosen)
                        } else {
                            None
                        }
                    }
                }
            }
        }
    }
}

/// What `s.parse::<f64>()` followed by `Fraction::from_f64` gives for a
/// decimal text `s` (named: the float parsing and `Ratio::approximate_float`
/// take pages to state).
pub uninterp spec fn decimal_ratio(s: Seq<char>) -> Option<(int, int)>;

/// Parses `s` as an `f64` and converts it as `Fraction::from_f64` does:
/// `<Ratio<i64> as FromPrimitive>::from_f64` (continued fractions), or
/// `Ratio::from_integer(f as i64)` when that fails. `None` when `s` is not a float.
/// The pair comes from `Ratio::new` or `Ratio::from_integer`, so it is in lowest
/// terms with a positive denominator.
#[verifier::external_body]
fn parse_decimal_ratio(s: &str) -> (r: Option<(i64, i64)>)
    ensures
        r matches Some(p) ==> decimal_ratio(s@) == Some((p.0 as int, p.1 as int)) && is_canonical(
            (p.0 as int, p.1 as int),
        ),
        r is None ==> decimal_ratio(s@) is None,
{
    let value = s.parse().ok()?;
    let ratio = <num::rational::Ratio<i64> as num::FromPrimitive>::from_f64(value).unwrap_or_else(
        || num::rational::Ratio::from_integer(value as i64),
    );
    Some((*ratio.numer(), *ratio.denom()))
}

/// The fraction of a decimal text (`s.parse::<f64>()` then `Fraction::from_f64`),
/// or `None` when the text is not a float.
pub fn parse_decimal_text(s: &str) -> (r: Option<Fraction>)
    ensures
        r matches Some(f) ==> decimal_ratio(s@) == Some(f@),
        r is None ==> decimal_ratio(s@) is None,
{
    match parse_decimal_ratio(s) {
        Some(pair) => Some(Fraction::new(pair.0, pair.1)),
        None => None,
    }
}

/// `Fraction::parse` of a text: `"n/d"` (each part trimmed), an integer, or
/// a decimal; surrounding whitespace is ignored.
pub open spec fn spec_parse_fraction(s: Seq<char>) -> Option<(int, int)> {
    let t = trim(s);
    match find_char(t, '/') {
        Some(p) => {
            let a = trim(t.subrange(0, p));
            let b = trim(t.subrange(p + 1, t.len() as int));
            match (parse_i64(a, 10), parse_i64(b, 10)) {
                (Some(n), Some(d)) => Some(normalize(n, d)),
                _ => None,
            }
        },
        None => match parse_i64(t, 10) {
            Some(n) => Some((n, 1)),
            None => decimal_ratio(t),
        },
    }
}

/// `Fraction::parse` does not panic on `s`: an `"n/d"` text whose parts both
/// parse has a nonzero denominator and a lowest-terms form that fits in `i64`.
pub open spec fn parse_fraction_defined(s: Seq<char>) -> bool {
    let t = trim(s);
    match find_char(t, '/') {
        Some(p) => {
            let a = trim(t.subrange(0, p));
            let b = trim(t.subrange(p + 1, t.len() as int));
            match (parse_i64(a, 10), parse_i64(b, 10)) {
                (Some(n), Some(d)) => d != 0 && pair_fits(normalize(n, d)),
                _ => true,
            }
        },
        None => true,
    }
}

/// The printed form of a fraction: `"1."`
/// for an integer, `"1/2"` for a proper fraction, `"1.+1/2"` for a mixed number.
pub open spec fn frac_display(p: (int, int)) -> Seq<char> {
    let i = frac_trunc(p);
    if p == (i, 1int) {
        int_decimal(i) + seq!['.']
    } else if i == 0 {
        int_decimal(p.0) + seq!['/'] + int_decimal(p.1)
    } else {
        let r = frac_sub(p, (i, 1int));
        int_decimal(i) + seq!['.', '+'] + int_decimal(r.0) + seq!['/'] + int_decimal(r.1)
    }
}

/// Euclid's algorithm on nonnegative 128-bit integers.
fn gcd_i128(a: i128, b: i128) -> (g: i128)
    requires
        a >= 0,
        b >= 0,
    ensures
        g == gcd(a as nat, b as nat),
        g >= 0,
{
    let mut x = a;
    let mut y = b;
    while y != 0
        invariant
            x >= 0,
            y >= 0,
            gcd(x as nat, y as nat) == gcd(a as nat, b as nat),
        decreases y,
    {
        let r = x % y;
        x = y;
        y = r;
    }
    x
}

impl Fraction {
    #[verifier::type_invariant]
    spec fn canonical(self) -> bool {
        is_canonical((self.numer as int, self.denom as int))
    }

    /// The canonical form of `n / d`, or `None` when it does not fit in `i64`.
    fn from_i128(n: i128, d: i128) -> (r: Option<Fraction>)
        requires
            d != 0,
            n > i128::MIN,
            d > i128::MIN,
        ensures
            r matches Some(f) ==> f@ == normalize(n as int, d as int),
            r is None <==> !pair_fits(normalize(n as int, d as int)),
    {
        let an: i128 = if n < 0 {
            -n
        } else {
            n
        };
        let ad: i128 = if d < 0 {
            -d
        } else {
            d
        };
        assert(an as nat == abs_nat(n as int));
        assert(ad as nat == abs_nat(d as int));
        let g = gcd_i128(an, ad);
        proof {
            lemma_gcd_divides(an as nat, ad as nat);
            lemma_normalize_canonical(n as int, d as int);
        }
        let mag = an / g;
        let den = ad / g;
        let negative = (n < 0) != (d < 0);
        let num: i128 = if negative {
            -mag
        } else {
            mag
        };
        assert(num as int == normalize(n as int, d as int).0);
        assert(den as int == normalize(n as int, d as int).1);
        if num < i64::MIN as i128 || num > i64::MAX as i128 || den > i64::MAX as i128 {
            None
        } else {
            Some(Fraction { numer: num as i64, denom: den as i64 })
        }
    }

    /// The rational `numer / denom` in lowest terms.
    ///
    /// `denom` must be nonzero and the result must fit in `i64`.
    pub fn new(numer: i64, denom: i64) -> (r: Fraction)
        requires
            denom != 0,
            pair_fits(normalize(numer as int, denom as int)),
        ensures
            r@ == normalize(numer as int, denom as int),
    {
        match Fraction::from_i128(numer as i128, denom as i128) {
            Some(f) => f,
            None => {
                assert(false);
                Fraction::zero()
            },
        }
    }

    /// The rational `numer / denom`, or `None` when `denom` is zero or the
    /// lowest-terms form does not fit in `i64`.
    pub fn checked_new(numer: i64, denom: i64) -> (r: Option<Fraction>)
        ensures
            r matches Some(f) ==> denom != 0 && f@ == normalize(numer as int, denom as int),
            r is None <==> denom == 0 || !pair_fits(normalize(numer as int, denom as int)),
    {
        if denom == 0 {
            None
        } else {
            Fraction::from_i128(numer as i128, denom as i128)
        }
    }

    /// The integer `n` as a fraction.
    pub fn from_integer(n: i64) -> (r: Fraction)
        ensures
            r@ == (n as int, 1int),
    {
        proof {
            lemma_integer_canonical(n as int);
        }
        Fraction { numer: n, denom: 1 }
    }

    /// Zero.
    pub fn zero() -> (r: Fraction)
        ensures
            r@ == (0int, 1int),
    {
        Fraction::from_integer(0)
    }

    /// One.
    pub fn one() -> (r: Fraction)
        ensures
            r@ == (1int, 1int),
    {
        Fraction::from_integer(1)
    }

    /// The numerator of the lowest-terms form.
    pub fn numer(&self) -> (r: &i64)
        ensures
            *r == self@.0,
    {
        &self.numer
    }

    /// The (positive) denominator of the lowest-terms form.
    pub fn denom(&self) -> (r: &i64)
        ensures
            *r == self@.1,
            *r > 0,
    {
        proof {
            use_type_invariant(self);
        }
        &self.denom
    }

    /// The view of every fraction is canonical.
    pub fn lemma_canonical(&self)
        ensures
            is_canonical(self@),
            pair_fits(self@),
    {
        proof {
            use_type_invariant(self);
        }
    }

    /// Largest integer not above the value.
    pub fn floor(&self) -> (r: i64)
        ensures
            r == frac_floor(self@),
    {
        proof {
            use_type_invariant(self);
        }
        let n = self.numer as i128;
        let d = self.denom as i128;
        let q: i128 = if n >= 0 {
            n / d
        } else {
            -((-n + d - 1) / d)
        };
        proof {
            lemma_fundamental_div_mod(n as int, d as int);
            lemma_mod_bound(n as int, d as int);
            if n < 0 {
                let m = (-n + d - 1) as int;
                lemma_fundamental_div_mod(m, d as int);
                lemma_mod_bound(m, d as int);
                let qf = (n as int) / (d as int);
                let rf = (n as int) % (d as int);
                let qm = m / (d as int);
                let rm = m % (d as int);
                assert(qm == -qf) by (nonlinear_arith)
                    requires
                        n == d * qf + rf,
                        0 <= rf < d,
                        m == d * qm + rm,
                        0 <= rm < d,
                        m == -n + d - 1,
                ;
            }
            assert(q as int == frac_floor(self@));
            assert(fits_i64(q as int)) by (nonlinear_arith)
                requires
                    q == (n as int) / (d as int),
                    d >= 1,
                    i64::MIN <= n <= i64::MAX,
            {
                lemma_fundamental_div_mod(n as int, d as int);
                lemma_mod_bound(n as int, d as int);
            }
        }
        q as i64
    }

    /// Smallest integer not below the value.
    pub fn ceil(&self) -> (r: i64)
        ensures
            r == frac_ceil(self@),
    {
        proof {
            use_type_invariant(self);
        }
        let n = self.numer as i128;
        let d = self.denom as i128;
        let q: i128 = if n <= 0 {
            -((-n) / d)
        } else {
            (n + d - 1) / d
        };
        proof {
            let m = (-n) as int;
            lemma_fundamental_div_mod(m, d as int);
            lemma_mod_bound(m, d as int);
            if n > 0 {
                let k = (n + d - 1) as int;
                lemma_fundamental_div_mod(k, d as int);
                lemma_mod_bound(k, d as int);
                let qf = m / (d as int);
                let rf = m % (d as int);
                let qk = k / (d as int);
                let rk = k % (d as int);
                assert(qk == -qf) by (nonlinear_arith)
                    requires
                        m == d * qf + rf,
                        0 <= rf < d,
                        k == d * qk + rk,
                        0 <= rk < d,
                        k == -m + d - 1,
                ;
            }
            assert(q as int == frac_ceil(self@));
            assert(fits_i64(q as int)) by (nonlinear_arith)
                requires
                    q == -(m / (d as int)),
                    m == -n,
                    d >= 1,
                    i64::MIN <= n <= i64::MAX,
            {
                lemma_fundamental_div_mod(m, d as int);
                lemma_mod_bound(m, d as int);
            }
        }
        q as i64
    }

    /// The value rounded toward zero.
    pub fn trunc(&self) -> (r: i64)
        ensures
            r == frac_trunc(self@),
    {
        proof {
            use_type_invariant(self);
        }
        let n = self.numer as i128;
        let d = self.denom as i128;
        let q: i128 = if n < 0 {
            -((-n) / d)
        } else {
            n / d
        };
        proof {
            let m = abs_nat(n as int) as int;
            lemma_fundamental_div_mod(m, d as int);
            lemma_mod_bound(m, d as int);
            assert(0 <= m / (d as int) <= m) by (nonlinear_arith)
                requires
                    m == d * (m / (d as int)) + m % (d as int),
                    0 <= m % (d as int) < d,
                    d >= 1,
                    m >= 0,
            ;
        }
        q as i64
    }

    /// `self + rhs`, or `None` when the result does not fit in `i64`.
    pub fn checked_add(self, rhs: Fraction) -> (r: Option<Fraction>)
        ensures
            r matches Some(f) ==> f@ == frac_add(self@, rhs@),
            r is None <==> !pair_fits(frac_add(self@, rhs@)),
    {
        proof {
            use_type_invariant(self);
            use_type_invariant(rhs);
        }
        let a = self.numer as i128;
        let b = self.denom as i128;
        let c = rhs.numer as i128;
        let d = rhs.denom as i128;
        proof {
            lemma_product_bounds_signed_pos(a as int, d as int);
            lemma_product_bounds_signed_pos(c as int, b as int);
            lemma_product_bounds_pos(b as int, d as int);
        }
        Fraction::from_i128(a * d + c * b, b * d)
    }

    /// `self - rhs`, or `None` when the result does not fit in `i64`.
    pub fn checked_sub(self, rhs: Fraction) -> (r: Option<Fraction>)
        ensures
            r matches Some(f) ==> f@ == frac_sub(self@, rhs@),
            r is None <==> !pair_fits(frac_sub(self@, rhs@)),
    {
        proof {
            use_type_invariant(self);
            use_type_invariant(rhs);
        }
        let a = self.numer as i128;
        let b = self.denom as i128;
        let c = rhs.numer as i128;
        let d = rhs.denom as i128;
        proof {
            lemma_product_bounds_signed_pos(a as int, d as int);
            lemma_product_bounds_signed_pos(c as int, b as int);
            lemma_product_bounds_pos(b as int, d as int);
        }
        Fraction::from_i128(a * d - c * b, b * d)
    }

    /// `self * rhs`, or `None` when the result does not fit in `i64`.
    pub fn checked_mul(self, rhs: Fraction) -> (r: Option<Fraction>)
        ensures
            r matches Some(f) ==> f@ == frac_mul(self@, rhs@),
            r is None <==> !pair_fits(frac_mul(self@, rhs@)),
    {
        proof {
            use_type_invariant(self);
            use_type_invariant(rhs);
        }
        let a = self.numer as i128;
        let b = self.denom as i128;
        let c = rhs.numer as i128;
        let d = rhs.denom as i128;
        proof {
            lemma_product_bounds(a as int, c as int);
            lemma_product_bounds_pos(b as int, d as int);
        }
        Fraction::from_i128(a * c, b * d)
    }

    /// `self / rhs` for nonzero `rhs`, or `None` when the result does not fit in `i64`.
    pub fn checked_div(self, rhs: Fraction) -> (r: Option<Fraction>)
        requires
            rhs@.0 != 0,
        ensures
            r matches Some(f) ==> f@ == frac_div(self@, rhs@),
            r is None <==> !pair_fits(frac_div(self@, rhs@)),
    {
        proof {
            use_type_invariant(self);
            use_type_invariant(rhs);
        }
        let a = self.numer as i128;
        let b = self.denom as i128;
        let c = rhs.numer as i128;
        let d = rhs.denom as i128;
        proof {
            lemma_product_bounds(a as int, d as int);
            lemma_product_bounds(b as int, c as int);
            assert(b * c != 0) by (nonlinear_arith)
                requires
                    b > 0,
                    c != 0,
            ;
        }
        Fraction::from_i128(a * d, b * c)
    }

    /// `self + rhs` (the sum must fit in `i64`).
    pub fn add(self, rhs: Fraction) -> (r: Fraction)
        requires
            pair_fits(frac_add(self@, rhs@)),
        ensures
            r@ == frac_add(self@, rhs@),
    {
        match self.checked_add(rhs) {
            Some(f) => f,
            None => self,
        }
    }

    /// `self - rhs` (the difference must fit in `i64`).
    pub fn sub(self, rhs: Fraction) -> (r: Fraction)
        requires
            pair_fits(frac_sub(self@, rhs@)),
        ensures
            r@ == frac_sub(self@, rhs@),
    {
        match self.checked_sub(rhs) {
            Some(f) => f,
            None => self,
        }
    }

    /// `self * rhs` (the product must fit in `i64`).
    pub fn mul(self, rhs: Fraction) -> (r: Fraction)
        requires
            pair_fits(frac_mul(self@, rhs@)),
        ensures
            r@ == frac_mul(self@, rhs@),
    {
        match self.checked_mul(rhs) {
            Some(f) => f,
            None => self,
        }
    }

    /// `self / rhs`; `rhs` must be nonzero.
    pub fn div(self, rhs: Fraction) -> (r: Fraction)
        requires
            rhs@.0 != 0,
            pair_fits(frac_div(self@, rhs@)),
        ensures
            r@ == frac_div(self@, rhs@),
    {
        match self.checked_div(rhs) {
            Some(f) => f,
            None => self,
        }
    }

    /// `-self` (`-i64::MIN` does not fit).
    pub fn neg(self) -> (r: Fraction)
        requires
            self@.0 != i64::MIN,
        ensures
            r@ == (-self@.0, self@.1),
    {
        proof {
            use_type_invariant(self);
            lemma_negate_canonical(self@.0, self@.1);
        }
        Fraction { numer: -self.numer, denom: self.denom }
    }

    /// `|self|` (`|i64::MIN|` does not fit).
    pub fn abs(&self) -> (r: Fraction)
        requires
            self@.0 != i64::MIN,
        ensures
            r@ == (abs_nat(self@.0) as int, self@.1),
    {
        if self.numer < 0 {
            self.neg()
        } else {
            *self
        }
    }

    /// `self < other` by value.
    pub fn lt(&self, other: &Fraction) -> (r: bool)
        ensures
            r == frac_lt(self@, other@),
    {
        let a = self.numer as i128;
        let b = self.denom as i128;
        let c = other.numer as i128;
        let d = other.denom as i128;
        proof {
            use_type_invariant(self);
            use_type_invariant(other);
            lemma_product_bounds(a as int, d as int);
            lemma_product_bounds(c as int, b as int);
        }
        a * d < c * b
    }

    /// `self <= other` by value.
    pub fn le(&self, other: &Fraction) -> (r: bool)
        ensures
            r == frac_le(self@, other@),
    {
        let a = self.numer as i128;
        let b = self.denom as i128;
        let c = other.numer as i128;
        let d = other.denom as i128;
        proof {
            use_type_invariant(self);
            use_type_invariant(other);
            lemma_product_bounds(a as int, d as int);
            lemma_product_bounds(c as int, b as int);
        }
        a * d <= c * b
    }

    /// The fraction closest to `self` whose denominator is at most
    /// `max_denominator`, found by the continued-fraction walk (see
    /// `spec_limit_denominator`); `self` itself when its denominator is
    /// already small enough.
    ///
    /// `max_denominator` must be at least one (the walk divides by it otherwise).
    pub fn limit_denominator(&self, max_denominator: i64) -> (r: Fraction)
        requires
            max_denominator >= 1,
            spec_limit_denominator(self@, max_denominator as int) is Some,
        ensures
            Some(r@) == spec_limit_denominator(self@, max_denominator as int),
            self@.1 <= max_denominator ==> r@ == self@,
            r@.1 <= max_denominator,
    {
        match self.checked_limit_denominator(max_denominator) {
            Some(f) => f,
            None => *self,
        }
    }

    /// `limit_denominator`, or `None` when its arithmetic leaves the 128-bit range.
    pub fn checked_limit_denominator(&self, max_denominator: i64) -> (r: Option<Fraction>)
        requires
            max_denominator >= 1,
        ensures
            r matches Some(f) ==> Some(f@) == spec_limit_denominator(self@, max_denominator as int)
                && f@.1 <= max_denominator,
            r is None <==> spec_limit_denominator(self@, max_denominator as int) is None,
    {
        proof {
            use_type_invariant(self);
        }
        if self.denom <= max_denominator {
            return Some(*self);
        }
        let max = max_denominator as i128;
        let mut p0: i128 = 0;
        let mut q0: i128 = 1;
        let mut p1: i128 = 1;
        let mut q1: i128 = 0;
        let mut n: i128 = self.numer as i128;
        let mut d: i128 = self.denom as i128;
        let ghost start = (0int, 1int, 1int, 0int, self@.0, self@.1);
        loop
            invariant
                cf_walk(start, max as int) == cf_walk(
                    (p0 as int, q0 as int, p1 as int, q1 as int, n as int, d as int),
                    max as int,
                ),
                d >= 0,
                max == max_denominator,
                i64::MIN <= n <= i64::MAX,
                d <= i64::MAX,
                p0 > i128::MIN,
                p1 > i128::MIN,
                q0 >= 0,
                q1 >= 0,
                q1 > 0 ==> n >= 0,
                q0 <= max,
                q1 <= max,
                start == (0int, 1int, 1int, 0int, self@.0, self@.1),
                self@.1 > max_denominator,
            ensures
                cf_walk(start, max as int) == Some(
                    (p0 as int, q0 as int, p1 as int, q1 as int, n as int, d as int),
                ),
                i64::MIN <= n <= i64::MAX,
                0 <= d <= i64::MAX,
                p0 > i128::MIN,
                p1 > i128::MIN,
                q0 >= 0,
                q1 >= 0,
                q0 <= max,
                q1 <= max,
            decreases d,
        {
            if d == 0 {
                break ;
            }
            let a: i128 = if n >= 0 {
                n / d
            } else {
                -((-n + d - 1) / d)
            };
            proof {
                lemma_floor_div(n as int, d as int);
            }
            let aq = match a.checked_mul(q1) {
                Some(v) => v,
                None => {
                    return None;
                },
            };
            let q2 = match q0.checked_add(aq) {
                Some(v) => v,
                None => {
                    return None;
                },
            };
            if aq == i128::MIN || q2 == i128::MIN {
                return None;
            }
            if q2 > max {
                break ;
            }
            let ap = match a.checked_mul(p1) {
                Some(v) => v,
                None => {
                    return None;
                },
            };
            let p2 = match p0.checked_add(ap) {
                Some(v) => v,
                None => {
                    return None;
                },
            };
            let ad = match a.checked_mul(d) {
                Some(v) => v,
                None => {
                    return None;
                },
            };
            if ap == i128::MIN || p2 == i128::MIN || ad == i128::MIN {
                return None;
            }
            proof {
                lemma_fundamental_div_mod(n as int, d as int);
                lemma_mod_bound(n as int, d as int);
            }
            let rem = n - ad;
            p0 = p1;
            q0 = q1;
            p1 = p2;
            q1 = q2;
            n = d;
            d = rem;
        }
        if q1 <= 0 || max < q0 {
            return None;
        }
        let k = (max - q0) / q1;
        proof {
            let num = (max - q0) as int;
            let den = q1 as int;
            lemma_fundamental_div_mod(num, den);
            lemma_mod_bound(num, den);
            let kk = num / den;
            assert(0 <= kk <= num) by (nonlinear_arith)
                requires
                    num == den * kk + num % den,
                    0 <= num % den < den,
                    den >= 1,
                    num >= 0,
            ;
        }
        let kp = match k.checked_mul(p1) {
            Some(v) => v,
            None => {
                return None;
            },
        };
        let pb = match p0.checked_add(kp) {
            Some(v) => v,
            None => {
                return None;
            },
        };
        let kq = match k.checked_mul(q1) {
            Some(v) => v,
            None => {
                return None;
            },
        };
        let qb = match q0.checked_add(kq) {
            Some(v) => v,
            None => {
                return None;
            },
        };
        let kd = match k.checked_mul(d) {
            Some(v) => v,
            None => {
                return None;
            },
        };
        let rest = match n.checked_sub(kd) {
            Some(v) => v,
            None => {
                return None;
            },
        };
        let near = match d.checked_mul(qb) {
            Some(v) => v,
            None => {
                return None;
            },
        };
        let far = match rest.checked_mul(q1) {
            Some(v) => v,
            None => {
                return None;
            },
        };
        if kp == i128::MIN || pb == i128::MIN || kq == i128::MIN || qb == i128::MIN || kd
            == i128::MIN || rest == i128::MIN || near == i128::MIN || far == i128::MIN || qb == 0 {
            return None;
        }
        let far_abs: i128 = if far < 0 {
            -far
        } else {
            far
        };
        proof {
            let kk = k as int;
            let num = (max - q0) as int;
            let den = q1 as int;
            lemma_fundamental_div_mod(num, den);
            lemma_mod_bound(num, den);
            assert(kk * den <= num) by (nonlinear_arith)
                requires
                    num == den * kk + num % den,
                    0 <= num % den,
            ;
            lemma_normalize_den_le(p1 as int, q1 as int);
            lemma_normalize_den_le(pb as int, qb as int);
        }
        if near <= far_abs {
            Fraction::from_i128(p1, q1)
        } else {
            Fraction::from_i128(pb, qb)
        }
    }
}

impl Fraction {
    /// Parses `"120"`, `"3/4"` or `"1.5"` (surrounding whitespace ignored).
    ///
    /// `"n/0"` and a fraction whose lowest terms do not fit in `i64` have no
    /// value and are excluded.
    pub fn parse(s: &str) -> (r: Option<Fraction>)
        requires
            parse_fraction_defined(s@),
        ensures
            r matches Some(f) ==> spec_parse_fraction(s@) == Some(f@),
            r is None ==> spec_parse_fraction(s@) is None,
    {
        let chars = chars_of(s);
        Fraction::parse_chars(&chars)
    }

    /// `parse` on a character vector.
    pub fn parse_chars(s: &Vec<char>) -> (r: Option<Fraction>)
        requires
            parse_fraction_defined(s@),
        ensures
            r matches Some(f) ==> spec_parse_fraction(s@) == Some(f@),
            r is None ==> spec_parse_fraction(s@) is None,
    {
        let (ts, te) = trim_bounds(s);
        let t = slice_vec(s, ts, te);
        match find_char_exec(&t, '/') {
            Some(p) => {
                proof {
                    lemma_find_char_bound(t@, '/');
                }
                let (a0, a1) = trim_bounds(&slice_vec(&t, 0, p));
                let (b0, b1) = trim_bounds(&slice_vec(&t, p + 1, t.len()));
                let left = slice_vec(&t, a0, a1);
                let right = slice_vec(&t, p + 1 + b0, p + 1 + b1);
                proof {
                    assert(left@ =~= trim(t@.subrange(0, p as int)));
                    assert(right@ =~= trim(t@.subrange(p + 1, t@.len() as int)));
                    assert(left@.subrange(0, left@.len() as int) =~= left@);
                    assert(right@.subrange(0, right@.len() as int) =~= right@);
                }
                let n = parse_int_range(&left, 0, left.len(), 10, true, i64::MIN, i64::MAX);
                let d = parse_int_range(&right, 0, right.len(), 10, true, i64::MIN, i64::MAX);
                match (n, d) {
                    (Some(n), Some(d)) => Some(Fraction::new(n, d)),
                    _ => None,
                }
            },
            None => {
                proof {
                    assert(t@.subrange(0, t@.len() as int) =~= t@);
                }
                match parse_int_range(&t, 0, t.len(), 10, true, i64::MIN, i64::MAX) {
                    Some(n) => Some(Fraction::from_integer(n)),
                    None => {
                        let text = string_of(t.as_slice());
                        match parse_decimal_ratio(text.as_str()) {
                            Some(pair) => Some(Fraction::new(pair.0, pair.1)),
                            None => None,
                        }
                    },
                }
            },
        }
    }

    /// Whether `parse_chars` accepts `s` (it has a value or is no fraction at
    /// all): `parse_fraction_defined`.
    pub fn is_parsable(s: &Vec<char>) -> (r: bool)
        ensures
            r == parse_fraction_defined(s@),
    {
        let (ts, te) = trim_bounds(s);
        let t = slice_vec(s, ts, te);
        match find_char_exec(&t, '/') {
            Some(p) => {
                proof {
                    lemma_find_char_bound(t@, '/');
                }
                let (a0, a1) = trim_bounds(&slice_vec(&t, 0, p));
                let (b0, b1) = trim_bounds(&slice_vec(&t, p + 1, t.len()));
                let left = slice_vec(&t, a0, a1);
                let right = slice_vec(&t, p + 1 + b0, p + 1 + b1);
                proof {
                    assert(left@ =~= trim(t@.subrange(0, p as int)));
                    assert(right@ =~= trim(t@.subrange(p + 1, t@.len() as int)));
                    assert(left@.subrange(0, left@.len() as int) =~= left@);
                    assert(right@.subrange(0, right@.len() as int) =~= right@);
                }
                let n = parse_int_range(&left, 0, left.len(), 10, true, i64::MIN, i64::MAX);
                let d = parse_int_range(&right, 0, right.len(), 10, true, i64::MIN, i64::MAX);
                match (n, d) {
                    (Some(n), Some(d)) => Fraction::checked_new(n, d).is_some(),
                    _ => true,
                }
            },
            None => true,
        }
    }

    /// The printed form: `"1."`, `"1/2"`, `"1.+1/2"`.
    pub fn to_string(&self) -> (r: String)
        ensures
            r@ == frac_display(self@),
    {
        proof {
            use_type_invariant(self);
        }
        let i = self.trunc();
        let mut out: Vec<char> = Vec::new();
        if self.numer == i && self.denom == 1 {
            push_int_decimal(&mut out, i);
            out.push('.');
        } else if i == 0 {
            push_int_decimal(&mut out, self.numer);
            out.push('/');
            push_int_decimal(&mut out, self.denom);
        } else {
            proof {
                lemma_trunc_remainder(self@.0, self@.1);
            }
            let rem = self.sub(Fraction::from_integer(i));
            push_int_decimal(&mut out, i);
            out.push('.');
            out.push('+');
            push_int_decimal(&mut out, rem.numer);
            out.push('/');
            push_int_decimal(&mut out, rem.denom);
        }
        proof {
            assert(out@ =~= frac_display(self@));
        }
        string_of(out.as_slice())
    }
}

/// Subtracting the truncated integer part leaves a fraction that fits.
proof fn lemma_trunc_remainder(n: int, d: int)
    requires
        d >= 1,
        fits_i64(n),
        fits_i64(d),
    ensures
        pair_fits(frac_sub((n, d), (frac_trunc((n, d)), 1int))),
{
    let i = frac_trunc((n, d));
    let m = abs_nat(n) as int;
    lemma_fundamental_div_mod(m, d);
    lemma_mod_bound(m, d);
    let x = n * 1 - i * d;
    assert(-d < x < d) by (nonlinear_arith)
        requires
            m == d * (m / d) + m % d,
            0 <= m % d < d,
            m == (if n < 0 {
                -n
            } else {
                n
            }),
            i == (if n < 0 {
                -(m / d)
            } else {
                m / d
            }),
            x == n * 1 - i * d,
    ;
    assert(d * 1 == d);
    lemma_normalize_bounds(x, d * 1);
}

/// Lowest terms never enlarge either part.
pub proof fn lemma_normalize_bounds(n: int, d: int)
    requires
        d != 0,
    ensures
        abs_nat(normalize(n, d).0) <= abs_nat(n),
        0 < normalize(n, d).1 <= abs_nat(d),
{
    lemma_gcd_divides(abs_nat(n), abs_nat(d));
    let g = gcd(abs_nat(n), abs_nat(d));
    vstd::arithmetic::div_mod::lemma_div_is_ordered_by_denominator(abs_nat(n) as int, 1, g as int);
    vstd::arithmetic::div_mod::lemma_div_is_ordered_by_denominator(abs_nat(d) as int, 1, g as int);
    lemma_normalize_canonical(n, d);
}

/// Floor division of a 128-bit integer by a positive one, computed on
/// nonnegative operands, agrees with the mathematical floor.
proof fn lemma_floor_div(n: int, d: int)
    requires
        d > 0,
        n > i128::MIN,
        n <= i128::MAX,
        d <= i128::MAX,
    ensures
        n >= 0 ==> n / d == n / d,
        n < 0 ==> -((-n + d - 1) / d) == n / d,
{
    if n < 0 {
        let m = -n + d - 1;
        lemma_fundamental_div_mod(n, d);
        lemma_mod_bound(n, d);
        lemma_fundamental_div_mod(m, d);
        lemma_mod_bound(m, d);
        let qf = n / d;
        let rf = n % d;
        let qm = m / d;
        let rm = m % d;
        assert(qm == -qf) by (nonlinear_arith)
            requires
                n == d * qf + rf,
                0 <= rf < d,
                m == d * qm + rm,
                0 <= rm < d,
                m == -n + d - 1,
        ;
    }
}

/// Products of two `i64` values fit comfortably in an `i128`.
proof fn lemma_product_bounds(a: int, b: int)
    requires
        i64::MIN <= a <= i64::MAX,
        i64::MIN <= b <= i64::MAX,
    ensures
        -0x4000_0000_0000_0000_0000_0000_0000_0000 <= a * b <= 0x4000_0000_0000_0000_0000_0000_0000_0000,
{
    assert(-0x4000_0000_0000_0000_0000_0000_0000_0000 <= a * b
        <= 0x4000_0000_0000_0000_0000_0000_0000_0000) by (nonlinear_arith)
        requires
            -0x8000_0000_0000_0000 <= a <= 0x7fff_ffff_ffff_ffff,
            -0x8000_0000_0000_0000 <= b <= 0x7fff_ffff_ffff_ffff,
    ;
}

/// Products of two positive `i64` values are positive and fit in an `i128`.
/// A product of an `i64` with a positive `i64` stays below `2^126 - 2^63` in magnitude.
proof fn lemma_product_bounds_signed_pos(a: int, b: int)
    requires
        i64::MIN <= a <= i64::MAX,
        0 < b <= i64::MAX,
    ensures
        -0x3fff_ffff_ffff_ffff_8000_0000_0000_0000 <= a * b <= 0x3fff_ffff_ffff_ffff_8000_0000_0000_0000,
{
    assert(-0x3fff_ffff_ffff_ffff_8000_0000_0000_0000 <= a * b
        <= 0x3fff_ffff_ffff_ffff_8000_0000_0000_0000) by (nonlinear_arith)
        requires
            -0x8000_0000_0000_0000 <= a <= 0x7fff_ffff_ffff_ffff,
            0 < b <= 0x7fff_ffff_ffff_ffff,
    ;
}

proof fn lemma_product_bounds_pos(a: int, b: int)
    requires
        0 < a <= i64::MAX,
        0 < b <= i64::MAX,
    ensures
        0 < a * b <= 0x4000_0000_0000_0000_0000_0000_0000_0000,
{
    lemma_product_bounds(a, b);
    assert(0 < a * b) by (nonlinear_arith)
        requires
            0 < a,
            0 < b,
    ;
}

/// Lowest terms never enlarge a positive denominator.
pub(crate) proof fn lemma_normalize_den_le(n: int, d: int)
    requires
        d > 0,
    ensures
        0 < normalize(n, d).1 <= d,
{
    lemma_gcd_divides(abs_nat(n), abs_nat(d));
    lemma_normalize_canonical(n, d);
    let g = gcd(abs_nat(n), abs_nat(d));
    assert(abs_nat(d) / g <= abs_nat(d)) by (nonlinear_arith)
        requires
            g >= 1,
    {
        vstd::arithmetic::div_mod::lemma_div_is_ordered_by_denominator(abs_nat(d) as int, 1, g as int);
    }
}

/// Negating the numerator of a canonical pair keeps it canonical.
proof fn lemma_negate_canonical(n: int, d: int)
    requires
        is_canonical((n, d)),
    ensures
        is_canonical((-n, d)),
{
    assert(abs_nat(-n) == abs_nat(n));
}

} // verus!
