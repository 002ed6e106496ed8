//! The binary64 (`f64`) arithmetic that the text of an elapsed time goes
//! through, held exactly in integers: each value is a pair `(m, e)` that
//! stands for `m / 2^e`, and each step rounds to the nearest value with 53
//! significant bits, ties to even, as IEEE 754 does.
use crate::output::{round_half_even, round_half_even_exec};
use vstd::arithmetic::div_mod::{lemma_fundamental_div_mod, lemma_fundamental_div_mod_converse, lemma_mod_bound};
use vstd::prelude::*;

verus! {

/// 2 to the power `k`.
pub open spec fn two_pow(k: nat) -> nat
    decreases k,
{
    if k == 0 {
        1
    } else {
        2 * two_pow((k - 1) as nat)
    }
}

/// The number of binary digits of `n` (none for zero).
pub open spec fn bit_len(n: nat) -> nat
    decreases n,
{
    if n == 0 {
        0
    } else {
        1 + bit_len(n / 2)
    }
}

/// Powers of two multiply by adding exponents.
pub proof fn lemma_two_pow_add(a: nat, b: nat)
    ensures
        two_pow(a + b) == two_pow(a) * two_pow(b),
        two_pow(a) > 0,
    decreases a,
{
    if a == 0 {
        assert(two_pow(a + b) == two_pow(b));
        assert(two_pow(a) == 1);
    } else {
        lemma_two_pow_add((a - 1) as nat, b);
        assert(two_pow(a) == 2 * two_pow((a - 1) as nat));
        assert(two_pow(a + b) == 2 * two_pow((a - 1 + b) as nat));
        assert(2 * (two_pow((a - 1) as nat) * two_pow(b)) == (2 * two_pow((a - 1) as nat)) * two_pow(b))
            by (nonlinear_arith);
    }
}

/// Powers of two grow with the exponent.
pub proof fn lemma_two_pow_le(a: nat, b: nat)
    requires
        a <= b,
    ensures
        two_pow(a) <= two_pow(b),
{
    lemma_two_pow_add(a, (b - a) as nat);
    lemma_two_pow_add((b - a) as nat, 0);
    assert(two_pow(a) * two_pow((b - a) as nat) >= two_pow(a)) by (nonlinear_arith)
        requires
            two_pow((b - a) as nat) > 0,
            two_pow(a) > 0,
    ;
}

/// A positive number lies between the powers of two around its length.
pub proof fn lemma_bit_len_bounds(n: nat)
    ensures
        n < two_pow(bit_len(n)),
        n > 0 ==> two_pow((bit_len(n) - 1) as nat) <= n,
    decreases n,
{
    if n > 0 {
        lemma_bit_len_bounds(n / 2);
        if n / 2 > 0 {
            assert(two_pow((bit_len(n / 2) - 1) as nat) <= n / 2);
            assert(bit_len(n) - 1 == bit_len(n / 2));
            assert(two_pow(bit_len(n / 2)) == 2 * two_pow((bit_len(n / 2) - 1) as nat));
        } else {
            assert(bit_len(n / 2) == 0);
        }
    }
}

/// A number between `2^(k-1)` and `2^k` has `k` binary digits.
pub proof fn lemma_bit_len_exact(n: nat, k: nat)
    requires
        k >= 1,
        two_pow((k - 1) as nat) <= n < two_pow(k),
    ensures
        bit_len(n) == k,
{
    lemma_bit_len_bounds(n);
    lemma_two_pow_add(0, 0);
    if bit_len(n) > k {
        lemma_two_pow_le(k, (bit_len(n) - 1) as nat);
    } else if bit_len(n) < k {
        lemma_two_pow_le(bit_len(n), (k - 1) as nat);
    }
}


/// The binary64 nearest to `a / 2^c`, ties to even: `a` kept to its 53
/// leading binary digits.
pub open spec fn nearest_dyadic(a: nat, c: int) -> (nat, int) {
    let sh: nat = if bit_len(a) > 53 {
        (bit_len(a) - 53) as nat
    } else {
        0
    };
    (round_half_even(a, two_pow(sh)), c - sh)
}

/// The binary64 nearest to `n / d` for `n < d`, ties to even: scaled by the
/// power of two that brings it between `2^52` and `2^53`, then rounded.
pub open spec fn nearest_fraction(n: nat, d: nat) -> (nat, int) {
    let k0: nat = (52 + bit_len(d) - bit_len(n)) as nat;
    let k: nat = if n * two_pow(k0) >= two_pow(52) * d {
        k0
    } else {
        k0 + 1
    };
    (round_half_even(n * two_pow(k), d), k as int)
}

/// `Duration::as_secs_f64` of a duration of `nanos` nanoseconds: the whole
/// seconds as a binary64, plus the nanoseconds divided by 10^9 as a
/// binary64, the sum rounded once more.
pub open spec fn secs_f64(nanos: nat) -> (nat, int) {
    let sf = nearest_dyadic(nanos / 1_000_000_000, 0);
    let x = nearest_fraction(nanos % 1_000_000_000, 1_000_000_000);
    nearest_dyadic(sf.0 * two_pow((x.1 - sf.1) as nat) + x.0, x.1)
}

/// Whether the binary64 `v` is at least one.
pub open spec fn at_least_one(v: (nat, int)) -> bool {
    if v.1 <= 0 {
        v.0 >= 1
    } else {
        v.0 >= two_pow(v.1 as nat)
    }
}

/// The binary64 `v` to three decimals, as a count of thousandths (its exact
/// value rounded, ties to even).
pub open spec fn f64_thousandths(v: (nat, int)) -> nat {
    if v.1 >= 0 {
        round_half_even(v.0 * 1000, two_pow(v.1 as nat))
    } else {
        v.0 * two_pow((-v.1) as nat) * 1000
    }
}

/// The powers of two at the edges of 64 and 128 bits.
pub proof fn lemma_two_pow_edges()
    ensures
        two_pow(64) == 0x1_0000_0000_0000_0000,
        two_pow(127) == 0x8000_0000_0000_0000_0000_0000_0000_0000,
        two_pow(128) == 0x1_0000_0000_0000_0000_0000_0000_0000_0000,
{
    assert(two_pow(64) == 0x1_0000_0000_0000_0000) by {
        reveal_with_fuel(two_pow, 65);
    }
    assert(two_pow(63) == 0x8000_0000_0000_0000) by {
        reveal_with_fuel(two_pow, 64);
    }
    lemma_two_pow_add(64, 63);
    lemma_two_pow_add(64, 64);
}

/// A 128-bit number has at most 128 binary digits.
pub proof fn lemma_bit_len_u128(n: u128)
    ensures
        bit_len(n as nat) <= 128,
{
    lemma_bit_len_bounds(n as nat);
    lemma_two_pow_edges();
    if bit_len(n as nat) > 128 {
        lemma_two_pow_le(128, (bit_len(n as nat) - 1) as nat);
    }
}

/// `2^k` for `k < 128`.
pub(crate) fn pow2_exec(k: u32) -> (r: u128)
    requires
        k < 128,
    ensures
        r == two_pow(k as nat),
{
    proof {
        lemma_two_pow_edges();
    }
    let mut r: u128 = 1;
    let mut i: u32 = 0;
    while i < k
        invariant
            i <= k < 128,
            r == two_pow(i as nat),
            two_pow(127) == 0x8000_0000_0000_0000_0000_0000_0000_0000,
        decreases k - i,
    {
        proof {
            lemma_two_pow_le((i + 1) as nat, 127);
            assert(two_pow((i + 1) as nat) == 2 * two_pow(i as nat));
        }
        r = 2 * r;
        i = i + 1;
    }
    r
}

/// The number of binary digits of `n`.
pub(crate) fn bit_len_exec(n: u128) -> (r: u32)
    ensures
        r as nat == bit_len(n as nat),
        r <= 128,
{
    proof {
        lemma_bit_len_u128(n);
    }
    let mut m = n;
    let mut c: u32 = 0;
    while m > 0
        invariant
            bit_len(n as nat) == c + bit_len(m as nat),
            bit_len(n as nat) <= 128,
        decreases m,
    {
        m = m / 2;
        c = c + 1;
    }
    c
}


/// Rounding to the nearest multiple is the quotient, or one more.
pub proof fn lemma_round_bounds(n: nat, d: nat)
    requires
        d >= 1,
    ensures
        n / d <= round_half_even(n, d) <= n / d + 1,
{
}

/// A quotient below a bound: `n < b * d` gives `n / d < b`.
pub proof fn lemma_div_below(n: nat, d: nat, b: nat)
    requires
        d >= 1,
        n < b * d,
    ensures
        n / d < b,
{
    lemma_fundamental_div_mod(n as int, d as int);
    lemma_mod_bound(n as int, d as int);
    assert((n / d) * d <= n) by (nonlinear_arith)
        requires
            n == d * (n / d) + n % d,
            n % d >= 0,
    ;
    assert(n / d < b) by (nonlinear_arith)
        requires
            (n / d) * d <= n,
            n < b * d,
            d >= 1,
    ;
}

/// Rounding `q * d + r` (with `r < d`) to a multiple of `d`.
pub proof fn lemma_round_parts(q: nat, r: nat, d: nat)
    requires
        r < d,
    ensures
        round_half_even(q * d + r, d) == if 2 * r > d {
            q + 1
        } else if 2 * r < d {
            q
        } else if q % 2 == 0 {
            q
        } else {
            q + 1
        },
{
    lemma_fundamental_div_mod_converse((q * d + r) as int, d as int, q as int, r as int);
}

/// `n / d` rounded, ties to even, for any positive `d`.
pub(crate) fn round_exec(n: u128, d: u128) -> (r: u128)
    requires
        d >= 1,
    ensures
        r == round_half_even(n as nat, d as nat),
{
    if d == 1 {
        n
    } else {
        round_half_even_exec(n, d)
    }
}

/// `q * d + r` rounded to a multiple of `d`, ties to even (`r < d`).
pub(crate) fn round_parts_exec(q: u128, r: u128, d: u128) -> (res: u128)
    requires
        r < d,
        d <= 0x4000_0000_0000_0000_0000_0000_0000_0000,
        q < 0x4000_0000_0000_0000_0000_0000_0000_0000,
    ensures
        res == round_half_even((q * d + r) as nat, d as nat),
{
    proof {
        lemma_round_parts(q as nat, r as nat, d as nat);
    }
    if 2 * r > d || (2 * r == d && q % 2 == 1) {
        q + 1
    } else {
        q
    }
}

/// The binary64 nearest to `a / 2^c` (see `nearest_dyadic`); the mantissa
/// is at most `2^53`.
pub(crate) fn nearest_dyadic_exec(a: u128, c: i64) -> (r: (u128, i64))
    requires
        -0x1_0000_0000 <= c <= 0x1_0000_0000,
    ensures
        r.0 as nat == nearest_dyadic(a as nat, c as int).0,
        r.1 as int == nearest_dyadic(a as nat, c as int).1,
        r.0 <= two_pow(53),
{
    let bl = bit_len_exec(a);
    let sh: u32 = if bl > 53 {
        bl - 53
    } else {
        0
    };
    let p = pow2_exec(sh);
    proof {
        lemma_two_pow_add(0, 0);
        lemma_bit_len_bounds(a as nat);
        lemma_two_pow_add(53, sh as nat);
        if bl > 53 {
            assert(53 + sh as nat == bl as nat);
        } else {
            lemma_two_pow_le(bl as nat, 53);
        }
        assert(a < two_pow(53) * two_pow(sh as nat));
        lemma_div_below(a as nat, two_pow(sh as nat), two_pow(53));
        lemma_round_bounds(a as nat, two_pow(sh as nat));
    }
    let m = round_exec(a, p);
    (m, c - sh as i64)
}

/// The binary64 nearest to `n / d` for `n < d < 2^31` (see
/// `nearest_fraction`): its exponent is between 53 and 84, its mantissa at
/// most `2^53`, and its value below one.
#[verifier::rlimit(80)]
#[verifier::spinoff_prover]
pub(crate) fn nearest_fraction_exec(n: u128, d: u128) -> (r: (u128, i64))
    requires
        n < d,
        d < 0x8000_0000,
    ensures
        r.0 as nat == nearest_fraction(n as nat, d as nat).0,
        r.1 as int == nearest_fraction(n as nat, d as nat).1,
        53 <= r.1 <= 84,
        r.0 <= two_pow(53),
        r.0 < two_pow(r.1 as nat),
{
    let bn = bit_len_exec(n);
    let bd = bit_len_exec(d);
    proof {
        lemma_bit_len_bounds(n as nat);
        lemma_bit_len_bounds(d as nat);
        lemma_two_pow_edges();
        if bn > bd {
            lemma_two_pow_le(bd as nat, (bn - 1) as nat);
        }
        if bd > 31 {
            lemma_two_pow_le(31, (bd - 1) as nat);
            assert(two_pow(31) == 0x8000_0000) by {
                reveal_with_fuel(two_pow, 32);
            }
        }
    }
    let k0: u32 = 52 + bd - bn;
    let p0 = pow2_exec(k0);
    let p52 = pow2_exec(52);
    proof {
        lemma_two_pow_add(k0 as nat, 0);
        lemma_two_pow_add(52, 0);
        lemma_two_pow_add(bn as nat, k0 as nat);
        lemma_two_pow_add(52, bd as nat);
        lemma_two_pow_le((52 + bd) as nat, 83);
        lemma_two_pow_le(83, 127);
        lemma_two_pow_add(83, 1);
        assert(n * p0 < two_pow(bn as nat) * p0) by (nonlinear_arith)
            requires
                n < two_pow(bn as nat),
                p0 > 0,
        ;
        assert(p52 * d < p52 * two_pow(bd as nat)) by (nonlinear_arith)
            requires
                d < two_pow(bd as nat),
                p52 > 0,
        ;
    }
    let k: u32 = if n * p0 >= p52 * d {
        k0
    } else {
        k0 + 1
    };
    let pk = pow2_exec(k);
    proof {
        lemma_two_pow_add(k0 as nat, 1);
        lemma_two_pow_add(1, 0);
        assert(two_pow(1) == 2);
        // The scaled value lies below 2^53 * d.
        if k == k0 {
            assert(d >= 1 && bd >= 1);
            assert((bn + k0) as nat == (52 + bd) as nat);
            assert(n * pk < two_pow((52 + bd) as nat));
            lemma_two_pow_add(53, (bd - 1) as nat);
            let e1: nat = (53 + (bd - 1)) as nat;
            assert(e1 == (52 + bd) as nat);
            assert(two_pow(e1) == two_pow(53) * two_pow((bd - 1) as nat));
            assert(two_pow((52 + bd) as nat) == two_pow(53) * two_pow((bd - 1) as nat));
            let lo = two_pow((bd - 1) as nat);
            let big = two_pow(53);
            assert(lo <= d);
            assert(n * pk < big * lo);
            assert(n * pk < big * d) by (nonlinear_arith)
                requires
                    n * pk < big * lo,
                    lo <= d,
                    big > 0,
            ;
        } else {
            assert(two_pow(53) == 2 * two_pow(52));
            assert(n * pk == 2 * (n * p0)) by (nonlinear_arith)
                requires
                    pk == p0 * 2,
            ;
            assert(n * p0 < p52 * d);
            let big = two_pow(53);
            assert(n * pk < big * d) by (nonlinear_arith)
                requires
                    n * pk == 2 * (n * p0),
                    n * p0 < p52 * d,
                    big == 2 * p52,
            ;
        }
        lemma_div_below((n * pk) as nat, d as nat, two_pow(53));
        lemma_round_bounds((n * pk) as nat, d as nat);
        // The value stays below one: n * 2^k / d is at most 2^k - 2.
        assert(k >= 53) by {
            if k == k0 && k0 == 52 {
                assert(n * p0 < p52 * d) by (nonlinear_arith)
                    requires
                        n < d,
                        p0 == p52,
                        p52 > 0,
                ;
            }
        }
        lemma_two_pow_le(32, k as nat);
        assert(two_pow(32) == 0x1_0000_0000) by {
            reveal_with_fuel(two_pow, 33);
        }
        assert(n * pk <= (pk - 2) * d) by (nonlinear_arith)
            requires
                n + 1 <= d,
                pk >= 2 * d,
        ;
        lemma_fundamental_div_mod((n * pk) as int, d as int);
        lemma_mod_bound((n * pk) as int, d as int);
        assert((n * pk) as nat / (d as nat) <= pk - 2) by (nonlinear_arith)
            requires
                n * pk <= (pk - 2) * d,
                (n * pk) == d * ((n * pk) as nat / (d as nat)) + (n * pk) as nat % (d as nat),
                (n * pk) as nat % (d as nat) >= 0,
                d >= 1,
        ;
    }
    let m = round_exec(n * pk, d);
    (m, k as i64)
}


/// A number below `2^k` has at most `k` binary digits.
pub proof fn lemma_bit_len_below(n: nat, k: nat)
    requires
        n < two_pow(k),
    ensures
        bit_len(n) <= k,
{
    lemma_bit_len_bounds(n);
    if bit_len(n) > k {
        lemma_two_pow_le(k, (bit_len(n) - 1) as nat);
    }
}

/// `hi * 2^j + lo` with `hi` positive and `lo < 2^j` has the digits of `hi`
/// followed by `j` more.
pub proof fn lemma_bit_len_shifted(hi: nat, j: nat, lo: nat)
    requires
        hi >= 1,
        lo < two_pow(j),
    ensures
        bit_len(hi * two_pow(j) + lo) == bit_len(hi) + j,
{
    let l = bit_len(hi);
    lemma_bit_len_bounds(hi);
    lemma_two_pow_add((l - 1) as nat, j);
    lemma_two_pow_add(l, j);
    let pj = two_pow(j);
    assert(two_pow((l - 1) as nat) * pj <= hi * pj) by (nonlinear_arith)
        requires
            two_pow((l - 1) as nat) <= hi,
            pj >= 0,
    ;
    assert(hi * pj + lo < two_pow(l) * pj) by (nonlinear_arith)
        requires
            hi + 1 <= two_pow(l),
            lo < pj,
    ;
    assert(((l - 1) + j) as nat == (l + j - 1) as nat);
    lemma_bit_len_exact(hi * pj + lo, l + j);
}

/// `Duration::as_secs_f64` for a duration of `nanos` nanoseconds (see
/// `secs_f64`): the mantissa is at most `2^53`, the exponent between -11
/// and 84.
pub(crate) fn secs_f64_exec(nanos: u128) -> (r: (u128, i64))
    requires
        nanos < 0x1_0000_0000_0000_0000 * 1_000_000_000,
    ensures
        r.0 as nat == secs_f64(nanos as nat).0,
        r.1 as int == secs_f64(nanos as nat).1,
        r.0 <= two_pow(53),
        -12 <= r.1 <= 84,
{
    let s = nanos / 1_000_000_000;
    let n = nanos % 1_000_000_000;
    proof {
        lemma_two_pow_edges();
        lemma_bit_len_below(s as nat, 64);
    }
    let (ms, es) = nearest_dyadic_exec(s, 0);
    let (m1, k1) = nearest_fraction_exec(n, 1_000_000_000);
    let sh_s: u32 = (-es) as u32;
    let j: u32 = (k1 as u32) + sh_s;
    let ghost big_a: nat = ms as nat * two_pow(j as nat) + m1 as nat;
    proof {
        assert(j as int == k1 - es);
        assert(secs_f64(nanos as nat) == nearest_dyadic(big_a, k1 as int));
        lemma_two_pow_le(53, k1 as nat);
        lemma_two_pow_le(k1 as nat, j as nat);
    }
    if ms == 0 {
        proof {
            assert(0 * two_pow(j as nat) == 0);
            assert(big_a == m1 as nat);
            lemma_two_pow_add(53, 1);
            assert(two_pow(1) == 2) by {
                reveal_with_fuel(two_pow, 2);
            }
            lemma_bit_len_below(m1 as nat, 54);
        }
        return nearest_dyadic_exec(m1, k1);
    }
    let lm = bit_len_exec(ms);
    proof {
        lemma_bit_len_shifted(ms as nat, j as nat, m1 as nat);
        lemma_two_pow_add(53, 1);
        assert(two_pow(1) == 2) by {
            reveal_with_fuel(two_pow, 2);
        }
        lemma_bit_len_below(ms as nat, 54);
        lemma_bit_len_bounds(ms as nat);
    }
    let sh: u32 = lm + j - 53;
    let d = pow2_exec(sh);
    let (q, rem) = if lm >= 53 {
        let t: u32 = lm - 53;
        let pt = pow2_exec(t);
        let pj = pow2_exec(j);
        proof {
            lemma_two_pow_add(t as nat, j as nat);
            assert((t + j) as nat == sh as nat);
            lemma_fundamental_div_mod(ms as int, pt as int);
            lemma_mod_bound(ms as int, pt as int);
            assert(t <= 1);
            lemma_two_pow_le(sh as nat, 96);
            lemma_two_pow_le(96, 127);
            assert(pt <= 2) by {
                reveal_with_fuel(two_pow, 2);
            }
            assert((ms % pt) * pj + m1 < d) by (nonlinear_arith)
                requires
                    ms % pt + 1 <= pt,
                    m1 < pj,
                    d == pt * pj,
            ;
            assert(big_a == (ms / pt) * d + ((ms % pt) * pj + m1)) by (nonlinear_arith)
                requires
                    big_a == ms * pj + m1,
                    ms == pt * (ms / pt) + ms % pt,
                    d == pt * pj,
            ;
        }
        (ms / pt, (ms % pt) * pj + m1)
    } else {
        let u: u32 = 53 - lm;
        let pu = pow2_exec(u);
        proof {
            lemma_two_pow_add(u as nat, sh as nat);
            assert((u + sh) as nat == j as nat);
            lemma_fundamental_div_mod(m1 as int, d as int);
            lemma_mod_bound(m1 as int, d as int);
            lemma_two_pow_le(sh as nat, 95);
            lemma_two_pow_le(95, 127);
            lemma_two_pow_add(lm as nat, u as nat);
            assert((lm + u) as nat == 53);
            assert(ms * pu < two_pow(53)) by (nonlinear_arith)
                requires
                    ms < two_pow(lm as nat),
                    two_pow(lm as nat) * pu == two_pow(53),
                    pu > 0,
            ;
            assert(m1 / d <= m1);
            lemma_two_pow_le(54, 127);
            lemma_two_pow_add(53, 1);
            assert(two_pow(1) == 2) by {
                reveal_with_fuel(two_pow, 2);
            }
            assert(ms * pu + m1 / d < two_pow(54));
            assert(big_a == (ms * pu + m1 / d) * d + m1 % d) by (nonlinear_arith)
                requires
                    big_a == ms * (pu * d) + m1,
                    m1 == d * (m1 / d) + m1 % d,
            ;
        }
        (ms * pu + m1 / d, m1 % d)
    };
    proof {
        lemma_two_pow_le(sh as nat, 96);
        lemma_two_pow_le(96, 126);
        lemma_two_pow_le(54, 126);
        assert(big_a == q * d + rem);
        assert(rem < d);
        // The rounded mantissa is at most 2^53.
        lemma_two_pow_add(53, sh as nat);
        assert((53 + sh) as nat == bit_len(big_a));
        lemma_bit_len_bounds(big_a);
        lemma_div_below(big_a, d as nat, two_pow(53));
        lemma_round_bounds(big_a, d as nat);
    }
    let m = round_parts_exec(q, rem, d);
    (m, k1 - sh as i64)
}

} // verus!
