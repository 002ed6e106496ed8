//! Output settings of the command line: the file format chosen by the output
//! path, the JPEG quality, and the text of elapsed times.
use crate::score::{
    ascii_lower, file_extension, lemma_undotted_path_has_no_extension, path_extension_ok,
    plain_name_extension, plain_path,
};
use crate::text::{chars_of, digit_char, nat_decimal, parse_int_range, parse_u8, push_all, push_nat_decimal, string_of};
use std::time::Duration;
use vstd::prelude::*;

pub mod binary64;

use binary64::{
    at_least_one, bit_len, f64_thousandths, lemma_bit_len_below, lemma_two_pow_add, lemma_two_pow_edges,
    lemma_two_pow_le, nearest_dyadic, nearest_dyadic_exec, pow2_exec, round_exec, secs_f64, secs_f64_exec,
    two_pow,
};

verus! {

/// `n / d` rounded to the nearest integer, ties to even.
pub open spec fn round_half_even(n: nat, d: nat) -> nat
    recommends
        d > 0,
{
    let q = n / d;
    let r = n % d;
    if 2 * r > d {
        q + 1
    } else if 2 * r < d {
        q
    } else if q % 2 == 0 {
        q
    } else {
        q + 1
    }
}

/// The digit character of `d < 10`.
pub open spec fn digit_of(d: nat) -> char {
    (('0' as u32) + d) as char
}

/// A count of thousandths as text: the whole part, a point, three digits.
pub open spec fn thousandths_text(m: nat) -> Seq<char> {
    let f = m % 1000;
    nat_decimal(m / 1000) + seq!['.', digit_of(f / 100), digit_of((f / 10) % 10), digit_of(f % 10)]
}

/// An elapsed time of `nanos` nanoseconds as text with three decimals, as
/// the `f64` arithmetic of `Duration::as_secs_f64` and `{:.3}` gives it: in
/// seconds when that value is at least one, else in milliseconds (the value
/// times 1000) from one millisecond on, else in microseconds (the value times
/// 10^6). Each product is rounded to a binary64, and the last digit follows
/// the exact binary value (so 1 000 500 ns, held as 1.0005000000000002 ms,
/// is `1.001ms`).
pub open spec fn duration_text(nanos: nat) -> Seq<char> {
    let secs = secs_f64(nanos);
    if at_least_one(secs) {
        thousandths_text(f64_thousandths(secs)) + seq!['s']
    } else if nanos / 1000 >= 1000 {
        thousandths_text(f64_thousandths(nearest_dyadic(secs.0 * 1000, secs.1))) + seq!['m', 's']
    } else {
        thousandths_text(f64_thousandths(nearest_dyadic(secs.0 * 1_000_000, secs.1))) + seq![
            'u',
            's',
        ]
    }
}

/// `n / d` rounded to the nearest integer, ties to even.
pub(crate) fn round_half_even_exec(n: u128, d: u128) -> (r: u128)
    requires
        d > 1,
    ensures
        r == round_half_even(n as nat, d as nat),
{
    let q = n / d;
    let r = n % d;
    proof {
        assert(q <= n);
        assert(q < u128::MAX) by (nonlinear_arith)
            requires
                q == n / d,
                d > 1,
                n <= u128::MAX,
        ;
    }
    if r > d - r {
        q + 1
    } else if r < d - r {
        q
    } else if q % 2 == 0 {
        q
    } else {
        q + 1
    }
}

/// Appends a count of thousandths as text.
fn push_thousandths(out: &mut Vec<char>, m: u128)
    ensures
        final(out)@ == old(out)@ + thousandths_text(m as nat),
{
    push_nat_decimal(out, m / 1000);
    let f = m % 1000;
    out.push('.');
    out.push(digit_char((f / 100) as u32));
    out.push(digit_char(((f / 10) % 10) as u32));
    out.push(digit_char((f % 10) as u32));
    proof {
        assert(final(out)@ =~= old(out)@ + thousandths_text(m as nat));
    }
}

/// Whether the binary64 `(m, e)` is at least one.
fn at_least_one_exec(m: u128, e: i64) -> (r: bool)
    requires
        e <= 100,
    ensures
        r == at_least_one((m as nat, e as int)),
{
    if e <= 0 {
        m >= 1
    } else {
        m >= pow2_exec(e as u32)
    }
}

/// The binary64 `(m, e)` to three decimals, in thousandths.
fn thousandths_exec(m: u128, e: i64) -> (r: u128)
    requires
        m <= two_pow(53),
        -40 <= e <= 100,
    ensures
        r == f64_thousandths((m as nat, e as int)),
{
    proof {
        lemma_two_pow_edges();
        lemma_two_pow_le(53, 64);
    }
    if e >= 0 {
        let p = pow2_exec(e as u32);
        proof {
            lemma_two_pow_add(e as nat, 0);
        }
        round_exec(m * 1000, p)
    } else {
        let p = pow2_exec((-e) as u32);
        proof {
            lemma_two_pow_le((-e) as nat, 40);
            lemma_two_pow_add(53, 40);
            lemma_two_pow_le(93, 117);
            lemma_two_pow_le(117, 127);
            assert(m * p <= two_pow(53) * two_pow(40)) by (nonlinear_arith)
                requires
                    m <= two_pow(53),
                    p <= two_pow(40),
            ;
            assert(two_pow(117) == two_pow(93) * two_pow(24)) by {
                lemma_two_pow_add(93, 24);
            }
            assert(two_pow(24) == 16777216) by {
                reveal_with_fuel(two_pow, 25);
            }
        }
        m * p * 1000
    }
}

/// A mantissa of at most 2^53 times `f < 2^b` has at most `53 + b` digits.
proof fn lemma_scaled_digits(m: u128, f: u128, b: nat)
    requires
        m <= two_pow(53),
        1 <= f < two_pow(b),
    ensures
        bit_len((m * f) as nat) <= 53 + b,
{
    lemma_two_pow_add(53, b);
    lemma_two_pow_add(53, 0);
    let p = two_pow(53);
    let q = two_pow(b);
    assert(m * f < p * q) by (nonlinear_arith)
        requires
            m <= p,
            f < q,
            p > 0,
            f >= 1,
    ;
    lemma_bit_len_below((m * f) as nat, 53 + b);
}

/// The text of an elapsed time of `nanos` nanoseconds (see `duration_text`);
/// a `Duration` holds fewer than 2^64 whole seconds.
#[verifier::rlimit(50)]
pub fn format_duration_nanos(nanos: u128) -> (r: String)
    requires
        nanos < 0x1_0000_0000_0000_0000 * 1_000_000_000,
    ensures
        r@ == duration_text(nanos as nat),
{
    let (m, e) = secs_f64_exec(nanos);
    proof {
        lemma_two_pow_edges();
        lemma_two_pow_le(53, 64);
    }
    let mut out: Vec<char> = Vec::new();
    if at_least_one_exec(m, e) {
        push_thousandths(&mut out, thousandths_exec(m, e));
        out.push('s');
    } else if nanos / 1000 >= 1000 {
        let (m2, e2) = nearest_dyadic_exec(m * 1000, e);
        proof {
            assert(two_pow(10) == 1024) by {
                reveal_with_fuel(two_pow, 11);
            }
            lemma_scaled_digits(m, 1000, 10);
        }
        push_thousandths(&mut out, thousandths_exec(m2, e2));
        out.push('m');
        out.push('s');
    } else {
        let (m2, e2) = nearest_dyadic_exec(m * 1_000_000, e);
        proof {
            assert(two_pow(21) == 2097152) by {
                reveal_with_fuel(two_pow, 22);
            }
            lemma_scaled_digits(m, 1_000_000, 21);
        }
        push_thousandths(&mut out, thousandths_exec(m2, e2));
        out.push('u');
        out.push('s');
    }
    proof {
        assert(out@ =~= duration_text(nanos as nat));
    }
    string_of(out.as_slice())
}

/// The whole nanoseconds of a duration, as `Duration::as_nanos` gives them
/// (a function of the duration alone).
pub uninterp spec fn whole_nanos(d: Duration) -> nat;

/// The whole nanoseconds of a duration (`Duration::as_nanos`). A duration
/// is a count of whole seconds held in a `u64` (`Duration::as_secs`) and
/// fewer than 10^9 nanoseconds (`Duration::subsec_nanos`), so the count is
/// below 2^64 * 10^9.
#[verifier::external_body]
fn duration_nanos(duration: &Duration) -> (r: u128)
    ensures
        r as nat == whole_nanos(*duration),
        r < 0x1_0000_0000_0000_0000 * 1_000_000_000,
{
    duration.as_nanos()
}

/// The text of an elapsed time: `duration_text` of its whole nanoseconds.
pub fn format_duration(duration: Duration) -> (r: String)
    ensures
        r@ == duration_text(whole_nanos(duration)),
{
    let nanos = duration_nanos(&duration);
    format_duration_nanos(nanos)
}

/// Output file formats.
#[derive(Debug, Clone, Copy, PartialEq, Eq, Structural)]
pub enum OutputFormat {
    Svg,
    Png,
    Jpeg,
}

/// The format for an output file extension (any ASCII case): `svg` or none
/// is SVG, `png` is PNG, `jpg` and `jpeg` are JPEG; any other extension is
/// an error that names it (lowered).
pub open spec fn spec_output_format(ext: Option<Seq<char>>) -> Result<OutputFormat, Seq<char>> {
    match ext {
        None => Ok(OutputFormat::Svg),
        Some(e) => {
            let l = e.map_values(|c: char| ascii_lower(c));
            if l == seq!['p', 'n', 'g'] {
                Ok(OutputFormat::Png)
            } else if l == seq!['j', 'p', 'g'] || l == seq!['j', 'p', 'e', 'g'] {
                Ok(OutputFormat::Jpeg)
            } else if l == seq!['s', 'v', 'g'] {
                Ok(OutputFormat::Svg)
            } else {
                Err(unsupported_extension_message(l))
            }
        },
    }
}

/// The error text for an unsupported output extension.
pub open spec fn unsupported_extension_message(ext: Seq<char>) -> Seq<char> {
    "unsupported output extension `"@ + ext + "`; use .svg, .png, .jpg, or .jpeg"@
}

/// ASCII-lowered copy of a text.
fn lower_ascii(s: &Vec<char>) -> (r: Vec<char>)
    ensures
        r@ == s@.map_values(|c: char| ascii_lower(c)),
{
    let mut out: Vec<char> = Vec::new();
    let mut i: usize = 0;
    while i < s.len()
        invariant
            i <= s.len(),
            out@ == s@.subrange(0, i as int).map_values(|c: char| ascii_lower(c)),
        decreases s.len() - i,
    {
        let c = s[i];
        let lower = if 'A' <= c && c <= 'Z' {
            ((c as u32) + 32) as u8 as char
        } else {
            c
        };
        out.push(lower);
        proof {
            assert(out@ =~= s@.subrange(0, i + 1).map_values(|c: char| ascii_lower(c)));
        }
        i = i + 1;
    }
    proof {
        assert(s@.subrange(0, i as int) =~= s@);
    }
    out
}

/// Whether a character vector spells the given characters.
fn chars_are(a: &Vec<char>, b: &[char]) -> (r: bool)
    ensures
        r == (a@ == b@),
{
    if a.len() != b.len() {
        return false;
    }
    let mut i: usize = 0;
    while i < a.len()
        invariant
            i <= a.len(),
            a.len() == b@.len(),
            forall|j: int| 0 <= j < i ==> a@[j] == b@[j],
        decreases a.len() - i,
    {
        if a[i] != b[i] {
            return false;
        }
        i = i + 1;
    }
    proof {
        assert(a@ =~= b@);
    }
    true
}

/// The output format for an output file extension (`spec_output_format`).
pub fn output_format_for_extension(ext: Option<&str>) -> (r: Result<OutputFormat, String>)
    ensures
        match (r, spec_output_format(
            match ext {
                Some(e) => Some(e@),
                None => None,
            },
        )) {
            (Ok(a), Ok(b)) => a == b,
            (Err(a), Err(b)) => a@ == b,
            _ => false,
        },
{
    match ext {
        None => Ok(OutputFormat::Svg),
        Some(e) => {
            let lowered = lower_ascii(&chars_of(e));
            if chars_are(&lowered, &['p', 'n', 'g']) {
                Ok(OutputFormat::Png)
            } else if chars_are(&lowered, &['j', 'p', 'g']) || chars_are(
                &lowered,
                &['j', 'p', 'e', 'g'],
            ) {
                Ok(OutputFormat::Jpeg)
            } else if chars_are(&lowered, &['s', 'v', 'g']) {
                Ok(OutputFormat::Svg)
            } else {
                let mut message = chars_of("unsupported output extension `");
                push_all(&mut message, &lowered);
                let tail = chars_of("`; use .svg, .png, .jpg, or .jpeg");
                push_all(&mut message, &tail);
                Err(string_of(message.as_slice()))
            }
        },
    }
}

/// Whether an output-format result agrees with its specification.
pub open spec fn format_result_is(r: Result<OutputFormat, String>, s: Result<OutputFormat, Seq<char>>) -> bool {
    match (r, s) {
        (Ok(a), Ok(b)) => a == b,
        (Err(a), Err(b)) => a@ == b,
        _ => false,
    }
}

/// The output format for an output path, by its extension as the platform
/// splits paths (see `output_format_for_extension`): the format of some
/// extension that the path can have (`path_extension_ok`), and SVG for a
/// path without a dot.
pub fn output_format(output: &str) -> (r: Result<OutputFormat, String>)
    ensures
        exists|ext: Option<Seq<char>>|
            #![trigger path_extension_ok(output@, ext)]
            path_extension_ok(output@, ext) && format_result_is(r, spec_output_format(ext)),
        !output@.contains('.') ==> r == Ok::<OutputFormat, String>(OutputFormat::Svg),
        plain_path(output@) ==> format_result_is(r, spec_output_format(plain_name_extension(output@))),
{
    match file_extension(output) {
        Some(ext) => {
            let r = output_format_for_extension(Some(ext.as_str()));
            proof {
                let x = Some(ext@);
                assert(path_extension_ok(output@, x));
                assert(format_result_is(r, spec_output_format(x)));
                if !output@.contains('.') {
                    lemma_undotted_path_has_no_extension(output@, x);
                }
            }
            r
        },
        None => {
            let r = output_format_for_extension(None);
            proof {
                let x: Option<Seq<char>> = None;
                assert(path_extension_ok(output@, x));
                assert(format_result_is(r, spec_output_format(x)));
            }
            r
        },
    }
}

/// The error text for a JPEG quality that is not an integer from 0 to 100.
pub open spec fn jpeg_quality_message() -> Seq<char> {
    "JPEG quality must be an integer from 0 to 100"@
}

/// A JPEG quality: a `u8` text (`str::parse::<u8>`) of at most 100.
pub fn parse_jpeg_quality(value: &str) -> (r: Result<u8, String>)
    ensures
        match parse_u8(value@) {
            Some(q) => if q <= 100 {
                r == Ok::<u8, String>(q as u8)
            } else {
                r matches Err(m) && m@ == jpeg_quality_message()
            },
            None => r matches Err(m) && m@ == jpeg_quality_message(),
        },
{
    let chars = chars_of(value);
    proof {
        assert(chars@.subrange(0, chars@.len() as int) =~= chars@);
    }
    match parse_int_range(&chars, 0, chars.len(), 10, false, 0, 255) {
        Some(q) => {
            if q <= 100 {
                Ok(q as u8)
            } else {
                Err("JPEG quality must be an integer from 0 to 100".to_owned())
            }
        },
        None => Err("JPEG quality must be an integer from 0 to 100".to_owned()),
    }
}

} // verus!
