//! Text handling on character sequences: whitespace trimming, line
//! splitting, integer parsing and printing, with the semantics of the
//! corresponding `str` methods of the standard library.
use crate::arith::fits_i64;
use vstd::prelude::*;

verus! {

/// The characters of a string slice.
pub fn chars_of(s: &str) -> (v: Vec<char>)
    ensures
        v@ == s@,
{
    let mut v: Vec<char> = Vec::new();
    for c in it: s.chars()
        invariant
            v@ == it.seq().take(it.index() as int),
            it.seq() == s@,
    {
        v.push(c);
    }
    proof {
        assert(v@ =~= s@);
    }
    v
}

/// The string made of the given characters (`FromIterator<char>` for `String`).
#[verifier::external_body]
pub(crate) fn string_of(chars: &[char]) -> (s: String)
    ensures
        s@ == chars@,
{
    chars.iter().collect()
}

/// What `str::to_lowercase` gives (Unicode lowercase mapping).
pub uninterp spec fn lowercase(s: Seq<char>) -> Seq<char>;

/// `str::to_lowercase`.
#[verifier::external_body]
pub(crate) fn to_lowercase(s: &str) -> (r: String)
    ensures
        r@ == lowercase(s@),
{
    s.to_lowercase()
}

/// Unicode `White_Space` property, the set that `char::is_whitespace`,
/// `str::trim` and the regex class `\s` use.
pub open spec fn is_space(c: char) -> bool {
    let u = c as u32;
    (0x9 <= u <= 0xd) || u == 0x20 || u == 0x85 || u == 0xa0 || u == 0x1680 || (0x2000 <= u
        <= 0x200a) || u == 0x2028 || u == 0x2029 || u == 0x202f || u == 0x205f || u == 0x3000
}

/// Executable `is_space`.
pub fn char_is_space(c: char) -> (r: bool)
    ensures
        r == is_space(c),
{
    let u = c as u32;
    (0x9 <= u && u <= 0xd) || u == 0x20 || u == 0x85 || u == 0xa0 || u == 0x1680 || (0x2000 <= u
        && u <= 0x200a) || u == 0x2028 || u == 0x2029 || u == 0x202f || u == 0x205f || u == 0x3000
}

/// Number of leading whitespace characters.
pub open spec fn lead_spaces(s: Seq<char>) -> nat
    decreases s.len(),
{
    if s.len() > 0 && is_space(s[0]) {
        1 + lead_spaces(s.drop_first())
    } else {
        0
    }
}

/// Number of trailing whitespace characters.
pub open spec fn trail_spaces(s: Seq<char>) -> nat
    decreases s.len(),
{
    if s.len() > 0 && is_space(s.last()) {
        1 + trail_spaces(s.drop_last())
    } else {
        0
    }
}

/// `s` without leading whitespace (`str::trim_start`).
pub open spec fn trim_start(s: Seq<char>) -> Seq<char> {
    s.subrange(lead_spaces(s) as int, s.len() as int)
}

/// `s` without trailing whitespace (`str::trim_end`).
pub open spec fn trim_end(s: Seq<char>) -> Seq<char> {
    s.subrange(0, s.len() - trail_spaces(s))
}

/// `s` without leading and trailing whitespace (`str::trim`).
pub open spec fn trim(s: Seq<char>) -> Seq<char> {
    trim_end(trim_start(s))
}

proof fn lemma_lead_spaces_bound(s: Seq<char>)
    ensures
        lead_spaces(s) <= s.len(),
        forall|i: int| 0 <= i < lead_spaces(s) ==> is_space(#[trigger] s[i]),
        lead_spaces(s) < s.len() ==> !is_space(s[lead_spaces(s) as int]),
    decreases s.len(),
{
    if s.len() > 0 && is_space(s[0]) {
        lemma_lead_spaces_bound(s.drop_first());
        assert forall|i: int| 0 <= i < lead_spaces(s) implies is_space(#[trigger] s[i]) by {
            if i > 0 {
                assert(s[i] == s.drop_first()[i - 1]);
            }
        }
        if lead_spaces(s) < s.len() {
            assert(s[lead_spaces(s) as int] == s.drop_first()[lead_spaces(s.drop_first()) as int]);
        }
    }
}

proof fn lemma_trail_spaces_bound(s: Seq<char>)
    ensures
        trail_spaces(s) <= s.len(),
        forall|i: int| s.len() - trail_spaces(s) <= i < s.len() ==> is_space(#[trigger] s[i]),
        trail_spaces(s) < s.len() ==> !is_space(s[s.len() - trail_spaces(s) - 1]),
    decreases s.len(),
{
    if s.len() > 0 && is_space(s.last()) {
        lemma_trail_spaces_bound(s.drop_last());
        assert forall|i: int| s.len() - trail_spaces(s) <= i < s.len() implies is_space(
            #[trigger] s[i],
        ) by {
            if i < s.len() - 1 {
                assert(s[i] == s.drop_last()[i]);
            }
        }
        if trail_spaces(s) < s.len() {
            assert(s[s.len() - trail_spaces(s) - 1] == s.drop_last()[s.drop_last().len()
                - trail_spaces(s.drop_last()) - 1]);
        }
    }
}

/// The leading-whitespace count is the first non-space position.
proof fn lemma_lead_spaces_is(s: Seq<char>, k: int)
    requires
        0 <= k <= s.len(),
        forall|i: int| 0 <= i < k ==> is_space(#[trigger] s[i]),
        k < s.len() ==> !is_space(s[k]),
    ensures
        lead_spaces(s) == k,
    decreases s.len(),
{
    if k > 0 {
        assert forall|i: int| 0 <= i < k - 1 implies is_space(#[trigger] s.drop_first()[i]) by {
            assert(s.drop_first()[i] == s[i + 1]);
        }
        if k - 1 < s.drop_first().len() {
            assert(s.drop_first()[k - 1] == s[k]);
        }
        lemma_lead_spaces_is(s.drop_first(), k - 1);
    }
}

/// The trailing-whitespace count is the distance from the last non-space.
proof fn lemma_trail_spaces_is(s: Seq<char>, k: int)
    requires
        0 <= k <= s.len(),
        forall|i: int| s.len() - k <= i < s.len() ==> is_space(#[trigger] s[i]),
        k < s.len() ==> !is_space(s[s.len() - k - 1]),
    ensures
        trail_spaces(s) == k,
    decreases s.len(),
{
    if k > 0 {
        let t = s.drop_last();
        assert forall|i: int| t.len() - (k - 1) <= i < t.len() implies is_space(#[trigger] t[i]) by {
            assert(t[i] == s[i]);
        }
        if k - 1 < t.len() {
            assert(t[t.len() - (k - 1) - 1] == s[s.len() - k - 1]);
        }
        lemma_trail_spaces_is(t, k - 1);
    }
}

/// Start and end positions of `trim(s)` inside `s`.
pub fn trim_bounds(s: &Vec<char>) -> (r: (usize, usize))
    ensures
        r.0 <= r.1 <= s.len(),
        s@.subrange(r.0 as int, r.1 as int) == trim(s@),
        r.0 == lead_spaces(s@),
{
    let mut start: usize = 0;
    while start < s.len() && char_is_space(s[start])
        invariant
            start <= s.len(),
            forall|i: int| 0 <= i < start ==> is_space(#[trigger] s@[i]),
        decreases s.len() - start,
    {
        start = start + 1;
    }
    proof {
        lemma_lead_spaces_is(s@, start as int);
    }
    let mut end: usize = s.len();
    while end > start && char_is_space(s[end - 1])
        invariant
            start <= end <= s.len(),
            forall|i: int| end <= i < s.len() ==> is_space(#[trigger] s@[i]),
        decreases end,
    {
        end = end - 1;
    }
    proof {
        let t = trim_start(s@);
        assert(t == s@.subrange(start as int, s.len() as int));
        let k = s.len() - end;
        assert forall|i: int| t.len() - k <= i < t.len() implies is_space(#[trigger] t[i]) by {
            assert(t[i] == s@[i + start]);
        }
        if k < t.len() {
            assert(t[t.len() - k - 1] == s@[end - 1]);
        }
        lemma_trail_spaces_is(t, k as int);
        assert(trim(s@) =~= s@.subrange(start as int, end as int));
    }
    (start, end)
}

/// A copy of `s[from..to]`.
pub fn slice_vec(s: &Vec<char>, from: usize, to: usize) -> (r: Vec<char>)
    requires
        from <= to <= s.len(),
    ensures
        r@ == s@.subrange(from as int, to as int),
{
    let mut r: Vec<char> = Vec::new();
    let mut i = from;
    while i < to
        invariant
            from <= i <= to,
            to <= s.len(),
            r@ == s@.subrange(from as int, i as int),
        decreases to - i,
    {
        r.push(s[i]);
        proof {
            assert(r@ =~= s@.subrange(from as int, i + 1));
        }
        i = i + 1;
    }
    r
}

/// `trim(s)` as a new vector.
pub fn trim_vec(s: &Vec<char>) -> (r: Vec<char>)
    ensures
        r@ == trim(s@),
{
    let (a, b) = trim_bounds(s);
    slice_vec(s, a, b)
}

/// Index of the first occurrence of `c` in `s`.
pub open spec fn find_char(s: Seq<char>, c: char) -> Option<int>
    decreases s.len(),
{
    if s.len() == 0 {
        None
    } else if s[0] == c {
        Some(0)
    } else {
        match find_char(s.drop_first(), c) {
            Some(i) => Some(i + 1),
            None => None,
        }
    }
}

proof fn lemma_find_char_is(s: Seq<char>, c: char, k: int)
    requires
        0 <= k <= s.len(),
        forall|i: int| 0 <= i < k ==> #[trigger] s[i] != c,
    ensures
        k < s.len() && s[k] == c ==> find_char(s, c) == Some(k),
        k == s.len() ==> find_char(s, c) is None,
    decreases s.len(),
{
    if s.len() > 0 && k > 0 {
        assert forall|i: int| 0 <= i < k - 1 implies #[trigger] s.drop_first()[i] != c by {
            assert(s.drop_first()[i] == s[i + 1]);
        }
        lemma_find_char_is(s.drop_first(), c, k - 1);
    }
}

/// `str::find` for a single character.
pub fn find_char_exec(s: &Vec<char>, c: char) -> (r: Option<usize>)
    ensures
        r matches Some(i) ==> find_char(s@, c) == Some(i as int),
        r is None ==> find_char(s@, c) is None,
{
    let mut i: usize = 0;
    while i < s.len()
        invariant
            i <= s.len(),
            forall|j: int| 0 <= j < i ==> #[trigger] s@[j] != c,
        decreases s.len() - i,
    {
        if s[i] == c {
            proof {
                lemma_find_char_is(s@, c, i as int);
            }
            return Some(i);
        }
        i = i + 1;
    }
    proof {
        lemma_find_char_is(s@, c, i as int);
    }
    None
}

/// The pieces of `s` between occurrences of `c` (`str::split` on a
/// character): `"a/b/"` gives `"a"`, `"b"`, `""`; an empty text gives one empty piece.
pub open spec fn split_char(s: Seq<char>, c: char) -> Seq<Seq<char>>
    decreases s.len(),
{
    match find_char(s, c) {
        None => seq![s],
        Some(i) => {
            proof {
                lemma_find_char_bound(s, c);
            }
            seq![s.subrange(0, i)] + split_char(s.subrange(i + 1, s.len() as int), c)
        },
    }
}

/// `str::split` on a character, over a character vector.
pub fn split_on(s: &Vec<char>, c: char) -> (r: Vec<Vec<char>>)
    ensures
        r@.map_values(|p: Vec<char>| p@) == split_char(s@, c),
{
    let mut out: Vec<Vec<char>> = Vec::new();
    let mut pos: usize = 0;
    proof {
        assert(s@.subrange(0, s.len() as int) =~= s@);
        assert(out@.map_values(|p: Vec<char>| p@) + split_char(s@, c) =~= split_char(s@, c));
    }
    loop
        invariant
            pos <= s.len(),
            out@.map_values(|p: Vec<char>| p@) + split_char(s@.subrange(pos as int, s.len() as int), c)
                == split_char(s@, c),
        decreases s.len() - pos,
    {
        let ghost rest = s@.subrange(pos as int, s.len() as int);
        let mut end = pos;
        while end < s.len() && s[end] != c
            invariant
                pos <= end <= s.len(),
                forall|j: int| pos <= j < end ==> #[trigger] s@[j] != c,
            decreases s.len() - end,
        {
            end = end + 1;
        }
        proof {
            assert forall|j: int| 0 <= j < end - pos implies #[trigger] rest[j] != c by {
                assert(rest[j] == s@[j + pos]);
            }
            lemma_find_char_is(rest, c, end - pos);
        }
        let piece = slice_vec(s, pos, end);
        let ghost old_out = out@.map_values(|p: Vec<char>| p@);
        out.push(piece);
        proof {
            assert(out@.map_values(|p: Vec<char>| p@) =~= old_out.push(piece@));
        }
        if end == s.len() {
            proof {
                assert(piece@ =~= rest);
                assert(split_char(rest, c) == seq![rest]);
                assert(old_out.push(piece@) =~= old_out + seq![rest]);
            }
            return out;
        }
        proof {
            assert(rest.subrange(0, end - pos) =~= piece@);
            assert(rest.subrange(end - pos + 1, rest.len() as int) =~= s@.subrange(
                end + 1,
                s.len() as int,
            ));
            assert(old_out.push(piece@) + split_char(s@.subrange(end + 1, s.len() as int), c)
                =~= old_out + (seq![piece@] + split_char(s@.subrange(end + 1, s.len() as int), c)));
        }
        pos = end + 1;
    }
}

/// The lines of `s` as `str::lines` yields them: split at `\n`, a `\r`
/// directly before the `\n` removed, no empty line after a final `\n`.
pub open spec fn lines(s: Seq<char>) -> Seq<Seq<char>>
    decreases s.len(),
{
    if s.len() == 0 {
        seq![]
    } else {
        match find_char(s, '\n') {
            None => seq![s],
            Some(i) => {
                let raw = s.subrange(0, i);
                let line = if raw.len() > 0 && raw.last() == '\r' {
                    raw.drop_last()
                } else {
                    raw
                };
                proof {
                    lemma_find_char_bound(s, '\n');
                }
                seq![line] + lines(s.subrange(i + 1, s.len() as int))
            },
        }
    }
}

pub proof fn lemma_find_char_bound(s: Seq<char>, c: char)
    ensures
        find_char(s, c) matches Some(i) ==> 0 <= i < s.len() && s[i] == c,
    decreases s.len(),
{
    if s.len() > 0 && s[0] != c {
        lemma_find_char_bound(s.drop_first(), c);
    }
}

/// `str::lines` on a character vector.
pub fn split_lines(s: &Vec<char>) -> (r: Vec<Vec<char>>)
    ensures
        r@.map_values(|l: Vec<char>| l@) == lines(s@),
{
    let mut out: Vec<Vec<char>> = Vec::new();
    let mut pos: usize = 0;
    proof {
        assert(s@.subrange(0, s.len() as int) =~= s@);
        assert(out@.map_values(|l: Vec<char>| l@) =~= Seq::<Seq<char>>::empty());
        assert(Seq::<Seq<char>>::empty() + lines(s@) =~= lines(s@));
    }
    while pos < s.len()
        invariant
            pos <= s.len(),
            out@.map_values(|l: Vec<char>| l@) + lines(s@.subrange(pos as int, s.len() as int))
                == lines(s@),
        decreases s.len() - pos,
    {
        let ghost rest = s@.subrange(pos as int, s.len() as int);
        let mut end = pos;
        while end < s.len() && s[end] != '\n'
            invariant
                pos <= end <= s.len(),
                forall|j: int| pos <= j < end ==> #[trigger] s@[j] != '\n',
            decreases s.len() - end,
        {
            end = end + 1;
        }
        proof {
            assert forall|j: int| 0 <= j < end - pos implies #[trigger] rest[j] != '\n' by {
                assert(rest[j] == s@[j + pos]);
            }
            lemma_find_char_is(rest, '\n', end - pos);
        }
        let mut line_end = end;
        if end > pos && s[end - 1] == '\r' && end < s.len() {
            line_end = end - 1;
        }
        let line = slice_vec(s, pos, line_end);
        let ghost old_out = out@.map_values(|l: Vec<char>| l@);
        out.push(line);
        proof {
            assert(out@.map_values(|l: Vec<char>| l@) =~= old_out.push(line@));
            if end < s.len() {
                let raw = rest.subrange(0, end - pos);
                assert(raw =~= s@.subrange(pos as int, end as int));
                if raw.len() > 0 && raw.last() == '\r' {
                    assert(line@ =~= raw.drop_last());
                } else {
                    assert(line@ =~= raw);
                }
                assert(rest.subrange(end - pos + 1, rest.len() as int) =~= s@.subrange(
                    end + 1,
                    s.len() as int,
                ));
                assert(lines(rest) == seq![line@] + lines(
                    s@.subrange(end + 1, s.len() as int),
                ));
            } else {
                assert(line@ =~= rest);
                assert(lines(rest) == seq![line@]);
                assert(s@.subrange(s.len() as int, s.len() as int) =~= Seq::<char>::empty());
            }
        }
        if end < s.len() {
            pos = end + 1;
        } else {
            pos = end;
        }
        proof {
            assert(old_out.push(line@) + lines(s@.subrange(pos as int, s.len() as int)) =~= old_out
                + (seq![line@] + lines(s@.subrange(pos as int, s.len() as int))));
        }
    }
    proof {
        assert(s@.subrange(pos as int, s.len() as int) =~= Seq::<char>::empty());
        assert(out@.map_values(|l: Vec<char>| l@) + Seq::<Seq<char>>::empty() =~= out@.map_values(
            |l: Vec<char>| l@,
        ));
    }
    out
}

/// The value of an ASCII digit in the given radix (`char::to_digit`).
pub open spec fn digit_value(c: char, radix: int) -> Option<int> {
    let u = c as u32 as int;
    let v = if 0x30 <= u <= 0x39 {
        u - 0x30
    } else if 0x61 <= u <= 0x7a {
        u - 0x61 + 10
    } else if 0x41 <= u <= 0x5a {
        u - 0x41 + 10
    } else {
        99
    };
    if v < radix {
        Some(v)
    } else {
        None
    }
}

/// Executable `digit_value`.
pub fn digit_value_exec(c: char, radix: u32) -> (r: Option<u32>)
    requires
        2 <= radix <= 36,
    ensures
        r matches Some(v) ==> digit_value(c, radix as int) == Some(v as int),
        r is None ==> digit_value(c, radix as int) is None,
{
    let u = c as u32;
    let v: u32 = if 0x30 <= u && u <= 0x39 {
        u - 0x30
    } else if 0x61 <= u && u <= 0x7a {
        u - 0x61 + 10
    } else if 0x41 <= u && u <= 0x5a {
        u - 0x41 + 10
    } else {
        99
    };
    if v < radix {
        Some(v)
    } else {
        None
    }
}

/// Whether every character is a digit of the radix.
pub open spec fn all_digits(s: Seq<char>, radix: int) -> bool {
    forall|i: int| 0 <= i < s.len() ==> (#[trigger] digit_value(s[i], radix)) is Some
}

/// The number that a run of digits spells.
pub open spec fn digits_number(s: Seq<char>, radix: int) -> int
    decreases s.len(),
{
    if s.len() == 0 {
        0
    } else {
        digits_number(s.drop_last(), radix) * radix + digit_value(s.last(), radix)->0
    }
}

/// The integer that `s` spells as Rust's integer `FromStr` reads it: an
/// optional `+` (or, when `signed`, `-`) then at least one digit; the range
/// of the target type is checked by the caller.
pub open spec fn parse_int(s: Seq<char>, radix: int, signed: bool) -> Option<int> {
    if s.len() == 0 {
        None
    } else {
        let neg = signed && s[0] == '-';
        let body = if s[0] == '+' || neg {
            s.drop_first()
        } else {
            s
        };
        if body.len() == 0 || !all_digits(body, radix) {
            None
        } else if neg {
            Some(-digits_number(body, radix))
        } else {
            Some(digits_number(body, radix))
        }
    }
}

/// `str::parse::<i64>` (radix 10) or `i64::from_str_radix`.
pub open spec fn parse_i64(s: Seq<char>, radix: int) -> Option<int> {
    match parse_int(s, radix, true) {
        Some(v) => if fits_i64(v) {
            Some(v)
        } else {
            None
        },
        None => None,
    }
}

/// `str::parse::<i32>` (radix 10) or `i32::from_str_radix`.
pub open spec fn parse_i32(s: Seq<char>, radix: int) -> Option<int> {
    match parse_int(s, radix, true) {
        Some(v) => if i32::MIN <= v <= i32::MAX {
            Some(v)
        } else {
            None
        },
        None => None,
    }
}

/// `str::parse::<u8>`.
pub open spec fn parse_u8(s: Seq<char>) -> Option<int> {
    match parse_int(s, 10, false) {
        Some(v) => if 0 <= v <= 255 {
            Some(v)
        } else {
            None
        },
        None => None,
    }
}

proof fn lemma_digits_number_step(s: Seq<char>, i: int, radix: int)
    requires
        0 <= i < s.len(),
    ensures
        digits_number(s.subrange(0, i + 1), radix) == digits_number(s.subrange(0, i), radix)
            * radix + digit_value(s[i], radix)->0,
{
    assert(s.subrange(0, i + 1).drop_last() =~= s.subrange(0, i));
}

proof fn lemma_digits_number_nonneg(s: Seq<char>, radix: int)
    requires
        radix >= 2,
        all_digits(s, radix),
    ensures
        digits_number(s, radix) >= 0,
    decreases s.len(),
{
    if s.len() > 0 {
        assert(all_digits(s.drop_last(), radix)) by {
            assert forall|i: int| 0 <= i < s.drop_last().len() implies (#[trigger] digit_value(
                s.drop_last()[i],
                radix,
            )) is Some by {
                assert(s.drop_last()[i] == s[i]);
                assert(digit_value(s[i], radix) is Some);
            }
        }
        lemma_digits_number_nonneg(s.drop_last(), radix);
        assert(digit_value(s[s.len() - 1], radix) is Some);
        assert(digits_number(s.drop_last(), radix) * radix >= 0) by (nonlinear_arith)
            requires
                digits_number(s.drop_last(), radix) >= 0,
                radix >= 2,
        ;
    }
}

/// Parses `s[from..to]` as an integer with the given sign rule and radix,
/// keeping it only when it lies within `[lo, hi]` (both within `i64`).
pub fn parse_int_range(
    s: &Vec<char>,
    from: usize,
    to: usize,
    radix: u32,
    signed: bool,
    lo: i64,
    hi: i64,
) -> (r: Option<i64>)
    requires
        from <= to <= s.len(),
        2 <= radix <= 36,
        lo <= 0 <= hi,
    ensures
        r matches Some(v) ==> lo <= v <= hi,
        ({
            let spec_r = parse_int(s@.subrange(from as int, to as int), radix as int, signed);
            match r {
                Some(v) => spec_r == Some(v as int),
                None => spec_r is None || !(lo <= spec_r->0 <= hi),
            }
        }),
{
    let ghost t = s@.subrange(from as int, to as int);
    if from == to {
        return None;
    }
    let first = s[from];
    assert(t[0] == first);
    let neg = signed && first == '-';
    let start = if first == '+' || neg {
        from + 1
    } else {
        from
    };
    if start == to {
        return None;
    }
    let ghost body = s@.subrange(start as int, to as int);
    proof {
        if first == '+' || neg {
            assert(body =~= t.drop_first());
        } else {
            assert(body =~= t);
        }
    }
    // Accumulate the magnitude; it is kept below 2^64 by stopping early.
    let limit: i128 = if neg {
        -(lo as i128)
    } else {
        hi as i128
    };
    let mut acc: i128 = 0;
    let mut i = start;
    let mut exceeded = false;
    while i < to
        invariant
            start <= i <= to,
            to <= s.len(),
            start < to,
            2 <= radix <= 36,
            body == s@.subrange(start as int, to as int),
            t == s@.subrange(from as int, to as int),
            !all_digits(body, radix as int) ==> parse_int(t, radix as int, signed) is None,
            all_digits(body, radix as int) ==> parse_int(t, radix as int, signed) == Some(
                if neg {
                    -digits_number(body, radix as int)
                } else {
                    digits_number(body, radix as int)
                },
            ),
            neg ==> limit == -lo,
            !neg ==> limit == hi,
            0 <= limit <= 0x8000_0000_0000_0000,
            !exceeded ==> acc == digits_number(body.subrange(0, i - start), radix as int),
            !exceeded ==> 0 <= acc <= limit,
            exceeded ==> all_digits(body.subrange(0, i - start), radix as int) ==> digits_number(
                body.subrange(0, i - start),
                radix as int,
            ) > limit,
            all_digits(body.subrange(0, i - start), radix as int),
        decreases to - i,
    {
        let dv = digit_value_exec(s[i], radix);
        match dv {
            None => {
                proof {
                    assert(body[i - start] == s@[i as int]);
                    assert(digit_value(body[i - start], radix as int) is None);
                    assert(!all_digits(body, radix as int));
                }
                return None;
            },
            Some(v) => {
                proof {
                    let k = i - start;
                    assert(body[k] == s@[i as int]);
                    lemma_digits_number_step(body, k, radix as int);
                    assert(all_digits(body.subrange(0, k + 1), radix as int)) by {
                        assert forall|j: int| 0 <= j < k + 1 implies (#[trigger] digit_value(
                            body.subrange(0, k + 1)[j],
                            radix as int,
                        )) is Some by {
                            if j < k {
                                assert(body.subrange(0, k + 1)[j] == body.subrange(0, k)[j]);
                            }
                        }
                    }
                    lemma_digits_number_nonneg(body.subrange(0, k), radix as int);
                    assert(digits_number(body.subrange(0, k), radix as int) * (radix as int) >= 0)
                        by (nonlinear_arith)
                        requires
                            digits_number(body.subrange(0, k), radix as int) >= 0,
                            radix >= 2,
                    ;
                    if exceeded {
                        assert(digits_number(body.subrange(0, k), radix as int) * (radix as int)
                            >= digits_number(body.subrange(0, k), radix as int))
                            by (nonlinear_arith)
                            requires
                                digits_number(body.subrange(0, k), radix as int) >= 0,
                                radix >= 2,
                        ;
                    }
                }
                if !exceeded {
                    proof {
                        assert(acc * (radix as int) + (v as int) <= 0x8000_0000_0000_0000 * 36 + 36)
                            by (nonlinear_arith)
                            requires
                                0 <= acc <= 0x8000_0000_0000_0000,
                                radix <= 36,
                                v < 36,
                        ;
                    }
                    let next = acc * (radix as i128) + (v as i128);
                    if next > limit {
                        exceeded = true;
                    } else {
                        acc = next;
                    }
                }
            },
        }
        i = i + 1;
    }
    proof {
        assert(body.subrange(0, to - start) =~= body);
    }
    if exceeded {
        return None;
    }
    if neg {
        Some((-acc) as i64)
    } else {
        Some(acc as i64)
    }
}

/// The integer a text spells (`str::parse::<i64>`), or `fallback`.
pub fn i64_or_text(s: &Vec<char>, fallback: i64) -> (r: i64)
    ensures
        r == (match parse_i64(s@, 10) {
            Some(v) => v,
            None => fallback as int,
        }),
{
    proof {
        assert(s@.subrange(0, s@.len() as int) =~= s@);
    }
    match parse_int_range(s, 0, s.len(), 10, true, i64::MIN, i64::MAX) {
        Some(v) => v,
        None => fallback,
    }
}

/// Decimal digits of a natural number.
pub open spec fn nat_decimal(n: nat) -> Seq<char>
    decreases n,
{
    if n < 10 {
        seq![(('0' as u32) + n) as char]
    } else {
        nat_decimal(n / 10) + seq![(('0' as u32) + n % 10) as char]
    }
}

/// Decimal text of an integer, with a leading `-` when negative (`Display` for integers).
pub open spec fn int_decimal(x: int) -> Seq<char> {
    if x < 0 {
        seq!['-'] + nat_decimal((-x) as nat)
    } else {
        nat_decimal(x as nat)
    }
}

pub fn digit_char(d: u32) -> (c: char)
    requires
        d < 10,
    ensures
        c == (('0' as u32) + d) as char,
{
    match d {
        0 => '0',
        1 => '1',
        2 => '2',
        3 => '3',
        4 => '4',
        5 => '5',
        6 => '6',
        7 => '7',
        8 => '8',
        _ => '9',
    }
}

/// Appends the decimal digits of `n` to `out`.
pub fn push_nat_decimal(out: &mut Vec<char>, n: u128)
    ensures
        final(out)@ == old(out)@ + nat_decimal(n as nat),
    decreases n,
{
    if n < 10 {
        out.push(digit_char(n as u32));
    } else {
        push_nat_decimal(out, n / 10);
        out.push(digit_char((n % 10) as u32));
        proof {
            assert(final(out)@ =~= old(out)@ + nat_decimal(n as nat));
        }
    }
}

/// Appends the decimal text of `x` to `out`.
pub fn push_int_decimal(out: &mut Vec<char>, x: i64)
    ensures
        final(out)@ == old(out)@ + int_decimal(x as int),
{
    if x < 0 {
        out.push('-');
        let m: u128 = (-(x as i128)) as u128;
        push_nat_decimal(out, m);
        proof {
            assert(final(out)@ =~= old(out)@ + int_decimal(x as int));
        }
    } else {
        push_nat_decimal(out, x as u128);
    }
}

/// Appends the characters of `s` to `out`.
pub fn push_all(out: &mut Vec<char>, s: &Vec<char>)
    ensures
        final(out)@ == old(out)@ + s@,
{
    let mut i: usize = 0;
    while i < s.len()
        invariant
            i <= s.len(),
            out@ == old(out)@ + s@.subrange(0, i as int),
        decreases s.len() - i,
    {
        out.push(s[i]);
        proof {
            assert(out@ =~= old(out)@ + s@.subrange(0, i + 1));
        }
        i = i + 1;
    }
    proof {
        assert(s@.subrange(0, s.len() as int) =~= s@);
    }
}

} // verus!
