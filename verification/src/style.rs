//! Stylesheet values: font family lists, family lookup keys, colors, and
//! the characters that need a CJK font.
use crate::score::ascii_lower;
use crate::meta::chars_eq_str;
use crate::text::{
    chars_of, char_is_space, digit_value, digit_value_exec, is_space, parse_int, parse_int_range,
    string_of, trim, trim_vec,
};
use vstd::prelude::*;

verus! {

/// Scanning state of a comma-separated CSS list: the items so far, the
/// current item, the open quote (if any), and whether the next character is
/// escaped.
pub type CssScan = (Seq<Seq<char>>, Seq<char>, Option<char>, bool);

/// One character of a CSS list: inside quotes a backslash escapes the next
/// character and the matching quote closes; outside, a quote opens and a
/// comma ends the (trimmed) item.
pub open spec fn css_step(st: CssScan, ch: char) -> CssScan {
    let (items, cur, quote, escaped) = st;
    if escaped {
        (items, cur.push(ch), quote, false)
    } else if ch == '\\' && quote is Some {
        (items, cur, quote, true)
    } else if quote is Some {
        if ch == quote->0 {
            (items, cur, None, false)
        } else {
            (items, cur.push(ch), quote, false)
        }
    } else if ch == '\'' || ch == '"' {
        (items, cur, Some(ch), false)
    } else if ch == ',' {
        (items.push(trim(cur)), seq![], None, false)
    } else {
        (items, cur.push(ch), None, false)
    }
}

/// The scanning state after the first `k` characters.
pub open spec fn css_scan(s: Seq<char>, k: int) -> CssScan
    decreases k,
{
    if k <= 0 {
        (seq![], seq![], None, false)
    } else {
        css_step(css_scan(s, k - 1), s[k - 1])
    }
}

/// The items of a comma-separated CSS list: quotes removed, each item
/// trimmed, a last empty item dropped.
pub open spec fn css_list(s: Seq<char>) -> Seq<Seq<char>> {
    let st = css_scan(s, s.len() as int);
    if trim(st.1).len() > 0 {
        st.0.push(trim(st.1))
    } else {
        st.0
    }
}

/// Splits a comma-separated CSS list (see `css_list`).
pub fn split_css_list(value: &str) -> (r: Vec<String>)
    ensures
        r@.map_values(|s: String| s@) == css_list(value@),
{
    let chars = chars_of(value);
    let mut items: Vec<String> = Vec::new();
    let mut current: Vec<char> = Vec::new();
    let mut quote: Option<char> = None;
    let mut escaped = false;
    let mut k: usize = 0;
    while k < chars.len()
        invariant
            k <= chars@.len(),
            chars@ == value@,
            css_scan(value@, k as int) == (
                items@.map_values(|s: String| s@),
                current@,
                quote,
                escaped,
            ),
        decreases chars@.len() - k,
    {
        let ch = chars[k];
        let ghost before = items@.map_values(|s: String| s@);
        if escaped {
            current.push(ch);
            escaped = false;
        } else if ch == '\\' && quote.is_some() {
            escaped = true;
        } else if let Some(q) = quote {
            if ch == q {
                quote = None;
            } else {
                current.push(ch);
            }
        } else if ch == '\'' || ch == '"' {
            quote = Some(ch);
        } else if ch == ',' {
            let trimmed = trim_vec(&current);
            items.push(string_of(trimmed.as_slice()));
            current = Vec::new();
            proof {
                assert(items@.map_values(|s: String| s@) =~= before.push(trimmed@));
            }
        } else {
            current.push(ch);
        }
        k = k + 1;
    }
    let trimmed = trim_vec(&current);
    if trimmed.len() > 0 {
        let ghost before = items@.map_values(|s: String| s@);
        items.push(string_of(trimmed.as_slice()));
        proof {
            assert(items@.map_values(|s: String| s@) =~= before.push(trimmed@));
        }
    }
    items
}

/// Whether a text is `word` in any ASCII case.
pub open spec fn is_word_ignoring_case(s: Seq<char>, word: Seq<char>) -> bool {
    s.map_values(|c: char| ascii_lower(c)) == word
}

/// A font family name: trimmed; `None` when empty or a CSS-wide keyword
/// (`inherit`, `initial`, any ASCII case).
pub open spec fn spec_font_family(value: Seq<char>) -> Option<Seq<char>> {
    let f = trim(value);
    if f.len() == 0 || is_word_ignoring_case(f, seq!['i', 'n', 'h', 'e', 'r', 'i', 't'])
        || is_word_ignoring_case(f, seq!['i', 'n', 'i', 't', 'i', 'a', 'l']) {
        None
    } else {
        Some(f)
    }
}

/// Whether a character vector is `word` in any ASCII case.
fn is_word_ignoring_case_exec(s: &Vec<char>, word: &[char]) -> (r: bool)
    ensures
        r == is_word_ignoring_case(s@, word@),
{
    if s.len() != word.len() {
        proof {
            assert(s@.map_values(|c: char| ascii_lower(c)).len() != word@.len());
        }
        return false;
    }
    let mut i: usize = 0;
    while i < s.len()
        invariant
            i <= s.len(),
            s.len() == word@.len(),
            forall|j: int| 0 <= j < i ==> ascii_lower(#[trigger] s@[j]) == word@[j],
        decreases s.len() - i,
    {
        let c = s[i];
        let lower = if 'A' <= c && c <= 'Z' {
            ((c as u32) + 32) as u8 as char
        } else {
            c
        };
        if lower != word[i] {
            proof {
                assert(s@.map_values(|c: char| ascii_lower(c))[i as int] != word@[i as int]);
            }
            return false;
        }
        i = i + 1;
    }
    proof {
        assert(s@.map_values(|c: char| ascii_lower(c)) =~= word@);
    }
    true
}

/// A font family name from a list item (see `spec_font_family`).
pub fn normalize_font_family(value: &str) -> (r: Option<String>)
    ensures
        match r {
            Some(f) => spec_font_family(value@) == Some(f@),
            None => spec_font_family(value@) is None,
        },
{
    let family = trim_vec(&chars_of(value));
    if family.len() == 0 || is_word_ignoring_case_exec(
        &family,
        &['i', 'n', 'h', 'e', 'r', 'i', 't'],
    ) || is_word_ignoring_case_exec(&family, &['i', 'n', 'i', 't', 'i', 'a', 'l']) {
        return None;
    }
    Some(string_of(family.as_slice()))
}

/// The font families of the first `k` items, keywords and empty names dropped.
pub open spec fn families_of(items: Seq<Seq<char>>, k: int) -> Seq<Seq<char>>
    decreases k,
{
    if k <= 0 {
        seq![]
    } else {
        families_of(items, k - 1) + match spec_font_family(items[k - 1]) {
            Some(f) => seq![f],
            None => seq![],
        }
    }
}

/// The font families of a `font-family` value, or `None` when it names none.
pub open spec fn spec_font_families(value: Seq<char>) -> Option<Seq<Seq<char>>> {
    let items = css_list(value);
    let fams = families_of(items, items.len() as int);
    if fams.len() == 0 {
        None
    } else {
        Some(fams)
    }
}

/// The font families of a `font-family` value (see `spec_font_families`).
pub fn parse_font_families(value: &str) -> (r: Option<Vec<String>>)
    ensures
        match r {
            Some(v) => spec_font_families(value@) == Some(v@.map_values(|s: String| s@)),
            None => spec_font_families(value@) is None,
        },
{
    let items = split_css_list(value);
    let ghost iv = items@.map_values(|s: String| s@);
    let mut families: Vec<String> = Vec::new();
    let mut k: usize = 0;
    while k < items.len()
        invariant
            k <= items@.len(),
            iv == items@.map_values(|s: String| s@),
            iv == css_list(value@),
            families@.map_values(|s: String| s@) == families_of(iv, k as int),
        decreases items@.len() - k,
    {
        let ghost before = families@.map_values(|s: String| s@);
        proof {
            assert(iv[k as int] == items@[k as int]@);
        }
        match normalize_font_family(items[k].as_str()) {
            Some(f) => {
                families.push(f);
                proof {
                    assert(families@.map_values(|s: String| s@) =~= before.push(f@));
                }
            },
            None => {},
        }
        proof {
            assert(families@.map_values(|s: String| s@) =~= families_of(iv, k as int + 1));
        }
        k = k + 1;
    }
    if families.len() == 0 {
        None
    } else {
        Some(families)
    }
}

/// Lookup state of a family name: the key so far, whether the last
/// character was part of a word, and whether a word was seen.
pub type LookupScan = (Seq<char>, bool, bool);

/// One character of a family name: whitespace ends a word; the first
/// character of each later word is preceded by one space; ASCII capitals
/// are lowered.
pub open spec fn lookup_step(st: LookupScan, c: char) -> LookupScan {
    let (out, in_word, any) = st;
    if is_space(c) {
        (out, false, any)
    } else if !in_word && any {
        (out.push(' ').push(ascii_lower(c)), true, true)
    } else {
        (out.push(ascii_lower(c)), true, true)
    }
}

/// The lookup state after the first `k` characters.
pub open spec fn lookup_scan(s: Seq<char>, k: int) -> LookupScan
    decreases k,
{
    if k <= 0 {
        (seq![], false, false)
    } else {
        lookup_step(lookup_scan(s, k - 1), s[k - 1])
    }
}

/// The key a family name is looked up by: its words joined by single
/// spaces, ASCII-lowered.
pub open spec fn family_lookup_key(s: Seq<char>) -> Seq<char> {
    lookup_scan(s, s.len() as int).0
}

/// The key a family name is looked up by (see `family_lookup_key`).
pub fn normalize_family_lookup(name: &str) -> (r: String)
    ensures
        r@ == family_lookup_key(name@),
{
    let chars = chars_of(name);
    let mut out: Vec<char> = Vec::new();
    let mut in_word = false;
    let mut any = false;
    let mut k: usize = 0;
    while k < chars.len()
        invariant
            k <= chars@.len(),
            chars@ == name@,
            lookup_scan(name@, k as int) == (out@, in_word, any),
        decreases chars@.len() - k,
    {
        let c = chars[k];
        let lower = if 'A' <= c && c <= 'Z' {
            ((c as u32) + 32) as u8 as char
        } else {
            c
        };
        if char_is_space(c) {
            in_word = false;
        } else if !in_word && any {
            out.push(' ');
            out.push(lower);
            in_word = true;
        } else {
            out.push(lower);
            in_word = true;
            any = true;
        }
        k = k + 1;
    }
    string_of(out.as_slice())
}

/// Whether a character needs a CJK-capable font.
pub open spec fn spec_is_cjk(c: char) -> bool {
    let u = c as u32;
    ||| 0x2e80 <= u <= 0x2eff
    ||| 0x3000 <= u <= 0x303f
    ||| 0x3040 <= u <= 0x30ff
    ||| 0x31f0 <= u <= 0x31ff
    ||| 0x3400 <= u <= 0x4dbf
    ||| 0x4e00 <= u <= 0x9fff
    ||| 0xf900 <= u <= 0xfaff
    ||| 0xff00 <= u <= 0xffef
    ||| 0x20000 <= u <= 0x2ebef
    ||| 0x30000 <= u <= 0x3134f
}

/// Whether a character needs a CJK-capable font (see `spec_is_cjk`).
pub fn is_cjk_char(ch: char) -> (r: bool)
    ensures
        r == spec_is_cjk(ch),
{
    let u = ch as u32;
    (0x2e80 <= u && u <= 0x2eff) || (0x3000 <= u && u <= 0x303f) || (0x3040 <= u && u <= 0x30ff)
        || (0x31f0 <= u && u <= 0x31ff) || (0x3400 <= u && u <= 0x4dbf) || (0x4e00 <= u && u
        <= 0x9fff) || (0xf900 <= u && u <= 0xfaff) || (0xff00 <= u && u <= 0xffef) || (0x20000
        <= u && u <= 0x2ebef) || (0x30000 <= u && u <= 0x3134f)
}

// ---------------------------------------------------------------------------
// Comments
// ---------------------------------------------------------------------------
/// The first position from `k` where `a` is followed by `b`.
pub open spec fn find_pair(s: Seq<char>, a: char, b: char, k: int) -> Option<int>
    decreases s.len() - k,
{
    if k < 0 || k + 1 >= s.len() {
        None
    } else if s[k] == a && s[k + 1] == b {
        Some(k)
    } else {
        find_pair(s, a, b, k + 1)
    }
}

/// A pair found from `k` lies at or after `k`, within the text.
pub proof fn lemma_find_pair_bounds(s: Seq<char>, a: char, b: char, k: int)
    ensures
        find_pair(s, a, b, k) matches Some(i) ==> k <= i && i + 1 < s.len() && s[i] == a && s[i
            + 1] == b,
    decreases s.len() - k,
{
    if !(k < 0 || k + 1 >= s.len()) && !(s[k] == a && s[k + 1] == b) {
        lemma_find_pair_bounds(s, a, b, k + 1);
    }
}

/// The text from position `p` on without its `/* ... */` comments; an
/// unclosed comment runs to the end.
pub open spec fn strip_comments_from(s: Seq<char>, p: int) -> Seq<char>
    decreases s.len() - p,
{
    if p < 0 || p > s.len() {
        seq![]
    } else {
        match find_pair(s, '/', '*', p) {
            None => s.subrange(p, s.len() as int),
            Some(st) => {
                proof {
                    lemma_find_pair_bounds(s, '/', '*', p);
                    lemma_find_pair_bounds(s, '*', '/', st + 2);
                }
                s.subrange(p, st) + match find_pair(s, '*', '/', st + 2) {
                    None => seq![],
                    Some(en) => strip_comments_from(s, en + 2),
                }
            },
        }
    }
}

/// A stylesheet without its `/* ... */` comments.
pub open spec fn strip_comments(s: Seq<char>) -> Seq<char> {
    strip_comments_from(s, 0)
}

/// The first position from `k` where `a` is followed by `b`.
fn find_pair_exec(s: &Vec<char>, a: char, b: char, k: usize) -> (r: Option<usize>)
    ensures
        r matches Some(i) ==> find_pair(s@, a, b, k as int) == Some(i as int),
        r is None ==> find_pair(s@, a, b, k as int) is None,
{
    let mut i = k;
    while i < s.len() && s.len() - i > 1
        invariant
            k <= i,
            find_pair(s@, a, b, i as int) == find_pair(s@, a, b, k as int),
        decreases s@.len() - i,
    {
        if s[i] == a && s[i + 1] == b {
            return Some(i);
        }
        i = i + 1;
    }
    None
}

/// Removes `/* ... */` comments from a stylesheet (see `strip_comments`).
pub fn strip_css_comments(css: &str) -> (r: String)
    ensures
        r@ == strip_comments(css@),
{
    let s = chars_of(css);
    let n = s.len();
    let mut out: Vec<char> = Vec::new();
    let mut p: usize = 0;
    loop
        invariant
            n == s@.len(),
            p <= s@.len(),
            s@ == css@,
            out@ + strip_comments_from(s@, p as int) == strip_comments(s@),
        decreases s@.len() - p,
    {
        let ghost before = out@;
        match find_pair_exec(&s, '/', '*', p) {
            None => {
                let mut i = p;
                while i < s.len()
                    invariant
                        p <= i <= s@.len(),
                        out@ == before + s@.subrange(p as int, i as int),
                    decreases s@.len() - i,
                {
                    out.push(s[i]);
                    proof {
                        assert(out@ =~= before + s@.subrange(p as int, i + 1));
                    }
                    i = i + 1;
                }
                proof {
                    assert(out@ =~= before + strip_comments_from(s@, p as int));
                    assert(out@ == strip_comments(s@));
                }
                return string_of(out.as_slice());
            },
            Some(st) => {
                proof {
                    lemma_find_pair_bounds(s@, '/', '*', p as int);
                }
                let mut i = p;
                while i < st
                    invariant
                        p <= i <= st,
                        st + 1 < s@.len(),
                        out@ == before + s@.subrange(p as int, i as int),
                    decreases st - i,
                {
                    out.push(s[i]);
                    proof {
                        assert(out@ =~= before + s@.subrange(p as int, i + 1));
                    }
                    i = i + 1;
                }
                match find_pair_exec(&s, '*', '/', st + 2) {
                    None => {
                        proof {
                            assert(before + (s@.subrange(p as int, st as int)
                                + Seq::<char>::empty()) =~= out@);
                        }
                        return string_of(out.as_slice());
                    },
                    Some(en) => {
                        proof {
                            lemma_find_pair_bounds(s@, '*', '/', st + 2);
                            assert(find_pair(s@, '*', '/', st + 2) == Some(en as int));
                            assert(en + 1 < s@.len());
                            assert(before + (s@.subrange(p as int, st as int) + strip_comments_from(
                                s@,
                                en + 2,
                            )) =~= out@ + strip_comments_from(s@, en + 2));
                        }
                        p = en + 2;
                    },
                }
            },
        }
    }
}

// ---------------------------------------------------------------------------
// Colors
// ---------------------------------------------------------------------------
/// A color: red, green, blue and alpha.
#[derive(Debug, Clone, Copy, PartialEq, Eq, Structural)]
pub struct RGBA {
    pub r: u8,
    pub g: u8,
    pub b: u8,
    pub a: u8,
}

/// The number of bytes of a character in UTF-8.
pub open spec fn utf8_len(c: char) -> int {
    let u = c as u32;
    if u < 0x80 {
        1
    } else if u < 0x800 {
        2
    } else if u < 0x10000 {
        3
    } else {
        4
    }
}

/// The number of bytes of a text in UTF-8.
pub open spec fn utf8_width(s: Seq<char>) -> int
    decreases s.len(),
{
    if s.len() == 0 {
        0
    } else {
        utf8_width(s.drop_last()) + utf8_len(s.last())
    }
}

/// Whether byte offset `b` of a text falls between two characters.
pub open spec fn byte_boundary(s: Seq<char>, b: int) -> bool {
    exists|k: int| 0 <= k <= s.len() && utf8_width(s.take(k)) == b
}

/// Whether every character is ASCII.
pub open spec fn ascii_only(s: Seq<char>) -> bool {
    forall|i: int| 0 <= i < s.len() ==> (#[trigger] s[i] as u32) < 0x80
}

/// The byte value of the two hex digits at `i` (`u8::from_str_radix`).
pub open spec fn hex_pair(h: Seq<char>, i: int) -> Option<int> {
    parse_int(h.subrange(i, i + 2), 16, false)
}

/// Characters `2m` and `2m + 1` are ASCII and read as a hex byte.
pub open spec fn ascii_pair_ok(h: Seq<char>, m: int) -> bool {
    &&& 2 * m + 1 < h.len()
    &&& (h[2 * m] as u32) < 0x80
    &&& (h[2 * m + 1] as u32) < 0x80
    &&& hex_pair(h, 2 * m) is Some
}

/// A hex digit repeated (`#abc` style): its value times 17.
pub open spec fn nibble(c: char) -> Option<int> {
    match digit_value(c, 16) {
        Some(d) => Some(d * 17),
        None => None,
    }
}

/// The hex part of a color text, if it has one.
pub open spec fn hex_part(value: Seq<char>) -> Option<Seq<char>> {
    let t = trim(value);
    if t.len() > 0 && t[0] == '#' {
        Some(t.drop_first())
    } else {
        None
    }
}

/// Reading a color does not cut a character: with a hex part of six or
/// eight bytes, read two bytes at a time until a pair is not a hex byte,
/// each pair read ends between characters.
pub open spec fn color_text_ok(value: Seq<char>) -> bool {
    match hex_part(value) {
        Some(h) => {
            let w = utf8_width(h);
            (w == 6 || w == 8) ==> forall|j: int|
                0 <= j < w / 2 && (forall|m: int| 0 <= m < j ==> #[trigger] ascii_pair_ok(h, m))
                    ==> #[trigger] byte_boundary(h, 2 * j + 2)
        },
        None => true,
    }
}

/// The color a CSS color text names: `black`, `white`, or `#rgb`, `#rgba`,
/// `#rrggbb`, `#rrggbbaa` (surrounding whitespace ignored); `transparent`,
/// `none` and anything else name none.
pub open spec fn spec_parse_color(value: Seq<char>) -> Option<RGBA> {
    let t = trim(value);
    if t == "black"@ {
        Some(RGBA { r: 0, g: 0, b: 0, a: 255 })
    } else if t == "white"@ {
        Some(RGBA { r: 255, g: 255, b: 255, a: 255 })
    } else {
        match hex_part(value) {
            None => None,
            Some(h) => if !ascii_only(h) {
                None
            } else if h.len() == 3 || h.len() == 4 {
                let a = if h.len() == 4 {
                    nibble(h[3])
                } else {
                    Some(255int)
                };
                match (nibble(h[0]), nibble(h[1]), nibble(h[2]), a) {
                    (Some(r), Some(g), Some(b), Some(a)) => Some(
                        RGBA { r: r as u8, g: g as u8, b: b as u8, a: a as u8 },
                    ),
                    _ => None,
                }
            } else if h.len() == 6 || h.len() == 8 {
                let a = if h.len() == 8 {
                    hex_pair(h, 6)
                } else {
                    Some(255int)
                };
                match (hex_pair(h, 0), hex_pair(h, 2), hex_pair(h, 4), a) {
                    (Some(r), Some(g), Some(b), Some(a)) => Some(
                        RGBA { r: r as u8, g: g as u8, b: b as u8, a: a as u8 },
                    ),
                    _ => None,
                }
            } else {
                None
            },
        }
    }
}

/// The value of a repeated hex digit.
fn nibble_exec(c: char) -> (r: Option<u8>)
    ensures
        r matches Some(v) ==> nibble(c) == Some(v as int),
        r is None ==> nibble(c) is None,
{
    match digit_value_exec(c, 16) {
        Some(d) => Some((d * 17) as u8),
        None => None,
    }
}

/// The byte value of the hex digits `h[i..i + 2]`.
fn hex_pair_exec(h: &Vec<char>, i: usize) -> (r: Option<u8>)
    requires
        i <= 6,
        i + 2 <= h@.len(),
    ensures
        r matches Some(v) ==> hex_pair(h@, i as int) == Some(v as int),
        r is None ==> hex_pair(h@, i as int) is None,
{
    proof {
        lemma_two_hex_digits_fit(h@.subrange(i as int, i + 2));
    }
    match parse_int_range(h, i, i + 2, 16, false, 0, 255) {
        Some(v) => Some(v as u8),
        None => None,
    }
}

/// Two hex digits (with or without a `+`) are at most 255.
proof fn lemma_two_hex_digits_fit(s: Seq<char>)
    requires
        s.len() == 2,
    ensures
        parse_int(s, 16, false) matches Some(v) ==> 0 <= v <= 255,
{
    if let Some(v) = parse_int(s, 16, false) {
        let body = if s[0] == '+' {
            s.drop_first()
        } else {
            s
        };
        assert(crate::text::all_digits(body, 16));
        assert(digit_value(body.last(), 16) is Some);
        let dl = digit_value(body.last(), 16)->0;
        assert(0 <= dl < 16);
        if body.len() == 1 {
            assert(body.drop_last() =~= Seq::<char>::empty());
            assert(crate::text::digits_number(body.drop_last(), 16) == 0);
        } else {
            let first = body.drop_last();
            assert(first.len() == 1);
            assert(first.last() == body[0]);
            assert(digit_value(body[0], 16) is Some);
            let d0 = digit_value(body[0], 16)->0;
            assert(0 <= d0 < 16);
            assert(first.drop_last() =~= Seq::<char>::empty());
            assert(crate::text::digits_number(first.drop_last(), 16) == 0);
            assert(crate::text::digits_number(first, 16) == crate::text::digits_number(
                first.drop_last(),
                16,
            ) * 16 + d0);
            assert(crate::text::digits_number(first, 16) == d0);
        }
    }
}

/// Whether every character of a vector is ASCII.
fn ascii_only_exec(h: &Vec<char>) -> (r: bool)
    ensures
        r == ascii_only(h@),
{
    let mut i: usize = 0;
    while i < h.len()
        invariant
            i <= h@.len(),
            forall|j: int| 0 <= j < i ==> (#[trigger] h@[j] as u32) < 0x80,
        decreases h@.len() - i,
    {
        if h[i] as u32 >= 0x80 {
            return false;
        }
        i = i + 1;
    }
    true
}

/// Reads a CSS color (see `spec_parse_color`).
pub fn parse_color(value: &str) -> (r: Option<RGBA>)
    requires
        color_text_ok(value@),
    ensures
        r == spec_parse_color(value@),
{
    let chars = chars_of(value);
    let t = trim_vec(&chars);
    if chars_eq_str(&t, "black") {
        return Some(RGBA { r: 0, g: 0, b: 0, a: 255 });
    }
    if chars_eq_str(&t, "white") {
        return Some(RGBA { r: 255, g: 255, b: 255, a: 255 });
    }
    if t.len() == 0 || t[0] != '#' {
        return None;
    }
    let mut h: Vec<char> = Vec::new();
    let mut i: usize = 1;
    while i < t.len()
        invariant
            1 <= i <= t@.len(),
            h@ == t@.subrange(1, i as int),
        decreases t@.len() - i,
    {
        h.push(t[i]);
        proof {
            assert(h@ =~= t@.subrange(1, i + 1));
        }
        i = i + 1;
    }
    proof {
        assert(h@ =~= t@.drop_first());
    }
    if !ascii_only_exec(&h) {
        return None;
    }
    if h.len() == 3 || h.len() == 4 {
        let a = if h.len() == 4 {
            nibble_exec(h[3])
        } else {
            Some(255u8)
        };
        match (nibble_exec(h[0]), nibble_exec(h[1]), nibble_exec(h[2]), a) {
            (Some(r), Some(g), Some(b), Some(a)) => Some(RGBA { r, g, b, a }),
            _ => None,
        }
    } else if h.len() == 6 || h.len() == 8 {
        let a = if h.len() == 8 {
            hex_pair_exec(&h, 6)
        } else {
            Some(255u8)
        };
        match (hex_pair_exec(&h, 0), hex_pair_exec(&h, 2), hex_pair_exec(&h, 4), a) {
            (Some(r), Some(g), Some(b), Some(a)) => Some(RGBA { r, g, b, a }),
            _ => None,
        }
    } else {
        None
    }
}


/// The number of bytes of a character in UTF-8.
fn utf8_len_exec(c: char) -> (r: u128)
    ensures
        r == utf8_len(c),
{
    let u = c as u32;
    if u < 0x80 {
        1
    } else if u < 0x800 {
        2
    } else if u < 0x10000 {
        3
    } else {
        4
    }
}

/// The UTF-8 widths of the prefixes of `h`: entry `k` is the width of the
/// first `k` characters.
fn prefix_widths(h: &Vec<char>) -> (r: Vec<u128>)
    ensures
        r@.len() == h@.len() + 1,
        forall|k: int| 0 <= k <= h@.len() ==> #[trigger] r@[k] == utf8_width(h@.take(k)),
{
    let mut r: Vec<u128> = Vec::new();
    r.push(0);
    proof {
        assert(h@.take(0) =~= Seq::<char>::empty());
    }
    let mut k: usize = 0;
    while k < h.len()
        invariant
            k <= h@.len(),
            r@.len() == k + 1,
            forall|i: int| 0 <= i <= k ==> #[trigger] r@[i] == utf8_width(h@.take(i)),
            forall|i: int| 0 <= i <= k ==> #[trigger] r@[i] <= 4 * i,
        decreases h@.len() - k,
    {
        let next = r[k] + utf8_len_exec(h[k]);
        proof {
            assert(h@.take(k + 1).drop_last() =~= h@.take(k as int));
            assert(h@.take(k + 1).last() == h@[k as int]);
        }
        r.push(next);
        k = k + 1;
    }
    r
}

/// Whether byte offset `b` falls between two characters of `h`, given the
/// widths of its prefixes.
fn byte_boundary_exec(h: &Vec<char>, widths: &Vec<u128>, b: u128) -> (r: bool)
    requires
        widths@.len() == h@.len() + 1,
        forall|k: int| 0 <= k <= h@.len() ==> #[trigger] widths@[k] == utf8_width(h@.take(k)),
    ensures
        r == byte_boundary(h@, b as int),
{
    let mut k: usize = 0;
    while k < widths.len()
        invariant
            k <= widths@.len(),
            widths@.len() == h@.len() + 1,
            forall|i: int| 0 <= i <= h@.len() ==> #[trigger] widths@[i] == utf8_width(h@.take(i)),
            forall|i: int| 0 <= i < k ==> utf8_width(h@.take(i)) != b,
        decreases widths@.len() - k,
    {
        if widths[k] == b {
            assert(utf8_width(h@.take(k as int)) == b);
            return true;
        }
        k = k + 1;
    }
    proof {
        assert forall|i: int| 0 <= i <= h@.len() implies utf8_width(h@.take(i)) != b by {
            assert(i < k);
        }
    }
    false
}

/// What `color_text_ok` asks of pair `j` once the pairs before it read.
proof fn lemma_color_text_ok_pair(value: Seq<char>, h: Seq<char>, j: int)
    requires
        color_text_ok(value),
        hex_part(value) == Some(h),
        utf8_width(h) == 6 || utf8_width(h) == 8,
        0 <= j < utf8_width(h) / 2,
        forall|m: int| 0 <= m < j ==> #[trigger] ascii_pair_ok(h, m),
    ensures
        byte_boundary(h, 2 * j + 2),
{
}

/// Whether reading the color `value` keeps every slice between characters
/// (see `color_text_ok`): the test to run before `parse_color`.
pub fn color_text_is_ok(value: &str) -> (r: bool)
    ensures
        r == color_text_ok(value@),
{
    let chars = chars_of(value);
    let t = trim_vec(&chars);
    if t.len() == 0 || t[0] != '#' {
        return true;
    }
    let mut h: Vec<char> = Vec::new();
    let mut i: usize = 1;
    while i < t.len()
        invariant
            1 <= i <= t@.len(),
            h@ == t@.subrange(1, i as int),
        decreases t@.len() - i,
    {
        h.push(t[i]);
        proof {
            assert(h@ =~= t@.subrange(1, i + 1));
        }
        i = i + 1;
    }
    proof {
        assert(h@ =~= t@.drop_first());
        assert(hex_part(value@) == Some(h@));
    }
    let widths = prefix_widths(&h);
    let w = widths[h.len()];
    proof {
        assert(h@.take(h@.len() as int) =~= h@);
    }
    if w != 6 && w != 8 {
        return true;
    }
    let pairs: usize = if w == 6 {
        3
    } else {
        4
    };
    let mut j: usize = 0;
    while j < pairs
        invariant
            j <= pairs,
            pairs as int == w / 2,
            hex_part(value@) == Some(h@),
            w == utf8_width(h@),
            w == 6 || w == 8,
            widths@.len() == h@.len() + 1,
            forall|k: int| 0 <= k <= h@.len() ==> #[trigger] widths@[k] == utf8_width(h@.take(k)),
            forall|m: int| 0 <= m < j ==> #[trigger] ascii_pair_ok(h@, m),
            forall|jj: int|
                0 <= jj < j && (forall|m: int| 0 <= m < jj ==> #[trigger] ascii_pair_ok(h@, m))
                    ==> #[trigger] byte_boundary(h@, 2 * jj + 2),
        decreases pairs - j,
    {
        let b: u128 = 2 * (j as u128) + 2;
        if !byte_boundary_exec(&h, &widths, b) {
            proof {
                assert(!byte_boundary(h@, 2 * j + 2));
                if color_text_ok(value@) {
                    lemma_color_text_ok_pair(value@, h@, j as int);
                }
            }
            return false;
        }
        let pair_ok = 2 * j + 1 < h.len() && (h[2 * j] as u32) < 0x80 && (h[2 * j + 1]
            as u32) < 0x80 && hex_pair_exec(&h, 2 * j).is_some();
        if !pair_ok {
            proof {
                assert(byte_boundary(h@, 2 * j + 2));
                assert(!ascii_pair_ok(h@, j as int));
                assert forall|jj: int|
                    0 <= jj < w / 2 && (forall|m: int| 0 <= m < jj ==> #[trigger] ascii_pair_ok(h@, m))
                        implies #[trigger] byte_boundary(h@, 2 * jj + 2) by {
                    if jj > j {
                        assert(ascii_pair_ok(h@, j as int));
                    }
                }
                assert(hex_part(value@) == Some(h@));
                assert(color_text_ok(value@));
            }
            return true;
        }
        j = j + 1;
    }
    true
}

/// Reads a CSS color as `parse_color` does, or `None` when reading it would
/// cut a character in two (where `color_text_ok` fails).
pub fn try_parse_color(value: &str) -> (r: Option<Option<RGBA>>)
    ensures
        r is Some <==> color_text_ok(value@),
        r matches Some(c) ==> c == spec_parse_color(value@),
{
    if color_text_is_ok(value) {
        Some(parse_color(value))
    } else {
        None
    }
}

} // verus!
