//! Lyrics synchronized to bar positions.
use crate::arith::{normalize, pair_fits};
use crate::fraction::{frac_add, frac_of, lemma_frac_of_view, lemma_normalize_bounds, Fraction};
use crate::pattern::{captures, group, group_chars, regex_captures};
use crate::text::{
    chars_of, i64_or_text, lines, parse_i64, split_char, split_lines, split_on, string_of, trim,
    trim_vec,
};
use vstd::prelude::*;

verus! {

/// A lyrics line: `bar: text/text/...`.
pub const RE_LYRIC: &'static str = "^(\\d+): (.*)$";

/// A word of the lyrics at a bar position.
#[derive(Debug, Clone)]
pub struct Word {
    pub bar: Fraction,
    pub text: String,
}

/// Lyrics: words in file order.
#[derive(Debug, Clone)]
pub struct Lyric {
    pub words: Vec<Word>,
}

/// The position and text of each word.
pub open spec fn words_view(w: Seq<Word>) -> Seq<(Fraction, Seq<char>)> {
    w.map_values(|x: Word| (x.bar, x.text@))
}

/// The bar a lyrics line names (zero when it does not fit in `i64`).
pub open spec fn lyric_line_bar(c: Seq<Option<Seq<char>>>) -> int {
    match parse_i64(group(c, 1), 10) {
        Some(v) => v,
        None => 0,
    }
}

/// The position of piece `i` of `n` pieces of the line for `bar`.
pub open spec fn piece_bar(bar: int, i: int, n: int) -> (int, int) {
    frac_add((bar, 1int), normalize(i, n))
}

/// The words of pieces `from..` of a lyrics line for `bar`: the nonempty
/// pieces, each at its share of the bar.
pub open spec fn piece_words(bar: int, pieces: Seq<Seq<char>>, from: int) -> Seq<(Fraction, Seq<char>)>
    decreases pieces.len() - from,
{
    if from < 0 || from >= pieces.len() {
        seq![]
    } else {
        let rest = piece_words(bar, pieces, from + 1);
        if pieces[from].len() == 0 {
            rest
        } else {
            seq![(frac_of(piece_bar(bar, from, pieces.len() as int)), pieces[from])] + rest
        }
    }
}

/// The words of one (trimmed) line.
pub open spec fn line_words(t: Seq<char>) -> Seq<(Fraction, Seq<char>)> {
    match regex_captures(RE_LYRIC@, t) {
        Some(c) => piece_words(lyric_line_bar(c), split_char(group(c, 2), '/'), 0),
        None => seq![],
    }
}

/// The words of the given lines, in order.
pub open spec fn lines_words(ls: Seq<Seq<char>>) -> Seq<(Fraction, Seq<char>)>
    decreases ls.len(),
{
    if ls.len() == 0 {
        seq![]
    } else {
        lines_words(ls.drop_last()) + line_words(trim(ls.last()))
    }
}

/// Every word position of one (trimmed) line fits in `i64`.
pub open spec fn line_fits(t: Seq<char>) -> bool {
    match regex_captures(RE_LYRIC@, t) {
        Some(c) => {
            let pieces = split_char(group(c, 2), '/');
            pieces.len() <= i64::MAX && forall|i: int|
                0 <= i < pieces.len() && #[trigger] pieces[i].len() > 0 ==> pair_fits(
                    piece_bar(lyric_line_bar(c), i, pieces.len() as int),
                )
        },
        None => true,
    }
}

/// Every word position of the content fits in `i64`.
pub open spec fn lyric_fits(content: Seq<char>) -> bool {
    forall|k: int| 0 <= k < lines(content).len() ==> #[trigger] line_fits(trim(lines(content)[k]))
}

impl Default for Lyric {
    /// Lyrics with no words (as `new`).
    fn default() -> (r: Lyric)
        ensures
            r.words@.len() == 0,
    {
        Lyric::new()
    }
}

impl Lyric {
    /// Lyrics with no words.
    pub fn new() -> (r: Lyric)
        ensures
            r.words@.len() == 0,
    {
        Lyric { words: Vec::new() }
    }

    /// Reads lyrics: each line `bar: a/b/c` spreads its nonempty pieces evenly
    /// over the bar; other lines are ignored.
    pub fn load(content: &str) -> (r: Lyric)
        requires
            lyric_fits(content@),
        ensures
            words_view(r.words@) == lines_words(lines(content@)),
    {
        match Lyric::try_load(content) {
            Some(l) => l,
            None => {
                assert(false);
                Lyric::new()
            },
        }
    }

    /// Reads lyrics as `load` does, or `None` when a word position does not
    /// fit in `i64`.
    pub fn try_load(content: &str) -> (r: Option<Lyric>)
        ensures
            r is Some <==> lyric_fits(content@),
            r matches Some(l) ==> words_view(l.words@) == lines_words(lines(content@)),
    {
        let chars = chars_of(content);
        let all = split_lines(&chars);
        let ghost ls = lines(content@);
        let mut lyric = Lyric::new();
        let mut k: usize = 0;
        while k < all.len()
            invariant
                k <= all.len(),
                all@.map_values(|l: Vec<char>| l@) == ls,
                ls == lines(content@),
                forall|j: int| 0 <= j < k ==> #[trigger] line_fits(trim(ls[j])),
                words_view(lyric.words@) == lines_words(ls.subrange(0, k as int)),
            decreases all.len() - k,
        {
            let line = trim_vec(&all[k]);
            proof {
                assert(all@[k as int]@ == ls[k as int]);
                assert(ls.subrange(0, k + 1).drop_last() =~= ls.subrange(0, k as int));
            }
            let text = string_of(line.as_slice());
            if let Some(caps) = captures(RE_LYRIC, text.as_str()) {
                let bar = i64_or_text(&group_chars(&caps, 1), 0);
                let pieces = split_on(&group_chars(&caps, 2), '/');
                let ghost pv = pieces@.map_values(|p: Vec<char>| p@);
                let ghost c = crate::pattern::groups_view(caps@);
                proof {
                    assert(text@ == trim(ls[k as int]));
                    assert(regex_captures(RE_LYRIC@, text@) == Some(c));
                    assert(bar == lyric_line_bar(c));
                    assert(pv == split_char(group(c, 2), '/'));
                    assert(ls.subrange(0, k + 1).last() == ls[k as int]);
                    assert(line_words(text@) == piece_words(bar as int, pv, 0));
                    assert(lines_words(ls.subrange(0, k + 1)) == lines_words(ls.subrange(0, k as int))
                        + piece_words(bar as int, pv, 0));
                }
                let n = pieces.len();
                if n as u64 > 9_223_372_036_854_775_807u64 {
                    proof {
                        assert(!line_fits(text@));
                        assert(!line_fits(trim(lines(content@)[k as int])));
                    }
                    return None;
                }
                let mut i: usize = 0;
                while i < n
                    invariant
                        i <= n,
                        n == pieces.len(),
                        pv == pieces@.map_values(|p: Vec<char>| p@),
                        pv.len() <= i64::MAX,
                        regex_captures(RE_LYRIC@, text@) == Some(c),
                        bar == lyric_line_bar(c),
                        pv == split_char(group(c, 2), '/'),
                        ls == lines(content@),
                        0 <= k < ls.len(),
                        text@ == trim(ls[k as int]),
                        forall|j: int|
                            0 <= j < i && #[trigger] pv[j].len() > 0 ==> pair_fits(
                                piece_bar(bar as int, j, pv.len() as int),
                            ),
                        words_view(lyric.words@) + piece_words(bar as int, pv, i as int)
                            == lines_words(ls.subrange(0, k + 1)),
                    decreases n - i,
                {
                    let piece = &pieces[i];
                    proof {
                        assert(pv[i as int] == piece@);
                    }
                    let ghost before = words_view(lyric.words@);
                    if piece.len() > 0 {
                        proof {
                            lemma_normalize_bounds(i as int, n as int);
                        }
                        let share = Fraction::new(i as i64, n as i64);
                        let pos = match Fraction::from_integer(bar).checked_add(share) {
                            Some(p) => p,
                            None => {
                                proof {
                                    assert(pv[i as int].len() > 0);
                                    assert(!pair_fits(piece_bar(bar as int, i as int, pv.len() as int)));
                                    assert(!line_fits(text@));
                                    assert(!line_fits(trim(lines(content@)[k as int])));
                                }
                                return None;
                            },
                        };
                        proof {
                            lemma_frac_of_view(pos);
                        }
                        lyric.words.push(Word { bar: pos, text: string_of(piece.as_slice()) });
                        proof {
                            assert(words_view(lyric.words@) =~= before.push((pos, piece@)));
                            assert(before.push((pos, piece@)) + piece_words(
                                bar as int,
                                pv,
                                i + 1,
                            ) =~= before + piece_words(bar as int, pv, i as int));
                        }
                    }
                    i = i + 1;
                }
                proof {
                    assert(piece_words(bar as int, pv, n as int) =~= Seq::<(Fraction, Seq<char>)>::empty());
                    assert(words_view(lyric.words@) + Seq::<(Fraction, Seq<char>)>::empty() =~= words_view(
                        lyric.words@,
                    ));
                    assert(line_fits(text@));
                }
            } else {
                proof {
                    assert(text@ == trim(ls[k as int]));
                    assert(ls.subrange(0, k + 1).last() == ls[k as int]);
                    assert(line_words(text@) =~= Seq::<(Fraction, Seq<char>)>::empty());
                    assert(lines_words(ls.subrange(0, k + 1)) =~= lines_words(ls.subrange(0, k as int)));
                    assert(line_fits(text@));
                }
            }
            k = k + 1;
        }
        proof {
            assert(ls.subrange(0, k as int) =~= ls);
        }
        Some(lyric)
    }
}

} // verus!
