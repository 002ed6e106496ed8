//! Regular-expression matching of chart lines, through the `regex` crate.
use crate::notes::event::opt_str_view;
use vstd::prelude::*;

verus! {

/// What `Regex::new(pattern)` followed by `captures(text)` yields: for each
/// group (group 0 first) the text it captured, `None` for a group that took
/// no part; `None` overall when the pattern is invalid or does not match.
pub uninterp spec fn regex_captures(pattern: Seq<char>, text: Seq<char>) -> Option<
    Seq<Option<Seq<char>>>,
>;

/// What `Regex::new(pattern)` followed by `captures_iter(text)` yields: the
/// captures of each successive non-overlapping match, in order (nothing when
/// the pattern is invalid).
pub uninterp spec fn regex_captures_all(pattern: Seq<char>, text: Seq<char>) -> Seq<
    Seq<Option<Seq<char>>>,
>;

/// The contents of a vector of optional strings.
pub open spec fn groups_view(v: Seq<Option<String>>) -> Seq<Option<Seq<char>>> {
    v.map_values(|g: Option<String>| opt_str_view(g))
}

/// Matches `text` against `pattern` (`regex::Regex::new` then `Regex::captures`),
/// returning the text of each capture group.
#[verifier::external_body]
pub(crate) fn captures(pattern: &str, text: &str) -> (r: Option<Vec<Option<String>>>)
    ensures
        r matches Some(v) ==> regex_captures(pattern@, text@) == Some(groups_view(v@)),
        r is None ==> regex_captures(pattern@, text@) is None,
{
    let re = regex::Regex::new(pattern).ok()?;
    let caps = re.captures(text)?;
    Some(caps.iter().map(|group| group.map(|m| m.as_str().to_string())).collect())
}

/// All non-overlapping matches of `pattern` in `text` (`regex::Regex::new` then
/// `Regex::captures_iter`), each as the text of its capture groups.
#[verifier::external_body]
pub(crate) fn captures_all(pattern: &str, text: &str) -> (r: Vec<Vec<Option<String>>>)
    ensures
        r@.map_values(|c: Vec<Option<String>>| groups_view(c@)) == regex_captures_all(
            pattern@,
            text@,
        ),
{
    match regex::Regex::new(pattern) {
        Ok(re) => re.captures_iter(text).map(
            |caps| caps.iter().map(|group| group.map(|m| m.as_str().to_string())).collect(),
        ).collect(),
        Err(_) => Vec::new(),
    }
}

/// The text of capture group `i`, empty when the group is missing.
pub open spec fn group(c: Seq<Option<Seq<char>>>, i: int) -> Seq<char> {
    if 0 <= i < c.len() {
        match c[i] {
            Some(t) => t,
            None => Seq::empty(),
        }
    } else {
        Seq::empty()
    }
}

/// Executable `group`.
pub fn group_chars(c: &Vec<Option<String>>, i: usize) -> (r: Vec<char>)
    ensures
        r@ == group(groups_view(c@), i as int),
{
    if i < c.len() {
        match &c[i] {
            Some(t) => crate::text::chars_of(t.as_str()),
            None => Vec::new(),
        }
    } else {
        Vec::new()
    }
}

} // verus!
