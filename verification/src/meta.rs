//! Chart metadata.
use crate::fraction::{parse_fraction_defined, spec_parse_fraction, Fraction};
use crate::notes::event::{clone_opt_string, opt_str_view};
use crate::text::chars_of;
use vstd::prelude::*;

verus! {

/// Chart metadata: the text fields of a `.sus` header and two numbers.
#[derive(Debug, Clone, Default)]
pub struct Meta {
    pub title: Option<String>,
    pub subtitle: Option<String>,
    pub artist: Option<String>,
    pub genre: Option<String>,
    pub designer: Option<String>,
    pub difficulty: Option<String>,
    pub playlevel: Option<String>,
    pub songid: Option<String>,
    pub wave: Option<String>,
    pub waveoffset: Option<String>,
    pub jacket: Option<String>,
    pub background: Option<String>,
    pub movie: Option<String>,
    /// Movie offset in seconds.
    pub movieoffset: Option<Fraction>,
    /// Base BPM.
    pub basebpm: Option<Fraction>,
}

/// The content of a `Meta`.
pub struct MetaView {
    pub title: Option<Seq<char>>,
    pub subtitle: Option<Seq<char>>,
    pub artist: Option<Seq<char>>,
    pub genre: Option<Seq<char>>,
    pub designer: Option<Seq<char>>,
    pub difficulty: Option<Seq<char>>,
    pub playlevel: Option<Seq<char>>,
    pub songid: Option<Seq<char>>,
    pub wave: Option<Seq<char>>,
    pub waveoffset: Option<Seq<char>>,
    pub jacket: Option<Seq<char>>,
    pub background: Option<Seq<char>>,
    pub movie: Option<Seq<char>>,
    pub movieoffset: Option<(int, int)>,
    pub basebpm: Option<(int, int)>,
}

/// The value of an optional fraction.
pub open spec fn opt_frac_view(f: Option<Fraction>) -> Option<(int, int)> {
    match f {
        Some(v) => Some(v@),
        None => None,
    }
}

impl View for Meta {
    type V = MetaView;

    open spec fn view(&self) -> MetaView {
        MetaView {
            title: opt_str_view(self.title),
            subtitle: opt_str_view(self.subtitle),
            artist: opt_str_view(self.artist),
            genre: opt_str_view(self.genre),
            designer: opt_str_view(self.designer),
            difficulty: opt_str_view(self.difficulty),
            playlevel: opt_str_view(self.playlevel),
            songid: opt_str_view(self.songid),
            wave: opt_str_view(self.wave),
            waveoffset: opt_str_view(self.waveoffset),
            jacket: opt_str_view(self.jacket),
            background: opt_str_view(self.background),
            movie: opt_str_view(self.movie),
            movieoffset: opt_frac_view(self.movieoffset),
            basebpm: opt_frac_view(self.basebpm),
        }
    }
}

/// Metadata with no field set.
pub open spec fn empty_meta() -> MetaView {
    MetaView {
        title: None,
        subtitle: None,
        artist: None,
        genre: None,
        designer: None,
        difficulty: None,
        playlevel: None,
        songid: None,
        wave: None,
        waveoffset: None,
        jacket: None,
        background: None,
        movie: None,
        movieoffset: None,
        basebpm: None,
    }
}

/// `a` when it is a nonempty text, else `b` (empty texts count as missing).
pub open spec fn or_text(a: Option<Seq<char>>, b: Option<Seq<char>>) -> Option<Seq<char>> {
    match a {
        Some(v) => if v.len() != 0 {
            a
        } else {
            b
        },
        None => b,
    }
}

/// `a` when it is a nonzero number, else `b`.
pub open spec fn or_number(a: Option<(int, int)>, b: Option<(int, int)>) -> Option<(int, int)> {
    match a {
        Some(v) => if v.0 != 0 {
            a
        } else {
            b
        },
        None => b,
    }
}

/// Field-by-field merge, the left side winning where it is set and truthy.
pub open spec fn merge_meta(a: MetaView, b: MetaView) -> MetaView {
    MetaView {
        title: or_text(a.title, b.title),
        subtitle: or_text(a.subtitle, b.subtitle),
        artist: or_text(a.artist, b.artist),
        genre: or_text(a.genre, b.genre),
        designer: or_text(a.designer, b.designer),
        difficulty: or_text(a.difficulty, b.difficulty),
        playlevel: or_text(a.playlevel, b.playlevel),
        songid: or_text(a.songid, b.songid),
        wave: or_text(a.wave, b.wave),
        waveoffset: or_text(a.waveoffset, b.waveoffset),
        jacket: or_text(a.jacket, b.jacket),
        background: or_text(a.background, b.background),
        movie: or_text(a.movie, b.movie),
        movieoffset: or_number(a.movieoffset, b.movieoffset),
        basebpm: or_number(a.basebpm, b.basebpm),
    }
}

/// The names of the metadata fields.
pub open spec fn meta_field_names() -> Seq<Seq<char>> {
    seq![
        "title"@,
        "subtitle"@,
        "artist"@,
        "genre"@,
        "designer"@,
        "difficulty"@,
        "playlevel"@,
        "songid"@,
        "wave"@,
        "waveoffset"@,
        "jacket"@,
        "background"@,
        "movie"@,
        "movieoffset"@,
        "basebpm"@,
    ]
}

/// The metadata after setting the field called `name` to the text `value`:
/// text fields take the text, the two numeric fields take the number it parses
/// to (and stay unchanged when it does not parse), unknown names change nothing.
pub open spec fn meta_set(m: MetaView, name: Seq<char>, value: Seq<char>) -> MetaView {
    if name == "title"@ {
        MetaView { title: Some(value), ..m }
    } else if name == "subtitle"@ {
        MetaView { subtitle: Some(value), ..m }
    } else if name == "artist"@ {
        MetaView { artist: Some(value), ..m }
    } else if name == "genre"@ {
        MetaView { genre: Some(value), ..m }
    } else if name == "designer"@ {
        MetaView { designer: Some(value), ..m }
    } else if name == "difficulty"@ {
        MetaView { difficulty: Some(value), ..m }
    } else if name == "playlevel"@ {
        MetaView { playlevel: Some(value), ..m }
    } else if name == "songid"@ {
        MetaView { songid: Some(value), ..m }
    } else if name == "wave"@ {
        MetaView { wave: Some(value), ..m }
    } else if name == "waveoffset"@ {
        MetaView { waveoffset: Some(value), ..m }
    } else if name == "jacket"@ {
        MetaView { jacket: Some(value), ..m }
    } else if name == "background"@ {
        MetaView { background: Some(value), ..m }
    } else if name == "movie"@ {
        MetaView { movie: Some(value), ..m }
    } else if name == "movieoffset"@ {
        match spec_parse_fraction(value) {
            Some(v) => MetaView { movieoffset: Some(v), ..m },
            None => m,
        }
    } else if name == "basebpm"@ {
        match spec_parse_fraction(value) {
            Some(v) => MetaView { basebpm: Some(v), ..m },
            None => m,
        }
    } else {
        m
    }
}

/// Content equality of a character vector and a string slice.
pub(crate) fn chars_eq_str(a: &Vec<char>, b: &str) -> (r: bool)
    ensures
        r == (a@ == b@),
{
    let bv = chars_of(b);
    if a.len() != bv.len() {
        return false;
    }
    let mut i: usize = 0;
    while i < a.len()
        invariant
            i <= a.len(),
            a.len() == bv.len(),
            bv@ == b@,
            forall|j: int| 0 <= j < i ==> a@[j] == bv@[j],
        decreases a.len() - i,
    {
        if a[i] != bv[i] {
            proof {
                assert(a@[i as int] != b@[i as int]);
            }
            return false;
        }
        i = i + 1;
    }
    proof {
        assert(a@ =~= bv@);
    }
    true
}

impl Meta {
    /// Metadata with no field set.
    pub fn new() -> (r: Meta)
        ensures
            r@ == empty_meta(),
    {
        Meta {
            title: None,
            subtitle: None,
            artist: None,
            genre: None,
            designer: None,
            difficulty: None,
            playlevel: None,
            songid: None,
            wave: None,
            waveoffset: None,
            jacket: None,
            background: None,
            movie: None,
            movieoffset: None,
            basebpm: None,
        }
    }

    /// A copy of this metadata.
    pub fn copied(&self) -> (r: Meta)
        ensures
            r@ == self@,
    {
        Meta {
            title: clone_opt_string(&self.title),
            subtitle: clone_opt_string(&self.subtitle),
            artist: clone_opt_string(&self.artist),
            genre: clone_opt_string(&self.genre),
            designer: clone_opt_string(&self.designer),
            difficulty: clone_opt_string(&self.difficulty),
            playlevel: clone_opt_string(&self.playlevel),
            songid: clone_opt_string(&self.songid),
            wave: clone_opt_string(&self.wave),
            waveoffset: clone_opt_string(&self.waveoffset),
            jacket: clone_opt_string(&self.jacket),
            background: clone_opt_string(&self.background),
            movie: clone_opt_string(&self.movie),
            movieoffset: self.movieoffset,
            basebpm: self.basebpm,
        }
    }

    /// Field-by-field merge; `self` wins where it is set and truthy (empty
    /// texts and zero numbers count as missing).
    pub fn merge(&self, other: &Meta) -> (r: Meta)
        ensures
            r@ == merge_meta(self@, other@),
    {
        Meta {
            title: or_falsy(&self.title, &other.title),
            subtitle: or_falsy(&self.subtitle, &other.subtitle),
            artist: or_falsy(&self.artist, &other.artist),
            genre: or_falsy(&self.genre, &other.genre),
            designer: or_falsy(&self.designer, &other.designer),
            difficulty: or_falsy(&self.difficulty, &other.difficulty),
            playlevel: or_falsy(&self.playlevel, &other.playlevel),
            songid: or_falsy(&self.songid, &other.songid),
            wave: or_falsy(&self.wave, &other.wave),
            waveoffset: or_falsy(&self.waveoffset, &other.waveoffset),
            jacket: or_falsy(&self.jacket, &other.jacket),
            background: or_falsy(&self.background, &other.background),
            movie: or_falsy(&self.movie, &other.movie),
            movieoffset: or_falsy_number(self.movieoffset, other.movieoffset),
            basebpm: or_falsy_number(self.basebpm, other.basebpm),
        }
    }

    /// Sets the field called `name` (lowercase) from its text; the numeric
    /// fields keep their old value when the text is not a number.
    pub fn set_field(&mut self, name: &str, value: &str)
        requires
            name@ == "movieoffset"@ || name@ == "basebpm"@ ==> parse_fraction_defined(value@),
        ensures
            final(self)@ == meta_set(old(self)@, name@, value@),
    {
        let n = chars_of(name);
        if chars_eq_str(&n, "title") {
            self.title = Some(value.to_string());
        } else if chars_eq_str(&n, "subtitle") {
            self.subtitle = Some(value.to_string());
        } else if chars_eq_str(&n, "artist") {
            self.artist = Some(value.to_string());
        } else if chars_eq_str(&n, "genre") {
            self.genre = Some(value.to_string());
        } else if chars_eq_str(&n, "designer") {
            self.designer = Some(value.to_string());
        } else if chars_eq_str(&n, "difficulty") {
            self.difficulty = Some(value.to_string());
        } else if chars_eq_str(&n, "playlevel") {
            self.playlevel = Some(value.to_string());
        } else if chars_eq_str(&n, "songid") {
            self.songid = Some(value.to_string());
        } else if chars_eq_str(&n, "wave") {
            self.wave = Some(value.to_string());
        } else if chars_eq_str(&n, "waveoffset") {
            self.waveoffset = Some(value.to_string());
        } else if chars_eq_str(&n, "jacket") {
            self.jacket = Some(value.to_string());
        } else if chars_eq_str(&n, "background") {
            self.background = Some(value.to_string());
        } else if chars_eq_str(&n, "movie") {
            self.movie = Some(value.to_string());
        } else if chars_eq_str(&n, "movieoffset") {
            if let Some(v) = Fraction::parse(value) {
                self.movieoffset = Some(v);
            }
        } else if chars_eq_str(&n, "basebpm") {
            if let Some(v) = Fraction::parse(value) {
                self.basebpm = Some(v);
            }
        }
    }

    /// Whether `name` is one of the metadata fields.
    pub fn has_field(name: &str) -> (r: bool)
        ensures
            r == meta_field_names().contains(name@),
    {
        let n = chars_of(name);
        let r = chars_eq_str(&n, "title") || chars_eq_str(&n, "subtitle") || chars_eq_str(&n, "artist") || chars_eq_str(&n, "genre") || chars_eq_str(&n, "designer") || chars_eq_str(&n, "difficulty") || chars_eq_str(&n, "playlevel") || chars_eq_str(&n, "songid") || chars_eq_str(&n, "wave") || chars_eq_str(&n, "waveoffset") || chars_eq_str(&n, "jacket") || chars_eq_str(&n, "background") || chars_eq_str(&n, "movie") || chars_eq_str(&n, "movieoffset") || chars_eq_str(&n, "basebpm");
        proof {
            if r {
                assert(meta_field_names().contains(name@)) by {
                    if name@ == "title"@ { assert(meta_field_names()[0] == name@); }
                    if name@ == "subtitle"@ { assert(meta_field_names()[1] == name@); }
                    if name@ == "artist"@ { assert(meta_field_names()[2] == name@); }
                    if name@ == "genre"@ { assert(meta_field_names()[3] == name@); }
                    if name@ == "designer"@ { assert(meta_field_names()[4] == name@); }
                    if name@ == "difficulty"@ { assert(meta_field_names()[5] == name@); }
                    if name@ == "playlevel"@ { assert(meta_field_names()[6] == name@); }
                    if name@ == "songid"@ { assert(meta_field_names()[7] == name@); }
                    if name@ == "wave"@ { assert(meta_field_names()[8] == name@); }
                    if name@ == "waveoffset"@ { assert(meta_field_names()[9] == name@); }
                    if name@ == "jacket"@ { assert(meta_field_names()[10] == name@); }
                    if name@ == "background"@ { assert(meta_field_names()[11] == name@); }
                    if name@ == "movie"@ { assert(meta_field_names()[12] == name@); }
                    if name@ == "movieoffset"@ { assert(meta_field_names()[13] == name@); }
                    if name@ == "basebpm"@ { assert(meta_field_names()[14] == name@); }
                }
            } else {
                assert forall|i: int| 0 <= i < meta_field_names().len() implies meta_field_names()[i] != name@ by {}
            }
        }
        r
    }
}

/// `a` when it is a nonempty text, else `b`.
fn or_falsy(a: &Option<String>, b: &Option<String>) -> (r: Option<String>)
    ensures
        opt_str_view(r) == or_text(opt_str_view(*a), opt_str_view(*b)),
{
    match a {
        Some(s) => if !s.as_str().is_empty() {
            Some(s.clone())
        } else {
            clone_opt_string(b)
        },
        None => clone_opt_string(b),
    }
}

/// `a` when it is a nonzero number, else `b`.
fn or_falsy_number(a: Option<Fraction>, b: Option<Fraction>) -> (r: Option<Fraction>)
    ensures
        opt_frac_view(r) == or_number(opt_frac_view(a), opt_frac_view(b)),
{
    match a {
        Some(v) => if *v.numer() != 0 {
            a
        } else {
            b
        },
        None => b,
    }
}

} // verus!
