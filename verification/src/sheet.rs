//! The decisions of chart drawing that need no geometry: which notes a
//! column of the sheet shows, how slide chains are walked, which image and
//! path style a note gets, the events a column lists, and the escaping of
//! text written into the markup.
use crate::fraction::{frac_ceil, frac_lt, Fraction};
use crate::notes::directional::{directional_type_code, DirectionalType};
use crate::notes::event::{empty_event, merge_events, opt_str_view, opt_string_eq, Event};
use crate::notes::slide::slide_is_path;
use crate::notes::{
    arena_wf, base_of, idx_ok, links_ok, note_critical, note_none, note_tick, note_trend, NoteData,
    NoteIdx, NO_NOTE,
};
use crate::score::{
    ascii_lower, event_at_bar, event_before, initial_event, initial_event_exec, sort_events, timeline,
    Score,
};
use crate::sorting::sort_stable;
use crate::meta::{Meta, MetaView};
use crate::text::{chars_of, int_decimal, push_all, push_int_decimal, string_of, trim, trim_vec};
use vstd::prelude::*;

verus! {

// ---------------------------------------------------------------------------
// Bars and columns
// ---------------------------------------------------------------------------
/// `bar` lies more than one bar before `start`.
pub open spec fn below_sentence(bar: (int, int), start: (int, int)) -> bool {
    frac_lt(bar, (start.0 - start.1, start.1))
}

/// `bar` lies more than one bar after `stop`.
pub open spec fn after_sentence(bar: (int, int), stop: (int, int)) -> bool {
    frac_lt((stop.0 + stop.1, stop.1), bar)
}

/// `bar` lies from one bar before `start` up to, not including, one bar
/// after `stop`: the stretch a column of the sheet draws.
pub open spec fn in_sentence(bar: (int, int), start: (int, int), stop: (int, int)) -> bool {
    !below_sentence(bar, start) && frac_lt(bar, (stop.0 + stop.1, stop.1))
}

/// Bounds on the cross products compared below.
proof fn lemma_cross_bounds(a: int, b: int)
    requires
        -0x1_0000_0000_0000_0000 < a < 0x1_0000_0000_0000_0000,
        0 < b <= 0x7fff_ffff_ffff_ffff,
    ensures
        -0x7fff_ffff_ffff_ffff_ffff_ffff_ffff_ffff <= a * b <= 0x7fff_ffff_ffff_ffff_ffff_ffff_ffff_ffff,
{
    assert(-0x7fff_ffff_ffff_ffff_ffff_ffff_ffff_ffff <= a * b
        <= 0x7fff_ffff_ffff_ffff_ffff_ffff_ffff_ffff) by (nonlinear_arith)
        requires
            -0x1_0000_0000_0000_0000 < a < 0x1_0000_0000_0000_0000,
            0 < b <= 0x7fff_ffff_ffff_ffff,
    ;
}

/// `x * y` for `x` within two `i64` magnitudes and a positive `i64` `y`.
fn cross(x: i128, y: i64) -> (r: i128)
    requires
        -0x1_0000_0000_0000_0000 < x < 0x1_0000_0000_0000_0000,
        0 < y,
    ensures
        r == x * y,
{
    proof {
        lemma_cross_bounds(x as int, y as int);
    }
    x * (y as i128)
}

/// Whether `bar` lies more than one bar before `start`.
pub fn is_below_sentence(bar: Fraction, start: Fraction) -> (r: bool)
    ensures
        r == below_sentence(bar@, start@),
{
    bar.lemma_canonical();
    start.lemma_canonical();
    let lhs = cross(*bar.numer() as i128, *start.denom());
    let rhs = cross(*start.numer() as i128 - *start.denom() as i128, *bar.denom());
    lhs < rhs
}

/// Whether `bar` lies more than one bar after `stop`.
pub fn is_after_sentence(bar: Fraction, stop: Fraction) -> (r: bool)
    ensures
        r == after_sentence(bar@, stop@),
{
    bar.lemma_canonical();
    stop.lemma_canonical();
    let lhs = cross(*stop.numer() as i128 + *stop.denom() as i128, *bar.denom());
    let rhs = cross(*bar.numer() as i128, *stop.denom());
    lhs < rhs
}

/// Whether `bar` lies in the stretch drawn for the bars `start` to `stop`.
pub fn bar_in_sentence(bar: Fraction, bar_start: Fraction, bar_stop: Fraction) -> (r: bool)
    ensures
        r == in_sentence(bar@, bar_start@, bar_stop@),
{
    bar.lemma_canonical();
    bar_stop.lemma_canonical();
    if is_below_sentence(bar, bar_start) {
        return false;
    }
    let lhs = cross(*bar.numer() as i128, *bar_stop.denom());
    let rhs = cross(*bar_stop.numer() as i128 + *bar_stop.denom() as i128, *bar.denom());
    lhs < rhs
}

// ---------------------------------------------------------------------------
// Text
// ---------------------------------------------------------------------------
/// The markup escape of one character.
pub open spec fn escape_char(c: char) -> Seq<char> {
    if c == '&' {
        seq!['&', 'a', 'm', 'p', ';']
    } else if c == '<' {
        seq!['&', 'l', 't', ';']
    } else if c == '>' {
        seq!['&', 'g', 't', ';']
    } else if c == '"' {
        seq!['&', 'q', 'u', 'o', 't', ';']
    } else {
        seq![c]
    }
}

/// A text with `&`, `<`, `>` and `"` written as markup entities.
pub open spec fn escaped(s: Seq<char>) -> Seq<char>
    decreases s.len(),
{
    if s.len() == 0 {
        seq![]
    } else {
        escaped(s.drop_last()) + escape_char(s.last())
    }
}

/// Escapes `&`, `<`, `>` and `"` for markup (see `escaped`).
pub fn escape_xml(s: &str) -> (r: String)
    ensures
        r@ == escaped(s@),
{
    let chars = chars_of(s);
    let mut out: Vec<char> = Vec::new();
    let mut i: usize = 0;
    while i < chars.len()
        invariant
            i <= chars@.len(),
            chars@ == s@,
            out@ == escaped(chars@.subrange(0, i as int)),
        decreases chars@.len() - i,
    {
        let c = chars[i];
        proof {
            assert(chars@.subrange(0, i + 1).drop_last() =~= chars@.subrange(0, i as int));
        }
        if c == '&' {
            out.push('&');
            out.push('a');
            out.push('m');
            out.push('p');
            out.push(';');
        } else if c == '<' {
            out.push('&');
            out.push('l');
            out.push('t');
            out.push(';');
        } else if c == '>' {
            out.push('&');
            out.push('g');
            out.push('t');
            out.push(';');
        } else if c == '"' {
            out.push('&');
            out.push('q');
            out.push('u');
            out.push('o');
            out.push('t');
            out.push(';');
        } else {
            out.push(c);
        }
        proof {
            assert(out@ =~= escaped(chars@.subrange(0, i + 1)));
        }
        i = i + 1;
    }
    proof {
        assert(chars@.subrange(0, i as int) =~= chars@);
    }
    string_of(out.as_slice())
}

/// A text without its leading dots.
pub open spec fn strip_dots(s: Seq<char>) -> Seq<char>
    decreases s.len(),
{
    if s.len() > 0 && s[0] == '.' {
        strip_dots(s.drop_first())
    } else {
        s
    }
}

/// A note asset file extension as used: trimmed, without leading dots, in
/// ASCII lower case.
pub open spec fn asset_extension(s: Seq<char>) -> Seq<char> {
    strip_dots(trim(s)).map_values(|c: char| ascii_lower(c))
}

/// Normalizes a note asset file extension (see `asset_extension`).
pub fn normalize_note_asset_extension(extension: String) -> (r: String)
    ensures
        r@ == asset_extension(extension@),
{
    let chars = chars_of(extension.as_str());
    let t = trim_vec(&chars);
    let mut k: usize = 0;
    proof {
        assert(t@.subrange(0, t@.len() as int) =~= t@);
    }
    while k < t.len() && t[k] == '.'
        invariant
            k <= t@.len(),
            strip_dots(t@.subrange(k as int, t@.len() as int)) == strip_dots(t@),
        decreases t@.len() - k,
    {
        proof {
            assert(t@.subrange(k as int, t@.len() as int).drop_first() =~= t@.subrange(
                k + 1,
                t@.len() as int,
            ));
        }
        k = k + 1;
    }
    let ghost rest = t@.subrange(k as int, t@.len() as int);
    proof {
        assert(strip_dots(rest) == rest);
    }
    let mut out: Vec<char> = Vec::new();
    let mut i: usize = k;
    while i < t.len()
        invariant
            k <= i <= t@.len(),
            rest == t@.subrange(k as int, t@.len() as int),
            out@ == t@.subrange(k as int, i as int).map_values(|c: char| ascii_lower(c)),
        decreases t@.len() - i,
    {
        let c = t[i];
        let lc = if 'A' <= c && c <= 'Z' {
            ((c as u32) + 32) as u8 as char
        } else {
            c
        };
        proof {
            assert(lc == ascii_lower(c)) by {
                if 'A' <= c && c <= 'Z' {
                    assert(((c as u32) + 32) as u8 as char == ((c as u32) + 32) as char);
                }
            }
        }
        out.push(lc);
        proof {
            assert(out@ =~= t@.subrange(k as int, i + 1).map_values(|c: char| ascii_lower(c)));
        }
        i = i + 1;
    }
    proof {
        assert(t@.subrange(k as int, i as int) =~= rest);
    }
    string_of(out.as_slice())
}

// ---------------------------------------------------------------------------
// Events of a column
// ---------------------------------------------------------------------------
/// Whether an event changes anything that is drawn as a flag.
pub open spec fn special_event(e: Event) -> bool {
    e.bpm is Some || e.bar_length is Some || e.speed is Some || e.section is Some || e.text is Some
}

/// Whether an event changes anything that is drawn as a flag.
pub fn event_is_special(event: &Event) -> (r: bool)
    ensures
        r == special_event(*event),
{
    event.bpm.is_some() || event.bar_length.is_some() || event.speed.is_some()
        || event.section.is_some() || event.text.is_some()
}

/// An event that changes nothing at each whole bar from `start` to `stop`.
pub open spec fn bar_marks(start: int, stop: int) -> Seq<Event> {
    Seq::new(
        if stop >= start {
            (stop - start + 1) as nat
        } else {
            0
        },
        |i: int| empty_event(crate::fraction::frac_of((start + i, 1))),
    )
}

/// The events listed for the column of bars `start` to `stop`: a mark at
/// each whole bar, then the score's events, sorted by bar (events at one bar
/// keep that order).
pub open spec fn column_events(events: Seq<Event>, start: int, stop: int) -> Seq<Event> {
    sort_stable(bar_marks(start, stop) + events, event_before())
}

/// The events listed for the column of bars `bar_start` to `bar_stop` (see
/// `column_events`).
pub fn sentence_events(score: &Score, bar_start: i32, bar_stop: i32) -> (r: Vec<Event>)
    ensures
        r@ == column_events(score.events@, bar_start as int, bar_stop as int),
{
    let mut all: Vec<Event> = Vec::new();
    let mut bar: i64 = bar_start as i64;
    while bar <= bar_stop as i64
        invariant
            bar_start <= bar,
            bar <= bar_stop as i64 + 1 || bar == bar_start,
            all@ == bar_marks(bar_start as int, bar - 1),
        decreases bar_stop as i64 + 1 - bar,
    {
        let f = Fraction::from_integer(bar);
        proof {
            crate::fraction::lemma_frac_of_view(f);
        }
        all.push(Event::new(f));
        proof {
            assert(all@ =~= bar_marks(bar_start as int, bar as int));
        }
        bar = bar + 1;
    }
    proof {
        assert(all@ =~= bar_marks(bar_start as int, bar_stop as int));
    }
    let ghost marks = all@;
    let mut k: usize = 0;
    while k < score.events.len()
        invariant
            k <= score.events@.len(),
            all@ == marks + score.events@.subrange(0, k as int),
        decreases score.events@.len() - k,
    {
        all.push(score.events[k].copied());
        proof {
            assert(all@ =~= marks + score.events@.subrange(0, k + 1));
        }
        k = k + 1;
    }
    proof {
        assert(score.events@.subrange(0, k as int) =~= score.events@);
    }
    sort_events(&all)
}


// ---------------------------------------------------------------------------
// Slide chains
// ---------------------------------------------------------------------------
/// The first node, from `idx` along the `next` links, that shapes the drawn
/// slide path, visiting at most `fuel` nodes: `Some(Some(i))` for node `i`;
/// `Some(None)` when a note that is not a slide, or the end of the chain,
/// comes first; `None` when the nodes run out (the links loop).
pub open spec fn path_node_from(arena: Seq<NoteData>, idx: usize, fuel: nat) -> Option<
    Option<usize>,
>
    decreases fuel,
{
    if fuel == 0 {
        None
    } else {
        match arena[idx as int] {
            NoteData::Slide(b, s) => if slide_is_path(s, b.note_type as int) {
                Some(Some(idx))
            } else if s.next_idx == NO_NOTE {
                Some(None)
            } else {
                path_node_from(arena, s.next_idx, (fuel - 1) as nat)
            },
            _ => Some(None),
        }
    }
}

/// The first path-shaping node after node `idx` (see `path_node_from`).
pub open spec fn following_path_node(arena: Seq<NoteData>, idx: usize, fuel: nat) -> Option<
    Option<usize>,
> {
    match arena[idx as int] {
        NoteData::Slide(_, s) => if s.next_idx == NO_NOTE {
            Some(None)
        } else {
            path_node_from(arena, s.next_idx, fuel)
        },
        _ => Some(None),
    }
}

/// The first node from `start_idx` that shapes the drawn slide path:
/// `Some(Some(i))` for node `i`, `Some(None)` when there is none, and `None`
/// when the links loop, so that the walk would never end.
pub fn next_visible_slide_path_node(start_idx: NoteIdx, arena: &[NoteData]) -> (r: Option<
    Option<NoteIdx>,
>)
    requires
        arena_wf(arena@),
        start_idx < arena@.len(),
    ensures
        r == path_node_from(arena@, start_idx, arena@.len()),
{
    let ghost total = path_node_from(arena@, start_idx, arena@.len());
    let mut note_idx = start_idx;
    let mut fuel: usize = arena.len();
    loop
        invariant
            arena_wf(arena@),
            note_idx < arena@.len(),
            path_node_from(arena@, note_idx, fuel as nat) == total,
            total == path_node_from(arena@, start_idx, arena@.len()),
        decreases fuel,
    {
        if fuel == 0 {
            return None;
        }
        proof {
            assert(links_ok(arena@[note_idx as int], arena@.len() as int));
        }
        let note = &arena[note_idx];
        match note.as_slide() {
            None => {
                return Some(None);
            },
            Some(slide) => {
                if slide.is_path(note.note_type()) {
                    return Some(Some(note_idx));
                }
                if slide.next_idx == NO_NOTE {
                    return Some(None);
                }
                note_idx = slide.next_idx;
                fuel = fuel - 1;
            },
        }
    }
}

/// The first path-shaping node after node `note_idx` (see
/// `following_path_node`); `None` when the links loop.
pub fn following_visible_slide_path_node(note_idx: NoteIdx, arena: &[NoteData]) -> (r: Option<
    Option<NoteIdx>,
>)
    requires
        arena_wf(arena@),
        note_idx < arena@.len(),
    ensures
        r == following_path_node(arena@, note_idx, arena@.len()),
{
    proof {
        assert(links_ok(arena@[note_idx as int], arena@.len() as int));
    }
    match arena[note_idx].as_slide() {
        None => Some(None),
        Some(slide) => if slide.next_idx == NO_NOTE {
            Some(None)
        } else {
            next_visible_slide_path_node(slide.next_idx, arena)
        },
    }
}

/// Whether the slide chain walked from node `idx` shows in the column of
/// bars `start` to `stop`, visiting at most `fuel` nodes (`None` when they
/// run out). A path-shaping node in the drawn stretch shows it; so does one
/// past the stretch once an earlier one lay before it (the chain crosses the
/// column). `found` records that an earlier path node lay before the stretch.
pub open spec fn chain_visible_from(
    arena: Seq<NoteData>,
    idx: usize,
    found: bool,
    start: (int, int),
    stop: (int, int),
    fuel: nat,
) -> Option<bool>
    decreases fuel,
{
    if fuel == 0 {
        None
    } else {
        match arena[idx as int] {
            NoteData::Slide(b, s) => if slide_is_path(s, b.note_type as int) {
                let bar = b.bar@;
                if in_sentence(bar, start, stop) {
                    Some(true)
                } else if !below_sentence(bar, start) && found && after_sentence(bar, stop) {
                    Some(true)
                } else if s.next_idx == NO_NOTE {
                    Some(false)
                } else {
                    chain_visible_from(
                        arena,
                        s.next_idx,
                        found || below_sentence(bar, start),
                        start,
                        stop,
                        (fuel - 1) as nat,
                    )
                }
            } else if s.next_idx == NO_NOTE {
                Some(false)
            } else {
                chain_visible_from(arena, s.next_idx, found, start, stop, (fuel - 1) as nat)
            },
            _ => Some(false),
        }
    }
}

/// Whether the slide chain headed by `head_idx` shows in the column of bars
/// `bar_start` to `bar_stop` (see `chain_visible_from`); `None` when its
/// links loop, so that the walk would never end.
pub fn slide_chain_visible(
    head_idx: NoteIdx,
    arena: &[NoteData],
    bar_start: Fraction,
    bar_stop: Fraction,
) -> (r: Option<bool>)
    requires
        arena_wf(arena@),
        idx_ok(head_idx, arena@.len() as int),
    ensures
        r == if head_idx == NO_NOTE {
            Some(false)
        } else {
            chain_visible_from(arena@, head_idx, false, bar_start@, bar_stop@, 2 * arena@.len())
        },
{
    if head_idx == NO_NOTE {
        return Some(false);
    }
    let ghost total = chain_visible_from(
        arena@,
        head_idx,
        false,
        bar_start@,
        bar_stop@,
        2 * arena@.len(),
    );
    let mut idx = head_idx;
    let mut found = false;
    let mut fuel: u128 = 2 * (arena.len() as u128);
    loop
        invariant
            arena_wf(arena@),
            idx < arena@.len(),
            head_idx != NO_NOTE,
            chain_visible_from(arena@, idx, found, bar_start@, bar_stop@, fuel as nat) == total,
            total == chain_visible_from(
                arena@,
                head_idx,
                false,
                bar_start@,
                bar_stop@,
                2 * arena@.len(),
            ),
        decreases fuel,
    {
        if fuel == 0 {
            return None;
        }
        proof {
            assert(links_ok(arena@[idx as int], arena@.len() as int));
        }
        let note = &arena[idx];
        match note.as_slide() {
            None => {
                return Some(false);
            },
            Some(slide) => {
                if slide.is_path(note.note_type()) {
                    let bar = note.bar();
                    if bar_in_sentence(bar, bar_start, bar_stop) {
                        return Some(true);
                    }
                    let below = is_below_sentence(bar, bar_start);
                    if !below && found && is_after_sentence(bar, bar_stop) {
                        return Some(true);
                    }
                    if slide.next_idx == NO_NOTE {
                        return Some(false);
                    }
                    found = found || below;
                } else if slide.next_idx == NO_NOTE {
                    return Some(false);
                }
                idx = slide.next_idx;
                fuel = fuel - 1;
            },
        }
    }
}

/// Whether a note shows in the column of bars `start` to `stop`: a slide
/// node when its chain does, any other note when its bar lies in the drawn
/// stretch.
pub open spec fn note_visible(
    note: NoteData,
    arena: Seq<NoteData>,
    start: (int, int),
    stop: (int, int),
) -> Option<bool> {
    match note {
        NoteData::Slide(_, s) => if s.head_idx == NO_NOTE {
            Some(false)
        } else {
            chain_visible_from(arena, s.head_idx, false, start, stop, 2 * arena.len())
        },
        _ => Some(in_sentence(base_of(note).bar@, start, stop)),
    }
}

/// Whether a note shows in the column of bars `bar_start` to `bar_stop` (see
/// `note_visible`); `None` when its slide chain loops.
pub fn sentence_note_visible(
    note: &NoteData,
    arena: &[NoteData],
    bar_start: Fraction,
    bar_stop: Fraction,
) -> (r: Option<bool>)
    requires
        arena_wf(arena@),
        links_ok(*note, arena@.len() as int),
    ensures
        r == note_visible(*note, arena@, bar_start@, bar_stop@),
{
    match note.as_slide() {
        None => Some(bar_in_sentence(note.bar(), bar_start, bar_stop)),
        Some(slide) => slide_chain_visible(slide.head_idx, arena, bar_start, bar_stop),
    }
}

/// The nodes from `idx` up to the next path-shaping node (or the last node
/// of the chain), visiting at most `fuel` nodes: that node, and the relay
/// nodes met on the way, in order (`None` when the nodes run out).
pub open spec fn relay_walk(arena: Seq<NoteData>, idx: usize, fuel: nat) -> Option<
    (usize, Seq<usize>),
>
    decreases fuel,
{
    if fuel == 0 {
        None
    } else {
        let n = arena[idx as int];
        let t = base_of(n).note_type as int;
        let here = if t == 3 {
            seq![idx]
        } else {
            Seq::<usize>::empty()
        };
        match n {
            NoteData::Slide(_, s) => if slide_is_path(s, t) || s.next_idx == NO_NOTE {
                Some((idx, here))
            } else {
                match relay_walk(arena, s.next_idx, (fuel - 1) as nat) {
                    Some(p) => Some((p.0, here + p.1)),
                    None => None,
                }
            },
            _ => Some((idx, here)),
        }
    }
}

/// The next path-shaping node from `start_idx` and the relay nodes met on
/// the way (see `relay_walk`); `None` when the links loop.
pub fn next_slide_path_node(arena: &[NoteData], start_idx: NoteIdx) -> (r: Option<
    (NoteIdx, Vec<NoteIdx>),
>)
    requires
        arena_wf(arena@),
        start_idx < arena@.len(),
    ensures
        r matches Some(p) ==> relay_walk(arena@, start_idx, arena@.len()) == Some((p.0, p.1@)),
        r is None <==> relay_walk(arena@, start_idx, arena@.len()) is None,
{
    let ghost total = relay_walk(arena@, start_idx, arena@.len());
    let mut amongs: Vec<NoteIdx> = Vec::new();
    let mut next_idx = start_idx;
    let mut fuel: usize = arena.len();
    loop
        invariant
            arena_wf(arena@),
            next_idx < arena@.len(),
            total == relay_walk(arena@, start_idx, arena@.len()),
            total == match relay_walk(arena@, next_idx, fuel as nat) {
                Some(p) => Some((p.0, amongs@ + p.1)),
                None => None,
            },
        decreases fuel,
    {
        if fuel == 0 {
            return None;
        }
        proof {
            assert(links_ok(arena@[next_idx as int], arena@.len() as int));
        }
        let ghost before = amongs@;
        let note_type = arena[next_idx].note_type();
        if note_type == 3 {
            amongs.push(next_idx);
        }
        let ghost here = if note_type == 3 {
            seq![next_idx]
        } else {
            Seq::<usize>::empty()
        };
        proof {
            assert(amongs@ =~= before + here);
        }
        match arena[next_idx].as_slide() {
            None => {
                proof {
                    assert(amongs@ + Seq::<usize>::empty() =~= amongs@);
                }
                return Some((next_idx, amongs));
            },
            Some(slide) => {
                if slide.is_path(note_type) || slide.next_idx == NO_NOTE {
                    proof {
                        assert(amongs@ + Seq::<usize>::empty() =~= amongs@);
                    }
                    return Some((next_idx, amongs));
                }
                proof {
                    let rest = relay_walk(arena@, slide.next_idx, (fuel - 1) as nat);
                    if let Some(q) = rest {
                        assert(before + (here + q.1) =~= amongs@ + q.1);
                    }
                }
                next_idx = slide.next_idx;
                fuel = fuel - 1;
            },
        }
    }
}


// ---------------------------------------------------------------------------
// Notes
// ---------------------------------------------------------------------------
/// Whether active note `c` carries a full tick mark and lies after note `note_idx`.
pub open spec fn tick_after(arena: Seq<NoteData>, c: usize, note_idx: usize) -> bool {
    note_tick(arena[c as int], arena) == Some(true) && frac_lt(
        base_of(arena[note_idx as int]).bar@,
        base_of(arena[c as int]).bar@,
    )
}

/// The first of `active[k..]` that carries a full tick mark after note
/// `note_idx`, or `note_idx` itself when none does.
pub open spec fn first_tick_after(arena: Seq<NoteData>, active: Seq<usize>, note_idx: usize, k: int) -> usize
    decreases active.len() - k,
{
    if k < 0 || k >= active.len() {
        note_idx
    } else if tick_after(arena, active[k], note_idx) {
        active[k]
    } else {
        first_tick_after(arena, active, note_idx, k + 1)
    }
}

/// The note whose tick mark follows that of `note_idx` (see `first_tick_after`).
pub fn next_tick_note(arena: &[NoteData], active: &[NoteIdx], note_idx: NoteIdx) -> (r: NoteIdx)
    requires
        arena_wf(arena@),
        note_idx < arena@.len(),
        forall|j: int| 0 <= j < active@.len() ==> #[trigger] active@[j] < arena@.len(),
    ensures
        r == first_tick_after(arena@, active@, note_idx, 0),
{
    let mut k: usize = 0;
    while k < active.len()
        invariant
            k <= active@.len(),
            arena_wf(arena@),
            note_idx < arena@.len(),
            forall|j: int| 0 <= j < active@.len() ==> #[trigger] active@[j] < arena@.len(),
            first_tick_after(arena@, active@, note_idx, k as int) == first_tick_after(
                arena@,
                active@,
                note_idx,
                0,
            ),
        decreases active@.len() - k,
    {
        let c = active[k];
        proof {
            assert(active@[k as int] < arena@.len());
            assert(links_ok(arena@[c as int], arena@.len() as int));
        }
        if arena[c].is_tick(arena) == Some(true) && arena[note_idx].bar().lt(&arena[c].bar()) {
            return c;
        }
        k = k + 1;
    }
    note_idx
}

/// The direction with a given code, if any.
pub open spec fn direction_of(v: int) -> Option<DirectionalType> {
    if v == 1 {
        Some(DirectionalType::Up)
    } else if v == 2 {
        Some(DirectionalType::Down)
    } else if v == 3 {
        Some(DirectionalType::UpperLeft)
    } else if v == 4 {
        Some(DirectionalType::UpperRight)
    } else if v == 5 {
        Some(DirectionalType::LowerLeft)
    } else if v == 6 {
        Some(DirectionalType::LowerRight)
    } else {
        None
    }
}

/// The direction with a given code, if any.
fn direction_from_code(v: i32) -> (r: Option<DirectionalType>)
    ensures
        r == direction_of(v as int),
{
    let r = DirectionalType::from_i32(v);
    proof {
        if let Some(t) = r {
            assert(directional_type_code(t) == v);
        }
    }
    r
}

/// The curve direction of a slide node: the direction of the directional
/// merged into it, if any.
pub open spec fn curve_direction(n: NoteData, arena: Seq<NoteData>) -> Option<DirectionalType> {
    match n {
        NoteData::Slide(_, s) => if s.directional_idx != NO_NOTE {
            direction_of(base_of(arena[s.directional_idx as int]).note_type as int)
        } else {
            None
        },
        _ => None,
    }
}

/// The curve direction of a slide node (see `curve_direction`).
pub fn slide_curve_direction(note: &NoteData, arena: &[NoteData]) -> (r: Option<DirectionalType>)
    requires
        links_ok(*note, arena@.len() as int),
    ensures
        r == curve_direction(*note, arena@),
{
    match note.as_slide() {
        None => None,
        Some(slide) => if slide.directional_idx != NO_NOTE {
            direction_from_code(arena[slide.directional_idx].note_type())
        } else {
            None
        },
    }
}

/// The flick direction of a note: its own for a directional note, the
/// curve direction for a slide node.
pub open spec fn flick_direction(n: NoteData, arena: Seq<NoteData>) -> Option<DirectionalType> {
    if n is Directional {
        direction_of(base_of(n).note_type as int)
    } else {
        curve_direction(n, arena)
    }
}

/// The flick direction of a note (see `flick_direction`).
pub fn note_directional_type(note: &NoteData, arena: &[NoteData]) -> (r: Option<DirectionalType>)
    requires
        links_ok(*note, arena@.len() as int),
    ensures
        r == flick_direction(*note, arena@),
{
    if note.is_directional() {
        return direction_from_code(note.note_type());
    }
    slide_curve_direction(note, arena)
}

/// The number of the image drawn for a note: 5, 6 or 4 for trend notes
/// (critical, directional, other); otherwise 0 when critical, 3 for a
/// directional note or a slide end with a directional, 2 for a tap and 1
/// for other slide nodes.
pub open spec fn image_number(n: NoteData, arena: Seq<NoteData>) -> int {
    if note_trend(n, arena) {
        if note_critical(n, arena) {
            5
        } else if n is Directional {
            6
        } else {
            4
        }
    } else if note_critical(n, arena) {
        0
    } else if n is Directional {
        3
    } else if !(n is Slide) {
        2
    } else if base_of(n).note_type == 2 && (match n {
        NoteData::Slide(_, s) => s.directional_idx != NO_NOTE,
        _ => false,
    }) {
        3
    } else {
        1
    }
}

/// The number of the image drawn for a note (see `image_number`).
pub fn note_image_number(note: &NoteData, arena: &[NoteData]) -> (r: i32)
    requires
        arena_wf(arena@),
        links_ok(*note, arena@.len() as int),
    ensures
        r == image_number(*note, arena@),
{
    if note.is_trend(arena) {
        return if note.is_critical(arena) {
            5
        } else if note.is_directional() {
            6
        } else {
            4
        };
    }
    if note.is_critical(arena) {
        return 0;
    }
    if note.is_directional() {
        return 3;
    }
    if !note.is_slide() {
        return 2;
    }
    let is_directional_end = note.note_type() == 2 && match note.as_slide() {
        Some(slide) => slide.directional_idx != NO_NOTE,
        None => false,
    };
    if is_directional_end {
        3
    } else {
        1
    }
}

/// The style class of a slide path: decoration or slide, critical or not.
pub open spec fn path_class(n: NoteData, arena: Seq<NoteData>) -> Seq<char> {
    let decoration = match n {
        NoteData::Slide(_, s) => s.decoration,
        _ => false,
    };
    let critical = note_critical(n, arena);
    if decoration && critical {
        "decoration-critical"@
    } else if decoration {
        "decoration"@
    } else if critical {
        "slide-critical"@
    } else {
        "slide"@
    }
}

/// The style class of the slide path that starts at a note (see `path_class`).
pub fn slide_path_class(note: &NoteData, arena: &[NoteData]) -> (r: &'static str)
    requires
        arena_wf(arena@),
        links_ok(*note, arena@.len() as int),
    ensures
        r@ == path_class(*note, arena@),
{
    let critical = note.is_critical(arena);
    let decoration = match note.as_slide() {
        Some(slide) => slide.decoration,
        None => false,
    };
    if decoration && critical {
        "decoration-critical"
    } else if decoration {
        "decoration"
    } else if critical {
        "slide-critical"
    } else {
        "slide"
    }
}


// ---------------------------------------------------------------------------
// Columns of the sheet
// ---------------------------------------------------------------------------
/// The last whole bar of a chart: the ceiling of the bar of its last active
/// note (as an `i32`, wrapping as a cast does), or 0 without active notes.
pub open spec fn last_bar_ceiling(notes: Seq<NoteData>, active: Seq<usize>) -> i32 {
    if active.len() == 0 {
        0
    } else {
        frac_ceil(base_of(notes[active.last() as int]).bar@) as i32
    }
}

/// The number of bars per line an event sets, four when it sets none.
pub open spec fn line_length(e: Event) -> int {
    match e.sentence_length {
        Some(l) => l as int,
        None => 4,
    }
}

/// Whether the column that started at `bar_start` ends at bar `i`, where
/// event `e` is in force and `prev` was before: at a new section, at a new
/// line length, once the line is full, or at the last bar.
pub open spec fn cuts_at(e: Event, prev: Event, i: int, bar_start: int, n_bars: int) -> bool {
    bar_start != i && (opt_str_view(e.section) != opt_str_view(prev.section) || line_length(e)
        != line_length(prev) || i == bar_start + line_length(prev) || i == n_bars)
}

/// The columns cut from bar `i` on, for a column open since `bar_start`,
/// with the merged events before `i` in `prev`.
pub open spec fn columns_from(events: Seq<Event>, n_bars: int, i: int, bar_start: int, prev: Event) -> Seq<
    (i32, i32),
>
    decreases n_bars + 1 - i,
{
    if i > n_bars {
        seq![]
    } else {
        let e = event_at_bar(events, (i, 1));
        let cut = cuts_at(e, prev, i, bar_start, n_bars);
        (if cut {
            seq![(bar_start as i32, i as i32)]
        } else {
            Seq::<(i32, i32)>::empty()
        }) + columns_from(
            events,
            n_bars,
            i + 1,
            if cut {
                i
            } else {
                bar_start
            },
            merge_events(prev, e),
        )
    }
}

/// The columns (first and last bar) of the sheet of a chart whose last
/// whole bar is `n_bars`.
pub open spec fn sheet_columns(events: Seq<Event>, n_bars: int) -> Seq<(i32, i32)> {
    columns_from(events, n_bars, 0, 0, initial_event())
}

/// The columns of the sheet drawn for a score (see `sheet_columns`), or
/// `None` when the timeline's arithmetic leaves `i64`.
pub fn sentence_segments(score: &mut Score) -> (r: Option<Vec<(i32, i32)>>)
    requires
        old(score).cache_ok(),
        old(score).active_notes@.len() > 0 ==> old(score).active_notes@.last() < old(
            score,
        ).notes@.len(),
    ensures
        r is None <==> last_bar_ceiling(old(score).notes@, old(score).active_notes@) >= 0
            && timeline(old(score).events@) is None,
        r matches Some(v) ==> v@ == sheet_columns(
            old(score).events@,
            last_bar_ceiling(old(score).notes@, old(score).active_notes@) as int,
        ),
        final(score).cache_ok(),
        final(score).events == old(score).events,
        final(score).meta == old(score).meta,
        final(score).notes == old(score).notes,
        final(score).active_notes == old(score).active_notes,
{
    let n_bars: i32 = match score.active_notes.last() {
        Some(idx) => score.notes[*idx].bar().ceil() as i32,
        None => 0,
    };
    let ghost events = score.events@;
    let ghost total = sheet_columns(events, n_bars as int);
    proof {
        assert(n_bars == last_bar_ceiling(old(score).notes@, old(score).active_notes@));
    }
    let mut segments: Vec<(i32, i32)> = Vec::new();
    let mut bar_start: i32 = 0;
    let mut event = initial_event_exec();
    let mut i: i64 = 0;
    while i <= n_bars as i64
        invariant
            0 <= i <= n_bars as i64 + 1 || (i == 0 && n_bars < 0),
            0 <= bar_start <= i,
            score.cache_ok(),
            score.events@ == events,
            score.events == old(score).events,
            score.meta == old(score).meta,
            score.notes == old(score).notes,
            score.active_notes == old(score).active_notes,
            i > 0 ==> timeline(events) is Some,
            n_bars == last_bar_ceiling(old(score).notes@, old(score).active_notes@),
            events == old(score).events@,
            total == sheet_columns(events, n_bars as int),
            total == segments@ + columns_from(events, n_bars as int, i as int, bar_start as int, event),
        decreases n_bars as i64 + 1 - i,
    {
        let e = match score.checked_event(Fraction::from_integer(i)) {
            None => {
                return None;
            },
            Some(e) => e,
        };
        let current = match e.sentence_length {
            Some(l) => l,
            None => 4,
        };
        let previous = match event.sentence_length {
            Some(l) => l,
            None => 4,
        };
        let ghost prev = event;
        let ghost old_start = bar_start;
        let ghost seg_before = segments@;
        let cut = bar_start as i64 != i && (!opt_string_eq(&e.section, &event.section) || current
            != previous || i == bar_start as i64 + previous as i64 || i == n_bars as i64);
        proof {
            assert(cut == cuts_at(e, event, i as int, bar_start as int, n_bars as int));
        }
        if cut {
            segments.push((bar_start, i as i32));
            bar_start = i as i32;
        }
        event.merge_from(&e);
        proof {
            let cs = if cut {
                seq![(old_start, i as i32)]
            } else {
                Seq::<(i32, i32)>::empty()
            };
            let rest = columns_from(events, n_bars as int, i + 1, bar_start as int, event);
            assert(columns_from(events, n_bars as int, i as int, old_start as int, prev) == cs
                + rest);
            assert(segments@ =~= seg_before + cs);
            assert(seg_before + (cs + rest) =~= segments@ + rest);
        }
        i = i + 1;
    }
    Some(segments)
}

/// The columns cut from bar `i` on, for a column open since `bar_start`,
/// cover the bars from `bar_start` to `n_bars` without gaps or overlaps.
pub proof fn lemma_columns_tile(events: Seq<Event>, n_bars: int, i: int, bar_start: int, prev: Event)
    requires
        0 <= bar_start <= i <= n_bars <= i32::MAX,
        bar_start < n_bars,
    ensures
        ({
            let c = columns_from(events, n_bars, i, bar_start, prev);
            &&& c.len() > 0
            &&& c[0].0 == bar_start
            &&& c.last().1 == n_bars
            &&& forall|k: int| 0 <= k < c.len() ==> #[trigger] c[k].0 < c[k].1
            &&& forall|k: int| 0 <= k < c.len() - 1 ==> #[trigger] c[k].1 == c[k + 1].0
        }),
    decreases n_bars + 1 - i,
{
    let e = event_at_bar(events, (i, 1));
    let cut = cuts_at(e, prev, i, bar_start, n_bars);
    let next = merge_events(prev, e);
    let c = columns_from(events, n_bars, i, bar_start, prev);
    if cut {
        let head = seq![(bar_start as i32, i as i32)];
        let rest = columns_from(events, n_bars, i + 1, i, next);
        assert(c == head + rest);
        if i < n_bars {
            lemma_columns_tile(events, n_bars, i + 1, i, next);
            assert forall|k: int| 0 <= k < c.len() - 1 implies #[trigger] c[k].1 == c[k + 1].0 by {
                if k > 0 {
                    assert(c[k] == rest[k - 1]);
                    assert(c[k + 1] == rest[k]);
                }
            }
            assert forall|k: int| 0 <= k < c.len() implies #[trigger] c[k].0 < c[k].1 by {
                if k > 0 {
                    assert(c[k] == rest[k - 1]);
                }
            }
        } else {
            assert(rest =~= Seq::<(i32, i32)>::empty());
            assert(c =~= head);
        }
    } else {
        lemma_columns_tile(events, n_bars, i + 1, bar_start, next);
    }
}

// ---------------------------------------------------------------------------
// Drawing steps
// ---------------------------------------------------------------------------
/// A step in drawing a note of a column.
#[derive(Debug, Clone, Copy, PartialEq, Eq, Structural)]
pub enum NoteDrawStep {
    /// The slide path that starts at the note.
    SlidePath,
    /// The image of the note at an arena index.
    NoteImage(NoteIdx),
    /// The flick arrow of the note at an arena index.
    FlickImage(NoteIdx),
}

/// The steps that draw the note at `idx`: a tap's image; a directional's
/// arrow and image; for a decoration slide node, the path from a start
/// node, then the image of its tap and, with a directional, its arrow; for
/// another slide node, the path and image of a start node, or the arrow
/// (with a directional) and image of an end node.
pub open spec fn draw_steps(note: NoteData, idx: usize) -> Seq<NoteDrawStep> {
    match note {
        NoteData::Tap(..) => seq![NoteDrawStep::NoteImage(idx)],
        NoteData::Directional(..) => seq![NoteDrawStep::FlickImage(idx), NoteDrawStep::NoteImage(idx)],
        NoteData::Slide(b, s) => if s.decoration {
            let path = if b.note_type == 1 {
                seq![NoteDrawStep::SlidePath]
            } else {
                Seq::<NoteDrawStep>::empty()
            };
            if s.tap_idx == NO_NOTE {
                path
            } else if s.directional_idx != NO_NOTE {
                path + seq![NoteDrawStep::NoteImage(s.tap_idx), NoteDrawStep::FlickImage(idx)]
            } else {
                path + seq![NoteDrawStep::NoteImage(s.tap_idx)]
            }
        } else if b.note_type == 1 {
            seq![NoteDrawStep::SlidePath, NoteDrawStep::NoteImage(idx)]
        } else if b.note_type == 2 {
            if s.directional_idx != NO_NOTE {
                seq![NoteDrawStep::FlickImage(idx), NoteDrawStep::NoteImage(idx)]
            } else {
                seq![NoteDrawStep::NoteImage(idx)]
            }
        } else {
            seq![]
        },
    }
}

/// The steps that draw the note at `note_idx` (see `draw_steps`).
pub fn sentence_note_steps(note: &NoteData, note_idx: NoteIdx) -> (r: Vec<NoteDrawStep>)
    ensures
        r@ == draw_steps(*note, note_idx),
{
    let mut steps: Vec<NoteDrawStep> = Vec::new();
    match note {
        NoteData::Tap(..) => {
            steps.push(NoteDrawStep::NoteImage(note_idx));
        },
        NoteData::Directional(..) => {
            steps.push(NoteDrawStep::FlickImage(note_idx));
            steps.push(NoteDrawStep::NoteImage(note_idx));
        },
        NoteData::Slide(b, s) => {
            if s.decoration {
                if b.note_type == 1 {
                    steps.push(NoteDrawStep::SlidePath);
                }
                if s.tap_idx != NO_NOTE {
                    steps.push(NoteDrawStep::NoteImage(s.tap_idx));
                    if s.directional_idx != NO_NOTE {
                        steps.push(NoteDrawStep::FlickImage(note_idx));
                    }
                }
            } else if b.note_type == 1 {
                steps.push(NoteDrawStep::SlidePath);
                steps.push(NoteDrawStep::NoteImage(note_idx));
            } else if b.note_type == 2 {
                if s.directional_idx != NO_NOTE {
                    steps.push(NoteDrawStep::FlickImage(note_idx));
                }
                steps.push(NoteDrawStep::NoteImage(note_idx));
            }
        },
    }
    proof {
        assert(steps@ =~= draw_steps(*note, note_idx));
    }
    steps
}

/// The arrow drawn for a note's flick: up, upper left or upper right (a
/// note with no direction points up); no arrow for a note that is not
/// drawn or points down.
pub open spec fn flick_arrow(note: NoteData, arena: Seq<NoteData>) -> Option<DirectionalType> {
    if note_none(note, arena) {
        None
    } else {
        match flick_direction(note, arena) {
            Some(DirectionalType::UpperLeft) => Some(DirectionalType::UpperLeft),
            Some(DirectionalType::UpperRight) => Some(DirectionalType::UpperRight),
            Some(DirectionalType::Up) => Some(DirectionalType::Up),
            Some(_) => None,
            None => Some(DirectionalType::Up),
        }
    }
}

/// The arrow drawn for a note's flick (see `flick_arrow`).
pub fn flick_arrow_type(note: &NoteData, arena: &[NoteData]) -> (r: Option<DirectionalType>)
    requires
        links_ok(*note, arena@.len() as int),
    ensures
        r == flick_arrow(*note, arena@),
{
    if note.is_none(arena) {
        return None;
    }
    match note_directional_type(note, arena) {
        Some(DirectionalType::UpperLeft) => Some(DirectionalType::UpperLeft),
        Some(DirectionalType::UpperRight) => Some(DirectionalType::UpperRight),
        Some(DirectionalType::Up) => Some(DirectionalType::Up),
        Some(_) => None,
        None => Some(DirectionalType::Up),
    }
}

/// An integer written with at least two digits (`{:02}`).
pub open spec fn two_digits(w: int) -> Seq<char> {
    if 0 <= w <= 9 {
        seq!['0'] + int_decimal(w)
    } else {
        int_decimal(w)
    }
}

/// The name of the arrow image of a flick: critical or not, its width (at
/// most 6), diagonal or not.
pub open spec fn flick_asset(critical: bool, width: int, diagonal: bool) -> Seq<char> {
    "notes_flick_arrow"@ + (if critical {
        "_crtcl"@
    } else {
        ""@
    }) + "_"@ + two_digits(if width < 6 {
        width
    } else {
        6
    }) + (if diagonal {
        "_diagonal"@
    } else {
        ""@
    })
}

/// The name of the arrow image of a flick (see `flick_asset`).
pub fn flick_asset_name(critical: bool, width: i32, diagonal: bool) -> (r: String)
    ensures
        r@ == flick_asset(critical, width as int, diagonal),
{
    let mut out = chars_of("notes_flick_arrow");
    if critical {
        push_all(&mut out, &chars_of("_crtcl"));
    } else {
        push_all(&mut out, &chars_of(""));
    }
    push_all(&mut out, &chars_of("_"));
    let w = if width < 6 {
        width
    } else {
        6
    };
    if 0 <= w && w <= 9 {
        out.push('0');
    }
    push_int_decimal(&mut out, w as i64);
    if diagonal {
        push_all(&mut out, &chars_of("_diagonal"));
    } else {
        push_all(&mut out, &chars_of(""));
    }
    proof {
        assert(out@ =~= flick_asset(critical, width as int, diagonal));
    }
    string_of(out.as_slice())
}

/// The small images drawn on slides and trend notes.
#[derive(Debug, Clone, Copy, PartialEq, Eq, Structural)]
pub enum AmongKind {
    LongAmong,
    LongAmongCritical,
    FrictionLong,
    FrictionFlick,
    FrictionCritical,
}

/// The image file of each kind.
pub open spec fn among_asset(kind: AmongKind) -> Seq<char> {
    match kind {
        AmongKind::LongAmong => "notes_long_among"@,
        AmongKind::LongAmongCritical => "notes_long_among_crtcl"@,
        AmongKind::FrictionLong => "notes_friction_among_long"@,
        AmongKind::FrictionFlick => "notes_friction_among_flick"@,
        AmongKind::FrictionCritical => "notes_friction_among_crtcl"@,
    }
}

/// The image file of a kind (see `among_asset`).
pub fn among_asset_name(kind: AmongKind) -> (r: &'static str)
    ensures
        r@ == among_asset(kind),
{
    match kind {
        AmongKind::LongAmong => "notes_long_among",
        AmongKind::LongAmongCritical => "notes_long_among_crtcl",
        AmongKind::FrictionLong => "notes_friction_among_long",
        AmongKind::FrictionFlick => "notes_friction_among_flick",
        AmongKind::FrictionCritical => "notes_friction_among_crtcl",
    }
}

/// The image drawn on a trend note: critical, flick or long.
pub open spec fn friction_kind(note: NoteData, arena: Seq<NoteData>) -> AmongKind {
    if note_critical(note, arena) {
        AmongKind::FrictionCritical
    } else if note is Directional {
        AmongKind::FrictionFlick
    } else {
        AmongKind::FrictionLong
    }
}

/// The image drawn on a trend note (see `friction_kind`).
pub fn friction_among_kind(note: &NoteData, arena: &[NoteData]) -> (r: AmongKind)
    requires
        arena_wf(arena@),
        links_ok(*note, arena@.len() as int),
    ensures
        r == friction_kind(*note, arena@),
{
    if note.is_critical(arena) {
        AmongKind::FrictionCritical
    } else if note.is_directional() {
        AmongKind::FrictionFlick
    } else {
        AmongKind::FrictionLong
    }
}

/// The image drawn on a slide where a relay node sits.
pub fn long_among_kind(is_critical: bool) -> (r: AmongKind)
    ensures
        r == (if is_critical {
            AmongKind::LongAmongCritical
        } else {
            AmongKind::LongAmong
        }),
{
    if is_critical {
        AmongKind::LongAmongCritical
    } else {
        AmongKind::LongAmong
    }
}

/// The label of a tick interval: `n/d`, or `/d` for a unit fraction.
pub open spec fn tick_text(interval: (int, int)) -> Seq<char> {
    if interval.0 != 1 {
        int_decimal(interval.0) + seq!['/'] + int_decimal(interval.1)
    } else {
        seq!['/'] + int_decimal(interval.1)
    }
}

/// The label of a tick interval (see `tick_text`); `None` for a zero interval,
/// which gets no label.
pub fn tick_label(interval: Fraction) -> (r: Option<String>)
    ensures
        r is None <==> interval@.0 == 0,
        r matches Some(t) ==> t@ == tick_text(interval@),
{
    let n = *interval.numer();
    let d = *interval.denom();
    if n == 0 {
        return None;
    }
    let mut out: Vec<char> = Vec::new();
    if n != 1 {
        push_int_decimal(&mut out, n);
    }
    out.push('/');
    push_int_decimal(&mut out, d);
    proof {
        assert(out@ =~= tick_text(interval@));
    }
    Some(string_of(out.as_slice()))
}

// ---------------------------------------------------------------------------
// Footer
// ---------------------------------------------------------------------------
/// The chart title shown in the footer: the title and the artist joined by
/// ` - ` (either alone when the other is missing), or `Untitled` when that
/// leaves nothing.
pub open spec fn footer_title(m: MetaView) -> Seq<char> {
    let joined = match (m.title, m.artist) {
        (Some(t), Some(a)) => t + " - "@ + a,
        (Some(t), None) => t,
        (None, Some(a)) => a,
        (None, None) => ""@,
    };
    if joined.len() == 0 {
        "Untitled"@
    } else {
        joined
    }
}

/// The chart title shown in the footer (see `footer_title`).
pub fn chart_title(meta: &Meta) -> (r: String)
    ensures
        r@ == footer_title(meta@),
{
    let mut out: Vec<char> = Vec::new();
    match (&meta.title, &meta.artist) {
        (Some(t), Some(a)) => {
            push_all(&mut out, &chars_of(t.as_str()));
            push_all(&mut out, &chars_of(" - "));
            push_all(&mut out, &chars_of(a.as_str()));
        },
        (Some(t), None) => {
            push_all(&mut out, &chars_of(t.as_str()));
        },
        (None, Some(a)) => {
            push_all(&mut out, &chars_of(a.as_str()));
        },
        (None, None) => {
            push_all(&mut out, &chars_of(""));
        },
    }
    if out.len() == 0 {
        return String::from_str("Untitled");
    }
    proof {
        assert(out@ =~= footer_title(meta@));
    }
    string_of(out.as_slice())
}

/// The jacket image shown when a chart names none.
pub const DEFAULT_JACKET: &'static str = "https://storage.sekai.best/sekai-jp-assets/thumbnail/chara_rip/res009_no021_normal.png";

/// The jacket image of the footer: the chart's, unless missing or empty.
pub open spec fn footer_jacket(m: MetaView) -> Seq<char> {
    match m.jacket {
        Some(j) => if j.len() > 0 {
            j
        } else {
            DEFAULT_JACKET@
        },
        None => DEFAULT_JACKET@,
    }
}

/// The jacket image of the footer (see `footer_jacket`).
pub fn jacket_href(meta: &Meta) -> (r: String)
    ensures
        r@ == footer_jacket(meta@),
{
    match &meta.jacket {
        Some(j) => if !j.as_str().is_empty() {
            j.clone()
        } else {
            String::from_str(DEFAULT_JACKET)
        },
        None => String::from_str(DEFAULT_JACKET),
    }
}

/// A relay walk from a node of a well-formed arena ends at a node of it.
pub proof fn lemma_relay_walk_in_range(arena: Seq<NoteData>, idx: usize, fuel: nat)
    requires
        arena_wf(arena),
        idx < arena.len(),
    ensures
        relay_walk(arena, idx, fuel) matches Some(p) ==> p.0 < arena.len(),
    decreases fuel,
{
    if fuel > 0 {
        assert(links_ok(arena[idx as int], arena.len() as int));
        if let NoteData::Slide(_, s) = arena[idx as int] {
            if s.next_idx != NO_NOTE {
                lemma_relay_walk_in_range(arena, s.next_idx, (fuel - 1) as nat);
            }
        }
    }
}

/// The pieces of the slide path drawn from node `cur`, visiting at most
/// `fuel` pieces: each piece joins a path-shaping node to the next one (see
/// `relay_walk`) and lists the relay nodes between them; the path ends at
/// an end node, a node that is not a slide, or the end of the chain
/// (`None` when the pieces run out, or a relay walk does).
pub open spec fn path_pieces_from(arena: Seq<NoteData>, cur: usize, fuel: nat) -> Option<
    Seq<(usize, usize, Seq<usize>)>,
>
    decreases fuel,
{
    if fuel == 0 {
        None
    } else {
        let n = arena[cur as int];
        if base_of(n).note_type == 2 {
            Some(seq![])
        } else {
            match n {
                NoteData::Slide(_, s) => if s.next_idx == NO_NOTE {
                    Some(seq![])
                } else {
                    match relay_walk(arena, s.next_idx, arena.len()) {
                        None => None,
                        Some(p) => match path_pieces_from(arena, p.0, (fuel - 1) as nat) {
                            None => None,
                            Some(rest) => Some(seq![(cur, p.0, p.1)] + rest),
                        },
                    }
                },
                _ => Some(seq![]),
            }
        }
    }
}

/// The contents of a list of path pieces.
pub open spec fn pieces_view(v: Seq<(usize, usize, Vec<usize>)>) -> Seq<(usize, usize, Seq<usize>)> {
    v.map_values(|t: (usize, usize, Vec<usize>)| (t.0, t.1, t.2@))
}

/// The pieces of the slide path that starts at `start_idx` (see
/// `path_pieces_from`, with as many pieces as the arena has notes); `None`
/// when the links loop.
pub fn slide_path_pieces(arena: &[NoteData], start_idx: NoteIdx) -> (r: Option<
    Vec<(NoteIdx, NoteIdx, Vec<NoteIdx>)>,
>)
    requires
        arena_wf(arena@),
        start_idx < arena@.len(),
    ensures
        r matches Some(v) ==> path_pieces_from(arena@, start_idx, arena@.len()) == Some(
            pieces_view(v@),
        ),
        r is None <==> path_pieces_from(arena@, start_idx, arena@.len()) is None,
{
    let ghost total = path_pieces_from(arena@, start_idx, arena@.len());
    let mut pieces: Vec<(NoteIdx, NoteIdx, Vec<NoteIdx>)> = Vec::new();
    let mut current = start_idx;
    let mut fuel: usize = arena.len();
    loop
        invariant
            arena_wf(arena@),
            current < arena@.len(),
            total == path_pieces_from(arena@, start_idx, arena@.len()),
            total == match path_pieces_from(arena@, current, fuel as nat) {
                Some(rest) => Some(pieces_view(pieces@) + rest),
                None => None,
            },
        decreases fuel,
    {
        if fuel == 0 {
            return None;
        }
        proof {
            assert(links_ok(arena@[current as int], arena@.len() as int));
        }
        let ghost before = pieces_view(pieces@);
        if arena[current].note_type() == 2 {
            proof {
                assert(before + Seq::<(usize, usize, Seq<usize>)>::empty() =~= before);
            }
            return Some(pieces);
        }
        let next = match arena[current].as_slide() {
            None => {
                proof {
                    assert(before + Seq::<(usize, usize, Seq<usize>)>::empty() =~= before);
                }
                return Some(pieces);
            },
            Some(slide) => slide.next_idx,
        };
        if next == NO_NOTE {
            proof {
                assert(before + Seq::<(usize, usize, Seq<usize>)>::empty() =~= before);
            }
            return Some(pieces);
        }
        let (next_idx, amongs) = match next_slide_path_node(arena, next) {
            None => {
                return None;
            },
            Some(p) => p,
        };
        proof {
            lemma_relay_walk_in_range(arena@, next, arena@.len() as nat);
        }
        let ghost am = amongs@;
        pieces.push((current, next_idx, amongs));
        proof {
            assert(pieces_view(pieces@) =~= before + seq![(current, next_idx, am)]);
            let rest = path_pieces_from(arena@, next_idx, (fuel - 1) as nat);
            if let Some(rr) = rest {
                assert(before + (seq![(current, next_idx, am)] + rr) =~= pieces_view(pieces@)
                    + rr);
            }
        }
        current = next_idx;
        fuel = fuel - 1;
    }
}

} // verus!
