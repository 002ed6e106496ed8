//! The score: metadata, the note arena, and the timeline of events.
use crate::arith::pair_fits;
use crate::fraction::{
    frac_add, frac_div, frac_le, frac_lt, frac_mul, frac_of, frac_sub, lemma_frac_of_view,
    spec_limit_denominator, Fraction,
};
pub mod linking;
pub mod loading;
pub mod timing;

use crate::line::{
    items_unlinked, lemma_parse_line_unlinked, line_ok, spec_line, spec_parse_line, unlinked,
    BpmDefinition, ItemView, Line, ParsedItem, TicksPerBeat,
};
use crate::meta::{empty_meta, Meta};
use crate::text::{chars_of, lines, split_lines, string_of, trim_bounds, trim_start};
use loading::{
    lemma_lines_items_append, lemma_lines_items_at, lemma_load_none, line_views, lines_items, lines_ok, load_item_exec,
    load_item, load_items, load_lines, LineView, LoadState,
};
use crate::notes::event::{merge_events, Event, EventView};
use crate::notes::{arena_wf, links_ok, NoteData, NoteIdx};
use linking::{
    active_indices, active_of, index_valid_notes, lemma_active_indices, invalid_note_events, link_directional_attachments,
    link_notes, link_slides, note_before, sort_notes,
};
use crate::sorting::{
    insert_stable, lemma_insert_stable_at, lemma_sort_stable_elements, lemma_sort_stable_len,
    lemma_sort_stable_step, sort_stable,
};
use vstd::prelude::*;

verus! {

/// The largest denominator kept for elapsed times.
pub const TIME_DENOMINATOR_LIMIT: i64 = 1_000_000_000;

/// The parsed score: metadata, every note in an arena (indices are stable
/// once linked), the notes that are drawn, and the timeline events.
pub struct Score {
    pub meta: Meta,
    /// Arena of all notes; links between notes are indices into it.
    pub notes: Vec<NoteData>,
    /// Indices of the notes that stand on their own (not merged into another).
    pub active_notes: Vec<NoteIdx>,
    pub events: Vec<Event>,
    /// The timeline computed from `events`, kept once computed.
    pub timed_events_cache: Option<Vec<(Fraction, Event)>>,
}

/// The event in force before the first event of a chart: bar 0, 120 BPM,
/// four beats per bar and four bars per line.
pub open spec fn initial_event() -> Event {
    Event {
        bar: frac_of((0, 1)),
        bpm: Some(frac_of((120, 1))),
        bar_length: Some(frac_of((4, 1))),
        sentence_length: Some(4),
        speed: None,
        section: None,
        text: None,
    }
}

/// The BPM of an event, 120 when it sets none.
pub open spec fn bpm_or_default(e: Event) -> (int, int) {
    match e.bpm {
        Some(b) => b@,
        None => (120, 1),
    }
}

/// The bar length of an event in beats, 4 when it sets none.
pub open spec fn bar_length_or_default(e: Event) -> (int, int) {
    match e.bar_length {
        Some(b) => b@,
        None => (4, 1),
    }
}

/// The elapsed time at `next_bar`, from time `t` at the state `e`:
/// `t + (next_bar - e.bar) * bar_length * 60 / bpm`, limited to a denominator
/// of at most 10^9. `None` when the BPM is zero or a step leaves `i64`.
pub open spec fn advance_time(t: (int, int), e: Event, next_bar: (int, int)) -> Option<(int, int)> {
    let bpm = bpm_or_default(e);
    let delta = frac_sub(next_bar, e.bar@);
    let a = frac_mul(delta, bar_length_or_default(e));
    let b = frac_mul(a, (60, 1));
    let c = frac_div(b, bpm);
    let s = frac_add(t, c);
    if bpm.0 == 0 || !pair_fits(delta) || !pair_fits(a) || !pair_fits(b) || !pair_fits(c)
        || !pair_fits(s) {
        None
    } else {
        spec_limit_denominator(s, TIME_DENOMINATOR_LIMIT as int)
    }
}

/// The time and merged event after the first `k` events of the timeline.
pub open spec fn timeline_state(events: Seq<Event>, k: int) -> Option<((int, int), Event)>
    decreases k,
{
    if k <= 0 {
        Some(((0, 1), initial_event()))
    } else {
        match timeline_state(events, k - 1) {
            None => None,
            Some(st) => match advance_time(st.0, st.1, events[k - 1].bar@) {
                None => None,
                Some(t) => Some((t, merge_events(st.1, events[k - 1]))),
            },
        }
    }
}

/// The timeline: for each event, the elapsed time at it and the event in
/// force there (every earlier event merged in); a single entry at time zero
/// for a score without events. `None` when the arithmetic leaves `i64`.
pub open spec fn timeline(events: Seq<Event>) -> Option<Seq<(Fraction, Event)>> {
    if timeline_state(events, events.len() as int) is None {
        None
    } else if events.len() == 0 {
        Some(seq![(frac_of((0, 1)), initial_event())])
    } else {
        Some(
            Seq::new(
                events.len(),
                |i: int|
                    (
                        frac_of((timeline_state(events, i + 1)->0).0),
                        (timeline_state(events, i + 1)->0).1,
                    ),
            ),
        )
    }
}

/// Once the walk has failed it stays failed.
proof fn lemma_timeline_none(events: Seq<Event>, k: int, m: int)
    requires
        k <= m,
        timeline_state(events, k) is None,
    ensures
        timeline_state(events, m) is None,
    decreases m - k,
{
    if k < m {
        lemma_timeline_none(events, k, m - 1);
    }
}

/// Index of the last timeline entry at or before `bar` among the first `n`, or -1.
pub open spec fn last_entry_at_or_before(timed: Seq<(Fraction, Event)>, bar: (int, int), n: int) -> int
    decreases n,
{
    if n <= 0 {
        -1
    } else if frac_le(timed[n - 1].1.bar@, bar) {
        n - 1
    } else {
        last_entry_at_or_before(timed, bar, n - 1)
    }
}

/// The timeline entry in force at `bar`: the last one whose bar is not after
/// it (so among entries at one bar the most merged), or the first entry.
pub open spec fn entry_index(timed: Seq<(Fraction, Event)>, bar: (int, int)) -> int {
    let k = last_entry_at_or_before(timed, bar, timed.len() as int);
    if k < 0 {
        0
    } else {
        k
    }
}

/// The elapsed time at `bar` from an entry at time `t` in state `e`:
/// `t + bar_length * 60 / bpm * (bar - e.bar)`, limited to a denominator of
/// at most 10^9. `None` when the BPM is zero or a step leaves `i64`.
pub open spec fn time_from_entry(t: (int, int), e: Event, bar: (int, int)) -> Option<(int, int)> {
    let bpm = bpm_or_default(e);
    let a = frac_mul(bar_length_or_default(e), (60, 1));
    let b = frac_div(a, bpm);
    let delta = frac_sub(bar, e.bar@);
    let c = frac_mul(b, delta);
    let s = frac_add(t, c);
    if bpm.0 == 0 || !pair_fits(a) || !pair_fits(b) || !pair_fits(delta) || !pair_fits(c)
        || !pair_fits(s) {
        None
    } else {
        spec_limit_denominator(s, TIME_DENOMINATOR_LIMIT as int)
    }
}

/// The elapsed time at `bar` in a timeline.
pub open spec fn time_in(timed: Seq<(Fraction, Event)>, bar: (int, int)) -> Option<(int, int)> {
    let i = entry_index(timed, bar);
    time_from_entry(timed[i].0@, timed[i].1, bar)
}

/// The elapsed time at `bar` for a score with these events.
pub open spec fn time_at_bar(events: Seq<Event>, bar: (int, int)) -> Option<(int, int)> {
    match timeline(events) {
        None => None,
        Some(timed) => time_in(timed, bar),
    }
}

/// The event in force at `bar` for a score with these events.
pub open spec fn event_at_bar(events: Seq<Event>, bar: (int, int)) -> Event {
    let timed = timeline(events)->0;
    timed[entry_index(timed, bar)].1
}

/// Whether event `a` sorts strictly before `b` (by bar).
pub open spec fn event_before() -> spec_fn(Event, Event) -> bool {
    |a: Event, b: Event| frac_lt(a.bar@, b.bar@)
}

/// The events with every event equal (by content) to the one kept just before it dropped.
pub open spec fn dedup_events(s: Seq<Event>) -> Seq<Event>
    decreases s.len(),
{
    if s.len() == 0 {
        s
    } else {
        let d = dedup_events(s.drop_last());
        if d.len() > 0 && d.last()@ == s.last()@ {
            d
        } else {
            d.push(s.last())
        }
    }
}

/// The events of a score as `init_events` leaves them: sorted by bar (events
/// at one bar keep their order) with repeated identical events dropped.
pub open spec fn normalized_events(events: Seq<Event>) -> Seq<Event> {
    dedup_events(sort_stable(events, event_before()))
}

/// The contents of a sequence of events.
pub open spec fn events_view(s: Seq<Event>) -> Seq<EventView> {
    s.map_values(|e: Event| e@)
}

/// No two neighbouring events of `dedup_events(s)` have the same content.
pub proof fn lemma_dedup_events_no_repeats(s: Seq<Event>)
    ensures
        forall|i: int|
            0 <= i < dedup_events(s).len() - 1 ==> #[trigger] dedup_events(s)[i]@ != dedup_events(
                s,
            )[i + 1]@,
    decreases s.len(),
{
    if s.len() > 0 {
        lemma_dedup_events_no_repeats(s.drop_last());
        let d = dedup_events(s.drop_last());
        if !(d.len() > 0 && d.last()@ == s.last()@) {
            assert forall|i: int|
                0 <= i < d.push(s.last()).len() - 1 implies #[trigger] d.push(s.last())[i]@
                != d.push(s.last())[i + 1]@ by {
                if i < d.len() - 1 {
                    assert(d.push(s.last())[i] == d[i]);
                    assert(d.push(s.last())[i + 1] == d[i + 1]);
                }
            }
        }
    }
}

/// `dedup_events` keeps only events of its input.
pub proof fn lemma_dedup_events_from_input(s: Seq<Event>)
    ensures
        dedup_events(s).len() <= s.len(),
        forall|i: int| 0 <= i < dedup_events(s).len() ==> s.contains(#[trigger] dedup_events(s)[i]),
    decreases s.len(),
{
    if s.len() > 0 {
        lemma_dedup_events_from_input(s.drop_last());
        let d = dedup_events(s.drop_last());
        assert forall|i: int| 0 <= i < dedup_events(s).len() implies s.contains(
            #[trigger] dedup_events(s)[i],
        ) by {
            if i < d.len() {
                let x = d[i];
                assert(s.drop_last().contains(x));
                let k = choose|k: int| 0 <= k < s.drop_last().len() && s.drop_last()[k] == x;
                assert(s[k] == x);
            } else {
                assert(s[s.len() - 1] == s.last());
            }
        }
    }
}

/// `s` is the score loaded from the state `st`: its metadata, its notes
/// sorted and linked, its events with one event per dropped note added, then
/// sorted and deduplicated, and no cached timeline.
pub open spec fn loaded_from(s: Score, st: LoadState) -> bool {
    let sorted = sort_stable(st.4, note_before());
    let linked = link_notes(sorted);
    &&& s.meta@ == st.0
    &&& s.notes@ == linked.0
    &&& s.active_notes@ == active_indices(linked.1, st.4.len() as int)
    &&& exists|extra: Seq<Event>|
        #![trigger normalized_events(st.3 + extra)]
        events_view(extra) == invalid_note_events(sorted, st.4.len() as int) && s.events@
            == normalized_events(st.3 + extra)
    &&& s.timed_events_cache is None
}

/// The lines of a text (`str::lines`), each split into kind, header and data.
pub open spec fn content_lines(content: Seq<char>) -> Seq<LineView> {
    lines(content).map_values(|l: Seq<char>| spec_line(l))
}

/// A `.sus` text parses: every line parses and every speed change has a position.
pub open spec fn parse_ok(content: Seq<char>) -> bool {
    lines_ok(content_lines(content)) && load_lines(content_lines(content)) is Some
}

/// A character with ASCII capitals lowered.
pub open spec fn ascii_lower(c: char) -> char {
    if 'A' <= c <= 'Z' {
        ((c as u32) + 32) as char
    } else {
        c
    }
}

/// Whether a file extension is `json` in any ASCII case.
pub open spec fn is_json_extension_spec(ext: Seq<char>) -> bool {
    ext.map_values(|c: char| ascii_lower(c)) == seq!['j', 's', 'o', 'n']
}

/// Whether a file extension is `json` in any ASCII case.
pub fn is_json_extension(ext: &str) -> (r: bool)
    ensures
        r == is_json_extension_spec(ext@),
{
    let chars = chars_of(ext);
    if chars.len() != 4 {
        proof {
            assert(ext@.map_values(|c: char| ascii_lower(c)).len() != 4);
        }
        return false;
    }
    let target = ['j', 's', 'o', 'n'];
    let mut i: usize = 0;
    while i < 4
        invariant
            i <= 4,
            chars@ == ext@,
            chars@.len() == 4,
            target@ == seq!['j', 's', 'o', 'n'],
            forall|j: int| 0 <= j < i ==> ascii_lower(#[trigger] chars@[j]) == target@[j],
        decreases 4 - i,
    {
        let c = chars[i];
        let lower = if 'A' <= c && c <= 'Z' {
            ((c as u32) + 32) as u8 as char
        } else {
            c
        };
        proof {
            if 'A' <= c && c <= 'Z' {
                assert(((c as u32) + 32) as u8 as char == ((c as u32) + 32) as char);
            }
        }
        if lower != target[i] {
            proof {
                assert(ext@.map_values(|c: char| ascii_lower(c))[i as int] != seq!['j', 's', 'o', 'n'][i as int]);
            }
            return false;
        }
        i = i + 1;
    }
    proof {
        assert(ext@.map_values(|c: char| ascii_lower(c)) =~= seq!['j', 's', 'o', 'n']);
    }
    true
}

/// The path holds a dot followed by the text `e`.
pub open spec fn dotted_in(path: Seq<char>, e: Seq<char>) -> bool {
    exists|i: int|
        0 <= i && i + 1 + e.len() <= path.len() && path[i] == '.' && #[trigger] path.subrange(
            i + 1,
            i + 1 + e.len(),
        ) == e
}

/// What holds of every extension that `Path::extension` can give for a
/// path, whatever the platform's separators: it is the text after the last
/// dot of the file name, so it holds no dot and follows a dot in the path.
pub open spec fn path_extension_ok(path: Seq<char>, ext: Option<Seq<char>>) -> bool {
    ext matches Some(e) ==> !e.contains('.') && dotted_in(path, e)
}

/// A path that every platform reads as one plain file name: no `/`, `\`
/// or `:`, and not `..`.
pub open spec fn plain_path(path: Seq<char>) -> bool {
    !path.contains('/') && !path.contains('\\') && !path.contains(':') && path != seq!['.', '.']
}

/// The position of the last dot among the first `n` characters, or -1.
pub open spec fn last_dot(s: Seq<char>, n: int) -> int
    decreases n,
{
    if n <= 0 {
        -1
    } else if s[n - 1] == '.' {
        n - 1
    } else {
        last_dot(s, n - 1)
    }
}

/// The extension of a plain file name: the text after its last dot, when
/// that dot is not its first character.
pub open spec fn plain_name_extension(name: Seq<char>) -> Option<Seq<char>> {
    let k = last_dot(name, name.len() as int);
    if k <= 0 {
        None
    } else {
        Some(name.subrange(k + 1, name.len() as int))
    }
}

/// An optional string as text.
pub open spec fn opt_text(s: Option<String>) -> Option<Seq<char>> {
    match s {
        Some(v) => Some(v@),
        None => None,
    }
}

/// A path without a dot has no extension.
pub proof fn lemma_undotted_path_has_no_extension(path: Seq<char>, ext: Option<Seq<char>>)
    requires
        path_extension_ok(path, ext),
        !path.contains('.'),
    ensures
        ext is None,
{
    if let Some(e) = ext {
        let i = choose|i: int|
            0 <= i && i + 1 + e.len() <= path.len() && path[i] == '.' && #[trigger] path.subrange(
                i + 1,
                i + 1 + e.len(),
            ) == e;
        assert(path[i] == '.');
    }
}

/// The extension of the last component of a path (`Path::extension`), as
/// text; `None` when there is none or it is not UTF-8. Its documentation
/// makes the extension the text after the final dot of the file name (none
/// when the name has no dot, or only a leading one), so it holds no dot and
/// follows a dot in the path. A plain path (`plain_path`) is its own file
/// name on every platform; for other paths which component is the file name
/// depends on the platform's separators, and that is not claimed.
#[verifier::external_body]
pub(crate) fn file_extension(path: &str) -> (r: Option<String>)
    ensures
        r matches Some(e) ==> !e@.contains('.') && dotted_in(path@, e@),
        plain_path(path@) ==> opt_text(r) == plain_name_extension(path@),
{
    match std::path::Path::new(path).extension() {
        Some(ext) => match ext.to_str() {
            Some(text) => Some(text.to_string()),
            None => None,
        },
        None => None,
    }
}

/// Whether a path names a `.json` file: its extension, as the platform
/// splits paths, is `json` in any ASCII case (`is_json_extension`). A path
/// without a dot never does; a plain file name does exactly when the text
/// after its last (not leading) dot is `json`.
pub fn path_looks_json(path: &str) -> (r: bool)
    ensures
        plain_path(path@) ==> r == (plain_name_extension(path@) matches Some(e)
            && is_json_extension_spec(e)),
        exists|ext: Option<Seq<char>>|
            #![trigger path_extension_ok(path@, ext)]
            path_extension_ok(path@, ext) && r == (ext matches Some(e)
                && is_json_extension_spec(e)),
        !path@.contains('.') ==> !r,
{
    match file_extension(path) {
        Some(ext) => {
            let r = is_json_extension(ext.as_str());
            proof {
                let x = Some(ext@);
                assert(path_extension_ok(path@, x));
                if !path@.contains('.') {
                    lemma_undotted_path_has_no_extension(path@, x);
                }
            }
            r
        },
        None => {
            proof {
                let x: Option<Seq<char>> = None;
                assert(path_extension_ok(path@, x));
            }
            false
        },
    }
}

/// Whether text starts, after whitespace, with `{` or `[`.
pub open spec fn looks_json(content: Seq<char>) -> bool {
    let t = trim_start(content);
    t.len() > 0 && (t[0] == '{' || t[0] == '[')
}

/// Whether text starts, after whitespace, with `{` or `[`.
pub fn content_looks_json(content: &str) -> (r: bool)
    ensures
        r == looks_json(content@),
{
    let chars = chars_of(content);
    let (start, _) = trim_bounds(&chars);
    proof {
        assert(trim_start(chars@) =~= chars@.subrange(start as int, chars@.len() as int));
    }
    start < chars.len() && (chars[start] == '{' || chars[start] == '[')
}

/// The starting event of the timeline.
pub fn initial_event_exec() -> (r: Event)
    ensures
        r == initial_event(),
{
    let zero = Fraction::zero();
    let bpm = Fraction::from_integer(120);
    let bar_length = Fraction::from_integer(4);
    proof {
        lemma_frac_of_view(zero);
        lemma_frac_of_view(bpm);
        lemma_frac_of_view(bar_length);
    }
    let mut e = Event::new(zero);
    e.bpm = Some(bpm);
    e.bar_length = Some(bar_length);
    e.sentence_length = Some(4);
    e
}

/// The BPM of an event, 120 when it sets none.
fn bpm_of(e: &Event) -> (r: Fraction)
    ensures
        r@ == bpm_or_default(*e),
{
    match e.bpm {
        Some(b) => b,
        None => Fraction::from_integer(120),
    }
}

/// The bar length of an event, 4 when it sets none.
fn bar_length_of(e: &Event) -> (r: Fraction)
    ensures
        r@ == bar_length_or_default(*e),
{
    match e.bar_length {
        Some(b) => b,
        None => Fraction::from_integer(4),
    }
}

/// `advance_time` on values.
fn advance_time_exec(t: Fraction, e: &Event, next_bar: Fraction) -> (r: Option<Fraction>)
    ensures
        r matches Some(f) ==> advance_time(t@, *e, next_bar@) == Some(f@),
        r is None <==> advance_time(t@, *e, next_bar@) is None,
{
    let bpm = bpm_of(e);
    if *bpm.numer() == 0 {
        return None;
    }
    let delta = match next_bar.checked_sub(e.bar) {
        Some(v) => v,
        None => return None,
    };
    let a = match delta.checked_mul(bar_length_of(e)) {
        Some(v) => v,
        None => return None,
    };
    let b = match a.checked_mul(Fraction::from_integer(60)) {
        Some(v) => v,
        None => return None,
    };
    let c = match b.checked_div(bpm) {
        Some(v) => v,
        None => return None,
    };
    let s = match t.checked_add(c) {
        Some(v) => v,
        None => return None,
    };
    s.checked_limit_denominator(TIME_DENOMINATOR_LIMIT)
}

/// `time_from_entry` on values.
fn time_from_entry_exec(t: Fraction, e: &Event, bar: Fraction) -> (r: Option<Fraction>)
    ensures
        r matches Some(f) ==> time_from_entry(t@, *e, bar@) == Some(f@),
        r is None <==> time_from_entry(t@, *e, bar@) is None,
{
    let bpm = bpm_of(e);
    if *bpm.numer() == 0 {
        return None;
    }
    let a = match bar_length_of(e).checked_mul(Fraction::from_integer(60)) {
        Some(v) => v,
        None => return None,
    };
    let b = match a.checked_div(bpm) {
        Some(v) => v,
        None => return None,
    };
    let delta = match bar.checked_sub(e.bar) {
        Some(v) => v,
        None => return None,
    };
    let c = match b.checked_mul(delta) {
        Some(v) => v,
        None => return None,
    };
    let s = match t.checked_add(c) {
        Some(v) => v,
        None => return None,
    };
    s.checked_limit_denominator(TIME_DENOMINATOR_LIMIT)
}

/// The timeline of `events`, or `None` when its arithmetic leaves `i64`.
pub fn compute_timeline(events: &Vec<Event>) -> (r: Option<Vec<(Fraction, Event)>>)
    ensures
        r matches Some(v) ==> timeline(events@) == Some(v@),
        r is None <==> timeline(events@) is None,
{
    let mut timed: Vec<(Fraction, Event)> = Vec::new();
    let mut t = Fraction::zero();
    let mut e = initial_event_exec();
    let mut k: usize = 0;
    while k < events.len()
        invariant
            k <= events.len(),
            timeline_state(events@, k as int) == Some((t@, e)),
            timed@.len() == k,
            forall|i: int|
                0 <= i < k ==> #[trigger] timed@[i] == (
                    frac_of((timeline_state(events@, i + 1)->0).0),
                    (timeline_state(events@, i + 1)->0).1,
                ),
        decreases events.len() - k,
    {
        let event = &events[k];
        match advance_time_exec(t, &e, event.bar) {
            None => {
                proof {
                    lemma_timeline_none(events@, k as int + 1, events@.len() as int);
                }
                return None;
            },
            Some(t2) => {
                t = t2;
            },
        }
        e = e.merge(event);
        proof {
            lemma_frac_of_view(t);
        }
        timed.push((t, e.copied()));
        k = k + 1;
    }
    if timed.len() == 0 {
        let zero = Fraction::zero();
        proof {
            lemma_frac_of_view(zero);
        }
        timed.push((zero, e));
        proof {
            assert(timed@ =~= seq![(frac_of((0, 1)), initial_event())]);
        }
    } else {
        proof {
            assert(timed@ =~= timeline(events@)->0);
        }
    }
    Some(timed)
}

/// The index of the timeline entry in force at `bar`.
fn timed_event_index(timed: &Vec<(Fraction, Event)>, bar: Fraction) -> (r: usize)
    requires
        timed@.len() > 0,
    ensures
        r == entry_index(timed@, bar@),
        r < timed@.len(),
{
    let mut n = timed.len();
    while n > 0
        invariant
            n <= timed@.len(),
            last_entry_at_or_before(timed@, bar@, timed@.len() as int)
                == last_entry_at_or_before(timed@, bar@, n as int),
        decreases n,
    {
        if timed[n - 1].1.bar.le(&bar) {
            return n - 1;
        }
        n = n - 1;
    }
    0
}

/// Inserts `x` into `v`, which is sorted by bar, after every event it does not precede.
pub fn insert_event(v: &mut Vec<Event>, x: Event)
    ensures
        final(v)@ == insert_stable(x, old(v)@, event_before()),
{
    let mut k: usize = 0;
    while k < v.len() && !x.bar.lt(&v[k].bar)
        invariant
            k <= v.len(),
            v@ == old(v)@,
            forall|j: int| 0 <= j < k ==> !(event_before())(x, #[trigger] v@[j]),
        decreases v.len() - k,
    {
        k = k + 1;
    }
    proof {
        lemma_insert_stable_at(x, v@, event_before(), k as int);
    }
    v.insert(k, x);
    proof {
        assert(v@ =~= old(v)@.subrange(0, k as int) + seq![x] + old(v)@.subrange(
            k as int,
            old(v)@.len() as int,
        ));
    }
}

/// The events sorted by bar; events at one bar keep their order.
pub fn sort_events(events: &Vec<Event>) -> (r: Vec<Event>)
    ensures
        r@ == sort_stable(events@, event_before()),
{
    let mut sorted: Vec<Event> = Vec::new();
    let mut k: usize = 0;
    while k < events.len()
        invariant
            k <= events.len(),
            sorted@ == sort_stable(events@.subrange(0, k as int), event_before()),
        decreases events.len() - k,
    {
        proof {
            lemma_sort_stable_step(events@, k as int, event_before());
        }
        insert_event(&mut sorted, events[k].copied());
        k = k + 1;
    }
    proof {
        assert(events@.subrange(0, k as int) =~= events@);
    }
    sorted
}

/// The events with each event equal to the one kept before it dropped.
fn dedup_events_exec(events: &Vec<Event>) -> (r: Vec<Event>)
    ensures
        r@ == dedup_events(events@),
{
    let mut merged: Vec<Event> = Vec::new();
    let mut k: usize = 0;
    while k < events.len()
        invariant
            k <= events.len(),
            merged@ == dedup_events(events@.subrange(0, k as int)),
        decreases events.len() - k,
    {
        let event = &events[k];
        proof {
            assert(events@.subrange(0, k as int + 1).drop_last() =~= events@.subrange(0, k as int));
            assert(events@.subrange(0, k as int + 1).last() == events@[k as int]);
        }
        let n = merged.len();
        if n > 0 && merged[n - 1].same_as(event) {
            k = k + 1;
            continue;
        }
        merged.push(event.copied());
        k = k + 1;
    }
    proof {
        assert(events@.subrange(0, k as int) =~= events@);
    }
    merged
}

impl Default for Score {
    /// An empty score (as `new`).
    fn default() -> (r: Score)
        ensures
            r.meta@ == empty_meta(),
            r.notes@.len() == 0,
            r.active_notes@.len() == 0,
            r.events@.len() == 0,
            r.timed_events_cache is None,
    {
        Score::new()
    }
}

impl Score {
    /// An empty score.
    pub fn new() -> (r: Score)
        ensures
            r.meta@ == empty_meta(),
            r.notes@.len() == 0,
            r.active_notes@.len() == 0,
            r.events@.len() == 0,
            r.timed_events_cache is None,
    {
        Score {
            meta: Meta::new(),
            notes: Vec::new(),
            active_notes: Vec::new(),
            events: Vec::new(),
            timed_events_cache: None,
        }
    }

    /// The cached timeline, when there is one, is that of the events.
    pub open spec fn cache_ok(&self) -> bool {
        match self.timed_events_cache {
            None => true,
            Some(c) => timeline(self.events@) == Some(c@),
        }
    }

    /// Loads the items of the lines into this score, then links the notes
    /// and normalizes the events; `false` when a speed change has no
    /// position (a zero tick resolution or a position out of range).
    fn init_by_lines(&mut self, lines: &[Line]) -> (ok: bool)
        requires
            lines_ok(line_views(lines@)),
        ensures
            ok == load_lines(line_views(lines@)) is Some,
            ok ==> loaded_from(*final(self), load_lines(line_views(lines@))->0),
            ok ==> arena_wf(final(self).notes@),
            ok ==> forall|i: int|
                0 <= i < final(self).active_notes@.len() ==> #[trigger] final(self).active_notes@[i]
                    < final(self).notes@.len(),
    {
        self.meta = Meta::new();
        self.notes = Vec::new();
        self.events = Vec::new();
        self.timed_events_cache = None;
        let mut bpm_definitions: Vec<BpmDefinition> = Vec::new();
        let mut ticks_per_beat: i32 = TicksPerBeat::default_value().0;
        let ghost lv = line_views(lines@);
        let ghost all = lines_items(lv);
        let n = lines.len();
        proof {
            assert(lv.subrange(0, 0) =~= Seq::<LineView>::empty());
        }
        let mut li: usize = 0;
        while li < n
            invariant
                li <= n,
                n == lines@.len(),
                lv == line_views(lines@),
                all == lines_items(lv),
                lines_ok(lv),
                lines_items(lv.subrange(0, li as int)).len() <= all.len(),
                load_items(all, lines_items(lv.subrange(0, li as int)).len() as int) == Some(
                    (
                        self.meta@,
                        ticks_per_beat as int,
                        bpm_definitions@,
                        self.events@,
                        self.notes@,
                    ),
                ),
                self.timed_events_cache is None,
                forall|i: int| 0 <= i < self.notes@.len() ==> #[trigger] unlinked(self.notes@[i]),
            decreases n - li,
        {
            let ghost base = lines_items(lv.subrange(0, li as int)).len() as int;
            let ghost here = spec_parse_line(lv[li as int].0, lv[li as int].1, lv[li as int].2);
            proof {
                lemma_lines_items_at(lv, li as int);
                let next = lines_items(lv.subrange(0, li as int + 1));
                assert(next.len() == base + here.len());
                assert forall|x: int| 0 <= x < here.len() implies all[base + x] == #[trigger] here[x] by {
                    assert(next[base + x] == here[x]);
                    assert(all[base + x] == next[base + x]);
                }
                assert(line_ok(lv[li as int].0, lv[li as int].1, lv[li as int].2));
                lemma_parse_line_unlinked(lv[li as int].0, lv[li as int].1, lv[li as int].2);
            }
            let items = lines[li].parse();
            proof {
                assert(items@.map_values(|i: ParsedItem| i@) == here);
            }
            let mut ki: usize = 0;
            while ki < items.len()
                invariant
                    ki <= items@.len(),
                    0 <= base,
                    li < n,
                    n == lines@.len(),
                    lv == line_views(lines@),
                    all == lines_items(lv),
                    lines_ok(lv),
                    base == lines_items(lv.subrange(0, li as int)).len(),
                    base + here.len() == lines_items(lv.subrange(0, li as int + 1)).len(),
                    base + items@.len() <= all.len(),
                    items@.map_values(|i: ParsedItem| i@) == here,
                    forall|x: int| 0 <= x < here.len() ==> all[base + x] == #[trigger] here[x],
                    load_items(all, base + ki) == Some(
                        (
                            self.meta@,
                            ticks_per_beat as int,
                            bpm_definitions@,
                            self.events@,
                            self.notes@,
                        ),
                    ),
                    self.timed_events_cache is None,
                    items_unlinked(here),
                    forall|i: int| 0 <= i < self.notes@.len() ==> #[trigger] unlinked(self.notes@[i]),
                decreases items@.len() - ki,
            {
                proof {
                    assert(all[base + ki] == here[ki as int]);
                    assert(items@.map_values(|i: ParsedItem| i@)[ki as int] == items@[ki as int]@);
                }
                let ghost st = (
                    self.meta@,
                    ticks_per_beat as int,
                    bpm_definitions@,
                    self.events@,
                    self.notes@,
                );
                let ok = load_item_exec(
                    &mut self.meta,
                    &mut ticks_per_beat,
                    &mut bpm_definitions,
                    &mut self.events,
                    &mut self.notes,
                    &items[ki],
                );
                if !ok {
                    proof {
                        assert(load_items(all, base + ki) == Some(st));
                        assert(all[base + ki] == items@[ki as int]@);
                        assert(load_item(st, items@[ki as int]@) is None);
                        assert(load_items(all, base + ki + 1) is None);
                        lemma_load_none(all, base + ki + 1, all.len() as int);
                    }
                    return false;
                }
                proof {
                    let item = here[ki as int];
                    assert(match item {
                        ItemView::Note(n) => unlinked(n),
                        _ => true,
                    });
                    assert forall|i: int| 0 <= i < self.notes@.len() implies #[trigger] unlinked(
                        self.notes@[i],
                    ) by {
                        if i < st.4.len() {
                            assert(self.notes@[i] == st.4[i]);
                        }
                    }
                }
                ki = ki + 1;
            }
            li = li + 1;
        }
        proof {
            assert(lv.subrange(0, n as int) =~= lv);
            assert(load_lines(lv) == Some(
                (self.meta@, ticks_per_beat as int, bpm_definitions@, self.events@, self.notes@),
            ));
        }
        let ghost loaded_events = self.events@;
        let ghost loaded_notes = self.notes@;
        proof {
            assert forall|i: int| 0 <= i < loaded_notes.len() implies #[trigger] links_ok(
                loaded_notes[i],
                loaded_notes.len() as int,
            ) by {
                assert(unlinked(loaded_notes[i]));
            }
        }
        self.init_notes();
        let ghost with_invalid = self.events@;
        let ghost extra = with_invalid.subrange(loaded_events.len() as int, with_invalid.len() as int);
        proof {
            assert(events_view(with_invalid).len() == with_invalid.len());
            assert(events_view(loaded_events).len() == loaded_events.len());
            assert(with_invalid =~= loaded_events + extra);
            assert forall|j: int| 0 <= j < extra.len() implies #[trigger] events_view(extra)[j]
                == events_view(with_invalid)[loaded_events.len() + j] by {
                assert(extra[j] == with_invalid[loaded_events.len() + j]);
            }
            assert(events_view(extra) =~= events_view(with_invalid).subrange(
                loaded_events.len() as int,
                with_invalid.len() as int,
            ));
            assert(events_view(extra) =~= invalid_note_events(
                sort_stable(loaded_notes, note_before()),
                loaded_notes.len() as int,
            ));
        }
        self.init_events();
        proof {
            let st = load_lines(line_views(lines@))->0;
            assert(st.3 == loaded_events);
            assert(st.4 == loaded_notes);
            assert(self.events@ == normalized_events(st.3 + extra));
            assert(events_view(extra) == invalid_note_events(
                sort_stable(st.4, note_before()),
                st.4.len() as int,
            ));
        }
        true
    }

    /// Parses `.sus` text: every line is split and parsed, the items load
    /// in order, then the notes are linked and the events normalized.
    pub fn parse(content: &str) -> (r: Score)
        requires
            parse_ok(content@),
        ensures
            loaded_from(r, load_lines(content_lines(content@))->0),
            arena_wf(r.notes@),
            forall|i: int| 0 <= i < r.active_notes@.len() ==> #[trigger] r.active_notes@[i] < r.notes@.len(),
    {
        match Score::try_parse(content) {
            Some(s) => s,
            None => Score::new(),
        }
    }

    /// `parse`, or `None` when a line does not parse or a speed change has
    /// no position.
    pub fn try_parse(content: &str) -> (r: Option<Score>)
        ensures
            r is Some <==> parse_ok(content@),
            r matches Some(s) ==> loaded_from(s, load_lines(content_lines(content@))->0),
            r matches Some(s) ==> arena_wf(s.notes@),
            r matches Some(s) ==> forall|i: int|
                0 <= i < s.active_notes@.len() ==> #[trigger] s.active_notes@[i] < s.notes@.len(),
    {
        let chars = chars_of(content);
        let raw_lines = split_lines(&chars);
        let mut parsed_lines: Vec<Line> = Vec::new();
        let mut all_ok = true;
        let mut k: usize = 0;
        while k < raw_lines.len()
            invariant
                k <= raw_lines@.len(),
                raw_lines@.map_values(|l: Vec<char>| l@) == lines(chars@),
                chars@ == content@,
                line_views(parsed_lines@) == content_lines(content@).subrange(0, k as int),
                all_ok == lines_ok(line_views(parsed_lines@)),
            decreases raw_lines@.len() - k,
        {
            let text = string_of(raw_lines[k].as_slice());
            let line = Line::new(text.as_str());
            proof {
                assert(raw_lines@[k as int]@ == lines(chars@)[k as int]);
            }
            let line_ok_here = line.is_parsable();
            let ghost before = line_views(parsed_lines@);
            parsed_lines.push(line);
            proof {
                assert(line_views(parsed_lines@) =~= before.push((line.line_type, line.header@, line.data@)));
                assert(line_views(parsed_lines@) =~= content_lines(content@).subrange(0, k as int + 1));
                if all_ok && line_ok_here {
                    assert(lines_ok(line_views(parsed_lines@)));
                } else if !line_ok_here {
                    assert(!line_ok(
                        line_views(parsed_lines@)[k as int].0,
                        line_views(parsed_lines@)[k as int].1,
                        line_views(parsed_lines@)[k as int].2,
                    ));
                } else {
                    let bad = choose|i: int|
                        0 <= i < before.len() && !line_ok(
                            #[trigger] before[i].0,
                            before[i].1,
                            before[i].2,
                        );
                    assert(line_views(parsed_lines@)[bad] == before[bad]);
                }
            }
            all_ok = all_ok && line_ok_here;
            k = k + 1;
        }
        proof {
            assert(content_lines(content@).subrange(0, k as int) =~= content_lines(content@));
        }
        if !all_ok {
            return None;
        }
        let mut score = Score::new();
        if score.init_by_lines(parsed_lines.as_slice()) {
            Some(score)
        } else {
            None
        }
    }

    /// Links the notes: sorts them by bar (notes at one bar keep their
    /// order), drops the notes outside the playable lanes (adding an event
    /// for each), merges free taps and directionals into the directional or
    /// slide that shares their slot, chains each slide to the next one of its
    /// channel, and lists the notes left standing.
    pub fn init_notes(&mut self)
        ensures
            final(self).notes@ == link_notes(sort_stable(old(self).notes@, note_before())).0,
            final(self).active_notes@ == active_indices(
                link_notes(sort_stable(old(self).notes@, note_before())).1,
                old(self).notes@.len() as int,
            ),
            events_view(final(self).events@) == events_view(old(self).events@)
                + invalid_note_events(
                sort_stable(old(self).notes@, note_before()),
                old(self).notes@.len() as int,
            ),
            final(self).events@.subrange(0, old(self).events@.len() as int) == old(self).events@,
            final(self).notes@.len() == old(self).notes@.len(),
            final(self).meta == old(self).meta,
            final(self).timed_events_cache == old(self).timed_events_cache,
            arena_wf(old(self).notes@) ==> arena_wf(final(self).notes@),
            forall|i: int|
                0 <= i < final(self).active_notes@.len() ==> #[trigger] final(self).active_notes@[i]
                    < final(self).notes@.len(),
    {
        let ghost old_notes = self.notes@;
        let sorted = sort_notes(&self.notes);
        proof {
            lemma_sort_stable_len(old_notes, note_before());
            lemma_sort_stable_elements(old_notes, note_before());
            if arena_wf(old_notes) {
                assert forall|k: int| 0 <= k < sorted@.len() implies #[trigger] links_ok(
                    sorted@[k],
                    sorted@.len() as int,
                ) by {
                    assert(old_notes.contains(sorted@[k]));
                    let j = choose|j: int| 0 <= j < old_notes.len() && old_notes[j] == sorted@[k];
                    assert(links_ok(old_notes[j], old_notes.len() as int));
                }
            }
        }
        self.notes = sorted;
        let mut note_deleted = index_valid_notes(&self.notes, &mut self.events);
        proof {
            assert(events_view(self.events@) == self.events@.map_values(|e: Event| e@));
            assert(note_deleted@.len() == self.notes@.len());
        }
        link_directional_attachments(&mut self.notes, &mut note_deleted);
        link_slides(&mut self.notes, &mut note_deleted);
        self.active_notes = active_of(&note_deleted);
        proof {
            lemma_active_indices(note_deleted@, note_deleted@.len() as int);
        }
    }

    /// Sorts the events by bar (events at one bar keep their order), drops
    /// each event identical to the one kept just before it, and forgets the
    /// cached timeline.
    pub fn init_events(&mut self)
        ensures
            final(self).events@ == normalized_events(old(self).events@),
            final(self).timed_events_cache is None,
            final(self).meta == old(self).meta,
            final(self).notes == old(self).notes,
            final(self).active_notes == old(self).active_notes,
    {
        let sorted = sort_events(&self.events);
        self.events = dedup_events_exec(&sorted);
        self.timed_events_cache = None;
    }

    /// The timeline: for each event the elapsed time at it and the event in
    /// force there (computed once and kept).
    pub fn timed_events(&mut self) -> (r: &Vec<(Fraction, Event)>)
        requires
            old(self).cache_ok(),
            timeline(old(self).events@) is Some,
        ensures
            timeline(old(self).events@) == Some(r@),
            final(self).timed_events_cache matches Some(c) && c@ == r@,
            final(self).cache_ok(),
            final(self).events == old(self).events,
            final(self).meta == old(self).meta,
            final(self).notes == old(self).notes,
            final(self).active_notes == old(self).active_notes,
    {
        if self.timed_events_cache.is_none() {
            self.timed_events_cache = compute_timeline(&self.events);
        }
        self.timed_events_cache.as_ref().unwrap()
    }

    /// The elapsed time at `bar`, or `None` when its arithmetic leaves `i64`.
    pub fn checked_time(&mut self, bar: Fraction) -> (r: Option<Fraction>)
        requires
            old(self).cache_ok(),
        ensures
            r matches Some(f) ==> time_at_bar(old(self).events@, bar@) == Some(f@),
            r is None <==> time_at_bar(old(self).events@, bar@) is None,
            final(self).cache_ok(),
            final(self).events == old(self).events,
            final(self).meta == old(self).meta,
            final(self).notes == old(self).notes,
            final(self).active_notes == old(self).active_notes,
    {
        if self.timed_events_cache.is_none() {
            self.timed_events_cache = compute_timeline(&self.events);
        }
        match &self.timed_events_cache {
            None => None,
            Some(timed) => {
                let idx = timed_event_index(timed, bar);
                time_from_entry_exec(timed[idx].0, &timed[idx].1, bar)
            },
        }
    }

    /// The event in force at `bar`, or `None` when the timeline's arithmetic
    /// leaves `i64`.
    pub fn checked_event(&mut self, bar: Fraction) -> (r: Option<Event>)
        requires
            old(self).cache_ok(),
        ensures
            r is None <==> timeline(old(self).events@) is None,
            r matches Some(e) ==> e == event_at_bar(old(self).events@, bar@),
            final(self).cache_ok(),
            final(self).events == old(self).events,
            final(self).meta == old(self).meta,
            final(self).notes == old(self).notes,
            final(self).active_notes == old(self).active_notes,
    {
        if self.timed_events_cache.is_none() {
            self.timed_events_cache = compute_timeline(&self.events);
        }
        match &self.timed_events_cache {
            None => None,
            Some(timed) => {
                let idx = timed_event_index(timed, bar);
                Some(timed[idx].1.copied())
            },
        }
    }

    /// The elapsed time at `bar` and the event in force there.
    pub fn get_timed_event(&mut self, bar: Fraction) -> (r: (Fraction, Event))
        requires
            old(self).cache_ok(),
            time_at_bar(old(self).events@, bar@) is Some,
        ensures
            time_at_bar(old(self).events@, bar@) == Some(r.0@),
            r.1 == event_at_bar(old(self).events@, bar@),
            final(self).cache_ok(),
            final(self).events == old(self).events,
            final(self).meta == old(self).meta,
            final(self).notes == old(self).notes,
            final(self).active_notes == old(self).active_notes,
    {
        let timed = self.timed_events();
        let idx = timed_event_index(timed, bar);
        let t = timed[idx].0;
        let e = &timed[idx].1;
        let time = match time_from_entry_exec(t, e, bar) {
            Some(x) => x,
            None => t,
        };
        (time, e.copied())
    }

    /// The elapsed time (in seconds) at `bar`.
    pub fn get_time(&mut self, bar: Fraction) -> (r: Fraction)
        requires
            old(self).cache_ok(),
            time_at_bar(old(self).events@, bar@) is Some,
        ensures
            time_at_bar(old(self).events@, bar@) == Some(r@),
            final(self).cache_ok(),
            final(self).events == old(self).events,
            final(self).meta == old(self).meta,
            final(self).notes == old(self).notes,
            final(self).active_notes == old(self).active_notes,
    {
        self.get_timed_event(bar).0
    }

    /// The event in force at `bar`.
    pub fn get_event(&mut self, bar: Fraction) -> (r: Event)
        requires
            old(self).cache_ok(),
            time_at_bar(old(self).events@, bar@) is Some,
        ensures
            r == event_at_bar(old(self).events@, bar@),
            final(self).cache_ok(),
            final(self).events == old(self).events,
            final(self).meta == old(self).meta,
            final(self).notes == old(self).notes,
            final(self).active_notes == old(self).active_notes,
    {
        self.get_timed_event(bar).1
    }

    /// The elapsed time at `bar` brought to a denominator of at most a
    /// million (the precision used for drawing), or `None` when the
    /// arithmetic leaves `i64` or `i128`.
    pub fn checked_limited_time(&mut self, bar: Fraction) -> (r: Option<Fraction>)
        requires
            old(self).cache_ok(),
        ensures
            r matches Some(f) ==> time_at_bar(old(self).events@, bar@) matches Some(t) && Some(f@)
                == spec_limit_denominator(t, 1_000_000),
            r is None <==> (time_at_bar(old(self).events@, bar@) matches Some(t)
                ==> spec_limit_denominator(t, 1_000_000) is None),
            final(self).cache_ok(),
            final(self).events == old(self).events,
            final(self).meta == old(self).meta,
            final(self).notes == old(self).notes,
            final(self).active_notes == old(self).active_notes,
    {
        match self.checked_time(bar) {
            None => None,
            Some(t) => t.checked_limit_denominator(1_000_000),
        }
    }

    /// The time elapsed between `bar_from` and `bar_to`.
    pub fn get_time_delta(&mut self, bar_from: Fraction, bar_to: Fraction) -> (r: Fraction)
        requires
            old(self).cache_ok(),
            time_at_bar(old(self).events@, bar_from@) is Some,
            time_at_bar(old(self).events@, bar_to@) is Some,
            pair_fits(
                frac_sub(
                    time_at_bar(old(self).events@, bar_to@)->0,
                    time_at_bar(old(self).events@, bar_from@)->0,
                ),
            ),
        ensures
            r@ == frac_sub(
                time_at_bar(old(self).events@, bar_to@)->0,
                time_at_bar(old(self).events@, bar_from@)->0,
            ),
            final(self).cache_ok(),
            final(self).events == old(self).events,
            final(self).meta == old(self).meta,
            final(self).notes == old(self).notes,
            final(self).active_notes == old(self).active_notes,
    {
        let to = self.get_time(bar_to);
        let from = self.get_time(bar_from);
        to.sub(from)
    }
}

} // verus!
