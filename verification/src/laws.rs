//! Properties that hold across the operations of the library.
use crate::arith::is_canonical;
use crate::fraction::closest::{
    frac_no_farther, lemma_limit_denominator_closest, lemma_limit_denominator_monotone,
};
use crate::score::timing::{lemma_time_at_bar_monotone, timing_events_ok};
use crate::fraction::{frac_add, frac_le, frac_lt, spec_limit_denominator};
use crate::line::{
    base36_value, first_or_zero, spec_parse_line, ItemView, LineType, RE_BPM_DEF, RE_BPM_REF,
    RE_DECO_SLIDE, RE_DIRECTIONAL, RE_EVENT, RE_SLIDE, RE_TAP, RE_TIL,
};
use crate::meta::{meta_set, merge_meta, MetaView};
use crate::notes::{base_of, note_critical, note_trend, NO_NOTE};
use crate::pattern::{group, regex_captures};
use crate::rebase::rebased_upto;
use crate::score_json::building::{standalone_step, Builder};
use crate::score_json::{spec_note_slot, spec_tap_type, RawNote, TickSegment};
use crate::sheet::image_number;
use crate::notes::event::{merge_events, Event};
use crate::notes::NoteData;
use crate::score::linking::{
    active_indices, dropped_note, dropped_note_event, invalid_note_events, last_tap_match,
    lemma_active_indices, lemma_active_indices_complete, lemma_invalid_note_events_filter,
    lemma_link_notes_removed, link_directional_step, link_notes, note_before, removed, same_shape,
    share_slot, tap_match, with_directional_tap,
};
use crate::score::{
    time_at_bar, dedup_events, event_before, last_entry_at_or_before, lemma_dedup_events_from_input,
    lemma_dedup_events_no_repeats, normalized_events,
};
use crate::sheet::{escape_char, escaped, lemma_columns_tile, sheet_columns};
use crate::sorting::{
    all_valid, lemma_sort_stable_elements, lemma_sort_stable_sorted, sort_stable, sorted_by,
    strict_order_on,
};
use vstd::prelude::*;

verus! {

/// Normalizing the events of a score never leaves an event right after an
/// identical one.
pub proof fn law_normalized_events_no_repeats(events: Seq<Event>)
    ensures
        forall|i: int|
            0 <= i < normalized_events(events).len() - 1 ==> #[trigger] normalized_events(events)[i]@
                != normalized_events(events)[i + 1]@,
{
    lemma_dedup_events_no_repeats(sort_stable(events, event_before()));
}

/// Normalizing the events of a score keeps only events it had.
pub proof fn law_normalized_events_from_input(events: Seq<Event>)
    ensures
        normalized_events(events).len() <= events.len(),
        forall|i: int|
            0 <= i < normalized_events(events).len() ==> events.contains(
                #[trigger] normalized_events(events)[i],
            ),
{
    let sorted = sort_stable(events, event_before());
    crate::sorting::lemma_sort_stable_len(events, event_before());
    lemma_sort_stable_elements(events, event_before());
    lemma_dedup_events_from_input(sorted);
    assert forall|i: int| 0 <= i < normalized_events(events).len() implies events.contains(
        #[trigger] normalized_events(events)[i],
    ) by {
        let e = dedup_events(sorted)[i];
        assert(sorted.contains(e));
        let k = choose|k: int| 0 <= k < sorted.len() && sorted[k] == e;
        assert(events.contains(sorted[k]));
    }
}

/// An event merged with itself is itself.
pub proof fn law_merge_idempotent(e: Event)
    ensures
        merge_events(e, e) == e,
{
}

/// Adding fractions does not depend on their order.
pub proof fn law_frac_add_commutative(a: (int, int), b: (int, int))
    ensures
        frac_add(a, b) == frac_add(b, a),
{
    assert(a.0 * b.1 + b.0 * a.1 == b.0 * a.1 + a.0 * b.1);
    assert(a.1 * b.1 == b.1 * a.1) by (nonlinear_arith);
}

/// The timeline entry found for a bar is the last one at or before it: it
/// is not after the bar, and every later entry is.
pub proof fn law_entry_is_last_at_or_before(
    timed: Seq<(crate::fraction::Fraction, Event)>,
    bar: (int, int),
    n: int,
)
    requires
        n <= timed.len(),
    ensures
        last_entry_at_or_before(timed, bar, n) >= 0 ==> frac_le(
            timed[last_entry_at_or_before(timed, bar, n)].1.bar@,
            bar,
        ),
        forall|j: int|
            last_entry_at_or_before(timed, bar, n) < j < n ==> !frac_le(
                #[trigger] timed[j].1.bar@,
                bar,
            ),
    decreases n,
{
    if n > 0 {
        law_entry_is_last_at_or_before(timed, bar, n - 1);
    }
}

/// The tap a directional takes when linking shares its slot, is a tap,
/// and leaves the standing notes; every other free tap of the slot leaves too.
pub proof fn law_directional_takes_slot_tap(notes: Seq<NoteData>, del: Seq<bool>, i: int)
    requires
        0 <= i < notes.len(),
        del.len() == notes.len(),
        !del[i],
        notes[i] is Directional,
    ensures
        ({
            let t = last_tap_match(notes, del, i, notes.len() as int);
            let st = link_directional_step((notes, del), i);
            &&& t >= 0 ==> st.0[i] == with_directional_tap(notes[i], t as usize)
            &&& t >= 0 ==> share_slot(notes[i], notes[t]) && notes[t] is Tap && st.1[t]
            &&& forall|j: int| 0 <= j < notes.len() && #[trigger] tap_match(notes, del, i, j) ==> st.1[j]
        }),
{
    lemma_last_tap_match(notes, del, i, notes.len() as int);
}

/// `last_tap_match` finds a matching tap below its bound.
proof fn lemma_last_tap_match(notes: Seq<NoteData>, del: Seq<bool>, i: int, k: int)
    requires
        k <= notes.len(),
    ensures
        last_tap_match(notes, del, i, k) >= 0 ==> last_tap_match(notes, del, i, k) < k && tap_match(
            notes,
            del,
            i,
            last_tap_match(notes, del, i, k),
        ),
    decreases k,
{
    if k > 0 {
        lemma_last_tap_match(notes, del, i, k - 1);
    }
}

/// The columns of the sheet tile the chart: when its last whole bar is
/// positive, the first column starts at bar 0, the last ends at that bar,
/// every column spans at least one bar, and each ends where the next starts.
pub proof fn law_sheet_columns_tile(events: Seq<Event>, n_bars: int)
    requires
        1 <= n_bars <= i32::MAX,
    ensures
        ({
            let c = sheet_columns(events, n_bars);
            &&& c.len() > 0
            &&& c[0].0 == 0
            &&& c.last().1 == n_bars
            &&& forall|k: int| 0 <= k < c.len() ==> #[trigger] c[k].0 < c[k].1
            &&& forall|k: int| 0 <= k < c.len() - 1 ==> #[trigger] c[k].1 == c[k + 1].0
        }),
{
    lemma_columns_tile(events, n_bars, 0, 0, crate::score::initial_event());
}

/// An event whose bar has a positive denominator, as every fraction's has.
pub open spec fn bar_valid() -> spec_fn(Event) -> bool {
    |e: Event| e.bar@.1 > 0
}

/// `a < b < c` for rationals with positive denominators gives `a < c`.
proof fn lemma_frac_lt_transitive(a: (int, int), b: (int, int), c: (int, int))
    requires
        a.1 > 0,
        b.1 > 0,
        c.1 > 0,
        frac_lt(a, b),
        frac_lt(b, c),
    ensures
        frac_lt(a, c),
{
    assert(a.0 * b.1 * c.1 < b.0 * a.1 * c.1) by (nonlinear_arith)
        requires
            a.0 * b.1 < b.0 * a.1,
            c.1 > 0,
    ;
    assert(b.0 * c.1 * a.1 < c.0 * b.1 * a.1) by (nonlinear_arith)
        requires
            b.0 * c.1 < c.0 * b.1,
            a.1 > 0,
    ;
    assert(a.0 * c.1 < c.0 * a.1) by (nonlinear_arith)
        requires
            a.0 * b.1 * c.1 < b.0 * a.1 * c.1,
            b.0 * c.1 * a.1 < c.0 * b.1 * a.1,
            b.1 > 0,
    ;
}

/// Ordering events by bar is a strict order on events with valid bars.
proof fn lemma_event_before_strict()
    ensures
        strict_order_on(event_before(), bar_valid()),
{
    assert forall|a: Event, b: Event, c: Event|
        (bar_valid())(a) && (bar_valid())(b) && (bar_valid())(c) && #[trigger] (event_before())(
            a,
            b,
        ) && #[trigger] (event_before())(b, c) implies (event_before())(a, c) by {
        lemma_frac_lt_transitive(a.bar@, b.bar@, c.bar@);
    }
}

/// Dropping repeats keeps a sorted sequence of events sorted.
proof fn lemma_dedup_events_sorted(s: Seq<Event>)
    requires
        sorted_by(s, event_before()),
    ensures
        sorted_by(dedup_events(s), event_before()),
    decreases s.len(),
{
    if s.len() > 0 {
        let p = s.drop_last();
        assert(sorted_by(p, event_before())) by {
            assert forall|i: int, j: int| 0 <= i < j < p.len() implies !(event_before())(
                #[trigger] p[j],
                #[trigger] p[i],
            ) by {
                assert(p[i] == s[i]);
                assert(p[j] == s[j]);
            }
        }
        lemma_dedup_events_sorted(p);
        lemma_dedup_events_from_input(p);
        let d = dedup_events(p);
        if !(d.len() > 0 && d.last()@ == s.last()@) {
            let r = d.push(s.last());
            assert forall|i: int, j: int| 0 <= i < j < r.len() implies !(event_before())(
                #[trigger] r[j],
                #[trigger] r[i],
            ) by {
                if j == d.len() {
                    assert(r[i] == d[i]);
                    assert(p.contains(d[i]));
                    let m = choose|m: int| 0 <= m < p.len() && p[m] == d[i];
                    assert(s[m] == d[i]);
                    assert(r[j] == s[s.len() - 1]);
                } else {
                    assert(r[i] == d[i]);
                    assert(r[j] == d[j]);
                }
            }
        }
    }
}

/// The events of a score are kept sorted by bar: normalizing events whose
/// bars are fractions leaves no event after a later one.
pub proof fn law_normalized_events_sorted(events: Seq<Event>)
    requires
        forall|i: int| 0 <= i < events.len() ==> #[trigger] events[i].bar@.1 > 0,
    ensures
        forall|i: int, j: int|
            0 <= i < j < normalized_events(events).len() ==> frac_le(
                #[trigger] normalized_events(events)[i].bar@,
                #[trigger] normalized_events(events)[j].bar@,
            ),
{
    lemma_event_before_strict();
    assert(all_valid(events, bar_valid()));
    lemma_sort_stable_sorted(events, event_before(), bar_valid());
    lemma_dedup_events_sorted(sort_stable(events, event_before()));
    let n = normalized_events(events);
    assert forall|i: int, j: int| 0 <= i < j < n.len() implies frac_le(
        #[trigger] n[i].bar@,
        #[trigger] n[j].bar@,
    ) by {
        assert(!(event_before())(n[j], n[i]));
    }
}

/// Escaped text holds no `<`, `>` or `"`: it cannot open or close markup.
pub proof fn law_escaped_text_has_no_markup(s: Seq<char>)
    ensures
        forall|i: int|
            0 <= i < escaped(s).len() ==> #[trigger] escaped(s)[i] != '<' && escaped(s)[i] != '>'
                && escaped(s)[i] != '"',
    decreases s.len(),
{
    if s.len() > 0 {
        law_escaped_text_has_no_markup(s.drop_last());
        let a = escaped(s.drop_last());
        let b = escape_char(s.last());
        assert(escaped(s) == a + b);
        assert forall|i: int| 0 <= i < escaped(s).len() implies #[trigger] escaped(s)[i] != '<'
            && escaped(s)[i] != '>' && escaped(s)[i] != '"' by {
            if i >= a.len() {
                assert(escaped(s)[i] == b[i - a.len()]);
            } else {
                assert(escaped(s)[i] == a[i]);
            }
        }
    }
}

/// Merging metadata with itself changes nothing.
pub proof fn law_meta_merge_idempotent(m: MetaView)
    ensures
        merge_meta(m, m) == m,
{
}

/// Merging metadata is associative: the first set (nonempty, nonzero) value
/// of each field wins however the merges are grouped.
pub proof fn law_meta_merge_associative(a: MetaView, b: MetaView, c: MetaView)
    ensures
        merge_meta(merge_meta(a, b), c) == merge_meta(a, merge_meta(b, c)),
{
}


/// Setting up the notes of a chart sorts them stably by bar and links them
/// without changing any note's kind or common fields. A note leaves the
/// standing notes exactly when it lies outside the playable lanes, or is a
/// tap in the slot of a directional or a slide, or is a directional in the
/// slot of a slide; the standing notes are listed once each, in increasing
/// order. The events added are, in order, one for each note outside the
/// playable lanes.
pub proof fn law_init_notes_standing(notes: Seq<NoteData>)
    requires
        notes.len() <= usize::MAX,
    ensures
        ({
            let s = sort_stable(notes, note_before());
            let st = link_notes(s);
            let active = active_indices(st.1, notes.len() as int);
            &&& s.len() == notes.len()
            &&& same_shape(st.0, s)
            &&& forall|j: int|
                0 <= j < s.len() ==> (active.contains(j as usize) <==> !removed(s, j))
            &&& forall|i: int| 0 <= i < active.len() ==> #[trigger] active[i] < s.len()
            &&& forall|i: int, j: int| 0 <= i < j < active.len() ==> active[i] < active[j]
            &&& invalid_note_events(s, notes.len() as int) == s.filter(dropped_note()).map_values(
                dropped_note_event(),
            )
        }),
{
    let s = sort_stable(notes, note_before());
    crate::sorting::lemma_sort_stable_len(notes, note_before());
    lemma_link_notes_removed(s);
    let st = link_notes(s);
    lemma_active_indices(st.1, notes.len() as int);
    lemma_active_indices_complete(st.1, notes.len() as int);
    lemma_invalid_note_events_filter(s, notes.len() as int);
    assert(s.take(notes.len() as int) =~= s);
    let active = active_indices(st.1, notes.len() as int);
    assert(same_shape(st.0, s));
    assert forall|j: int| 0 <= j < s.len() implies (active.contains(j as usize) <==> !removed(s, j)) by {
        assert(st.1[j] <==> removed(s, j));
    }
    assert(forall|i: int| 0 <= i < active.len() ==> #[trigger] active[i] < s.len());
    assert(forall|i: int, j: int| 0 <= i < j < active.len() ==> active[i] < active[j]);
}


/// Limiting the denominator of `x` to `max` gives the fraction closest to
/// `x` among all those whose denominator is at most `max`: no `p / q` with
/// `1 <= q <= max` lies nearer.
pub proof fn law_limit_denominator_closest(x: (int, int), max: int, p: int, q: int)
    requires
        x.1 > 0,
        max >= 1,
        1 <= q <= max,
        spec_limit_denominator(x, max) is Some,
    ensures
        frac_no_farther(x, spec_limit_denominator(x, max)->0, (p, q)),
{
    lemma_limit_denominator_closest(x, max, p, q);
}


/// Limiting denominators keeps order: for pairs in lowest terms, `x <= y`
/// gives a limit of `x` that is not after the limit of `y`.
pub proof fn law_limit_denominator_monotone(x: (int, int), y: (int, int), max: int)
    requires
        is_canonical(x),
        is_canonical(y),
        frac_le(x, y),
        max >= 1,
        spec_limit_denominator(x, max) is Some,
        spec_limit_denominator(y, max) is Some,
    ensures
        frac_le(spec_limit_denominator(x, max)->0, spec_limit_denominator(y, max)->0),
{
    lemma_limit_denominator_monotone(x, y, max);
}

/// Elapsed time never decreases along a chart: for events whose bars are
/// not before zero and come in order, and whose BPM and bar length are not
/// negative where set, a later bar never gets an earlier elapsed time.
pub proof fn law_time_at_bar_monotone(events: Seq<Event>, a: (int, int), b: (int, int))
    requires
        timing_events_ok(events),
        is_canonical(a),
        is_canonical(b),
        frac_le(a, b),
        time_at_bar(events, a) is Some,
        time_at_bar(events, b) is Some,
    ensures
        frac_le(time_at_bar(events, a)->0, time_at_bar(events, b)->0),
{
    lemma_time_at_bar_monotone(events, a, b);
}


/// A slide end that carries a flick is drawn as a flick: a slide node of
/// type 2 (end) linked to a directional, neither trend nor critical, gets
/// image 3, the image of every directional note that is neither trend nor
/// critical.
pub proof fn law_flick_slide_end_image(n: NoteData, d: NoteData, arena: Seq<NoteData>)
    requires
        n matches NoteData::Slide(b, s) && b.note_type == 2 && s.directional_idx != NO_NOTE,
        !note_trend(n, arena),
        !note_critical(n, arena),
        d is Directional,
        !note_trend(d, arena),
        !note_critical(d, arena),
    ensures
        image_number(n, arena) == 3,
        image_number(n, arena) == image_number(d, arena),
{
}

/// Notes that are neither trend nor critical are drawn by kind: a tap with
/// image 2, and a slide node that is not a flick end with image 1.
pub proof fn law_plain_note_images(n: NoteData, arena: Seq<NoteData>)
    requires
        !note_trend(n, arena),
        !note_critical(n, arena),
    ensures
        n is Tap ==> image_number(n, arena) == 2,
        (n matches NoteData::Slide(b, s) && (b.note_type != 2 || s.directional_idx == NO_NOTE))
            ==> image_number(n, arena) == 1,
{
}

/// A standalone flick (base type 3 or category 3) whose slot holds no
/// connected note is built as a tap of the note's own tap type (critical
/// when the note is critical) followed by a standing directional that
/// carries that tap.
pub proof fn law_standalone_flick_keeps_tap_type(
    segs: Seq<TickSegment>,
    b: Builder,
    n: RawNote,
    connected: Seq<(i64, i32, i32)>,
    hidden: Seq<(i64, i32, i32)>,
)
    requires
        n.note_base_type == 3 || n.category == 3,
        !connected.contains(spec_note_slot(n)),
        b.0.len() + 2 <= usize::MAX,
    ensures
        ({
            let r = standalone_step(segs, b, n, connected, hidden);
            let k0 = b.0.len() as int;
            &&& r.0.len() == k0 + 2
            &&& r.0.subrange(0, k0) == b.0
            &&& r.0[k0] is Tap
            &&& base_of(r.0[k0]).note_type as int == spec_tap_type(n, 1)
            &&& (n.critical && n.note_base_type == 3 && n.category != 6) ==> base_of(
                r.0[k0],
            ).note_type == 2
            &&& r.0[k0 + 1] matches NoteData::Directional(_, dd) && dd.tap_idx as int == k0
            &&& r.1 == b.1.push((k0 + 1) as usize)
        }),
{
    let r = standalone_step(segs, b, n, connected, hidden);
    let k0 = b.0.len() as int;
    let t = crate::score_json::building::standalone_type(n, connected, hidden);
    assert(t == spec_tap_type(n, 1));
    let a = crate::score_json::building::add_tap(segs, b.0, n, n, t);
    assert(a.len() == k0 + 1);
    assert(a[k0] is Tap);
    assert(r.0.len() == k0 + 2);
    assert(r.0[k0] == a[k0]);
    assert(base_of(r.0[k0]).note_type == t as i32);
    assert(r.0.subrange(0, k0) =~= b.0);
}

/// A line whose header is a decorated-slide header (`mmm9xy`, which no
/// earlier header pattern matches) declares only slide nodes, each marked as
/// decoration and on the channel the header names.
pub proof fn law_decorated_slide_lines(header: Seq<char>, data: Seq<char>)
    requires
        regex_captures(RE_EVENT@, header) is None,
        regex_captures(RE_BPM_DEF@, header) is None,
        regex_captures(RE_BPM_REF@, header) is None,
        regex_captures(RE_TIL@, header) is None,
        regex_captures(RE_TAP@, header) is None,
        regex_captures(RE_SLIDE@, header) is None,
        regex_captures(RE_DIRECTIONAL@, header) is None,
        regex_captures(RE_DECO_SLIDE@, header) is Some,
    ensures
        forall|k: int|
            0 <= k < spec_parse_line(LineType::Score, header, data).len() ==> (#[trigger] spec_parse_line(
                LineType::Score,
                header,
                data,
            )[k] matches ItemView::Note(NoteData::Slide(_, s)) && s.decoration && s.channel
                == base36_value(
                first_or_zero(group(regex_captures(RE_DECO_SLIDE@, header)->0, 3)),
            ) as i32),
{
}

/// A line whose header is a slide header (`mmm3xy`, which no earlier header
/// pattern matches) declares only slide nodes that are not decoration.
pub proof fn law_plain_slide_lines(header: Seq<char>, data: Seq<char>)
    requires
        regex_captures(RE_EVENT@, header) is None,
        regex_captures(RE_BPM_DEF@, header) is None,
        regex_captures(RE_BPM_REF@, header) is None,
        regex_captures(RE_TIL@, header) is None,
        regex_captures(RE_TAP@, header) is None,
        regex_captures(RE_SLIDE@, header) is Some,
    ensures
        forall|k: int|
            0 <= k < spec_parse_line(LineType::Score, header, data).len() ==> (#[trigger] spec_parse_line(
                LineType::Score,
                header,
                data,
            )[k] matches ItemView::Note(NoteData::Slide(_, s)) && !s.decoration),
{
}

/// The notes rebased for the first `k` active notes begin the notes rebased
/// for the first `m >= k`.
proof fn lemma_rebased_prefix(
    active: Seq<usize>,
    notes: Seq<NoteData>,
    table: Seq<(crate::fraction::Fraction, crate::fraction::Fraction)>,
    k: int,
    m: int,
)
    requires
        0 <= k <= m,
    ensures
        rebased_upto(active, notes, table, k).len() <= rebased_upto(active, notes, table, m).len(),
        rebased_upto(active, notes, table, m).subrange(0, rebased_upto(active, notes, table, k).len() as int)
            == rebased_upto(active, notes, table, k),
    decreases m - k,
{
    let a = rebased_upto(active, notes, table, k);
    if k < m {
        lemma_rebased_prefix(active, notes, table, k, m - 1);
        let b = rebased_upto(active, notes, table, m - 1);
        let c = rebased_upto(active, notes, table, m);
        assert(c == b + crate::rebase::rebased_note(notes[active[m - 1] as int], notes, table));
        assert(c.subrange(0, a.len() as int) =~= b.subrange(0, a.len() as int));
    } else {
        assert(a.subrange(0, a.len() as int) =~= a);
    }
}

/// Rebasing keeps what each note is: the first note emitted for an active
/// note has its kind, lane, width and type; for a slide node it is a slide
/// node on the same channel, and a decoration exactly when the source is.
pub proof fn law_rebase_keeps_slide_kind(
    active: Seq<usize>,
    notes: Seq<NoteData>,
    table: Seq<(crate::fraction::Fraction, crate::fraction::Fraction)>,
    k: int,
)
    requires
        0 <= k < active.len(),
    ensures
        ({
            let out = rebased_upto(active, notes, table, active.len() as int);
            let p = rebased_upto(active, notes, table, k).len() as int;
            &&& p < out.len()
            &&& crate::score::linking::note_kind(out[p]) == crate::score::linking::note_kind(
                notes[active[k] as int],
            )
            &&& base_of(out[p]).lane == base_of(notes[active[k] as int]).lane
            &&& base_of(out[p]).width == base_of(notes[active[k] as int]).width
            &&& base_of(out[p]).note_type == base_of(notes[active[k] as int]).note_type
            &&& notes[active[k] as int] matches NoteData::Slide(b, s) ==> p < out.len() && (
            out[p] matches NoteData::Slide(nb, ns) && ns.channel == s.channel && ns.decoration
                == s.decoration && nb.lane == b.lane && nb.width == b.width && nb.note_type
                == b.note_type)
        }),
{
    let out = rebased_upto(active, notes, table, active.len() as int);
    let pre = rebased_upto(active, notes, table, k);
    let next = rebased_upto(active, notes, table, k + 1);
    let p = pre.len() as int;
    lemma_rebased_prefix(active, notes, table, k + 1, active.len() as int);
    let own = crate::rebase::rebased_note(notes[active[k] as int], notes, table);
    assert(next == pre + own);
    assert(own.len() >= 1);
    assert(next[p] == own[0]);
    assert(out.subrange(0, next.len() as int) == next);
    assert(out[p] == next[p]);
}

/// Setting a field by name stores the given text in that text field (and
/// leaves the other fields shown as they were); a numeric field takes the
/// number its text parses to.
pub proof fn law_meta_set_text_field(m: MetaView, v: Seq<char>)
    ensures
        meta_set(m, "title"@, v).title == Some(v),
        meta_set(m, "subtitle"@, v).subtitle == Some(v),
        meta_set(m, "artist"@, v).artist == Some(v),
        meta_set(m, "artist"@, v).title == m.title,
        meta_set(m, "artist"@, v).genre == m.genre,
        meta_set(m, "genre"@, v).genre == Some(v),
        meta_set(m, "designer"@, v).designer == Some(v),
        meta_set(m, "designer"@, v).artist == m.artist,
        meta_set(m, "difficulty"@, v).difficulty == Some(v),
        meta_set(m, "playlevel"@, v).playlevel == Some(v),
        meta_set(m, "songid"@, v).songid == Some(v),
        meta_set(m, "wave"@, v).wave == Some(v),
        meta_set(m, "waveoffset"@, v).waveoffset == Some(v),
        meta_set(m, "jacket"@, v).jacket == Some(v),
        meta_set(m, "background"@, v).background == Some(v),
        meta_set(m, "movie"@, v).movie == Some(v),
        meta_set(m, "title"@, v).artist == m.artist,
        crate::fraction::spec_parse_fraction(v) is Some ==> meta_set(m, "movieoffset"@, v).movieoffset
            == crate::fraction::spec_parse_fraction(v),
        crate::fraction::spec_parse_fraction(v) is Some ==> meta_set(m, "basebpm"@, v).basebpm
            == crate::fraction::spec_parse_fraction(v),
{
    reveal_strlit("title");
    reveal_strlit("subtitle");
    reveal_strlit("artist");
    reveal_strlit("genre");
    reveal_strlit("designer");
    reveal_strlit("difficulty");
    reveal_strlit("playlevel");
    reveal_strlit("songid");
    reveal_strlit("wave");
    reveal_strlit("waveoffset");
    reveal_strlit("jacket");
    reveal_strlit("background");
    reveal_strlit("movie");
    reveal_strlit("movieoffset");
    reveal_strlit("basebpm");
    assert("title"@.len() == 5);
    assert("subtitle"@.len() == 8);
    assert("artist"@.len() == 6);
    assert("genre"@.len() == 5);
    assert("designer"@.len() == 8);
    assert("difficulty"@.len() == 10);
    assert("playlevel"@.len() == 9);
    assert("songid"@.len() == 6);
    assert("wave"@.len() == 4);
    assert("waveoffset"@.len() == 10);
    assert("jacket"@.len() == 6);
    assert("background"@.len() == 10);
    assert("movie"@.len() == 5);
    assert("subtitle"@ != "title"@);
    assert("artist"@ != "title"@);
    assert("artist"@ != "subtitle"@);
    assert("genre"@[0] != "title"@[0]);
    assert("genre"@ != "title"@);
    assert("genre"@ != "subtitle"@);
    assert("genre"@ != "artist"@);
    assert("designer"@ != "title"@);
    assert("designer"@[0] != "subtitle"@[0]);
    assert("designer"@ != "subtitle"@);
    assert("designer"@ != "artist"@);
    assert("designer"@ != "genre"@);
    assert("difficulty"@ != "title"@);
    assert("difficulty"@ != "subtitle"@);
    assert("difficulty"@ != "artist"@);
    assert("difficulty"@ != "genre"@);
    assert("difficulty"@ != "designer"@);
    assert("playlevel"@ != "title"@);
    assert("playlevel"@ != "subtitle"@);
    assert("playlevel"@ != "artist"@);
    assert("playlevel"@ != "genre"@);
    assert("playlevel"@ != "designer"@);
    assert("playlevel"@ != "difficulty"@);
    assert("songid"@ != "title"@);
    assert("songid"@ != "subtitle"@);
    assert("songid"@[0] != "artist"@[0]);
    assert("songid"@ != "artist"@);
    assert("songid"@ != "genre"@);
    assert("songid"@ != "designer"@);
    assert("songid"@ != "difficulty"@);
    assert("songid"@ != "playlevel"@);
    assert("wave"@ != "title"@);
    assert("wave"@ != "subtitle"@);
    assert("wave"@ != "artist"@);
    assert("wave"@ != "genre"@);
    assert("wave"@ != "designer"@);
    assert("wave"@ != "difficulty"@);
    assert("wave"@ != "playlevel"@);
    assert("wave"@ != "songid"@);
    assert("waveoffset"@ != "title"@);
    assert("waveoffset"@ != "subtitle"@);
    assert("waveoffset"@ != "artist"@);
    assert("waveoffset"@ != "genre"@);
    assert("waveoffset"@ != "designer"@);
    assert("waveoffset"@[0] != "difficulty"@[0]);
    assert("waveoffset"@ != "difficulty"@);
    assert("waveoffset"@ != "playlevel"@);
    assert("waveoffset"@ != "songid"@);
    assert("waveoffset"@ != "wave"@);
    assert("jacket"@ != "title"@);
    assert("jacket"@ != "subtitle"@);
    assert("jacket"@[0] != "artist"@[0]);
    assert("jacket"@ != "artist"@);
    assert("jacket"@ != "genre"@);
    assert("jacket"@ != "designer"@);
    assert("jacket"@ != "difficulty"@);
    assert("jacket"@ != "playlevel"@);
    assert("jacket"@[0] != "songid"@[0]);
    assert("jacket"@ != "songid"@);
    assert("jacket"@ != "wave"@);
    assert("jacket"@ != "waveoffset"@);
    assert("background"@ != "title"@);
    assert("background"@ != "subtitle"@);
    assert("background"@ != "artist"@);
    assert("background"@ != "genre"@);
    assert("background"@ != "designer"@);
    assert("background"@[0] != "difficulty"@[0]);
    assert("background"@ != "difficulty"@);
    assert("background"@ != "playlevel"@);
    assert("background"@ != "songid"@);
    assert("background"@ != "wave"@);
    assert("background"@[0] != "waveoffset"@[0]);
    assert("background"@ != "waveoffset"@);
    assert("background"@ != "jacket"@);
    assert("movie"@[0] != "title"@[0]);
    assert("movie"@ != "title"@);
    assert("movie"@ != "subtitle"@);
    assert("movie"@ != "artist"@);
    assert("movie"@[0] != "genre"@[0]);
    assert("movie"@ != "genre"@);
    assert("movie"@ != "designer"@);
    assert("movie"@ != "difficulty"@);
    assert("movie"@ != "playlevel"@);
    assert("movie"@ != "songid"@);
    assert("movie"@ != "wave"@);
    assert("movie"@ != "waveoffset"@);
    assert("movie"@ != "jacket"@);
    assert("movie"@ != "background"@);
    assert("movieoffset"@.len() == 11);
    assert("movieoffset"@ != "title"@);
    assert("movieoffset"@ != "subtitle"@);
    assert("movieoffset"@ != "artist"@);
    assert("movieoffset"@ != "genre"@);
    assert("movieoffset"@ != "designer"@);
    assert("movieoffset"@ != "difficulty"@);
    assert("movieoffset"@ != "playlevel"@);
    assert("movieoffset"@ != "songid"@);
    assert("movieoffset"@ != "wave"@);
    assert("movieoffset"@ != "waveoffset"@);
    assert("movieoffset"@ != "jacket"@);
    assert("movieoffset"@ != "background"@);
    assert("movieoffset"@ != "movie"@);
    assert("basebpm"@.len() == 7);
    assert("basebpm"@ != "title"@);
    assert("basebpm"@ != "subtitle"@);
    assert("basebpm"@ != "artist"@);
    assert("basebpm"@ != "genre"@);
    assert("basebpm"@ != "designer"@);
    assert("basebpm"@ != "difficulty"@);
    assert("basebpm"@ != "playlevel"@);
    assert("basebpm"@ != "songid"@);
    assert("basebpm"@ != "wave"@);
    assert("basebpm"@ != "waveoffset"@);
    assert("basebpm"@ != "jacket"@);
    assert("basebpm"@ != "background"@);
    assert("basebpm"@ != "movie"@);
    assert("basebpm"@ != "movieoffset"@);
}

} // verus!
