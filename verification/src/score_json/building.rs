//! Building the note arena of a JSON chart: each chain of connected notes
//! becomes a chain of slides on a free channel, with the taps and flicks
//! its notes carry; the other notes stand alone.
use super::{
    raw_note_ok, spec_direction, spec_line_directional, spec_note_lane, spec_note_slot,
    spec_note_width, spec_tap_slot, spec_tap_type, spec_downgrade, spec_to_bar, RawNote,
    TickSegment,
};
use crate::fraction::{frac_lt, frac_of, Fraction};
use crate::notes::directional::Directional;
use crate::notes::slide::Slide;
use crate::notes::tap::Tap;
use crate::notes::{base_of, NoteBase, NoteData, NO_NOTE};
use vstd::prelude::*;

verus! {

/// A note that is a visible relay of a slide path.
pub open spec fn is_visible_relay(n: RawNote) -> bool {
    n.note_base_type == 5 || n.category == 2
}

/// A visible relay that shapes the slide path (the chart marks it not skipped).
pub open spec fn affects_path(n: RawNote) -> bool {
    is_visible_relay(n) && n.is_skip_false
}

/// A visible relay that only carries a tap.
pub open spec fn is_relay_attachment(n: RawNote) -> bool {
    is_visible_relay(n) && !affects_path(n)
}

/// A note of a decoration (guide) slide.
pub open spec fn is_decoration(n: RawNote) -> bool {
    n.category == 9 || n.note_base_type == 10 || n.note_base_type == 13
}

/// The slide type of a chain note: the last one ends (2); by base type a
/// start (1: 2, 8, 9, 10), an end (2: 1, 3, 11, 12, 13), invisible (5: 6,
/// 14, or category 11); else a relay (3).
pub open spec fn spec_slide_type(n: RawNote, is_last: bool) -> int {
    let b = n.note_base_type;
    if is_last {
        2
    } else if b == 2 || b == 8 || b == 9 || b == 10 {
        1
    } else if b == 1 || b == 3 || b == 11 || b == 12 || b == 13 {
        2
    } else if b == 6 || b == 14 || n.category == 11 {
        5
    } else {
        3
    }
}

/// Whether a chain note carries a tap of its own.
pub open spec fn adds_tap(n: RawNote, slide_type: int, curve_chain: bool) -> bool {
    let b = n.note_base_type;
    ||| (slide_type == 3 && curve_chain && is_visible_relay(n))
    ||| b == 3
    ||| n.category == 3
    ||| b == 8
    ||| b == 11
    ||| b == 9
    ||| b == 12
    ||| (n.critical && (b == 1 || b == 2))
}

/// Position `j` of a chain is kept: it is not a visible relay right before
/// another visible relay at most one tick away.
pub open spec fn keep_in_chain(notes: Seq<RawNote>, chain: Seq<usize>, j: int) -> bool {
    !(j + 1 < chain.len() && is_visible_relay(notes[chain[j] as int]) && is_visible_relay(
        notes[chain[j + 1] as int],
    ) && -1 <= notes[chain[j + 1] as int].ticks - notes[chain[j] as int].ticks <= 1)
}

/// The kept positions among the first `k` of a chain.
pub open spec fn filter_chain_upto(notes: Seq<RawNote>, chain: Seq<usize>, k: int) -> Seq<usize>
    decreases k,
{
    if k <= 0 {
        seq![]
    } else {
        filter_chain_upto(notes, chain, k - 1) + if keep_in_chain(notes, chain, k - 1) {
            seq![chain[k - 1]]
        } else {
            seq![]
        }
    }
}

/// A chain without the visible relays that repeat the next one.
pub open spec fn filter_chain(notes: Seq<RawNote>, chain: Seq<usize>) -> Seq<usize> {
    filter_chain_upto(notes, chain, chain.len() as int)
}

/// Some note of the chain has a curve line.
pub open spec fn has_curve_line(notes: Seq<RawNote>, chain: Seq<usize>) -> bool {
    exists|j: int| 0 <= j < chain.len() && #[trigger] notes[chain[j] as int].note_line_type != 0
}

/// Some note of the chain belongs to a decoration slide.
pub open spec fn is_decoration_chain(notes: Seq<RawNote>, chain: Seq<usize>) -> bool {
    exists|j: int| 0 <= j < chain.len() && is_decoration(#[trigger] notes[chain[j] as int])
}

/// A chain from a cancel start (base 9) to a trace end (base 12, category
/// 5) whose start slot also holds a standalone note.
pub open spec fn is_hidden_head(
    notes: Seq<RawNote>,
    chain: Seq<usize>,
    standalone: Seq<(i64, i32, i32)>,
) -> bool {
    &&& chain.len() > 0
    &&& notes[chain[0] as int].note_base_type == 9
    &&& notes[chain.last() as int].note_base_type == 12
    &&& notes[chain.last() as int].category == 5
    &&& standalone.contains(spec_note_slot(notes[chain[0] as int]))
}

/// The slots of the notes of the first `k` chains, in order.
pub open spec fn chain_slots(notes: Seq<RawNote>, chains: Seq<Seq<usize>>, k: int) -> Seq<
    (i64, i32, i32),
>
    decreases k,
{
    if k <= 0 {
        seq![]
    } else {
        chain_slots(notes, chains, k - 1) + chains[k - 1].map_values(
            |ni: usize| spec_note_slot(notes[ni as int]),
        )
    }
}

/// The tap slots the first `k` positions of a (filtered) chain occupy.
pub open spec fn chain_tap_slots(notes: Seq<RawNote>, fc: Seq<usize>, k: int) -> Seq<(i64, i32)>
    decreases k,
{
    if k <= 0 {
        seq![]
    } else {
        let n = notes[fc[k - 1] as int];
        chain_tap_slots(notes, fc, k - 1) + if !is_relay_attachment(n) && adds_tap(
            n,
            spec_slide_type(n, k == fc.len()),
            has_curve_line(notes, fc),
        ) {
            seq![spec_tap_slot(n)]
        } else {
            seq![]
        }
    }
}

/// The tap slots the first `k` chains occupy.
pub open spec fn chains_tap_slots(notes: Seq<RawNote>, chains: Seq<Seq<usize>>, k: int) -> Seq<
    (i64, i32),
>
    decreases k,
{
    if k <= 0 {
        seq![]
    } else {
        let fc = filter_chain(notes, chains[k - 1]);
        chains_tap_slots(notes, chains, k - 1) + chain_tap_slots(notes, fc, fc.len() as int)
    }
}

/// The tap slots of the first `k` notes that are not connected.
pub open spec fn standalone_tap_slots(notes: Seq<RawNote>, vis: Seq<i64>, k: int) -> Seq<(i64, i32)>
    decreases k,
{
    if k <= 0 {
        seq![]
    } else {
        standalone_tap_slots(notes, vis, k - 1) + if !vis.contains(notes[k - 1].id) {
            seq![spec_tap_slot(notes[k - 1])]
        } else {
            seq![]
        }
    }
}

/// The slots of the first `k` notes that are not connected.
pub open spec fn standalone_slots(notes: Seq<RawNote>, vis: Seq<i64>, k: int) -> Seq<(i64, i32, i32)>
    decreases k,
{
    if k <= 0 {
        seq![]
    } else {
        standalone_slots(notes, vis, k - 1) + if !vis.contains(notes[k - 1].id) {
            seq![spec_note_slot(notes[k - 1])]
        } else {
            seq![]
        }
    }
}

/// The start slots of the hidden-head chains among the first `k`.
pub open spec fn hidden_head_slots(
    notes: Seq<RawNote>,
    chains: Seq<Seq<usize>>,
    standalone: Seq<(i64, i32, i32)>,
    k: int,
) -> Seq<(i64, i32, i32)>
    decreases k,
{
    if k <= 0 {
        seq![]
    } else {
        hidden_head_slots(notes, chains, standalone, k - 1) + if is_hidden_head(
            notes,
            chains[k - 1],
            standalone,
        ) {
            seq![spec_note_slot(notes[chains[k - 1][0] as int])]
        } else {
            seq![]
        }
    }
}

/// The free lane (start) nearest to a note's among `0..k`, the lower on a
/// tie, not occupied at its tick; -1 when there is none.
pub open spec fn best_lane(occ: Seq<(i64, i32)>, n: RawNote, k: int) -> int
    decreases k,
{
    if k <= 0 {
        -1
    } else {
        let b = best_lane(occ, n, k - 1);
        let c = k - 1;
        if occ.contains((n.ticks, (c + 2) as i32)) {
            b
        } else if b < 0 {
            c
        } else {
            let dc = if c >= n.lane_start {
                c - n.lane_start
            } else {
                n.lane_start - c
            };
            let db = if b >= n.lane_start {
                b - n.lane_start
            } else {
                n.lane_start - b
            };
            if dc < db {
                c
            } else {
                b
            }
        }
    }
}

/// A visible relay that carries a tap takes its tap slot, or when that is
/// taken, the nearest free lane of its width (keeping its own lane when
/// none is free).
pub open spec fn place_relay(n: RawNote, occ: Seq<(i64, i32)>) -> (RawNote, Seq<(i64, i32)>) {
    if !occ.contains(spec_tap_slot(n)) {
        (n, occ.push(spec_tap_slot(n)))
    } else {
        let width = spec_note_width(n);
        let max = if 12 - width < 0 {
            0
        } else {
            12 - width
        };
        let c = best_lane(occ, n, max + 1);
        if c < 0 {
            (n, occ)
        } else {
            let placed = RawNote {
                lane_start: c as i32,
                lane_end: (c + width - 1) as i32,
                ..n
            };
            (placed, occ.push(spec_tap_slot(placed)))
        }
    }
}

/// The bar of a tick position (known to have one).
pub open spec fn bar_at(segs: Seq<TickSegment>, ticks: int) -> Fraction {
    frac_of(spec_to_bar(segs, ticks)->0)
}

/// The common fields of a built note: the bar of `n`, the lane and width of
/// `lane_note`, the type, and the speed of `n`.
pub open spec fn built_base(segs: Seq<TickSegment>, n: RawNote, lane_note: RawNote, note_type: int) -> NoteBase {
    NoteBase {
        bar: bar_at(segs, n.ticks as int),
        lane: spec_note_lane(lane_note) as i32,
        width: spec_note_width(lane_note) as i32,
        note_type: note_type as i32,
        speed: n.speed,
    }
}

/// The arena and the standing notes while building.
pub type Builder = (Seq<NoteData>, Seq<usize>);

/// A tap of the given type for `n`, added to the arena (not standing).
pub open spec fn add_tap(segs: Seq<TickSegment>, b: Seq<NoteData>, n: RawNote, out: RawNote, t: int) -> Seq<NoteData> {
    b.push(NoteData::Tap(built_base(segs, n, out, t), Tap))
}

/// A directional of the given type carrying tap `tap`, added to the arena.
pub open spec fn add_directional(
    segs: Seq<TickSegment>,
    b: Seq<NoteData>,
    n: RawNote,
    out: RawNote,
    t: int,
    tap: usize,
) -> Seq<NoteData> {
    b.push(NoteData::Directional(built_base(segs, n, out, t), Directional { tap_idx: tap }))
}

/// The slide part of a note (an unlinked slide for other notes).
pub open spec fn slide_part(n: NoteData) -> Slide {
    match n {
        NoteData::Slide(_, s) => s,
        _ => Slide {
            channel: 0,
            decoration: false,
            tap_idx: NO_NOTE,
            directional_idx: NO_NOTE,
            next_idx: NO_NOTE,
            head_idx: NO_NOTE,
        },
    }
}

/// A slide note with its slide part replaced.
pub open spec fn set_slide(n: NoteData, s: Slide) -> NoteData {
    match n {
        NoteData::Slide(b, _) => NoteData::Slide(b, s),
        _ => n,
    }
}

/// The taps and flicks a chain note carries, added to the arena and linked
/// to its slide at `slide_idx`: the arena and whether the tap must also be
/// drawn as a critical cancel of its own.
#[verifier::opaque]
pub open spec fn attach(
    segs: Seq<TickSegment>,
    arena: Seq<NoteData>,
    slide_idx: int,
    n: RawNote,
    out: RawNote,
    hidden_start: bool,
) -> (Seq<NoteData>, bool) {
    let b = n.note_base_type;
    let st = base_of(arena[slide_idx]).note_type as int;
    let deco = slide_part(arena[slide_idx]).decoration;
    let k0 = arena.len();
    let (a1, tap, dir, deferred) = if deco && n.critical && (b == 10 || b == 13) {
        (add_tap(segs, arena, n, out, 8), k0 as usize, NO_NOTE, true)
    } else if hidden_start && (b == 9 || b == 12) {
        (add_tap(segs, arena, n, out, if n.critical { 8 } else { 7 }), k0 as usize, NO_NOTE, false)
    } else if st == 3 && is_relay_attachment(n) {
        (add_tap(segs, arena, n, out, 3), k0 as usize, NO_NOTE, false)
    } else if b == 3 || n.category == 3 {
        if n.critical {
            let a = add_tap(segs, arena, n, out, 2);
            (
                add_directional(segs, a, n, out, spec_direction(n.direction as int), k0 as usize),
                k0 as usize,
                (k0 + 1) as usize,
                false,
            )
        } else {
            (
                add_directional(segs, arena, n, out, spec_direction(n.direction as int), NO_NOTE),
                NO_NOTE,
                k0 as usize,
                false,
            )
        }
    } else if b == 8 || b == 11 || b == 9 || b == 12 {
        (add_tap(segs, arena, n, out, spec_tap_type(n, 1)), k0 as usize, NO_NOTE, false)
    } else if n.critical && (b == 1 || b == 2) {
        (add_tap(segs, arena, n, out, 2), k0 as usize, NO_NOTE, false)
    } else {
        (arena, NO_NOTE, NO_NOTE, false)
    };
    let ldt = spec_line_directional(n.note_line_type as int);
    let (a2, dir2) = if ldt != 0 {
        (add_directional(segs, a1, n, out, ldt, tap), a1.len() as usize)
    } else {
        (a1, dir)
    };
    let s = slide_part(a2[slide_idx]);
    let s1 = if tap != NO_NOTE {
        Slide { tap_idx: tap, ..s }
    } else {
        s
    };
    let s2 = if dir2 != NO_NOTE {
        Slide { directional_idx: dir2, ..s1 }
    } else {
        s1
    };
    (a2.update(slide_idx, set_slide(a2[slide_idx], s2)), deferred)
}

/// The state of a chain while its notes become slides: builder, occupied
/// tap slots, the previous slide, the chain's head, the deferred taps.
pub type ChainState = (Builder, Seq<(i64, i32)>, usize, usize, Seq<RawNote>);

/// Position `j` of a filtered chain becomes a slide on `channel`, linked to
/// the previous slide and the head, with what its note carries.
pub open spec fn chain_note_step(
    segs: Seq<TickSegment>,
    notes: Seq<RawNote>,
    fc: Seq<usize>,
    channel: int,
    chain_deco: bool,
    hidden: bool,
    st: ChainState,
    j: int,
) -> ChainState {
    let ((arena, active), occ, previous, head, deferred) = st;
    let n = notes[fc[j] as int];
    let b = n.note_base_type;
    let decoration = chain_deco || is_decoration(n);
    let stype = spec_slide_type(n, j + 1 == fc.len());
    let (out, occ2) = if stype == 3 && is_relay_attachment(n) {
        place_relay(n, occ)
    } else {
        (n, occ)
    };
    let slide_idx = arena.len();
    let head2 = if head == NO_NOTE {
        slide_idx as usize
    } else {
        head
    };
    let slide = Slide {
        channel: channel as i32,
        decoration,
        tap_idx: NO_NOTE,
        directional_idx: NO_NOTE,
        next_idx: NO_NOTE,
        head_idx: head2,
    };
    let a1 = arena.push(NoteData::Slide(built_base(segs, n, out, stype), slide));
    let a2 = if previous != NO_NOTE {
        a1.update(
            previous as int,
            set_slide(a1[previous as int], Slide { next_idx: slide_idx as usize, ..slide_part(a1[previous as int]) }),
        )
    } else {
        a1
    };
    let (a3, defer) = attach(
        segs,
        a2,
        slide_idx as int,
        n,
        out,
        hidden && j == 0 && (b == 9 || b == 12),
    );
    (
        (a3, active.push(slide_idx as usize)),
        occ2,
        slide_idx as usize,
        head2,
        if defer {
            deferred.push(out)
        } else {
            deferred
        },
    )
}

/// The first `k` positions of a filtered chain as slides.
pub open spec fn chain_notes(
    segs: Seq<TickSegment>,
    notes: Seq<RawNote>,
    fc: Seq<usize>,
    channel: int,
    chain_deco: bool,
    hidden: bool,
    st0: ChainState,
    k: int,
) -> ChainState
    decreases k,
{
    if k <= 0 {
        st0
    } else {
        chain_note_step(
            segs,
            notes,
            fc,
            channel,
            chain_deco,
            hidden,
            chain_notes(segs, notes, fc, channel, chain_deco, hidden, st0, k - 1),
            k - 1,
        )
    }
}

/// The deferred critical cancel taps of the first `k`, each drawn on its
/// own (standing) unless a standalone note shares its slot.
pub open spec fn deferred_taps(
    segs: Seq<TickSegment>,
    b: Builder,
    deferred: Seq<RawNote>,
    standalone: Seq<(i64, i32, i32)>,
    k: int,
) -> Builder
    decreases k,
{
    if k <= 0 {
        b
    } else {
        let (arena, active) = deferred_taps(segs, b, deferred, standalone, k - 1);
        let n = deferred[k - 1];
        if !standalone.contains(spec_note_slot(n)) {
            (arena.push(NoteData::Tap(built_base(segs, n, n, 8), Tap)), active.push(arena.len() as usize))
        } else {
            (arena, active)
        }
    }
}

/// The channel a chain starting at `start` takes: the first one free before
/// it (never used, or last used before it), else the one free the earliest.
pub open spec fn pick_channel(chans: Seq<Option<i64>>, start: i64) -> int {
    let free = first_free_channel(chans, start, 0);
    if free >= 0 {
        free
    } else {
        earliest_channel(chans, chans.len() as int)
    }
}

/// The first channel from `k` on free before `start`, or -1.
pub open spec fn first_free_channel(chans: Seq<Option<i64>>, start: i64, k: int) -> int
    decreases chans.len() - k,
{
    if k < 0 || k >= chans.len() {
        -1
    } else if (match chans[k] {
        None => true,
        Some(v) => v < start,
    }) {
        k
    } else {
        first_free_channel(chans, start, k + 1)
    }
}

/// The first of the first `k` channels with the smallest end (never used counts as smallest).
pub open spec fn earliest_channel(chans: Seq<Option<i64>>, k: int) -> int
    decreases k,
{
    if k <= 1 {
        0
    } else {
        let b = earliest_channel(chans, k - 1);
        if channel_lt(chans[k - 1], chans[b]) {
            k - 1
        } else {
            b
        }
    }
}

/// Whether a channel end is earlier than another (never used is earliest).
pub open spec fn channel_lt(a: Option<i64>, b: Option<i64>) -> bool {
    match (a, b) {
        (None, _) => false,
        (Some(_), None) => false,
        (Some(x), Some(y)) => x < y,
    }
}

/// The later of a channel end and a tick.
pub open spec fn channel_max(a: Option<i64>, t: i64) -> Option<i64> {
    match a {
        None => Some(t),
        Some(v) => Some(if v > t { v } else { t }),
    }
}

/// The building state over chains: builder, occupied tap slots, channel ends.
pub type ChainsState = (Builder, Seq<(i64, i32)>, Seq<Option<i64>>);

/// One chain, filtered, becomes slides on a channel (nothing for an empty one).
pub open spec fn chain_step(
    segs: Seq<TickSegment>,
    notes: Seq<RawNote>,
    standalone: Seq<(i64, i32, i32)>,
    st: ChainsState,
    chain: Seq<usize>,
) -> ChainsState {
    let (b, occ, chans) = st;
    let fc = filter_chain(notes, chain);
    if fc.len() == 0 {
        st
    } else {
        let start = notes[fc[0] as int].ticks;
        let end = notes[fc.last() as int].ticks;
        let ch = pick_channel(chans, start);
        let chans2 = chans.update(ch, channel_max(chans[ch], end));
        let deco = is_decoration_chain(notes, fc);
        let hidden = is_hidden_head(notes, fc, standalone);
        let cs = chain_notes(
            segs,
            notes,
            fc,
            ch,
            deco,
            hidden,
            (b, occ, NO_NOTE, NO_NOTE, seq![]),
            fc.len() as int,
        );
        (deferred_taps(segs, cs.0, cs.4, standalone, cs.4.len() as int), cs.1, chans2)
    }
}

/// The first `k` chains built.
pub open spec fn chains_built(
    segs: Seq<TickSegment>,
    notes: Seq<RawNote>,
    chains: Seq<Seq<usize>>,
    standalone: Seq<(i64, i32, i32)>,
    st0: ChainsState,
    k: int,
) -> ChainsState
    decreases k,
{
    if k <= 0 {
        st0
    } else {
        chain_step(
            segs,
            notes,
            standalone,
            chains_built(segs, notes, chains, standalone, st0, k - 1),
            chains[k - 1],
        )
    }
}

/// The tap type of a standalone note: trend types stay; a note at the start
/// of a hidden-head chain keeps its type; a note in a slot of a connected
/// note loses its critical mark.
pub open spec fn standalone_type(
    n: RawNote,
    connected: Seq<(i64, i32, i32)>,
    hidden: Seq<(i64, i32, i32)>,
) -> int {
    let t = spec_tap_type(n, 1);
    if t == 5 || t == 6 {
        t
    } else if hidden.contains(spec_note_slot(n)) {
        t
    } else if connected.contains(spec_note_slot(n)) {
        spec_downgrade(t)
    } else {
        t
    }
}

/// A standalone note as standing notes: a flick (base 3 or category 3), a
/// trace (base 4 or category 8: a flick when it has a direction or a trend
/// type, else a tap), or a tap.
pub open spec fn standalone_step(
    segs: Seq<TickSegment>,
    b: Builder,
    n: RawNote,
    connected: Seq<(i64, i32, i32)>,
    hidden: Seq<(i64, i32, i32)>,
) -> Builder {
    let (arena, active) = b;
    let k0 = arena.len();
    if n.note_base_type == 3 || n.category == 3 {
        let a = add_tap(segs, arena, n, n, standalone_type(n, connected, hidden));
        (
            add_directional(segs, a, n, n, spec_direction(n.direction as int), k0 as usize),
            active.push((k0 + 1) as usize),
        )
    } else if n.note_base_type == 4 || n.category == 8 {
        let t = spec_tap_type(n, 1);
        if n.direction == 1 || n.direction == 2 || t == 5 || t == 6 {
            let a = add_tap(segs, arena, n, n, t);
            (
                add_directional(segs, a, n, n, spec_direction(n.direction as int), k0 as usize),
                active.push((k0 + 1) as usize),
            )
        } else {
            (add_tap(segs, arena, n, n, t), active.push(k0 as usize))
        }
    } else {
        (add_tap(segs, arena, n, n, standalone_type(n, connected, hidden)), active.push(k0 as usize))
    }
}

/// The standalone notes among the first `k`, built in order.
pub open spec fn standalone_built(
    segs: Seq<TickSegment>,
    notes: Seq<RawNote>,
    vis: Seq<i64>,
    connected: Seq<(i64, i32, i32)>,
    hidden: Seq<(i64, i32, i32)>,
    b0: Builder,
    k: int,
) -> Builder
    decreases k,
{
    if k <= 0 {
        b0
    } else {
        let b = standalone_built(segs, notes, vis, connected, hidden, b0, k - 1);
        if !vis.contains(notes[k - 1].id) {
            standalone_step(segs, b, notes[k - 1], connected, hidden)
        } else {
            b
        }
    }
}

/// Every note fits the lane arithmetic and has a bar.
pub open spec fn notes_ok(notes: Seq<RawNote>, segs: Seq<TickSegment>) -> bool {
    forall|i: int|
        0 <= i < notes.len() ==> raw_note_ok(#[trigger] notes[i]) && spec_to_bar(
            segs,
            notes[i].ticks as int,
        ) is Some
}

/// Every index of the chain lies in the arena.
pub open spec fn chain_ok(notes: Seq<RawNote>, chain: Seq<usize>) -> bool {
    forall|j: int| 0 <= j < chain.len() ==> #[trigger] chain[j] < notes.len()
}

/// Whether a note is a visible relay.
pub fn is_visible_relay_slide_note(note: &RawNote) -> (r: bool)
    ensures
        r == is_visible_relay(*note),
{
    note.note_base_type == 5 || note.category == 2
}

/// Whether a visible relay shapes the slide path.
pub fn should_visible_relay_affect_path(note: &RawNote) -> (r: bool)
    ensures
        r == affects_path(*note),
{
    is_visible_relay_slide_note(note) && note.is_skip_false
}

/// Whether a visible relay only carries a tap.
pub fn is_visible_relay_attachment(note: &RawNote) -> (r: bool)
    ensures
        r == is_relay_attachment(*note),
{
    is_visible_relay_slide_note(note) && !should_visible_relay_affect_path(note)
}

/// Whether a note belongs to a decoration slide.
pub fn is_decoration_slide_note(note: &RawNote) -> (r: bool)
    ensures
        r == is_decoration(*note),
{
    note.category == 9 || note.note_base_type == 10 || note.note_base_type == 13
}

/// The slide type of a chain note (see `spec_slide_type`).
pub fn get_slide_type(note: &RawNote, is_last: bool) -> (r: i32)
    ensures
        r == spec_slide_type(*note, is_last),
{
    let base = note.note_base_type;
    if is_last {
        return 2;
    }
    if base == 2 || base == 8 || base == 9 || base == 10 {
        return 1;
    }
    if base == 1 || base == 3 || base == 11 || base == 12 || base == 13 {
        return 2;
    }
    if base == 6 || base == 14 || note.category == 11 {
        return 5;
    }
    3
}

/// Whether a chain note carries a tap of its own (see `adds_tap`).
pub fn connected_note_adds_tap(note: &RawNote, slide_type: i32, curve_chain: bool) -> (r: bool)
    ensures
        r == adds_tap(*note, slide_type as int, curve_chain),
{
    let base = note.note_base_type;
    (slide_type == 3 && curve_chain && is_visible_relay_slide_note(note)) || base == 3
        || note.category == 3 || base == 8 || base == 11 || base == 9 || base == 12 || (
    note.critical && (base == 1 || base == 2))
}

/// The chain without the visible relays that repeat the next one.
pub fn remove_adjacent_visible_relay_duplicates(notes: &Vec<RawNote>, chain: &Vec<usize>) -> (r: Vec<
    usize,
>)
    requires
        chain_ok(notes@, chain@),
        forall|i: int| 0 <= i < notes@.len() ==> raw_note_ok(#[trigger] notes@[i]),
    ensures
        r@ == filter_chain(notes@, chain@),
{
    let mut filtered: Vec<usize> = Vec::new();
    let mut j: usize = 0;
    while j < chain.len()
        invariant
            j <= chain@.len(),
            chain_ok(notes@, chain@),
            forall|i: int| 0 <= i < notes@.len() ==> raw_note_ok(#[trigger] notes@[i]),
            filtered@ == filter_chain_upto(notes@, chain@, j as int),
        decreases chain@.len() - j,
    {
        let note = &notes[chain[j]];
        let mut keep = true;
        if j + 1 < chain.len() {
            let next = &notes[chain[j + 1]];
            proof {
                assert(raw_note_ok(notes@[chain@[j as int] as int]));
                assert(raw_note_ok(notes@[chain@[j + 1] as int]));
            }
            let d = next.ticks - note.ticks;
            if is_visible_relay_slide_note(note) && is_visible_relay_slide_note(next) && -1 <= d
                && d <= 1 {
                keep = false;
            }
        }
        if keep {
            filtered.push(chain[j]);
        }
        proof {
            assert(filtered@ =~= filter_chain_upto(notes@, chain@, j as int + 1));
        }
        j = j + 1;
    }
    filtered
}

/// Whether some note of the chain has a curve line.
pub fn chain_has_curve_line(notes: &Vec<RawNote>, chain: &Vec<usize>) -> (r: bool)
    requires
        chain_ok(notes@, chain@),
    ensures
        r == has_curve_line(notes@, chain@),
{
    let mut j: usize = 0;
    while j < chain.len()
        invariant
            j <= chain@.len(),
            chain_ok(notes@, chain@),
            forall|i: int| 0 <= i < j ==> #[trigger] notes@[chain@[i] as int].note_line_type == 0,
        decreases chain@.len() - j,
    {
        if notes[chain[j]].note_line_type != 0 {
            return true;
        }
        j = j + 1;
    }
    false
}

/// Whether some note of the chain belongs to a decoration slide.
pub fn is_decoration_slide_chain(notes: &Vec<RawNote>, chain: &Vec<usize>) -> (r: bool)
    requires
        chain_ok(notes@, chain@),
    ensures
        r == is_decoration_chain(notes@, chain@),
{
    let mut j: usize = 0;
    while j < chain.len()
        invariant
            j <= chain@.len(),
            chain_ok(notes@, chain@),
            forall|i: int| 0 <= i < j ==> !is_decoration(#[trigger] notes@[chain@[i] as int]),
        decreases chain@.len() - j,
    {
        if is_decoration_slide_note(&notes[chain[j]]) {
            return true;
        }
        j = j + 1;
    }
    false
}

/// Whether a slot is among the given ones.
pub fn contains_slot(slots: &Vec<(i64, i32, i32)>, key: (i64, i32, i32)) -> (r: bool)
    ensures
        r == slots@.contains(key),
{
    let mut i: usize = 0;
    while i < slots.len()
        invariant
            i <= slots@.len(),
            forall|j: int| 0 <= j < i ==> slots@[j] != key,
        decreases slots@.len() - i,
    {
        let s = slots[i];
        if s.0 == key.0 && s.1 == key.1 && s.2 == key.2 {
            return true;
        }
        i = i + 1;
    }
    false
}

/// Whether a tap slot is among the given ones.
pub fn contains_tap_slot(slots: &Vec<(i64, i32)>, key: (i64, i32)) -> (r: bool)
    ensures
        r == slots@.contains(key),
{
    let mut i: usize = 0;
    while i < slots.len()
        invariant
            i <= slots@.len(),
            forall|j: int| 0 <= j < i ==> slots@[j] != key,
        decreases slots@.len() - i,
    {
        let s = slots[i];
        if s.0 == key.0 && s.1 == key.1 {
            return true;
        }
        i = i + 1;
    }
    false
}

/// Whether a chain is a hidden-head chain (see `is_hidden_head`).
pub fn is_hidden_head_slide_chain(
    notes: &Vec<RawNote>,
    chain: &Vec<usize>,
    standalone: &Vec<(i64, i32, i32)>,
) -> (r: bool)
    requires
        chain_ok(notes@, chain@),
        forall|i: int| 0 <= i < notes@.len() ==> raw_note_ok(#[trigger] notes@[i]),
    ensures
        r == is_hidden_head(notes@, chain@, standalone@),
{
    if chain.len() == 0 {
        return false;
    }
    let first = &notes[chain[0]];
    let last = &notes[chain[chain.len() - 1]];
    proof {
        assert(raw_note_ok(notes@[chain@[0] as int]));
    }
    first.note_base_type == 9 && last.note_base_type == 12 && last.category == 5 && contains_slot(
        standalone,
        super::note_slot_key(first),
    )
}

/// The free lane nearest to a note's (see `best_lane`).
fn nearest_free_lane(occupied: &Vec<(i64, i32)>, note: &RawNote, count: i32) -> (r: i32)
    requires
        0 <= count <= 13,
        raw_note_ok(*note),
    ensures
        r == best_lane(occupied@, *note, count as int),
        -1 <= r < count,
{
    let mut best: i32 = -1;
    let mut c: i32 = 0;
    while c < count
        invariant
            0 <= c <= count,
            count <= 13,
            raw_note_ok(*note),
            best == best_lane(occupied@, *note, c as int),
            -1 <= best < c,
        decreases count - c,
    {
        if !contains_tap_slot(occupied, (note.ticks, c + 2)) {
            if best < 0 {
                best = c;
            } else {
                let dc = if c >= note.lane_start {
                    c - note.lane_start
                } else {
                    note.lane_start - c
                };
                let db = if best >= note.lane_start {
                    best - note.lane_start
                } else {
                    note.lane_start - best
                };
                if dc < db {
                    best = c;
                }
            }
        }
        c = c + 1;
    }
    best
}

/// A visible relay that carries a tap takes a tap slot (see `place_relay`).
pub fn with_visible_relay_attachment_slot(note: &RawNote, occupied: &mut Vec<(i64, i32)>) -> (r: RawNote)
    requires
        raw_note_ok(*note),
    ensures
        (r, final(occupied)@) == place_relay(*note, old(occupied)@),
        raw_note_ok(r),
        r.ticks == note.ticks,
        r.speed == note.speed,
{
    let key = super::tap_slot_key(note);
    if !contains_tap_slot(occupied, key) {
        occupied.push(key);
        return *note;
    }
    let width = super::note_width(note);
    let max_lane_start = if 12 - width < 0 {
        0
    } else {
        12 - width
    };
    let lane_start = nearest_free_lane(occupied, note, max_lane_start + 1);
    if lane_start < 0 {
        return *note;
    }
    let placed = RawNote { lane_start, lane_end: lane_start + width - 1, ..*note };
    occupied.push(super::tap_slot_key(&placed));
    placed
}

/// The chains as sequences.
pub open spec fn chains_view(chains: Seq<Vec<usize>>) -> Seq<Seq<usize>> {
    chains.map_values(|c: Vec<usize>| c@)
}

/// Every chain lies in the arena.
pub open spec fn chains_ok(notes: Seq<RawNote>, chains: Seq<Seq<usize>>) -> bool {
    forall|c: int| 0 <= c < chains.len() ==> chain_ok(notes, #[trigger] chains[c])
}

/// Every note fits the lane arithmetic.
pub open spec fn lanes_ok(notes: Seq<RawNote>) -> bool {
    forall|i: int| 0 <= i < notes.len() ==> raw_note_ok(#[trigger] notes[i])
}

/// The slots of the notes of the chains (see `chain_slots`).
pub fn collect_chain_slots(notes: &Vec<RawNote>, chains: &Vec<Vec<usize>>) -> (r: Vec<(i64, i32, i32)>)
    requires
        chains_ok(notes@, chains_view(chains@)),
        lanes_ok(notes@),
    ensures
        r@ == chain_slots(notes@, chains_view(chains@), chains@.len() as int),
{
    let ghost cv = chains_view(chains@);
    let mut out: Vec<(i64, i32, i32)> = Vec::new();
    let mut c: usize = 0;
    while c < chains.len()
        invariant
            c <= chains@.len(),
            cv == chains_view(chains@),
            chains_ok(notes@, cv),
            lanes_ok(notes@),
            out@ == chain_slots(notes@, cv, c as int),
        decreases chains@.len() - c,
    {
        let chain = &chains[c];
        proof {
            assert(cv[c as int] == chain@);
            assert(chain_ok(notes@, cv[c as int]));
        }
        let ghost base = out@;
        let mut j: usize = 0;
        while j < chain.len()
            invariant
                j <= chain@.len(),
                chain_ok(notes@, chain@),
                lanes_ok(notes@),
                out@ == base + chain@.subrange(0, j as int).map_values(
                    |ni: usize| spec_note_slot(notes@[ni as int]),
                ),
            decreases chain@.len() - j,
        {
            let ni = chain[j];
            proof {
                assert(raw_note_ok(notes@[ni as int]));
            }
            out.push(super::note_slot_key(&notes[ni]));
            proof {
                assert(chain@.subrange(0, j as int + 1).map_values(
                    |ni: usize| spec_note_slot(notes@[ni as int]),
                ) =~= chain@.subrange(0, j as int).map_values(
                    |ni: usize| spec_note_slot(notes@[ni as int]),
                ).push(spec_note_slot(notes@[ni as int])));
            }
            j = j + 1;
        }
        proof {
            assert(chain@.subrange(0, j as int) =~= chain@);
        }
        c = c + 1;
    }
    out
}

/// The tap slots a filtered chain occupies (see `chain_tap_slots`), appended.
fn push_chain_tap_slots(notes: &Vec<RawNote>, fc: &Vec<usize>, out: &mut Vec<(i64, i32)>)
    requires
        chain_ok(notes@, fc@),
        lanes_ok(notes@),
    ensures
        final(out)@ == old(out)@ + chain_tap_slots(notes@, fc@, fc@.len() as int),
{
    let curve = chain_has_curve_line(notes, fc);
    let mut j: usize = 0;
    while j < fc.len()
        invariant
            j <= fc@.len(),
            chain_ok(notes@, fc@),
            lanes_ok(notes@),
            curve == has_curve_line(notes@, fc@),
            out@ == old(out)@ + chain_tap_slots(notes@, fc@, j as int),
        decreases fc@.len() - j,
    {
        let note = &notes[fc[j]];
        proof {
            assert(raw_note_ok(notes@[fc@[j as int] as int]));
        }
        let slide_type = get_slide_type(note, j + 1 == fc.len());
        if !is_visible_relay_attachment(note) && connected_note_adds_tap(note, slide_type, curve) {
            out.push(super::tap_slot_key(note));
        }
        proof {
            assert(out@ =~= old(out)@ + chain_tap_slots(notes@, fc@, j as int + 1));
        }
        j = j + 1;
    }
}

/// The tap slots the chains and the standalone notes occupy.
pub fn collect_occupied(notes: &Vec<RawNote>, chains: &Vec<Vec<usize>>, visited: &Vec<i64>) -> (r: Vec<
    (i64, i32),
>)
    requires
        chains_ok(notes@, chains_view(chains@)),
        lanes_ok(notes@),
    ensures
        r@ == chains_tap_slots(notes@, chains_view(chains@), chains@.len() as int)
            + standalone_tap_slots(notes@, visited@, notes@.len() as int),
{
    let ghost cv = chains_view(chains@);
    let mut out: Vec<(i64, i32)> = Vec::new();
    let mut c: usize = 0;
    while c < chains.len()
        invariant
            c <= chains@.len(),
            cv == chains_view(chains@),
            chains_ok(notes@, cv),
            lanes_ok(notes@),
            out@ == chains_tap_slots(notes@, cv, c as int),
        decreases chains@.len() - c,
    {
        proof {
            assert(cv[c as int] == chains@[c as int]@);
            assert(chain_ok(notes@, cv[c as int]));
        }
        let fc = remove_adjacent_visible_relay_duplicates(notes, &chains[c]);
        proof {
            lemma_filter_chain_ok(notes@, cv[c as int], cv[c as int].len() as int);
        }
        push_chain_tap_slots(notes, &fc, &mut out);
        c = c + 1;
    }
    let ghost chain_part = out@;
    let mut k: usize = 0;
    while k < notes.len()
        invariant
            k <= notes@.len(),
            lanes_ok(notes@),
            out@ == chain_part + standalone_tap_slots(notes@, visited@, k as int),
        decreases notes@.len() - k,
    {
        let note = &notes[k];
        proof {
            assert(raw_note_ok(notes@[k as int]));
        }
        if !super::chains::contains_id(visited, note.id) {
            out.push(super::tap_slot_key(note));
        }
        proof {
            assert(out@ =~= chain_part + standalone_tap_slots(notes@, visited@, k as int + 1));
        }
        k = k + 1;
    }
    out
}

/// The slots of the notes that are not connected.
pub fn collect_standalone_slots(notes: &Vec<RawNote>, visited: &Vec<i64>) -> (r: Vec<(i64, i32, i32)>)
    requires
        lanes_ok(notes@),
    ensures
        r@ == standalone_slots(notes@, visited@, notes@.len() as int),
{
    let mut out: Vec<(i64, i32, i32)> = Vec::new();
    let mut k: usize = 0;
    while k < notes.len()
        invariant
            k <= notes@.len(),
            lanes_ok(notes@),
            out@ == standalone_slots(notes@, visited@, k as int),
        decreases notes@.len() - k,
    {
        let note = &notes[k];
        proof {
            assert(raw_note_ok(notes@[k as int]));
        }
        if !super::chains::contains_id(visited, note.id) {
            out.push(super::note_slot_key(note));
        }
        proof {
            assert(out@ =~= standalone_slots(notes@, visited@, k as int + 1));
        }
        k = k + 1;
    }
    out
}

/// The start slots of the hidden-head chains.
pub fn collect_hidden_head_slots(
    notes: &Vec<RawNote>,
    chains: &Vec<Vec<usize>>,
    standalone: &Vec<(i64, i32, i32)>,
) -> (r: Vec<(i64, i32, i32)>)
    requires
        chains_ok(notes@, chains_view(chains@)),
        lanes_ok(notes@),
    ensures
        r@ == hidden_head_slots(notes@, chains_view(chains@), standalone@, chains@.len() as int),
{
    let ghost cv = chains_view(chains@);
    let mut out: Vec<(i64, i32, i32)> = Vec::new();
    let mut c: usize = 0;
    while c < chains.len()
        invariant
            c <= chains@.len(),
            cv == chains_view(chains@),
            chains_ok(notes@, cv),
            lanes_ok(notes@),
            out@ == hidden_head_slots(notes@, cv, standalone@, c as int),
        decreases chains@.len() - c,
    {
        let chain = &chains[c];
        proof {
            assert(cv[c as int] == chain@);
            assert(chain_ok(notes@, cv[c as int]));
        }
        if is_hidden_head_slide_chain(notes, chain, standalone) {
            proof {
                assert(raw_note_ok(notes@[chain@[0] as int]));
            }
            out.push(super::note_slot_key(&notes[chain[0]]));
        }
        proof {
            assert(out@ =~= hidden_head_slots(notes@, cv, standalone@, c as int + 1));
        }
        c = c + 1;
    }
    out
}

/// A filtered chain lies in the arena when the chain does.
pub proof fn lemma_filter_chain_ok(notes: Seq<RawNote>, chain: Seq<usize>, k: int)
    requires
        chain_ok(notes, chain),
        k <= chain.len(),
    ensures
        chain_ok(notes, filter_chain_upto(notes, chain, k)),
    decreases k,
{
    if k > 0 {
        lemma_filter_chain_ok(notes, chain, k - 1);
        let f = filter_chain_upto(notes, chain, k - 1);
        if keep_in_chain(notes, chain, k - 1) {
            assert forall|j: int| 0 <= j < f.push(chain[k - 1]).len() implies #[trigger] f.push(
                chain[k - 1],
            )[j] < notes.len() by {
                if j < f.len() {
                    assert(f.push(chain[k - 1])[j] == f[j]);
                }
            }
            assert(filter_chain_upto(notes, chain, k) =~= f.push(chain[k - 1]));
        } else {
            assert(filter_chain_upto(notes, chain, k) =~= f);
        }
    }
}

/// Every standing note is in the arena.
pub open spec fn actives_ok(arena: Seq<NoteData>, active: Seq<usize>) -> bool {
    forall|i: int| 0 <= i < active.len() ==> #[trigger] active[i] < arena.len()
}

/// The common fields of a built note (see `built_base`).
fn make_base(tc: &super::TickConverter, note: &RawNote, lane_note: &RawNote, note_type: i32) -> (r:
    NoteBase)
    requires
        super::segments_ok(tc.segments@),
        raw_note_ok(*note),
        raw_note_ok(*lane_note),
        spec_to_bar(tc.segments@, note.ticks as int) is Some,
    ensures
        r == built_base(tc.segments@, *note, *lane_note, note_type as int),
{
    let bar = match tc.to_bar(note.ticks) {
        Some(b) => b,
        None => Fraction::zero(),
    };
    proof {
        crate::fraction::lemma_frac_of_view(bar);
    }
    NoteBase {
        bar,
        lane: super::note_lane(lane_note),
        width: super::note_width(lane_note),
        note_type,
        speed: note.speed,
    }
}

/// The taps and flicks a chain note carries, linked to its slide (see `attach`).
fn attach_connected_note(
    arena: &mut Vec<NoteData>,
    slide_idx: usize,
    note: &RawNote,
    output_note: &RawNote,
    is_hidden_head_start: bool,
    tc: &super::TickConverter,
) -> (r: bool)
    requires
        slide_idx < old(arena)@.len(),
        old(arena)@[slide_idx as int] is Slide,
        super::segments_ok(tc.segments@),
        raw_note_ok(*note),
        raw_note_ok(*output_note),
        spec_to_bar(tc.segments@, note.ticks as int) is Some,
    ensures
        (final(arena)@, r) == attach(
            tc.segments@,
            old(arena)@,
            slide_idx as int,
            *note,
            *output_note,
            is_hidden_head_start,
        ),
        final(arena)@.len() >= old(arena)@.len(),
{
    let ghost a0 = arena@;
    let base = note.note_base_type;
    let (slide_type, decoration) = match arena[slide_idx] {
        NoteData::Slide(b, s) => (b.note_type, s.decoration),
        _ => {
            return false;
        },
    };
    let mut tap_idx = NO_NOTE;
    let mut directional_idx = NO_NOTE;
    let mut deferred = false;
    if decoration && note.critical && (base == 10 || base == 13) {
        tap_idx = arena.len();
        arena.push(NoteData::Tap(make_base(tc, note, output_note, 8), Tap));
        deferred = true;
    } else if is_hidden_head_start && (base == 9 || base == 12) {
        tap_idx = arena.len();
        let t = if note.critical {
            8
        } else {
            7
        };
        arena.push(NoteData::Tap(make_base(tc, note, output_note, t), Tap));
    } else if slide_type == 3 && is_visible_relay_attachment(note) {
        tap_idx = arena.len();
        arena.push(NoteData::Tap(make_base(tc, note, output_note, 3), Tap));
    } else if base == 3 || note.category == 3 {
        if note.critical {
            tap_idx = arena.len();
            arena.push(NoteData::Tap(make_base(tc, note, output_note, 2), Tap));
        }
        directional_idx = arena.len();
        let d = super::direction_to_directional(note.direction);
        arena.push(NoteData::Directional(make_base(tc, note, output_note, d), Directional { tap_idx }));
    } else if base == 8 || base == 11 || base == 9 || base == 12 {
        tap_idx = arena.len();
        let t = super::tap_type_from_json(note, 1);
        arena.push(NoteData::Tap(make_base(tc, note, output_note, t), Tap));
    } else if note.critical && (base == 1 || base == 2) {
        tap_idx = arena.len();
        arena.push(NoteData::Tap(make_base(tc, note, output_note, 2), Tap));
    }
    let line_directional = super::line_type_to_directional(note.note_line_type);
    if line_directional != 0 {
        directional_idx = arena.len();
        arena.push(
            NoteData::Directional(
                make_base(tc, note, output_note, line_directional),
                Directional { tap_idx },
            ),
        );
    }
    if let NoteData::Slide(b, s) = arena[slide_idx] {
        let s1 = if tap_idx != NO_NOTE {
            Slide { tap_idx, ..s }
        } else {
            s
        };
        let s2 = if directional_idx != NO_NOTE {
            Slide { directional_idx, ..s1 }
        } else {
            s1
        };
        arena.set(slide_idx, NoteData::Slide(b, s2));
    }
    proof {
        reveal(attach);
        assert((arena@, deferred) =~~= attach(
            tc.segments@,
            a0,
            slide_idx as int,
            *note,
            *output_note,
            is_hidden_head_start,
        ));
    }
    deferred
}

/// The channel a chain starting at `start` takes (see `pick_channel`).
fn pick_channel_exec(channels: &Vec<Option<i64>>, start: i64) -> (r: usize)
    requires
        channels@.len() > 0,
    ensures
        r as int == pick_channel(channels@, start),
        r < channels@.len(),
{
    let mut k: usize = 0;
    while k < channels.len()
        invariant
            k <= channels@.len(),
            first_free_channel(channels@, start, 0) == first_free_channel(channels@, start, k as int),
        decreases channels@.len() - k,
    {
        let free = match channels[k] {
            None => true,
            Some(v) => v < start,
        };
        if free {
            return k;
        }
        k = k + 1;
    }
    let mut best: usize = 0;
    let mut i: usize = 1;
    while i < channels.len()
        invariant
            1 <= i <= channels@.len(),
            best < i,
            best as int == earliest_channel(channels@, i as int),
        decreases channels@.len() - i,
    {
        let earlier = match (channels[i], channels[best]) {
            (Some(x), Some(y)) => x < y,
            _ => false,
        };
        if earlier {
            best = i;
        }
        i = i + 1;
    }
    best
}

/// One chain becomes slides on a channel (see `chain_step`).
fn build_chain(
    arena: &mut Vec<NoteData>,
    active: &mut Vec<usize>,
    occupied: &mut Vec<(i64, i32)>,
    channels: &mut Vec<Option<i64>>,
    notes: &Vec<RawNote>,
    chain: &Vec<usize>,
    standalone: &Vec<(i64, i32, i32)>,
    tc: &super::TickConverter,
)
    requires
        chain_ok(notes@, chain@),
        notes_ok(notes@, tc.segments@),
        super::segments_ok(tc.segments@),
        old(channels)@.len() == 36,
        actives_ok(old(arena)@, old(active)@),
    ensures
        ((final(arena)@, final(active)@), final(occupied)@, final(channels)@) == chain_step(
            tc.segments@,
            notes@,
            standalone@,
            ((old(arena)@, old(active)@), old(occupied)@, old(channels)@),
            chain@,
        ),
        final(channels)@.len() == 36,
        actives_ok(final(arena)@, final(active)@),
{
    let ghost segs = tc.segments@;
    let fc = remove_adjacent_visible_relay_duplicates(notes, chain);
    proof {
        lemma_filter_chain_ok(notes@, chain@, chain@.len() as int);
    }
    if fc.len() == 0 {
        return ;
    }
    let start = notes[fc[0]].ticks;
    let end = notes[fc[fc.len() - 1]].ticks;
    let channel = pick_channel_exec(channels, start);
    let updated = match channels[channel] {
        None => Some(end),
        Some(v) => Some(
            if v > end {
                v
            } else {
                end
            },
        ),
    };
    channels.set(channel, updated);
    let decoration = is_decoration_slide_chain(notes, &fc);
    let hidden = is_hidden_head_slide_chain(notes, &fc, standalone);
    let mut previous: usize = NO_NOTE;
    let mut head: usize = NO_NOTE;
    let mut deferred: Vec<RawNote> = Vec::new();
    let ghost st0: ChainState = ((arena@, active@), occupied@, NO_NOTE, NO_NOTE, Seq::<RawNote>::empty());
    let mut j: usize = 0;
    while j < fc.len()
        invariant
            j <= fc@.len(),
            chain_ok(notes@, fc@),
            notes_ok(notes@, segs),
            segs == tc.segments@,
            super::segments_ok(segs),
            channel < 36,
            ((arena@, active@), occupied@, previous, head, deferred@) == chain_notes(
                segs,
                notes@,
                fc@,
                channel as int,
                decoration,
                hidden,
                st0,
                j as int,
            ),
            previous == NO_NOTE || previous < arena@.len(),
            deferred_ok(deferred@, segs),
            actives_ok(arena@, active@),
        decreases fc@.len() - j,
    {
        let (p, h) = build_chain_note(
            arena,
            active,
            occupied,
            previous,
            head,
            &mut deferred,
            notes,
            &fc,
            j,
            channel,
            decoration,
            hidden,
            tc,
        );
        previous = p;
        head = h;
        j = j + 1;
    }
    push_deferred_taps(arena, active, &deferred, standalone, tc);
}

/// Every deferred tap fits the lane arithmetic and has a bar.
pub open spec fn deferred_ok(deferred: Seq<RawNote>, segs: Seq<TickSegment>) -> bool {
    forall|d: int|
        0 <= d < deferred.len() ==> raw_note_ok(#[trigger] deferred[d]) && spec_to_bar(
            segs,
            deferred[d].ticks as int,
        ) is Some
}

/// Position `j` of a filtered chain becomes a slide (see `chain_note_step`);
/// the new previous slide and head.
#[verifier::rlimit(40)]
fn build_chain_note(
    arena: &mut Vec<NoteData>,
    active: &mut Vec<usize>,
    occupied: &mut Vec<(i64, i32)>,
    previous: usize,
    head: usize,
    deferred: &mut Vec<RawNote>,
    notes: &Vec<RawNote>,
    fc: &Vec<usize>,
    j: usize,
    channel: usize,
    decoration: bool,
    hidden: bool,
    tc: &super::TickConverter,
) -> (r: (usize, usize))
    requires
        j < fc@.len(),
        chain_ok(notes@, fc@),
        notes_ok(notes@, tc.segments@),
        super::segments_ok(tc.segments@),
        channel < 36,
        previous == NO_NOTE || previous < old(arena)@.len(),
        deferred_ok(old(deferred)@, tc.segments@),
        actives_ok(old(arena)@, old(active)@),
    ensures
        ((final(arena)@, final(active)@), final(occupied)@, r.0, r.1, final(deferred)@)
            == chain_note_step(
            tc.segments@,
            notes@,
            fc@,
            channel as int,
            decoration,
            hidden,
            ((old(arena)@, old(active)@), old(occupied)@, previous, head, old(deferred)@),
            j as int,
        ),
        r.0 < final(arena)@.len(),
        deferred_ok(final(deferred)@, tc.segments@),
        actives_ok(final(arena)@, final(active)@),
{
    let ghost segs = tc.segments@;
    let note = &notes[fc[j]];
    proof {
        assert(raw_note_ok(notes@[fc@[j as int] as int]));
    }
    let base = note.note_base_type;
    let deco = decoration || is_decoration_slide_note(note);
    let stype = get_slide_type(note, j == fc.len() - 1);
    let out = if stype == 3 && is_visible_relay_attachment(note) {
        with_visible_relay_attachment_slot(note, occupied)
    } else {
        *note
    };
    let slide_idx = arena.len();
    let h = if head == NO_NOTE {
        slide_idx
    } else {
        head
    };
    let ghost occ2 = occupied@;
    let ghost a0 = arena@;
    let slide = Slide {
        channel: channel as i32,
        decoration: deco,
        tap_idx: NO_NOTE,
        directional_idx: NO_NOTE,
        next_idx: NO_NOTE,
        head_idx: h,
    };
    arena.push(NoteData::Slide(make_base(tc, note, &out, stype), slide));
    active.push(slide_idx);
    let ghost a1 = arena@;
    if previous != NO_NOTE {
        if let NoteData::Slide(pb, ps) = arena[previous] {
            arena.set(previous, NoteData::Slide(pb, Slide { next_idx: slide_idx, ..ps }));
        }
    }
    let ghost a2 = arena@;
    proof {
        if previous != NO_NOTE {
            assert(a2 =~= a1.update(
                previous as int,
                set_slide(
                    a1[previous as int],
                    Slide { next_idx: slide_idx as usize, ..slide_part(a1[previous as int]) },
                ),
            ));
        }
    }
    let defer = attach_connected_note(
        arena,
        slide_idx,
        note,
        &out,
        hidden && j == 0 && (base == 9 || base == 12),
        tc,
    );
    if defer {
        deferred.push(out);
    }
    proof {
        assert forall|i: int| 0 <= i < active@.len() implies #[trigger] active@[i] < arena@.len() by {
            if i < old(active)@.len() {
                assert(active@[i] == old(active)@[i]);
            }
        }
        let st = ((old(arena)@, old(active)@), old(occupied)@, previous, head, old(deferred)@);
        let n = notes@[fc@[j as int] as int];
        assert(n == *note);
        assert(stype == spec_slide_type(n, j + 1 == fc@.len()));
        assert((out, occ2) == (if stype == 3 && is_relay_attachment(n) {
            place_relay(n, old(occupied)@)
        } else {
            (n, old(occupied)@)
        }));
        assert(slide_idx == a0.len());
        assert(a0 == old(arena)@);
    }
    (slide_idx, h)
}

/// The deferred critical cancel taps drawn on their own (see `deferred_taps`).
fn push_deferred_taps(
    arena: &mut Vec<NoteData>,
    active: &mut Vec<usize>,
    deferred: &Vec<RawNote>,
    standalone: &Vec<(i64, i32, i32)>,
    tc: &super::TickConverter,
)
    requires
        super::segments_ok(tc.segments@),
        deferred_ok(deferred@, tc.segments@),
        actives_ok(old(arena)@, old(active)@),
    ensures
        (final(arena)@, final(active)@) == deferred_taps(
            tc.segments@,
            (old(arena)@, old(active)@),
            deferred@,
            standalone@,
            deferred@.len() as int,
        ),
        actives_ok(final(arena)@, final(active)@),
{
    let ghost segs = tc.segments@;
    let ghost b1: Builder = (arena@, active@);
    let mut k: usize = 0;
    while k < deferred.len()
        invariant
            k <= deferred@.len(),
            segs == tc.segments@,
            super::segments_ok(segs),
            deferred_ok(deferred@, segs),
            (arena@, active@) == deferred_taps(segs, b1, deferred@, standalone@, k as int),
            actives_ok(arena@, active@),
        decreases deferred@.len() - k,
    {
        let d = &deferred[k];
        proof {
            assert(raw_note_ok(deferred@[k as int]));
        }
        let ghost prev = (arena@, active@);
        if !contains_slot(standalone, super::note_slot_key(d)) {
            let idx = arena.len();
            arena.push(NoteData::Tap(make_base(tc, d, d, 8), Tap));
            active.push(idx);
            proof {
                assert forall|i: int| 0 <= i < active@.len() implies #[trigger] active@[i]
                    < arena@.len() by {
                    if i < prev.1.len() {
                        assert(active@[i] == prev.1[i]);
                    }
                }
            }
        }
        proof {
            assert((arena@, active@) =~~= deferred_taps(segs, b1, deferred@, standalone@, k as int + 1));
        }
        k = k + 1;
    }
}

/// The tap type of a standalone note (see `standalone_type`).
fn standalone_tap_type(
    note: &RawNote,
    connected_slide_slots: &Vec<(i64, i32, i32)>,
    hidden_head_slide_slots: &Vec<(i64, i32, i32)>,
) -> (r: i32)
    requires
        raw_note_ok(*note),
    ensures
        r == standalone_type(*note, connected_slide_slots@, hidden_head_slide_slots@),
{
    let tap_type = super::tap_type_from_json(note, 1);
    if tap_type == 5 || tap_type == 6 {
        return tap_type;
    }
    let key = super::note_slot_key(note);
    if contains_slot(hidden_head_slide_slots, key) {
        return tap_type;
    }
    if contains_slot(connected_slide_slots, key) {
        return super::downgrade_critical_tap_type(tap_type);
    }
    tap_type
}

/// A standalone note as standing notes (see `standalone_step`).
fn add_standalone_note(
    arena: &mut Vec<NoteData>,
    active: &mut Vec<usize>,
    note: &RawNote,
    connected_slide_slots: &Vec<(i64, i32, i32)>,
    hidden_head_slide_slots: &Vec<(i64, i32, i32)>,
    tc: &super::TickConverter,
)
    requires
        super::segments_ok(tc.segments@),
        raw_note_ok(*note),
        spec_to_bar(tc.segments@, note.ticks as int) is Some,
        actives_ok(old(arena)@, old(active)@),
    ensures
        (final(arena)@, final(active)@) == standalone_step(
            tc.segments@,
            (old(arena)@, old(active)@),
            *note,
            connected_slide_slots@,
            hidden_head_slide_slots@,
        ),
        actives_ok(final(arena)@, final(active)@),
{
    let k0 = arena.len();
    if note.note_base_type == 3 || note.category == 3 {
        let t = standalone_tap_type(note, connected_slide_slots, hidden_head_slide_slots);
        arena.push(NoteData::Tap(make_base(tc, note, note, t), Tap));
        let d = super::direction_to_directional(note.direction);
        arena.push(NoteData::Directional(make_base(tc, note, note, d), Directional { tap_idx: k0 }));
        active.push(arena.len() - 1);
    } else if note.note_base_type == 4 || note.category == 8 {
        let t = super::tap_type_from_json(note, 1);
        if note.direction == 1 || note.direction == 2 || t == 5 || t == 6 {
            arena.push(NoteData::Tap(make_base(tc, note, note, t), Tap));
            let d = super::direction_to_directional(note.direction);
            arena.push(
                NoteData::Directional(make_base(tc, note, note, d), Directional { tap_idx: k0 }),
            );
            active.push(arena.len() - 1);
        } else {
            arena.push(NoteData::Tap(make_base(tc, note, note, t), Tap));
            active.push(k0);
        }
    } else {
        let t = standalone_tap_type(note, connected_slide_slots, hidden_head_slide_slots);
        arena.push(NoteData::Tap(make_base(tc, note, note, t), Tap));
        active.push(k0);
    }
    proof {
        assert forall|i: int| 0 <= i < active@.len() implies #[trigger] active@[i] < arena@.len() by {
            if i < old(active)@.len() {
                assert(active@[i] == old(active)@[i]);
            }
        }
    }
}

/// Whether standing note `x` sorts before `y` in the arena: by bar, then lane.
pub open spec fn active_before(arena: Seq<NoteData>) -> spec_fn(usize, usize) -> bool {
    |x: usize, y: usize|
        {
            let a = base_of(arena[x as int]);
            let b = base_of(arena[y as int]);
            frac_lt(a.bar@, b.bar@) || (a.bar == b.bar && a.lane < b.lane)
        }
}

/// Whether standing note `x` sorts before `y`.
fn active_precedes(arena: &Vec<NoteData>, x: usize, y: usize) -> (r: bool)
    requires
        x < arena@.len(),
        y < arena@.len(),
    ensures
        r == (active_before(arena@))(x, y),
{
    let a = arena[x].base();
    let b = arena[y].base();
    a.bar.lt(&b.bar) || (a.bar == b.bar && a.lane < b.lane)
}

/// The standing notes sorted by bar, then lane (notes that tie keep their order).
fn sort_active(arena: &Vec<NoteData>, active: &Vec<usize>) -> (r: Vec<usize>)
    requires
        actives_ok(arena@, active@),
    ensures
        r@ == crate::sorting::sort_stable(active@, active_before(arena@)),
{
    let ghost before = active_before(arena@);
    let mut sorted: Vec<usize> = Vec::new();
    let mut j: usize = 0;
    while j < active.len()
        invariant
            j <= active@.len(),
            actives_ok(arena@, active@),
            before == active_before(arena@),
            sorted@ == crate::sorting::sort_stable(active@.subrange(0, j as int), before),
            forall|i: int| 0 <= i < sorted@.len() ==> #[trigger] sorted@[i] < arena@.len(),
        decreases active@.len() - j,
    {
        proof {
            crate::sorting::lemma_sort_stable_step(active@, j as int, before);
            crate::sorting::lemma_insert_stable_elements(
                active@[j as int],
                sorted@,
                before,
            );
        }
        let x = active[j];
        let mut k: usize = 0;
        while k < sorted.len() && !active_precedes(arena, x, sorted[k])
            invariant
                k <= sorted@.len(),
                x < arena@.len(),
                before == active_before(arena@),
                forall|i: int| 0 <= i < sorted@.len() ==> #[trigger] sorted@[i] < arena@.len(),
                forall|i: int| 0 <= i < k ==> !before(x, #[trigger] sorted@[i]),
            decreases sorted@.len() - k,
        {
            k = k + 1;
        }
        proof {
            crate::sorting::lemma_insert_stable_at(x, sorted@, before, k as int);
        }
        let ghost old_sorted = sorted@;
        sorted.insert(k, x);
        proof {
            assert(sorted@ =~= old_sorted.subrange(0, k as int) + seq![x] + old_sorted.subrange(
                k as int,
                old_sorted.len() as int,
            ));
            assert forall|i: int| 0 <= i < sorted@.len() implies #[trigger] sorted@[i] < arena@.len() by {
                if i < k {
                    assert(sorted@[i] == old_sorted[i]);
                } else if i > k {
                    assert(sorted@[i] == old_sorted[i - 1]);
                }
            }
        }
        j = j + 1;
    }
    proof {
        assert(active@.subrange(0, j as int) =~= active@);
    }
    sorted
}

/// Whether raw note `a` sorts before `b`: by tick, lane start, then id.
pub open spec fn raw_before() -> spec_fn(RawNote, RawNote) -> bool {
    |a: RawNote, b: RawNote|
        a.ticks < b.ticks || (a.ticks == b.ticks && (a.lane_start < b.lane_start || (a.lane_start
            == b.lane_start && a.id < b.id)))
}

/// No channel used yet.
pub open spec fn fresh_channels() -> Seq<Option<i64>> {
    Seq::new(36, |i: int| None::<i64>)
}

/// The arena and the standing notes of a JSON chart's notes: sorted by
/// tick, lane and id; the chains built as slides on channels; the
/// standalone notes after them; the standing notes sorted by bar and lane.
pub open spec fn spec_parse_notes(segs: Seq<TickSegment>, input: Seq<RawNote>) -> Builder {
    let notes = crate::sorting::sort_stable(input, raw_before());
    let (chains, vis) = super::chains::spec_build_chains(notes);
    let connected = chain_slots(notes, chains, chains.len() as int);
    let occ0 = chains_tap_slots(notes, chains, chains.len() as int) + standalone_tap_slots(
        notes,
        vis,
        notes.len() as int,
    );
    let standalone = standalone_slots(notes, vis, notes.len() as int);
    let hidden = hidden_head_slots(notes, chains, standalone, chains.len() as int);
    let built = chains_built(
        segs,
        notes,
        chains,
        standalone,
        ((seq![], seq![]), occ0, fresh_channels()),
        chains.len() as int,
    );
    let b = standalone_built(segs, notes, vis, connected, hidden, built.0, notes.len() as int);
    (b.0, crate::sorting::sort_stable(b.1, active_before(b.0)))
}

/// Whether raw note `a` sorts before `b`.
fn raw_precedes(a: &RawNote, b: &RawNote) -> (r: bool)
    ensures
        r == (raw_before())(*a, *b),
{
    a.ticks < b.ticks || (a.ticks == b.ticks && (a.lane_start < b.lane_start || (a.lane_start
        == b.lane_start && a.id < b.id)))
}

/// The notes sorted by tick, lane start and id.
fn sort_raw_notes(notes: &Vec<RawNote>) -> (r: Vec<RawNote>)
    ensures
        r@ == crate::sorting::sort_stable(notes@, raw_before()),
{
    let mut sorted: Vec<RawNote> = Vec::new();
    let mut j: usize = 0;
    while j < notes.len()
        invariant
            j <= notes@.len(),
            sorted@ == crate::sorting::sort_stable(notes@.subrange(0, j as int), raw_before()),
        decreases notes@.len() - j,
    {
        proof {
            crate::sorting::lemma_sort_stable_step(notes@, j as int, raw_before());
        }
        let x = notes[j];
        let mut k: usize = 0;
        while k < sorted.len() && !raw_precedes(&x, &sorted[k])
            invariant
                k <= sorted@.len(),
                forall|i: int| 0 <= i < k ==> !(raw_before())(x, #[trigger] sorted@[i]),
            decreases sorted@.len() - k,
        {
            k = k + 1;
        }
        proof {
            crate::sorting::lemma_insert_stable_at(x, sorted@, raw_before(), k as int);
        }
        let ghost old_sorted = sorted@;
        sorted.insert(k, x);
        proof {
            assert(sorted@ =~= old_sorted.subrange(0, k as int) + seq![x] + old_sorted.subrange(
                k as int,
                old_sorted.len() as int,
            ));
        }
        j = j + 1;
    }
    proof {
        assert(notes@.subrange(0, j as int) =~= notes@);
    }
    sorted
}

/// The arena and standing notes of a JSON chart's notes (see `spec_parse_notes`).
pub fn parse_notes(note_data: &Vec<RawNote>, tick_converter: &super::TickConverter) -> (r: (
    Vec<NoteData>,
    Vec<usize>,
))
    requires
        notes_ok(note_data@, tick_converter.segments@),
        super::segments_ok(tick_converter.segments@),
    ensures
        (r.0@, r.1@) == spec_parse_notes(tick_converter.segments@, note_data@),
{
    let ghost segs = tick_converter.segments@;
    let raw = sort_raw_notes(note_data);
    proof {
        crate::sorting::lemma_sort_stable_elements(note_data@, raw_before());
        crate::sorting::lemma_sort_stable_len(note_data@, raw_before());
        assert forall|i: int| 0 <= i < raw@.len() implies raw_note_ok(#[trigger] raw@[i])
            && spec_to_bar(segs, raw@[i].ticks as int) is Some by {
            assert(note_data@.contains(raw@[i]));
            let j = choose|j: int| 0 <= j < note_data@.len() && note_data@[j] == raw@[i];
            assert(raw_note_ok(note_data@[j]));
        }
        assert(notes_ok(raw@, segs));
        assert(lanes_ok(raw@));
    }
    let (chains, visited) = super::chains::build_chains(&raw);
    let ghost cv = chains_view(chains@);
    proof {
        super::chains::lemma_chains_in_range(raw@, raw@.len() as int);
        assert forall|c: int| 0 <= c < cv.len() implies chain_ok(raw@, #[trigger] cv[c]) by {
            assert forall|j: int| 0 <= j < cv[c].len() implies #[trigger] cv[c][j] < raw@.len() by {
                assert(cv[c][j] == super::chains::loose_chains(raw@, raw@.len() as int).0[c][j]);
            }
        }
    }
    let connected = collect_chain_slots(&raw, &chains);
    let mut occupied = collect_occupied(&raw, &chains, &visited);
    let standalone = collect_standalone_slots(&raw, &visited);
    let hidden = collect_hidden_head_slots(&raw, &chains, &standalone);
    let mut arena: Vec<NoteData> = Vec::new();
    let mut active: Vec<usize> = Vec::new();
    let mut channels: Vec<Option<i64>> = Vec::new();
    let mut i: usize = 0;
    while i < 36
        invariant
            i <= 36,
            channels@ == Seq::new(i as nat, |x: int| None::<i64>),
        decreases 36 - i,
    {
        channels.push(None);
        proof {
            assert(channels@ =~= Seq::new((i + 1) as nat, |x: int| None::<i64>));
        }
        i = i + 1;
    }
    let ghost st0: ChainsState = ((arena@, active@), occupied@, channels@);
    proof {
        assert(channels@ =~= fresh_channels());
    }
    let mut c: usize = 0;
    while c < chains.len()
        invariant
            c <= chains@.len(),
            cv == chains_view(chains@),
            chains_ok(raw@, cv),
            notes_ok(raw@, segs),
            segs == tick_converter.segments@,
            super::segments_ok(segs),
            channels@.len() == 36,
            ((arena@, active@), occupied@, channels@) == chains_built(
                segs,
                raw@,
                cv,
                standalone@,
                st0,
                c as int,
            ),
            actives_ok(arena@, active@),
        decreases chains@.len() - c,
    {
        proof {
            assert(cv[c as int] == chains@[c as int]@);
            assert(chain_ok(raw@, cv[c as int]));
        }
        build_chain(
            &mut arena,
            &mut active,
            &mut occupied,
            &mut channels,
            &raw,
            &chains[c],
            &standalone,
            tick_converter,
        );
        c = c + 1;
    }
    let ghost b0: Builder = (arena@, active@);
    let mut k: usize = 0;
    while k < raw.len()
        invariant
            k <= raw@.len(),
            notes_ok(raw@, segs),
            segs == tick_converter.segments@,
            super::segments_ok(segs),
            (arena@, active@) == standalone_built(
                segs,
                raw@,
                visited@,
                connected@,
                hidden@,
                b0,
                k as int,
            ),
            actives_ok(arena@, active@),
        decreases raw@.len() - k,
    {
        let note = &raw[k];
        proof {
            assert(raw_note_ok(raw@[k as int]));
        }
        if !super::chains::contains_id(&visited, note.id) {
            add_standalone_note(&mut arena, &mut active, note, &connected, &hidden, tick_converter);
        }
        k = k + 1;
    }
    let sorted = sort_active(&arena, &active);
    (arena, sorted)
}

} // verus!
