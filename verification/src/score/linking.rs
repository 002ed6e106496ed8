//! Linking the note arena: taps and directionals merge into the directional
//! or slide that shares their slot, slides chain to the next slide of their
//! channel, and notes outside the playable lanes are dropped.
use crate::fraction::frac_lt;
use crate::notes::directional::Directional;
use crate::notes::event::{empty_view, Event, EventView};
use crate::notes::slide::{Slide, SlideType};
use crate::notes::{arena_wf, base_of, links_ok, NoteData, NO_NOTE};
use crate::sorting::{insert_stable, lemma_insert_stable_at, lemma_sort_stable_step, sort_stable};
use vstd::prelude::*;

verus! {

/// Whether a note lies in a playable lane (2 to 13).
pub open spec fn lane_ok(n: NoteData) -> bool {
    2 <= base_of(n).lane <= 13
}

/// Whether note `a` sorts strictly before `b` (by bar).
pub open spec fn note_before() -> spec_fn(NoteData, NoteData) -> bool {
    |a: NoteData, b: NoteData| frac_lt(base_of(a).bar@, base_of(b).bar@)
}

/// Two notes occupy one slot: same bar, lane and width.
pub open spec fn share_slot(a: NoteData, b: NoteData) -> bool {
    &&& base_of(a).bar == base_of(b).bar
    &&& base_of(a).lane == base_of(b).lane
    &&& base_of(a).width == base_of(b).width
}

/// Note `j` is a tap, still free, in the slot of note `i`.
pub open spec fn tap_match(notes: Seq<NoteData>, del: Seq<bool>, i: int, j: int) -> bool {
    !del[j] && notes[j] is Tap && share_slot(notes[i], notes[j])
}

/// Note `j` is a directional, still free, in the slot of note `i`.
pub open spec fn dir_match(notes: Seq<NoteData>, del: Seq<bool>, i: int, j: int) -> bool {
    !del[j] && notes[j] is Directional && share_slot(notes[i], notes[j])
}

/// The last `j < k` with `tap_match`, or -1.
pub open spec fn last_tap_match(notes: Seq<NoteData>, del: Seq<bool>, i: int, k: int) -> int
    decreases k,
{
    if k <= 0 {
        -1
    } else if tap_match(notes, del, i, k - 1) {
        k - 1
    } else {
        last_tap_match(notes, del, i, k - 1)
    }
}

/// The last `j < k` with `dir_match`, or -1.
pub open spec fn last_dir_match(notes: Seq<NoteData>, del: Seq<bool>, i: int, k: int) -> int
    decreases k,
{
    if k <= 0 {
        -1
    } else if dir_match(notes, del, i, k - 1) {
        k - 1
    } else {
        last_dir_match(notes, del, i, k - 1)
    }
}

/// The tap carried by a directional note (`NO_NOTE` for other notes).
pub open spec fn directional_tap(n: NoteData) -> usize {
    match n {
        NoteData::Directional(_, d) => d.tap_idx,
        _ => NO_NOTE,
    }
}

/// The tap carried by the last directional `j < k` with `dir_match` that
/// carries one, or -1.
pub open spec fn last_dir_tap(notes: Seq<NoteData>, del: Seq<bool>, i: int, k: int) -> int
    decreases k,
{
    if k <= 0 {
        -1
    } else if dir_match(notes, del, i, k - 1) && directional_tap(notes[k - 1]) != NO_NOTE {
        directional_tap(notes[k - 1]) as int
    } else {
        last_dir_tap(notes, del, i, k - 1)
    }
}

/// The deleted flags once note `i` has taken every free tap of its slot.
pub open spec fn claim_taps(notes: Seq<NoteData>, del: Seq<bool>, i: int) -> Seq<bool> {
    Seq::new(del.len(), |j: int| del[j] || tap_match(notes, del, i, j))
}

/// The deleted flags once note `i` has taken every free directional of its slot.
pub open spec fn claim_dirs(notes: Seq<NoteData>, del: Seq<bool>, i: int) -> Seq<bool> {
    Seq::new(del.len(), |j: int| del[j] || dir_match(notes, del, i, j))
}

/// A directional note with its tap link set to `t`.
pub open spec fn with_directional_tap(n: NoteData, t: usize) -> NoteData {
    match n {
        NoteData::Directional(b, _) => NoteData::Directional(b, Directional { tap_idx: t }),
        _ => n,
    }
}

/// The slide part of a note (an unlinked slide for other notes).
pub open spec fn slide_of(n: NoteData) -> Slide {
    match n {
        NoteData::Slide(_, s) => s,
        _ => Slide {
            channel: 0,
            decoration: false,
            tap_idx: NO_NOTE,
            directional_idx: NO_NOTE,
            next_idx: NO_NOTE,
            head_idx: NO_NOTE,
        },
    }
}

/// A slide note with its slide part replaced by `s`.
pub open spec fn with_slide(n: NoteData, s: Slide) -> NoteData {
    match n {
        NoteData::Slide(b, _) => NoteData::Slide(b, s),
        _ => n,
    }
}

/// Linking state: the arena and, per note, whether it was merged away or dropped.
pub type LinkState = (Seq<NoteData>, Seq<bool>);

/// A free directional `i` takes the free taps of its slot, the last one as its tap.
pub open spec fn link_directional_step(st: LinkState, i: int) -> LinkState {
    let (notes, del) = st;
    if del[i] || !(notes[i] is Directional) {
        st
    } else {
        let t = last_tap_match(notes, del, i, notes.len() as int);
        (
            if t >= 0 {
                notes.update(i, with_directional_tap(notes[i], t as usize))
            } else {
                notes
            },
            claim_taps(notes, del, i),
        )
    }
}

/// The first `k` notes, in order, have taken their taps.
pub open spec fn directionals_linked(st: LinkState, k: int) -> LinkState
    decreases k,
{
    if k <= 0 {
        st
    } else {
        link_directional_step(directionals_linked(st, k - 1), k - 1)
    }
}

/// Slide `i` after it heads its chain (when no earlier slide linked it),
/// takes the free taps of its slot, then the free directionals (and the tap
/// of the last one that carries one).
pub open spec fn linked_slide(notes: Seq<NoteData>, del: Seq<bool>, i: int) -> Slide {
    let n = notes.len() as int;
    let s0 = slide_of(notes[i]);
    let s1 = if s0.head_idx == NO_NOTE {
        Slide { head_idx: i as usize, ..s0 }
    } else {
        s0
    };
    let t = last_tap_match(notes, del, i, n);
    let s2 = if t >= 0 {
        Slide { tap_idx: t as usize, ..s1 }
    } else {
        s1
    };
    let del2 = claim_taps(notes, del, i);
    let d = last_dir_match(notes, del2, i, n);
    let s3 = if d >= 0 {
        Slide { directional_idx: d as usize, ..s2 }
    } else {
        s2
    };
    let dt = last_dir_tap(notes, del2, i, n);
    if dt >= 0 {
        Slide { tap_idx: dt as usize, ..s3 }
    } else {
        s3
    }
}

/// Note `k` is a free slide of channel `ch` and decoration kind `deco`.
pub open spec fn next_candidate(notes: Seq<NoteData>, del: Seq<bool>, ch: int, deco: bool, k: int) -> bool {
    !del[k] && notes[k] is Slide && slide_of(notes[k]).channel == ch && slide_of(notes[k]).decoration
        == deco
}

/// The first `j >= k` that is a `next_candidate`, or -1.
pub open spec fn first_next_slide(
    notes: Seq<NoteData>,
    del: Seq<bool>,
    ch: int,
    deco: bool,
    k: int,
) -> int
    decreases notes.len() - k,
{
    if k < 0 || k >= notes.len() {
        -1
    } else if next_candidate(notes, del, ch, deco, k) {
        k
    } else {
        first_next_slide(notes, del, ch, deco, k + 1)
    }
}

/// Slide `i` (already linked to its own attachments) linked to the next free
/// slide of its channel and kind, which joins its chain; a slide that ends
/// its chain (type 2) links nothing.
pub open spec fn link_next(notes: Seq<NoteData>, del: Seq<bool>, i: int) -> Seq<NoteData> {
    let s = slide_of(notes[i]);
    if base_of(notes[i]).note_type == 2 {
        notes
    } else {
        let k = first_next_slide(notes, del, s.channel as int, s.decoration, i + 1);
        if k < 0 {
            notes
        } else {
            let notes2 = notes.update(i, with_slide(notes[i], Slide { next_idx: k as usize, ..s }));
            notes2.update(
                k,
                with_slide(notes2[k], Slide { head_idx: s.head_idx, ..slide_of(notes2[k]) }),
            )
        }
    }
}

/// A free slide `i` links itself (`linked_slide`), then the next slide of its chain.
pub open spec fn link_slide_step(st: LinkState, i: int) -> LinkState {
    let (notes, del) = st;
    if del[i] || !(notes[i] is Slide) {
        st
    } else {
        let del3 = claim_dirs(notes, claim_taps(notes, del, i), i);
        let notes1 = notes.update(i, with_slide(notes[i], linked_slide(notes, del, i)));
        (link_next(notes1, del3, i), del3)
    }
}

/// The first `k` notes, in order, have linked as slides.
pub open spec fn slides_linked(st: LinkState, k: int) -> LinkState
    decreases k,
{
    if k <= 0 {
        st
    } else {
        link_slide_step(slides_linked(st, k - 1), k - 1)
    }
}

/// Notes outside the playable lanes start out deleted.
pub open spec fn initial_deleted(notes: Seq<NoteData>) -> Seq<bool> {
    Seq::new(notes.len(), |i: int| !lane_ok(notes[i]))
}

/// The arena and deleted flags once every pass has run.
pub open spec fn link_notes(notes: Seq<NoteData>) -> LinkState {
    let n = notes.len() as int;
    slides_linked(directionals_linked((notes, initial_deleted(notes)), n), n)
}

/// The indices `j < k` that are not deleted, in order.
pub open spec fn active_indices(del: Seq<bool>, k: int) -> Seq<usize>
    decreases k,
{
    if k <= 0 {
        seq![]
    } else {
        active_indices(del, k - 1) + if !del[k - 1] {
            seq![(k - 1) as usize]
        } else {
            seq![]
        }
    }
}

/// The standing notes lie in the arena, in increasing order.
pub proof fn lemma_active_indices(del: Seq<bool>, k: int)
    requires
        0 <= k <= del.len(),
        del.len() <= usize::MAX,
    ensures
        forall|i: int| 0 <= i < active_indices(del, k).len() ==> #[trigger] active_indices(del, k)[i] < k,
        forall|i: int, j: int|
            0 <= i < j < active_indices(del, k).len() ==> active_indices(del, k)[i] < active_indices(
                del,
                k,
            )[j],
        forall|i: int| 0 <= i < active_indices(del, k).len() ==> !del[#[trigger] active_indices(del, k)[i] as int],
    decreases k,
{
    if k > 0 {
        lemma_active_indices(del, k - 1);
        let a = active_indices(del, k - 1);
        if !del[k - 1] {
            let b = a + seq![(k - 1) as usize];
            assert(active_indices(del, k) == b);
            assert forall|i: int| 0 <= i < b.len() implies #[trigger] b[i] < k && !del[b[i] as int] by {
                if i < a.len() {
                    assert(b[i] == a[i]);
                } else {
                    assert(b[i] as int == k - 1);
                }
            }
            assert forall|i: int, j: int| 0 <= i < j < b.len() implies b[i] < b[j] by {
                assert(b[i] == a[i]);
                if j < a.len() {
                    assert(b[j] == a[j]);
                } else {
                    assert(b[j] as int == k - 1);
                }
            }
        } else {
            assert(active_indices(del, k) =~= a);
        }
    }
}

/// The label of the event that stands for a dropped note.
pub open spec fn invalid_note_text(n: NoteData) -> Seq<char> {
    if base_of(n).lane == 0 {
        "SKILL"@
    } else if base_of(n).note_type == 1 {
        "FEVER CHANCE!"@
    } else {
        "SUPER FEVER!!"@
    }
}

/// The event, as content, that stands for a dropped note.
pub open spec fn invalid_note_event_view(n: NoteData) -> EventView {
    EventView { text: Some(invalid_note_text(n)), ..empty_view(base_of(n).bar) }
}

/// The events that stand for the dropped notes among the first `k`.
pub open spec fn invalid_note_events(notes: Seq<NoteData>, k: int) -> Seq<EventView>
    decreases k,
{
    if k <= 0 {
        seq![]
    } else {
        invalid_note_events(notes, k - 1) + if lane_ok(notes[k - 1]) {
            seq![]
        } else {
            seq![invalid_note_event_view(notes[k - 1])]
        }
    }
}

/// Whether two notes occupy one slot.
pub fn notes_share_slot(left: &NoteData, right: &NoteData) -> (r: bool)
    ensures
        r == share_slot(*left, *right),
{
    left.bar() == right.bar() && left.lane() == right.lane() && left.width() == right.width()
}

/// Whether note `a` sorts strictly before `b`.
fn note_precedes(a: &NoteData, b: &NoteData) -> (r: bool)
    ensures
        r == (note_before())(*a, *b),
{
    a.bar().lt(&b.bar())
}

/// Inserts `x` into `v`, which is sorted by bar, after every note it does not precede.
fn insert_note(v: &mut Vec<NoteData>, x: NoteData)
    ensures
        final(v)@ == insert_stable(x, old(v)@, note_before()),
{
    let mut k: usize = 0;
    while k < v.len() && !note_precedes(&x, &v[k])
        invariant
            k <= v.len(),
            v@ == old(v)@,
            forall|j: int| 0 <= j < k ==> !(note_before())(x, #[trigger] v@[j]),
        decreases v.len() - k,
    {
        k = k + 1;
    }
    proof {
        lemma_insert_stable_at(x, v@, note_before(), k as int);
    }
    v.insert(k, x);
    proof {
        assert(v@ =~= old(v)@.subrange(0, k as int) + seq![x] + old(v)@.subrange(
            k as int,
            old(v)@.len() as int,
        ));
    }
}

/// The notes sorted by bar; notes at one bar keep their order.
pub fn sort_notes(notes: &Vec<NoteData>) -> (r: Vec<NoteData>)
    ensures
        r@ == sort_stable(notes@, note_before()),
{
    let mut sorted: Vec<NoteData> = Vec::new();
    let mut k: usize = 0;
    while k < notes.len()
        invariant
            k <= notes.len(),
            sorted@ == sort_stable(notes@.subrange(0, k as int), note_before()),
        decreases notes.len() - k,
    {
        proof {
            lemma_sort_stable_step(notes@, k as int, note_before());
        }
        insert_note(&mut sorted, notes[k]);
        k = k + 1;
    }
    proof {
        assert(notes@.subrange(0, k as int) =~= notes@);
    }
    sorted
}

/// The event that stands for a note outside the playable lanes: a skill
/// mark in lane 0, else a fever mark by the note type.
pub fn invalid_note_event(note: &NoteData) -> (r: Event)
    ensures
        r@ == invalid_note_event_view(*note),
{
    let text = if note.lane() == 0 {
        "SKILL".to_owned()
    } else if note.note_type() == 1 {
        "FEVER CHANCE!".to_owned()
    } else {
        "SUPER FEVER!!".to_owned()
    };
    Event::new(note.bar()).with_text(text)
}

/// Marks the notes outside the playable lanes as deleted and adds an event
/// for each, in order.
pub fn index_valid_notes(notes: &Vec<NoteData>, events: &mut Vec<Event>) -> (r: Vec<bool>)
    ensures
        r@ == initial_deleted(notes@),
        final(events)@.map_values(|e: Event| e@) == old(events)@.map_values(|e: Event| e@)
            + invalid_note_events(notes@, notes@.len() as int),
        final(events)@.subrange(0, old(events)@.len() as int) == old(events)@,
{
    let mut deleted: Vec<bool> = Vec::new();
    let mut i: usize = 0;
    while i < notes.len()
        invariant
            i <= notes.len(),
            deleted@ == initial_deleted(notes@).subrange(0, i as int),
            events@.map_values(|e: Event| e@) == old(events)@.map_values(|e: Event| e@)
                + invalid_note_events(notes@, i as int),
            events@.len() >= old(events)@.len(),
            events@.subrange(0, old(events)@.len() as int) == old(events)@,
        decreases notes.len() - i,
    {
        let lane = notes[i].lane();
        if 2 <= lane && lane <= 13 {
            deleted.push(false);
        } else {
            deleted.push(true);
            let ghost before = events@;
            events.push(invalid_note_event(&notes[i]));
            proof {
                assert(events@.subrange(0, old(events)@.len() as int) =~= before.subrange(
                    0,
                    old(events)@.len() as int,
                ));
                assert(events@.map_values(|e: Event| e@) =~= before.map_values(|e: Event| e@)
                    + seq![invalid_note_event_view(notes@[i as int])]);
            }
        }
        proof {
            assert(deleted@ =~= initial_deleted(notes@).subrange(0, i as int + 1));
        }
        i = i + 1;
    }
    proof {
        assert(deleted@ =~= initial_deleted(notes@));
    }
    deleted
}

/// Marks the free taps in the slot of note `i` as deleted; the last one.
fn claim_slot_taps(notes: &Vec<NoteData>, i: usize, note_deleted: &mut Vec<bool>) -> (r: Option<usize>)
    requires
        notes@.len() == old(note_deleted)@.len(),
        i < notes@.len(),
        !(notes@[i as int] is Tap),
    ensures
        final(note_deleted)@ == claim_taps(notes@, old(note_deleted)@, i as int),
        r matches Some(t) ==> t as int == last_tap_match(
            notes@,
            old(note_deleted)@,
            i as int,
            notes@.len() as int,
        ) && t < notes@.len(),
        r is None ==> last_tap_match(notes@, old(note_deleted)@, i as int, notes@.len() as int) < 0,
{
    let ghost del0 = note_deleted@;
    let n = notes.len();
    let mut last: Option<usize> = None;
    let mut j: usize = 0;
    while j < n
        invariant
            j <= n,
            i < n,
            n == notes@.len(),
            n == del0.len(),
            note_deleted@.len() == n,
            forall|x: int|
                0 <= x < n ==> #[trigger] note_deleted@[x] == if x < j {
                    del0[x] || tap_match(notes@, del0, i as int, x)
                } else {
                    del0[x]
                },
            last matches Some(t) ==> t as int == last_tap_match(notes@, del0, i as int, j as int)
                && t < n,
            last is None ==> last_tap_match(notes@, del0, i as int, j as int) < 0,
        decreases n - j,
    {
        if !note_deleted[j] && notes[j].is_tap() && notes_share_slot(&notes[i], &notes[j]) {
            note_deleted.set(j, true);
            last = Some(j);
        }
        j = j + 1;
    }
    proof {
        assert(note_deleted@ =~= claim_taps(notes@, del0, i as int));
    }
    last
}

/// Marks the free directionals in the slot of note `i` as deleted; the last
/// one, and the tap of the last one that carries a tap.
fn claim_slot_directionals(notes: &Vec<NoteData>, i: usize, note_deleted: &mut Vec<bool>) -> (r: (
    Option<usize>,
    Option<usize>,
))
    requires
        notes@.len() == old(note_deleted)@.len(),
        i < notes@.len(),
        !(notes@[i as int] is Directional),
    ensures
        final(note_deleted)@ == claim_dirs(notes@, old(note_deleted)@, i as int),
        r.0 matches Some(d) ==> d as int == last_dir_match(
            notes@,
            old(note_deleted)@,
            i as int,
            notes@.len() as int,
        ) && d < notes@.len(),
        r.0 is None ==> last_dir_match(notes@, old(note_deleted)@, i as int, notes@.len() as int) < 0,
        r.1 matches Some(t) ==> t as int == last_dir_tap(
            notes@,
            old(note_deleted)@,
            i as int,
            notes@.len() as int,
        ),
        r.1 is None ==> last_dir_tap(notes@, old(note_deleted)@, i as int, notes@.len() as int) < 0,
{
    let ghost del0 = note_deleted@;
    let n = notes.len();
    let mut last: Option<usize> = None;
    let mut last_tap: Option<usize> = None;
    let mut j: usize = 0;
    while j < n
        invariant
            j <= n,
            i < n,
            n == notes@.len(),
            n == del0.len(),
            note_deleted@.len() == n,
            forall|x: int|
                0 <= x < n ==> #[trigger] note_deleted@[x] == if x < j {
                    del0[x] || dir_match(notes@, del0, i as int, x)
                } else {
                    del0[x]
                },
            last matches Some(t) ==> t as int == last_dir_match(notes@, del0, i as int, j as int)
                && t < n,
            last is None ==> last_dir_match(notes@, del0, i as int, j as int) < 0,
            last_tap matches Some(t) ==> t as int == last_dir_tap(notes@, del0, i as int, j as int),
            last_tap is None ==> last_dir_tap(notes@, del0, i as int, j as int) < 0,
        decreases n - j,
    {
        if !note_deleted[j] && notes_share_slot(&notes[i], &notes[j]) {
            if let NoteData::Directional(_, d) = notes[j] {
                note_deleted.set(j, true);
                last = Some(j);
                if d.tap_idx != NO_NOTE {
                    last_tap = Some(d.tap_idx);
                }
            }
        }
        j = j + 1;
    }
    proof {
        assert(note_deleted@ =~= claim_dirs(notes@, del0, i as int));
    }
    (last, last_tap)
}

/// A free directional `i` takes the free taps of its slot, the last one as its tap.
fn link_directional_taps(
    notes: &mut Vec<NoteData>,
    directional_idx: usize,
    note_deleted: &mut Vec<bool>,
)
    requires
        old(notes)@.len() == old(note_deleted)@.len(),
        directional_idx < old(notes)@.len(),
        !old(note_deleted)@[directional_idx as int],
        old(notes)@[directional_idx as int] is Directional,
    ensures
        final(notes)@ == link_directional_step(
            (old(notes)@, old(note_deleted)@),
            directional_idx as int,
        ).0,
        final(note_deleted)@ == link_directional_step(
            (old(notes)@, old(note_deleted)@),
            directional_idx as int,
        ).1,
        arena_wf(old(notes)@) ==> arena_wf(final(notes)@),
{
    let i = directional_idx;
    let last = claim_slot_taps(notes, i, note_deleted);
    if let Some(t) = last {
        if let NoteData::Directional(b, _) = notes[i] {
            notes.set(i, NoteData::Directional(b, Directional { tap_idx: t }));
        }
    }
    proof {
        if arena_wf(old(notes)@) {
            assert forall|x: int| 0 <= x < notes@.len() implies #[trigger] links_ok(
                notes@[x],
                notes@.len() as int,
            ) by {
                if x != i {
                    assert(notes@[x] == old(notes)@[x]);
                }
            }
        }
    }
}

/// Every free directional, in order, takes the free taps of its slot.
pub fn link_directional_attachments(notes: &mut Vec<NoteData>, note_deleted: &mut Vec<bool>)
    requires
        old(notes)@.len() == old(note_deleted)@.len(),
    ensures
        final(notes)@ == directionals_linked(
            (old(notes)@, old(note_deleted)@),
            old(notes)@.len() as int,
        ).0,
        final(note_deleted)@ == directionals_linked(
            (old(notes)@, old(note_deleted)@),
            old(notes)@.len() as int,
        ).1,
        final(notes)@.len() == old(notes)@.len(),
        final(note_deleted)@.len() == old(note_deleted)@.len(),
        arena_wf(old(notes)@) ==> arena_wf(final(notes)@),
{
    let ghost st0 = (notes@, note_deleted@);
    let n = notes.len();
    let mut i: usize = 0;
    while i < n
        invariant
            i <= n,
            n == st0.0.len(),
            notes@.len() == n,
            note_deleted@.len() == n,
            notes@ == directionals_linked(st0, i as int).0,
            note_deleted@ == directionals_linked(st0, i as int).1,
            arena_wf(st0.0) ==> arena_wf(notes@),
        decreases n - i,
    {
        if !note_deleted[i] && notes[i].is_directional() {
            link_directional_taps(notes, i, note_deleted);
        }
        i = i + 1;
    }
}

/// A slide heads its own chain unless an earlier slide linked it.
fn initialize_slide_head(s: Slide, slide_idx: usize) -> (r: Slide)
    ensures
        r == if s.head_idx == NO_NOTE {
            Slide { head_idx: slide_idx, ..s }
        } else {
            s
        },
{
    if s.head_idx == NO_NOTE {
        Slide { head_idx: slide_idx, ..s }
    } else {
        s
    }
}

/// Slide `i` (with links `s`) takes the free taps of its slot.
fn link_slide_taps(notes: &Vec<NoteData>, slide_idx: usize, s: Slide, note_deleted: &mut Vec<bool>) -> (r: Slide)
    requires
        notes@.len() == old(note_deleted)@.len(),
        slide_idx < notes@.len(),
        notes@[slide_idx as int] is Slide,
    ensures
        final(note_deleted)@ == claim_taps(notes@, old(note_deleted)@, slide_idx as int),
        r == if last_tap_match(notes@, old(note_deleted)@, slide_idx as int, notes@.len() as int)
            >= 0 {
            Slide {
                tap_idx: last_tap_match(
                    notes@,
                    old(note_deleted)@,
                    slide_idx as int,
                    notes@.len() as int,
                ) as usize,
                ..s
            }
        } else {
            s
        },
        r.tap_idx == s.tap_idx || r.tap_idx < notes@.len(),
{
    match claim_slot_taps(notes, slide_idx, note_deleted) {
        Some(t) => Slide { tap_idx: t, ..s },
        None => s,
    }
}

/// Slide `i` (with links `s`) takes the free directionals of its slot, and
/// the tap of the last one that carries one.
fn link_slide_directionals(
    notes: &Vec<NoteData>,
    slide_idx: usize,
    s: Slide,
    note_deleted: &mut Vec<bool>,
) -> (r: Slide)
    requires
        notes@.len() == old(note_deleted)@.len(),
        slide_idx < notes@.len(),
        notes@[slide_idx as int] is Slide,
    ensures
        final(note_deleted)@ == claim_dirs(notes@, old(note_deleted)@, slide_idx as int),
        ({
            let n = notes@.len() as int;
            let d = last_dir_match(notes@, old(note_deleted)@, slide_idx as int, n);
            let s3 = if d >= 0 {
                Slide { directional_idx: d as usize, ..s }
            } else {
                s
            };
            let dt = last_dir_tap(notes@, old(note_deleted)@, slide_idx as int, n);
            r == if dt >= 0 {
                Slide { tap_idx: dt as usize, ..s3 }
            } else {
                s3
            }
        }),
        r.directional_idx == s.directional_idx || r.directional_idx < notes@.len(),
{
    let (d, t) = claim_slot_directionals(notes, slide_idx, note_deleted);
    let s3 = match d {
        Some(d) => Slide { directional_idx: d, ..s },
        None => s,
    };
    match t {
        Some(t) => Slide { tap_idx: t, ..s3 },
        None => s3,
    }
}

/// The tap found by `last_dir_tap` is a link of an arena whose links are in range.
proof fn lemma_last_dir_tap_in_range(notes: Seq<NoteData>, del: Seq<bool>, i: int, k: int)
    requires
        arena_wf(notes),
        k <= notes.len(),
    ensures
        last_dir_tap(notes, del, i, k) < notes.len(),
    decreases k,
{
    if k > 0 {
        if dir_match(notes, del, i, k - 1) && directional_tap(notes[k - 1]) != NO_NOTE {
            assert(links_ok(notes[k - 1], notes.len() as int));
        } else {
            lemma_last_dir_tap_in_range(notes, del, i, k - 1);
        }
    }
}

/// The first free slide after `slide_idx` of the given channel and kind.
pub fn find_next_slide(
    notes: &Vec<NoteData>,
    slide_idx: usize,
    channel: i32,
    decoration: bool,
    note_deleted: &Vec<bool>,
) -> (r: Option<usize>)
    requires
        notes@.len() == note_deleted@.len(),
        slide_idx < notes@.len(),
    ensures
        r matches Some(k) ==> k as int == first_next_slide(
            notes@,
            note_deleted@,
            channel as int,
            decoration,
            slide_idx + 1,
        ) && slide_idx < k < notes@.len(),
        r is None ==> first_next_slide(
            notes@,
            note_deleted@,
            channel as int,
            decoration,
            slide_idx + 1,
        ) < 0,
{
    let n = notes.len();
    let mut k: usize = slide_idx + 1;
    while k < n
        invariant
            slide_idx < k <= n,
            n == notes@.len(),
            n == note_deleted@.len(),
            first_next_slide(notes@, note_deleted@, channel as int, decoration, slide_idx + 1)
                == first_next_slide(notes@, note_deleted@, channel as int, decoration, k as int),
        decreases n - k,
    {
        if !note_deleted[k] {
            if let NoteData::Slide(_, s) = notes[k] {
                if s.channel == channel && s.decoration == decoration {
                    return Some(k);
                }
            }
        }
        k = k + 1;
    }
    None
}

/// Links slide `i` to the next free slide of its channel and kind, which
/// joins its chain; a slide that ends its chain links nothing.
fn link_next_slide(notes: &mut Vec<NoteData>, slide_idx: usize, note_deleted: &Vec<bool>)
    requires
        old(notes)@.len() == note_deleted@.len(),
        slide_idx < old(notes)@.len(),
        old(notes)@[slide_idx as int] is Slide,
    ensures
        final(notes)@ == link_next(old(notes)@, note_deleted@, slide_idx as int),
        final(notes)@.len() == old(notes)@.len(),
        arena_wf(old(notes)@) ==> arena_wf(final(notes)@),
{
    let i = slide_idx;
    let (b, s) = match notes[i] {
        NoteData::Slide(b, s) => (b, s),
        _ => {
            return ;
        },
    };
    if let Some(SlideType::End) = SlideType::from_i32(b.note_type) {
        return ;
    }
    match find_next_slide(notes, i, s.channel, s.decoration, note_deleted) {
        None => {},
        Some(k) => {
            notes.set(i, NoteData::Slide(b, Slide { next_idx: k, ..s }));
            if let NoteData::Slide(bk, sk) = notes[k] {
                notes.set(k, NoteData::Slide(bk, Slide { head_idx: s.head_idx, ..sk }));
            }
            proof {
                if arena_wf(old(notes)@) {
                    assert(links_ok(old(notes)@[i as int], old(notes)@.len() as int));
                    assert(links_ok(old(notes)@[k as int], old(notes)@.len() as int));
                    assert forall|x: int| 0 <= x < notes@.len() implies #[trigger] links_ok(
                        notes@[x],
                        notes@.len() as int,
                    ) by {
                        if x != i && x != k {
                            assert(notes@[x] == old(notes)@[x]);
                        }
                    }
                }
            }
        },
    }
}

/// A free slide links its head, taps, directionals and next slide.
fn link_slide(notes: &mut Vec<NoteData>, slide_idx: usize, note_deleted: &mut Vec<bool>)
    requires
        old(notes)@.len() == old(note_deleted)@.len(),
        slide_idx < old(notes)@.len(),
        !old(note_deleted)@[slide_idx as int],
        old(notes)@[slide_idx as int] is Slide,
    ensures
        final(notes)@ == link_slide_step((old(notes)@, old(note_deleted)@), slide_idx as int).0,
        final(note_deleted)@ == link_slide_step(
            (old(notes)@, old(note_deleted)@),
            slide_idx as int,
        ).1,
        final(notes)@.len() == old(notes)@.len(),
        arena_wf(old(notes)@) ==> arena_wf(final(notes)@),
{
    let i = slide_idx;
    let ghost notes0 = notes@;
    let ghost del0 = note_deleted@;
    let (b, s0) = match notes[i] {
        NoteData::Slide(b, s) => (b, s),
        _ => {
            return ;
        },
    };
    let s1 = initialize_slide_head(s0, i);
    let s2 = link_slide_taps(notes, i, s1, note_deleted);
    let ghost del2 = note_deleted@;
    let s = link_slide_directionals(notes, i, s2, note_deleted);
    proof {
        assert(s == linked_slide(notes0, del0, i as int));
        if arena_wf(notes0) {
            assert(links_ok(notes0[i as int], notes0.len() as int));
            lemma_last_dir_tap_in_range(notes0, del2, i as int, notes0.len() as int);
        }
    }
    notes.set(i, NoteData::Slide(b, s));
    proof {
        if arena_wf(notes0) {
            assert forall|x: int| 0 <= x < notes@.len() implies #[trigger] links_ok(
                notes@[x],
                notes@.len() as int,
            ) by {
                if x != i {
                    assert(notes@[x] == notes0[x]);
                }
            }
        }
    }
    link_next_slide(notes, i, note_deleted);
}

/// Every free slide, in order, links itself and the next slide of its chain.
pub fn link_slides(notes: &mut Vec<NoteData>, note_deleted: &mut Vec<bool>)
    requires
        old(notes)@.len() == old(note_deleted)@.len(),
    ensures
        final(notes)@ == slides_linked(
            (old(notes)@, old(note_deleted)@),
            old(notes)@.len() as int,
        ).0,
        final(note_deleted)@ == slides_linked(
            (old(notes)@, old(note_deleted)@),
            old(notes)@.len() as int,
        ).1,
        final(notes)@.len() == old(notes)@.len(),
        final(note_deleted)@.len() == old(note_deleted)@.len(),
        arena_wf(old(notes)@) ==> arena_wf(final(notes)@),
{
    let ghost st0 = (notes@, note_deleted@);
    let n = notes.len();
    let mut i: usize = 0;
    while i < n
        invariant
            i <= n,
            n == st0.0.len(),
            notes@.len() == n,
            note_deleted@.len() == n,
            notes@ == slides_linked(st0, i as int).0,
            note_deleted@ == slides_linked(st0, i as int).1,
            arena_wf(st0.0) ==> arena_wf(notes@),
        decreases n - i,
    {
        if !note_deleted[i] && notes[i].is_slide() {
            link_slide(notes, i, note_deleted);
        }
        i = i + 1;
    }
}

/// The indices of the notes that are not deleted, in order.
pub fn active_of(note_deleted: &Vec<bool>) -> (r: Vec<usize>)
    ensures
        r@ == active_indices(note_deleted@, note_deleted@.len() as int),
{
    let mut active: Vec<usize> = Vec::new();
    let mut i: usize = 0;
    while i < note_deleted.len()
        invariant
            i <= note_deleted@.len(),
            active@ == active_indices(note_deleted@, i as int),
        decreases note_deleted@.len() - i,
    {
        if !note_deleted[i] {
            active.push(i);
        }
        proof {
            assert(active@ =~= active_indices(note_deleted@, i as int + 1));
        }
        i = i + 1;
    }
    active
}


/// Which variant a note is: 0 for a tap, 1 for a directional, 2 for a slide.
pub open spec fn note_kind(n: NoteData) -> int {
    match n {
        NoteData::Tap(..) => 0,
        NoteData::Directional(..) => 1,
        NoteData::Slide(..) => 2,
    }
}

/// Two arenas hold, index by index, notes of one kind with the same common fields.
pub open spec fn same_shape(a: Seq<NoteData>, b: Seq<NoteData>) -> bool {
    &&& a.len() == b.len()
    &&& forall|j: int|
        #![trigger a[j]]
        #![trigger b[j]]
        0 <= j < a.len() ==> base_of(a[j]) == base_of(b[j]) && note_kind(a[j]) == note_kind(b[j])
}

/// Note `j` of an arena leaves the standing notes when it is linked: it lies
/// outside the playable lanes, or it is a tap in the slot of a directional
/// or a slide, or a directional in the slot of a slide.
pub open spec fn removed(notes: Seq<NoteData>, j: int) -> bool {
    ||| !lane_ok(notes[j])
    ||| (notes[j] is Tap && exists|m: int|
        0 <= m < notes.len() && !(notes[m] is Tap) && share_slot(notes[m], notes[j]))
    ||| (notes[j] is Directional && exists|m: int|
        0 <= m < notes.len() && notes[m] is Slide && share_slot(notes[m], notes[j]))
}

/// What holds after the directional pass has run over the first `k` notes.
pub open spec fn directional_pass_inv(n0: Seq<NoteData>, st: LinkState, k: int) -> bool {
    &&& same_shape(st.0, n0)
    &&& st.1.len() == n0.len()
    &&& forall|j: int|
        0 <= j < n0.len() && !(n0[j] is Tap) ==> #[trigger] st.1[j] == !lane_ok(n0[j])
    &&& forall|j: int| 0 <= j < n0.len() && #[trigger] st.1[j] ==> removed(n0, j)
    &&& forall|j: int| 0 <= j < n0.len() && !lane_ok(n0[j]) ==> #[trigger] st.1[j]
    &&& forall|m: int, j: int|
        #![trigger n0[m], st.1[j]]
        0 <= m < k && 0 <= j < n0.len() && n0[m] is Directional && n0[j] is Tap && share_slot(
            n0[m],
            n0[j],
        ) ==> st.1[j]
}

/// One step of the directional pass keeps its invariant.
proof fn lemma_directional_pass_step(n0: Seq<NoteData>, st: LinkState, k: int)
    requires
        0 <= k < n0.len(),
        directional_pass_inv(n0, st, k),
    ensures
        directional_pass_inv(n0, link_directional_step(st, k), k + 1),
{
    let (notes, del) = st;
    let st2 = link_directional_step(st, k);
    assert(notes[k] == notes[k]);
    assert(n0[k] == n0[k]);
    if del[k] || !(notes[k] is Directional) {
        assert forall|m: int, j: int|
            #![trigger n0[m], st2.1[j]]
            0 <= m < k + 1 && 0 <= j < n0.len() && n0[m] is Directional && n0[j] is Tap
                && share_slot(n0[m], n0[j]) implies st2.1[j] by {
            if m == k {
                assert(del[k]);
                assert(!lane_ok(n0[j]));
            }
        }
    } else {
        let t = last_tap_match(notes, del, k, notes.len() as int);
        let del2 = claim_taps(notes, del, k);
        assert(st2.1 == del2);
        assert forall|j: int|
            #![trigger st2.0[j]]
            0 <= j < st2.0.len() implies base_of(st2.0[j]) == base_of(n0[j]) && note_kind(st2.0[j])
                == note_kind(n0[j]) by {
            assert(notes[j] == notes[j]);
            assert(n0[j] == n0[j]);
        }
        assert forall|j: int| 0 <= j < n0.len() && #[trigger] del2[j] implies removed(n0, j) by {
            assert(del[j] == del[j]);
            assert(notes[j] == notes[j]);
            assert(n0[j] == n0[j]);
            if !del[j] {
                assert(tap_match(notes, del, k, j));
                assert(!(n0[k] is Tap) && share_slot(n0[k], n0[j]));
            }
        }
        assert forall|j: int|
            0 <= j < n0.len() && !(n0[j] is Tap) implies #[trigger] del2[j] == !lane_ok(n0[j]) by {
            assert(del[j] == del[j]);
            assert(notes[j] == notes[j]);
            assert(n0[j] == n0[j]);
        }
        assert forall|m: int, j: int|
            #![trigger n0[m], st2.1[j]]
            0 <= m < k + 1 && 0 <= j < n0.len() && n0[m] is Directional && n0[j] is Tap
                && share_slot(n0[m], n0[j]) implies st2.1[j] by {
            assert(del[j] == del[j]);
            assert(notes[j] == notes[j]);
            if m < k {
                assert(del[j]);
            }
        }
    }
}

/// The directional pass keeps its invariant over the first `k` notes.
proof fn lemma_directional_pass(n0: Seq<NoteData>, k: int)
    requires
        0 <= k <= n0.len(),
    ensures
        directional_pass_inv(n0, directionals_linked((n0, initial_deleted(n0)), k), k),
    decreases k,
{
    let st0 = (n0, initial_deleted(n0));
    if k <= 0 {
        assert forall|j: int|
            #![trigger st0.0[j]]
            0 <= j < n0.len() implies base_of(st0.0[j]) == base_of(n0[j]) && note_kind(st0.0[j])
                == note_kind(n0[j]) by {}
    } else {
        lemma_directional_pass(n0, k - 1);
        lemma_directional_pass_step(n0, directionals_linked(st0, k - 1), k - 1);
    }
}

/// The first free slide found for a chain lies after `k` in the arena.
proof fn lemma_first_next_slide_range(
    notes: Seq<NoteData>,
    del: Seq<bool>,
    ch: int,
    deco: bool,
    k: int,
)
    ensures
        first_next_slide(notes, del, ch, deco, k) == -1 || (k <= first_next_slide(
            notes,
            del,
            ch,
            deco,
            k,
        ) < notes.len()),
    decreases notes.len() - k,
{
    if !(k < 0 || k >= notes.len()) && !next_candidate(notes, del, ch, deco, k) {
        lemma_first_next_slide_range(notes, del, ch, deco, k + 1);
    }
}

/// Chaining slide `i` to the next one changes no note's kind or common fields.
proof fn lemma_link_next_shape(notes: Seq<NoteData>, del: Seq<bool>, i: int)
    requires
        0 <= i < notes.len(),
    ensures
        same_shape(link_next(notes, del, i), notes),
{
    let s = slide_of(notes[i]);
    lemma_first_next_slide_range(notes, del, s.channel as int, s.decoration, i + 1);
    let r = link_next(notes, del, i);
    assert forall|j: int|
        #![trigger r[j]]
        0 <= j < r.len() implies base_of(r[j]) == base_of(notes[j]) && note_kind(r[j]) == note_kind(
            notes[j],
        ) by {
        assert(notes[j] == notes[j]);
    }
}

/// What holds after the slide pass has run over the first `k` notes.
pub open spec fn slide_pass_inv(n0: Seq<NoteData>, st: LinkState, k: int) -> bool {
    &&& same_shape(st.0, n0)
    &&& st.1.len() == n0.len()
    &&& forall|j: int| 0 <= j < n0.len() && n0[j] is Slide ==> #[trigger] st.1[j] == !lane_ok(n0[j])
    &&& forall|j: int| 0 <= j < n0.len() && #[trigger] st.1[j] ==> removed(n0, j)
    &&& forall|j: int| 0 <= j < n0.len() && !lane_ok(n0[j]) ==> #[trigger] st.1[j]
    &&& forall|m: int, j: int|
        #![trigger n0[m], st.1[j]]
        0 <= m < n0.len() && 0 <= j < n0.len() && n0[m] is Directional && n0[j] is Tap
            && share_slot(n0[m], n0[j]) ==> st.1[j]
    &&& forall|m: int, j: int|
        #![trigger n0[m], st.1[j]]
        0 <= m < k && 0 <= j < n0.len() && n0[m] is Slide && !(n0[j] is Slide) && share_slot(
            n0[m],
            n0[j],
        ) ==> st.1[j]
}

/// One step of the slide pass keeps its invariant.
proof fn lemma_slide_pass_step(n0: Seq<NoteData>, st: LinkState, k: int)
    requires
        0 <= k < n0.len(),
        slide_pass_inv(n0, st, k),
    ensures
        slide_pass_inv(n0, link_slide_step(st, k), k + 1),
{
    let (notes, del) = st;
    let st2 = link_slide_step(st, k);
    assert(notes[k] == notes[k]);
    assert(n0[k] == n0[k]);
    if del[k] || !(notes[k] is Slide) {
        assert forall|m: int, j: int|
            #![trigger n0[m], st2.1[j]]
            0 <= m < k + 1 && 0 <= j < n0.len() && n0[m] is Slide && !(n0[j] is Slide)
                && share_slot(n0[m], n0[j]) implies st2.1[j] by {
            if m == k {
                assert(del[k]);
                assert(!lane_ok(n0[j]));
            }
        }
    } else {
        let del2 = claim_taps(notes, del, k);
        let del3 = claim_dirs(notes, del2, k);
        let notes1 = notes.update(k, with_slide(notes[k], linked_slide(notes, del, k)));
        assert(st2.1 == del3);
        assert(st2.0 == link_next(notes1, del3, k));
        assert forall|j: int|
            #![trigger notes1[j]]
            0 <= j < notes1.len() implies base_of(notes1[j]) == base_of(n0[j]) && note_kind(notes1[j])
                == note_kind(n0[j]) by {
            assert(notes[j] == notes[j]);
            assert(n0[j] == n0[j]);
        }
        assert(same_shape(notes1, n0));
        lemma_link_next_shape(notes1, del3, k);
        assert forall|j: int|
            #![trigger st2.0[j]]
            0 <= j < st2.0.len() implies base_of(st2.0[j]) == base_of(n0[j]) && note_kind(st2.0[j])
                == note_kind(n0[j]) by {
            assert(notes1[j] == notes1[j]);
        }
        assert forall|j: int| 0 <= j < n0.len() && #[trigger] del3[j] implies removed(n0, j) by {
            assert(del[j] == del[j]);
            assert(del2[j] == del2[j]);
            assert(notes[j] == notes[j]);
            assert(n0[j] == n0[j]);
            if !del[j] {
                assert(!(n0[k] is Tap) && share_slot(n0[k], n0[j]));
                assert(n0[k] is Slide);
            }
        }
        assert forall|j: int|
            0 <= j < n0.len() && n0[j] is Slide implies #[trigger] del3[j] == !lane_ok(n0[j]) by {
            assert(del[j] == del[j]);
            assert(del2[j] == del2[j]);
            assert(notes[j] == notes[j]);
            assert(n0[j] == n0[j]);
        }
        assert forall|j: int| 0 <= j < n0.len() && #[trigger] del[j] implies del3[j] by {
            assert(del2[j] == del2[j]);
        }
        assert forall|m: int, j: int|
            #![trigger n0[m], st2.1[j]]
            0 <= m < k + 1 && 0 <= j < n0.len() && n0[m] is Slide && !(n0[j] is Slide)
                && share_slot(n0[m], n0[j]) implies st2.1[j] by {
            assert(del[j] == del[j]);
            assert(del2[j] == del2[j]);
            assert(notes[j] == notes[j]);
            assert(n0[j] == n0[j]);
            if m < k {
                assert(del[j]);
            }
        }
        assert forall|m: int, j: int|
            #![trigger n0[m], st2.1[j]]
            0 <= m < n0.len() && 0 <= j < n0.len() && n0[m] is Directional && n0[j] is Tap
                && share_slot(n0[m], n0[j]) implies st2.1[j] by {
            assert(del[j]);
            assert(del2[j] == del2[j]);
        }
    }
}

/// The slide pass, started where the directional pass ended, keeps its
/// invariant over the first `k` notes.
proof fn lemma_slide_pass(n0: Seq<NoteData>, k: int)
    requires
        0 <= k <= n0.len(),
    ensures
        slide_pass_inv(
            n0,
            slides_linked(directionals_linked((n0, initial_deleted(n0)), n0.len() as int), k),
            k,
        ),
    decreases k,
{
    let st1 = directionals_linked((n0, initial_deleted(n0)), n0.len() as int);
    if k <= 0 {
        lemma_directional_pass(n0, n0.len() as int);
        assert forall|j: int| 0 <= j < n0.len() && n0[j] is Slide implies #[trigger] st1.1[j]
            == !lane_ok(n0[j]) by {}
    } else {
        lemma_slide_pass(n0, k - 1);
        lemma_slide_pass_step(n0, slides_linked(st1, k - 1), k - 1);
    }
}

/// Linking leaves exactly the notes that are not `removed`, and changes no
/// note's kind or common fields.
pub proof fn lemma_link_notes_removed(n0: Seq<NoteData>)
    ensures
        same_shape(link_notes(n0).0, n0),
        link_notes(n0).1.len() == n0.len(),
        forall|j: int| 0 <= j < n0.len() ==> (#[trigger] link_notes(n0).1[j] <==> removed(n0, j)),
{
    lemma_slide_pass(n0, n0.len() as int);
    let st = link_notes(n0);
    assert forall|j: int| 0 <= j < n0.len() implies (#[trigger] st.1[j] <==> removed(n0, j)) by {
        if removed(n0, j) && lane_ok(n0[j]) {
            if n0[j] is Tap {
                let m = choose|m: int|
                    0 <= m < n0.len() && !(n0[m] is Tap) && share_slot(n0[m], n0[j]);
                assert(n0[m] == n0[m]);
            } else {
                let m = choose|m: int| 0 <= m < n0.len() && n0[m] is Slide && share_slot(n0[m], n0[j]);
                assert(n0[m] == n0[m]);
            }
        }
    }
}

/// The standing notes are exactly the indices below `k` that are not deleted.
pub proof fn lemma_active_indices_complete(del: Seq<bool>, k: int)
    requires
        0 <= k <= del.len(),
        del.len() <= usize::MAX,
    ensures
        forall|j: int| 0 <= j < k ==> (active_indices(del, k).contains(j as usize) <==> !del[j]),
    decreases k,
{
    lemma_active_indices(del, k);
    if k > 0 {
        lemma_active_indices_complete(del, k - 1);
        let a = active_indices(del, k - 1);
        let b = active_indices(del, k);
        lemma_active_indices(del, k - 1);
        assert forall|j: int| 0 <= j < k implies (b.contains(j as usize) <==> !del[j]) by {
            if !del[k - 1] {
                assert(b == a + seq![(k - 1) as usize]);
                if j < k - 1 {
                    if a.contains(j as usize) {
                        let x = choose|x: int| 0 <= x < a.len() && a[x] == j as usize;
                        assert(b[x] == a[x]);
                    }
                    if b.contains(j as usize) {
                        let x = choose|x: int| 0 <= x < b.len() && b[x] == j as usize;
                        if x < a.len() {
                            assert(b[x] == a[x]);
                        }
                    }
                } else {
                    assert(b[a.len() as int] == (k - 1) as usize);
                }
            } else {
                assert(b =~= a);
                if j == k - 1 && b.contains(j as usize) {
                    let x = choose|x: int| 0 <= x < b.len() && b[x] == j as usize;
                    assert(b[x] < k - 1);
                }
            }
        }
    }
}


/// Whether a note lies outside the playable lanes.
pub open spec fn dropped_note() -> spec_fn(NoteData) -> bool {
    |n: NoteData| !lane_ok(n)
}

/// The event that stands for a dropped note, as a function.
pub open spec fn dropped_note_event() -> spec_fn(NoteData) -> EventView {
    |n: NoteData| invalid_note_event_view(n)
}

/// The events for the dropped notes among the first `k` are, in order, one
/// for each of those notes that lies outside the playable lanes.
pub proof fn lemma_invalid_note_events_filter(notes: Seq<NoteData>, k: int)
    requires
        0 <= k <= notes.len(),
    ensures
        invalid_note_events(notes, k) == notes.take(k).filter(dropped_note()).map_values(
            dropped_note_event(),
        ),
    decreases k,
{
    reveal(Seq::filter);
    let t = notes.take(k);
    if k > 0 {
        lemma_invalid_note_events_filter(notes, k - 1);
        assert(t.drop_last() =~= notes.take(k - 1));
        assert(t.last() == notes[k - 1]);
        let f = t.drop_last().filter(dropped_note());
        assert(t.filter(dropped_note()) == if (dropped_note())(t.last()) {
            f.push(t.last())
        } else {
            f
        });
        if !lane_ok(notes[k - 1]) {
            assert(f.push(t.last()).map_values(dropped_note_event()) =~= f.map_values(
                dropped_note_event(),
            ) + seq![invalid_note_event_view(notes[k - 1])]);
        } else {
            assert(invalid_note_events(notes, k) =~= invalid_note_events(notes, k - 1));
        }
    } else {
        assert(t.filter(dropped_note()).map_values(dropped_note_event()) =~= Seq::<EventView>::empty());
    }
}

} // verus!
