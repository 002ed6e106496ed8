//! Moving a chart onto a new timing. The new bar of each old bar is found
//! by the caller (through elapsed time); here are the bars that need one,
//! and the notes emitted again at their new bars, unlinked, before they are
//! sorted and linked anew.
use crate::fraction::Fraction;
use crate::notes::directional::Directional;
use crate::notes::slide::Slide;
use crate::notes::tap::Tap;
use crate::notes::{arena_wf, base_of, links_ok, NoteBase, NoteData, NoteIdx, NO_NOTE};
use vstd::prelude::*;

verus! {

/// The bar of the note at `i`, if `i` links to a note.
pub open spec fn indexed_bar(i: usize, notes: Seq<NoteData>) -> Seq<Fraction> {
    if i == NO_NOTE {
        seq![]
    } else {
        seq![base_of(notes[i as int]).bar]
    }
}

/// The directional merged into a slide node, when its link holds one.
pub open spec fn merged_directional(s: Slide, notes: Seq<NoteData>) -> Option<Directional> {
    if s.directional_idx == NO_NOTE {
        None
    } else {
        match notes[s.directional_idx as int] {
            NoteData::Directional(_, d) => Some(d),
            _ => None,
        }
    }
}

/// The bars that an active note and the notes merged into it stand at: its
/// own; a directional's tap; a slide node's tap and directional, and that
/// directional's tap when it is not the node's own.
pub open spec fn note_bars(note: NoteData, notes: Seq<NoteData>) -> Seq<Fraction> {
    seq![base_of(note).bar] + match note {
        NoteData::Tap(..) => seq![],
        NoteData::Directional(_, d) => indexed_bar(d.tap_idx, notes),
        NoteData::Slide(_, s) => indexed_bar(s.tap_idx, notes) + indexed_bar(s.directional_idx, notes)
            + match merged_directional(s, notes) {
            Some(d) => if d.tap_idx != s.tap_idx {
                indexed_bar(d.tap_idx, notes)
            } else {
                seq![]
            },
            None => seq![],
        },
    }
}

/// Appends the bar of the note at `note_idx`, if it links to one.
fn push_indexed_bar(bars: &mut Vec<Fraction>, note_idx: NoteIdx, notes: &[NoteData])
    requires
        note_idx == NO_NOTE || note_idx < notes@.len(),
    ensures
        final(bars)@ == old(bars)@ + indexed_bar(note_idx, notes@),
{
    if note_idx != NO_NOTE {
        bars.push(notes[note_idx].bar());
    }
    proof {
        assert(final(bars)@ =~= old(bars)@ + indexed_bar(note_idx, notes@));
    }
}

/// The bars an active note and its merged notes stand at (see `note_bars`).
pub fn referenced_note_bars(note: &NoteData, notes: &[NoteData]) -> (r: Vec<Fraction>)
    requires
        arena_wf(notes@),
        links_ok(*note, notes@.len() as int),
    ensures
        r@ == note_bars(*note, notes@),
{
    let mut bars: Vec<Fraction> = Vec::new();
    bars.push(note.bar());
    match note {
        NoteData::Tap(..) => {},
        NoteData::Directional(_, d) => {
            push_indexed_bar(&mut bars, d.tap_idx, notes);
        },
        NoteData::Slide(_, s) => {
            push_indexed_bar(&mut bars, s.tap_idx, notes);
            push_indexed_bar(&mut bars, s.directional_idx, notes);
            if s.directional_idx != NO_NOTE {
                proof {
                    assert(links_ok(notes@[s.directional_idx as int], notes@.len() as int));
                }
                if let NoteData::Directional(_, d) = &notes[s.directional_idx] {
                    if d.tap_idx != s.tap_idx {
                        push_indexed_bar(&mut bars, d.tap_idx, notes);
                    }
                }
            }
        },
    }
    proof {
        assert(bars@ =~= note_bars(*note, notes@));
    }
    bars
}

/// The new bar given for `bar` by the first entry of `table` that names it.
pub open spec fn bar_lookup(table: Seq<(Fraction, Fraction)>, bar: Fraction) -> Option<Fraction>
    decreases table.len(),
{
    if table.len() == 0 {
        None
    } else if table[0].0 == bar {
        Some(table[0].1)
    } else {
        bar_lookup(table.drop_first(), bar)
    }
}

/// The new bar of `bar` (see `bar_lookup`).
pub fn lookup_bar(table: &Vec<(Fraction, Fraction)>, bar: Fraction) -> (r: Option<Fraction>)
    ensures
        r == bar_lookup(table@, bar),
{
    let mut k: usize = 0;
    proof {
        assert(table@.subrange(0, table@.len() as int) =~= table@);
    }
    while k < table.len()
        invariant
            k <= table@.len(),
            bar_lookup(table@.subrange(k as int, table@.len() as int), bar) == bar_lookup(
                table@,
                bar,
            ),
        decreases table@.len() - k,
    {
        let ghost rest = table@.subrange(k as int, table@.len() as int);
        proof {
            assert(rest[0] == table@[k as int]);
            assert(rest.drop_first() =~= table@.subrange(k + 1, table@.len() as int));
        }
        if table[k].0 == bar {
            return Some(table[k].1);
        }
        k = k + 1;
    }
    None
}

/// Whether every bar an active note stands at has a new bar in `table`.
pub open spec fn bars_known(note: NoteData, notes: Seq<NoteData>, table: Seq<(Fraction, Fraction)>) -> bool {
    forall|j: int|
        0 <= j < note_bars(note, notes).len() ==> #[trigger] bar_lookup(
            table,
            note_bars(note, notes)[j],
        ) is Some
}

/// A note's fields at its new bar, without a per-note speed.
pub open spec fn moved(b: NoteBase, table: Seq<(Fraction, Fraction)>) -> NoteBase {
    NoteBase {
        bar: bar_lookup(table, b.bar)->0,
        lane: b.lane,
        width: b.width,
        note_type: b.note_type,
        speed: None,
    }
}

/// A directional with no tap.
pub open spec fn fresh_directional() -> Directional {
    Directional { tap_idx: NO_NOTE }
}

/// A slide node with no links.
pub open spec fn fresh_slide(channel: i32, decoration: bool) -> Slide {
    Slide {
        channel,
        decoration,
        tap_idx: NO_NOTE,
        directional_idx: NO_NOTE,
        next_idx: NO_NOTE,
        head_idx: NO_NOTE,
    }
}

/// The note at `i` emitted again as a tap at its new bar, if `i` links to one.
pub open spec fn moved_tap_at(i: usize, notes: Seq<NoteData>, table: Seq<(Fraction, Fraction)>) -> Seq<
    NoteData,
> {
    if i == NO_NOTE {
        seq![]
    } else {
        seq![NoteData::Tap(moved(base_of(notes[i as int]), table), Tap)]
    }
}

/// The notes emitted again for one active note: the note itself at its new
/// bar (unlinked), then the notes merged into it, each on its own: a
/// directional's tap; a slide node's tap, its directional, and that
/// directional's tap when it is not the node's own.
pub open spec fn rebased_note(note: NoteData, notes: Seq<NoteData>, table: Seq<(Fraction, Fraction)>) -> Seq<
    NoteData,
> {
    match note {
        NoteData::Tap(b, _) => seq![NoteData::Tap(moved(b, table), Tap)],
        NoteData::Directional(b, d) => seq![NoteData::Directional(moved(b, table), fresh_directional())]
            + moved_tap_at(d.tap_idx, notes, table),
        NoteData::Slide(b, s) => seq![
            NoteData::Slide(moved(b, table), fresh_slide(s.channel, s.decoration)),
        ] + moved_tap_at(s.tap_idx, notes, table) + match merged_directional(s, notes) {
            Some(d) => seq![
                NoteData::Directional(
                    moved(base_of(notes[s.directional_idx as int]), table),
                    fresh_directional(),
                ),
            ] + if d.tap_idx != s.tap_idx {
                moved_tap_at(d.tap_idx, notes, table)
            } else {
                seq![]
            },
            None => seq![],
        },
    }
}

/// The notes emitted again for `active[0..k]`, in order.
pub open spec fn rebased_upto(
    active: Seq<usize>,
    notes: Seq<NoteData>,
    table: Seq<(Fraction, Fraction)>,
    k: int,
) -> Seq<NoteData>
    decreases k,
{
    if k <= 0 {
        seq![]
    } else {
        rebased_upto(active, notes, table, k - 1) + rebased_note(notes[active[k - 1] as int], notes, table)
    }
}

/// A note's fields at its new bar.
fn moved_base(b: &NoteBase, table: &Vec<(Fraction, Fraction)>) -> (r: NoteBase)
    requires
        bar_lookup(table@, b.bar) is Some,
    ensures
        r == moved(*b, table@),
{
    let bar = match lookup_bar(table, b.bar) {
        Some(f) => f,
        None => b.bar,
    };
    NoteBase::new(bar, b.lane, b.width, b.note_type)
}

/// Appends the note at `note_idx` as a tap at its new bar, if it links to one.
fn push_moved_tap(
    out: &mut Vec<NoteData>,
    note_idx: NoteIdx,
    notes: &[NoteData],
    table: &Vec<(Fraction, Fraction)>,
)
    requires
        note_idx == NO_NOTE || note_idx < notes@.len(),
        note_idx != NO_NOTE ==> bar_lookup(table@, base_of(notes@[note_idx as int]).bar) is Some,
    ensures
        final(out)@ == old(out)@ + moved_tap_at(note_idx, notes@, table@),
{
    if note_idx != NO_NOTE {
        let b = moved_base(notes[note_idx].base(), table);
        out.push(NoteData::Tap(b, Tap));
    }
    proof {
        assert(final(out)@ =~= old(out)@ + moved_tap_at(note_idx, notes@, table@));
    }
}

/// The notes emitted again for the active notes, each at the new bar that
/// `table` gives (see `rebased_note`). They carry no links, so they form a
/// well-formed arena.
pub fn rebased_notes(active: &[NoteIdx], notes: &[NoteData], table: &Vec<(Fraction, Fraction)>) -> (r:
    Vec<NoteData>)
    requires
        arena_wf(notes@),
        forall|i: int| 0 <= i < active@.len() ==> #[trigger] active@[i] < notes@.len(),
        forall|i: int|
            0 <= i < active@.len() ==> bars_known(notes@[#[trigger] active@[i] as int], notes@, table@),
    ensures
        r@ == rebased_upto(active@, notes@, table@, active@.len() as int),
        arena_wf(r@),
{
    let mut out: Vec<NoteData> = Vec::new();
    let mut k: usize = 0;
    while k < active.len()
        invariant
            k <= active@.len(),
            arena_wf(notes@),
            forall|i: int| 0 <= i < active@.len() ==> #[trigger] active@[i] < notes@.len(),
            forall|i: int|
                0 <= i < active@.len() ==> bars_known(
                    notes@[#[trigger] active@[i] as int],
                    notes@,
                    table@,
                ),
            out@ == rebased_upto(active@, notes@, table@, k as int),
            forall|i: int| 0 <= i < out@.len() ==> #[trigger] links_ok(out@[i], 0),
        decreases active@.len() - k,
    {
        let ghost before = out@;
        let idx = active[k];
        proof {
            assert(active@[k as int] < notes@.len());
            assert(links_ok(notes@[idx as int], notes@.len() as int));
            assert(bars_known(notes@[idx as int], notes@, table@));
        }
        let note = &notes[idx];
        let ghost nb = note_bars(*note, notes@);
        proof {
            assert(bar_lookup(table@, nb[0]) is Some);
        }
        match note {
            NoteData::Tap(b, _) => {
                let m = moved_base(b, table);
                out.push(NoteData::Tap(m, Tap));
            },
            NoteData::Directional(b, d) => {
                let m = moved_base(b, table);
                out.push(NoteData::Directional(m, Directional::new()));
                proof {
                    if d.tap_idx != NO_NOTE {
                        assert(bar_lookup(table@, nb[1]) is Some);
                    }
                }
                push_moved_tap(&mut out, d.tap_idx, notes, table);
            },
            NoteData::Slide(b, s) => {
                let m = moved_base(b, table);
                out.push(NoteData::Slide(m, Slide::new(s.channel, s.decoration)));
                let ghost t1 = indexed_bar(s.tap_idx, notes@);
                proof {
                    if s.tap_idx != NO_NOTE {
                        assert(nb[1] == base_of(notes@[s.tap_idx as int]).bar);
                        assert(bar_lookup(table@, nb[1]) is Some);
                    }
                }
                push_moved_tap(&mut out, s.tap_idx, notes, table);
                if s.directional_idx != NO_NOTE {
                    proof {
                        assert(links_ok(notes@[s.directional_idx as int], notes@.len() as int));
                    }
                    if let NoteData::Directional(db, d) = &notes[s.directional_idx] {
                        proof {
                            let p: int = 1 + t1.len() as int;
                            assert(nb[p] == db.bar);
                            assert(bar_lookup(table@, nb[p]) is Some);
                        }
                        let dm = moved_base(db, table);
                        out.push(NoteData::Directional(dm, Directional::new()));
                        if d.tap_idx != s.tap_idx {
                            proof {
                                if d.tap_idx != NO_NOTE {
                                    let p: int = 2 + t1.len() as int;
                                    assert(nb[p] == base_of(notes@[d.tap_idx as int]).bar);
                                    assert(bar_lookup(table@, nb[p]) is Some);
                                }
                            }
                            push_moved_tap(&mut out, d.tap_idx, notes, table);
                        }
                    }
                }
            },
        }
        proof {
            assert(out@ =~= before + rebased_note(notes@[active@[k as int] as int], notes@, table@));
            assert(rebased_upto(active@, notes@, table@, k + 1) == before + rebased_note(
                notes@[active@[k as int] as int],
                notes@,
                table@,
            ));
            assert forall|i: int| 0 <= i < out@.len() implies #[trigger] links_ok(out@[i], 0) by {
                if i >= before.len() {
                    let n = out@[i];
                    assert(links_ok(n, 0));
                }
            }
        }
        k = k + 1;
    }
    proof {
        assert forall|i: int| 0 <= i < out@.len() implies #[trigger] links_ok(
            out@[i],
            out@.len() as int,
        ) by {
            assert(links_ok(out@[i], 0));
        }
    }
    out
}

} // verus!
