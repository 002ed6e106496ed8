//! Loading a score from the items its lines declare.
use crate::arith::{normalize, pair_fits};
use crate::fraction::{frac_add, frac_of, lemma_frac_of_view, Fraction};
use crate::line::{
    line_ok, spec_parse_line, BpmDefinition, ItemView, Line, LineType, ParsedItem,
    SpeedDefinitionItem,
};
use crate::meta::{merge_meta, Meta, MetaView};
use crate::notes::event::{empty_event, Event};
use crate::notes::NoteData;
use vstd::prelude::*;

verus! {

/// A line as its kind, header and data.
pub type LineView = (LineType, Seq<char>, Seq<char>);

/// The kind, header and data of each line.
pub open spec fn line_views(lines: Seq<Line>) -> Seq<LineView> {
    lines.map_values(|l: Line| (l.line_type, l.header@, l.data@))
}

/// What the lines declare, in order.
pub open spec fn lines_items(lines: Seq<LineView>) -> Seq<ItemView>
    decreases lines.len(),
{
    if lines.len() == 0 {
        seq![]
    } else {
        lines_items(lines.drop_last()) + spec_parse_line(
            lines.last().0,
            lines.last().1,
            lines.last().2,
        )
    }
}

/// Every line parses.
pub open spec fn lines_ok(lines: Seq<LineView>) -> bool {
    forall|i: int| 0 <= i < lines.len() ==> line_ok(#[trigger] lines[i].0, lines[i].1, lines[i].2)
}

/// The items of two runs of lines are those of each, in order.
pub proof fn lemma_lines_items_append(a: Seq<LineView>, b: Seq<LineView>)
    ensures
        lines_items(a + b) == lines_items(a) + lines_items(b),
    decreases b.len(),
{
    if b.len() == 0 {
        assert(a + b =~= a);
        assert(lines_items(a) + lines_items(b) =~= lines_items(a));
    } else {
        assert((a + b).drop_last() =~= a + b.drop_last());
        assert((a + b).last() == b.last());
        lemma_lines_items_append(a, b.drop_last());
        assert(lines_items(a) + lines_items(b.drop_last()) + spec_parse_line(
            b.last().0,
            b.last().1,
            b.last().2,
        ) =~= lines_items(a) + lines_items(b));
    }
}

/// The items of the first `i + 1` lines, and of all lines, around line `i`.
pub proof fn lemma_lines_items_at(lv: Seq<LineView>, i: int)
    requires
        0 <= i < lv.len(),
    ensures
        lines_items(lv.subrange(0, i + 1)) == lines_items(lv.subrange(0, i)) + spec_parse_line(
            lv[i].0,
            lv[i].1,
            lv[i].2,
        ),
        lines_items(lv) == lines_items(lv.subrange(0, i + 1)) + lines_items(
            lv.subrange(i + 1, lv.len() as int),
        ),
{
    let pre = lv.subrange(0, i + 1);
    assert(pre.drop_last() =~= lv.subrange(0, i));
    assert(pre.last() == lv[i]);
    lemma_lines_items_append(pre, lv.subrange(i + 1, lv.len() as int));
    assert(lv =~= pre + lv.subrange(i + 1, lv.len() as int));
}

/// Loading state: metadata, ticks per beat, the BPM definitions so far (in
/// order), the events and the notes.
pub type LoadState = (MetaView, int, Seq<BpmDefinition>, Seq<Event>, Seq<NoteData>);

/// The BPM of the latest definition of `id`.
pub open spec fn bpm_lookup(defs: Seq<BpmDefinition>, id: i32) -> Option<Fraction>
    decreases defs.len(),
{
    if defs.len() == 0 {
        None
    } else if defs.last().id == id {
        Some(defs.last().bpm)
    } else {
        bpm_lookup(defs.drop_last(), id)
    }
}

/// The bar of a speed change: its bar plus its tick over a bar of `tpb * 4` ticks.
pub open spec fn speed_item_bar(item: SpeedDefinitionItem, tpb: int) -> (int, int) {
    frac_add((item.bar as int, 1), normalize(item.tick as int, tpb * 4))
}

/// The position of a speed change has a value that fits in `i64`.
pub open spec fn speed_item_ok(item: SpeedDefinitionItem, tpb: int) -> bool {
    tpb != 0 && pair_fits(normalize(item.tick as int, tpb * 4)) && pair_fits(
        speed_item_bar(item, tpb),
    )
}

/// The speed events of a speed definition.
pub open spec fn speed_events(items: Seq<SpeedDefinitionItem>, tpb: int) -> Seq<Event> {
    items.map_values(
        |it: SpeedDefinitionItem|
            Event { speed: Some(it.speed), ..empty_event(frac_of(speed_item_bar(it, tpb))) },
    )
}

/// One item applied to the loading state: metadata merges (what is already
/// set stays), the latest ticks per beat and BPM definitions count, speed
/// changes and BPM references (of a defined id) become events, notes join
/// the arena. `None` when a speed change has no position.
pub open spec fn load_item(st: LoadState, item: ItemView) -> Option<LoadState> {
    let (meta, tpb, defs, events, notes) = st;
    match item {
        ItemView::Meta(m) => Some((merge_meta(meta, m), tpb, defs, events, notes)),
        ItemView::TicksPerBeat(t) => Some((meta, t, defs, events, notes)),
        ItemView::SpeedControl(_) => Some(st),
        ItemView::SpeedDefinition(_, items) => if forall|k: int|
            0 <= k < items.len() ==> speed_item_ok(#[trigger] items[k], tpb) {
            Some((meta, tpb, defs, events + speed_events(items, tpb), notes))
        } else {
            None
        },
        ItemView::Event(e) => Some((meta, tpb, defs, events.push(e), notes)),
        ItemView::BpmDefinition(b) => Some((meta, tpb, defs.push(b), events, notes)),
        ItemView::BpmReference(r) => match bpm_lookup(defs, r.id) {
            Some(bpm) => Some(
                (meta, tpb, defs, events.push(Event { bpm: Some(bpm), ..empty_event(r.bar) }), notes),
            ),
            None => Some(st),
        },
        ItemView::Note(n) => Some((meta, tpb, defs, events, notes.push(n))),
    }
}

/// The state after the first `k` items, from empty metadata and 480 ticks per beat.
pub open spec fn load_items(items: Seq<ItemView>, k: int) -> Option<LoadState>
    decreases k,
{
    if k <= 0 {
        Some((crate::meta::empty_meta(), 480, seq![], seq![], seq![]))
    } else {
        match load_items(items, k - 1) {
            None => None,
            Some(st) => load_item(st, items[k - 1]),
        }
    }
}

/// The state after every item of the lines.
pub open spec fn load_lines(lines: Seq<LineView>) -> Option<LoadState> {
    load_items(lines_items(lines), lines_items(lines).len() as int)
}

/// Once loading has failed it stays failed.
pub proof fn lemma_load_none(items: Seq<ItemView>, k: int, m: int)
    requires
        k <= m,
        load_items(items, k) is None,
    ensures
        load_items(items, m) is None,
    decreases m - k,
{
    if k < m {
        lemma_load_none(items, k, m - 1);
    }
}

/// The BPM of the latest definition of `id`.
fn find_bpm(defs: &Vec<BpmDefinition>, id: i32) -> (r: Option<Fraction>)
    ensures
        r == bpm_lookup(defs@, id),
{
    let mut n = defs.len();
    proof {
        assert(defs@.subrange(0, n as int) =~= defs@);
    }
    while n > 0
        invariant
            n <= defs@.len(),
            bpm_lookup(defs@, id) == bpm_lookup(defs@.subrange(0, n as int), id),
        decreases n,
    {
        proof {
            assert(defs@.subrange(0, n as int).drop_last() =~= defs@.subrange(0, n as int - 1));
        }
        if defs[n - 1].id == id {
            return Some(defs[n - 1].bpm);
        }
        n = n - 1;
    }
    None
}

/// Adds the speed events of a speed definition.
fn push_speed_events(events: &mut Vec<Event>, items: &Vec<SpeedDefinitionItem>, tpb: i32)
    requires
        forall|k: int| 0 <= k < items@.len() ==> speed_item_ok(#[trigger] items@[k], tpb as int),
    ensures
        final(events)@ == old(events)@ + speed_events(items@, tpb as int),
{
    let mut k: usize = 0;
    while k < items.len()
        invariant
            k <= items@.len(),
            forall|j: int| 0 <= j < items@.len() ==> speed_item_ok(#[trigger] items@[j], tpb as int),
            events@ == old(events)@ + speed_events(items@.subrange(0, k as int), tpb as int),
        decreases items@.len() - k,
    {
        let item = items[k];
        proof {
            assert(speed_item_ok(items@[k as int], tpb as int));
        }
        let beat = Fraction::new(item.tick as i64, tpb as i64 * 4);
        let bar = Fraction::from_integer(item.bar as i64).add(beat);
        proof {
            lemma_frac_of_view(bar);
        }
        events.push(Event::new(bar).with_speed(item.speed));
        proof {
            assert(speed_events(items@.subrange(0, k as int + 1), tpb as int) =~= speed_events(
                items@.subrange(0, k as int),
                tpb as int,
            ).push(Event { speed: Some(item.speed), ..empty_event(bar) }));
        }
        k = k + 1;
    }
    proof {
        assert(items@.subrange(0, k as int) =~= items@);
    }
}

/// Whether every speed change of a definition has a position.
fn speed_items_ok(items: &Vec<SpeedDefinitionItem>, tpb: i32) -> (r: bool)
    ensures
        r == forall|k: int| 0 <= k < items@.len() ==> speed_item_ok(#[trigger] items@[k], tpb as int),
{
    if tpb == 0 {
        proof {
            if items@.len() > 0 {
                assert(!speed_item_ok(items@[0], tpb as int));
            }
        }
        return items.len() == 0;
    }
    let mut k: usize = 0;
    while k < items.len()
        invariant
            k <= items@.len(),
            tpb != 0,
            forall|j: int| 0 <= j < k ==> speed_item_ok(#[trigger] items@[j], tpb as int),
        decreases items@.len() - k,
    {
        let item = items[k];
        match Fraction::checked_new(item.tick as i64, tpb as i64 * 4) {
            None => {
                proof {
                    assert(!speed_item_ok(items@[k as int], tpb as int));
                }
                return false;
            },
            Some(beat) => {
                if Fraction::from_integer(item.bar as i64).checked_add(beat).is_none() {
                    proof {
                        assert(!speed_item_ok(items@[k as int], tpb as int));
                    }
                    return false;
                }
            },
        }
        k = k + 1;
    }
    true
}

/// Applies one declared item to the loading state; `false` (and no change)
/// when a speed change has no position.
pub fn load_item_exec(
    meta: &mut Meta,
    tpb: &mut i32,
    defs: &mut Vec<BpmDefinition>,
    events: &mut Vec<Event>,
    notes: &mut Vec<NoteData>,
    item: &ParsedItem,
) -> (r: bool)
    ensures
        r == load_item(
            (old(meta)@, *old(tpb) as int, old(defs)@, old(events)@, old(notes)@),
            item@,
        ) is Some,
        r ==> load_item((old(meta)@, *old(tpb) as int, old(defs)@, old(events)@, old(notes)@), item@)
            == Some((final(meta)@, *final(tpb) as int, final(defs)@, final(events)@, final(notes)@)),
{
    match item {
        ParsedItem::Meta(m) => {
            let merged = meta.merge(m);
            *meta = merged;
        },
        ParsedItem::TicksPerBeat(t) => {
            *tpb = t.0;
        },
        ParsedItem::SpeedControl(_) => {},
        ParsedItem::SpeedDefinition(sd) => {
            if !speed_items_ok(&sd.items, *tpb) {
                return false;
            }
            push_speed_events(events, &sd.items, *tpb);
        },
        ParsedItem::Event(e) => {
            events.push(e.copied());
        },
        ParsedItem::BpmDefinition(b) => {
            defs.push(*b);
        },
        ParsedItem::BpmReference(r) => {
            if let Some(bpm) = find_bpm(defs, r.id) {
                events.push(Event::new(r.bar).with_bpm(bpm));
            }
        },
        ParsedItem::Note(n) => {
            notes.push(*n);
        },
    }
    true
}

} // verus!
