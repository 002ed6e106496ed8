//! Scores from charts in the JSON format: tick positions become bars, the
//! timeline events become score events, and the note list (with its
//! connections) becomes the note arena. Reading the JSON text into these
//! plain values is done by the caller.
pub mod building;
pub mod chains;
use crate::arith::{normalize, pair_fits};
use crate::fraction::{frac_add, frac_of, lemma_frac_of_view, Fraction};
use crate::meta::{chars_eq_str, empty_meta, Meta, MetaView};
use crate::text::chars_of;
use crate::notes::directional::DirectionalType;
use crate::notes::event::{clone_opt_string, empty_event, opt_str_view, Event};
use crate::notes::tap::TapType;
use crate::score::{event_before, Score};
use crate::sorting::{insert_stable, lemma_insert_stable_at, lemma_sort_stable_step, sort_stable};
use vstd::prelude::*;

verus! {

/// Ticks per beat when a chart gives none.
pub const DEFAULT_TICKS_PER_BEAT: i64 = 480;

/// The largest tick magnitude handled: the difference of two ticks fits in `i64`.
pub const MAX_TICKS: i64 = 4_611_686_018_427_387_903;

/// An event of a JSON chart as plain values.
#[derive(Debug, Clone, Copy)]
pub struct RawEvent {
    pub id: i64,
    pub ticks: i64,
    /// 0 BPM change, 1 speed change, 3 time signature.
    pub event_type: i64,
    /// The BPM, the speed, or the bar length in beats, by the event type.
    pub value: Fraction,
    /// For a time signature: the ticks of a bar from here on.
    pub tick_length: i64,
}

/// A note of a JSON chart as plain values.
#[derive(Debug, Clone, Copy)]
pub struct RawNote {
    pub id: i64,
    pub ticks: i64,
    pub lane_start: i32,
    pub lane_end: i32,
    pub category: i32,
    pub note_base_type: i32,
    pub previous_connection_id: i64,
    pub next_connection_id: i64,
    pub direction: i32,
    pub note_line_type: i32,
    /// The note's speed ratio when it differs from 1.
    pub speed: Option<Fraction>,
    pub critical: bool,
    /// The chart marks the note as not skipped.
    pub is_skip_false: bool,
}

/// Whether a text field of a chart counts as set: nonempty and none of
/// `0`, `false`, `False`.
pub open spec fn truthy(s: Seq<char>) -> bool {
    s.len() > 0 && s != "0"@ && s != "false"@ && s != "False"@
}

/// Whether a text field of a chart counts as set (see `truthy`).
pub fn truthy_text(s: &str) -> (r: bool)
    ensures
        r == truthy(s@),
{
    let chars = chars_of(s);
    chars.len() > 0 && !chars_eq_str(&chars, "0") && !chars_eq_str(&chars, "false")
        && !chars_eq_str(&chars, "False")
}

/// The texts a JSON chart offers for its metadata, as found (`None` where
/// absent): in its custom-info object (`info_*`), at its top level, and in
/// its `chart` object (`chart_*`).
pub struct JsonMetaTexts {
    pub info_title: Option<String>,
    pub title: Option<String>,
    pub chart_title: Option<String>,
    pub info_artist: Option<String>,
    pub artist: Option<String>,
    pub info_author: Option<String>,
    pub author: Option<String>,
    pub designer: Option<String>,
    pub difficulty: Option<String>,
    pub chart_difficulty: Option<String>,
    pub play_level: Option<String>,
    pub chart_play_level: Option<String>,
    pub song_id: Option<String>,
    pub music_id: Option<String>,
    pub music_id_capital: Option<String>,
    pub chart_song_id: Option<String>,
    pub chart_music_id: Option<String>,
    pub chart_music_id_capital: Option<String>,
}

/// `a` when it is present, else `b` (an empty text counts as present).
pub open spec fn first_text(a: Option<String>, b: Option<String>) -> Option<String> {
    match a {
        Some(_) => a,
        None => b,
    }
}

/// The metadata of a JSON chart: each field takes the first text present,
/// in the order custom info, top level, `chart` object (the author or, at
/// the top level, the designer for the designer; the song id, then the
/// music id in two spellings, for the song id); the other fields are unset.
pub open spec fn json_meta(t: JsonMetaTexts) -> MetaView {
    MetaView {
        title: opt_str_view(first_text(t.info_title, first_text(t.title, t.chart_title))),
        artist: opt_str_view(first_text(t.info_artist, t.artist)),
        designer: opt_str_view(first_text(t.info_author, first_text(t.author, t.designer))),
        difficulty: opt_str_view(first_text(t.difficulty, t.chart_difficulty)),
        playlevel: opt_str_view(first_text(t.play_level, t.chart_play_level)),
        songid: opt_str_view(
            first_text(
                t.song_id,
                first_text(
                    t.music_id,
                    first_text(
                        t.music_id_capital,
                        first_text(
                            t.chart_song_id,
                            first_text(t.chart_music_id, t.chart_music_id_capital),
                        ),
                    ),
                ),
            ),
        ),
        ..empty_meta()
    }
}

/// The first of two texts that is present.
fn pick_text(a: &Option<String>, b: Option<String>) -> (r: Option<String>)
    ensures
        r == first_text(*a, b),
{
    match a {
        Some(_) => clone_opt_string(a),
        None => b,
    }
}

/// The metadata of a JSON chart (see `json_meta`).
pub fn meta_from_json_texts(t: &JsonMetaTexts) -> (r: Meta)
    ensures
        r@ == json_meta(*t),
{
    let mut meta = Meta::new();
    meta.title = pick_text(&t.info_title, pick_text(&t.title, clone_opt_string(&t.chart_title)));
    meta.artist = pick_text(&t.info_artist, clone_opt_string(&t.artist));
    meta.designer = pick_text(
        &t.info_author,
        pick_text(&t.author, clone_opt_string(&t.designer)),
    );
    meta.difficulty = pick_text(&t.difficulty, clone_opt_string(&t.chart_difficulty));
    meta.playlevel = pick_text(&t.play_level, clone_opt_string(&t.chart_play_level));
    meta.songid = pick_text(
        &t.song_id,
        pick_text(
            &t.music_id,
            pick_text(
                &t.music_id_capital,
                pick_text(
                    &t.chart_song_id,
                    pick_text(&t.chart_music_id, clone_opt_string(&t.chart_music_id_capital)),
                ),
            ),
        ),
    );
    meta
}

/// A JSON chart as plain values.
pub struct ChartData {
    pub meta: Meta,
    pub ticks_per_beat: i64,
    pub events: Vec<RawEvent>,
    pub notes: Vec<RawNote>,
}

/// The leftmost lane of a note (lanes 2 to 13 are playable).
pub open spec fn spec_note_lane(n: RawNote) -> int {
    n.lane_start + 2
}

/// The width of a note in lanes, at least one.
pub open spec fn spec_note_width(n: RawNote) -> int {
    let w = n.lane_end - n.lane_start + 1;
    if w < 1 {
        1
    } else {
        w
    }
}

/// The lane arithmetic of a note fits in `i32` and its tick lies within `MAX_TICKS`.
pub open spec fn raw_note_ok(n: RawNote) -> bool {
    &&& 12 - i32::MAX <= n.lane_start
    &&& n.lane_start + 2 <= i32::MAX
    &&& i32::MIN <= n.lane_end - n.lane_start
    &&& n.lane_end - n.lane_start + 1 <= i32::MAX
    &&& -MAX_TICKS <= n.ticks <= MAX_TICKS
}

/// The lane of a note.
pub fn note_lane(note: &RawNote) -> (r: i32)
    requires
        raw_note_ok(*note),
    ensures
        r == spec_note_lane(*note),
{
    note.lane_start + 2
}

/// The width of a note.
pub fn note_width(note: &RawNote) -> (r: i32)
    requires
        raw_note_ok(*note),
    ensures
        r == spec_note_width(*note),
{
    let w = note.lane_end - note.lane_start + 1;
    if w < 1 {
        1
    } else {
        w
    }
}

/// The slot of a note: tick, lane and width.
pub open spec fn spec_note_slot(n: RawNote) -> (i64, i32, i32) {
    (n.ticks, spec_note_lane(n) as i32, spec_note_width(n) as i32)
}

/// The tap slot of a note: tick and lane.
pub open spec fn spec_tap_slot(n: RawNote) -> (i64, i32) {
    (n.ticks, spec_note_lane(n) as i32)
}

/// The slot of a note.
pub fn note_slot_key(note: &RawNote) -> (r: (i64, i32, i32))
    requires
        raw_note_ok(*note),
    ensures
        r == spec_note_slot(*note),
{
    (note.ticks, note_lane(note), note_width(note))
}

/// The tap slot of a note.
pub fn tap_slot_key(note: &RawNote) -> (r: (i64, i32))
    requires
        raw_note_ok(*note),
    ensures
        r == spec_tap_slot(*note),
{
    (note.ticks, note_lane(note))
}

/// The critical or the normal type code.
pub fn critical_pair(critical: bool, critical_type: TapType, normal_type: TapType) -> (r: i32)
    ensures
        r == if critical {
            crate::notes::tap::tap_type_code(critical_type)
        } else {
            crate::notes::tap::tap_type_code(normal_type)
        },
{
    if critical {
        critical_type.to_i32()
    } else {
        normal_type.to_i32()
    }
}

/// The tap type of a note by its kind: trend (category 6, base 4 or 11),
/// plain (base 1, 2, 3 or 8) or cancel (base 9 or 12), critical when the
/// note is; `fallback` for other notes.
pub open spec fn spec_tap_type(n: RawNote, fallback: int) -> int {
    let b = n.note_base_type;
    if n.category == 6 || b == 11 || b == 4 {
        if n.critical {
            6
        } else {
            5
        }
    } else if b == 8 || b == 3 || b == 1 || b == 2 {
        if n.critical {
            2
        } else {
            1
        }
    } else if b == 9 || b == 12 {
        if n.critical {
            8
        } else {
            7
        }
    } else {
        fallback
    }
}

/// The tap type of a note (see `spec_tap_type`).
pub fn tap_type_from_json(note: &RawNote, fallback: i32) -> (r: i32)
    ensures
        r == spec_tap_type(*note, fallback as int),
{
    let base = note.note_base_type;
    let category = note.category;
    if category == 6 {
        return critical_pair(note.critical, TapType::CriticalTrend, TapType::Trend);
    }
    if base == 11 {
        return critical_pair(note.critical, TapType::CriticalTrend, TapType::Trend);
    }
    if base == 8 {
        return critical_pair(note.critical, TapType::Critical, TapType::Tap);
    }
    if base == 9 || base == 12 {
        return critical_pair(note.critical, TapType::CriticalCancel, TapType::Cancel);
    }
    if base == 4 {
        return critical_pair(note.critical, TapType::CriticalTrend, TapType::Trend);
    }
    if base == 3 {
        return critical_pair(note.critical, TapType::Critical, TapType::Tap);
    }
    if base == 1 || base == 2 {
        return critical_pair(note.critical, TapType::Critical, TapType::Tap);
    }
    fallback
}

/// The non-critical form of a tap type.
pub open spec fn spec_downgrade(t: int) -> int {
    if t == 2 {
        1
    } else if t == 6 {
        5
    } else if t == 8 {
        7
    } else {
        t
    }
}

/// The non-critical form of a tap type (see `spec_downgrade`).
pub fn downgrade_critical_tap_type(tap_type: i32) -> (r: i32)
    ensures
        r == spec_downgrade(tap_type as int),
{
    if tap_type == TapType::Critical.to_i32() {
        TapType::Tap.to_i32()
    } else if tap_type == TapType::CriticalTrend.to_i32() {
        TapType::Trend.to_i32()
    } else if tap_type == TapType::CriticalCancel.to_i32() {
        TapType::Cancel.to_i32()
    } else {
        tap_type
    }
}

/// The flick direction of a chart direction: 1 upper left, 2 upper right, else up.
pub open spec fn spec_direction(direction: int) -> int {
    if direction == 1 {
        3
    } else if direction == 2 {
        4
    } else {
        1
    }
}

/// The flick direction of a chart direction (see `spec_direction`).
pub fn direction_to_directional(direction: i32) -> (r: i32)
    ensures
        r == spec_direction(direction as int),
{
    match direction {
        1 => DirectionalType::UpperLeft.to_i32(),
        2 => DirectionalType::UpperRight.to_i32(),
        _ => DirectionalType::Up.to_i32(),
    }
}

/// The flick a curve line type adds: 1 lower left, 2 down, else none (0).
pub open spec fn spec_line_directional(line_type: int) -> int {
    if line_type == 1 {
        5
    } else if line_type == 2 {
        2
    } else {
        0
    }
}

/// The flick a curve line type adds (see `spec_line_directional`).
pub fn line_type_to_directional(line_type: i32) -> (r: i32)
    ensures
        r == spec_line_directional(line_type as int),
{
    match line_type {
        1 => DirectionalType::LowerLeft.to_i32(),
        2 => DirectionalType::Down.to_i32(),
        _ => 0,
    }
}

/// A stretch of the chart from `tick` on, starting at `bar`, with bars of
/// `tick_length` ticks.
#[derive(Debug, Clone, Copy)]
pub struct TickSegment {
    pub tick: i64,
    pub bar: Fraction,
    pub tick_length: i64,
}

/// Converts tick positions to bars through the chart's time signatures.
pub struct TickConverter {
    pub segments: Vec<TickSegment>,
}

/// Whether time signature `a` sorts before `b` (by tick, then id).
pub open spec fn signature_before() -> spec_fn(RawEvent, RawEvent) -> bool {
    |a: RawEvent, b: RawEvent| a.ticks < b.ticks || (a.ticks == b.ticks && a.id < b.id)
}

/// The time signatures among the first `k` events, in order.
pub open spec fn signatures(events: Seq<RawEvent>, k: int) -> Seq<RawEvent>
    decreases k,
{
    if k <= 0 {
        seq![]
    } else {
        signatures(events, k - 1) + if events[k - 1].event_type == 3 {
            seq![events[k - 1]]
        } else {
            seq![]
        }
    }
}

/// The state of the segment walk: segments, current tick, bar and bar length.
pub type SegmentWalk = (Seq<TickSegment>, int, (int, int), int);

/// `n` when at least one, else one.
pub open spec fn at_least_one(n: int) -> int {
    if n < 1 {
        1
    } else {
        n
    }
}

/// One time signature: a signature before the current tick is ignored; else
/// the bar advances to its tick, its bar length takes over, and it starts a
/// segment (replacing one that starts at the same tick). `None` when the
/// bar leaves `i64`.
pub open spec fn segment_step(st: SegmentWalk, ev: RawEvent) -> Option<SegmentWalk> {
    let (segs, cur_tick, cur_bar, cur_len) = st;
    if ev.ticks < cur_tick {
        Some(st)
    } else {
        let bar = frac_add(cur_bar, normalize(ev.ticks - cur_tick, at_least_one(cur_len)));
        if !pair_fits(bar) {
            None
        } else {
            let seg = TickSegment { tick: ev.ticks, bar: frac_of(bar), tick_length: ev.tick_length };
            Some(
                (
                    if segs.len() > 0 && segs.last().tick == ev.ticks {
                        segs.update(segs.len() - 1, seg)
                    } else {
                        segs.push(seg)
                    },
                    ev.ticks as int,
                    bar,
                    ev.tick_length as int,
                ),
            )
        }
    }
}

/// The segment walk over the first `k` signatures.
pub open spec fn segment_walk(sigs: Seq<RawEvent>, tpb: int, k: int) -> Option<SegmentWalk>
    decreases k,
{
    if k <= 0 {
        Some(
            (
                seq![TickSegment { tick: 0, bar: frac_of((0, 1)), tick_length: (tpb * 4) as i64 }],
                0,
                (0, 1),
                tpb * 4,
            ),
        )
    } else {
        match segment_walk(sigs, tpb, k - 1) {
            None => None,
            Some(st) => segment_step(st, sigs[k - 1]),
        }
    }
}

/// The segments of a chart: the time signatures sorted by tick and id, walked in order.
pub open spec fn chart_segments(events: Seq<RawEvent>, tpb: int) -> Option<Seq<TickSegment>> {
    let sigs = sort_stable(signatures(events, events.len() as int), signature_before());
    match segment_walk(sigs, tpb, sigs.len() as int) {
        Some(st) => Some(st.0),
        None => None,
    }
}

/// The index of the last segment starting at or before `ticks` among the first `n`, or -1.
pub open spec fn last_segment_at(segs: Seq<TickSegment>, ticks: int, n: int) -> int
    decreases n,
{
    if n <= 0 {
        -1
    } else if segs[n - 1].tick <= ticks {
        n - 1
    } else {
        last_segment_at(segs, ticks, n - 1)
    }
}

/// The bar of a tick position: the segment in force (the last one starting
/// at or before it, else the first) plus the ticks past its start over its
/// bar length. `None` when the bar leaves `i64`.
pub open spec fn spec_to_bar(segs: Seq<TickSegment>, ticks: int) -> Option<(int, int)> {
    let k = last_segment_at(segs, ticks, segs.len() as int);
    let seg = segs[if k < 0 {
        0
    } else {
        k
    }];
    let step = normalize(ticks - seg.tick, at_least_one(seg.tick_length as int));
    let b = frac_add(seg.bar@, step);
    if pair_fits(step) && pair_fits(b) {
        Some(b)
    } else {
        None
    }
}

/// There is a segment, the first starts at tick 0, and none starts before it.
pub open spec fn segments_ok(segs: Seq<TickSegment>) -> bool {
    &&& segs.len() > 0
    &&& segs[0].tick == 0
    &&& forall|i: int| 0 <= i < segs.len() ==> 0 <= #[trigger] segs[i].tick
}

/// The segment `last_segment_at` finds starts at or before the tick; when
/// there is none, every segment starts after it.
proof fn lemma_last_segment_at(segs: Seq<TickSegment>, ticks: int, n: int)
    requires
        n <= segs.len(),
    ensures
        last_segment_at(segs, ticks, n) >= 0 ==> last_segment_at(segs, ticks, n) < n && segs[last_segment_at(segs, ticks, n)].tick <= ticks,
        last_segment_at(segs, ticks, n) < 0 ==> forall|i: int| 0 <= i < n ==> #[trigger] segs[i].tick > ticks,
    decreases n,
{
    if n > 0 {
        lemma_last_segment_at(segs, ticks, n - 1);
    }
}

/// Whether signature `a` sorts before `b`.
fn signature_precedes(a: &RawEvent, b: &RawEvent) -> (r: bool)
    ensures
        r == (signature_before())(*a, *b),
{
    a.ticks < b.ticks || (a.ticks == b.ticks && a.id < b.id)
}

/// Inserts `x` into `v`, sorted by tick and id, after every signature it does not precede.
fn insert_signature(v: &mut Vec<RawEvent>, x: RawEvent)
    ensures
        final(v)@ == insert_stable(x, old(v)@, signature_before()),
{
    let mut k: usize = 0;
    while k < v.len() && !signature_precedes(&x, &v[k])
        invariant
            k <= v.len(),
            v@ == old(v)@,
            forall|j: int| 0 <= j < k ==> !(signature_before())(x, #[trigger] v@[j]),
        decreases v.len() - k,
    {
        k = k + 1;
    }
    proof {
        lemma_insert_stable_at(x, v@, signature_before(), k as int);
    }
    v.insert(k, x);
    proof {
        assert(v@ =~= old(v)@.subrange(0, k as int) + seq![x] + old(v)@.subrange(
            k as int,
            old(v)@.len() as int,
        ));
    }
}

/// The time signatures sorted by tick and id.
fn sorted_signatures(events: &Vec<RawEvent>) -> (r: Vec<RawEvent>)
    ensures
        r@ == sort_stable(signatures(events@, events@.len() as int), signature_before()),
{
    let ghost sigs = signatures(events@, events@.len() as int);
    let mut filtered: Vec<RawEvent> = Vec::new();
    let mut k: usize = 0;
    while k < events.len()
        invariant
            k <= events@.len(),
            filtered@ == signatures(events@, k as int),
        decreases events@.len() - k,
    {
        if events[k].event_type == 3 {
            filtered.push(events[k]);
        }
        proof {
            assert(filtered@ =~= signatures(events@, k as int + 1));
        }
        k = k + 1;
    }
    let mut sorted: Vec<RawEvent> = Vec::new();
    let mut j: usize = 0;
    while j < filtered.len()
        invariant
            j <= filtered@.len(),
            filtered@ == sigs,
            sorted@ == sort_stable(sigs.subrange(0, j as int), signature_before()),
        decreases filtered@.len() - j,
    {
        proof {
            lemma_sort_stable_step(sigs, j as int, signature_before());
        }
        insert_signature(&mut sorted, filtered[j]);
        j = j + 1;
    }
    proof {
        assert(sigs.subrange(0, j as int) =~= sigs);
    }
    sorted
}

/// The index of the segment in force at `ticks`: the last one starting at
/// or before it, else the first.
fn segment_index(segs: &Vec<TickSegment>, ticks: i64) -> (r: usize)
    requires
        segs@.len() > 0,
    ensures
        r < segs@.len(),
        r as int == if last_segment_at(segs@, ticks as int, segs@.len() as int) < 0 {
            0
        } else {
            last_segment_at(segs@, ticks as int, segs@.len() as int)
        },
{
    let mut n = segs.len();
    while n > 0
        invariant
            n <= segs@.len(),
            last_segment_at(segs@, ticks as int, segs@.len() as int) == last_segment_at(
                segs@,
                ticks as int,
                n as int,
            ),
        decreases n,
    {
        if segs[n - 1].tick <= ticks {
            return n - 1;
        }
        n = n - 1;
    }
    0
}

impl TickConverter {
    /// The segments of a chart's time signatures (see `chart_segments`);
    /// `None` when a bar leaves `i64`.
    pub fn new(events: &Vec<RawEvent>, ticks_per_beat: i64) -> (r: Option<TickConverter>)
        requires
            1 <= ticks_per_beat <= i64::MAX / 4,
        ensures
            match r {
                Some(tc) => chart_segments(events@, ticks_per_beat as int) == Some(tc.segments@)
                    && segments_ok(tc.segments@),
                None => chart_segments(events@, ticks_per_beat as int) is None,
            },
    {
        let sigs = sorted_signatures(events);
        let ghost sorted = sigs@;
        proof {
            crate::sorting::lemma_sort_stable_elements(
                signatures(events@, events@.len() as int),
                signature_before(),
            );
            lemma_signatures_from(events@, events@.len() as int);
            crate::sorting::lemma_sort_stable_len(
                signatures(events@, events@.len() as int),
                signature_before(),
            );
        }
        let default_tick_length = ticks_per_beat * 4;
        let zero = Fraction::zero();
        proof {
            lemma_frac_of_view(zero);
        }
        let mut segments: Vec<TickSegment> = Vec::new();
        segments.push(TickSegment { tick: 0, bar: zero, tick_length: default_tick_length });
        let mut current_tick: i64 = 0;
        let mut current_bar = zero;
        let mut current_tick_length = default_tick_length;
        let mut k: usize = 0;
        while k < sigs.len()
            invariant
                k <= sigs@.len(),
                sigs@ == sorted,
                sorted == sort_stable(signatures(events@, events@.len() as int), signature_before()),
                segment_walk(sorted, ticks_per_beat as int, k as int) == Some(
                    (segments@, current_tick as int, current_bar@, current_tick_length as int),
                ),
                0 <= current_tick,
                segments_ok(segments@),
            decreases sigs@.len() - k,
        {
            let ev = sigs[k];
            if ev.ticks >= current_tick {
                let len = if current_tick_length < 1 {
                    1
                } else {
                    current_tick_length
                };
                proof {
                    crate::fraction::lemma_normalize_bounds(
                        (ev.ticks - current_tick) as int,
                        len as int,
                    );
                }
                let step = Fraction::new(ev.ticks - current_tick, len);
                match current_bar.checked_add(step) {
                    None => {
                        proof {
                            lemma_segment_walk_none(
                                sorted,
                                ticks_per_beat as int,
                                k as int + 1,
                                sorted.len() as int,
                            );
                        }
                        return None;
                    },
                    Some(bar) => {
                        proof {
                            lemma_frac_of_view(bar);
                        }
                        current_bar = bar;
                    },
                }
                current_tick = ev.ticks;
                current_tick_length = ev.tick_length;
                let n = segments.len();
                let seg = TickSegment { tick: ev.ticks, bar: current_bar, tick_length: ev.tick_length };
                if segments[n - 1].tick == ev.ticks {
                    segments.set(n - 1, seg);
                } else {
                    segments.push(seg);
                }
            }
            k = k + 1;
        }
        Some(TickConverter { segments })
    }

    /// The bar of a tick position (see `spec_to_bar`); `None` when it leaves `i64`.
    pub fn to_bar(&self, ticks: i64) -> (r: Option<Fraction>)
        requires
            segments_ok(self.segments@),
        ensures
            match r {
                Some(b) => spec_to_bar(self.segments@, ticks as int) == Some(b@),
                None => spec_to_bar(self.segments@, ticks as int) is None,
            },
    {
        let segs = &self.segments;
        let index = segment_index(segs, ticks);
        let seg = segs[index];
        proof {
            lemma_last_segment_at(segs@, ticks as int, segs@.len() as int);
            assert(0 <= seg.tick);
            assert(seg.tick <= ticks || seg.tick == 0);
        }
        let len = if seg.tick_length < 1 {
            1
        } else {
            seg.tick_length
        };
        match Fraction::checked_new(ticks - seg.tick, len) {
            Some(step) => seg.bar.checked_add(step),
            None => None,
        }
    }
}

/// Every signature comes from the events.
proof fn lemma_signatures_from(events: Seq<RawEvent>, k: int)
    requires
        0 <= k <= events.len(),
    ensures
        forall|i: int|
            0 <= i < signatures(events, k).len() ==> events.contains(#[trigger] signatures(events, k)[i]),
    decreases k,
{
    if k > 0 {
        lemma_signatures_from(events, k - 1);
        assert forall|i: int| 0 <= i < signatures(events, k).len() implies events.contains(
            #[trigger] signatures(events, k)[i],
        ) by {
            if i < signatures(events, k - 1).len() {
                assert(signatures(events, k)[i] == signatures(events, k - 1)[i]);
            } else {
                assert(signatures(events, k)[i] == events[k - 1]);
            }
        }
    }
}

/// Once the segment walk has failed it stays failed.
proof fn lemma_segment_walk_none(sigs: Seq<RawEvent>, tpb: int, k: int, m: int)
    requires
        k <= m,
        segment_walk(sigs, tpb, k) is None,
    ensures
        segment_walk(sigs, tpb, m) is None,
    decreases m - k,
{
    if k < m {
        lemma_segment_walk_none(sigs, tpb, k, m - 1);
    }
}

/// Whether JSON event `a` sorts before `b` (by tick, then type).
pub open spec fn json_event_before() -> spec_fn(RawEvent, RawEvent) -> bool {
    |a: RawEvent, b: RawEvent| a.ticks < b.ticks || (a.ticks == b.ticks && a.event_type < b.event_type)
}

/// The score event of a JSON event at `bar`: a BPM (type 0), speed (type 1)
/// or bar length (type 3) change; none for other types.
pub open spec fn json_event(ev: RawEvent, bar: Fraction) -> Seq<Event> {
    if ev.event_type == 0 {
        seq![Event { bpm: Some(ev.value), ..empty_event(bar) }]
    } else if ev.event_type == 1 {
        seq![Event { speed: Some(ev.value), ..empty_event(bar) }]
    } else if ev.event_type == 3 {
        seq![Event { bar_length: Some(ev.value), ..empty_event(bar) }]
    } else {
        seq![]
    }
}

/// The score events of the first `k` sorted JSON events; `None` when a bar leaves `i64`.
pub open spec fn json_events_upto(sorted: Seq<RawEvent>, segs: Seq<TickSegment>, k: int) -> Option<
    Seq<Event>,
>
    decreases k,
{
    if k <= 0 {
        Some(seq![])
    } else {
        match json_events_upto(sorted, segs, k - 1) {
            None => None,
            Some(es) => match spec_to_bar(segs, sorted[k - 1].ticks as int) {
                None => None,
                Some(b) => Some(es + json_event(sorted[k - 1], frac_of(b))),
            },
        }
    }
}

/// The score events of a chart's events, sorted by tick and type.
pub open spec fn json_events(events: Seq<RawEvent>, segs: Seq<TickSegment>) -> Option<Seq<Event>> {
    let sorted = sort_stable(events, json_event_before());
    json_events_upto(sorted, segs, sorted.len() as int)
}

/// `a` when it holds a value, else `b`.
pub open spec fn opt_or<T>(a: Option<T>, b: Option<T>) -> Option<T> {
    if a is Some {
        a
    } else {
        b
    }
}

/// An entry merged with a later event at its bar: each field of the later
/// event that is set wins.
pub open spec fn or_merge(existing: Event, e: Event) -> Event {
    Event {
        bar: existing.bar,
        bpm: opt_or(e.bpm, existing.bpm),
        bar_length: opt_or(e.bar_length, existing.bar_length),
        sentence_length: opt_or(e.sentence_length, existing.sentence_length),
        speed: opt_or(e.speed, existing.speed),
        section: opt_or(e.section, existing.section),
        text: opt_or(e.text, existing.text),
    }
}

/// The index of the last of the first `n` entries at `bar`, or -1.
pub open spec fn bar_entry(acc: Seq<Event>, bar: Fraction, n: int) -> int
    decreases n,
{
    if n <= 0 {
        -1
    } else if acc[n - 1].bar == bar {
        n - 1
    } else {
        bar_entry(acc, bar, n - 1)
    }
}

/// An event merged into the entries by bar: into the entry at its bar, or
/// as a new entry before the first entry at a later bar.
pub open spec fn merge_by_bar(acc: Seq<Event>, e: Event) -> Seq<Event> {
    let i = bar_entry(acc, e.bar, acc.len() as int);
    if i >= 0 {
        acc.update(i, or_merge(acc[i], e))
    } else {
        insert_stable(e, acc, event_before())
    }
}

/// The first `k` events merged by bar.
pub open spec fn merged_by_bar(events: Seq<Event>, k: int) -> Seq<Event>
    decreases k,
{
    if k <= 0 {
        seq![]
    } else {
        merge_by_bar(merged_by_bar(events, k - 1), events[k - 1])
    }
}

/// Whether JSON event `a` sorts before `b`.
fn json_event_precedes(a: &RawEvent, b: &RawEvent) -> (r: bool)
    ensures
        r == (json_event_before())(*a, *b),
{
    a.ticks < b.ticks || (a.ticks == b.ticks && a.event_type < b.event_type)
}

/// Inserts `x` into `v`, sorted by tick and type, after every event it does not precede.
fn insert_json_event(v: &mut Vec<RawEvent>, x: RawEvent)
    ensures
        final(v)@ == insert_stable(x, old(v)@, json_event_before()),
{
    let mut k: usize = 0;
    while k < v.len() && !json_event_precedes(&x, &v[k])
        invariant
            k <= v.len(),
            v@ == old(v)@,
            forall|j: int| 0 <= j < k ==> !(json_event_before())(x, #[trigger] v@[j]),
        decreases v.len() - k,
    {
        k = k + 1;
    }
    proof {
        lemma_insert_stable_at(x, v@, json_event_before(), k as int);
    }
    v.insert(k, x);
    proof {
        assert(v@ =~= old(v)@.subrange(0, k as int) + seq![x] + old(v)@.subrange(
            k as int,
            old(v)@.len() as int,
        ));
    }
}

/// The score events of a chart's events (see `json_events`); `None` when a bar leaves `i64`.
pub fn init_events_by_data(events: &Vec<RawEvent>, tick_converter: &TickConverter) -> (r: Option<
    Vec<Event>,
>)
    requires
        segments_ok(tick_converter.segments@),
    ensures
        match r {
            Some(v) => json_events(events@, tick_converter.segments@) == Some(v@),
            None => json_events(events@, tick_converter.segments@) is None,
        },
{
    let mut sorted: Vec<RawEvent> = Vec::new();
    let mut j: usize = 0;
    while j < events.len()
        invariant
            j <= events@.len(),
            sorted@ == sort_stable(events@.subrange(0, j as int), json_event_before()),
        decreases events@.len() - j,
    {
        proof {
            lemma_sort_stable_step(events@, j as int, json_event_before());
        }
        insert_json_event(&mut sorted, events[j]);
        j = j + 1;
    }
    proof {
        assert(events@.subrange(0, j as int) =~= events@);
        crate::sorting::lemma_sort_stable_elements(events@, json_event_before());
        crate::sorting::lemma_sort_stable_len(events@, json_event_before());
    }
    let ghost segs = tick_converter.segments@;
    let mut out: Vec<Event> = Vec::new();
    let mut k: usize = 0;
    while k < sorted.len()
        invariant
            k <= sorted@.len(),
            sorted@ == sort_stable(events@, json_event_before()),
            segs == tick_converter.segments@,
            segments_ok(segs),
            json_events_upto(sorted@, segs, k as int) == Some(out@),
        decreases sorted@.len() - k,
    {
        let ev = sorted[k];
        match tick_converter.to_bar(ev.ticks) {
            None => {
                proof {
                    lemma_json_events_none(sorted@, segs, k as int + 1, sorted@.len() as int);
                }
                return None;
            },
            Some(bar) => {
                proof {
                    lemma_frac_of_view(bar);
                }
                let ghost before = out@;
                if ev.event_type == 0 {
                    out.push(Event::new(bar).with_bpm(ev.value));
                } else if ev.event_type == 1 {
                    out.push(Event::new(bar).with_speed(ev.value));
                } else if ev.event_type == 3 {
                    out.push(Event::new(bar).with_bar_length(ev.value));
                }
                proof {
                    assert(out@ =~= before + json_event(ev, bar));
                }
            },
        }
        k = k + 1;
    }
    Some(out)
}

/// Once event conversion has failed it stays failed.
proof fn lemma_json_events_none(sorted: Seq<RawEvent>, segs: Seq<TickSegment>, k: int, m: int)
    requires
        k <= m,
        json_events_upto(sorted, segs, k) is None,
    ensures
        json_events_upto(sorted, segs, m) is None,
    decreases m - k,
{
    if k < m {
        lemma_json_events_none(sorted, segs, k, m - 1);
    }
}

/// `a` when it holds a value, else a copy of `b`.
fn or_string(a: &Option<String>, b: &Option<String>) -> (r: Option<String>)
    ensures
        r == opt_or(*a, *b),
{
    match a {
        Some(v) => Some(v.clone()),
        None => crate::notes::event::clone_opt_string(b),
    }
}

/// The entry `existing` merged with a later event at its bar (see `or_merge`).
fn or_merge_exec(existing: &Event, e: &Event) -> (r: Event)
    ensures
        r == or_merge(*existing, *e),
{
    Event {
        bar: existing.bar,
        bpm: if e.bpm.is_some() { e.bpm } else { existing.bpm },
        bar_length: if e.bar_length.is_some() { e.bar_length } else { existing.bar_length },
        sentence_length: if e.sentence_length.is_some() {
            e.sentence_length
        } else {
            existing.sentence_length
        },
        speed: if e.speed.is_some() { e.speed } else { existing.speed },
        section: or_string(&e.section, &existing.section),
        text: or_string(&e.text, &existing.text),
    }
}

/// The index of the last entry at `bar` (see `bar_entry`).
fn find_bar_entry(merged: &Vec<Event>, bar: Fraction) -> (r: Option<usize>)
    ensures
        match r {
            Some(i) => i as int == bar_entry(merged@, bar, merged@.len() as int) && i < merged@.len(),
            None => bar_entry(merged@, bar, merged@.len() as int) < 0,
        },
{
    let mut n = merged.len();
    while n > 0
        invariant
            n <= merged@.len(),
            bar_entry(merged@, bar, merged@.len() as int) == bar_entry(merged@, bar, n as int),
        decreases n,
    {
        if merged[n - 1].bar == bar {
            return Some(n - 1);
        }
        n = n - 1;
    }
    None
}

/// Merges the events into one entry per bar, sorted by bar (see `merged_by_bar`).
pub fn merge_json_events_by_bar(events: &Vec<Event>) -> (r: Vec<Event>)
    ensures
        r@ == merged_by_bar(events@, events@.len() as int),
{
    let mut merged: Vec<Event> = Vec::new();
    let mut k: usize = 0;
    while k < events.len()
        invariant
            k <= events@.len(),
            merged@ == merged_by_bar(events@, k as int),
        decreases events@.len() - k,
    {
        let event = &events[k];
        let found = find_bar_entry(&merged, event.bar);
        match found {
            Some(i) => {
                let updated = or_merge_exec(&merged[i], event);
                merged.set(i, updated);
            },
            None => {
                crate::score::insert_event(&mut merged, event.copied());
            },
        }
        k = k + 1;
    }
    merged
}

/// The events, arena and standing notes of a JSON chart: its events
/// converted and merged by bar, its notes built, then the events sorted and
/// deduplicated. `None` when a bar leaves `i64`.
pub open spec fn chart_score(tpb: int, events: Seq<RawEvent>, notes: Seq<RawNote>) -> Option<
    (Seq<Event>, Seq<crate::notes::NoteData>, Seq<usize>),
> {
    match chart_segments(events, tpb) {
        None => None,
        Some(segs) => match json_events(events, segs) {
            None => None,
            Some(es) => if exists|i: int|
                0 <= i < notes.len() && #[trigger] spec_to_bar(segs, notes[i].ticks as int) is None {
                None
            } else {
                let b = building::spec_parse_notes(segs, notes);
                Some((crate::score::normalized_events(merged_by_bar(es, es.len() as int)), b.0, b.1))
            },
        },
    }
}

/// Whether the lane arithmetic and the tick of a note fit (`raw_note_ok`).
pub fn raw_note_fits(note: &RawNote) -> (r: bool)
    ensures
        r == raw_note_ok(*note),
{
    let start = note.lane_start as i64;
    let end = note.lane_end as i64;
    12 - 2_147_483_647i64 <= start && start + 2 <= 2_147_483_647i64 && -2_147_483_648i64 <= end
        - start && end - start + 1 <= 2_147_483_647i64 && -MAX_TICKS <= note.ticks && note.ticks
        <= MAX_TICKS
}

/// Whether a chart can be converted by `score_from_chart`: its ticks per
/// beat lie from 1 to `i64::MAX / 4` and every note fits (`raw_note_ok`).
pub fn chart_fits(chart: &ChartData) -> (r: bool)
    ensures
        r == (1 <= chart.ticks_per_beat <= i64::MAX / 4 && building::lanes_ok(chart.notes@)),
{
    if chart.ticks_per_beat < 1 || chart.ticks_per_beat > i64::MAX / 4 {
        return false;
    }
    let mut i: usize = 0;
    while i < chart.notes.len()
        invariant
            i <= chart.notes@.len(),
            forall|j: int| 0 <= j < i ==> raw_note_ok(#[trigger] chart.notes@[j]),
        decreases chart.notes@.len() - i,
    {
        if !raw_note_fits(&chart.notes[i]) {
            return false;
        }
        i = i + 1;
    }
    true
}

/// The score of a JSON chart (see `chart_score`): its metadata as given,
/// and no cached timeline.
pub fn score_from_chart(chart: &ChartData) -> (r: Option<Score>)
    requires
        1 <= chart.ticks_per_beat <= i64::MAX / 4,
        building::lanes_ok(chart.notes@),
    ensures
        r is None <==> chart_score(chart.ticks_per_beat as int, chart.events@, chart.notes@) is None,
        r matches Some(s) ==> s.meta@ == chart.meta@ && (s.events@, s.notes@, s.active_notes@)
            == chart_score(chart.ticks_per_beat as int, chart.events@, chart.notes@)->0
            && s.timed_events_cache is None,
{
    let tick_converter = match TickConverter::new(&chart.events, chart.ticks_per_beat) {
        Some(t) => t,
        None => {
            return None;
        },
    };
    let ghost segs = tick_converter.segments@;
    let events = match init_events_by_data(&chart.events, &tick_converter) {
        Some(e) => e,
        None => {
            return None;
        },
    };
    let mut i: usize = 0;
    while i < chart.notes.len()
        invariant
            i <= chart.notes@.len(),
            segs == tick_converter.segments@,
            segments_ok(segs),
            chart_segments(chart.events@, chart.ticks_per_beat as int) == Some(segs),
            json_events(chart.events@, segs) == Some(events@),
            forall|j: int| 0 <= j < i ==> #[trigger] spec_to_bar(segs, chart.notes@[j].ticks as int) is Some,
        decreases chart.notes@.len() - i,
    {
        if tick_converter.to_bar(chart.notes[i].ticks).is_none() {
            proof {
                assert(spec_to_bar(segs, chart.notes@[i as int].ticks as int) is None);
            }
            return None;
        }
        i = i + 1;
    }
    proof {
        assert(building::notes_ok(chart.notes@, segs));
    }
    let mut score = Score::new();
    score.meta = chart.meta.copied();
    score.events = merge_json_events_by_bar(&events);
    let (notes, active) = building::parse_notes(&chart.notes, &tick_converter);
    score.notes = notes;
    score.active_notes = active;
    score.init_events();
    Some(score)
}

} // verus!
