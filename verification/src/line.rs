//! Lines of a `.sus` chart file and what each line declares.
use crate::arith::{normalize, pair_fits};
use crate::fraction::{
    frac_add, frac_of, lemma_frac_of_view, parse_fraction_defined, spec_parse_fraction,
    decimal_ratio, Fraction,
};
use crate::meta::{empty_meta, meta_field_names, meta_set, Meta, MetaView};
use crate::notes::directional::Directional;
use crate::notes::event::{empty_event, Event};
use crate::notes::slide::Slide;
use crate::notes::tap::Tap;
use crate::notes::{NoteBase, NoteData, NO_NOTE};
use crate::pattern::{
    captures, captures_all, group, group_chars, groups_view, regex_captures, regex_captures_all,
};
use crate::sorting::{insert_stable, lemma_insert_stable_at, lemma_sort_stable_step, sort_stable};
use crate::text::{
    chars_of, lowercase, parse_i32, parse_i64, parse_int_range, slice_vec, string_of, to_lowercase,
    trim, trim_vec,
};
use vstd::prelude::*;

verus! {

/// A metadata line: `#NAME value`.
pub const RE_META: &'static str = "^#(\\w+)\\s+(.*)$";

/// A data line: `#HEADER: data`.
pub const RE_SCORE: &'static str = "^#(\\w+):\\s*(.*)$";

/// Bar length of a bar: `mmm02`.
pub const RE_EVENT: &'static str = "^(\\d{3})02$";

/// BPM definition: `BPMzz`.
pub const RE_BPM_DEF: &'static str = "^BPM(..)$";

/// BPM reference in a bar: `mmm08`.
pub const RE_BPM_REF: &'static str = "^(\\d{3})08$";

/// Speed (hi-speed) definition: `TILzz`.
pub const RE_TIL: &'static str = "^TIL(..)$";

/// One speed change of a speed definition: `bar'tick:speed`.
pub const RE_SPEED_ITEM: &'static str = "(\\d+)'(\\d+):(\\S+)";

/// Tap notes: `mmm1x`.
pub const RE_TAP: &'static str = "^(\\d{3})1(.)$";

/// Slide notes: `mmm3xy`.
pub const RE_SLIDE: &'static str = "^(\\d{3})3(.)(.)$";

/// Directional notes: `mmm5x`.
pub const RE_DIRECTIONAL: &'static str = "^(\\d{3})5(.)$";

/// Decoration (guide) slide notes: `mmm9xy`.
pub const RE_DECO_SLIDE: &'static str = "^(\\d{3})9(.)(.)$";

/// Ticks per beat request: `"ticks_per_beat n"`.
pub const RE_TICKS_PER_BEAT: &'static str = "^\"ticks_per_beat\\s+(\\d+)\"$";

/// BPM definition from the score file.
#[derive(Debug, Clone, Copy)]
pub struct BpmDefinition {
    pub id: i32,
    pub bpm: Fraction,
}

/// BPM reference at a bar position.
#[derive(Debug, Clone, Copy)]
pub struct BpmReference {
    pub bar: Fraction,
    pub id: i32,
}

/// One speed change of a speed definition.
#[derive(Debug, Clone, Copy)]
pub struct SpeedDefinitionItem {
    pub bar: i32,
    pub tick: i32,
    pub speed: Fraction,
}

/// A speed definition: its id and its speed changes, ordered by position.
#[derive(Debug, Clone)]
pub struct SpeedDefinition {
    pub id: i32,
    pub items: Vec<SpeedDefinitionItem>,
}

/// Speed control toggle.
#[derive(Debug, Clone, Copy)]
pub struct SpeedControl {
    pub id: Option<i32>,
}

/// Ticks per beat (usually 480).
#[derive(Debug, Clone, Copy)]
pub struct TicksPerBeat(pub i32);

impl Default for TicksPerBeat {
    /// 480 ticks per beat.
    fn default() -> (r: TicksPerBeat)
        ensures
            r.0 == 480,
    {
        TicksPerBeat(480)
    }
}

impl TicksPerBeat {
    /// The usual 480 ticks per beat.
    pub fn default_value() -> (r: TicksPerBeat)
        ensures
            r.0 == 480,
    {
        TicksPerBeat(480)
    }
}

/// What a line declares.
pub enum ParsedItem {
    Meta(Box<Meta>),
    TicksPerBeat(TicksPerBeat),
    SpeedControl(SpeedControl),
    SpeedDefinition(SpeedDefinition),
    Event(Event),
    BpmDefinition(BpmDefinition),
    BpmReference(BpmReference),
    Note(NoteData),
}

/// The content of a `ParsedItem`.
pub enum ItemView {
    Meta(MetaView),
    TicksPerBeat(int),
    SpeedControl(Option<int>),
    SpeedDefinition(int, Seq<SpeedDefinitionItem>),
    Event(Event),
    BpmDefinition(BpmDefinition),
    BpmReference(BpmReference),
    Note(NoteData),
}

impl View for ParsedItem {
    type V = ItemView;

    open spec fn view(&self) -> ItemView {
        match self {
            ParsedItem::Meta(m) => ItemView::Meta(m@),
            ParsedItem::TicksPerBeat(t) => ItemView::TicksPerBeat(t.0 as int),
            ParsedItem::SpeedControl(c) => ItemView::SpeedControl(
                match c.id {
                    Some(i) => Some(i as int),
                    None => None,
                },
            ),
            ParsedItem::SpeedDefinition(d) => ItemView::SpeedDefinition(d.id as int, d.items@),
            ParsedItem::Event(e) => ItemView::Event(*e),
            ParsedItem::BpmDefinition(b) => ItemView::BpmDefinition(*b),
            ParsedItem::BpmReference(b) => ItemView::BpmReference(*b),
            ParsedItem::Note(n) => ItemView::Note(*n),
        }
    }
}

/// The contents of a vector of parsed items.
pub open spec fn items_view(v: Seq<ParsedItem>) -> Seq<ItemView> {
    v.map_values(|i: ParsedItem| i@)
}

/// Kinds of line.
#[derive(Debug, Clone, Copy, PartialEq, Eq, Structural)]
pub enum LineType {
    Meta,
    Score,
    Comment,
}

/// A line of a `.sus` file, split into its header and data.
pub struct Line {
    pub line_type: LineType,
    pub header: String,
    pub data: String,
}

/// The value of a base-36 digit (`0-9`, `A-Z`, `a-z`); zero for other characters.
pub open spec fn base36_value(c: char) -> int {
    let u = c as u32 as int;
    if 0x30 <= u <= 0x39 {
        u - 0x30
    } else if 0x41 <= u <= 0x5a {
        u - 0x41 + 10
    } else if 0x61 <= u <= 0x7a {
        u - 0x61 + 10
    } else {
        0
    }
}

/// The value of a two-digit base-36 text (one digit, or zero, when shorter).
pub open spec fn base36_pair(s: Seq<char>) -> int {
    if s.len() >= 2 {
        base36_value(s[0]) * 36 + base36_value(s[1])
    } else if s.len() == 1 {
        base36_value(s[0])
    } else {
        0
    }
}

/// The first character, or `'0'` for an empty text.
pub open spec fn first_or_zero(g: Seq<char>) -> char {
    if g.len() > 0 {
        g[0]
    } else {
        '0'
    }
}

/// The two-character cells of note data from position `i` on, with their
/// positions; cells `"00"` are empty and left out (a trailing odd character too).
pub open spec fn score_pairs(data: Seq<char>, i: int) -> Seq<(int, Seq<char>)>
    decreases data.len() - i,
{
    if i < 0 || i + 1 >= data.len() {
        seq![]
    } else {
        let pair = data.subrange(i, i + 2);
        let rest = score_pairs(data, i + 2);
        if pair == seq!['0', '0'] {
            rest
        } else {
            seq![(i, pair)] + rest
        }
    }
}

/// Whether surrounding quotes can be stripped without panicking: a lone
/// quote character cannot (slicing would pass its end).
pub open spec fn strip_ok(s: Seq<char>) -> bool {
    let t = trim(s);
    !(t.len() == 1 && (t[0] == '"' || t[0] == '\''))
}

/// The trimmed text without one pair of surrounding `"` or `'` quotes.
pub open spec fn strip_quotes_spec(s: Seq<char>) -> Seq<char> {
    let t = trim(s);
    if t.len() >= 1 && ((t[0] == '"' && t.last() == '"') || (t[0] == '\'' && t.last() == '\'')) {
        t.subrange(1, t.len() - 1)
    } else {
        t
    }
}

/// `Line::new`: the kind, header and data of a raw line.
pub open spec fn spec_line(raw: Seq<char>) -> (LineType, Seq<char>, Seq<char>) {
    let t = trim(raw);
    match regex_captures(RE_META@, t) {
        Some(c) => (LineType::Meta, group(c, 1), group(c, 2)),
        None => match regex_captures(RE_SCORE@, t) {
            Some(c) => (LineType::Score, group(c, 1), group(c, 2)),
            None => (LineType::Comment, "comment"@, t),
        },
    }
}

/// The integer a text spells, or `fallback`.
pub open spec fn i64_or(s: Seq<char>, fallback: int) -> int {
    match parse_i64(s, 10) {
        Some(v) => v,
        None => fallback,
    }
}

/// The `i32` a text spells, or `fallback`.
pub open spec fn i32_or(s: Seq<char>, fallback: int) -> int {
    match parse_i32(s, 10) {
        Some(v) => v,
        None => fallback,
    }
}

/// What a metadata line declares.
pub open spec fn spec_parse_meta(header: Seq<char>, data: Seq<char>) -> Seq<ItemView> {
    let name = lowercase(header);
    if meta_field_names().contains(name) {
        seq![ItemView::Meta(meta_set(empty_meta(), name, strip_quotes_spec(data)))]
    } else if header == "REQUEST"@ {
        match regex_captures(RE_TICKS_PER_BEAT@, data) {
            Some(c) => match parse_i32(group(c, 1), 10) {
                Some(v) => seq![ItemView::TicksPerBeat(v)],
                None => seq![],
            },
            None => seq![],
        }
    } else if header == "HISPEED"@ {
        seq![
            ItemView::SpeedControl(
                Some(
                    match parse_i32(data, 36) {
                        Some(v) => v,
                        None => 0,
                    },
                ),
            ),
        ]
    } else if header == "NOSPEED"@ {
        seq![ItemView::SpeedControl(None)]
    } else {
        seq![]
    }
}

/// A metadata line parses without panicking.
pub open spec fn meta_line_ok(header: Seq<char>, data: Seq<char>) -> bool {
    let name = lowercase(header);
    meta_field_names().contains(name) ==> strip_ok(data) && (name == "movieoffset"@ || name
        == "basebpm"@ ==> parse_fraction_defined(strip_quotes_spec(data)))
}

/// The bar position of the note cell at `i` of `data` in bar `bar`.
pub open spec fn cell_bar(bar: int, i: int, data: Seq<char>) -> (int, int) {
    frac_add((bar, 1), normalize(i, data.len() as int))
}

/// Note cells of a bar: every position fits in `i64`.
pub open spec fn cells_fit(bar: int, data: Seq<char>) -> bool {
    &&& data.len() <= i64::MAX
    &&& forall|k: int|
        0 <= k < score_pairs(data, 0).len() ==> pair_fits(
            #[trigger] cell_bar(bar, score_pairs(data, 0)[k].0, data),
        )
}

/// The note of a cell: its kind from `make`, its position, lane, width and type.
pub open spec fn cell_note(
    bar: int,
    lane: int,
    data: Seq<char>,
    p: (int, Seq<char>),
    make: spec_fn(NoteBase) -> NoteData,
) -> ItemView {
    ItemView::Note(
        make(
            NoteBase {
                bar: frac_of(cell_bar(bar, p.0, data)),
                lane: lane as i32,
                width: base36_value(p.1[1]) as i32,
                note_type: base36_value(p.1[0]) as i32,
                speed: None,
            },
        ),
    )
}

/// The notes of a note line.
pub open spec fn cell_notes(
    bar: int,
    lane: int,
    data: Seq<char>,
    make: spec_fn(NoteBase) -> NoteData,
) -> Seq<ItemView> {
    score_pairs(data, 0).map_values(|p: (int, Seq<char>)| cell_note(bar, lane, data, p, make))
}

/// A tap note.
pub open spec fn make_tap() -> spec_fn(NoteBase) -> NoteData {
    |b: NoteBase| NoteData::Tap(b, Tap)
}

/// A directional note with no attached tap.
pub open spec fn make_directional() -> spec_fn(NoteBase) -> NoteData {
    |b: NoteBase| NoteData::Directional(b, Directional { tap_idx: NO_NOTE })
}

/// An unlinked slide node of a channel.
pub open spec fn make_slide(channel: int, decoration: bool) -> spec_fn(NoteBase) -> NoteData {
    |b: NoteBase|
        NoteData::Slide(
            b,
            Slide {
                channel: channel as i32,
                decoration,
                tap_idx: NO_NOTE,
                directional_idx: NO_NOTE,
                next_idx: NO_NOTE,
                head_idx: NO_NOTE,
            },
        )
}

/// `(bar, tick)` order of speed changes.
pub open spec fn speed_item_before() -> spec_fn(SpeedDefinitionItem, SpeedDefinitionItem) -> bool {
    |a: SpeedDefinitionItem, b: SpeedDefinitionItem|
        a.bar < b.bar || (a.bar == b.bar && a.tick < b.tick)
}

/// One speed change from the groups of a match of `RE_SPEED_ITEM`.
pub open spec fn speed_item_of(m: Seq<Option<Seq<char>>>) -> SpeedDefinitionItem {
    SpeedDefinitionItem {
        bar: i32_or(group(m, 1), 0) as i32,
        tick: i32_or(group(m, 2), 0) as i32,
        speed: frac_of(
            match decimal_ratio(group(m, 3)) {
                Some(p) => p,
                None => (1int, 1int),
            },
        ),
    }
}

/// The speed changes of a speed definition, ordered by `(bar, tick)`.
pub open spec fn speed_items(data: Seq<char>) -> Seq<SpeedDefinitionItem> {
    sort_stable(
        regex_captures_all(RE_SPEED_ITEM@, strip_quotes_spec(data)).map_values(
            |m: Seq<Option<Seq<char>>>| speed_item_of(m),
        ),
        speed_item_before(),
    )
}

/// What a data line declares, by the first header pattern that applies.
pub open spec fn spec_parse_score(header: Seq<char>, data: Seq<char>) -> Seq<ItemView> {
    if let Some(c) = regex_captures(RE_EVENT@, header) {
        let bar = i64_or(group(c, 1), 0);
        let len = i64_or(trim(data), 4);
        seq![
            ItemView::Event(
                Event {
                    bar_length: Some(frac_of((len, 1int))),
                    ..empty_event(frac_of((bar, 1int)))
                },
            ),
        ]
    } else if regex_captures(RE_BPM_DEF@, header) is Some && spec_parse_fraction(data) is Some {
        let c = regex_captures(RE_BPM_DEF@, header)->0;
        seq![
            ItemView::BpmDefinition(
                BpmDefinition {
                    id: base36_pair(group(c, 1)) as i32,
                    bpm: frac_of(spec_parse_fraction(data)->0),
                },
            ),
        ]
    } else if let Some(c) = regex_captures(RE_BPM_REF@, header) {
        let bar = i64_or(group(c, 1), 0);
        score_pairs(data, 0).map_values(
            |p: (int, Seq<char>)|
                ItemView::BpmReference(
                    BpmReference {
                        bar: frac_of(cell_bar(bar, p.0, data)),
                        id: base36_pair(p.1) as i32,
                    },
                ),
        )
    } else if let Some(c) = regex_captures(RE_TIL@, header) {
        seq![ItemView::SpeedDefinition(base36_pair(group(c, 1)), speed_items(data))]
    } else if let Some(c) = regex_captures(RE_TAP@, header) {
        cell_notes(
            i64_or(group(c, 1), 0),
            base36_value(first_or_zero(group(c, 2))),
            data,
            make_tap(),
        )
    } else if let Some(c) = regex_captures(RE_SLIDE@, header) {
        cell_notes(
            i64_or(group(c, 1), 0),
            base36_value(first_or_zero(group(c, 2))),
            data,
            make_slide(base36_value(first_or_zero(group(c, 3))), false),
        )
    } else if let Some(c) = regex_captures(RE_DIRECTIONAL@, header) {
        cell_notes(
            i64_or(group(c, 1), 0),
            base36_value(first_or_zero(group(c, 2))),
            data,
            make_directional(),
        )
    } else if let Some(c) = regex_captures(RE_DECO_SLIDE@, header) {
        cell_notes(
            i64_or(group(c, 1), 0),
            base36_value(first_or_zero(group(c, 2))),
            data,
            make_slide(base36_value(first_or_zero(group(c, 3))), true),
        )
    } else {
        seq![]
    }
}

/// A data line parses without panicking: BPM definitions need a usable
/// fraction, speed definitions strippable quotes, note cells positions that fit.
pub open spec fn score_line_ok(header: Seq<char>, data: Seq<char>) -> bool {
    if let Some(c) = regex_captures(RE_EVENT@, header) {
        true
    } else if regex_captures(RE_BPM_DEF@, header) is Some && !parse_fraction_defined(data) {
        false
    } else if regex_captures(RE_BPM_DEF@, header) is Some && spec_parse_fraction(data) is Some {
        true
    } else if let Some(c) = regex_captures(RE_BPM_REF@, header) {
        cells_fit(i64_or(group(c, 1), 0), data)
    } else if let Some(c) = regex_captures(RE_TIL@, header) {
        strip_ok(data)
    } else if let Some(c) = regex_captures(RE_TAP@, header) {
        cells_fit(i64_or(group(c, 1), 0), data)
    } else if let Some(c) = regex_captures(RE_SLIDE@, header) {
        cells_fit(i64_or(group(c, 1), 0), data)
    } else if let Some(c) = regex_captures(RE_DIRECTIONAL@, header) {
        cells_fit(i64_or(group(c, 1), 0), data)
    } else if let Some(c) = regex_captures(RE_DECO_SLIDE@, header) {
        cells_fit(i64_or(group(c, 1), 0), data)
    } else {
        true
    }
}

/// What a line of the given kind declares.
pub open spec fn spec_parse_line(kind: LineType, header: Seq<char>, data: Seq<char>) -> Seq<
    ItemView,
> {
    match kind {
        LineType::Meta => spec_parse_meta(header, data),
        LineType::Score => spec_parse_score(header, data),
        LineType::Comment => seq![],
    }
}

/// A line of the given kind parses without panicking.
pub open spec fn line_ok(kind: LineType, header: Seq<char>, data: Seq<char>) -> bool {
    match kind {
        LineType::Meta => meta_line_ok(header, data),
        LineType::Score => score_line_ok(header, data),
        LineType::Comment => true,
    }
}

/// A note whose links all point nowhere (as parsed).
pub open spec fn unlinked(n: NoteData) -> bool {
    match n {
        NoteData::Tap(..) => true,
        NoteData::Directional(_, d) => d.tap_idx == NO_NOTE,
        NoteData::Slide(_, s) => s.tap_idx == NO_NOTE && s.directional_idx == NO_NOTE
            && s.next_idx == NO_NOTE && s.head_idx == NO_NOTE,
    }
}

/// Every note among the items is unlinked.
pub open spec fn items_unlinked(items: Seq<ItemView>) -> bool {
    forall|k: int| 0 <= k < items.len() ==> match #[trigger] items[k] {
        ItemView::Note(n) => unlinked(n),
        _ => true,
    }
}

/// The notes of a note line are unlinked.
proof fn lemma_cell_notes_unlinked(
    bar: int,
    lane: int,
    data: Seq<char>,
    make: spec_fn(NoteBase) -> NoteData,
)
    requires
        forall|b: NoteBase| #[trigger] unlinked(make(b)),
    ensures
        items_unlinked(cell_notes(bar, lane, data, make)),
{
    let items = cell_notes(bar, lane, data, make);
    assert forall|k: int| 0 <= k < items.len() implies match #[trigger] items[k] {
        ItemView::Note(n) => unlinked(n),
        _ => true,
    } by {
        let p = score_pairs(data, 0)[k];
        assert(items[k] == cell_note(bar, lane, data, p, make));
    }
}

/// Every note a line declares is unlinked.
pub proof fn lemma_parse_line_unlinked(kind: LineType, header: Seq<char>, data: Seq<char>)
    ensures
        items_unlinked(spec_parse_line(kind, header, data)),
{
    assert forall|b: NoteBase| #[trigger] unlinked((make_tap())(b)) by {}
    assert forall|b: NoteBase| #[trigger] unlinked((make_directional())(b)) by {}
    assert forall|c: int, d: bool, b: NoteBase| #[trigger] unlinked((make_slide(c, d))(b)) by {}
    match kind {
        LineType::Score => {
            if let Some(c) = regex_captures(RE_EVENT@, header) {
            } else if regex_captures(RE_BPM_DEF@, header) is Some && spec_parse_fraction(data) is Some {
            } else if let Some(c) = regex_captures(RE_BPM_REF@, header) {
                let items = spec_parse_score(header, data);
                assert forall|k: int| 0 <= k < items.len() implies match #[trigger] items[k] {
                    ItemView::Note(n) => unlinked(n),
                    _ => true,
                } by {}
            } else if let Some(c) = regex_captures(RE_TIL@, header) {
            } else if let Some(c) = regex_captures(RE_TAP@, header) {
                lemma_cell_notes_unlinked(
                    i64_or(group(c, 1), 0),
                    base36_value(first_or_zero(group(c, 2))),
                    data,
                    make_tap(),
                );
            } else if let Some(c) = regex_captures(RE_SLIDE@, header) {
                let ch = base36_value(first_or_zero(group(c, 3)));
                assert forall|b: NoteBase| #[trigger] unlinked((make_slide(ch, false))(b)) by {}
                lemma_cell_notes_unlinked(
                    i64_or(group(c, 1), 0),
                    base36_value(first_or_zero(group(c, 2))),
                    data,
                    make_slide(ch, false),
                );
            } else if let Some(c) = regex_captures(RE_DIRECTIONAL@, header) {
                lemma_cell_notes_unlinked(
                    i64_or(group(c, 1), 0),
                    base36_value(first_or_zero(group(c, 2))),
                    data,
                    make_directional(),
                );
            } else if let Some(c) = regex_captures(RE_DECO_SLIDE@, header) {
                let ch = base36_value(first_or_zero(group(c, 3)));
                assert forall|b: NoteBase| #[trigger] unlinked((make_slide(ch, true))(b)) by {}
                lemma_cell_notes_unlinked(
                    i64_or(group(c, 1), 0),
                    base36_value(first_or_zero(group(c, 2))),
                    data,
                    make_slide(ch, true),
                );
            }
        },
        _ => {},
    }
}

/// Whether surrounding quotes can be stripped (`strip_ok`).
fn strip_ok_exec(s: &Vec<char>) -> (r: bool)
    ensures
        r == strip_ok(s@),
{
    let t = trim_vec(s);
    !(t.len() == 1 && (t[0] == '"' || t[0] == '\''))
}

/// Whether every note cell position of a bar fits in `i64` (`cells_fit`).
fn cells_fit_exec(bar: i64, data: &Vec<char>) -> (r: bool)
    ensures
        r == cells_fit(bar as int, data@),
{
    if data.len() as u128 > i64::MAX as u128 {
        return false;
    }
    let cells = parse_score_data(data);
    let ghost pairs = score_pairs(data@, 0);
    let mut k: usize = 0;
    while k < cells.len()
        invariant
            k <= cells.len(),
            data@.len() <= i64::MAX,
            cells@.map_values(|p: (usize, Vec<char>)| (p.0 as int, p.1@)) == pairs,
            pairs == score_pairs(data@, 0),
            forall|j: int| 0 <= j < k ==> pair_fits(#[trigger] cell_bar(bar as int, pairs[j].0, data@)),
        decreases cells.len() - k,
    {
        let pos = cells[k].0;
        proof {
            assert(pairs[k as int].0 == pos as int);
            assert(pos < data@.len()) by {
                lemma_score_pairs_pos(data@, 0, k as int);
            }
            crate::fraction::lemma_normalize_bounds(pos as int, data@.len() as int);
        }
        let beat = Fraction::new(pos as i64, data.len() as i64);
        if Fraction::from_integer(bar).checked_add(beat).is_none() {
            proof {
                assert(!pair_fits(cell_bar(bar as int, pairs[k as int].0, data@)));
            }
            return false;
        }
        k = k + 1;
    }
    true
}

/// Parses a base-36 digit.
fn base36_char(c: char) -> (r: i32)
    ensures
        r == base36_value(c),
{
    let u = c as u32;
    if 0x30 <= u && u <= 0x39 {
        (u - 0x30) as i32
    } else if 0x41 <= u && u <= 0x5a {
        (u - 0x41 + 10) as i32
    } else if 0x61 <= u && u <= 0x7a {
        (u - 0x61 + 10) as i32
    } else {
        0
    }
}

/// Parses a two-character base-36 text.
fn base36_two(s: &Vec<char>) -> (r: i32)
    ensures
        r == base36_pair(s@),
{
    if s.len() >= 2 {
        base36_char(s[0]) * 36 + base36_char(s[1])
    } else if s.len() == 1 {
        base36_char(s[0])
    } else {
        0
    }
}

proof fn lemma_score_pairs_skip(data: Seq<char>, i: int)
    requires
        0 <= i,
        i + 1 >= data.len(),
    ensures
        score_pairs(data, i) == Seq::<(int, Seq<char>)>::empty(),
{
}

/// The cells of note data with their positions as fractions of the bar.
fn parse_score_data(data: &Vec<char>) -> (r: Vec<(usize, Vec<char>)>)
    ensures
        r@.map_values(|p: (usize, Vec<char>)| (p.0 as int, p.1@)) == score_pairs(data@, 0),
        forall|k: int| 0 <= k < r@.len() ==> (#[trigger] r@[k]).1@.len() == 2,
{
    let mut results: Vec<(usize, Vec<char>)> = Vec::new();
    let len = data.len();
    let mut i: usize = 0;
    while i + 1 < len
        invariant
            len == data.len(),
            i <= len + 1,
            i % 2 == 0,
            results@.map_values(|p: (usize, Vec<char>)| (p.0 as int, p.1@)) + score_pairs(
                data@,
                i as int,
            ) == score_pairs(data@, 0),
            forall|k: int| 0 <= k < results@.len() ==> (#[trigger] results@[k]).1@.len() == 2,
        decreases len - i,
    {
        let pair = slice_vec(data, i, i + 2);
        let ghost before = results@.map_values(|p: (usize, Vec<char>)| (p.0 as int, p.1@));
        if !(pair[0] == '0' && pair[1] == '0') {
            results.push((i, pair));
            proof {
                assert(pair@ != seq!['0', '0']);
                assert(results@.map_values(|p: (usize, Vec<char>)| (p.0 as int, p.1@)) =~= before.push(
                    (i as int, pair@),
                ));
                assert(score_pairs(data@, i as int) == seq![(i as int, pair@)] + score_pairs(
                    data@,
                    i + 2,
                ));
                assert(before.push((i as int, pair@)) + score_pairs(data@, i + 2) =~= before + (
                seq![(i as int, pair@)] + score_pairs(data@, i + 2)));
            }
        } else {
            proof {
                assert(pair@ =~= seq!['0', '0']);
            }
        }
        i = i + 2;
    }
    proof {
        lemma_score_pairs_skip(data@, i as int);
        assert(results@.map_values(|p: (usize, Vec<char>)| (p.0 as int, p.1@)) + Seq::<
            (int, Seq<char>),
        >::empty() =~= results@.map_values(|p: (usize, Vec<char>)| (p.0 as int, p.1@)));
    }
    results
}

/// Strips one pair of surrounding quotes from the trimmed text.
fn strip_quotes(s: &Vec<char>) -> (r: Vec<char>)
    requires
        strip_ok(s@),
    ensures
        r@ == strip_quotes_spec(s@),
{
    let t = trim_vec(s);
    let n = t.len();
    if n >= 1 && ((t[0] == '"' && t[n - 1] == '"') || (t[0] == '\'' && t[n - 1] == '\'')) {
        slice_vec(&t, 1, n - 1)
    } else {
        t
    }
}

/// The position of cell `i` of `data` in bar `bar`.
fn cell_position(bar: i64, i: usize, data: &Vec<char>) -> (r: Fraction)
    requires
        data@.len() <= i64::MAX,
        i < data@.len(),
        pair_fits(cell_bar(bar as int, i as int, data@)),
    ensures
        r == frac_of(cell_bar(bar as int, i as int, data@)),
{
    proof {
        crate::fraction::lemma_normalize_bounds(i as int, data@.len() as int);
    }
    let beat = Fraction::new(i as i64, data.len() as i64);
    let r = Fraction::from_integer(bar).add(beat);
    proof {
        lemma_frac_of_view(r);
    }
    r
}

/// The i32 a text spells, or `fallback`.
fn i32_text_or(s: &Vec<char>, fallback: i32) -> (r: i32)
    ensures
        r == i32_or(s@, fallback as int),
{
    proof {
        assert(s@.subrange(0, s@.len() as int) =~= s@);
    }
    match parse_int_range(s, 0, s.len(), 10, true, i32::MIN as i64, i32::MAX as i64) {
        Some(v) => v as i32,
        None => fallback,
    }
}

/// The i64 a text spells, or `fallback`.
fn i64_text_or(s: &Vec<char>, fallback: i64) -> (r: i64)
    ensures
        r == i64_or(s@, fallback as int),
{
    proof {
        assert(s@.subrange(0, s@.len() as int) =~= s@);
    }
    match parse_int_range(s, 0, s.len(), 10, true, i64::MIN, i64::MAX) {
        Some(v) => v,
        None => fallback,
    }
}

/// A note of the given kind: 0 tap, 1 slide, 2 directional, 3 decoration slide.
fn make_note(kind: u8, channel: i32, base: NoteBase) -> (r: NoteData)
    ensures
        r == maker_of(kind, channel as int)(base),
{
    if kind == 0 {
        NoteData::Tap(base, Tap)
    } else if kind == 1 {
        NoteData::Slide(base, Slide::new(channel, false))
    } else if kind == 2 {
        NoteData::Directional(base, Directional::new())
    } else {
        NoteData::Slide(base, Slide::new(channel, true))
    }
}

/// The kind of note a kind number stands for.
spec fn maker_of(kind: u8, channel: int) -> spec_fn(NoteBase) -> NoteData {
    if kind == 0 {
        make_tap()
    } else if kind == 1 {
        make_slide(channel, false)
    } else if kind == 2 {
        make_directional()
    } else {
        make_slide(channel, true)
    }
}

/// The notes of the cells of a note line.
fn note_cells(bar: i64, lane: i32, data: &Vec<char>, kind: u8, channel: i32) -> (r: Vec<ParsedItem>)
    requires
        cells_fit(bar as int, data@),
    ensures
        items_view(r@) == cell_notes(bar as int, lane as int, data@, maker_of(kind, channel as int)),
{
    let cells = parse_score_data(data);
    let ghost pairs = score_pairs(data@, 0);
    let ghost make = maker_of(kind, channel as int);
    let mut out: Vec<ParsedItem> = Vec::new();
    let mut k: usize = 0;
    while k < cells.len()
        invariant
            k <= cells.len(),
            cells@.map_values(|p: (usize, Vec<char>)| (p.0 as int, p.1@)) == pairs,
            pairs == score_pairs(data@, 0),
            forall|j: int| 0 <= j < cells@.len() ==> (#[trigger] cells@[j]).1@.len() == 2,
            cells_fit(bar as int, data@),
            make == maker_of(kind, channel as int),
            items_view(out@) == cell_notes(bar as int, lane as int, data@, make).subrange(
                0,
                k as int,
            ),
        decreases cells.len() - k,
    {
        let (pos, ref pair) = cells[k];
        proof {
            assert(pairs[k as int] == (pos as int, pair@));
            assert(pair_fits(cell_bar(bar as int, pairs[k as int].0, data@)));
            assert(pos < data@.len()) by {
                lemma_score_pairs_pos(data@, 0, k as int);
            }
        }
        let note_type = base36_char(pair[0]);
        let width = base36_char(pair[1]);
        let bar_pos = cell_position(bar, pos, data);
        let base = NoteBase::new(bar_pos, lane, width, note_type);
        let note = make_note(kind, channel, base);
        let ghost before = items_view(out@);
        out.push(ParsedItem::Note(note));
        proof {
            assert(items_view(out@) =~= before.push(ItemView::Note(note)));
            assert(cell_notes(bar as int, lane as int, data@, make)[k as int] == ItemView::Note(
                note,
            ));
            assert(cell_notes(bar as int, lane as int, data@, make).subrange(0, k + 1) =~= before.push(
                ItemView::Note(note),
            ));
        }
        k = k + 1;
    }
    proof {
        assert(cell_notes(bar as int, lane as int, data@, make).subrange(0, k as int) =~= cell_notes(
            bar as int,
            lane as int,
            data@,
            make,
        ));
    }
    out
}

/// Positions in `score_pairs` lie inside the data.
proof fn lemma_score_pairs_pos(data: Seq<char>, i: int, k: int)
    requires
        0 <= i,
        0 <= k < score_pairs(data, i).len(),
    ensures
        i <= score_pairs(data, i)[k].0,
        score_pairs(data, i)[k].0 + 1 < data.len(),
    decreases data.len() - i,
{
    if i + 1 < data.len() {
        let pair = data.subrange(i, i + 2);
        if pair == seq!['0', '0'] {
            lemma_score_pairs_pos(data, i + 2, k);
        } else if k > 0 {
            lemma_score_pairs_pos(data, i + 2, k - 1);
        }
    }
}

/// The BPM references of the cells of a bar.
fn bpm_reference_cells(bar: i64, data: &Vec<char>) -> (r: Vec<ParsedItem>)
    requires
        cells_fit(bar as int, data@),
    ensures
        items_view(r@) == score_pairs(data@, 0).map_values(
            |p: (int, Seq<char>)|
                ItemView::BpmReference(
                    BpmReference {
                        bar: frac_of(cell_bar(bar as int, p.0, data@)),
                        id: base36_pair(p.1) as i32,
                    },
                ),
        ),
{
    let cells = parse_score_data(data);
    let ghost pairs = score_pairs(data@, 0);
    let ghost target = pairs.map_values(
        |p: (int, Seq<char>)|
            ItemView::BpmReference(
                BpmReference {
                    bar: frac_of(cell_bar(bar as int, p.0, data@)),
                    id: base36_pair(p.1) as i32,
                },
            ),
    );
    let mut out: Vec<ParsedItem> = Vec::new();
    let mut k: usize = 0;
    while k < cells.len()
        invariant
            k <= cells.len(),
            cells@.map_values(|p: (usize, Vec<char>)| (p.0 as int, p.1@)) == pairs,
            pairs == score_pairs(data@, 0),
            cells_fit(bar as int, data@),
            target.len() == pairs.len(),
            forall|j: int|
                0 <= j < pairs.len() ==> #[trigger] target[j] == ItemView::BpmReference(
                    BpmReference {
                        bar: frac_of(cell_bar(bar as int, pairs[j].0, data@)),
                        id: base36_pair(pairs[j].1) as i32,
                    },
                ),
            items_view(out@) == target.subrange(0, k as int),
        decreases cells.len() - k,
    {
        let (pos, ref pair) = cells[k];
        proof {
            assert(pairs[k as int] == (pos as int, pair@));
            assert(pair_fits(cell_bar(bar as int, pairs[k as int].0, data@)));
            lemma_score_pairs_pos(data@, 0, k as int);
        }
        let id = base36_two(pair);
        let bar_pos = cell_position(bar, pos, data);
        let item = BpmReference { bar: bar_pos, id };
        let ghost before = items_view(out@);
        out.push(ParsedItem::BpmReference(item));
        proof {
            assert(items_view(out@) =~= before.push(ItemView::BpmReference(item)));
            assert(target.subrange(0, k + 1) =~= before.push(ItemView::BpmReference(item)));
        }
        k = k + 1;
    }
    proof {
        assert(target.subrange(0, k as int) =~= target);
    }
    out
}

/// The decimal-text value of a speed, or one.
fn speed_or_one(s: &Vec<char>) -> (r: Fraction)
    ensures
        r == frac_of(
            match decimal_ratio(s@) {
                Some(p) => p,
                None => (1int, 1int),
            },
        ),
{
    let text = string_of(s.as_slice());
    match crate::fraction::parse_decimal_text(text.as_str()) {
        Some(f) => {
            proof {
                lemma_frac_of_view(f);
            }
            f
        },
        None => {
            let one = Fraction::one();
            proof {
                lemma_frac_of_view(one);
            }
            one
        },
    }
}

/// Whether speed change `a` comes strictly before `b`.
fn speed_item_precedes(a: &SpeedDefinitionItem, b: &SpeedDefinitionItem) -> (r: bool)
    ensures
        r == (speed_item_before())(*a, *b),
{
    a.bar < b.bar || (a.bar == b.bar && a.tick < b.tick)
}

/// Inserts `x` into `v`, which is sorted by `(bar, tick)`, after every item it does not precede.
fn insert_speed_item(v: &mut Vec<SpeedDefinitionItem>, x: SpeedDefinitionItem)
    ensures
        final(v)@ == insert_stable(x, old(v)@, speed_item_before()),
{
    let mut k: usize = 0;
    while k < v.len() && !speed_item_precedes(&x, &v[k])
        invariant
            k <= v.len(),
            v@ == old(v)@,
            forall|j: int| 0 <= j < k ==> !(speed_item_before())(x, #[trigger] v@[j]),
        decreases v.len() - k,
    {
        k = k + 1;
    }
    proof {
        lemma_insert_stable_at(x, v@, speed_item_before(), k as int);
    }
    v.insert(k, x);
    proof {
        assert(v@ =~= old(v)@.subrange(0, k as int) + seq![x] + old(v)@.subrange(
            k as int,
            old(v)@.len() as int,
        ));
    }
}

/// The speed changes of a speed definition, ordered by `(bar, tick)`.
fn parse_speed_items(data: &Vec<char>) -> (r: Vec<SpeedDefinitionItem>)
    requires
        strip_ok(data@),
    ensures
        r@ == speed_items(data@),
{
    let stripped = strip_quotes(data);
    let text = string_of(stripped.as_slice());
    let matches = captures_all(RE_SPEED_ITEM, text.as_str());
    let ghost found = regex_captures_all(RE_SPEED_ITEM@, stripped@);
    let ghost items = found.map_values(|m: Seq<Option<Seq<char>>>| speed_item_of(m));
    let mut sorted: Vec<SpeedDefinitionItem> = Vec::new();
    let mut k: usize = 0;
    while k < matches.len()
        invariant
            k <= matches.len(),
            matches@.map_values(|c: Vec<Option<String>>| groups_view(c@)) == found,
            items == found.map_values(|m: Seq<Option<Seq<char>>>| speed_item_of(m)),
            sorted@ == sort_stable(items.subrange(0, k as int), speed_item_before()),
        decreases matches.len() - k,
    {
        let m = &matches[k];
        proof {
            assert(groups_view(m@) == found[k as int]);
        }
        let bar = i32_text_or(&group_chars(m, 1), 0);
        let tick = i32_text_or(&group_chars(m, 2), 0);
        let speed = speed_or_one(&group_chars(m, 3));
        let item = SpeedDefinitionItem { bar, tick, speed };
        proof {
            assert(item == speed_item_of(found[k as int]));
            lemma_sort_stable_step(items, k as int, speed_item_before());
        }
        insert_speed_item(&mut sorted, item);
        k = k + 1;
    }
    proof {
        assert(items.subrange(0, k as int) =~= items);
    }
    sorted
}

impl Line {
    /// Splits a raw line into its kind, header and data.
    pub fn new(raw: &str) -> (r: Line)
        ensures
            (r.line_type, r.header@, r.data@) == spec_line(raw@),
    {
        let chars = chars_of(raw);
        let trimmed = trim_vec(&chars);
        let line = string_of(trimmed.as_slice());
        if let Some(caps) = captures(RE_META, line.as_str()) {
            let header = group_chars(&caps, 1);
            let data = group_chars(&caps, 2);
            Line {
                line_type: LineType::Meta,
                header: string_of(header.as_slice()),
                data: string_of(data.as_slice()),
            }
        } else if let Some(caps) = captures(RE_SCORE, line.as_str()) {
            let header = group_chars(&caps, 1);
            let data = group_chars(&caps, 2);
            Line {
                line_type: LineType::Score,
                header: string_of(header.as_slice()),
                data: string_of(data.as_slice()),
            }
        } else {
            Line { line_type: LineType::Comment, header: "comment".to_string(), data: line }
        }
    }

    /// What this line declares.
    ///
    /// A BPM definition `n/0`, a lone quote as quoted data and note positions
    /// that do not fit in `i64` have no meaning; such lines are excluded.
    pub fn parse(&self) -> (r: Vec<ParsedItem>)
        requires
            line_ok(self.line_type, self.header@, self.data@),
        ensures
            items_view(r@) == spec_parse_line(self.line_type, self.header@, self.data@),
    {
        match self.line_type {
            LineType::Meta => self.parse_meta(),
            LineType::Score => self.parse_score(),
            LineType::Comment => Vec::new(),
        }
    }

    /// Whether `parse` accepts this line (`line_ok`).
    pub fn is_parsable(&self) -> (r: bool)
        ensures
            r == line_ok(self.line_type, self.header@, self.data@),
    {
        match self.line_type {
            LineType::Meta => self.meta_line_parsable(),
            LineType::Score => self.score_line_parsable(),
            LineType::Comment => true,
        }
    }

    fn meta_line_parsable(&self) -> (r: bool)
        ensures
            r == meta_line_ok(self.header@, self.data@),
    {
        let field_name = to_lowercase(self.header.as_str());
        if !Meta::has_field(field_name.as_str()) {
            return true;
        }
        let data = chars_of(self.data.as_str());
        if !strip_ok_exec(&data) {
            return false;
        }
        let name = chars_of(field_name.as_str());
        if text_is(&name, "movieoffset") || text_is(&name, "basebpm") {
            let stripped = strip_quotes(&data);
            return Fraction::is_parsable(&stripped);
        }
        true
    }

    fn score_line_parsable(&self) -> (r: bool)
        ensures
            r == score_line_ok(self.header@, self.data@),
    {
        let header = self.header.as_str();
        let data = chars_of(self.data.as_str());
        if let Some(_) = captures(RE_EVENT, header) {
            return true;
        }
        if let Some(_) = captures(RE_BPM_DEF, header) {
            if !Fraction::is_parsable(&data) {
                return false;
            }
            if Fraction::parse_chars(&data).is_some() {
                return true;
            }
        }
        if let Some(caps) = captures(RE_BPM_REF, header) {
            let bar = i64_text_or(&group_chars(&caps, 1), 0);
            return cells_fit_exec(bar, &data);
        }
        if let Some(_) = captures(RE_TIL, header) {
            return strip_ok_exec(&data);
        }
        if let Some(caps) = captures(RE_TAP, header) {
            let bar = i64_text_or(&group_chars(&caps, 1), 0);
            return cells_fit_exec(bar, &data);
        }
        if let Some(caps) = captures(RE_SLIDE, header) {
            let bar = i64_text_or(&group_chars(&caps, 1), 0);
            return cells_fit_exec(bar, &data);
        }
        if let Some(caps) = captures(RE_DIRECTIONAL, header) {
            let bar = i64_text_or(&group_chars(&caps, 1), 0);
            return cells_fit_exec(bar, &data);
        }
        if let Some(caps) = captures(RE_DECO_SLIDE, header) {
            let bar = i64_text_or(&group_chars(&caps, 1), 0);
            return cells_fit_exec(bar, &data);
        }
        true
    }

    fn parse_meta(&self) -> (r: Vec<ParsedItem>)
        requires
            meta_line_ok(self.header@, self.data@),
        ensures
            items_view(r@) == spec_parse_meta(self.header@, self.data@),
    {
        let field_name = to_lowercase(self.header.as_str());
        if Meta::has_field(field_name.as_str()) {
            let data_chars = chars_of(self.data.as_str());
            let stripped = strip_quotes(&data_chars);
            let text = string_of(stripped.as_slice());
            let mut meta = Meta::new();
            meta.set_field(field_name.as_str(), text.as_str());
            let mut out: Vec<ParsedItem> = Vec::new();
            out.push(ParsedItem::Meta(Box::new(meta)));
            proof {
                assert(items_view(out@) =~= spec_parse_meta(self.header@, self.data@));
            }
            return out;
        }
        let header = chars_of(self.header.as_str());
        let data = chars_of(self.data.as_str());
        if text_is(&header, "REQUEST") {
            if let Some(caps) = captures(RE_TICKS_PER_BEAT, self.data.as_str()) {
                let digits = group_chars(&caps, 1);
                proof {
                    assert(digits@.subrange(0, digits@.len() as int) =~= digits@);
                }
                if let Some(tpb) = parse_int_range(
                    &digits,
                    0,
                    digits.len(),
                    10,
                    true,
                    i32::MIN as i64,
                    i32::MAX as i64,
                ) {
                    let mut out: Vec<ParsedItem> = Vec::new();
                    out.push(ParsedItem::TicksPerBeat(TicksPerBeat(tpb as i32)));
                    proof {
                        assert(items_view(out@) =~= spec_parse_meta(self.header@, self.data@));
                    }
                    return out;
                }
            }
        } else if text_is(&header, "HISPEED") {
            proof {
                assert(data@.subrange(0, data@.len() as int) =~= data@);
            }
            let id = match parse_int_range(
                &data,
                0,
                data.len(),
                36,
                true,
                i32::MIN as i64,
                i32::MAX as i64,
            ) {
                Some(v) => v as i32,
                None => 0,
            };
            let mut out: Vec<ParsedItem> = Vec::new();
            out.push(ParsedItem::SpeedControl(SpeedControl { id: Some(id) }));
            proof {
                assert(items_view(out@) =~= spec_parse_meta(self.header@, self.data@));
            }
            return out;
        } else if text_is(&header, "NOSPEED") {
            let mut out: Vec<ParsedItem> = Vec::new();
            out.push(ParsedItem::SpeedControl(SpeedControl { id: None }));
            proof {
                assert(items_view(out@) =~= spec_parse_meta(self.header@, self.data@));
            }
            return out;
        }
        let out: Vec<ParsedItem> = Vec::new();
        proof {
            assert(items_view(out@) =~= spec_parse_meta(self.header@, self.data@));
        }
        out
    }

    fn parse_score(&self) -> (r: Vec<ParsedItem>)
        requires
            score_line_ok(self.header@, self.data@),
        ensures
            items_view(r@) == spec_parse_score(self.header@, self.data@),
    {
        let header = self.header.as_str();
        let data = chars_of(self.data.as_str());
        if let Some(caps) = captures(RE_EVENT, header) {
            let bar = i64_text_or(&group_chars(&caps, 1), 0);
            let bar_length = i64_text_or(&trim_vec(&data), 4);
            let bar_f = Fraction::from_integer(bar);
            let len_f = Fraction::from_integer(bar_length);
            proof {
                lemma_frac_of_view(bar_f);
                lemma_frac_of_view(len_f);
            }
            let mut out: Vec<ParsedItem> = Vec::new();
            out.push(ParsedItem::Event(Event::new(bar_f).with_bar_length(len_f)));
            proof {
                assert(items_view(out@) =~= spec_parse_score(self.header@, self.data@));
            }
            return out;
        }
        if let Some(caps) = captures(RE_BPM_DEF, header) {
            let id = base36_two(&group_chars(&caps, 1));
            if let Some(bpm) = Fraction::parse_chars(&data) {
                proof {
                    lemma_frac_of_view(bpm);
                }
                let mut out: Vec<ParsedItem> = Vec::new();
                out.push(ParsedItem::BpmDefinition(BpmDefinition { id, bpm }));
                proof {
                    assert(items_view(out@) =~= spec_parse_score(self.header@, self.data@));
                }
                return out;
            }
        }
        if let Some(caps) = captures(RE_BPM_REF, header) {
            let bar = i64_text_or(&group_chars(&caps, 1), 0);
            return bpm_reference_cells(bar, &data);
        }
        if let Some(caps) = captures(RE_TIL, header) {
            let id = base36_two(&group_chars(&caps, 1));
            let items = parse_speed_items(&data);
            let mut out: Vec<ParsedItem> = Vec::new();
            out.push(ParsedItem::SpeedDefinition(SpeedDefinition { id, items }));
            proof {
                assert(items_view(out@) =~= spec_parse_score(self.header@, self.data@));
            }
            return out;
        }
        if let Some(caps) = captures(RE_TAP, header) {
            let bar = i64_text_or(&group_chars(&caps, 1), 0);
            let lane = base36_char(first_char_or_zero(&group_chars(&caps, 2)));
            return note_cells(bar, lane, &data, 0, 0);
        }
        if let Some(caps) = captures(RE_SLIDE, header) {
            let bar = i64_text_or(&group_chars(&caps, 1), 0);
            let lane = base36_char(first_char_or_zero(&group_chars(&caps, 2)));
            let channel = base36_char(first_char_or_zero(&group_chars(&caps, 3)));
            return note_cells(bar, lane, &data, 1, channel);
        }
        if let Some(caps) = captures(RE_DIRECTIONAL, header) {
            let bar = i64_text_or(&group_chars(&caps, 1), 0);
            let lane = base36_char(first_char_or_zero(&group_chars(&caps, 2)));
            return note_cells(bar, lane, &data, 2, 0);
        }
        if let Some(caps) = captures(RE_DECO_SLIDE, header) {
            let bar = i64_text_or(&group_chars(&caps, 1), 0);
            let lane = base36_char(first_char_or_zero(&group_chars(&caps, 2)));
            let channel = base36_char(first_char_or_zero(&group_chars(&caps, 3)));
            return note_cells(bar, lane, &data, 3, channel);
        }
        let out: Vec<ParsedItem> = Vec::new();
        proof {
            assert(items_view(out@) =~= spec_parse_score(self.header@, self.data@));
        }
        out
    }
}

/// The first character, or `'0'`.
fn first_char_or_zero(g: &Vec<char>) -> (r: char)
    ensures
        r == first_or_zero(g@),
{
    if g.len() > 0 {
        g[0]
    } else {
        '0'
    }
}

/// Whether a character vector spells the given text.
fn text_is(a: &Vec<char>, b: &str) -> (r: bool)
    ensures
        r == (a@ == b@),
{
    let bv = chars_of(b);
    if a.len() != bv.len() {
        return false;
    }
    let mut i: usize = 0;
    while i < a.len()
        invariant
            i <= a.len(),
            a.len() == bv.len(),
            bv@ == b@,
            forall|j: int| 0 <= j < i ==> a@[j] == bv@[j],
        decreases a.len() - i,
    {
        if a[i] != bv[i] {
            proof {
                assert(a@[i as int] != b@[i as int]);
            }
            return false;
        }
        i = i + 1;
    }
    proof {
        assert(a@ =~= bv@);
    }
    true
}

} // verus!
