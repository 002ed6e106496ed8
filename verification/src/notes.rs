//! Notes of a chart, stored in an arena (a vector) and linked by index.
pub mod directional;
pub mod event;
pub mod slide;
pub mod tap;

use crate::fraction::Fraction;
use directional::{directional_critical, directional_tick, directional_trend, Directional};
use slide::{slide_critical, slide_none, slide_tick, slide_trend, Slide};
use tap::{is_none_code, Tap};
use vstd::prelude::*;

verus! {

/// Index into the note arena.
pub type NoteIdx = usize;

/// The index that links to no note.
pub const NO_NOTE: usize = usize::MAX;

/// Fields that every note has.
#[derive(Debug, Clone, Copy)]
pub struct NoteBase {
    pub bar: Fraction,
    pub lane: i32,
    pub width: i32,
    pub note_type: i32,
    /// Per-note speed ratio, when the chart gives one.
    pub speed: Option<Fraction>,
}

impl NoteBase {
    /// A note at `bar` in the given lane, width and type, with no speed ratio.
    pub fn new(bar: Fraction, lane: i32, width: i32, note_type: i32) -> (r: NoteBase)
        ensures
            r.bar == bar,
            r.lane == lane,
            r.width == width,
            r.note_type == note_type,
            r.speed is None,
    {
        NoteBase { bar, lane, width, note_type, speed: None }
    }
}

/// A note of the arena: its common fields and what its kind adds.
#[derive(Debug, Clone, Copy)]
pub enum NoteData {
    Tap(NoteBase, Tap),
    Directional(NoteBase, Directional),
    Slide(NoteBase, Slide),
}

/// The common fields of a note.
pub open spec fn base_of(n: NoteData) -> NoteBase {
    match n {
        NoteData::Tap(b, _) => b,
        NoteData::Directional(b, _) => b,
        NoteData::Slide(b, _) => b,
    }
}

/// The note with its common fields replaced by `b`.
pub open spec fn with_base(n: NoteData, b: NoteBase) -> NoteData {
    match n {
        NoteData::Tap(_, t) => NoteData::Tap(b, t),
        NoteData::Directional(_, d) => NoteData::Directional(b, d),
        NoteData::Slide(_, s) => NoteData::Slide(b, s),
    }
}

/// An index that links to no note or to a note of an arena of `len` notes.
pub open spec fn idx_ok(i: usize, len: int) -> bool {
    i == NO_NOTE || i < len
}

/// Every link of the note points into an arena of `len` notes.
pub open spec fn links_ok(n: NoteData, len: int) -> bool {
    match n {
        NoteData::Tap(..) => true,
        NoteData::Directional(_, d) => idx_ok(d.tap_idx, len),
        NoteData::Slide(_, s) => slide_links_ok(s, len),
    }
}

/// Every link of the slide points into an arena of `len` notes.
pub open spec fn slide_links_ok(s: Slide, len: int) -> bool {
    idx_ok(s.tap_idx, len) && idx_ok(s.directional_idx, len) && idx_ok(s.next_idx, len) && idx_ok(
        s.head_idx,
        len,
    )
}

/// Every link of every note of the arena points into the arena.
pub open spec fn arena_wf(arena: Seq<NoteData>) -> bool {
    forall|i: int| 0 <= i < arena.len() ==> #[trigger] links_ok(arena[i], arena.len() as int)
}

fn idx_in(i: NoteIdx, len: usize) -> (r: bool)
    ensures
        r == idx_ok(i, len as int),
{
    i == NO_NOTE || i < len
}

/// Whether every link of a note points into an arena of `len` notes.
pub fn note_links_ok(n: &NoteData, len: usize) -> (r: bool)
    ensures
        r == links_ok(*n, len as int),
{
    match n {
        NoteData::Tap(..) => true,
        NoteData::Directional(_, d) => idx_in(d.tap_idx, len),
        NoteData::Slide(_, s) => idx_in(s.tap_idx, len) && idx_in(s.directional_idx, len) && idx_in(
            s.next_idx,
            len,
        ) && idx_in(s.head_idx, len),
    }
}

/// Whether every link of every note points into the arena (`arena_wf`).
pub fn arena_is_wf(arena: &[NoteData]) -> (r: bool)
    ensures
        r == arena_wf(arena@),
{
    let mut i: usize = 0;
    while i < arena.len()
        invariant
            i <= arena@.len(),
            forall|j: int| 0 <= j < i ==> #[trigger] links_ok(arena@[j], arena@.len() as int),
        decreases arena@.len() - i,
    {
        if !note_links_ok(&arena[i], arena.len()) {
            return false;
        }
        i = i + 1;
    }
    true
}

/// Whether a note is critical (a bare tap never is: its type is read elsewhere).
pub open spec fn note_critical(n: NoteData, arena: Seq<NoteData>) -> bool {
    match n {
        NoteData::Tap(..) => false,
        NoteData::Directional(_, d) => directional_critical(d, arena),
        NoteData::Slide(_, s) => slide_critical(s, arena),
    }
}

/// Whether a note is a trend note.
pub open spec fn note_trend(n: NoteData, arena: Seq<NoteData>) -> bool {
    match n {
        NoteData::Tap(..) => false,
        NoteData::Directional(_, d) => directional_trend(d, arena),
        NoteData::Slide(_, s) => slide_trend(s, arena),
    }
}

/// Whether a note is not drawn: a cancelled tap, or a slide node whose tap is cancelled.
pub open spec fn note_none(n: NoteData, arena: Seq<NoteData>) -> bool {
    match n {
        NoteData::Tap(b, _) => is_none_code(b.note_type as int),
        NoteData::Directional(..) => false,
        NoteData::Slide(_, s) => slide_none(s, arena),
    }
}

/// The tick mark of a note: `None` for no mark, `Some(false)` for a short
/// one, `Some(true)` for a full one.
pub open spec fn note_tick(n: NoteData, arena: Seq<NoteData>) -> Option<bool> {
    match n {
        NoteData::Tap(..) => Some(true),
        NoteData::Directional(_, d) => directional_tick(d, arena),
        NoteData::Slide(b, s) => slide_tick(s, arena, b.note_type as int),
    }
}

impl NoteData {
    /// Whether this note is critical.
    pub fn is_critical(&self, arena: &[NoteData]) -> (r: bool)
        requires
            arena_wf(arena@),
            links_ok(*self, arena@.len() as int),
        ensures
            r == note_critical(*self, arena@),
    {
        match self {
            NoteData::Tap(_, t) => t.is_critical(),
            NoteData::Directional(_, d) => d.is_critical(arena),
            NoteData::Slide(_, s) => s.is_critical(arena),
        }
    }

    /// Whether this note is a trend note.
    pub fn is_trend(&self, arena: &[NoteData]) -> (r: bool)
        requires
            arena_wf(arena@),
            links_ok(*self, arena@.len() as int),
        ensures
            r == note_trend(*self, arena@),
    {
        match self {
            NoteData::Tap(_, t) => t.is_trend(),
            NoteData::Directional(_, d) => d.is_trend(arena),
            NoteData::Slide(_, s) => s.is_trend(arena),
        }
    }

    /// Whether this note is not drawn.
    pub fn is_none(&self, arena: &[NoteData]) -> (r: bool)
        requires
            links_ok(*self, arena@.len() as int),
        ensures
            r == note_none(*self, arena@),
    {
        match self {
            NoteData::Tap(b, t) => t.is_none_with_type(b.note_type),
            NoteData::Directional(..) => false,
            NoteData::Slide(_, s) => s.is_none(arena),
        }
    }

    /// The tick mark of this note.
    pub fn is_tick(&self, arena: &[NoteData]) -> (r: Option<bool>)
        requires
            arena_wf(arena@),
            links_ok(*self, arena@.len() as int),
        ensures
            r == note_tick(*self, arena@),
    {
        match self {
            NoteData::Tap(_, t) => t.is_tick(),
            NoteData::Directional(_, d) => d.is_tick(arena),
            NoteData::Slide(b, s) => s.is_tick(arena, b.note_type),
        }
    }

    /// The common fields.
    pub fn base(&self) -> (r: &NoteBase)
        ensures
            *r == base_of(*self),
    {
        match self {
            NoteData::Tap(b, _) => b,
            NoteData::Directional(b, _) => b,
            NoteData::Slide(b, _) => b,
        }
    }

    /// The common fields, for changing them in place.
    pub fn base_mut(&mut self) -> (r: &mut NoteBase)
        ensures
            *r == base_of(*old(self)),
            *final(self) == with_base(*old(self), *final(r)),
    {
        match self {
            NoteData::Tap(b, _) => b,
            NoteData::Directional(b, _) => b,
            NoteData::Slide(b, _) => b,
        }
    }

    /// The bar position.
    pub fn bar(&self) -> (r: Fraction)
        ensures
            r == base_of(*self).bar,
    {
        self.base().bar
    }

    /// The leftmost lane (lanes 2 to 13 are playable).
    pub fn lane(&self) -> (r: i32)
        ensures
            r == base_of(*self).lane,
    {
        self.base().lane
    }

    /// The width in lanes.
    pub fn width(&self) -> (r: i32)
        ensures
            r == base_of(*self).width,
    {
        self.base().width
    }

    /// The type code.
    pub fn note_type(&self) -> (r: i32)
        ensures
            r == base_of(*self).note_type,
    {
        self.base().note_type
    }

    /// The speed ratio, if any.
    pub fn speed(&self) -> (r: Option<Fraction>)
        ensures
            r == base_of(*self).speed,
    {
        self.base().speed
    }

    /// Whether this is a tap note.
    pub fn is_tap(&self) -> (r: bool)
        ensures
            r == (*self is Tap),
    {
        match self {
            NoteData::Tap(..) => true,
            _ => false,
        }
    }

    /// Whether this is a directional (flick) note.
    pub fn is_directional(&self) -> (r: bool)
        ensures
            r == (*self is Directional),
    {
        match self {
            NoteData::Directional(..) => true,
            _ => false,
        }
    }

    /// Whether this is a slide note.
    pub fn is_slide(&self) -> (r: bool)
        ensures
            r == (*self is Slide),
    {
        match self {
            NoteData::Slide(..) => true,
            _ => false,
        }
    }

    /// The tap part of a tap note.
    pub fn as_tap(&self) -> (r: Option<&Tap>)
        ensures
            r is Some <==> *self is Tap,
    {
        match self {
            NoteData::Tap(_, t) => Some(t),
            _ => None,
        }
    }

    /// The directional part of a directional note.
    pub fn as_directional(&self) -> (r: Option<&Directional>)
        ensures
            match *self {
                NoteData::Directional(_, d) => r == Some(&d),
                _ => r is None,
            },
    {
        match self {
            NoteData::Directional(_, d) => Some(d),
            _ => None,
        }
    }

    /// The slide part of a slide note, for changing it in place.
    pub fn as_slide_mut(&mut self) -> (r: Option<&mut Slide>)
        ensures
            match *old(self) {
                NoteData::Slide(b, s) => r matches Some(x) && *x == s && *final(self)
                    == NoteData::Slide(b, *final(x)),
                _ => r is None && *final(self) == *old(self),
            },
    {
        match self {
            NoteData::Slide(_, s) => Some(s),
            _ => None,
        }
    }

    /// The directional part of a directional note, for changing it in place.
    pub fn as_directional_mut(&mut self) -> (r: Option<&mut Directional>)
        ensures
            match *old(self) {
                NoteData::Directional(b, d) => r matches Some(x) && *x == d && *final(self)
                    == NoteData::Directional(b, *final(x)),
                _ => r is None && *final(self) == *old(self),
            },
    {
        match self {
            NoteData::Directional(_, d) => Some(d),
            _ => None,
        }
    }

    /// The slide part of a slide note.
    pub fn as_slide(&self) -> (r: Option<&Slide>)
        ensures
            match *self {
                NoteData::Slide(_, s) => r == Some(&s),
                _ => r is None,
            },
    {
        match self {
            NoteData::Slide(_, s) => Some(s),
            _ => None,
        }
    }
}

} // verus!
