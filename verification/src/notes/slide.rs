//! Slide (hold) notes, linked into chains by index.
use super::directional::{directional_critical, directional_tick, directional_trend};
use super::tap::{is_critical_code, is_none_code, is_trend_code, tap_tick_of, Tap};
use super::{arena_wf, base_of, links_ok, slide_links_ok, NoteData, NoteIdx, NO_NOTE};
use vstd::prelude::*;

verus! {

/// Slide node types (`SlideType` in the chart format).
#[derive(Debug, Clone, Copy, PartialEq, Eq, Structural)]
pub enum SlideType {
    Start,
    End,
    Relay,
    Invisible,
}

/// The numeric code of each slide type.
pub open spec fn slide_type_code(t: SlideType) -> int {
    match t {
        SlideType::Start => 1,
        SlideType::End => 2,
        SlideType::Relay => 3,
        SlideType::Invisible => 5,
    }
}

impl SlideType {
    /// The slide type with the given code, if any.
    pub fn from_i32(v: i32) -> (r: Option<SlideType>)
        ensures
            r matches Some(t) ==> slide_type_code(t) == v,
            r is None <==> !(v == 1 || v == 2 || v == 3 || v == 5),
    {
        match v {
            1 => Some(SlideType::Start),
            2 => Some(SlideType::End),
            3 => Some(SlideType::Relay),
            5 => Some(SlideType::Invisible),
            _ => None,
        }
    }

    /// The numeric code of this slide type.
    pub fn to_i32(self) -> (r: i32)
        ensures
            r == slide_type_code(self),
    {
        match self {
            SlideType::Start => 1,
            SlideType::End => 2,
            SlideType::Relay => 3,
            SlideType::Invisible => 5,
        }
    }
}

/// A slide node: its channel, whether it is a decoration (guide) slide, the
/// tap and directional merged into it, the next node and the chain's head.
#[derive(Debug, Clone, Copy)]
pub struct Slide {
    pub channel: i32,
    pub decoration: bool,
    pub tap_idx: NoteIdx,
    pub directional_idx: NoteIdx,
    pub next_idx: NoteIdx,
    pub head_idx: NoteIdx,
}

/// Whether a node of the given type shapes the drawn path: every typed node
/// but a relay that carries a tap and no directional.
pub open spec fn slide_is_path(s: Slide, note_type: int) -> bool {
    note_type != 0 && (note_type != 3 || s.directional_idx != NO_NOTE || s.tap_idx == NO_NOTE)
}

/// Whether the slide's own tap or directional is critical.
pub open spec fn slide_own_critical(s: Slide, arena: Seq<NoteData>) -> bool {
    ||| (s.tap_idx != NO_NOTE && is_critical_code(
        base_of(arena[s.tap_idx as int]).note_type as int,
    ))
    ||| (s.directional_idx != NO_NOTE && critical_directional_at(arena, s.directional_idx as int))
}

/// The note at `i` is a directional whose attached tap is critical.
pub open spec fn critical_directional_at(arena: Seq<NoteData>, i: int) -> bool {
    match arena[i] {
        NoteData::Directional(_, d) => directional_critical(d, arena),
        _ => false,
    }
}

/// The note at `i` is a directional whose attached tap is a trend tap.
pub open spec fn trend_directional_at(arena: Seq<NoteData>, i: int) -> bool {
    match arena[i] {
        NoteData::Directional(_, d) => directional_trend(d, arena),
        _ => false,
    }
}

/// The note at `i` is a directional with a full tick mark.
pub open spec fn ticked_directional_at(arena: Seq<NoteData>, i: int) -> bool {
    match arena[i] {
        NoteData::Directional(_, d) => directional_tick(d, arena) == Some(true),
        _ => false,
    }
}

/// The note at `i` is a slide whose own tap or directional is critical.
pub open spec fn critical_slide_at(arena: Seq<NoteData>, i: int) -> bool {
    match arena[i] {
        NoteData::Slide(_, h) => slide_own_critical(h, arena),
        _ => false,
    }
}

/// A slide node is critical when it or the head of its chain is.
pub open spec fn slide_critical(s: Slide, arena: Seq<NoteData>) -> bool {
    ||| slide_own_critical(s, arena)
    ||| (s.head_idx != NO_NOTE && critical_slide_at(arena, s.head_idx as int))
}

/// A slide node is a trend node when its tap or directional is.
pub open spec fn slide_trend(s: Slide, arena: Seq<NoteData>) -> bool {
    ||| (s.tap_idx != NO_NOTE && is_trend_code(base_of(arena[s.tap_idx as int]).note_type as int))
    ||| (s.directional_idx != NO_NOTE && trend_directional_at(arena, s.directional_idx as int))
}

/// A slide node is not drawn when its tap is cancelled.
pub open spec fn slide_none(s: Slide, arena: Seq<NoteData>) -> bool {
    s.tap_idx != NO_NOTE && is_none_code(base_of(arena[s.tap_idx as int]).note_type as int)
}

/// The tick mark of a slide node of the given type.
pub open spec fn slide_tick(s: Slide, arena: Seq<NoteData>, note_type: int) -> Option<bool> {
    if slide_none(s, arena) {
        None
    } else if s.decoration {
        if s.tap_idx != NO_NOTE && tap_tick_of(base_of(arena[s.tap_idx as int]).note_type as int)
            == Some(true) {
            Some(true)
        } else if s.directional_idx != NO_NOTE && ticked_directional_at(
            arena,
            s.directional_idx as int,
        ) {
            Some(true)
        } else if s.tap_idx != NO_NOTE || s.directional_idx != NO_NOTE {
            Some(false)
        } else {
            None
        }
    } else if note_type == 5 {
        None
    } else if slide_trend(s, arena) {
        Some(false)
    } else if note_type == 3 {
        Some(false)
    } else {
        Some(true)
    }
}

impl Slide {
    /// A slide node on `channel` with no links.
    pub fn new(channel: i32, decoration: bool) -> (r: Slide)
        ensures
            r.channel == channel,
            r.decoration == decoration,
            r.tap_idx == NO_NOTE,
            r.directional_idx == NO_NOTE,
            r.next_idx == NO_NOTE,
            r.head_idx == NO_NOTE,
    {
        Slide {
            channel,
            decoration,
            tap_idx: NO_NOTE,
            directional_idx: NO_NOTE,
            next_idx: NO_NOTE,
            head_idx: NO_NOTE,
        }
    }

    /// Whether a node of type `note_type` shapes the drawn path.
    pub fn is_path(&self, note_type: i32) -> (r: bool)
        ensures
            r == slide_is_path(*self, note_type as int),
    {
        if note_type == 0 {
            return false;
        }
        if note_type != 3 {
            return true;
        }
        if self.directional_idx != NO_NOTE {
            return true;
        }
        if self.tap_idx == NO_NOTE && self.directional_idx == NO_NOTE {
            return true;
        }
        false
    }

    /// Whether this node or its chain's head is critical.
    pub fn is_critical(&self, arena: &[NoteData]) -> (r: bool)
        requires
            arena_wf(arena@),
            slide_links_ok(*self, arena@.len() as int),
        ensures
            r == slide_critical(*self, arena@),
    {
        if self.tap_idx != NO_NOTE && Tap::is_critical_type(arena[self.tap_idx].note_type()) {
            return true;
        }
        if self.directional_idx != NO_NOTE {
            if let Some(d) = arena[self.directional_idx].as_directional() {
                proof {
                    assert(links_ok(arena@[self.directional_idx as int], arena@.len() as int));
                }
                if d.is_critical(arena) {
                    return true;
                }
            }
        }
        if self.head_idx != NO_NOTE {
            let head = &arena[self.head_idx];
            proof {
                assert(links_ok(arena@[self.head_idx as int], arena@.len() as int));
            }
            if let Some(hs) = head.as_slide() {
                if hs.tap_idx != NO_NOTE && Tap::is_critical_type(arena[hs.tap_idx].note_type()) {
                    return true;
                }
                if hs.directional_idx != NO_NOTE {
                    if let Some(d) = arena[hs.directional_idx].as_directional() {
                        proof {
                            assert(links_ok(
                                arena@[hs.directional_idx as int],
                                arena@.len() as int,
                            ));
                        }
                        if d.is_critical(arena) {
                            return true;
                        }
                    }
                }
            }
        }
        false
    }

    /// Whether this node's tap or directional is a trend note.
    pub fn is_trend(&self, arena: &[NoteData]) -> (r: bool)
        requires
            arena_wf(arena@),
            slide_links_ok(*self, arena@.len() as int),
        ensures
            r == slide_trend(*self, arena@),
    {
        if self.tap_idx != NO_NOTE && Tap::is_trend_type(arena[self.tap_idx].note_type()) {
            return true;
        }
        if self.directional_idx != NO_NOTE {
            if let Some(d) = arena[self.directional_idx].as_directional() {
                proof {
                    assert(links_ok(arena@[self.directional_idx as int], arena@.len() as int));
                }
                if d.is_trend(arena) {
                    return true;
                }
            }
        }
        false
    }

    /// Whether this node's tap is cancelled (the node is not drawn).
    pub fn is_none(&self, arena: &[NoteData]) -> (r: bool)
        requires
            slide_links_ok(*self, arena@.len() as int),
        ensures
            r == slide_none(*self, arena@),
    {
        if self.tap_idx != NO_NOTE && Tap::is_none_type(arena[self.tap_idx].note_type()) {
            return true;
        }
        false
    }

    /// The tick mark of this node when it has type `note_type`.
    pub fn is_tick(&self, arena: &[NoteData], note_type: i32) -> (r: Option<bool>)
        requires
            arena_wf(arena@),
            slide_links_ok(*self, arena@.len() as int),
        ensures
            r == slide_tick(*self, arena@, note_type as int),
    {
        if self.is_none(arena) {
            return None;
        }
        if self.decoration {
            if self.tap_idx != NO_NOTE {
                let tap_tick = Tap.is_tick_with_type(arena[self.tap_idx].note_type());
                if let Some(true) = tap_tick {
                    return tap_tick;
                }
            }
            if self.directional_idx != NO_NOTE {
                if let Some(d) = arena[self.directional_idx].as_directional() {
                    proof {
                        assert(links_ok(arena@[self.directional_idx as int], arena@.len() as int));
                    }
                    let d_tick = d.is_tick(arena);
                    if let Some(true) = d_tick {
                        return d_tick;
                    }
                }
            }
            if self.tap_idx != NO_NOTE || self.directional_idx != NO_NOTE {
                return Some(false);
            }
            return None;
        }
        if note_type == 5 {
            return None;
        }
        if self.is_trend(arena) {
            return Some(false);
        }
        if note_type == 3 {
            return Some(false);
        }
        Some(true)
    }
}

} // verus!
