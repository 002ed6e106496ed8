//! Directional (flick) notes.
use super::tap::{is_critical_code, is_trend_code, Tap};
use super::{base_of, idx_ok, NoteData, NoteIdx, NO_NOTE};
use vstd::prelude::*;

verus! {

/// Flick directions (`DirectionalType` in the chart format).
#[derive(Debug, Clone, Copy, PartialEq, Eq, Structural)]
pub enum DirectionalType {
    Up,
    Down,
    UpperLeft,
    UpperRight,
    LowerLeft,
    LowerRight,
}

/// The numeric code of each direction.
pub open spec fn directional_type_code(t: DirectionalType) -> int {
    match t {
        DirectionalType::Up => 1,
        DirectionalType::Down => 2,
        DirectionalType::UpperLeft => 3,
        DirectionalType::UpperRight => 4,
        DirectionalType::LowerLeft => 5,
        DirectionalType::LowerRight => 6,
    }
}

impl DirectionalType {
    /// The direction with the given code, if any.
    pub fn from_i32(v: i32) -> (r: Option<DirectionalType>)
        ensures
            r matches Some(t) ==> directional_type_code(t) == v,
            r is None <==> !(1 <= v <= 6),
    {
        match v {
            1 => Some(DirectionalType::Up),
            2 => Some(DirectionalType::Down),
            3 => Some(DirectionalType::UpperLeft),
            4 => Some(DirectionalType::UpperRight),
            5 => Some(DirectionalType::LowerLeft),
            6 => Some(DirectionalType::LowerRight),
            _ => None,
        }
    }

    /// The numeric code of this direction.
    pub fn to_i32(self) -> (r: i32)
        ensures
            r == directional_type_code(self),
    {
        match self {
            DirectionalType::Up => 1,
            DirectionalType::Down => 2,
            DirectionalType::UpperLeft => 3,
            DirectionalType::UpperRight => 4,
            DirectionalType::LowerLeft => 5,
            DirectionalType::LowerRight => 6,
        }
    }
}

/// A directional note, possibly carrying the tap note it was merged with.
#[derive(Debug, Clone, Copy)]
pub struct Directional {
    pub tap_idx: NoteIdx,
}

/// A directional is critical when its attached tap is.
pub open spec fn directional_critical(d: Directional, arena: Seq<NoteData>) -> bool {
    d.tap_idx != NO_NOTE && is_critical_code(base_of(arena[d.tap_idx as int]).note_type as int)
}

/// A directional is a trend note when its attached tap is.
pub open spec fn directional_trend(d: Directional, arena: Seq<NoteData>) -> bool {
    d.tap_idx != NO_NOTE && is_trend_code(base_of(arena[d.tap_idx as int]).note_type as int)
}

/// The tick mark of a directional: short for a trend note, full otherwise.
pub open spec fn directional_tick(d: Directional, arena: Seq<NoteData>) -> Option<bool> {
    if directional_trend(d, arena) {
        Some(false)
    } else {
        Some(true)
    }
}

impl Default for Directional {
    /// A directional with no attached tap (as `new`).
    fn default() -> (r: Directional)
        ensures
            r.tap_idx == NO_NOTE,
    {
        Directional::new()
    }
}

impl Directional {
    /// A directional with no attached tap.
    pub fn new() -> (r: Directional)
        ensures
            r.tap_idx == NO_NOTE,
    {
        Directional { tap_idx: NO_NOTE }
    }

    /// Whether the attached tap is critical.
    pub fn is_critical(&self, arena: &[NoteData]) -> (r: bool)
        requires
            idx_ok(self.tap_idx, arena@.len() as int),
        ensures
            r == directional_critical(*self, arena@),
    {
        if self.tap_idx != NO_NOTE {
            let tap_note = &arena[self.tap_idx];
            return Tap::is_critical_type(tap_note.note_type());
        }
        false
    }

    /// Whether the attached tap is a trend note.
    pub fn is_trend(&self, arena: &[NoteData]) -> (r: bool)
        requires
            idx_ok(self.tap_idx, arena@.len() as int),
        ensures
            r == directional_trend(*self, arena@),
    {
        if self.tap_idx != NO_NOTE {
            let tap_note = &arena[self.tap_idx];
            return Tap::is_trend_type(tap_note.note_type());
        }
        false
    }

    /// The tick mark: short for a trend note, full otherwise.
    pub fn is_tick(&self, arena: &[NoteData]) -> (r: Option<bool>)
        requires
            idx_ok(self.tap_idx, arena@.len() as int),
        ensures
            r == directional_tick(*self, arena@),
    {
        if self.is_trend(arena) {
            return Some(false);
        }
        Some(true)
    }
}

} // verus!
