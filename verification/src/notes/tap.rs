//! Tap notes and their types.
use vstd::prelude::*;

verus! {

/// Tap note types (`TapType` in the chart format).
#[derive(Debug, Clone, Copy, PartialEq, Eq, Structural)]
pub enum TapType {
    Tap,
    Critical,
    Flick,
    Damage,
    Trend,
    CriticalTrend,
    Cancel,
    CriticalCancel,
}

/// The numeric code of each tap type.
pub open spec fn tap_type_code(t: TapType) -> int {
    match t {
        TapType::Tap => 1,
        TapType::Critical => 2,
        TapType::Flick => 3,
        TapType::Damage => 4,
        TapType::Trend => 5,
        TapType::CriticalTrend => 6,
        TapType::Cancel => 7,
        TapType::CriticalCancel => 8,
    }
}

impl TapType {
    /// The tap type with the given code, if any.
    pub fn from_i32(v: i32) -> (r: Option<TapType>)
        ensures
            r matches Some(t) ==> tap_type_code(t) == v,
            r is None <==> !(1 <= v <= 8),
    {
        match v {
            1 => Some(TapType::Tap),
            2 => Some(TapType::Critical),
            3 => Some(TapType::Flick),
            4 => Some(TapType::Damage),
            5 => Some(TapType::Trend),
            6 => Some(TapType::CriticalTrend),
            7 => Some(TapType::Cancel),
            8 => Some(TapType::CriticalCancel),
            _ => None,
        }
    }

    /// The numeric code of this tap type.
    pub fn to_i32(self) -> (r: i32)
        ensures
            r == tap_type_code(self),
    {
        match self {
            TapType::Tap => 1,
            TapType::Critical => 2,
            TapType::Flick => 3,
            TapType::Damage => 4,
            TapType::Trend => 5,
            TapType::CriticalTrend => 6,
            TapType::Cancel => 7,
            TapType::CriticalCancel => 8,
        }
    }
}

/// A critical tap code: Critical, CriticalTrend or CriticalCancel.
pub open spec fn is_critical_code(t: int) -> bool {
    t == 2 || t == 6 || t == 8
}

/// A trend (friction) tap code: Trend or CriticalTrend.
pub open spec fn is_trend_code(t: int) -> bool {
    t == 5 || t == 6
}

/// A cancelled (not drawn) tap code: Cancel or CriticalCancel.
pub open spec fn is_none_code(t: int) -> bool {
    t == 7 || t == 8
}

/// The tick mark of a tap of the given code: none for cancelled taps, a
/// short one (`false`) for trend taps, a full one (`true`) otherwise.
pub open spec fn tap_tick_of(t: int) -> Option<bool> {
    if is_none_code(t) {
        None
    } else if is_trend_code(t) {
        Some(false)
    } else {
        Some(true)
    }
}

/// A tap note; its type lives in the note's `note_type`.
#[derive(Debug, Clone, Copy)]
pub struct Tap;

impl Tap {
    /// Whether a tap of this code is critical.
    pub fn is_critical_type(note_type: i32) -> (r: bool)
        ensures
            r == is_critical_code(note_type as int),
    {
        match TapType::from_i32(note_type) {
            Some(TapType::Critical) | Some(TapType::CriticalTrend) | Some(
                TapType::CriticalCancel,
            ) => true,
            _ => false,
        }
    }

    /// Whether a tap of this code is a trend note.
    pub fn is_trend_type(note_type: i32) -> (r: bool)
        ensures
            r == is_trend_code(note_type as int),
    {
        match TapType::from_i32(note_type) {
            Some(TapType::Trend) | Some(TapType::CriticalTrend) => true,
            _ => false,
        }
    }

    /// Whether a tap of this code is not drawn.
    pub fn is_none_type(note_type: i32) -> (r: bool)
        ensures
            r == is_none_code(note_type as int),
    {
        match TapType::from_i32(note_type) {
            Some(TapType::Cancel) | Some(TapType::CriticalCancel) => true,
            _ => false,
        }
    }

    /// Without its type a tap is never critical (the type decides).
    pub fn is_critical(&self) -> (r: bool)
        ensures
            !r,
    {
        false
    }

    /// Without its type a tap is never a trend note.
    pub fn is_trend(&self) -> (r: bool)
        ensures
            !r,
    {
        false
    }

    /// Without its type a tap is always drawn.
    pub fn is_none(&self) -> (r: bool)
        ensures
            !r,
    {
        false
    }

    /// Without its type a tap has a full tick mark.
    pub fn is_tick(&self) -> (r: Option<bool>)
        ensures
            r == Some(true),
    {
        Some(true)
    }

    /// `is_critical_type` of the given code.
    pub fn is_critical_with_type(&self, note_type: i32) -> (r: bool)
        ensures
            r == is_critical_code(note_type as int),
    {
        Self::is_critical_type(note_type)
    }

    /// `is_trend_type` of the given code.
    pub fn is_trend_with_type(&self, note_type: i32) -> (r: bool)
        ensures
            r == is_trend_code(note_type as int),
    {
        Self::is_trend_type(note_type)
    }

    /// `is_none_type` of the given code.
    pub fn is_none_with_type(&self, note_type: i32) -> (r: bool)
        ensures
            r == is_none_code(note_type as int),
    {
        Self::is_none_type(note_type)
    }

    /// The tick mark of a tap of the given code.
    pub fn is_tick_with_type(&self, note_type: i32) -> (r: Option<bool>)
        ensures
            r == tap_tick_of(note_type as int),
    {
        if Self::is_none_type(note_type) {
            return None;
        }
        if Self::is_trend_type(note_type) {
            return Some(false);
        }
        Some(true)
    }
}

} // verus!
