//! Timeline events: BPM changes, bar lengths, speed changes, sections, labels.
use crate::fraction::Fraction;
use vstd::prelude::*;

verus! {

/// An event of the score timeline; absent fields are unchanged by it.
#[derive(Debug, Clone)]
pub struct Event {
    pub bar: Fraction,
    pub bpm: Option<Fraction>,
    pub bar_length: Option<Fraction>,
    pub sentence_length: Option<i32>,
    /// Scroll speed factor.
    pub speed: Option<Fraction>,
    pub section: Option<String>,
    pub text: Option<String>,
}

/// The content of an `Event`: its fractions, and the text of its strings.
pub struct EventView {
    pub bar: Fraction,
    pub bpm: Option<Fraction>,
    pub bar_length: Option<Fraction>,
    pub sentence_length: Option<i32>,
    pub speed: Option<Fraction>,
    pub section: Option<Seq<char>>,
    pub text: Option<Seq<char>>,
}

impl View for Event {
    type V = EventView;

    open spec fn view(&self) -> EventView {
        EventView {
            bar: self.bar,
            bpm: self.bpm,
            bar_length: self.bar_length,
            sentence_length: self.sentence_length,
            speed: self.speed,
            section: opt_str_view(self.section),
            text: opt_str_view(self.text),
        }
    }
}

/// `a` when it holds a nonempty text, else `b`.
pub open spec fn or_nonempty_view(a: Option<Seq<char>>, b: Option<Seq<char>>) -> Option<Seq<char>> {
    match a {
        Some(v) => if v.len() != 0 {
            a
        } else {
            b
        },
        None => b,
    }
}

/// `merge_events` on contents.
pub open spec fn merge_view(earlier: EventView, later: EventView) -> EventView {
    EventView {
        bar: later.bar,
        bpm: or_nonzero_frac(later.bpm, earlier.bpm),
        bar_length: or_nonzero_frac(later.bar_length, earlier.bar_length),
        sentence_length: or_nonzero_i32(later.sentence_length, earlier.sentence_length),
        speed: or_nonzero_frac(later.speed, earlier.speed),
        section: or_nonempty_view(later.section, earlier.section),
        text: or_nonempty_view(later.text, earlier.text),
    }
}

/// An event at `bar` that changes nothing, as content.
pub open spec fn empty_view(bar: Fraction) -> EventView {
    EventView {
        bar,
        bpm: None,
        bar_length: None,
        sentence_length: None,
        speed: None,
        section: None,
        text: None,
    }
}

/// Merging commutes with taking contents.
pub proof fn lemma_merge_view(a: Event, b: Event)
    ensures
        merge_events(a, b)@ == merge_view(a@, b@),
{
}

/// `a` when it holds a nonzero value, else `b` (zero counts as missing).
pub open spec fn or_nonzero_frac(a: Option<Fraction>, b: Option<Fraction>) -> Option<Fraction> {
    match a {
        Some(v) => if v@.0 != 0 {
            a
        } else {
            b
        },
        None => b,
    }
}

/// `a` when it holds a nonzero value, else `b`.
pub open spec fn or_nonzero_i32(a: Option<i32>, b: Option<i32>) -> Option<i32> {
    match a {
        Some(v) => if v != 0 {
            a
        } else {
            b
        },
        None => b,
    }
}

/// `a` when it holds a nonempty string, else `b`.
pub open spec fn or_nonempty(a: Option<String>, b: Option<String>) -> Option<String> {
    match a {
        Some(v) => if v@.len() != 0 {
            a
        } else {
            b
        },
        None => b,
    }
}

/// The event in force after `later` follows `earlier`: `later`'s bar, and each
/// field from `later` unless it is missing or falsy there.
pub open spec fn merge_events(earlier: Event, later: Event) -> Event {
    Event {
        bar: later.bar,
        bpm: or_nonzero_frac(later.bpm, earlier.bpm),
        bar_length: or_nonzero_frac(later.bar_length, earlier.bar_length),
        sentence_length: or_nonzero_i32(later.sentence_length, earlier.sentence_length),
        speed: or_nonzero_frac(later.speed, earlier.speed),
        section: or_nonempty(later.section, earlier.section),
        text: or_nonempty(later.text, earlier.text),
    }
}

/// Field-by-field equality of events, strings compared by content.
pub open spec fn events_same(a: Event, b: Event) -> bool {
    &&& a.bar == b.bar
    &&& a.bpm == b.bpm
    &&& a.bar_length == b.bar_length
    &&& a.sentence_length == b.sentence_length
    &&& a.speed == b.speed
    &&& opt_str_view(a.section) == opt_str_view(b.section)
    &&& opt_str_view(a.text) == opt_str_view(b.text)
}

/// The content of an optional string.
pub open spec fn opt_str_view(s: Option<String>) -> Option<Seq<char>> {
    match s {
        Some(v) => Some(v@),
        None => None,
    }
}

/// An event at `bar` that changes nothing.
pub open spec fn empty_event(bar: Fraction) -> Event {
    Event {
        bar,
        bpm: None,
        bar_length: None,
        sentence_length: None,
        speed: None,
        section: None,
        text: None,
    }
}

fn pick_frac(a: Option<Fraction>, b: Option<Fraction>) -> (r: Option<Fraction>)
    ensures
        r == or_nonzero_frac(a, b),
{
    match a {
        Some(v) => if *v.numer() != 0 {
            a
        } else {
            b
        },
        None => b,
    }
}

fn pick_i32(a: Option<i32>, b: Option<i32>) -> (r: Option<i32>)
    ensures
        r == or_nonzero_i32(a, b),
{
    match a {
        Some(v) => if v != 0 {
            a
        } else {
            b
        },
        None => b,
    }
}

fn pick_string(a: &Option<String>, b: &Option<String>) -> (r: Option<String>)
    ensures
        r == or_nonempty(*a, *b),
{
    match a {
        Some(v) => if !v.as_str().is_empty() {
            Some(v.clone())
        } else {
            clone_opt_string(b)
        },
        None => clone_opt_string(b),
    }
}

/// A copy of an optional string.
pub fn clone_opt_string(s: &Option<String>) -> (r: Option<String>)
    ensures
        r == *s,
{
    match s {
        Some(v) => Some(v.clone()),
        None => None,
    }
}

/// Content equality of optional strings.
pub fn opt_string_eq(a: &Option<String>, b: &Option<String>) -> (r: bool)
    ensures
        r == (opt_str_view(*a) == opt_str_view(*b)),
{
    match (a, b) {
        (Some(x), Some(y)) => x.eq(y),
        (None, None) => true,
        _ => false,
    }
}

impl Event {
    /// An event at `bar` that changes nothing.
    pub fn new(bar: Fraction) -> (r: Event)
        ensures
            r == empty_event(bar),
    {
        Event {
            bar,
            bpm: None,
            bar_length: None,
            sentence_length: None,
            speed: None,
            section: None,
            text: None,
        }
    }

    /// This event with a BPM.
    pub fn with_bpm(self, bpm: Fraction) -> (r: Event)
        ensures
            r == (Event { bpm: Some(bpm), ..self }),
    {
        let mut e = self;
        e.bpm = Some(bpm);
        e
    }

    /// This event with a bar length (in beats).
    pub fn with_bar_length(self, bar_length: Fraction) -> (r: Event)
        ensures
            r == (Event { bar_length: Some(bar_length), ..self }),
    {
        let mut e = self;
        e.bar_length = Some(bar_length);
        e
    }

    /// This event with a sentence length (bars per chart column).
    pub fn with_sentence_length(self, sl: i32) -> (r: Event)
        ensures
            r == (Event { sentence_length: Some(sl), ..self }),
    {
        let mut e = self;
        e.sentence_length = Some(sl);
        e
    }

    /// This event with a scroll speed.
    pub fn with_speed(self, speed: Fraction) -> (r: Event)
        ensures
            r == (Event { speed: Some(speed), ..self }),
    {
        let mut e = self;
        e.speed = Some(speed);
        e
    }

    /// This event with a section name.
    pub fn with_section(self, section: String) -> (r: Event)
        ensures
            r == (Event { section: Some(section), ..self }),
    {
        let mut e = self;
        e.section = Some(section);
        e
    }

    /// This event with a label text.
    pub fn with_text(self, text: String) -> (r: Event)
        ensures
            r == (Event { text: Some(text), ..self }),
    {
        let mut e = self;
        e.text = Some(text);
        e
    }

    /// The event in force once `other` follows `self`; callers pass events
    /// in timeline order (debug builds assert that `other` is not earlier).
    pub fn merge(&self, other: &Event) -> (r: Event)
        ensures
            r == merge_events(*self, *other),
    {
        Event {
            bar: other.bar,
            bpm: pick_frac(other.bpm, self.bpm),
            bar_length: pick_frac(other.bar_length, self.bar_length),
            sentence_length: pick_i32(other.sentence_length, self.sentence_length),
            speed: pick_frac(other.speed, self.speed),
            section: pick_string(&other.section, &self.section),
            text: pick_string(&other.text, &self.text),
        }
    }

    /// Merges `other` into `self` in place.
    pub fn merge_from(&mut self, other: &Event)
        ensures
            *final(self) == merge_events(*old(self), *other),
    {
        let merged = self.merge(other);
        *self = merged;
    }

    /// A copy of this event.
    pub fn copied(&self) -> (r: Event)
        ensures
            r == *self,
    {
        Event {
            bar: self.bar,
            bpm: self.bpm,
            bar_length: self.bar_length,
            sentence_length: self.sentence_length,
            speed: self.speed,
            section: clone_opt_string(&self.section),
            text: clone_opt_string(&self.text),
        }
    }

    /// Field-by-field equality, strings by content.
    pub fn same_as(&self, other: &Event) -> (r: bool)
        ensures
            r == events_same(*self, *other),
            r == (self@ == other@),
    {
        self.bar == other.bar && self.bpm == other.bpm && self.bar_length == other.bar_length
            && self.sentence_length == other.sentence_length && self.speed == other.speed
            && opt_string_eq(&self.section, &other.section) && opt_string_eq(
            &self.text,
            &other.text,
        )
    }
}

} // verus!
