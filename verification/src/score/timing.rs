//! Why elapsed time never decreases along a chart: each timeline step adds a
//! span that is not negative, limiting denominators keeps order, and the
//! time read from an entry agrees with the next entry at its bar.
use crate::arith::{
    is_canonical, lemma_canonical_unique, lemma_normalize_canonical, lemma_normalize_scale,
    normalize, pair_fits,
};
use crate::fraction::closest::{lemma_limit_denominator_monotone, lemma_limit_denominator_result};
use crate::fraction::order::{lemma_add_le, lemma_mul_le, lemma_normalize_nonneg, lemma_sub_le};
use crate::fraction::{
    frac_add, frac_div, frac_le, frac_mul, frac_sub, lemma_view_frac_of, spec_limit_denominator,
    Fraction,
};
use crate::notes::event::{merge_events, Event};
use crate::score::{
    advance_time, bar_length_or_default, bpm_or_default, entry_index, initial_event,
    last_entry_at_or_before, time_at_bar, time_from_entry, timeline, timeline_state,
    TIME_DENOMINATOR_LIMIT,
};
use vstd::prelude::*;

verus! {

/// The exact elapsed time at `bar` from an entry at time `t` in state `e`,
/// before its denominator is limited.
pub open spec fn entry_sum(t: (int, int), e: Event, bar: (int, int)) -> (int, int) {
    let a = frac_mul(bar_length_or_default(e), (60, 1));
    let b = frac_div(a, bpm_or_default(e));
    frac_add(t, frac_mul(b, frac_sub(bar, e.bar@)))
}

/// An event whose BPM and bar length, where set, are pairs in lowest terms
/// that are not negative.
pub open spec fn tempo_ok(e: Event) -> bool {
    &&& (e.bpm matches Some(v) ==> is_canonical(v@) && v@.0 >= 0)
    &&& (e.bar_length matches Some(v) ==> is_canonical(v@) && v@.0 >= 0)
}

/// Two pairs with nonzero denominators have the same value.
pub open spec fn same_value(p: (int, int), q: (int, int)) -> bool {
    p.0 * q.1 == q.0 * p.1
}

proof fn lemma_same_value_normalize(n: int, d: int)
    requires
        d != 0,
    ensures
        same_value(normalize(n, d), (n, d)),
        normalize(n, d).1 > 0,
{
    lemma_normalize_canonical(n, d);
}

proof fn lemma_same_value_trans(p: (int, int), q: (int, int), r: (int, int))
    requires
        same_value(p, q),
        same_value(q, r),
        q.1 != 0,
    ensures
        same_value(p, r),
{
    assert(p.0 * r.1 * q.1 == r.0 * p.1 * q.1) by (nonlinear_arith)
        requires
            p.0 * q.1 == q.0 * p.1,
            q.0 * r.1 == r.0 * q.1,
    ;
    assert(p.0 * r.1 == r.0 * p.1) by (nonlinear_arith)
        requires
            p.0 * r.1 * q.1 == r.0 * p.1 * q.1,
            q.1 != 0,
    ;
}

proof fn lemma_same_value_scale(p: (int, int), q: (int, int), k: int, m: int)
    requires
        same_value(p, q),
    ensures
        same_value((p.0 * k, p.1 * m), (q.0 * k, q.1 * m)),
{
    assert((p.0 * k) * (q.1 * m) == (q.0 * k) * (p.1 * m)) by (nonlinear_arith)
        requires
            p.0 * q.1 == q.0 * p.1,
    ;
}

/// The tempo of an event with a sound tempo: the bar length and BPM are in
/// lowest terms and not negative.
proof fn lemma_tempo_defaults(e: Event)
    requires
        tempo_ok(e),
    ensures
        is_canonical(bpm_or_default(e)),
        bpm_or_default(e).0 >= 0,
        is_canonical(bar_length_or_default(e)),
        bar_length_or_default(e).0 >= 0,
{
    if e.bpm is None {
        crate::arith::lemma_integer_canonical(120);
    }
    if e.bar_length is None {
        crate::arith::lemma_integer_canonical(4);
    }
}

/// The exact sums from one entry keep the order of the bars, and are in
/// lowest terms.
pub(crate) proof fn lemma_entry_sum_le(t: (int, int), e: Event, a: (int, int), b: (int, int))
    requires
        is_canonical(t),
        is_canonical(e.bar@),
        a.1 > 0,
        b.1 > 0,
        tempo_ok(e),
        bpm_or_default(e).0 != 0,
        frac_le(a, b),
    ensures
        frac_le(entry_sum(t, e, a), entry_sum(t, e, b)),
        is_canonical(entry_sum(t, e, a)),
        is_canonical(entry_sum(t, e, b)),
{
    lemma_tempo_defaults(e);
    let bpm = bpm_or_default(e);
    let bl = bar_length_or_default(e);
    let eb = e.bar@;
    let fa = frac_mul(bl, (60, 1));
    let fb = frac_div(fa, bpm);
    assert(bl.0 * 60 >= 0 && bl.1 * 1 > 0) by (nonlinear_arith)
        requires
            bl.0 >= 0,
            bl.1 > 0,
    ;
    lemma_normalize_nonneg(bl.0 * 60, bl.1 * 1);
    assert(fa.0 * bpm.1 >= 0 && fa.1 * bpm.0 > 0) by (nonlinear_arith)
        requires
            fa.0 >= 0,
            fa.1 > 0,
            bpm.0 > 0,
            bpm.1 > 0,
    ;
    lemma_normalize_nonneg(fa.0 * bpm.1, fa.1 * bpm.0);
    let da = frac_sub(a, eb);
    let db = frac_sub(b, eb);
    assert(a.1 * eb.1 > 0 && b.1 * eb.1 > 0) by (nonlinear_arith)
        requires
            a.1 > 0,
            b.1 > 0,
            eb.1 > 0,
    ;
    lemma_normalize_canonical(a.0 * eb.1 - eb.0 * a.1, a.1 * eb.1);
    lemma_normalize_canonical(b.0 * eb.1 - eb.0 * b.1, b.1 * eb.1);
    lemma_sub_le(a, b, eb);
    let ca = frac_mul(fb, da);
    let cb = frac_mul(fb, db);
    assert(fb.1 * da.1 > 0 && fb.1 * db.1 > 0) by (nonlinear_arith)
        requires
            fb.1 > 0,
            da.1 > 0,
            db.1 > 0,
    ;
    lemma_normalize_canonical(fb.0 * da.0, fb.1 * da.1);
    lemma_normalize_canonical(fb.0 * db.0, fb.1 * db.1);
    lemma_mul_le(fb, da, db);
    lemma_add_le(t, ca, cb);
}

/// The exact sum at the entry's own bar is the entry's time.
pub(crate) proof fn lemma_entry_sum_at_entry(t: (int, int), e: Event)
    requires
        is_canonical(t),
        is_canonical(e.bar@),
        tempo_ok(e),
        bpm_or_default(e).0 != 0,
    ensures
        entry_sum(t, e, e.bar@) == t,
{
    lemma_tempo_defaults(e);
    let bpm = bpm_or_default(e);
    let bl = bar_length_or_default(e);
    let eb = e.bar@;
    let fa = frac_mul(bl, (60, 1));
    let fb = frac_div(fa, bpm);
    assert(bl.1 * 1 > 0);
    lemma_normalize_canonical(bl.0 * 60, bl.1 * 1);
    assert(fa.1 * bpm.0 != 0) by (nonlinear_arith)
        requires
            fa.1 > 0,
            bpm.0 != 0,
    ;
    lemma_normalize_canonical(fa.0 * bpm.1, fa.1 * bpm.0);
    let d = frac_sub(eb, eb);
    assert(eb.0 * eb.1 - eb.0 * eb.1 == 0);
    assert(eb.1 * eb.1 > 0) by (nonlinear_arith)
        requires
            eb.1 > 0,
    ;
    lemma_normalize_canonical(0, eb.1 * eb.1);
    assert(d.0 == 0) by (nonlinear_arith)
        requires
            d.0 * (eb.1 * eb.1) == 0 * d.1,
            eb.1 * eb.1 > 0,
    ;
    let c = frac_mul(fb, d);
    assert(fb.0 * d.0 == 0);
    assert(fb.1 * d.1 > 0) by (nonlinear_arith)
        requires
            fb.1 > 0,
            d.1 > 0,
    ;
    lemma_normalize_canonical(0, fb.1 * d.1);
    assert(c.0 == 0) by (nonlinear_arith)
        requires
            c.0 * (fb.1 * d.1) == 0 * c.1,
            fb.1 * d.1 > 0,
    ;
    assert(t.0 * c.1 + c.0 * t.1 == c.1 * t.0) by (nonlinear_arith)
        requires
            c.0 == 0,
    ;
    assert(t.1 * c.1 == c.1 * t.1) by (nonlinear_arith);
    lemma_normalize_scale(c.1, t.0, t.1);
}

/// A timeline step agrees with reading the time from the entry it starts
/// at: both limit the same exact sum.
pub(crate) proof fn lemma_advance_is_entry_sum(t: (int, int), e: Event, bar: (int, int))
    requires
        is_canonical(t),
        is_canonical(e.bar@),
        bar.1 > 0,
        tempo_ok(e),
        advance_time(t, e, bar) is Some,
    ensures
        bpm_or_default(e).0 != 0,
        advance_time(t, e, bar) == spec_limit_denominator(
            entry_sum(t, e, bar),
            TIME_DENOMINATOR_LIMIT as int,
        ),
{
    lemma_tempo_defaults(e);
    let bpm = bpm_or_default(e);
    let bl = bar_length_or_default(e);
    let eb = e.bar@;
    let delta = frac_sub(bar, eb);
    assert(bar.1 * eb.1 > 0) by (nonlinear_arith)
        requires
            bar.1 > 0,
            eb.1 > 0,
    ;
    lemma_same_value_normalize(bar.0 * eb.1 - eb.0 * bar.1, bar.1 * eb.1);
    let (d0, d1) = delta;
    let (l0, l1) = bl;
    let (m0, m1) = bpm;
    // The step's order: ((delta * bar length) * 60) / bpm.
    let a = frac_mul(delta, bl);
    assert(d1 * l1 > 0) by (nonlinear_arith)
        requires
            d1 > 0,
            l1 > 0,
    ;
    lemma_same_value_normalize(d0 * l0, d1 * l1);
    let b = frac_mul(a, (60, 1));
    lemma_same_value_normalize(a.0 * 60, a.1 * 1);
    lemma_same_value_scale(a, (d0 * l0, d1 * l1), 60, 1);
    lemma_same_value_trans(b, (a.0 * 60, a.1 * 1), ((d0 * l0) * 60, (d1 * l1) * 1));
    let c = frac_div(b, bpm);
    assert(b.1 * m0 != 0) by (nonlinear_arith)
        requires
            b.1 > 0,
            m0 > 0,
    ;
    lemma_same_value_normalize(b.0 * m1, b.1 * m0);
    lemma_same_value_scale(b, ((d0 * l0) * 60, (d1 * l1) * 1), m1, m0);
    assert((d1 * l1) * 1 != 0) by (nonlinear_arith)
        requires
            d1 > 0,
            l1 > 0,
    ;
    lemma_same_value_trans(c, (b.0 * m1, b.1 * m0), (((d0 * l0) * 60) * m1, ((d1 * l1) * 1) * m0));
    // The entry's order: ((bar length * 60) / bpm) * delta.
    let fa = frac_mul(bl, (60, 1));
    assert(l1 * 1 > 0);
    lemma_same_value_normalize(l0 * 60, l1 * 1);
    let fb = frac_div(fa, bpm);
    assert(fa.1 * m0 != 0) by (nonlinear_arith)
        requires
            fa.1 > 0,
            m0 > 0,
    ;
    lemma_same_value_normalize(fa.0 * m1, fa.1 * m0);
    lemma_same_value_scale(fa, (l0 * 60, l1 * 1), m1, m0);
    lemma_same_value_trans(fb, (fa.0 * m1, fa.1 * m0), ((l0 * 60) * m1, (l1 * 1) * m0));
    let c2 = frac_mul(fb, delta);
    assert(fb.1 * d1 != 0) by (nonlinear_arith)
        requires
            fb.1 > 0,
            d1 > 0,
    ;
    lemma_same_value_normalize(fb.0 * d0, fb.1 * d1);
    lemma_same_value_scale(fb, ((l0 * 60) * m1, (l1 * 1) * m0), d0, d1);
    assert((l1 * 1) * m0 != 0) by (nonlinear_arith)
        requires
            l1 > 0,
            m0 > 0,
    ;
    lemma_same_value_trans(c2, (fb.0 * d0, fb.1 * d1), (((l0 * 60) * m1) * d0, ((l1 * 1) * m0) * d1));
    // The two exact products are the same pair.
    assert(((d0 * l0) * 60) * m1 == ((l0 * 60) * m1) * d0) by (nonlinear_arith);
    assert(((d1 * l1) * 1) * m0 == ((l1 * 1) * m0) * d1) by (nonlinear_arith);
    assert(((l1 * 1) * m0) * d1 != 0) by (nonlinear_arith)
        requires
            l1 > 0,
            m0 > 0,
            d1 > 0,
    ;
    lemma_same_value_trans(c, (((d0 * l0) * 60) * m1, ((d1 * l1) * 1) * m0), c2);
    lemma_normalize_canonical(b.0 * m1, b.1 * m0);
    lemma_normalize_canonical(fb.0 * d0, fb.1 * d1);
    lemma_canonical_unique(c, c2);
}


/// Events that can be timed: their bars are in lowest terms, not before
/// zero and in order, and their tempos are sound.
pub open spec fn timing_events_ok(events: Seq<Event>) -> bool {
    &&& forall|i: int|
        0 <= i < events.len() ==> is_canonical(#[trigger] events[i].bar@) && frac_le(
            (0, 1),
            events[i].bar@,
        ) && tempo_ok(events[i])
    &&& forall|i: int, j: int|
        0 <= i <= j < events.len() ==> frac_le(#[trigger] events[i].bar@, #[trigger] events[j].bar@)
}

/// The elapsed time after the first `k` events.
pub open spec fn state_time(events: Seq<Event>, k: int) -> (int, int) {
    match timeline_state(events, k) {
        Some(st) => st.0,
        None => (0, 1),
    }
}

/// The event in force after the first `k` events.
pub open spec fn state_event(events: Seq<Event>, k: int) -> Event {
    match timeline_state(events, k) {
        Some(st) => st.1,
        None => initial_event(),
    }
}

/// `<=` on pairs with positive denominators is transitive.
pub(crate) proof fn lemma_frac_le_trans(a: (int, int), b: (int, int), c: (int, int))
    requires
        a.1 > 0,
        b.1 > 0,
        c.1 > 0,
        frac_le(a, b),
        frac_le(b, c),
    ensures
        frac_le(a, c),
{
    assert(a.0 * c.1 * b.1 <= c.0 * a.1 * b.1) by (nonlinear_arith)
        requires
            a.0 * b.1 <= b.0 * a.1,
            b.0 * c.1 <= c.0 * b.1,
            a.1 > 0,
            c.1 > 0,
    ;
    assert(a.0 * c.1 <= c.0 * a.1) by (nonlinear_arith)
        requires
            a.0 * c.1 * b.1 <= c.0 * a.1 * b.1,
            b.1 > 0,
    ;
}

/// The state after the first `k` events: its time is in lowest terms with a
/// limited denominator, its tempo is sound, and its bar is that of the last
/// event merged (zero at the start).
pub(crate) proof fn lemma_state_facts(events: Seq<Event>, k: int)
    requires
        timing_events_ok(events),
        0 <= k <= events.len(),
        timeline_state(events, k) is Some,
    ensures
        ({
            let st = timeline_state(events, k)->0;
            &&& is_canonical(st.0)
            &&& pair_fits(st.0)
            &&& st.0.1 <= TIME_DENOMINATOR_LIMIT
            &&& tempo_ok(st.1)
            &&& is_canonical(st.1.bar@)
            &&& k == 0 ==> st.1.bar@ == (0int, 1int)
            &&& k > 0 ==> st.1.bar@ == events[k - 1].bar@
        }),
    decreases k,
{
    if k == 0 {
        lemma_view_frac_of((0, 1));
        lemma_view_frac_of((120, 1));
        lemma_view_frac_of((4, 1));
        crate::arith::lemma_integer_canonical(0);
        crate::arith::lemma_integer_canonical(120);
        crate::arith::lemma_integer_canonical(4);
    } else {
        lemma_state_facts(events, k - 1);
        let st = timeline_state(events, k - 1)->0;
        let e = events[k - 1];
        assert(is_canonical(e.bar@) && tempo_ok(e));
        lemma_advance_is_entry_sum(st.0, st.1, e.bar@);
        lemma_tempo_defaults(st.1);
        lemma_entry_sum_le(st.0, st.1, e.bar@, e.bar@);
        lemma_limit_denominator_result(entry_sum(st.0, st.1, e.bar@), TIME_DENOMINATOR_LIMIT as int);
        let m = merge_events(st.1, e);
        assert(tempo_ok(m));
    }
}

/// Each timeline step does not go back in time.
pub(crate) proof fn lemma_state_step_le(events: Seq<Event>, k: int)
    requires
        timing_events_ok(events),
        0 <= k < events.len(),
        timeline_state(events, k + 1) is Some,
    ensures
        timeline_state(events, k) is Some,
        frac_le(state_time(events, k), state_time(events, k + 1)),
{
    let st = timeline_state(events, k)->0;
    lemma_state_facts(events, k);
    let e = events[k];
    let bar = e.bar@;
    assert(is_canonical(bar) && frac_le((0, 1), bar) && tempo_ok(e));
    lemma_advance_is_entry_sum(st.0, st.1, bar);
    if k > 0 {
        assert(frac_le(events[k - 1].bar@, events[k].bar@));
    }
    assert(frac_le(st.1.bar@, bar));
    lemma_entry_sum_at_entry(st.0, st.1);
    lemma_entry_sum_le(st.0, st.1, st.1.bar@, bar);
    lemma_limit_denominator_monotone(
        st.0,
        entry_sum(st.0, st.1, bar),
        TIME_DENOMINATOR_LIMIT as int,
    );
}

/// Along the timeline, time does not go back: the state after `k` events
/// is not later than the state after `m >= k` events.
pub(crate) proof fn lemma_state_le(events: Seq<Event>, k: int, m: int)
    requires
        timing_events_ok(events),
        0 <= k <= m <= events.len(),
        timeline_state(events, m) is Some,
    ensures
        timeline_state(events, k) is Some,
        frac_le(state_time(events, k), state_time(events, m)),
    decreases m - k,
{
    if k == m {
        lemma_state_facts(events, k);
    } else {
        lemma_state_step_le(events, m - 1);
        lemma_state_le(events, k, m - 1);
        lemma_state_facts(events, k);
        lemma_state_facts(events, m - 1);
        lemma_state_facts(events, m);
        lemma_frac_le_trans(
            state_time(events, k),
            state_time(events, m - 1),
            state_time(events, m),
        );
    }
}


/// The last entry at or before `bar` among the first `n`: its bar is not
/// after `bar`, and every later one among the first `n` is after it.
proof fn lemma_last_entry(timed: Seq<(Fraction, Event)>, bar: (int, int), n: int)
    requires
        0 <= n <= timed.len(),
    ensures
        -1 <= last_entry_at_or_before(timed, bar, n) < n,
        last_entry_at_or_before(timed, bar, n) >= 0 ==> frac_le(
            timed[last_entry_at_or_before(timed, bar, n)].1.bar@,
            bar,
        ),
        forall|i: int|
            last_entry_at_or_before(timed, bar, n) < i < n ==> !frac_le(
                #[trigger] timed[i].1.bar@,
                bar,
            ),
        forall|i: int|
            0 <= i < n && frac_le(#[trigger] timed[i].1.bar@, bar) ==> i
                <= last_entry_at_or_before(timed, bar, n),
    decreases n,
{
    if n > 0 {
        lemma_last_entry(timed, bar, n - 1);
    }
}

/// The time read from an entry is the limited exact sum.
proof fn lemma_time_from_entry_sum(t: (int, int), e: Event, bar: (int, int))
    requires
        time_from_entry(t, e, bar) is Some,
    ensures
        bpm_or_default(e).0 != 0,
        time_from_entry(t, e, bar) == spec_limit_denominator(
            entry_sum(t, e, bar),
            TIME_DENOMINATOR_LIMIT as int,
        ),
{
}

/// Elapsed time never decreases along a chart whose events can be timed.
pub(crate) proof fn lemma_time_at_bar_monotone(events: Seq<Event>, a: (int, int), b: (int, int))
    requires
        timing_events_ok(events),
        is_canonical(a),
        is_canonical(b),
        frac_le(a, b),
        time_at_bar(events, a) is Some,
        time_at_bar(events, b) is Some,
    ensures
        frac_le(time_at_bar(events, a)->0, time_at_bar(events, b)->0),
{
    let limit = TIME_DENOMINATOR_LIMIT as int;
    let timed = timeline(events)->0;
    let n = events.len() as int;
    let i = entry_index(timed, a);
    let j = entry_index(timed, b);
    if n == 0 {
        lemma_view_frac_of((0, 1));
        lemma_view_frac_of((120, 1));
        lemma_view_frac_of((4, 1));
        crate::arith::lemma_integer_canonical(0);
        crate::arith::lemma_integer_canonical(120);
        crate::arith::lemma_integer_canonical(4);
        lemma_last_entry(timed, a, 1);
        lemma_last_entry(timed, b, 1);
        assert(i == 0 && j == 0);
        let t = timed[0].0@;
        let e = timed[0].1;
        assert(t == (0int, 1int));
        assert(tempo_ok(e));
        lemma_time_from_entry_sum(t, e, a);
        lemma_time_from_entry_sum(t, e, b);
        lemma_entry_sum_le(t, e, a, b);
        lemma_limit_denominator_monotone(entry_sum(t, e, a), entry_sum(t, e, b), limit);
    } else {
        assert(timeline_state(events, n) is Some);
        assert(timed.len() == n);
        lemma_last_entry(timed, a, n);
        lemma_last_entry(timed, b, n);
        let ra = last_entry_at_or_before(timed, a, n);
        let rb = last_entry_at_or_before(timed, b, n);
        assert forall|k: int| 0 <= k < n implies #[trigger] timed[k].0@ == state_time(events, k + 1)
            && timed[k].1 == state_event(events, k + 1) && timed[k].1.bar@ == events[k].bar@
            && is_canonical(timed[k].0@) && timed[k].0@.1 <= limit && tempo_ok(timed[k].1)
            && is_canonical(timed[k].1.bar@) by {
            lemma_state_le(events, k + 1, n);
            lemma_state_facts(events, k + 1);
            lemma_view_frac_of(state_time(events, k + 1));
        }
        if ra >= 0 {
            lemma_frac_le_trans(timed[ra].1.bar@, a, b);
        }
        assert(i <= j);
        assert(0 <= i < n && 0 <= j < n);
        assert(timed[i].0@ == state_time(events, i + 1));
        assert(timed[j].0@ == state_time(events, j + 1));
        let ti = timed[i].0@;
        let ei = timed[i].1;
        let tj = timed[j].0@;
        let ej = timed[j].1;
        lemma_time_from_entry_sum(ti, ei, a);
        lemma_time_from_entry_sum(tj, ej, b);
        if i == j {
            lemma_entry_sum_le(ti, ei, a, b);
            lemma_limit_denominator_monotone(entry_sum(ti, ei, a), entry_sum(ti, ei, b), limit);
        } else {
            assert(0 <= i + 1 < n && j < n);
            assert(timed[i + 1].0@ == state_time(events, i + 2));
            assert(timed[j].0@ == state_time(events, j + 1));
            let next_bar = events[i + 1].bar@;
            assert(timed[i + 1].1.bar@ == next_bar);
            assert(!frac_le(timed[i + 1].1.bar@, a));
            assert(frac_le(a, next_bar));
            assert(is_canonical(next_bar));
            lemma_entry_sum_le(ti, ei, a, next_bar);
            lemma_state_le(events, i + 2, n);
            lemma_advance_is_entry_sum(ti, ei, next_bar);
            let t_next = state_time(events, i + 2);
            assert(t_next == spec_limit_denominator(entry_sum(ti, ei, next_bar), limit)->0);
            lemma_limit_denominator_monotone(entry_sum(ti, ei, a), entry_sum(ti, ei, next_bar), limit);
            lemma_state_le(events, j + 1, n);
            lemma_state_le(events, i + 2, j + 1);
            assert(rb == j);
            assert(frac_le(ej.bar@, b));
            lemma_entry_sum_at_entry(tj, ej);
            lemma_entry_sum_le(tj, ej, ej.bar@, b);
            lemma_limit_denominator_monotone(tj, entry_sum(tj, ej, b), limit);
            lemma_limit_denominator_result(entry_sum(ti, ei, a), limit);
            lemma_limit_denominator_result(entry_sum(tj, ej, b), limit);
            lemma_state_facts(events, i + 2);
            let ta = time_at_bar(events, a)->0;
            let tb = time_at_bar(events, b)->0;
            lemma_frac_le_trans(ta, t_next, tj);
            lemma_frac_le_trans(ta, tj, tb);
        }
    }
}

} // verus!
