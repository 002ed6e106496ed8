//! Stable insertion order, the order `slice::sort_by` leaves equal keys in.
use vstd::prelude::*;

verus! {

/// `t` with `x` inserted before the first element that `x` must precede.
pub open spec fn insert_stable<T>(x: T, t: Seq<T>, before: spec_fn(T, T) -> bool) -> Seq<T>
    decreases t.len(),
{
    if t.len() == 0 {
        seq![x]
    } else if before(x, t[0]) {
        seq![x] + t
    } else {
        seq![t[0]] + insert_stable(x, t.drop_first(), before)
    }
}

/// The stable sort of `s` under the strict order `before`: elements that
/// neither precedes keep their relative order.
pub open spec fn sort_stable<T>(s: Seq<T>, before: spec_fn(T, T) -> bool) -> Seq<T>
    decreases s.len(),
{
    if s.len() == 0 {
        seq![]
    } else {
        insert_stable(s.last(), sort_stable(s.drop_last(), before), before)
    }
}

/// Inserting at the first element that `x` precedes.
pub proof fn lemma_insert_stable_at<T>(x: T, t: Seq<T>, before: spec_fn(T, T) -> bool, k: int)
    requires
        0 <= k <= t.len(),
        forall|j: int| 0 <= j < k ==> !before(x, #[trigger] t[j]),
        k < t.len() ==> before(x, t[k]),
    ensures
        insert_stable(x, t, before) == t.subrange(0, k) + seq![x] + t.subrange(k, t.len() as int),
    decreases t.len(),
{
    if t.len() == 0 {
        assert(t.subrange(0, k) + seq![x] + t.subrange(k, t.len() as int) =~= seq![x]);
    } else if k == 0 {
        assert(t.subrange(0, k) + seq![x] + t.subrange(k, t.len() as int) =~= seq![x] + t);
    } else {
        let u = t.drop_first();
        assert forall|j: int| 0 <= j < k - 1 implies !before(x, #[trigger] u[j]) by {
            assert(u[j] == t[j + 1]);
        }
        if k - 1 < u.len() {
            assert(u[k - 1] == t[k]);
        }
        lemma_insert_stable_at(x, u, before, k - 1);
        assert(seq![t[0]] + (u.subrange(0, k - 1) + seq![x] + u.subrange(k - 1, u.len() as int))
            =~= t.subrange(0, k) + seq![x] + t.subrange(k, t.len() as int));
    }
}

/// One step of the sort: the sort of a prefix one longer.
pub proof fn lemma_sort_stable_step<T>(s: Seq<T>, i: int, before: spec_fn(T, T) -> bool)
    requires
        0 <= i < s.len(),
    ensures
        sort_stable(s.subrange(0, i + 1), before) == insert_stable(
            s[i],
            sort_stable(s.subrange(0, i), before),
            before,
        ),
{
    assert(s.subrange(0, i + 1).drop_last() =~= s.subrange(0, i));
}

/// The sort keeps the length.
pub proof fn lemma_sort_stable_len<T>(s: Seq<T>, before: spec_fn(T, T) -> bool)
    ensures
        sort_stable(s, before).len() == s.len(),
    decreases s.len(),
{
    if s.len() > 0 {
        lemma_sort_stable_len(s.drop_last(), before);
        lemma_insert_stable_len(s.last(), sort_stable(s.drop_last(), before), before);
    }
}

/// Insertion adds one element.
pub proof fn lemma_insert_stable_len<T>(x: T, t: Seq<T>, before: spec_fn(T, T) -> bool)
    ensures
        insert_stable(x, t, before).len() == t.len() + 1,
    decreases t.len(),
{
    if t.len() > 0 && !before(x, t[0]) {
        lemma_insert_stable_len(x, t.drop_first(), before);
    }
}

/// Every element of an insertion is `x` or an element of `t`.
pub proof fn lemma_insert_stable_elements<T>(x: T, t: Seq<T>, before: spec_fn(T, T) -> bool)
    ensures
        forall|k: int|
            0 <= k < insert_stable(x, t, before).len() ==> insert_stable(x, t, before)[k] == x
                || t.contains(#[trigger] insert_stable(x, t, before)[k]),
    decreases t.len(),
{
    lemma_insert_stable_len(x, t, before);
    if t.len() == 0 {
    } else if before(x, t[0]) {
        assert forall|k: int| 0 <= k < insert_stable(x, t, before).len() implies insert_stable(
            x,
            t,
            before,
        )[k] == x || t.contains(#[trigger] insert_stable(x, t, before)[k]) by {
            if k > 0 {
                assert((seq![x] + t)[k] == t[k - 1]);
            }
        }
    } else {
        let u = t.drop_first();
        lemma_insert_stable_elements(x, u, before);
        let r = insert_stable(x, u, before);
        assert forall|k: int| 0 <= k < insert_stable(x, t, before).len() implies insert_stable(
            x,
            t,
            before,
        )[k] == x || t.contains(#[trigger] insert_stable(x, t, before)[k]) by {
            if k == 0 {
                assert((seq![t[0]] + r)[0] == t[0]);
            } else {
                let y = r[k - 1];
                assert((seq![t[0]] + r)[k] == y);
                if y != x {
                    assert(u.contains(y));
                    let j = choose|j: int| 0 <= j < u.len() && u[j] == y;
                    assert(t[j + 1] == y);
                }
            }
        }
    }
}

/// Every element of the sort is an element of its input.
pub proof fn lemma_sort_stable_elements<T>(s: Seq<T>, before: spec_fn(T, T) -> bool)
    ensures
        forall|k: int|
            0 <= k < sort_stable(s, before).len() ==> s.contains(#[trigger] sort_stable(s, before)[k]),
    decreases s.len(),
{
    if s.len() > 0 {
        let p = s.drop_last();
        lemma_sort_stable_elements(p, before);
        lemma_insert_stable_elements(s.last(), sort_stable(p, before), before);
        assert forall|k: int| 0 <= k < sort_stable(s, before).len() implies s.contains(
            #[trigger] sort_stable(s, before)[k],
        ) by {
            let y = sort_stable(s, before)[k];
            if y == s.last() {
                assert(s[s.len() - 1] == y);
            } else {
                assert(sort_stable(p, before).contains(y));
                let j = choose|j: int|
                    0 <= j < sort_stable(p, before).len() && sort_stable(p, before)[j] == y;
                assert(p.contains(sort_stable(p, before)[j]));
                let i = choose|i: int| 0 <= i < p.len() && p[i] == y;
                assert(s[i] == y);
            }
        }
    }
}

/// No element of `s` must precede an earlier one.
pub open spec fn sorted_by<T>(s: Seq<T>, before: spec_fn(T, T) -> bool) -> bool {
    forall|i: int, j: int| 0 <= i < j < s.len() ==> !before(#[trigger] s[j], #[trigger] s[i])
}

/// `before` is a strict order on the values that `valid` admits.
pub open spec fn strict_order_on<T>(before: spec_fn(T, T) -> bool, valid: spec_fn(T) -> bool) -> bool {
    &&& forall|a: T, b: T| valid(a) && valid(b) && #[trigger] before(a, b) ==> !before(b, a)
    &&& forall|a: T, b: T, c: T|
        valid(a) && valid(b) && valid(c) && #[trigger] before(a, b) && #[trigger] before(b, c)
            ==> before(a, c)
}

/// Every element of `s` is admitted by `valid`.
pub open spec fn all_valid<T>(s: Seq<T>, valid: spec_fn(T) -> bool) -> bool {
    forall|i: int| 0 <= i < s.len() ==> valid(#[trigger] s[i])
}

/// Inserting into a sorted sequence keeps it sorted.
pub proof fn lemma_insert_stable_sorted<T>(
    x: T,
    t: Seq<T>,
    before: spec_fn(T, T) -> bool,
    valid: spec_fn(T) -> bool,
)
    requires
        sorted_by(t, before),
        strict_order_on(before, valid),
        valid(x),
        all_valid(t, valid),
    ensures
        sorted_by(insert_stable(x, t, before), before),
    decreases t.len(),
{
    if t.len() == 0 {
    } else if before(x, t[0]) {
        let r = seq![x] + t;
        assert forall|i: int, j: int| 0 <= i < j < r.len() implies !before(
            #[trigger] r[j],
            #[trigger] r[i],
        ) by {
            if i == 0 {
                assert(r[j] == t[j - 1]);
                assert(valid(t[j - 1]));
                assert(valid(t[0]));
                if before(t[j - 1], x) {
                    if j - 1 == 0 {
                        assert(!before(x, t[0]));
                    } else {
                        assert(before(t[j - 1], t[0]));
                        assert(!before(t[j - 1], t[0]));
                    }
                }
            } else {
                assert(r[i] == t[i - 1]);
                assert(r[j] == t[j - 1]);
            }
        }
    } else {
        let u = t.drop_first();
        assert(sorted_by(u, before)) by {
            assert forall|i: int, j: int| 0 <= i < j < u.len() implies !before(
                #[trigger] u[j],
                #[trigger] u[i],
            ) by {
                assert(u[i] == t[i + 1]);
                assert(u[j] == t[j + 1]);
            }
        }
        assert(all_valid(u, valid)) by {
            assert forall|i: int| 0 <= i < u.len() implies valid(#[trigger] u[i]) by {
                assert(u[i] == t[i + 1]);
            }
        }
        lemma_insert_stable_sorted(x, u, before, valid);
        lemma_insert_stable_elements(x, u, before);
        lemma_insert_stable_len(x, u, before);
        let ins = insert_stable(x, u, before);
        let r = seq![t[0]] + ins;
        assert(insert_stable(x, t, before) == r);
        assert forall|i: int, j: int| 0 <= i < j < r.len() implies !before(
            #[trigger] r[j],
            #[trigger] r[i],
        ) by {
            if i == 0 {
                let y = ins[j - 1];
                assert(r[j] == y);
                if y != x {
                    assert(u.contains(y));
                    let m = choose|m: int| 0 <= m < u.len() && u[m] == y;
                    assert(t[m + 1] == y);
                }
            } else {
                assert(r[i] == ins[i - 1]);
                assert(r[j] == ins[j - 1]);
            }
        }
    }
}

/// The stable sort is sorted.
pub proof fn lemma_sort_stable_sorted<T>(
    s: Seq<T>,
    before: spec_fn(T, T) -> bool,
    valid: spec_fn(T) -> bool,
)
    requires
        strict_order_on(before, valid),
        all_valid(s, valid),
    ensures
        sorted_by(sort_stable(s, before), before),
        all_valid(sort_stable(s, before), valid),
    decreases s.len(),
{
    if s.len() > 0 {
        let p = s.drop_last();
        assert(all_valid(p, valid)) by {
            assert forall|i: int| 0 <= i < p.len() implies valid(#[trigger] p[i]) by {
                assert(p[i] == s[i]);
            }
        }
        lemma_sort_stable_sorted(p, before, valid);
        assert(valid(s.last()));
        lemma_insert_stable_sorted(s.last(), sort_stable(p, before), before, valid);
        lemma_sort_stable_elements(s, before);
        assert forall|i: int| 0 <= i < sort_stable(s, before).len() implies valid(
            #[trigger] sort_stable(s, before)[i],
        ) by {
            let y = sort_stable(s, before)[i];
            assert(s.contains(y));
            let m = choose|m: int| 0 <= m < s.len() && s[m] == y;
            assert(valid(s[m]));
        }
    }
}

} // verus!
