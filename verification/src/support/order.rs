//! Stable sorting: each element goes after every element that it does not
//! sort before, so elements that tie keep the order they came in, as with
//! `slice::sort_by`.

use vstd::prelude::*;
use super::{TicketEvent, TicketEventView, events_view};
use super::text::{text_less, text_before, lemma_text_less_asymmetric, lemma_text_less_transitive, lemma_text_less_total};

verus! {

broadcast use vstd::seq_lib::group_to_multiset_ensures;

/// Where a stable insertion puts `x` into `s`: after the last element that
/// `x` does not sort before.
pub open spec fn insert_position<T>(s: Seq<T>, x: T, before: spec_fn(T, T) -> bool) -> int
    decreases s.len(),
{
    if s.len() > 0 && before(x, s.last()) {
        insert_position(s.drop_last(), x, before)
    } else {
        s.len() as int
    }
}

/// `s` with `x` inserted where a stable insertion puts it.
pub open spec fn insert_stable<T>(s: Seq<T>, x: T, before: spec_fn(T, T) -> bool) -> Seq<T> {
    s.insert(insert_position(s, x, before), x)
}

/// `s` sorted stably by `before`: each element in turn is inserted after the
/// elements already placed that it does not sort before.
pub open spec fn sort_stable<T>(s: Seq<T>, before: spec_fn(T, T) -> bool) -> Seq<T>
    decreases s.len(),
{
    if s.len() == 0 {
        s
    } else {
        insert_stable(sort_stable(s.drop_last(), before), s.last(), before)
    }
}

/// No element of `s` sorts before an element that comes earlier.
pub open spec fn sorted_by<T>(s: Seq<T>, before: spec_fn(T, T) -> bool) -> bool {
    forall|i: int, j: int| 0 <= i < j < s.len() ==> !before(#[trigger] s[j], #[trigger] s[i])
}

/// `before` is a strict weak order: asymmetric, and "does not sort after"
/// is transitive.
pub open spec fn strict_weak_order<T>(before: spec_fn(T, T) -> bool) -> bool {
    &&& forall|a: T, b: T| #[trigger] before(a, b) ==> !before(b, a)
    &&& forall|a: T, b: T, c: T|
        #![trigger before(b, a), before(c, b)]
        !before(b, a) && !before(c, b) ==> !before(c, a)
}

/// Where the insertion position lies.
pub proof fn lemma_insert_position<T>(s: Seq<T>, x: T, before: spec_fn(T, T) -> bool)
    ensures
        0 <= insert_position(s, x, before) <= s.len(),
        forall|k: int| insert_position(s, x, before) <= k < s.len() ==> before(x, #[trigger] s[k]),
        insert_position(s, x, before) > 0 ==> !before(x, s[insert_position(s, x, before) - 1]),
    decreases s.len(),
{
    if s.len() > 0 && before(x, s.last()) {
        let t = s.drop_last();
        lemma_insert_position(t, x, before);
        assert forall|k: int| insert_position(s, x, before) <= k < s.len() implies before(x, #[trigger] s[k]) by {
            if k < s.len() - 1 {
                assert(s[k] == t[k]);
            }
        }
    }
}

/// A stable insertion into a sorted sequence keeps it sorted.
pub proof fn lemma_insert_sorted<T>(s: Seq<T>, x: T, before: spec_fn(T, T) -> bool)
    requires
        sorted_by(s, before),
        strict_weak_order(before),
    ensures
        sorted_by(insert_stable(s, x, before), before),
{
    lemma_insert_position(s, x, before);
    let p = insert_position(s, x, before);
    let r = insert_stable(s, x, before);
    assert forall|i: int, j: int| 0 <= i < j < r.len() implies !before(#[trigger] r[j], #[trigger] r[i]) by {
        if j < p {
            assert(r[i] == s[i] && r[j] == s[j]);
        } else if j == p {
            assert(r[i] == s[i]);
            assert(r[j] == x);
            if i < p - 1 {
                assert(!before(s[p - 1], s[i]));
            }
        } else if i < p {
            assert(r[i] == s[i]);
            assert(r[j] == s[j - 1]);
        } else if i == p {
            assert(r[i] == x);
            assert(r[j] == s[j - 1]);
            assert(before(x, s[p]));
            if j - 1 > p {
                assert(!before(s[j - 1], s[p]));
            }
        } else {
            assert(r[i] == s[i - 1] && r[j] == s[j - 1]);
        }
    }
}

/// A stable sort gives a sorted sequence.
pub proof fn lemma_sort_sorted<T>(s: Seq<T>, before: spec_fn(T, T) -> bool)
    requires
        strict_weak_order(before),
    ensures
        sorted_by(sort_stable(s, before), before),
    decreases s.len(),
{
    if s.len() > 0 {
        lemma_sort_sorted(s.drop_last(), before);
        lemma_insert_sorted(sort_stable(s.drop_last(), before), s.last(), before);
    }
}

/// A stable sort keeps exactly the elements it was given.
pub proof fn lemma_sort_permutes<T>(s: Seq<T>, before: spec_fn(T, T) -> bool)
    ensures
        sort_stable(s, before).to_multiset() == s.to_multiset(),
        sort_stable(s, before).len() == s.len(),
    decreases s.len(),
{
    if s.len() > 0 {
        let t = sort_stable(s.drop_last(), before);
        lemma_sort_permutes(s.drop_last(), before);
        lemma_insert_position(t, s.last(), before);
        vstd::seq_lib::to_multiset_insert(t, insert_position(t, s.last(), before), s.last());
        vstd::seq_lib::to_multiset_build(s.drop_last(), s.last());
        assert(s.drop_last().push(s.last()) =~= s);
    }
}

/// Events ordered by the text of their time.
pub open spec fn event_before() -> spec_fn(TicketEventView, TicketEventView) -> bool {
    |a: TicketEventView, b: TicketEventView| text_less(a.at, b.at)
}

/// Ordering events by the text of their time is a strict weak order.
pub proof fn lemma_event_order()
    ensures
        strict_weak_order(event_before()),
{
    let before = event_before();
    assert forall|a: TicketEventView, b: TicketEventView| #[trigger] before(a, b) implies !before(b, a) by {
        lemma_text_less_asymmetric(a.at, b.at);
    }
    assert forall|a: TicketEventView, b: TicketEventView, c: TicketEventView|
        #![trigger before(b, a), before(c, b)]
        !before(b, a) && !before(c, b) implies !before(c, a) by {
        lemma_text_less_total(a.at, b.at);
        lemma_text_less_total(b.at, c.at);
        if text_less(c.at, a.at) {
            if a.at == b.at {
                assert(text_less(c.at, b.at));
            } else if b.at == c.at {
                assert(text_less(b.at, a.at));
            } else {
                lemma_text_less_transitive(a.at, b.at, c.at);
                lemma_text_less_transitive(c.at, a.at, b.at);
                lemma_text_less_asymmetric(c.at, b.at);
            }
        }
    }
}

/// The elements that tie with `x`: neither sorts before the other.
pub open spec fn ties_with<T>(before: spec_fn(T, T) -> bool, x: T) -> spec_fn(T) -> bool {
    |y: T| !before(x, y) && !before(y, x)
}

/// Filtering a sequence with an element inserted at `pos`: the part before
/// `pos`, the element if it passes, then the part from `pos` on.
proof fn lemma_filter_insert<T>(t: Seq<T>, pos: int, y: T, p: spec_fn(T) -> bool)
    requires
        0 <= pos <= t.len(),
    ensures
        t.insert(pos, y).filter(p) == t.take(pos).filter(p) + (if p(y) {
            seq![y]
        } else {
            Seq::<T>::empty()
        }) + t.skip(pos).filter(p),
        t.filter(p) == t.take(pos).filter(p) + t.skip(pos).filter(p),
{
    let head = t.take(pos);
    let tail = t.skip(pos);
    assert(t.insert(pos, y) =~= head + (seq![y] + tail));
    assert(t =~= head + tail);
    Seq::filter_distributes_over_add(head, seq![y] + tail, p);
    Seq::filter_distributes_over_add(seq![y], tail, p);
    Seq::filter_distributes_over_add(head, tail, p);
    assert(seq![y] =~= Seq::<T>::empty().push(y));
    Seq::<T>::empty().lemma_filter_push(y, p);
    assert(Seq::<T>::empty().filter(p) =~= Seq::<T>::empty()) by {
        reveal(Seq::filter);
    }
    assert(head.filter(p) + (seq![y].filter(p) + tail.filter(p)) =~= head.filter(p) + seq![y].filter(p)
        + tail.filter(p));
}

/// A stable sort keeps ties in the order they came in: for every `x`, the
/// elements that tie with `x` come out in the order they had in `s`.
pub proof fn lemma_sort_keeps_ties<T>(s: Seq<T>, before: spec_fn(T, T) -> bool, x: T)
    requires
        strict_weak_order(before),
    ensures
        sort_stable(s, before).filter(ties_with(before, x)) == s.filter(ties_with(before, x)),
    decreases s.len(),
{
    if s.len() > 0 {
        let p = ties_with(before, x);
        let r = s.drop_last();
        let last = s.last();
        lemma_sort_keeps_ties(r, before, x);
        let t = sort_stable(r, before);
        lemma_insert_position(t, last, before);
        let pos = insert_position(t, last, before);
        let tail = t.skip(pos);
        assert(s =~= r.push(last));
        r.lemma_filter_push(last, p);
        lemma_filter_insert(t, pos, last, p);
        if p(last) {
            assert(tail.filter(p) =~= Seq::<T>::empty()) by {
                assert forall|k: int| 0 <= k < tail.len() implies !p(#[trigger] tail[k]) by {
                    assert(tail[k] == t[pos + k]);
                    assert(before(last, t[pos + k]));
                }
                tail.lemma_all_neg_filter_empty(p);
            }
            assert(t.take(pos).filter(p) + seq![last] + Seq::<T>::empty() =~= t.take(pos).filter(p).push(last));
            assert(t.take(pos).filter(p) + Seq::<T>::empty() =~= t.take(pos).filter(p));
        } else {
            assert(t.take(pos).filter(p) + Seq::<T>::empty() =~= t.take(pos).filter(p));
        }
    }
}

/// The events that happen at time `a`.
pub open spec fn at_time(a: Seq<char>) -> spec_fn(TicketEventView) -> bool {
    |e: TicketEventView| e.at == a
}

/// Sorting events by time keeps the events of each time in the order they
/// came in.
pub proof fn lemma_events_keep_ties(s: Seq<TicketEventView>, a: Seq<char>)
    ensures
        sort_stable(s, event_before()).filter(at_time(a)) == s.filter(at_time(a)),
{
    lemma_event_order();
    let x = TicketEventView { kind: a, at: a, actor: None, body: None, visibility: a };
    assert(ties_with(event_before(), x) =~= at_time(a)) by {
        assert forall|e: TicketEventView| #[trigger] ties_with(event_before(), x)(e) == at_time(a)(e) by {
            lemma_text_less_total(a, e.at);
            lemma_text_less_asymmetric(a, e.at);
        }
    }
    lemma_sort_keeps_ties(s, event_before(), x);
}

/// Inserts `e` into `v` where a stable sort by time puts it.
fn insert_event(v: &mut Vec<TicketEvent>, e: TicketEvent)
    ensures
        events_view(final(v)@) == insert_stable(events_view(old(v)@), e@, event_before()),
{
    let ghost s = events_view(v@);
    let mut j: usize = v.len();
    assert(s.take(j as int) =~= s);
    while j > 0 && text_before(e.at.as_str(), v[j - 1].at.as_str())
        invariant
            j <= v@.len(),
            s == events_view(v@),
            insert_position(s.take(j as int), e@, event_before()) == insert_position(s, e@, event_before()),
        decreases j,
    {
        proof {
            assert(s.take(j as int).drop_last() =~= s.take(j - 1));
            assert(s.take(j as int).last() == s[j - 1]);
        }
        j = j - 1;
    }
    proof {
        if j > 0 {
            assert(s.take(j as int).last() == s[j - 1]);
        }
    }
    v.insert(j, e);
    proof {
        assert(events_view(v@) =~= s.insert(j as int, e@));
    }
}

/// The events sorted stably by the text of their time, as
/// `sort_by(|l, r| l.at.cmp(&r.at))` sorts them.
pub fn sort_events_by_time(events: &Vec<TicketEvent>) -> (r: Vec<TicketEvent>)
    ensures
        events_view(r@) == sort_stable(events_view(events@), event_before()),
{
    let ghost s = events_view(events@);
    let mut r: Vec<TicketEvent> = Vec::new();
    assert(s.take(0).len() == 0);
    for i in 0..events.len()
        invariant
            s == events_view(events@),
            events_view(r@) == sort_stable(s.take(i as int), event_before()),
    {
        proof {
            assert(s.take(i + 1).drop_last() =~= s.take(i as int));
            assert(s.take(i + 1).last() == s[i as int]);
        }
        let e = events[i].duplicate();
        insert_event(&mut r, e);
    }
    assert(s.take(events.len() as int) =~= s);
    r
}

} // verus!
