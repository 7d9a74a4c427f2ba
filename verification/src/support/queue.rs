//! What a human looks at: the queue, ordered by how close each ticket is to
//! breaching, and the timeline of one ticket.

use vstd::prelude::*;
use super::{
    MilestoneState, QueueEntry, QueueEntryView, SlaPolicy, SupportError, Ticket, TicketEvent,
    TicketEventView, TicketPriority, TicketSlaView, TicketView, copy_text_option, events_view,
    is_done, priority_rank, status_is_done,
};
use super::dates::Timestamp;
use super::normalize::{normalize_outcome, normalize_ticket};
use super::order::{
    at_time, event_before, insert_position, lemma_events_keep_ties, lemma_sort_keeps_ties, ties_with, insert_stable, lemma_event_order, lemma_sort_permutes,
    lemma_sort_sorted, sort_events_by_time, sort_stable, sorted_by,
};
use super::sla::{compute_sla, sla_outcome};
use super::text::{
    lemma_text_less_asymmetric, lemma_text_less_total, lemma_text_less_transitive, text_before,
    text_equal, text_less,
};

verus! {

/// The lower-case name of a priority.
pub open spec fn priority_text(p: TicketPriority) -> Seq<char> {
    match p {
        TicketPriority::Low => "low"@,
        TicketPriority::Normal => "normal"@,
        TicketPriority::High => "high"@,
        TicketPriority::Urgent => "urgent"@,
    }
}

/// The lower-case name of a priority.
pub fn priority_name(priority: TicketPriority) -> (r: &'static str)
    ensures
        r@ == priority_text(priority),
{
    match priority {
        TicketPriority::Low => "low",
        TicketPriority::Normal => "normal",
        TicketPriority::High => "high",
        TicketPriority::Urgent => "urgent",
    }
}

/// The event that opens every timeline: the ticket's creation, public, by
/// its requester, with its subject as body.
pub open spec fn created_event(t: TicketView) -> TicketEventView {
    TicketEventView {
        kind: "created"@,
        at: t.created_at,
        actor: t.requester_id,
        body: t.subject,
        visibility: "public"@,
    }
}

/// The timeline of a ticket: its creation and its events, sorted stably by
/// the text of their time.
pub open spec fn timeline_spec(t: TicketView) -> Seq<TicketEventView> {
    sort_stable(seq![created_event(t)] + t.events, event_before())
}

/// The timeline of a ticket: see `timeline_spec`.
pub fn build_timeline(ticket: &Ticket) -> (r: Vec<TicketEvent>)
    ensures
        events_view(r@) == timeline_spec(ticket@),
{
    let mut timeline: Vec<TicketEvent> = Vec::new();
    timeline.push(
        TicketEvent {
            kind: "created".to_owned(),
            at: ticket.created_at.clone(),
            actor: copy_text_option(&ticket.requester_id),
            body: copy_text_option(&ticket.subject),
            visibility: "public".to_owned(),
        },
    );
    let ghost es = events_view(ticket.events@);
    for i in 0..ticket.events.len()
        invariant
            es == events_view(ticket.events@),
            events_view(timeline@) == seq![created_event(ticket@)] + es.take(i as int),
    {
        let ghost prev = events_view(timeline@);
        let e = ticket.events[i].duplicate();
        timeline.push(e);
        assert(es.take(i + 1) =~= es.take(i as int).push(es[i as int]));
        assert(events_view(timeline@) =~= prev.push(es[i as int]));
    }
    assert(es.take(ticket.events.len() as int) =~= es);
    sort_events_by_time(&timeline)
}

/// Whether queue line `a` comes before line `b`: breached lines first, then
/// higher priority, then the earlier next deadline, then the earlier
/// creation time, then the smaller id (texts compared as `String`s).
pub open spec fn entry_precedes(a: QueueEntryView, b: QueueEntryView) -> bool {
    if a.breached != b.breached {
        a.breached
    } else if priority_rank(a.ticket.priority) != priority_rank(b.ticket.priority) {
        priority_rank(a.ticket.priority) > priority_rank(b.ticket.priority)
    } else if a.next_deadline != b.next_deadline {
        text_less(a.next_deadline, b.next_deadline)
    } else if a.ticket.created_at != b.ticket.created_at {
        text_less(a.ticket.created_at, b.ticket.created_at)
    } else {
        text_less(a.ticket.id, b.ticket.id)
    }
}

/// The order of the queue.
pub open spec fn entry_before() -> spec_fn(QueueEntryView, QueueEntryView) -> bool {
    |a: QueueEntryView, b: QueueEntryView| entry_precedes(a, b)
}

proof fn lemma_texts(x: Seq<char>, y: Seq<char>, z: Seq<char>)
    ensures
        !(text_less(x, y) && text_less(y, x)),
        x == y || text_less(x, y) || text_less(y, x),
        text_less(x, y) && text_less(y, z) ==> text_less(x, z),
        x == z || text_less(x, z) || text_less(z, x),
        y == z || text_less(y, z) || text_less(z, y),
        !(text_less(y, z) && text_less(z, y)),
        !(text_less(x, z) && text_less(z, x)),
{
    lemma_text_less_asymmetric(x, y);
    lemma_text_less_asymmetric(y, z);
    lemma_text_less_asymmetric(x, z);
    lemma_text_less_total(x, y);
    lemma_text_less_total(y, z);
    lemma_text_less_total(x, z);
    if text_less(x, y) && text_less(y, z) {
        lemma_text_less_transitive(x, y, z);
    }
}

/// The order of the queue is a strict weak order.
pub proof fn lemma_entry_order()
    ensures
        super::order::strict_weak_order(entry_before()),
{
    let before = entry_before();
    assert forall|a: QueueEntryView, b: QueueEntryView| #[trigger] before(a, b) implies !before(b, a) by {
        lemma_texts(a.next_deadline, b.next_deadline, a.next_deadline);
        lemma_texts(a.ticket.created_at, b.ticket.created_at, a.ticket.created_at);
        lemma_texts(a.ticket.id, b.ticket.id, a.ticket.id);
    }
    assert forall|a: QueueEntryView, b: QueueEntryView, c: QueueEntryView|
        #![trigger before(b, a), before(c, b)]
        !before(b, a) && !before(c, b) implies !before(c, a) by {
        lemma_texts(a.next_deadline, b.next_deadline, c.next_deadline);
        lemma_texts(b.next_deadline, c.next_deadline, a.next_deadline);
        lemma_texts(c.next_deadline, a.next_deadline, b.next_deadline);
        lemma_texts(a.ticket.created_at, b.ticket.created_at, c.ticket.created_at);
        lemma_texts(b.ticket.created_at, c.ticket.created_at, a.ticket.created_at);
        lemma_texts(c.ticket.created_at, a.ticket.created_at, b.ticket.created_at);
        lemma_texts(a.ticket.id, b.ticket.id, c.ticket.id);
        lemma_texts(b.ticket.id, c.ticket.id, a.ticket.id);
        lemma_texts(c.ticket.id, a.ticket.id, b.ticket.id);
    }
}

fn priority_level(p: TicketPriority) -> (r: u8)
    ensures
        r as int == priority_rank(p),
{
    match p {
        TicketPriority::Low => 0,
        TicketPriority::Normal => 1,
        TicketPriority::High => 2,
        TicketPriority::Urgent => 3,
    }
}

/// Whether queue line `a` comes before line `b`.
fn precedes(a: &QueueEntry, b: &QueueEntry) -> (r: bool)
    ensures
        r == entry_precedes(a@, b@),
{
    if a.breached != b.breached {
        return a.breached;
    }
    let pa = priority_level(a.ticket.priority);
    let pb = priority_level(b.ticket.priority);
    if pa != pb {
        return pa > pb;
    }
    if !text_equal(a.next_deadline.as_str(), b.next_deadline.as_str()) {
        return text_before(a.next_deadline.as_str(), b.next_deadline.as_str());
    }
    if !text_equal(a.ticket.created_at.as_str(), b.ticket.created_at.as_str()) {
        return text_before(a.ticket.created_at.as_str(), b.ticket.created_at.as_str());
    }
    text_before(a.ticket.id.as_str(), b.ticket.id.as_str())
}

/// The views of queue lines.
pub open spec fn entries_view(v: Seq<QueueEntry>) -> Seq<QueueEntryView> {
    v.map_values(|e: QueueEntry| e@)
}

/// Inserts a line where a stable sort by the queue's order puts it.
fn insert_entry(v: &mut Vec<QueueEntry>, e: QueueEntry)
    ensures
        entries_view(final(v)@) == insert_stable(entries_view(old(v)@), e@, entry_before()),
{
    let ghost s = entries_view(v@);
    let mut j: usize = v.len();
    assert(s.take(j as int) =~= s);
    while j > 0 && precedes(&e, &v[j - 1])
        invariant
            j <= v@.len(),
            s == entries_view(v@),
            insert_position(s.take(j as int), e@, entry_before()) == insert_position(s, e@, entry_before()),
        decreases j,
    {
        proof {
            assert(s.take(j as int).drop_last() =~= s.take(j - 1));
            assert(s.take(j as int).last() == s[j - 1]);
        }
        j = j - 1;
    }
    proof {
        if j > 0 {
            assert(s.take(j as int).last() == s[j - 1]);
        }
    }
    v.insert(j, e);
    proof {
        assert(entries_view(v@) =~= s.insert(j as int, e@));
    }
}

/// The queue line of a normalized ticket and its SLA: breached if either
/// milestone is; the next deadline is the first response's while it has not
/// happened, then the resolution's.
pub open spec fn entry_spec(t: TicketView, s: TicketSlaView) -> QueueEntryView {
    QueueEntryView {
        ticket: t,
        sla: s,
        breached: s.first_response.state == MilestoneState::Breached || s.resolution.state
            == MilestoneState::Breached,
        next_deadline: if s.first_response.completed_at is None {
            s.first_response.due_at
        } else {
            s.resolution.due_at
        },
    }
}

/// What one input ticket adds to the queue: nothing if it is resolved or
/// closed and those are left out, else its line; or the error of
/// normalizing it or of computing its SLA.
#[verifier::opaque]
pub open spec fn entry_outcome(
    input: TicketView,
    policy: SlaPolicy,
    at: (i64, u32),
    include_resolved: bool,
) -> Result<Option<QueueEntryView>, SupportError> {
    match normalize_outcome(input) {
        Err(e) => Err(e),
        Ok(t) => if !include_resolved && is_done(t.status) {
            Ok(None)
        } else {
            match sla_outcome(t, policy, at) {
                Err(e) => Err(e),
                Ok(s) => Ok(Some(entry_spec(t, s))),
            }
        },
    }
}

/// The lines of the input tickets, in input order; the first error if any.
pub open spec fn entries_outcome(
    inputs: Seq<TicketView>,
    policy: SlaPolicy,
    at: (i64, u32),
    include_resolved: bool,
) -> Result<Seq<QueueEntryView>, SupportError>
    decreases inputs.len(),
{
    if inputs.len() == 0 {
        Ok(Seq::empty())
    } else {
        match entries_outcome(inputs.drop_last(), policy, at, include_resolved) {
            Err(e) => Err(e),
            Ok(prev) => match entry_outcome(inputs.last(), policy, at, include_resolved) {
                Err(e) => Err(e),
                Ok(None) => Ok(prev),
                Ok(Some(x)) => Ok(prev.push(x)),
            },
        }
    }
}

/// The queue: the lines of the input tickets sorted stably by the queue's
/// order; the first error if any.
pub open spec fn queue_outcome(
    inputs: Seq<TicketView>,
    policy: SlaPolicy,
    at: (i64, u32),
    include_resolved: bool,
) -> Result<Seq<QueueEntryView>, SupportError> {
    match entries_outcome(inputs, policy, at, include_resolved) {
        Err(e) => Err(e),
        Ok(es) => Ok(sort_stable(es, entry_before())),
    }
}

proof fn lemma_entries_error_prefix(
    inputs: Seq<TicketView>,
    policy: SlaPolicy,
    at: (i64, u32),
    include_resolved: bool,
    k: int,
)
    requires
        0 <= k <= inputs.len(),
        entries_outcome(inputs.take(k), policy, at, include_resolved) is Err,
    ensures
        entries_outcome(inputs, policy, at, include_resolved) == entries_outcome(
            inputs.take(k),
            policy,
            at,
            include_resolved,
        ),
    decreases inputs.len() - k,
{
    if k < inputs.len() {
        assert(inputs.take(k + 1).drop_last() =~= inputs.take(k));
        lemma_entries_error_prefix(inputs, policy, at, include_resolved, k + 1);
    } else {
        assert(inputs.take(k) =~= inputs);
    }
}

/// The views of tickets.
pub open spec fn tickets_view(v: Seq<Ticket>) -> Seq<TicketView> {
    v.map_values(|t: Ticket| t@)
}

/// The view of the result of building a queue.
pub open spec fn queue_result_view(r: Result<Vec<QueueEntry>, SupportError>) -> Result<
    Seq<QueueEntryView>,
    SupportError,
> {
    match r {
        Ok(v) => Ok(entries_view(v@)),
        Err(e) => Err(e),
    }
}

/// The queue of the given tickets at instant `at`: see `queue_outcome`.
pub fn build_queue(inputs: Vec<Ticket>, policy: &SlaPolicy, at: Timestamp, include_resolved: bool) -> (r: Result<
    Vec<QueueEntry>,
    SupportError,
>)
    ensures
        queue_result_view(r) == queue_outcome(tickets_view(inputs@), *policy, at@, include_resolved),
{
    reveal(entry_outcome);
    let ghost all = tickets_view(inputs@);
    let ghost mut kept: Seq<QueueEntryView> = Seq::empty();
    let mut queue: Vec<QueueEntry> = Vec::new();
    let n = inputs.len();
    assert(all.take(0) =~= Seq::<TicketView>::empty());
    assert(entries_view(queue@) =~= sort_stable(kept, entry_before()));
    for input in it: inputs
        invariant
            n == all.len(),
            it.seq() == inputs@,
            all == tickets_view(inputs@),
            it.index() <= n,
            entries_outcome(all.take(it.index() as int), *policy, at@, include_resolved) == Ok::<
                Seq<QueueEntryView>,
                SupportError,
            >(kept),
            entries_view(queue@) == sort_stable(kept, entry_before()),
    {
        let ghost i = it.index() as int;
        proof {
            reveal(entry_outcome);
            assert(all.take(i + 1).drop_last() =~= all.take(i));
            assert(all.take(i + 1).last() == all[i]);
            assert(input@ == all[i]);
        }
        let ticket = match normalize_ticket(input) {
            Ok(t) => t,
            Err(e) => {
                proof {
                    lemma_entries_error_prefix(all, *policy, at@, include_resolved, i + 1);
                }
                return Err(e);
            },
        };
        if include_resolved || !status_is_done(ticket.status) {
            let sla = match compute_sla(&ticket, policy, at) {
                Ok(s) => s,
                Err(e) => {
                    proof {
                        lemma_entries_error_prefix(all, *policy, at@, include_resolved, i + 1);
                    }
                    return Err(e);
                },
            };
            let breached = matches!(sla.first_response.state, MilestoneState::Breached)
                || matches!(sla.resolution.state, MilestoneState::Breached);
            let next_deadline = if sla.first_response.completed_at.is_none() {
                sla.first_response.due_at.clone()
            } else {
                sla.resolution.due_at.clone()
            };
            let entry = QueueEntry { ticket, sla, breached, next_deadline };
            let ghost ev = entry@;
            proof {
                assert(kept.push(ev).drop_last() =~= kept);
                assert(kept.push(ev).last() == ev);
            }
            insert_entry(&mut queue, entry);
            proof {
                kept = kept.push(ev);
            }
        }
    }
    assert(all.take(n as int) =~= all);
    Ok(queue)
}

/// The timeline is sorted by time, and it holds the creation and every
/// event of the ticket, nothing else.
pub proof fn lemma_timeline_sorted(t: TicketView)
    ensures
        sorted_by(timeline_spec(t), event_before()),
        timeline_spec(t).to_multiset() == (seq![created_event(t)] + t.events).to_multiset(),
        timeline_spec(t).len() == t.events.len() + 1,
{
    lemma_event_order();
    lemma_sort_sorted(seq![created_event(t)] + t.events, event_before());
    lemma_sort_permutes(seq![created_event(t)] + t.events, event_before());
}

/// The timeline is the ticket's events plus one event for its creation:
/// of kind `created`, at the ticket's creation time, by its requester, with
/// its subject as body, public. As a multiset it holds exactly these, one
/// more than the ticket has events, and it is sorted by time.
pub proof fn lemma_timeline_holds_creation(t: TicketView)
    ensures
        timeline_spec(t).to_multiset() == t.events.to_multiset().insert(
            (TicketEventView {
                kind: "created"@,
                at: t.created_at,
                actor: t.requester_id,
                body: t.subject,
                visibility: "public"@,
            }),
        ),
        timeline_spec(t).contains(
            (TicketEventView {
                kind: "created"@,
                at: t.created_at,
                actor: t.requester_id,
                body: t.subject,
                visibility: "public"@,
            }),
        ),
        timeline_spec(t).len() == t.events.len() + 1,
        forall|i: int, j: int|
            0 <= i < j < timeline_spec(t).len() ==> !text_less(
                #[trigger] timeline_spec(t)[j].at,
                #[trigger] timeline_spec(t)[i].at,
            ),
{
    let c = TicketEventView {
        kind: "created"@,
        at: t.created_at,
        actor: t.requester_id,
        body: t.subject,
        visibility: "public"@,
    };
    lemma_timeline_sorted(t);
    assert(created_event(t) == c);
    let all = seq![c] + t.events;
    assert(all =~= t.events.insert(0, c));
    vstd::seq_lib::to_multiset_insert(t.events, 0, c);
    assert(all.contains(c)) by {
        assert(all[0] == c);
    }
    vstd::seq_lib::to_multiset_contains(all, c);
    vstd::seq_lib::to_multiset_contains(timeline_spec(t), c);
    let q = timeline_spec(t);
    assert forall|i: int, j: int| 0 <= i < j < q.len() implies !text_less(
        #[trigger] q[j].at,
        #[trigger] q[i].at,
    ) by {
        assert(!event_before()(q[j], q[i]));
    }
}

/// Events of a timeline that happen at the same time keep the order they
/// came in: for every time `a`, the timeline's events at `a` are the
/// creation, if the ticket was created at `a`, followed by the ticket's own
/// events at `a` in their given order.
pub proof fn lemma_timeline_keeps_ties(t: TicketView, a: Seq<char>)
    ensures
        timeline_spec(t).filter(at_time(a)) == if t.created_at == a {
            seq![
                TicketEventView {
                    kind: "created"@,
                    at: t.created_at,
                    actor: t.requester_id,
                    body: t.subject,
                    visibility: "public"@,
                },
            ] + t.events.filter(at_time(a))
        } else {
            t.events.filter(at_time(a))
        },
{
    let c = created_event(t);
    let all = seq![c] + t.events;
    lemma_events_keep_ties(all, a);
    Seq::filter_distributes_over_add(seq![c], t.events, at_time(a));
    assert(seq![c] =~= Seq::<TicketEventView>::empty().push(c));
    Seq::<TicketEventView>::empty().lemma_filter_push(c, at_time(a));
    assert(Seq::<TicketEventView>::empty().filter(at_time(a)) =~= Seq::<TicketEventView>::empty()) by {
        reveal(Seq::filter);
    }
    if t.created_at != a {
        assert(Seq::<TicketEventView>::empty() + t.events.filter(at_time(a)) =~= t.events.filter(at_time(a)));
    }
}

/// What holds of every line of a queue: it is breached exactly when one of
/// its milestones is; its next deadline is the first response's until that
/// happened, then the resolution's; and, unless resolved tickets are asked
/// for, its ticket is neither resolved nor closed.
pub open spec fn line_holds(e: QueueEntryView, include_resolved: bool) -> bool {
    &&& e.breached == (e.sla.first_response.state == MilestoneState::Breached
        || e.sla.resolution.state == MilestoneState::Breached)
    &&& e.next_deadline == if e.sla.first_response.completed_at is None {
        e.sla.first_response.due_at
    } else {
        e.sla.resolution.due_at
    }
    &&& !include_resolved ==> !is_done(e.ticket.status)
}

proof fn lemma_entries_hold(
    inputs: Seq<TicketView>,
    policy: SlaPolicy,
    at: (i64, u32),
    include_resolved: bool,
)
    requires
        entries_outcome(inputs, policy, at, include_resolved) is Ok,
    ensures
        forall|i: int|
            0 <= i < entries_outcome(inputs, policy, at, include_resolved)->Ok_0.len() ==> line_holds(
                #[trigger] entries_outcome(inputs, policy, at, include_resolved)->Ok_0[i],
                include_resolved,
            ),
    decreases inputs.len(),
{
    reveal(entry_outcome);
    if inputs.len() > 0 {
        lemma_entries_hold(inputs.drop_last(), policy, at, include_resolved);
    }
}

/// The queue is in the queue's order, it holds the lines of the input
/// tickets and nothing else, and every line holds what `line_holds` says.
pub proof fn lemma_queue_sorted(
    inputs: Seq<TicketView>,
    policy: SlaPolicy,
    at: (i64, u32),
    include_resolved: bool,
)
    requires
        queue_outcome(inputs, policy, at, include_resolved) is Ok,
    ensures
        sorted_by(queue_outcome(inputs, policy, at, include_resolved)->Ok_0, entry_before()),
        queue_outcome(inputs, policy, at, include_resolved)->Ok_0.to_multiset() == entries_outcome(
            inputs,
            policy,
            at,
            include_resolved,
        )->Ok_0.to_multiset(),
        forall|i: int|
            0 <= i < queue_outcome(inputs, policy, at, include_resolved)->Ok_0.len() ==> line_holds(
                #[trigger] queue_outcome(inputs, policy, at, include_resolved)->Ok_0[i],
                include_resolved,
            ),
{
    let es = entries_outcome(inputs, policy, at, include_resolved)->Ok_0;
    let q = queue_outcome(inputs, policy, at, include_resolved)->Ok_0;
    lemma_entry_order();
    lemma_sort_sorted(es, entry_before());
    lemma_sort_permutes(es, entry_before());
    lemma_entries_hold(inputs, policy, at, include_resolved);
    assert forall|i: int| 0 <= i < q.len() implies line_holds(#[trigger] q[i], include_resolved) by {
        assert(q.contains(q[i]));
        vstd::seq_lib::to_multiset_contains(q, q[i]);
        vstd::seq_lib::to_multiset_contains(es, q[i]);
        let k = choose|k: int| 0 <= k < es.len() && es[k] == q[i];
        assert(line_holds(es[k], include_resolved));
    }
}

/// Whether an input ticket belongs in the queue: always when resolved
/// tickets are asked for, else when its normalized status is open or
/// pending.
#[verifier::opaque]
pub open spec fn belongs_in_queue(t: TicketView, include_resolved: bool) -> bool {
    include_resolved || normalize_outcome(t)->Ok_0.status == super::TicketStatus::Open
        || normalize_outcome(t)->Ok_0.status == super::TicketStatus::Pending
}

/// Whether line `e` is the line of input ticket `t`: its ticket is `t`
/// normalized, and its SLA is that ticket's SLA under the policy at `at`.
#[verifier::opaque]
pub open spec fn line_of_input(e: QueueEntryView, t: TicketView, policy: SlaPolicy, at: (i64, u32)) -> bool {
    &&& e.ticket == normalize_outcome(t)->Ok_0
    &&& sla_outcome(e.ticket, policy, at) == Ok::<TicketSlaView, SupportError>(e.sla)
}

proof fn lemma_entry_step(t: TicketView, policy: SlaPolicy, at: (i64, u32), include_resolved: bool)
    requires
        entry_outcome(t, policy, at, include_resolved) is Ok,
    ensures
        normalize_outcome(t) is Ok,
        belongs_in_queue(t, include_resolved) ==> entry_outcome(t, policy, at, include_resolved)->Ok_0 is Some
            && line_of_input(entry_outcome(t, policy, at, include_resolved)->Ok_0->Some_0, t, policy, at),
        !belongs_in_queue(t, include_resolved) ==> entry_outcome(t, policy, at, include_resolved)->Ok_0 is None,
{
    reveal(belongs_in_queue);
    reveal(line_of_input);
    reveal(entry_outcome);
}

#[verifier::rlimit(50)]
proof fn lemma_entries_law(
    inputs: Seq<TicketView>,
    policy: SlaPolicy,
    at: (i64, u32),
    include_resolved: bool,
)
    requires
        entries_outcome(inputs, policy, at, include_resolved) is Ok,
    ensures
        forall|i: int| 0 <= i < inputs.len() ==> normalize_outcome(#[trigger] inputs[i]) is Ok,
        forall|i: int|
            #![trigger inputs[i]]
            0 <= i < inputs.len() && belongs_in_queue(inputs[i], include_resolved) ==> exists|k: int|
                0 <= k < entries_outcome(inputs, policy, at, include_resolved)->Ok_0.len()
                    && line_of_input(
                    #[trigger] entries_outcome(inputs, policy, at, include_resolved)->Ok_0[k],
                    inputs[i],
                    policy,
                    at,
                ),
        forall|k: int|
            #![trigger entries_outcome(inputs, policy, at, include_resolved)->Ok_0[k]]
            0 <= k < entries_outcome(inputs, policy, at, include_resolved)->Ok_0.len() ==> exists|i: int|
                0 <= i < inputs.len() && belongs_in_queue(#[trigger] inputs[i], include_resolved)
                    && line_of_input(
                    entries_outcome(inputs, policy, at, include_resolved)->Ok_0[k],
                    inputs[i],
                    policy,
                    at,
                ),
        entries_outcome(inputs, policy, at, include_resolved)->Ok_0.len() == inputs.filter(
            |t: TicketView| belongs_in_queue(t, include_resolved),
        ).len(),
    decreases inputs.len(),
{
    let p = |t: TicketView| belongs_in_queue(t, include_resolved);
    reveal(Seq::filter);
    if inputs.len() > 0 {
        let r = inputs.drop_last();
        let last = inputs.last();
        lemma_entries_law(r, policy, at, include_resolved);
        let prev = entries_outcome(r, policy, at, include_resolved)->Ok_0;
        let es = entries_outcome(inputs, policy, at, include_resolved)->Ok_0;
        assert(last == inputs[inputs.len() - 1]);
        assert(entry_outcome(last, policy, at, include_resolved) is Ok);
        lemma_entry_step(last, policy, at, include_resolved);
        if belongs_in_queue(last, include_resolved) {
            assert(es == prev.push(entry_outcome(last, policy, at, include_resolved)->Ok_0->Some_0));
            assert(line_of_input(es[prev.len() as int], last, policy, at));
        } else {
            assert(es == prev);
        }
        assert forall|i: int| 0 <= i < inputs.len() implies normalize_outcome(#[trigger] inputs[i]) is Ok by {
            if i < r.len() {
                assert(inputs[i] == r[i]);
            }
        }
        assert forall|i: int|
            #![trigger inputs[i]]
            0 <= i < inputs.len() && belongs_in_queue(inputs[i], include_resolved) implies exists|k: int|
                0 <= k < es.len() && line_of_input(#[trigger] es[k], inputs[i], policy, at) by {
            if i < r.len() {
                assert(inputs[i] == r[i]);
                let k = choose|k: int| 0 <= k < prev.len() && line_of_input(#[trigger] prev[k], r[i], policy, at);
                assert(es[k] == prev[k]);
            } else {
                assert(es[prev.len() as int] == es[prev.len() as int]);
            }
        }
        assert forall|k: int|
            #![trigger es[k]]
            0 <= k < es.len() implies exists|i: int|
                0 <= i < inputs.len() && belongs_in_queue(#[trigger] inputs[i], include_resolved)
                    && line_of_input(es[k], inputs[i], policy, at) by {
            if k < prev.len() {
                assert(es[k] == prev[k]);
                let i = choose|i: int|
                    0 <= i < r.len() && belongs_in_queue(#[trigger] r[i], include_resolved)
                        && line_of_input(prev[k], r[i], policy, at);
                assert(inputs[i] == r[i]);
            } else {
                assert(inputs[inputs.len() - 1] == last);
            }
        }
    }
}

/// The queue, over all inputs, policies and instants: every input ticket
/// normalizes; every input that belongs in the queue (always when resolved
/// tickets are asked for, else when its status is open or pending) has its
/// line, with its normalized ticket and its SLA; every line is the line of
/// such an input; there are as many lines as such inputs; and every line is
/// breached and has its next deadline as `line_holds` says.
pub proof fn lemma_queue_lines(
    inputs: Seq<TicketView>,
    policy: SlaPolicy,
    at: (i64, u32),
    include_resolved: bool,
)
    requires
        queue_outcome(inputs, policy, at, include_resolved) is Ok,
    ensures
        forall|i: int| 0 <= i < inputs.len() ==> normalize_outcome(#[trigger] inputs[i]) is Ok,
        forall|i: int|
            #![trigger inputs[i]]
            0 <= i < inputs.len() && belongs_in_queue(inputs[i], include_resolved) ==> exists|k: int|
                0 <= k < queue_outcome(inputs, policy, at, include_resolved)->Ok_0.len()
                    && line_of_input(
                    #[trigger] queue_outcome(inputs, policy, at, include_resolved)->Ok_0[k],
                    inputs[i],
                    policy,
                    at,
                ),
        forall|k: int|
            #![trigger queue_outcome(inputs, policy, at, include_resolved)->Ok_0[k]]
            0 <= k < queue_outcome(inputs, policy, at, include_resolved)->Ok_0.len() ==> exists|i: int|
                0 <= i < inputs.len() && belongs_in_queue(#[trigger] inputs[i], include_resolved)
                    && line_of_input(
                    queue_outcome(inputs, policy, at, include_resolved)->Ok_0[k],
                    inputs[i],
                    policy,
                    at,
                ),
        queue_outcome(inputs, policy, at, include_resolved)->Ok_0.len() == inputs.filter(
            |t: TicketView| belongs_in_queue(t, include_resolved),
        ).len(),
        forall|k: int|
            0 <= k < queue_outcome(inputs, policy, at, include_resolved)->Ok_0.len() ==> line_holds(
                #[trigger] queue_outcome(inputs, policy, at, include_resolved)->Ok_0[k],
                include_resolved,
            ),
{
    let es = entries_outcome(inputs, policy, at, include_resolved)->Ok_0;
    let q = queue_outcome(inputs, policy, at, include_resolved)->Ok_0;
    lemma_entries_law(inputs, policy, at, include_resolved);
    lemma_queue_sorted(inputs, policy, at, include_resolved);
    lemma_sort_permutes(es, entry_before());
    assert forall|i: int|
        #![trigger inputs[i]]
        0 <= i < inputs.len() && belongs_in_queue(inputs[i], include_resolved) implies exists|k: int|
            0 <= k < q.len() && line_of_input(#[trigger] q[k], inputs[i], policy, at) by {
        let k = choose|k: int| 0 <= k < es.len() && line_of_input(#[trigger] es[k], inputs[i], policy, at);
        assert(es.contains(es[k]));
        vstd::seq_lib::to_multiset_contains(es, es[k]);
        vstd::seq_lib::to_multiset_contains(q, es[k]);
        let m = choose|m: int| 0 <= m < q.len() && q[m] == es[k];
        assert(line_of_input(q[m], inputs[i], policy, at));
    }
    assert forall|k: int|
        #![trigger q[k]]
        0 <= k < q.len() implies exists|i: int|
            0 <= i < inputs.len() && belongs_in_queue(#[trigger] inputs[i], include_resolved)
                && line_of_input(q[k], inputs[i], policy, at) by {
        assert(q.contains(q[k]));
        vstd::seq_lib::to_multiset_contains(q, q[k]);
        vstd::seq_lib::to_multiset_contains(es, q[k]);
        let m = choose|m: int| 0 <= m < es.len() && es[m] == q[k];
        assert(es[m] == es[m]);
    }
}

/// How urgent a priority is: 0 for low up to 3 for urgent.
pub open spec fn urgency(p: TicketPriority) -> int {
    match p {
        TicketPriority::Low => 0,
        TicketPriority::Normal => 1,
        TicketPriority::High => 2,
        TicketPriority::Urgent => 3,
    }
}

/// The queue's order, line by line, over all inputs: of two lines, the
/// earlier one is breached if the later one is; among equally breached
/// lines, the earlier is at least as urgent; then its next deadline does
/// not sort after the later's; then its creation time; then its id.
pub proof fn lemma_queue_order(
    inputs: Seq<TicketView>,
    policy: SlaPolicy,
    at: (i64, u32),
    include_resolved: bool,
)
    requires
        queue_outcome(inputs, policy, at, include_resolved) is Ok,
    ensures
        forall|i: int, j: int|
            #![trigger queue_outcome(inputs, policy, at, include_resolved)->Ok_0[i], queue_outcome(inputs, policy, at, include_resolved)->Ok_0[j]]
            0 <= i < j < queue_outcome(inputs, policy, at, include_resolved)->Ok_0.len() ==> {
                let a = queue_outcome(inputs, policy, at, include_resolved)->Ok_0[i];
                let b = queue_outcome(inputs, policy, at, include_resolved)->Ok_0[j];
                &&& b.breached ==> a.breached
                &&& a.breached == b.breached ==> urgency(a.ticket.priority) >= urgency(b.ticket.priority)
                &&& a.breached == b.breached && a.ticket.priority == b.ticket.priority ==> !text_less(
                    b.next_deadline,
                    a.next_deadline,
                )
                &&& a.breached == b.breached && a.ticket.priority == b.ticket.priority
                    && a.next_deadline == b.next_deadline ==> !text_less(
                    b.ticket.created_at,
                    a.ticket.created_at,
                )
                &&& a.breached == b.breached && a.ticket.priority == b.ticket.priority
                    && a.next_deadline == b.next_deadline && a.ticket.created_at == b.ticket.created_at
                    ==> !text_less(b.ticket.id, a.ticket.id)
            },
{
    let q = queue_outcome(inputs, policy, at, include_resolved)->Ok_0;
    lemma_queue_sorted(inputs, policy, at, include_resolved);
    assert forall|i: int, j: int| #![trigger q[i], q[j]] 0 <= i < j < q.len() implies {
        let a = q[i];
        let b = q[j];
        &&& b.breached ==> a.breached
        &&& a.breached == b.breached ==> urgency(a.ticket.priority) >= urgency(b.ticket.priority)
        &&& a.breached == b.breached && a.ticket.priority == b.ticket.priority ==> !text_less(
            b.next_deadline,
            a.next_deadline,
        )
        &&& a.breached == b.breached && a.ticket.priority == b.ticket.priority
            && a.next_deadline == b.next_deadline ==> !text_less(b.ticket.created_at, a.ticket.created_at)
        &&& a.breached == b.breached && a.ticket.priority == b.ticket.priority
            && a.next_deadline == b.next_deadline && a.ticket.created_at == b.ticket.created_at
            ==> !text_less(b.ticket.id, a.ticket.id)
    } by {
        assert(!entry_before()(q[j], q[i]));
        lemma_text_less_asymmetric(q[i].next_deadline, q[j].next_deadline);
        lemma_text_less_asymmetric(q[i].ticket.created_at, q[j].ticket.created_at);
        lemma_text_less_asymmetric(q[i].ticket.id, q[j].ticket.id);
        lemma_text_less_total(q[i].next_deadline, q[j].next_deadline);
        lemma_text_less_total(q[i].ticket.created_at, q[j].ticket.created_at);
    }
}

proof fn lemma_entry_ok(t: TicketView, policy: SlaPolicy, at: (i64, u32), include_resolved: bool)
    ensures
        entry_outcome(t, policy, at, include_resolved) is Ok <==> normalize_outcome(t) is Ok && (
        belongs_in_queue(t, include_resolved) ==> sla_outcome(normalize_outcome(t)->Ok_0, policy, at) is Ok),
{
    reveal(belongs_in_queue);
    reveal(entry_outcome);
}

proof fn lemma_entries_ok(inputs: Seq<TicketView>, policy: SlaPolicy, at: (i64, u32), include_resolved: bool)
    ensures
        entries_outcome(inputs, policy, at, include_resolved) is Ok <==> forall|i: int|
            0 <= i < inputs.len() ==> entry_outcome(#[trigger] inputs[i], policy, at, include_resolved) is Ok,
    decreases inputs.len(),
{
    if inputs.len() > 0 {
        let r = inputs.drop_last();
        lemma_entries_ok(r, policy, at, include_resolved);
        assert(inputs.last() == inputs[inputs.len() - 1]);
        if forall|i: int|
            0 <= i < inputs.len() ==> entry_outcome(#[trigger] inputs[i], policy, at, include_resolved) is Ok {
            assert forall|i: int| 0 <= i < r.len() implies entry_outcome(#[trigger] r[i], policy, at, include_resolved) is Ok by {
                assert(r[i] == inputs[i]);
            }
        }
        if entries_outcome(inputs, policy, at, include_resolved) is Ok {
            assert forall|i: int| 0 <= i < inputs.len() implies entry_outcome(#[trigger] inputs[i], policy, at, include_resolved) is Ok by {
                if i < r.len() {
                    assert(r[i] == inputs[i]);
                }
            }
        }
    }
}

/// When building the queue succeeds, over all inputs, policies and
/// instants: exactly when every input ticket normalizes and every one that
/// belongs in the queue has an SLA under the policy at that instant.
pub proof fn lemma_queue_succeeds(
    inputs: Seq<TicketView>,
    policy: SlaPolicy,
    at: (i64, u32),
    include_resolved: bool,
)
    ensures
        queue_outcome(inputs, policy, at, include_resolved) is Ok <==> forall|i: int|
            0 <= i < inputs.len() ==> normalize_outcome(#[trigger] inputs[i]) is Ok && (belongs_in_queue(
                inputs[i],
                include_resolved,
            ) ==> sla_outcome(normalize_outcome(inputs[i])->Ok_0, policy, at) is Ok),
{
    lemma_entries_ok(inputs, policy, at, include_resolved);
    assert forall|i: int| 0 <= i < inputs.len() implies (entry_outcome(#[trigger] inputs[i], policy, at, include_resolved) is Ok
        <==> normalize_outcome(inputs[i]) is Ok && (belongs_in_queue(inputs[i], include_resolved)
        ==> sla_outcome(normalize_outcome(inputs[i])->Ok_0, policy, at) is Ok)) by {
        lemma_entry_ok(inputs[i], policy, at, include_resolved);
    }
}

/// What building the queue refuses, over all inputs, policies and
/// instants: the error of the first input ticket that fails, every earlier
/// one normalizing and, where it belongs in the queue, having an SLA. That
/// ticket's error is its normalization error if it does not normalize, and
/// else its SLA error.
pub proof fn lemma_queue_error(
    inputs: Seq<TicketView>,
    policy: SlaPolicy,
    at: (i64, u32),
    include_resolved: bool,
    k: int,
)
    requires
        0 <= k < inputs.len(),
        forall|j: int|
            0 <= j < k ==> normalize_outcome(#[trigger] inputs[j]) is Ok && (belongs_in_queue(
                inputs[j],
                include_resolved,
            ) ==> sla_outcome(normalize_outcome(inputs[j])->Ok_0, policy, at) is Ok),
        !(normalize_outcome(inputs[k]) is Ok && (belongs_in_queue(inputs[k], include_resolved) ==> sla_outcome(
            normalize_outcome(inputs[k])->Ok_0,
            policy,
            at,
        ) is Ok)),
    ensures
        normalize_outcome(inputs[k]) is Err ==> queue_outcome(inputs, policy, at, include_resolved) == Err::<
            Seq<QueueEntryView>,
            SupportError,
        >(normalize_outcome(inputs[k])->Err_0),
        normalize_outcome(inputs[k]) is Ok ==> queue_outcome(inputs, policy, at, include_resolved) == Err::<
            Seq<QueueEntryView>,
            SupportError,
        >(sla_outcome(normalize_outcome(inputs[k])->Ok_0, policy, at)->Err_0),
{
    let pre = inputs.take(k);
    let upto = inputs.take(k + 1);
    lemma_entries_ok(pre, policy, at, include_resolved);
    assert forall|j: int| 0 <= j < pre.len() implies entry_outcome(#[trigger] pre[j], policy, at, include_resolved) is Ok by {
        assert(pre[j] == inputs[j]);
        lemma_entry_ok(inputs[j], policy, at, include_resolved);
    }
    assert(upto.drop_last() =~= pre);
    assert(upto.last() == inputs[k]);
    lemma_entry_ok(inputs[k], policy, at, include_resolved);
    assert(entry_outcome(inputs[k], policy, at, include_resolved) is Err);
    assert(entries_outcome(upto, policy, at, include_resolved) == Err::<Seq<QueueEntryView>, SupportError>(
        entry_outcome(inputs[k], policy, at, include_resolved)->Err_0,
    ));
    lemma_entries_error_prefix(inputs, policy, at, include_resolved, k + 1);
    reveal(entry_outcome);
    reveal(belongs_in_queue);
}

/// The line of input ticket `t`: its normalized ticket with that ticket's
/// SLA under the policy at `at`.
pub open spec fn line_for(t: TicketView, policy: SlaPolicy, at: (i64, u32)) -> QueueEntryView {
    entry_spec(normalize_outcome(t)->Ok_0, sla_outcome(normalize_outcome(t)->Ok_0, policy, at)->Ok_0)
}

/// The lines of the inputs that belong in the queue, in input order.
pub open spec fn lines_in_input_order(
    inputs: Seq<TicketView>,
    policy: SlaPolicy,
    at: (i64, u32),
    include_resolved: bool,
) -> Seq<QueueEntryView> {
    inputs.filter(|t: TicketView| belongs_in_queue(t, include_resolved)).map_values(
        |t: TicketView| line_for(t, policy, at),
    )
}

proof fn lemma_entries_in_input_order(
    inputs: Seq<TicketView>,
    policy: SlaPolicy,
    at: (i64, u32),
    include_resolved: bool,
)
    requires
        entries_outcome(inputs, policy, at, include_resolved) is Ok,
    ensures
        entries_outcome(inputs, policy, at, include_resolved)->Ok_0 == lines_in_input_order(
            inputs,
            policy,
            at,
            include_resolved,
        ),
    decreases inputs.len(),
{
    let p = |t: TicketView| belongs_in_queue(t, include_resolved);
    let f = |t: TicketView| line_for(t, policy, at);
    if inputs.len() == 0 {
        assert(inputs.filter(p) =~= Seq::<TicketView>::empty()) by {
            reveal(Seq::filter);
        }
        assert(inputs.filter(p).map_values(f) =~= Seq::<QueueEntryView>::empty());
    } else {
        let r = inputs.drop_last();
        let last = inputs.last();
        lemma_entries_in_input_order(r, policy, at, include_resolved);
        assert(inputs =~= r.push(last));
        r.lemma_filter_push(last, p);
        reveal(entry_outcome);
        reveal(belongs_in_queue);
        if p(last) {
            assert(r.filter(p).push(last).map_values(f) =~= r.filter(p).map_values(f).push(f(last)));
        }
    }
}

/// Lines that tie in the queue's order keep the order of their input
/// tickets: for every line `x`, the queue's lines that tie with `x` are the
/// lines of the inputs that belong in the queue and tie with `x`, in input
/// order.
pub proof fn lemma_queue_keeps_ties(
    inputs: Seq<TicketView>,
    policy: SlaPolicy,
    at: (i64, u32),
    include_resolved: bool,
    x: QueueEntryView,
)
    requires
        queue_outcome(inputs, policy, at, include_resolved) is Ok,
    ensures
        queue_outcome(inputs, policy, at, include_resolved)->Ok_0.filter(ties_with(entry_before(), x))
            == lines_in_input_order(inputs, policy, at, include_resolved).filter(ties_with(entry_before(), x)),
{
    lemma_entries_in_input_order(inputs, policy, at, include_resolved);
    lemma_entry_order();
    lemma_sort_keeps_ties(entries_outcome(inputs, policy, at, include_resolved)->Ok_0, entry_before(), x);
}

/// The queue holds, as a multiset, exactly the lines of the inputs that
/// belong in it (all of them when resolved tickets are asked for, else
/// those whose normalized status is open or pending).
pub proof fn lemma_queue_holds_lines(
    inputs: Seq<TicketView>,
    policy: SlaPolicy,
    at: (i64, u32),
    include_resolved: bool,
)
    requires
        queue_outcome(inputs, policy, at, include_resolved) is Ok,
    ensures
        queue_outcome(inputs, policy, at, include_resolved)->Ok_0.to_multiset() == lines_in_input_order(
            inputs,
            policy,
            at,
            include_resolved,
        ).to_multiset(),
{
    lemma_entries_in_input_order(inputs, policy, at, include_resolved);
    lemma_sort_permutes(entries_outcome(inputs, policy, at, include_resolved)->Ok_0, entry_before());
}

} // verus!
