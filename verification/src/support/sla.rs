//! The service-level agreement: whether a policy is usable, when each
//! milestone is due, and where a ticket stands against it right now.

use vstd::prelude::*;
use super::{
    FieldName, MilestoneState, SlaHours, SlaMilestone, SlaMilestoneView, SlaPolicy, SlaRule,
    SupportError, Ticket, TicketEvent, TicketEventView, TicketSla, TicketSlaView, TicketView,
    events_view, is_done, status_is_done,
};
use super::dates::{Timestamp, add_millis, instant_le, rfc3339_instant, rfc3339_millis_text, shifted_by_millis};
use super::normalize::{format_date, parse_date};
use super::text::text_equal;

verus! {

/// The first defect of a rule: a first-response duration that is not a
/// positive number of hours, then a resolution duration that is not.
pub open spec fn rule_error(rule: SlaRule) -> Option<SupportError> {
    if rule.first_response_hours == SlaHours::NotPositive {
        Some(SupportError::FirstResponseHoursNotPositive)
    } else if rule.resolution_hours == SlaHours::NotPositive {
        Some(SupportError::ResolutionHoursNotPositive)
    } else {
        None
    }
}

/// The first defect of a policy, its rules read from low to urgent.
pub open spec fn policy_error(policy: SlaPolicy) -> Option<SupportError> {
    if rule_error(policy.priorities.low) is Some {
        rule_error(policy.priorities.low)
    } else if rule_error(policy.priorities.normal) is Some {
        rule_error(policy.priorities.normal)
    } else if rule_error(policy.priorities.high) is Some {
        rule_error(policy.priorities.high)
    } else {
        rule_error(policy.priorities.urgent)
    }
}

fn check_rule(rule: &SlaRule) -> (r: Result<(), SupportError>)
    ensures
        match r {
            Ok(_) => rule_error(*rule) is None,
            Err(e) => rule_error(*rule) == Some(e),
        },
{
    if let SlaHours::NotPositive = rule.first_response_hours {
        return Err(SupportError::FirstResponseHoursNotPositive);
    }
    if let SlaHours::NotPositive = rule.resolution_hours {
        return Err(SupportError::ResolutionHoursNotPositive);
    }
    Ok(())
}

/// A policy is usable when every duration of every rule is a positive number
/// of hours; otherwise the first defect, the rules read from low to urgent.
pub fn validate_policy(policy: &SlaPolicy) -> (r: Result<(), SupportError>)
    ensures
        match r {
            Ok(_) => policy_error(*policy) is None,
            Err(e) => policy_error(*policy) == Some(e),
        },
{
    check_rule(&policy.priorities.low)?;
    check_rule(&policy.priorities.normal)?;
    check_rule(&policy.priorities.high)?;
    check_rule(&policy.priorities.urgent)?;
    Ok(())
}

/// When a milestone falls due: `hours` after `start`. Durations too large
/// for milliseconds, and deadlines beyond the dates chrono represents, are
/// errors. (A duration that is not positive never gets here: the policy is
/// validated first.)
pub open spec fn deadline_outcome(start: (i64, u32), hours: SlaHours) -> Result<
    (i64, u32),
    SupportError,
> {
    match hours {
        SlaHours::Millis(ms) => match shifted_by_millis(start.0, start.1, ms) {
            Some(x) => Ok(x),
            None => Err(SupportError::DeadlineOutOfRange),
        },
        _ => Err(SupportError::DurationTooLarge),
    }
}

fn add_hours(start: &Timestamp, hours: SlaHours) -> (r: Result<Timestamp, SupportError>)
    requires
        hours != SlaHours::NotPositive,
    ensures
        match r {
            Ok(t) => deadline_outcome(start@, hours) == Ok::<(i64, u32), SupportError>(t@),
            Err(e) => deadline_outcome(start@, hours) == Err::<(i64, u32), SupportError>(e),
        },
{
    match hours {
        SlaHours::Millis(ms) => match add_millis(start, ms) {
            Some(t) => Ok(t),
            None => Err(SupportError::DeadlineOutOfRange),
        },
        _ => Err(SupportError::DurationTooLarge),
    }
}

/// Where a milestone stands: met if it was reached by its deadline, breached
/// if it was reached later or is still open past its deadline, pending if it
/// is open and the deadline has not passed.
pub open spec fn milestone_state(due: (i64, u32), completed: Option<(i64, u32)>, now: (i64, u32)) -> MilestoneState {
    match completed {
        Some(c) => if instant_le(c, due) {
            MilestoneState::Met
        } else {
            MilestoneState::Breached
        },
        None => if instant_le(now, due) {
            MilestoneState::Pending
        } else {
            MilestoneState::Breached
        },
    }
}

/// A milestone: its deadline and completion as text, and its state.
pub open spec fn milestone_spec(due: (i64, u32), completed: Option<(i64, u32)>, now: (i64, u32)) -> SlaMilestoneView {
    SlaMilestoneView {
        due_at: rfc3339_millis_text(due.0, due.1),
        completed_at: match completed {
            Some(c) => Some(rfc3339_millis_text(c.0, c.1)),
            None => None,
        },
        state: milestone_state(due, completed, now),
    }
}

/// The instant of an optional timestamp.
pub open spec fn instant_option(t: Option<Timestamp>) -> Option<(i64, u32)> {
    match t {
        Some(x) => Some(x@),
        None => None,
    }
}

/// A milestone due at `due_at`, reached at `completed_at` if it was, seen at
/// `now`: see `milestone_spec`.
pub fn milestone(due_at: &Timestamp, completed_at: Option<Timestamp>, now: &Timestamp) -> (r: SlaMilestone)
    ensures
        r@ == milestone_spec(due_at@, instant_option(completed_at), now@),
{
    let state = match &completed_at {
        Some(completed) => if completed.not_after(due_at) {
            MilestoneState::Met
        } else {
            MilestoneState::Breached
        },
        None => if now.not_after(due_at) {
            MilestoneState::Pending
        } else {
            MilestoneState::Breached
        },
    };
    let completed_text = match &completed_at {
        Some(c) => Some(format_date(c)),
        None => None,
    };
    SlaMilestone { due_at: format_date(due_at), completed_at: completed_text, state }
}

/// Whether an event is a public reply by an agent.
pub open spec fn is_public_reply(e: TicketEventView) -> bool {
    e.kind == "agent_reply"@ && e.visibility == "public"@
}

/// The first public reply by an agent.
pub open spec fn first_public_reply(es: Seq<TicketEventView>) -> Option<TicketEventView>
    decreases es.len(),
{
    if es.len() == 0 {
        None
    } else if is_public_reply(es[0]) {
        Some(es[0])
    } else {
        first_public_reply(es.drop_first())
    }
}

/// The last event that resolved the ticket.
pub open spec fn last_resolution(es: Seq<TicketEventView>) -> Option<TicketEventView>
    decreases es.len(),
{
    if es.len() == 0 {
        None
    } else if es.last().kind == "resolved"@ {
        Some(es.last())
    } else {
        last_resolution(es.drop_last())
    }
}

/// When the ticket got its first response: the time of its first public
/// agent reply, if it has one.
pub open spec fn first_response_outcome(t: TicketView) -> Result<Option<(i64, u32)>, SupportError> {
    match first_public_reply(t.events) {
        None => Ok(None),
        Some(e) => match rfc3339_instant(e.at) {
            None => Err(SupportError::InvalidDate(FieldName::EventTime)),
            Some(x) => Ok(Some(x)),
        },
    }
}

/// When the ticket was resolved: for a resolved or closed ticket, the time
/// of its last resolution event, or else its update time if it has one.
pub open spec fn resolution_outcome(t: TicketView) -> Result<Option<(i64, u32)>, SupportError> {
    if is_done(t.status) {
        match last_resolution(t.events) {
            Some(e) => match rfc3339_instant(e.at) {
                None => Err(SupportError::InvalidDate(FieldName::EventTime)),
                Some(x) => Ok(Some(x)),
            },
            None => match t.updated_at {
                Some(u) => match rfc3339_instant(u) {
                    None => Err(SupportError::InvalidDate(FieldName::TicketUpdatedAt)),
                    Some(x) => Ok(Some(x)),
                },
                None => Ok(None),
            },
        }
    } else {
        Ok(None)
    }
}

/// Where a ticket stands against the policy at instant `at`: each milestone
/// is due its rule's hours after the creation time. The first failure gives
/// the error: the policy, the creation time, the first response, the
/// resolution, then the two deadlines.
pub open spec fn sla_outcome(t: TicketView, policy: SlaPolicy, at: (i64, u32)) -> Result<
    TicketSlaView,
    SupportError,
> {
    match policy_error(policy) {
        Some(e) => Err(e),
        None => match rfc3339_instant(t.created_at) {
            None => Err(SupportError::InvalidDate(FieldName::TicketCreatedAt)),
            Some(c) => match first_response_outcome(t) {
                Err(e) => Err(e),
                Ok(fr) => match resolution_outcome(t) {
                    Err(e) => Err(e),
                    Ok(res) => {
                        let rule = policy.rule_of(t.priority);
                        match deadline_outcome(c, rule.first_response_hours) {
                            Err(e) => Err(e),
                            Ok(d1) => match deadline_outcome(c, rule.resolution_hours) {
                                Err(e) => Err(e),
                                Ok(d2) => Ok(
                                    TicketSlaView {
                                        ticket_id: t.id,
                                        evaluated_at: rfc3339_millis_text(at.0, at.1),
                                        first_response: milestone_spec(d1, fr, at),
                                        resolution: milestone_spec(d2, res, at),
                                    },
                                ),
                            },
                        }
                    },
                },
            },
        },
    }
}

/// The view of the result of computing an SLA.
pub open spec fn sla_result_view(r: Result<TicketSla, SupportError>) -> Result<
    TicketSlaView,
    SupportError,
> {
    match r {
        Ok(s) => Ok(s@),
        Err(e) => Err(e),
    }
}

fn find_first_reply(events: &Vec<TicketEvent>) -> (r: Option<usize>)
    ensures
        match r {
            Some(i) => i < events@.len() && first_public_reply(events_view(events@)) == Some(
                events_view(events@)[i as int],
            ),
            None => first_public_reply(events_view(events@)) is None,
        },
{
    let ghost es = events_view(events@);
    let mut i: usize = 0;
    assert(es.skip(0) =~= es);
    while i < events.len()
        invariant
            i <= es.len(),
            es == events_view(events@),
            first_public_reply(es) == first_public_reply(es.skip(i as int)),
        decreases events.len() - i,
    {
        assert(es.skip(i as int)[0] == es[i as int]);
        if text_equal(events[i].kind.as_str(), "agent_reply") && text_equal(
            events[i].visibility.as_str(),
            "public",
        ) {
            return Some(i);
        }
        assert(es.skip(i as int).drop_first() =~= es.skip(i + 1));
        i = i + 1;
    }
    None
}

fn find_last_resolution(events: &Vec<TicketEvent>) -> (r: Option<usize>)
    ensures
        match r {
            Some(i) => i < events@.len() && last_resolution(events_view(events@)) == Some(
                events_view(events@)[i as int],
            ),
            None => last_resolution(events_view(events@)) is None,
        },
{
    let ghost es = events_view(events@);
    let mut j: usize = events.len();
    assert(es.take(j as int) =~= es);
    while j > 0
        invariant
            j <= es.len(),
            es == events_view(events@),
            last_resolution(es) == last_resolution(es.take(j as int)),
        decreases j,
    {
        assert(es.take(j as int).last() == es[j - 1]);
        if text_equal(events[j - 1].kind.as_str(), "resolved") {
            return Some(j - 1);
        }
        assert(es.take(j as int).drop_last() =~= es.take(j - 1));
        j = j - 1;
    }
    None
}

fn first_response_time(ticket: &Ticket) -> (r: Result<Option<Timestamp>, SupportError>)
    ensures
        match r {
            Ok(o) => first_response_outcome(ticket@) == Ok::<Option<(i64, u32)>, SupportError>(
                instant_option(o),
            ),
            Err(e) => first_response_outcome(ticket@) == Err::<Option<(i64, u32)>, SupportError>(e),
        },
{
    match find_first_reply(&ticket.events) {
        None => Ok(None),
        Some(i) => match parse_date(ticket.events[i].at.as_str(), FieldName::EventTime) {
            Ok(t) => Ok(Some(t)),
            Err(e) => Err(e),
        },
    }
}

fn resolution_time(ticket: &Ticket) -> (r: Result<Option<Timestamp>, SupportError>)
    ensures
        match r {
            Ok(o) => resolution_outcome(ticket@) == Ok::<Option<(i64, u32)>, SupportError>(
                instant_option(o),
            ),
            Err(e) => resolution_outcome(ticket@) == Err::<Option<(i64, u32)>, SupportError>(e),
        },
{
    if !status_is_done(ticket.status) {
        return Ok(None);
    }
    match find_last_resolution(&ticket.events) {
        Some(i) => match parse_date(ticket.events[i].at.as_str(), FieldName::EventTime) {
            Ok(t) => Ok(Some(t)),
            Err(e) => Err(e),
        },
        None => match &ticket.updated_at {
            Some(u) => match parse_date(u.as_str(), FieldName::TicketUpdatedAt) {
                Ok(t) => Ok(Some(t)),
                Err(e) => Err(e),
            },
            None => Ok(None),
        },
    }
}

/// Where a ticket stands against the policy at instant `at`: see
/// `sla_outcome`.
pub fn compute_sla(ticket: &Ticket, policy: &SlaPolicy, at: Timestamp) -> (r: Result<
    TicketSla,
    SupportError,
>)
    ensures
        sla_result_view(r) == sla_outcome(ticket@, *policy, at@),
{
    validate_policy(policy)?;
    let created = parse_date(ticket.created_at.as_str(), FieldName::TicketCreatedAt)?;
    let rule = policy.rule(ticket.priority);
    let first_reply = first_response_time(ticket)?;
    let resolution = resolution_time(ticket)?;
    let first_due = add_hours(&created, rule.first_response_hours)?;
    let first_response = milestone(&first_due, first_reply, &at);
    let resolution_due = add_hours(&created, rule.resolution_hours)?;
    let resolution = milestone(&resolution_due, resolution, &at);
    Ok(
        TicketSla {
            ticket_id: ticket.id.clone(),
            evaluated_at: format_date(&at),
            first_response,
            resolution,
        },
    )
}

/// A breached milestone stays breached later on.
pub proof fn lemma_breach_persists(
    due: (i64, u32),
    completed: Option<(i64, u32)>,
    earlier: (i64, u32),
    later: (i64, u32),
)
    requires
        instant_le(earlier, later),
        milestone_state(due, completed, earlier) == MilestoneState::Breached,
    ensures
        milestone_state(due, completed, later) == MilestoneState::Breached,
{
}

/// A pending milestone was pending earlier on, and a reached milestone
/// stands the same at every instant.
pub proof fn lemma_pending_earlier(
    due: (i64, u32),
    completed: Option<(i64, u32)>,
    earlier: (i64, u32),
    later: (i64, u32),
)
    requires
        instant_le(earlier, later),
    ensures
        milestone_state(due, completed, later) == MilestoneState::Pending ==> milestone_state(
            due,
            completed,
            earlier,
        ) == MilestoneState::Pending,
        completed is Some ==> milestone_state(due, completed, earlier) == milestone_state(
            due,
            completed,
            later,
        ),
{
}

proof fn lemma_first_reply_index(es: Seq<TicketEventView>, k: int)
    requires
        0 <= k < es.len(),
        es[k].kind == "agent_reply"@ && es[k].visibility == "public"@,
        forall|j: int|
            0 <= j < k ==> !((#[trigger] es[j]).kind == "agent_reply"@ && es[j].visibility
                == "public"@),
    ensures
        first_public_reply(es) == Some(es[k]),
    decreases k,
{
    if k > 0 {
        let r = es.drop_first();
        assert(!is_public_reply(es[0]));
        assert forall|j: int| 0 <= j < k - 1 implies !((#[trigger] r[j]).kind == "agent_reply"@
            && r[j].visibility == "public"@) by {
            assert(r[j] == es[j + 1]);
        }
        lemma_first_reply_index(r, k - 1);
    }
}

proof fn lemma_no_reply(es: Seq<TicketEventView>)
    requires
        forall|j: int|
            0 <= j < es.len() ==> !((#[trigger] es[j]).kind == "agent_reply"@ && es[j].visibility
                == "public"@),
    ensures
        first_public_reply(es) is None,
    decreases es.len(),
{
    if es.len() > 0 {
        let r = es.drop_first();
        assert(!is_public_reply(es[0]));
        assert forall|j: int| 0 <= j < r.len() implies !((#[trigger] r[j]).kind == "agent_reply"@
            && r[j].visibility == "public"@) by {
            assert(r[j] == es[j + 1]);
        }
        lemma_no_reply(r);
    }
}

proof fn lemma_last_resolution_index(es: Seq<TicketEventView>, k: int)
    requires
        0 <= k < es.len(),
        es[k].kind == "resolved"@,
        forall|j: int| k < j < es.len() ==> (#[trigger] es[j]).kind != "resolved"@,
    ensures
        last_resolution(es) == Some(es[k]),
    decreases es.len(),
{
    if k < es.len() - 1 {
        let r = es.drop_last();
        assert(es.last() == es[es.len() - 1]);
        assert forall|j: int| k < j < r.len() implies (#[trigger] r[j]).kind != "resolved"@ by {
            assert(r[j] == es[j]);
        }
        lemma_last_resolution_index(r, k);
    }
}

proof fn lemma_no_resolution(es: Seq<TicketEventView>)
    requires
        forall|j: int| 0 <= j < es.len() ==> (#[trigger] es[j]).kind != "resolved"@,
    ensures
        last_resolution(es) is None,
    decreases es.len(),
{
    if es.len() > 0 {
        let r = es.drop_last();
        assert(es.last() == es[es.len() - 1]);
        assert forall|j: int| 0 <= j < r.len() implies (#[trigger] r[j]).kind != "resolved"@ by {
            assert(r[j] == es[j]);
        }
        lemma_no_resolution(r);
    }
}

/// The rule that governs a priority, read from the policy.
pub open spec fn governing_rule(policy: SlaPolicy, p: super::TicketPriority) -> SlaRule {
    match p {
        super::TicketPriority::Low => policy.priorities.low,
        super::TicketPriority::Normal => policy.priorities.normal,
        super::TicketPriority::High => policy.priorities.high,
        super::TicketPriority::Urgent => policy.priorities.urgent,
    }
}

/// The instant a duration of `hours` after the ticket's creation falls on.
pub open spec fn due_after_creation(t: TicketView, hours: SlaHours) -> Option<(i64, u32)> {
    match rfc3339_instant(t.created_at) {
        Some(c) => match hours {
            SlaHours::Millis(ms) => shifted_by_millis(c.0, c.1, ms),
            _ => None,
        },
        None => None,
    }
}

/// Whether a milestone stands as its deadline `due`, its completion `done`
/// and the instant `now` say: reached by the deadline is met; reached later
/// is breached; not reached is pending until the deadline passes, then
/// breached.
pub open spec fn stands_as(m: SlaMilestoneView, due: (i64, u32), done: Option<(i64, u32)>, now: (i64, u32)) -> bool {
    &&& m.due_at == rfc3339_millis_text(due.0, due.1)
    &&& match done {
        Some(x) => {
            &&& m.completed_at == Some(rfc3339_millis_text(x.0, x.1))
            &&& (m.state == MilestoneState::Met <==> instant_le(x, due))
            &&& (m.state == MilestoneState::Breached <==> !instant_le(x, due))
        },
        None => {
            &&& m.completed_at is None
            &&& (m.state == MilestoneState::Pending <==> instant_le(now, due))
            &&& (m.state == MilestoneState::Breached <==> !instant_le(now, due))
        },
    }
}

/// Where a ticket stands against a policy at instant `at`, over all tickets,
/// policies and instants: every duration of the policy is a positive number
/// of hours; the creation time is a date; each milestone falls due its
/// rule's hours after creation; the first response is reached at the first
/// public agent reply, if there is one; the resolution of a resolved or
/// closed ticket is reached at its last `resolved` event, or, without one,
/// at its update time if it has one, and an open or pending ticket's
/// resolution is not reached; each milestone stands as `stands_as` says.
pub proof fn lemma_sla_law(t: TicketView, policy: SlaPolicy, at: (i64, u32))
    requires
        sla_outcome(t, policy, at) is Ok,
    ensures
        policy.priorities.low.first_response_hours != SlaHours::NotPositive,
        policy.priorities.low.resolution_hours != SlaHours::NotPositive,
        policy.priorities.normal.first_response_hours != SlaHours::NotPositive,
        policy.priorities.normal.resolution_hours != SlaHours::NotPositive,
        policy.priorities.high.first_response_hours != SlaHours::NotPositive,
        policy.priorities.high.resolution_hours != SlaHours::NotPositive,
        policy.priorities.urgent.first_response_hours != SlaHours::NotPositive,
        policy.priorities.urgent.resolution_hours != SlaHours::NotPositive,
        rfc3339_instant(t.created_at) is Some,
        sla_outcome(t, policy, at)->Ok_0.ticket_id == t.id,
        sla_outcome(t, policy, at)->Ok_0.evaluated_at == rfc3339_millis_text(at.0, at.1),
        due_after_creation(t, governing_rule(policy, t.priority).first_response_hours) is Some,
        due_after_creation(t, governing_rule(policy, t.priority).resolution_hours) is Some,
        (forall|j: int|
            0 <= j < t.events.len() ==> !((#[trigger] t.events[j]).kind == "agent_reply"@
                && t.events[j].visibility == "public"@)) ==> stands_as(
            sla_outcome(t, policy, at)->Ok_0.first_response,
            due_after_creation(t, governing_rule(policy, t.priority).first_response_hours)->Some_0,
            None,
            at,
        ),
        forall|k: int|
            #![trigger t.events[k]]
            0 <= k < t.events.len() && t.events[k].kind == "agent_reply"@ && t.events[k].visibility
                == "public"@ && (forall|j: int|
                0 <= j < k ==> !((#[trigger] t.events[j]).kind == "agent_reply"@
                    && t.events[j].visibility == "public"@)) ==> rfc3339_instant(t.events[k].at) is Some
                && stands_as(
                sla_outcome(t, policy, at)->Ok_0.first_response,
                due_after_creation(t, governing_rule(policy, t.priority).first_response_hours)->Some_0,
                rfc3339_instant(t.events[k].at),
                at,
            ),
        !(t.status == super::TicketStatus::Resolved || t.status == super::TicketStatus::Closed)
            ==> stands_as(
            sla_outcome(t, policy, at)->Ok_0.resolution,
            due_after_creation(t, governing_rule(policy, t.priority).resolution_hours)->Some_0,
            None,
            at,
        ),
        forall|k: int|
            #![trigger t.events[k]]
            0 <= k < t.events.len() && t.events[k].kind == "resolved"@ && (forall|j: int|
                k < j < t.events.len() ==> (#[trigger] t.events[j]).kind != "resolved"@) && (t.status
                == super::TicketStatus::Resolved || t.status == super::TicketStatus::Closed)
                ==> rfc3339_instant(t.events[k].at) is Some && stands_as(
                sla_outcome(t, policy, at)->Ok_0.resolution,
                due_after_creation(t, governing_rule(policy, t.priority).resolution_hours)->Some_0,
                rfc3339_instant(t.events[k].at),
                at,
            ),
        (t.status == super::TicketStatus::Resolved || t.status == super::TicketStatus::Closed)
            && (forall|j: int| 0 <= j < t.events.len() ==> (#[trigger] t.events[j]).kind != "resolved"@)
            ==> match t.updated_at {
            Some(u) => rfc3339_instant(u) is Some && stands_as(
                sla_outcome(t, policy, at)->Ok_0.resolution,
                due_after_creation(t, governing_rule(policy, t.priority).resolution_hours)->Some_0,
                rfc3339_instant(u),
                at,
            ),
            None => stands_as(
                sla_outcome(t, policy, at)->Ok_0.resolution,
                due_after_creation(t, governing_rule(policy, t.priority).resolution_hours)->Some_0,
                None,
                at,
            ),
        },
{
    let es = t.events;
    assert forall|k: int|
        #![trigger es[k]]
        0 <= k < es.len() && es[k].kind == "agent_reply"@ && es[k].visibility == "public"@ && (forall|j: int|
            0 <= j < k ==> !((#[trigger] es[j]).kind == "agent_reply"@ && es[j].visibility
                == "public"@)) implies rfc3339_instant(es[k].at) is Some && stands_as(
        sla_outcome(t, policy, at)->Ok_0.first_response,
        due_after_creation(t, governing_rule(policy, t.priority).first_response_hours)->Some_0,
        rfc3339_instant(es[k].at),
        at,
    ) by {
        lemma_first_reply_index(es, k);
    }
    if forall|j: int|
        0 <= j < es.len() ==> !((#[trigger] es[j]).kind == "agent_reply"@ && es[j].visibility
            == "public"@) {
        lemma_no_reply(es);
    }
    assert forall|k: int|
        #![trigger es[k]]
        0 <= k < es.len() && es[k].kind == "resolved"@ && (forall|j: int|
            k < j < es.len() ==> (#[trigger] es[j]).kind != "resolved"@) && (t.status
            == super::TicketStatus::Resolved || t.status == super::TicketStatus::Closed)
            implies rfc3339_instant(es[k].at) is Some && stands_as(
        sla_outcome(t, policy, at)->Ok_0.resolution,
        due_after_creation(t, governing_rule(policy, t.priority).resolution_hours)->Some_0,
        rfc3339_instant(es[k].at),
        at,
    ) by {
        lemma_last_resolution_index(es, k);
    }
    if forall|j: int| 0 <= j < es.len() ==> (#[trigger] es[j]).kind != "resolved"@ {
        lemma_no_resolution(es);
    }
}

/// Whether no duration of the policy is other than a positive number of
/// hours.
pub open spec fn policy_usable(policy: SlaPolicy) -> bool {
    &&& policy.priorities.low.first_response_hours != SlaHours::NotPositive
    &&& policy.priorities.low.resolution_hours != SlaHours::NotPositive
    &&& policy.priorities.normal.first_response_hours != SlaHours::NotPositive
    &&& policy.priorities.normal.resolution_hours != SlaHours::NotPositive
    &&& policy.priorities.high.first_response_hours != SlaHours::NotPositive
    &&& policy.priorities.high.resolution_hours != SlaHours::NotPositive
    &&& policy.priorities.urgent.first_response_hours != SlaHours::NotPositive
    &&& policy.priorities.urgent.resolution_hours != SlaHours::NotPositive
}

/// The rules of a policy from low to urgent.
pub open spec fn rules_in_order(policy: SlaPolicy) -> Seq<SlaRule> {
    seq![policy.priorities.low, policy.priorities.normal, policy.priorities.high, policy.priorities.urgent]
}

/// Whether a rule has a duration that is not a positive number of hours.
pub open spec fn rule_defective(r: SlaRule) -> bool {
    r.first_response_hours == SlaHours::NotPositive || r.resolution_hours == SlaHours::NotPositive
}

/// Checking a policy, over all policies: it passes exactly when every
/// duration is a positive number of hours; otherwise the error is that of
/// the first rule with a defect, from low to urgent, naming its first
/// response if that is the defect and else its resolution.
pub proof fn lemma_policy_check(policy: SlaPolicy)
    ensures
        policy_error(policy) is None <==> policy_usable(policy),
        forall|i: int|
            #![trigger rules_in_order(policy)[i]]
            0 <= i < 4 && rule_defective(rules_in_order(policy)[i]) && (forall|j: int|
                0 <= j < i ==> !rule_defective(#[trigger] rules_in_order(policy)[j]))
                ==> policy_error(policy) == Some(
                if rules_in_order(policy)[i].first_response_hours == SlaHours::NotPositive {
                    SupportError::FirstResponseHoursNotPositive
                } else {
                    SupportError::ResolutionHoursNotPositive
                },
            ),
{
    let rs = rules_in_order(policy);
    assert(rs[0] == policy.priorities.low);
    assert(rs[1] == policy.priorities.normal);
    assert(rs[2] == policy.priorities.high);
    assert(rs[3] == policy.priorities.urgent);
}

proof fn lemma_some_first_reply(es: Seq<TicketEventView>, i: int)
    requires
        0 <= i < es.len(),
        es[i].kind == "agent_reply"@ && es[i].visibility == "public"@,
    ensures
        exists|k: int|
            #![trigger es[k]]
            0 <= k < es.len() && es[k].kind == "agent_reply"@ && es[k].visibility == "public"@
                && (forall|j: int|
                0 <= j < k ==> !((#[trigger] es[j]).kind == "agent_reply"@ && es[j].visibility
                    == "public"@)),
    decreases i,
{
    if exists|j: int|
        0 <= j < i && ((#[trigger] es[j]).kind == "agent_reply"@ && es[j].visibility == "public"@) {
        let j = choose|j: int|
            0 <= j < i && ((#[trigger] es[j]).kind == "agent_reply"@ && es[j].visibility == "public"@);
        lemma_some_first_reply(es, j);
    } else {
        assert(es[i] == es[i]);
    }
}

proof fn lemma_some_last_resolution(es: Seq<TicketEventView>, i: int)
    requires
        0 <= i < es.len(),
        es[i].kind == "resolved"@,
    ensures
        exists|k: int|
            #![trigger es[k]]
            0 <= k < es.len() && es[k].kind == "resolved"@ && (forall|j: int|
                k < j < es.len() ==> (#[trigger] es[j]).kind != "resolved"@),
    decreases es.len() - i,
{
    if exists|j: int| i < j < es.len() && (#[trigger] es[j]).kind == "resolved"@ {
        let j = choose|j: int| i < j < es.len() && (#[trigger] es[j]).kind == "resolved"@;
        lemma_some_last_resolution(es, j);
    } else {
        assert(es[i] == es[i]);
    }
}

/// When computing an SLA succeeds, over all tickets, policies and instants:
/// exactly when the policy is usable, the creation time is a date, the
/// first public agent reply (if any) has a date, for a resolved or closed
/// ticket the last `resolved` event (if any) has a date and, without one,
/// the update time (if any) is a date, and both deadlines fall within the
/// dates that can be represented.
pub proof fn lemma_sla_succeeds(t: TicketView, policy: SlaPolicy, at: (i64, u32))
    ensures
        sla_outcome(t, policy, at) is Ok <==> {
            &&& policy_usable(policy)
            &&& rfc3339_instant(t.created_at) is Some
            &&& forall|k: int|
                #![trigger t.events[k]]
                0 <= k < t.events.len() && t.events[k].kind == "agent_reply"@ && t.events[k].visibility
                    == "public"@ && (forall|j: int|
                    0 <= j < k ==> !((#[trigger] t.events[j]).kind == "agent_reply"@
                        && t.events[j].visibility == "public"@)) ==> rfc3339_instant(t.events[k].at) is Some
            &&& (t.status == super::TicketStatus::Resolved || t.status == super::TicketStatus::Closed)
                ==> {
                &&& forall|k: int|
                    #![trigger t.events[k]]
                    0 <= k < t.events.len() && t.events[k].kind == "resolved"@ && (forall|j: int|
                        k < j < t.events.len() ==> (#[trigger] t.events[j]).kind != "resolved"@)
                        ==> rfc3339_instant(t.events[k].at) is Some
                &&& (forall|j: int| 0 <= j < t.events.len() ==> (#[trigger] t.events[j]).kind != "resolved"@)
                    && t.updated_at is Some ==> rfc3339_instant(t.updated_at->Some_0) is Some
            }
            &&& due_after_creation(t, governing_rule(policy, t.priority).first_response_hours) is Some
            &&& due_after_creation(t, governing_rule(policy, t.priority).resolution_hours) is Some
        },
{
    let es = t.events;
    let reply = exists|i: int|
        0 <= i < es.len() && ((#[trigger] es[i]).kind == "agent_reply"@ && es[i].visibility == "public"@);
    if reply {
        let i = choose|i: int|
            0 <= i < es.len() && ((#[trigger] es[i]).kind == "agent_reply"@ && es[i].visibility == "public"@);
        lemma_some_first_reply(es, i);
        let k = choose|k: int|
            #![trigger es[k]]
            0 <= k < es.len() && es[k].kind == "agent_reply"@ && es[k].visibility == "public"@
                && (forall|j: int|
                0 <= j < k ==> !((#[trigger] es[j]).kind == "agent_reply"@ && es[j].visibility
                    == "public"@));
        lemma_first_reply_index(es, k);
        assert forall|m: int|
            #![trigger es[m]]
            0 <= m < es.len() && es[m].kind == "agent_reply"@ && es[m].visibility == "public"@
                && (forall|j: int|
                0 <= j < m ==> !((#[trigger] es[j]).kind == "agent_reply"@ && es[j].visibility
                    == "public"@)) implies m == k by {
            if m < k {
                assert(!(es[m].kind == "agent_reply"@ && es[m].visibility == "public"@));
            } else if m > k {
                assert(!(es[k].kind == "agent_reply"@ && es[k].visibility == "public"@));
            }
        }
    } else {
        lemma_no_reply(es);
    }
    let resolved = exists|i: int| 0 <= i < es.len() && (#[trigger] es[i]).kind == "resolved"@;
    if resolved {
        let i = choose|i: int| 0 <= i < es.len() && (#[trigger] es[i]).kind == "resolved"@;
        lemma_some_last_resolution(es, i);
        let k = choose|k: int|
            #![trigger es[k]]
            0 <= k < es.len() && es[k].kind == "resolved"@ && (forall|j: int|
                k < j < es.len() ==> (#[trigger] es[j]).kind != "resolved"@);
        lemma_last_resolution_index(es, k);
        assert forall|m: int|
            #![trigger es[m]]
            0 <= m < es.len() && es[m].kind == "resolved"@ && (forall|j: int|
                m < j < es.len() ==> (#[trigger] es[j]).kind != "resolved"@) implies m == k by {
            if m < k {
                assert(es[k].kind != "resolved"@);
            } else if m > k {
                assert(es[m].kind != "resolved"@);
            }
        }
    } else {
        lemma_no_resolution(es);
    }
}

/// Whether event `k` is the first public agent reply of `es`.
pub open spec fn is_first_reply(es: Seq<TicketEventView>, k: int) -> bool {
    &&& 0 <= k < es.len()
    &&& es[k].kind == "agent_reply"@ && es[k].visibility == "public"@
    &&& forall|j: int| 0 <= j < k ==> !((#[trigger] es[j]).kind == "agent_reply"@ && es[j].visibility == "public"@)
}

/// Whether event `k` is the last `resolved` event of `es`.
pub open spec fn is_last_resolution(es: Seq<TicketEventView>, k: int) -> bool {
    &&& 0 <= k < es.len()
    &&& es[k].kind == "resolved"@
    &&& forall|j: int| k < j < es.len() ==> (#[trigger] es[j]).kind != "resolved"@
}

/// Whether the time of the first public agent reply, if any, is a date.
pub open spec fn reply_time_readable(t: TicketView) -> bool {
    forall|k: int| #[trigger] is_first_reply(t.events, k) ==> rfc3339_instant(t.events[k].at) is Some
}

/// Whether the resolution time of a resolved or closed ticket is a date:
/// that of its last `resolved` event, or, without one, its update time if
/// it has one.
pub open spec fn resolution_time_readable(t: TicketView) -> bool {
    (t.status == super::TicketStatus::Resolved || t.status == super::TicketStatus::Closed) ==> {
        &&& forall|k: int| #[trigger] is_last_resolution(t.events, k) ==> rfc3339_instant(t.events[k].at) is Some
        &&& (forall|j: int| 0 <= j < t.events.len() ==> (#[trigger] t.events[j]).kind != "resolved"@)
            && t.updated_at is Some ==> rfc3339_instant(t.updated_at->Some_0) is Some
    }
}

proof fn lemma_first_response_outcome(t: TicketView)
    ensures
        first_response_outcome(t) is Ok <==> reply_time_readable(t),
        first_response_outcome(t) is Err ==> first_response_outcome(t) == Err::<Option<(i64, u32)>, SupportError>(
            SupportError::InvalidDate(FieldName::EventTime),
        ),
{
    let es = t.events;
    if exists|i: int| 0 <= i < es.len() && ((#[trigger] es[i]).kind == "agent_reply"@ && es[i].visibility == "public"@) {
        let i = choose|i: int| 0 <= i < es.len() && ((#[trigger] es[i]).kind == "agent_reply"@ && es[i].visibility == "public"@);
        lemma_some_first_reply(es, i);
        let k = choose|k: int|
            #![trigger es[k]]
            0 <= k < es.len() && es[k].kind == "agent_reply"@ && es[k].visibility == "public"@
                && (forall|j: int| 0 <= j < k ==> !((#[trigger] es[j]).kind == "agent_reply"@ && es[j].visibility == "public"@));
        lemma_first_reply_index(es, k);
        assert(is_first_reply(es, k));
        assert forall|m: int| #[trigger] is_first_reply(es, m) implies m == k by {
            if m < k {
                assert(!(es[m].kind == "agent_reply"@ && es[m].visibility == "public"@));
            } else if m > k {
                assert(!(es[k].kind == "agent_reply"@ && es[k].visibility == "public"@));
            }
        }
    } else {
        lemma_no_reply(es);
        assert forall|m: int| #[trigger] is_first_reply(es, m) implies false by {
            assert(es[m].kind == "agent_reply"@ && es[m].visibility == "public"@);
        }
    }
}

proof fn lemma_resolution_outcome(t: TicketView)
    ensures
        resolution_outcome(t) is Ok <==> resolution_time_readable(t),
        resolution_outcome(t) is Err && (exists|k: int| #[trigger] is_last_resolution(t.events, k))
            ==> resolution_outcome(t) == Err::<Option<(i64, u32)>, SupportError>(
            SupportError::InvalidDate(FieldName::EventTime),
        ),
        resolution_outcome(t) is Err && !(exists|k: int| #[trigger] is_last_resolution(t.events, k))
            ==> resolution_outcome(t) == Err::<Option<(i64, u32)>, SupportError>(
            SupportError::InvalidDate(FieldName::TicketUpdatedAt),
        ),
{
    let es = t.events;
    if exists|i: int| 0 <= i < es.len() && (#[trigger] es[i]).kind == "resolved"@ {
        let i = choose|i: int| 0 <= i < es.len() && (#[trigger] es[i]).kind == "resolved"@;
        lemma_some_last_resolution(es, i);
        let k = choose|k: int|
            #![trigger es[k]]
            0 <= k < es.len() && es[k].kind == "resolved"@ && (forall|j: int| k < j < es.len() ==> (#[trigger] es[j]).kind != "resolved"@);
        lemma_last_resolution_index(es, k);
        assert(is_last_resolution(es, k));
        assert(es[k].kind == "resolved"@);
        assert forall|m: int| #[trigger] is_last_resolution(es, m) implies m == k by {
            if m < k {
                assert(es[k].kind != "resolved"@);
            } else if m > k {
                assert(es[m].kind != "resolved"@);
            }
        }
    } else {
        lemma_no_resolution(es);
        assert forall|m: int| #[trigger] is_last_resolution(es, m) implies false by {
            assert(es[m].kind == "resolved"@);
        }
    }
}

/// What computing an SLA refuses, over all tickets, policies and instants,
/// in this order: an unusable policy gives the policy's error; then a
/// creation time that is not a date; then a first public agent reply whose
/// time is not a date; then, for a resolved or closed ticket, a last
/// `resolved` event whose time is not a date, or, without one, an update
/// time that is not a date; then, for the first response and then the
/// resolution, a duration too large to count in milliseconds, or a deadline
/// beyond the dates that can be represented.
pub proof fn lemma_sla_error(t: TicketView, policy: SlaPolicy, at: (i64, u32))
    ensures
        !policy_usable(policy) ==> sla_outcome(t, policy, at) == Err::<TicketSlaView, SupportError>(
            policy_error(policy)->Some_0,
        ),
        policy_usable(policy) && rfc3339_instant(t.created_at) is None ==> sla_outcome(t, policy, at) == Err::<
            TicketSlaView,
            SupportError,
        >(SupportError::InvalidDate(FieldName::TicketCreatedAt)),
        policy_usable(policy) && rfc3339_instant(t.created_at) is Some && !reply_time_readable(t)
            ==> sla_outcome(t, policy, at) == Err::<TicketSlaView, SupportError>(
            SupportError::InvalidDate(FieldName::EventTime),
        ),
        policy_usable(policy) && rfc3339_instant(t.created_at) is Some && reply_time_readable(t)
            && !resolution_time_readable(t) ==> sla_outcome(t, policy, at) == Err::<TicketSlaView, SupportError>(
            SupportError::InvalidDate(
                if exists|k: int| #[trigger] is_last_resolution(t.events, k) {
                    FieldName::EventTime
                } else {
                    FieldName::TicketUpdatedAt
                },
            ),
        ),
        policy_usable(policy) && rfc3339_instant(t.created_at) is Some && reply_time_readable(t)
            && resolution_time_readable(t) ==> {
            let fr = governing_rule(policy, t.priority).first_response_hours;
            let rs = governing_rule(policy, t.priority).resolution_hours;
            &&& fr == SlaHours::TooLarge ==> sla_outcome(t, policy, at) == Err::<TicketSlaView, SupportError>(
                SupportError::DurationTooLarge,
            )
            &&& fr is Millis && due_after_creation(t, fr) is None ==> sla_outcome(t, policy, at) == Err::<
                TicketSlaView,
                SupportError,
            >(SupportError::DeadlineOutOfRange)
            &&& due_after_creation(t, fr) is Some && rs == SlaHours::TooLarge ==> sla_outcome(t, policy, at)
                == Err::<TicketSlaView, SupportError>(SupportError::DurationTooLarge)
            &&& due_after_creation(t, fr) is Some && rs is Millis && due_after_creation(t, rs) is None
                ==> sla_outcome(t, policy, at) == Err::<TicketSlaView, SupportError>(
                SupportError::DeadlineOutOfRange,
            )
        },
{
    lemma_policy_check(policy);
    lemma_first_response_outcome(t);
    lemma_resolution_outcome(t);
    assert(policy.rule_of(t.priority) == governing_rule(policy, t.priority));
}

} // verus!
