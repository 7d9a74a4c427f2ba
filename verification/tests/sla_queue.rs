use customer_support_cli::support::sla::milestone;
use customer_support_cli::{
    build_queue, build_timeline, compute_sla, parse_optional_date, validate_policy, FieldName,
    MilestoneState, SlaHours, SlaPolicy, SlaPriorities, SlaRule, SupportError, Ticket, TicketEvent,
    TicketPriority, TicketStatus, Timestamp,
};

const HOUR: i64 = 3_600_000;

fn rule(first: i64, resolution: i64) -> SlaRule {
    SlaRule {
        first_response_hours: SlaHours::Millis(first * HOUR),
        resolution_hours: SlaHours::Millis(resolution * HOUR),
    }
}

fn policy() -> SlaPolicy {
    SlaPolicy {
        priorities: SlaPriorities {
            low: rule(24, 120),
            normal: rule(8, 48),
            high: rule(4, 24),
            urgent: rule(1, 4),
        },
    }
}

fn at(text: &str) -> Timestamp {
    parse_optional_date(Some(text), "at").unwrap().unwrap()
}

fn event(kind: &str, at: &str, visibility: &str) -> TicketEvent {
    TicketEvent {
        kind: kind.to_owned(),
        at: at.to_owned(),
        actor: None,
        body: None,
        visibility: visibility.to_owned(),
    }
}

fn ticket(id: &str, created_at: &str, priority: TicketPriority) -> Ticket {
    Ticket {
        id: id.to_owned(),
        subject: Some("subject".to_owned()),
        created_at: created_at.to_owned(),
        updated_at: None,
        priority,
        status: TicketStatus::Open,
        channel: None,
        requester_id: Some("req".to_owned()),
        assignee: None,
        team: None,
        product_area: None,
        tags: Vec::new(),
        events: Vec::new(),
    }
}

#[test]
fn validate_policy_accepts_positive_hours() {
    assert_eq!(validate_policy(&policy()), Ok(()));
}

#[test]
fn validate_policy_reports_first_defect() {
    let mut p = policy();
    p.priorities.high.resolution_hours = SlaHours::NotPositive;
    assert_eq!(validate_policy(&p), Err(SupportError::ResolutionHoursNotPositive));
    p.priorities.urgent.first_response_hours = SlaHours::NotPositive;
    assert_eq!(validate_policy(&p), Err(SupportError::ResolutionHoursNotPositive));
    p.priorities.low.first_response_hours = SlaHours::NotPositive;
    assert_eq!(validate_policy(&p), Err(SupportError::FirstResponseHoursNotPositive));
}

#[test]
fn rule_of_each_priority() {
    let p = policy();
    assert_eq!(*p.rule(TicketPriority::Urgent), rule(1, 4));
    assert_eq!(*p.rule(TicketPriority::Low), rule(24, 120));
}

#[test]
fn sla_pending_when_nothing_happened() {
    let t = ticket("T-1", "2024-01-01T00:00:00Z", TicketPriority::High);
    let sla = compute_sla(&t, &policy(), at("2024-01-01T01:00:00Z")).unwrap();
    assert_eq!(sla.ticket_id, "T-1");
    assert_eq!(sla.evaluated_at, "2024-01-01T01:00:00.000Z");
    assert_eq!(sla.first_response.due_at, "2024-01-01T04:00:00.000Z");
    assert_eq!(sla.first_response.state, MilestoneState::Pending);
    assert_eq!(sla.first_response.completed_at, None);
    assert_eq!(sla.resolution.due_at, "2024-01-02T00:00:00.000Z");
    assert_eq!(sla.resolution.state, MilestoneState::Pending);
}

#[test]
fn sla_due_exactly_now_is_pending_and_later_breached() {
    let t = ticket("T-2", "2024-01-01T00:00:00Z", TicketPriority::Urgent);
    let on_time = compute_sla(&t, &policy(), at("2024-01-01T01:00:00Z")).unwrap();
    assert_eq!(on_time.first_response.state, MilestoneState::Pending);
    let late = compute_sla(&t, &policy(), at("2024-01-01T01:00:00.001Z")).unwrap();
    assert_eq!(late.first_response.state, MilestoneState::Breached);
    let later = compute_sla(&t, &policy(), at("2024-02-01T00:00:00Z")).unwrap();
    assert_eq!(later.first_response.state, MilestoneState::Breached);
    assert_eq!(later.resolution.state, MilestoneState::Breached);
}

#[test]
fn sla_first_response_is_first_public_agent_reply() {
    let mut t = ticket("T-3", "2024-01-01T00:00:00Z", TicketPriority::Urgent);
    t.events = vec![
        event("agent_reply", "2024-01-01T00:10:00Z", "internal"),
        event("customer_reply", "2024-01-01T00:20:00Z", "public"),
        event("agent_reply", "2024-01-01T02:00:00Z", "public"),
        event("agent_reply", "2024-01-01T00:30:00Z", "public"),
    ];
    let sla = compute_sla(&t, &policy(), at("2024-01-01T03:00:00Z")).unwrap();
    assert_eq!(sla.first_response.completed_at.as_deref(), Some("2024-01-01T02:00:00.000Z"));
    assert_eq!(sla.first_response.state, MilestoneState::Breached);
}

#[test]
fn sla_met_when_reply_in_time() {
    let mut t = ticket("T-4", "2024-01-01T00:00:00Z", TicketPriority::Normal);
    t.events = vec![event("agent_reply", "2024-01-01T08:00:00Z", "public")];
    let sla = compute_sla(&t, &policy(), at("2024-05-01T00:00:00Z")).unwrap();
    assert_eq!(sla.first_response.state, MilestoneState::Met);
}

#[test]
fn sla_resolution_from_last_resolved_event_or_update_time() {
    let mut t = ticket("T-5", "2024-01-01T00:00:00Z", TicketPriority::Urgent);
    t.status = TicketStatus::Resolved;
    t.updated_at = Some("2024-01-09T00:00:00Z".to_owned());
    t.events = vec![
        event("resolved", "2024-01-01T02:00:00Z", "public"),
        event("resolved", "2024-01-01T05:00:00Z", "public"),
    ];
    let sla = compute_sla(&t, &policy(), at("2024-01-10T00:00:00Z")).unwrap();
    assert_eq!(sla.resolution.completed_at.as_deref(), Some("2024-01-01T05:00:00.000Z"));
    assert_eq!(sla.resolution.state, MilestoneState::Breached);
    t.events = Vec::new();
    t.status = TicketStatus::Closed;
    let sla = compute_sla(&t, &policy(), at("2024-01-10T00:00:00Z")).unwrap();
    assert_eq!(sla.resolution.completed_at.as_deref(), Some("2024-01-09T00:00:00.000Z"));
    t.status = TicketStatus::Pending;
    let sla = compute_sla(&t, &policy(), at("2024-01-10T00:00:00Z")).unwrap();
    assert_eq!(sla.resolution.completed_at, None);
}

#[test]
fn sla_errors() {
    let mut t = ticket("T-6", "2024-01-01T00:00:00Z", TicketPriority::Low);
    let mut p = policy();
    p.priorities.low.first_response_hours = SlaHours::TooLarge;
    assert_eq!(compute_sla(&t, &p, at("2024-01-01T00:00:00Z")).unwrap_err(), SupportError::DurationTooLarge);
    p.priorities.low.first_response_hours = SlaHours::Millis(i64::MAX);
    assert_eq!(compute_sla(&t, &p, at("2024-01-01T00:00:00Z")).unwrap_err(), SupportError::DeadlineOutOfRange);
    p.priorities.normal.resolution_hours = SlaHours::NotPositive;
    assert_eq!(compute_sla(&t, &p, at("2024-01-01T00:00:00Z")).unwrap_err(), SupportError::ResolutionHoursNotPositive);
    t.events = vec![event("agent_reply", "never", "public")];
    assert_eq!(
        compute_sla(&t, &policy(), at("2024-01-01T00:00:00Z")).unwrap_err(),
        SupportError::InvalidDate(FieldName::EventTime)
    );
    t.created_at = "bad".to_owned();
    assert_eq!(
        compute_sla(&t, &policy(), at("2024-01-01T00:00:00Z")).unwrap_err(),
        SupportError::InvalidDate(FieldName::TicketCreatedAt)
    );
}

#[test]
fn sla_zero_milliseconds_is_due_at_creation() {
    let t = ticket("T-7", "2024-01-01T00:00:00Z", TicketPriority::Low);
    let mut p = policy();
    p.priorities.low.first_response_hours = SlaHours::Millis(0);
    let sla = compute_sla(&t, &p, at("2024-01-01T00:00:00Z")).unwrap();
    assert_eq!(sla.first_response.due_at, "2024-01-01T00:00:00.000Z");
}

#[test]
fn timeline_starts_with_creation_and_is_sorted() {
    let mut t = ticket("T-8", "2024-01-01T00:00:00.000Z", TicketPriority::Low);
    t.events = vec![
        event("b", "2024-01-03T00:00:00.000Z", "public"),
        event("a", "2024-01-02T00:00:00.000Z", "internal"),
        event("same", "2024-01-01T00:00:00.000Z", "public"),
    ];
    let timeline = build_timeline(&t);
    let kinds: Vec<&str> = timeline.iter().map(|e| e.kind.as_str()).collect();
    assert_eq!(kinds, vec!["created", "same", "a", "b"]);
    assert_eq!(timeline[0].actor.as_deref(), Some("req"));
    assert_eq!(timeline[0].body.as_deref(), Some("subject"));
    assert_eq!(timeline[0].visibility, "public");
}

#[test]
fn queue_orders_breached_then_priority_then_deadline() {
    let now = at("2024-01-01T10:00:00Z");
    let breached_low = ticket("A", "2023-12-01T00:00:00Z", TicketPriority::Low);
    let urgent = ticket("B", "2024-01-01T09:30:00Z", TicketPriority::Urgent);
    let high_late = ticket("C", "2024-01-01T09:00:00Z", TicketPriority::High);
    let high_early = ticket("D", "2024-01-01T08:00:00Z", TicketPriority::High);
    let queue = build_queue(vec![high_late, breached_low, urgent, high_early], &policy(), now, false).unwrap();
    let ids: Vec<&str> = queue.iter().map(|e| e.ticket.id.as_str()).collect();
    assert_eq!(ids, vec!["A", "B", "D", "C"]);
    assert!(queue[0].breached);
    assert!(!queue[1].breached);
    assert_eq!(queue[2].next_deadline, "2024-01-01T12:00:00.000Z");
}

#[test]
fn queue_next_deadline_moves_to_resolution_after_reply() {
    let mut t = ticket("E", "2024-01-01T00:00:00Z", TicketPriority::High);
    t.events = vec![event("agent_reply", "2024-01-01T01:00:00Z", "public")];
    let queue = build_queue(vec![t], &policy(), at("2024-01-01T02:00:00Z"), false).unwrap();
    assert_eq!(queue[0].next_deadline, "2024-01-02T00:00:00.000Z");
}

#[test]
fn queue_leaves_out_resolved_unless_asked() {
    let mut done = ticket("F", "2024-01-01T00:00:00Z", TicketPriority::High);
    done.status = TicketStatus::Closed;
    let open = ticket("G", "2024-01-01T00:00:00Z", TicketPriority::High);
    let now = at("2024-01-01T01:00:00Z");
    let queue = build_queue(vec![done.clone(), open.clone()], &policy(), now, false).unwrap();
    assert_eq!(queue.len(), 1);
    assert_eq!(queue[0].ticket.id, "G");
    let queue = build_queue(vec![done, open], &policy(), now, true).unwrap();
    assert_eq!(queue.len(), 2);
}

#[test]
fn queue_ties_on_id_and_normalizes() {
    let a = ticket(" same ", "2024-01-01T00:00:00Z", TicketPriority::High);
    let mut b = ticket("same", "2024-01-01T00:00:00Z", TicketPriority::High);
    b.subject = Some("second".to_owned());
    let queue = build_queue(vec![a, b], &policy(), at("2024-01-01T00:00:00Z"), false).unwrap();
    assert_eq!(queue[0].ticket.subject.as_deref(), Some("subject"));
    assert_eq!(queue[1].ticket.subject.as_deref(), Some("second"));
    assert_eq!(queue[0].ticket.id, "same");
}

#[test]
fn queue_reports_errors_even_of_left_out_tickets() {
    let mut done = ticket(" ", "2024-01-01T00:00:00Z", TicketPriority::High);
    done.status = TicketStatus::Resolved;
    let err = build_queue(vec![done], &policy(), at("2024-01-01T00:00:00Z"), false).unwrap_err();
    assert_eq!(err, SupportError::EmptyValue(FieldName::TicketId));
    let mut bad = policy();
    bad.priorities.urgent.first_response_hours = SlaHours::NotPositive;
    let open = ticket("H", "2024-01-01T00:00:00Z", TicketPriority::High);
    assert_eq!(
        build_queue(vec![open], &bad, at("2024-01-01T00:00:00Z"), false).unwrap_err(),
        SupportError::FirstResponseHoursNotPositive
    );
    assert_eq!(build_queue(Vec::new(), &bad, at("2024-01-01T00:00:00Z"), false).unwrap().len(), 0);
}

#[test]
fn milestone_states_on_given_instants() {
    let due = Timestamp::from_unix(1_000, 0).unwrap();
    let before = Timestamp::from_unix(999, 999_999_999).unwrap();
    let after = Timestamp::from_unix(1_000, 1).unwrap();
    assert_eq!(milestone(&due, None, &before).state, MilestoneState::Pending);
    assert_eq!(milestone(&due, None, &due).state, MilestoneState::Pending);
    assert_eq!(milestone(&due, None, &after).state, MilestoneState::Breached);
    assert_eq!(milestone(&due, Some(due), &after).state, MilestoneState::Met);
    assert_eq!(milestone(&due, Some(after), &before).state, MilestoneState::Breached);
    let m = milestone(&due, Some(before), &after);
    assert_eq!(m.due_at, "1970-01-01T00:16:40.000Z");
    assert_eq!(m.completed_at.as_deref(), Some("1970-01-01T00:16:39.999Z"));
}
