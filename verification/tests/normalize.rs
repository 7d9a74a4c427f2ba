use customer_support_cli::{
    normalize_ticket, parse_optional_date, FieldName, SupportError, Ticket, TicketEvent,
    TicketPriority, TicketStatus, Timestamp,
};

fn event(kind: &str, at: &str) -> TicketEvent {
    TicketEvent {
        kind: kind.to_owned(),
        at: at.to_owned(),
        actor: None,
        body: None,
        visibility: "public".to_owned(),
    }
}

fn ticket(id: &str, created_at: &str) -> Ticket {
    Ticket {
        id: id.to_owned(),
        subject: None,
        created_at: created_at.to_owned(),
        updated_at: None,
        priority: TicketPriority::default(),
        status: TicketStatus::default(),
        channel: None,
        requester_id: None,
        assignee: None,
        team: None,
        product_area: None,
        tags: Vec::new(),
        events: Vec::new(),
    }
}

#[test]
fn defaults_are_normal_and_open() {
    assert_eq!(TicketPriority::default(), TicketPriority::Normal);
    assert_eq!(TicketStatus::default(), TicketStatus::Open);
}

#[test]
fn normalize_trims_and_rewrites_dates() {
    let mut t = ticket("  T-1 ", "2024-01-01T10:00:00+02:00");
    t.subject = Some("  Printer on fire  ".to_owned());
    t.channel = Some("   ".to_owned());
    t.assignee = Some(" ana ".to_owned());
    let n = normalize_ticket(t).unwrap();
    assert_eq!(n.id, "T-1");
    assert_eq!(n.subject.as_deref(), Some("Printer on fire"));
    assert_eq!(n.channel, None);
    assert_eq!(n.assignee.as_deref(), Some("ana"));
    assert_eq!(n.created_at, "2024-01-01T08:00:00.000Z");
    assert_eq!(n.updated_at.as_deref(), Some("2024-01-01T08:00:00.000Z"));
}

#[test]
fn normalize_keeps_given_update_time() {
    let mut t = ticket("T-2", "2024-01-01T00:00:00Z");
    t.updated_at = Some("2024-01-02T03:04:05.678901Z".to_owned());
    let n = normalize_ticket(t).unwrap();
    assert_eq!(n.updated_at.as_deref(), Some("2024-01-02T03:04:05.678Z"));
}

#[test]
fn normalize_tags_are_lowercase_sorted_and_distinct() {
    let mut t = ticket("T-3", "2024-01-01T00:00:00Z");
    t.tags = vec![" VIP".to_owned(), "billing".to_owned(), "vip ".to_owned(), "Api".to_owned()];
    let n = normalize_ticket(t).unwrap();
    assert_eq!(n.tags, vec!["api".to_owned(), "billing".to_owned(), "vip".to_owned()]);
}

#[test]
fn normalize_tag_order_does_not_matter() {
    let mut a = ticket("T-4", "2024-01-01T00:00:00Z");
    a.tags = vec!["b".to_owned(), "a".to_owned(), "b".to_owned()];
    let mut b = ticket("T-4", "2024-01-01T00:00:00Z");
    b.tags = vec!["a".to_owned(), "b".to_owned()];
    assert_eq!(normalize_ticket(a).unwrap().tags, normalize_ticket(b).unwrap().tags);
}

#[test]
fn normalize_sorts_events_stably_by_time() {
    let mut t = ticket("T-5", "2024-01-01T00:00:00Z");
    t.events = vec![
        event("note", "2024-01-03T00:00:00Z"),
        event("first", "2024-01-02T00:00:00Z"),
        event("second", "2024-01-02T00:00:00+00:00"),
    ];
    let n = normalize_ticket(t).unwrap();
    let kinds: Vec<&str> = n.events.iter().map(|e| e.kind.as_str()).collect();
    assert_eq!(kinds, vec!["first", "second", "note"]);
    assert_eq!(n.events[0].at, "2024-01-02T00:00:00.000Z");
}

#[test]
fn normalize_event_fields() {
    let mut t = ticket("T-6", "2024-01-01T00:00:00Z");
    let mut e = event("  agent_reply ", "2024-01-02T00:00:00Z");
    e.actor = Some("  ".to_owned());
    e.body = Some(" hi ".to_owned());
    e.visibility = " internal ".to_owned();
    t.events = vec![e];
    let n = normalize_ticket(t).unwrap();
    assert_eq!(n.events[0].kind, "agent_reply");
    assert_eq!(n.events[0].actor, None);
    assert_eq!(n.events[0].body.as_deref(), Some("hi"));
    assert_eq!(n.events[0].visibility, "internal");
}

#[test]
fn normalize_rejects_blank_id() {
    let t = ticket(" \t ", "2024-01-01T00:00:00Z");
    assert_eq!(normalize_ticket(t).unwrap_err(), SupportError::EmptyValue(FieldName::TicketId));
}

#[test]
fn normalize_rejects_bad_creation_time() {
    let t = ticket("T-7", "yesterday");
    assert_eq!(
        normalize_ticket(t).unwrap_err(),
        SupportError::InvalidDate(FieldName::TicketCreatedAt)
    );
}

#[test]
fn normalize_rejects_bad_update_time() {
    let mut t = ticket("T-8", "2024-01-01T00:00:00Z");
    t.updated_at = Some("2024-13-01T00:00:00Z".to_owned());
    assert_eq!(
        normalize_ticket(t).unwrap_err(),
        SupportError::InvalidDate(FieldName::TicketUpdatedAt)
    );
}

#[test]
fn normalize_rejects_blank_tag() {
    let mut t = ticket("T-9", "2024-01-01T00:00:00Z");
    t.tags = vec!["ok".to_owned(), "  ".to_owned()];
    assert_eq!(normalize_ticket(t).unwrap_err(), SupportError::EmptyValue(FieldName::Tag));
}

#[test]
fn normalize_rejects_bad_events_in_order() {
    let mut t = ticket("T-10", "2024-01-01T00:00:00Z");
    let mut bad_visibility = event("note", "2024-01-02T00:00:00Z");
    bad_visibility.visibility = " ".to_owned();
    t.events = vec![event("note", "2024-01-02T00:00:00Z"), bad_visibility, event(" ", "x")];
    assert_eq!(
        normalize_ticket(t.clone()).unwrap_err(),
        SupportError::EmptyValue(FieldName::EventVisibility(1))
    );
    t.events = vec![event("note", "not a date")];
    assert_eq!(normalize_ticket(t.clone()).unwrap_err(), SupportError::InvalidDate(FieldName::EventAt(0)));
    t.events = vec![event("note", "2024-01-02T00:00:00Z"), event("", "2024-01-02T00:00:00Z")];
    assert_eq!(normalize_ticket(t).unwrap_err(), SupportError::EmptyValue(FieldName::EventType(1)));
}

#[test]
fn normalize_twice_gives_the_same_ticket() {
    let mut t = ticket(" T-11 ", "2024-01-01T10:00:00+02:00");
    t.tags = vec!["B".to_owned(), "a".to_owned()];
    t.events = vec![event("x", "2024-01-03T00:00:00Z"), event("y", "2024-01-02T00:00:00Z")];
    let once = normalize_ticket(t).unwrap();
    let twice = normalize_ticket(once.clone()).unwrap();
    assert_eq!(format!("{:?}", once), format!("{:?}", twice));
}

#[test]
fn parse_optional_date_cases() {
    assert_eq!(parse_optional_date(None, "--at"), Ok(None));
    let t = parse_optional_date(Some("1970-01-01T00:00:01.5Z"), "--at").unwrap().unwrap();
    assert_eq!(t.unix_seconds(), 1);
    assert_eq!(t.subsec_nanos(), 500_000_000);
    assert_eq!(
        parse_optional_date(Some("soon"), "--at"),
        Err(SupportError::InvalidDate(FieldName::Label("--at".to_owned())))
    );
}

#[test]
fn timestamps_from_unix_seconds() {
    let t = Timestamp::from_unix(86_400, 0).unwrap();
    assert_eq!(t.unix_seconds(), 86_400);
    assert_eq!(Timestamp::from_unix(0, 2_000_000_000), None);
    assert_eq!(Timestamp::from_unix(i64::MAX, 0), None);
    assert!(Timestamp::from_unix(1, 0).unwrap().not_after(&Timestamp::from_unix(1, 1).unwrap()));
    assert!(!Timestamp::from_unix(2, 0).unwrap().not_after(&Timestamp::from_unix(1, 999).unwrap()));
}

#[test]
fn normalize_trims_unicode_white_space() {
    let mut t = ticket("\u{3000}T-12\u{a0}\n", "2024-01-01T00:00:00Z");
    t.team = Some("\u{2003}support\t".to_owned());
    let n = normalize_ticket(t).unwrap();
    assert_eq!(n.id, "T-12");
    assert_eq!(n.team.as_deref(), Some("support"));
}

#[test]
fn normalize_tags_sort_by_code_point_and_prefix_first() {
    let mut t = ticket("T-13", "2024-01-01T00:00:00Z");
    t.tags = vec!["Émoji".to_owned(), "zeta".to_owned(), "ab".to_owned(), "abc".to_owned(), "Ab".to_owned()];
    let n = normalize_ticket(t).unwrap();
    assert_eq!(
        n.tags,
        vec!["ab".to_owned(), "abc".to_owned(), "zeta".to_owned(), "émoji".to_owned()]
    );
}

#[test]
fn normalize_keeps_leap_second_and_offsets() {
    let mut t = ticket("T-14", "2016-12-31T23:59:60.5Z");
    t.events = vec![event("e", "2024-06-30T20:00:00-05:00")];
    let n = normalize_ticket(t).unwrap();
    assert_eq!(n.created_at, "2016-12-31T23:59:60.500Z");
    assert_eq!(n.events[0].at, "2024-07-01T01:00:00.000Z");
}
