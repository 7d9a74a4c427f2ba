use customer_support_cli::{
    route_ticket, FieldName, MatchValue, RoutingMatch, RoutingRule, SupportError, Ticket,
    TicketPriority, TicketStatus,
};

fn ticket() -> Ticket {
    Ticket {
        id: "T-1".to_owned(),
        subject: None,
        created_at: "2024-01-01T00:00:00.000Z".to_owned(),
        updated_at: None,
        priority: TicketPriority::High,
        status: TicketStatus::Open,
        channel: Some("email".to_owned()),
        requester_id: None,
        assignee: None,
        team: None,
        product_area: Some("billing".to_owned()),
        tags: vec!["enterprise".to_owned(), "vip".to_owned()],
        events: Vec::new(),
    }
}

fn rule(id: &str, team: &str, criteria: RoutingMatch) -> RoutingRule {
    RoutingRule { id: id.to_owned(), team: team.to_owned(), criteria }
}

#[test]
fn match_value_one_and_many() {
    let one = MatchValue::One("email".to_owned());
    assert!(one.matches(Some("email")));
    assert!(!one.matches(Some("chat")));
    assert!(!one.matches(None));
    let empty = MatchValue::One(String::new());
    assert!(empty.matches(None));
    let many = MatchValue::Many(vec!["chat".to_owned(), "email".to_owned()]);
    assert!(many.matches(Some("email")));
    assert!(!many.matches(Some("phone")));
    assert!(!MatchValue::Many(Vec::new()).matches(Some("")));
}

#[test]
fn first_matching_rule_decides() {
    let mut by_channel = RoutingMatch::default();
    by_channel.channel = Some(MatchValue::One("chat".to_owned()));
    let mut by_priority = RoutingMatch::default();
    by_priority.priority = Some(MatchValue::Many(vec!["urgent".to_owned(), "high".to_owned()]));
    let rules = vec![
        rule("chat", "chat-team", by_channel),
        rule(" prio ", " escalations ", by_priority),
        rule("all", "everyone", RoutingMatch::default()),
    ];
    let d = route_ticket(&ticket(), rules).unwrap();
    assert_eq!(d.ticket_id, "T-1");
    assert_eq!(d.rule_id.as_deref(), Some("prio"));
    assert_eq!(d.team.as_deref(), Some("escalations"));
}

#[test]
fn rule_tags_are_normalized_and_all_required() {
    let mut needs_missing = RoutingMatch::default();
    needs_missing.tags = vec!["VIP".to_owned(), "gold".to_owned()];
    let mut needs_present = RoutingMatch::default();
    needs_present.tags = vec![" VIP ".to_owned(), "Enterprise".to_owned()];
    needs_present.product_area = Some(MatchValue::One("billing".to_owned()));
    let rules = vec![rule("missing", "a", needs_missing), rule("present", "b", needs_present)];
    let d = route_ticket(&ticket(), rules).unwrap();
    assert_eq!(d.rule_id.as_deref(), Some("present"));
}

#[test]
fn no_rule_matches() {
    let mut m = RoutingMatch::default();
    m.product_area = Some(MatchValue::One("shipping".to_owned()));
    let d = route_ticket(&ticket(), vec![rule("r", "t", m)]).unwrap();
    assert_eq!(d.rule_id, None);
    assert_eq!(d.team, None);
    let d = route_ticket(&ticket(), Vec::new()).unwrap();
    assert_eq!(d.rule_id, None);
}

#[test]
fn routing_errors() {
    let mut blank_tag = RoutingMatch::default();
    blank_tag.tags = vec![" ".to_owned()];
    let err = route_ticket(&ticket(), vec![rule("r", "t", blank_tag)]).unwrap_err();
    assert_eq!(err, SupportError::EmptyValue(FieldName::Tag));
    let err = route_ticket(
        &ticket(),
        vec![rule("r", "t", {
            let mut m = RoutingMatch::default();
            m.channel = Some(MatchValue::One("fax".to_owned()));
            m
        }), rule("  ", "t", RoutingMatch::default())],
    )
    .unwrap_err();
    assert_eq!(err, SupportError::EmptyValue(FieldName::RuleId(1)));
    let err = route_ticket(&ticket(), vec![rule("r", "", RoutingMatch::default())]).unwrap_err();
    assert_eq!(err, SupportError::EmptyValue(FieldName::RuleTeam(0)));
}

#[test]
fn routing_stops_at_match_before_later_bad_rules() {
    let mut blank_tag = RoutingMatch::default();
    blank_tag.tags = vec!["".to_owned()];
    let rules = vec![rule("first", "team", RoutingMatch::default()), rule("", "", blank_tag)];
    let d = route_ticket(&ticket(), rules).unwrap();
    assert_eq!(d.rule_id.as_deref(), Some("first"));
}

#[test]
fn routing_missing_channel_counts_as_empty() {
    let mut t = ticket();
    t.channel = None;
    let mut m = RoutingMatch::default();
    m.channel = Some(MatchValue::One(String::new()));
    let d = route_ticket(&t, vec![rule("empty", "t", m)]).unwrap();
    assert_eq!(d.rule_id.as_deref(), Some("empty"));
}
