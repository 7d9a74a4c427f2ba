//! Routing a ticket: the first rule whose match applies, and why.

use vstd::prelude::*;
use super::{
    FieldName, MatchValueView, RoutingDecision, RoutingDecisionView, RoutingRule, RoutingRuleView,
    SupportError, Ticket, TicketView, match_value_accepts, rules_view,
};
use super::normalize::{
    has_blank_tag, lemma_normalized_tags, normalize_tags, normalized_tag, required, tags_outcome,
};
use super::queue::{priority_name, priority_text};
use super::text::{lowercase_text, text_equal, trim_spec};

verus! {

/// Whether an optional criterion accepts a value: a missing one accepts
/// anything.
pub open spec fn criterion_accepts(c: Option<MatchValueView>, actual: Option<Seq<char>>) -> bool {
    match c {
        None => true,
        Some(m) => match_value_accepts(m, actual),
    }
}

/// Whether a rule applies to a ticket, given the rule's normalized tags:
/// its channel, priority and product area criteria accept the ticket's, and
/// the ticket carries every tag.
pub open spec fn rule_applies(t: TicketView, rule: RoutingRuleView, tags: Seq<Seq<char>>) -> bool {
    &&& criterion_accepts(rule.criteria.channel, t.channel)
    &&& criterion_accepts(rule.criteria.priority, Some(priority_text(t.priority)))
    &&& criterion_accepts(rule.criteria.product_area, t.product_area)
    &&& forall|k: int| 0 <= k < tags.len() ==> t.tags.contains(#[trigger] tags[k])
}

/// The decision a matching rule gives: its trimmed id and team, which must
/// not be empty.
pub open spec fn decision_of(t: TicketView, rule: RoutingRuleView, index: usize) -> Result<
    RoutingDecisionView,
    SupportError,
> {
    if trim_spec(rule.id).len() == 0 {
        Err(SupportError::EmptyValue(FieldName::RuleId(index)))
    } else if trim_spec(rule.team).len() == 0 {
        Err(SupportError::EmptyValue(FieldName::RuleTeam(index)))
    } else {
        Ok(
            RoutingDecisionView {
                ticket_id: t.id,
                rule_id: Some(trim_spec(rule.id)),
                team: Some(trim_spec(rule.team)),
            },
        )
    }
}

/// The decision when no rule matches.
pub open spec fn no_match(t: TicketView) -> RoutingDecisionView {
    RoutingDecisionView { ticket_id: t.id, rule_id: None, team: None }
}

/// Routing by the rules from index `i` on: each rule's tags are normalized
/// (a blank tag is an error), and the first rule that applies decides.
pub open spec fn route_from(t: TicketView, rules: Seq<RoutingRuleView>, i: int) -> Result<
    RoutingDecisionView,
    SupportError,
>
    decreases rules.len() - i,
{
    if 0 <= i < rules.len() {
        match tags_outcome(rules[i].criteria.tags) {
            Err(e) => Err(e),
            Ok(tags) => if rule_applies(t, rules[i], tags) {
                decision_of(t, rules[i], i as usize)
            } else {
                route_from(t, rules, i + 1)
            },
        }
    } else {
        Ok(no_match(t))
    }
}

/// Where the ticket goes: the first rule that applies, or none.
pub open spec fn route_outcome(t: TicketView, rules: Seq<RoutingRuleView>) -> Result<
    RoutingDecisionView,
    SupportError,
> {
    route_from(t, rules, 0)
}

/// The view of the result of routing.
pub open spec fn decision_result_view(r: Result<RoutingDecision, SupportError>) -> Result<
    RoutingDecisionView,
    SupportError,
> {
    match r {
        Ok(d) => Ok(d@),
        Err(e) => Err(e),
    }
}

/// The text of an optional value, borrowed.
fn as_text(o: &Option<String>) -> (r: Option<&str>)
    ensures
        match r {
            Some(s) => Some(s@),
            None => None,
        } == o.deep_view(),
{
    match o {
        Some(s) => Some(s.as_str()),
        None => None,
    }
}

/// A copy of a list of texts.
fn copy_texts(v: &Vec<String>) -> (r: Vec<String>)
    ensures
        r.deep_view() == v.deep_view(),
{
    let mut r: Vec<String> = Vec::new();
    for i in 0..v.len()
        invariant
            r.deep_view() == v.deep_view().take(i as int),
    {
        let ghost prev = r.deep_view();
        r.push(v[i].clone());
        assert(r.deep_view() =~= prev.push(v[i as int]@));
        assert(v.deep_view().take(i + 1) =~= v.deep_view().take(i as int).push(v[i as int]@));
    }
    assert(v.deep_view().take(v.len() as int) =~= v.deep_view());
    r
}

/// Whether a list of texts holds `x`.
fn holds_text(v: &Vec<String>, x: &str) -> (r: bool)
    ensures
        r == v.deep_view().contains(x@),
{
    let mut i: usize = 0;
    while i < v.len()
        invariant
            i <= v@.len(),
            forall|k: int| 0 <= k < i ==> v.deep_view()[k] != x@,
        decreases v.len() - i,
    {
        if text_equal(v[i].as_str(), x) {
            assert(v.deep_view()[i as int] == x@);
            return true;
        }
        i = i + 1;
    }
    false
}

/// Whether `have` holds every text of `need`.
fn holds_all(have: &Vec<String>, need: &Vec<String>) -> (r: bool)
    ensures
        r == forall|k: int|
            0 <= k < need.deep_view().len() ==> have.deep_view().contains(
                #[trigger] need.deep_view()[k],
            ),
{
    let mut i: usize = 0;
    while i < need.len()
        invariant
            i <= need@.len(),
            forall|k: int| 0 <= k < i ==> have.deep_view().contains(#[trigger] need.deep_view()[k]),
        decreases need.len() - i,
    {
        if !holds_text(have, need[i].as_str()) {
            assert(need.deep_view()[i as int] == need@[i as int]@);
            return false;
        }
        i = i + 1;
    }
    true
}

/// Whether the rule applies to the ticket, given its normalized tags.
fn applies(ticket: &Ticket, rule: &RoutingRule, tags: &Vec<String>) -> (r: bool)
    ensures
        r == rule_applies(ticket@, rule@, tags.deep_view()),
{
    let channel_ok = match &rule.criteria.channel {
        None => true,
        Some(m) => m.matches(as_text(&ticket.channel)),
    };
    let priority_ok = match &rule.criteria.priority {
        None => true,
        Some(m) => m.matches(Some(priority_name(ticket.priority))),
    };
    let area_ok = match &rule.criteria.product_area {
        None => true,
        Some(m) => m.matches(as_text(&ticket.product_area)),
    };
    channel_ok && priority_ok && area_ok && holds_all(&ticket.tags, tags)
}

/// Where the ticket goes: see `route_outcome`.
pub fn route_ticket(ticket: &Ticket, rules: Vec<RoutingRule>) -> (r: Result<
    RoutingDecision,
    SupportError,
>)
    ensures
        decision_result_view(r) == route_outcome(ticket@, rules_view(rules@)),
{
    let ghost rs = rules_view(rules@);
    let mut i: usize = 0;
    while i < rules.len()
        invariant
            i <= rs.len(),
            rs == rules_view(rules@),
            route_outcome(ticket@, rs) == route_from(ticket@, rs, i as int),
        decreases rules.len() - i,
    {
        let rule = &rules[i];
        let tags = match normalize_tags(copy_texts(&rule.criteria.tags)) {
            Ok(t) => t,
            Err(e) => return Err(e),
        };
        if applies(ticket, rule, &tags) {
            let rule_id = match required(rule.id.as_str(), FieldName::RuleId(i)) {
                Ok(v) => v,
                Err(e) => return Err(e),
            };
            let team = match required(rule.team.as_str(), FieldName::RuleTeam(i)) {
                Ok(v) => v,
                Err(e) => return Err(e),
            };
            return Ok(
                RoutingDecision {
                    ticket_id: ticket.id.clone(),
                    rule_id: Some(rule_id),
                    team: Some(team),
                },
            );
        }
        i = i + 1;
    }
    Ok(RoutingDecision { ticket_id: ticket.id.clone(), rule_id: None, team: None })
}

/// Routing from `i` skips the rules before `k` that have valid tags and do
/// not apply.
proof fn lemma_route_skips(t: TicketView, rules: Seq<RoutingRuleView>, i: int, k: int)
    requires
        0 <= i <= k <= rules.len(),
        forall|j: int|
            0 <= j < k ==> tags_outcome(#[trigger] rules[j].criteria.tags) is Ok && !rule_applies(
                t,
                rules[j],
                tags_outcome(rules[j].criteria.tags)->Ok_0,
            ),
    ensures
        route_from(t, rules, i) == route_from(t, rules, k),
    decreases k - i,
{
    if i < k {
        assert(tags_outcome(rules[i].criteria.tags) is Ok);
        lemma_route_skips(t, rules, i + 1, k);
    }
}

/// The first rule that applies decides: if every rule before rule `k` has
/// valid tags and does not apply, and rule `k` has valid tags and applies,
/// the ticket is routed by rule `k`.
pub proof fn lemma_first_applicable_rule_decides(t: TicketView, rules: Seq<RoutingRuleView>, k: int)
    requires
        0 <= k < rules.len(),
        forall|j: int|
            0 <= j < k ==> tags_outcome(#[trigger] rules[j].criteria.tags) is Ok && !rule_applies(
                t,
                rules[j],
                tags_outcome(rules[j].criteria.tags)->Ok_0,
            ),
        tags_outcome(rules[k].criteria.tags) is Ok,
        rule_applies(t, rules[k], tags_outcome(rules[k].criteria.tags)->Ok_0),
    ensures
        route_outcome(t, rules) == decision_of(t, rules[k], k as usize),
{
    lemma_route_skips(t, rules, 0, k);
}

/// When no rule applies and every rule has valid tags, the ticket goes
/// nowhere.
pub proof fn lemma_no_applicable_rule(t: TicketView, rules: Seq<RoutingRuleView>)
    requires
        forall|j: int|
            0 <= j < rules.len() ==> tags_outcome(#[trigger] rules[j].criteria.tags) is Ok
                && !rule_applies(t, rules[j], tags_outcome(rules[j].criteria.tags)->Ok_0),
    ensures
        route_outcome(t, rules) == Ok::<RoutingDecisionView, SupportError>(no_match(t)),
{
    lemma_route_skips(t, rules, 0, rules.len() as int);
}

/// Whether a routing criterion, if there is one, admits a value: a missing
/// value counts as the empty text; one expected value must equal it; of
/// several, one must.
pub open spec fn criterion_admits(c: Option<MatchValueView>, actual: Option<Seq<char>>) -> bool {
    match c {
        None => true,
        Some(MatchValueView::One(expected)) => expected == actual.unwrap_or(Seq::<char>::empty()),
        Some(MatchValueView::Many(expected)) => exists|i: int|
            0 <= i < expected.len() && #[trigger] expected[i] == actual.unwrap_or(
                Seq::<char>::empty(),
            ),
    }
}

/// Whether a rule admits a ticket: its channel criterion admits the
/// ticket's channel; its priority criterion admits the lower-case name of
/// the ticket's priority (`low`, `normal`, `high`, `urgent`); its product
/// area criterion admits the ticket's product area; and every tag of the
/// rule, trimmed and lower-cased, is among the ticket's tags.
pub open spec fn rule_admits(t: TicketView, rule: RoutingRuleView) -> bool {
    &&& criterion_admits(rule.criteria.channel, t.channel)
    &&& criterion_admits(
        rule.criteria.priority,
        Some(
            match t.priority {
                super::TicketPriority::Low => "low"@,
                super::TicketPriority::Normal => "normal"@,
                super::TicketPriority::High => "high"@,
                super::TicketPriority::Urgent => "urgent"@,
            },
        ),
    )
    &&& criterion_admits(rule.criteria.product_area, t.product_area)
    &&& forall|k: int|
        0 <= k < rule.criteria.tags.len() ==> t.tags.contains(
            lowercase_text(trim_spec(#[trigger] rule.criteria.tags[k])),
        )
}

proof fn lemma_criterion(c: Option<MatchValueView>, actual: Option<Seq<char>>)
    ensures
        criterion_accepts(c, actual) == criterion_admits(c, actual),
{
    if let Some(MatchValueView::Many(expected)) = c {
        let a = actual.unwrap_or(Seq::<char>::empty());
        if expected.contains(a) {
            let i = choose|i: int| 0 <= i < expected.len() && expected[i] == a;
            assert(expected[i] == a);
        }
    }
}

/// With valid tags, the rule applies exactly when it admits the ticket.
proof fn lemma_applies_iff_admits(t: TicketView, rule: RoutingRuleView)
    requires
        tags_outcome(rule.criteria.tags) is Ok,
    ensures
        rule_applies(t, rule, tags_outcome(rule.criteria.tags)->Ok_0) == rule_admits(t, rule),
{
    lemma_criterion(rule.criteria.channel, t.channel);
    lemma_criterion(rule.criteria.priority, Some(priority_text(t.priority)));
    lemma_criterion(rule.criteria.product_area, t.product_area);
    let raw = rule.criteria.tags;
    let req = tags_outcome(raw)->Ok_0;
    lemma_normalized_tags(raw);
    let f = |x: Seq<char>| normalized_tag(x);
    let left = forall|k: int| 0 <= k < req.len() ==> t.tags.contains(#[trigger] req[k]);
    let right = forall|k: int|
        0 <= k < raw.len() ==> t.tags.contains(lowercase_text(trim_spec(#[trigger] raw[k])));
    if left {
        assert forall|k: int| 0 <= k < raw.len() implies t.tags.contains(
            lowercase_text(trim_spec(#[trigger] raw[k])),
        ) by {
            assert(req.contains(normalized_tag(raw[k])));
            let j = choose|j: int| 0 <= j < req.len() && req[j] == normalized_tag(raw[k]);
            assert(t.tags.contains(req[j]));
        }
    }
    if right {
        assert forall|k: int| 0 <= k < req.len() implies t.tags.contains(#[trigger] req[k]) by {
            assert(req.to_set().contains(req[k]));
            assert(raw.map_values(f).contains(req[k]));
            let j = choose|j: int| 0 <= j < raw.map_values(f).len() && raw.map_values(f)[j] == req[k];
            assert(raw.map_values(f)[j] == normalized_tag(raw[j]));
            assert(t.tags.contains(lowercase_text(trim_spec(raw[j]))));
        }
    }
    assert(left == right);
}

proof fn lemma_route_from_law(t: TicketView, rules: Seq<RoutingRuleView>, i: int)
    requires
        0 <= i <= rules.len(),
        route_from(t, rules, i) is Ok,
    ensures
        route_from(t, rules, i)->Ok_0.ticket_id == t.id,
        route_from(t, rules, i)->Ok_0.rule_id is Some ==> exists|k: int|
            #![trigger rules[k]]
            i <= k < rules.len() && rule_admits(t, rules[k])
                && route_from(t, rules, i)->Ok_0.rule_id == Some(trim_spec(rules[k].id))
                && route_from(t, rules, i)->Ok_0.team == Some(trim_spec(rules[k].team))
                && trim_spec(rules[k].id).len() > 0 && trim_spec(rules[k].team).len() > 0
                && forall|j: int| i <= j < k ==> !rule_admits(t, #[trigger] rules[j]),
        route_from(t, rules, i)->Ok_0.rule_id is None ==> route_from(t, rules, i)->Ok_0.team is None
            && forall|j: int| i <= j < rules.len() ==> !rule_admits(t, #[trigger] rules[j]),
    decreases rules.len() - i,
{
    if i < rules.len() {
        assert(tags_outcome(rules[i].criteria.tags) is Ok);
        lemma_applies_iff_admits(t, rules[i]);
        if !rule_admits(t, rules[i]) {
            lemma_route_from_law(t, rules, i + 1);
            if route_from(t, rules, i)->Ok_0.rule_id is Some {
                let k = choose|k: int|
                    #![trigger rules[k]]
                    i + 1 <= k < rules.len() && rule_admits(t, rules[k])
                        && route_from(t, rules, i + 1)->Ok_0.rule_id == Some(trim_spec(rules[k].id))
                        && route_from(t, rules, i + 1)->Ok_0.team == Some(trim_spec(rules[k].team))
                        && trim_spec(rules[k].id).len() > 0 && trim_spec(rules[k].team).len() > 0
                        && forall|j: int| i + 1 <= j < k ==> !rule_admits(t, #[trigger] rules[j]);
                assert(rules[k] == rules[k]);
            }
        } else {
            assert(rules[i] == rules[i]);
        }
    }
}

/// Where a ticket goes, over all tickets and rule lists: when a rule is
/// named, it is the first rule that admits the ticket (every earlier rule
/// does not), and the decision carries its trimmed id and team, neither
/// blank; when none is named, no rule admits the ticket and no team is
/// given. The decision is always about the ticket's id.
pub proof fn lemma_routing_decision(t: TicketView, rules: Seq<RoutingRuleView>)
    requires
        route_outcome(t, rules) is Ok,
    ensures
        route_outcome(t, rules)->Ok_0.ticket_id == t.id,
        route_outcome(t, rules)->Ok_0.rule_id is Some ==> exists|k: int|
            #![trigger rules[k]]
            0 <= k < rules.len() && rule_admits(t, rules[k])
                && route_outcome(t, rules)->Ok_0.rule_id == Some(trim_spec(rules[k].id))
                && route_outcome(t, rules)->Ok_0.team == Some(trim_spec(rules[k].team))
                && trim_spec(rules[k].id).len() > 0 && trim_spec(rules[k].team).len() > 0
                && forall|j: int| 0 <= j < k ==> !rule_admits(t, #[trigger] rules[j]),
        route_outcome(t, rules)->Ok_0.rule_id is None ==> route_outcome(t, rules)->Ok_0.team is None
            && forall|j: int| 0 <= j < rules.len() ==> !rule_admits(t, #[trigger] rules[j]),
{
    lemma_route_from_law(t, rules, 0);
}

/// Whether none of a rule's tags is blank.
pub open spec fn tags_usable(rule: RoutingRuleView) -> bool {
    forall|k: int| 0 <= k < rule.criteria.tags.len() ==> trim_spec(#[trigger] rule.criteria.tags[k]).len() > 0
}

proof fn lemma_route_from_ok(t: TicketView, rules: Seq<RoutingRuleView>, i: int)
    requires
        0 <= i <= rules.len(),
    ensures
        route_from(t, rules, i) is Ok <==> (forall|j: int|
            i <= j < rules.len() ==> tags_usable(#[trigger] rules[j]) && !rule_admits(t, rules[j])) || exists|k: int|
            #![trigger rules[k]]
            i <= k < rules.len() && (forall|j: int|
                i <= j < k ==> tags_usable(#[trigger] rules[j]) && !rule_admits(t, rules[j])) && tags_usable(
                rules[k],
            ) && rule_admits(t, rules[k]) && trim_spec(rules[k].id).len() > 0 && trim_spec(
                rules[k].team,
            ).len() > 0,
    decreases rules.len() - i,
{
    if i < rules.len() {
        lemma_route_from_ok(t, rules, i + 1);
        let r = rules[i];
        assert(tags_outcome(r.criteria.tags) is Ok <==> tags_usable(r));
        if tags_usable(r) {
            lemma_applies_iff_admits(t, r);
        }
        let left = route_from(t, rules, i) is Ok;
        let right = (forall|j: int|
            i <= j < rules.len() ==> tags_usable(#[trigger] rules[j]) && !rule_admits(t, rules[j])) || exists|k: int|
            #![trigger rules[k]]
            i <= k < rules.len() && (forall|j: int|
                i <= j < k ==> tags_usable(#[trigger] rules[j]) && !rule_admits(t, rules[j])) && tags_usable(
                rules[k],
            ) && rule_admits(t, rules[k]) && trim_spec(rules[k].id).len() > 0 && trim_spec(
                rules[k].team,
            ).len() > 0;
        if left {
            if tags_usable(r) && rule_admits(t, r) {
                assert(rules[i] == r);
            } else {
                if forall|j: int|
                    i + 1 <= j < rules.len() ==> tags_usable(#[trigger] rules[j]) && !rule_admits(t, rules[j]) {
                    assert forall|j: int| i <= j < rules.len() implies tags_usable(#[trigger] rules[j])
                        && !rule_admits(t, rules[j]) by {
                        if j == i {
                            assert(rules[j] == r);
                        }
                    }
                } else {
                    let k = choose|k: int|
                        #![trigger rules[k]]
                        i + 1 <= k < rules.len() && (forall|j: int|
                            i + 1 <= j < k ==> tags_usable(#[trigger] rules[j]) && !rule_admits(t, rules[j]))
                            && tags_usable(rules[k]) && rule_admits(t, rules[k]) && trim_spec(rules[k].id).len()
                            > 0 && trim_spec(rules[k].team).len() > 0;
                    assert forall|j: int| i <= j < k implies tags_usable(#[trigger] rules[j])
                        && !rule_admits(t, rules[j]) by {
                        if j == i {
                            assert(rules[j] == r);
                        }
                    }
                }
            }
        }
        if right {
            if forall|j: int|
                i <= j < rules.len() ==> tags_usable(#[trigger] rules[j]) && !rule_admits(t, rules[j]) {
                assert(tags_usable(rules[i]) && !rule_admits(t, rules[i]));
                assert forall|j: int| i + 1 <= j < rules.len() implies tags_usable(#[trigger] rules[j])
                    && !rule_admits(t, rules[j]) by {
                }
            } else {
                let k = choose|k: int|
                    #![trigger rules[k]]
                    i <= k < rules.len() && (forall|j: int|
                        i <= j < k ==> tags_usable(#[trigger] rules[j]) && !rule_admits(t, rules[j]))
                        && tags_usable(rules[k]) && rule_admits(t, rules[k]) && trim_spec(rules[k].id).len()
                        > 0 && trim_spec(rules[k].team).len() > 0;
                if k > i {
                    assert(tags_usable(rules[i]) && !rule_admits(t, rules[i]));
                    assert(rules[k] == rules[k]);
                }
            }
        }
    }
}

/// When routing succeeds, over all tickets and rule lists: exactly when
/// either no rule admits the ticket and no rule has a blank tag, or some
/// rule admits it, no earlier rule does or has a blank tag, it has no blank
/// tag, and its id and team are not blank.
pub proof fn lemma_routing_succeeds(t: TicketView, rules: Seq<RoutingRuleView>)
    ensures
        route_outcome(t, rules) is Ok <==> (forall|j: int|
            0 <= j < rules.len() ==> tags_usable(#[trigger] rules[j]) && !rule_admits(t, rules[j])) || exists|k: int|
            #![trigger rules[k]]
            0 <= k < rules.len() && (forall|j: int|
                0 <= j < k ==> tags_usable(#[trigger] rules[j]) && !rule_admits(t, rules[j])) && tags_usable(
                rules[k],
            ) && rule_admits(t, rules[k]) && trim_spec(rules[k].id).len() > 0 && trim_spec(
                rules[k].team,
            ).len() > 0,
{
    lemma_route_from_ok(t, rules, 0);
}

/// What routing refuses, over all tickets and rule lists: take the first
/// rule that has a blank tag or admits the ticket, every rule before it
/// having no blank tag and not admitting it. A blank tag there gives the
/// tag error; else a blank id gives the error that names that rule's id;
/// else a blank team gives the error that names that rule's team.
pub proof fn lemma_routing_error(t: TicketView, rules: Seq<RoutingRuleView>, k: int)
    requires
        0 <= k < rules.len(),
        forall|j: int| 0 <= j < k ==> tags_usable(#[trigger] rules[j]) && !rule_admits(t, rules[j]),
        !tags_usable(rules[k]) || rule_admits(t, rules[k]),
    ensures
        !tags_usable(rules[k]) ==> route_outcome(t, rules) == Err::<RoutingDecisionView, SupportError>(
            SupportError::EmptyValue(FieldName::Tag),
        ),
        tags_usable(rules[k]) && trim_spec(rules[k].id).len() == 0 ==> route_outcome(t, rules) == Err::<
            RoutingDecisionView,
            SupportError,
        >(SupportError::EmptyValue(FieldName::RuleId(k as usize))),
        tags_usable(rules[k]) && trim_spec(rules[k].id).len() > 0 && trim_spec(rules[k].team).len() == 0
            ==> route_outcome(t, rules) == Err::<RoutingDecisionView, SupportError>(
            SupportError::EmptyValue(FieldName::RuleTeam(k as usize)),
        ),
{
    assert forall|j: int| 0 <= j < k implies tags_outcome(#[trigger] rules[j].criteria.tags) is Ok && !rule_applies(
        t,
        rules[j],
        tags_outcome(rules[j].criteria.tags)->Ok_0,
    ) by {
        assert(tags_usable(rules[j]));
        assert(!has_blank_tag(rules[j].criteria.tags));
        lemma_applies_iff_admits(t, rules[j]);
    }
    lemma_route_skips(t, rules, 0, k);
    if tags_usable(rules[k]) {
        assert(!has_blank_tag(rules[k].criteria.tags));
        lemma_applies_iff_admits(t, rules[k]);
    } else {
        let m = choose|m: int| 0 <= m < rules[k].criteria.tags.len() && !(trim_spec(
            #[trigger] rules[k].criteria.tags[m],
        ).len() > 0);
        assert(has_blank_tag(rules[k].criteria.tags));
    }
}

} // verus!
