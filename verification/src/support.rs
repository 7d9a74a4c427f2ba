//! What a support ticket is: its priority and status, the events on it, the
//! SLA policy it is measured against, and the shapes the queue and the
//! router answer with.
//!
//! The operations are the submodules: normalising a ticket, computing its
//! SLA, building the queue, and routing it.

pub mod dates;
pub mod normalize;
pub mod order;
pub mod queue;
pub mod routing;
pub mod sla;
pub mod text;

use vstd::prelude::*;

verus! {

/// How urgent a ticket is. The variants are declared from least to most
/// urgent; that is the queue's ranking.
#[derive(Debug, Clone, Copy, PartialEq, Eq, Structural, PartialOrd, Ord, Hash)]
pub enum TicketPriority {
    Low,
    Normal,
    High,
    Urgent,
}

/// The rank of a priority: `Low` is 0, `Urgent` is 3.
pub open spec fn priority_rank(p: TicketPriority) -> int {
    match p {
        TicketPriority::Low => 0,
        TicketPriority::Normal => 1,
        TicketPriority::High => 2,
        TicketPriority::Urgent => 3,
    }
}

impl Default for TicketPriority {
    fn default() -> (r: Self)
        ensures
            r == TicketPriority::Normal,
    {
        TicketPriority::Normal
    }
}

/// Where a ticket is in its life.
#[derive(Debug, Clone, Copy, PartialEq, Eq, Structural, Hash)]
pub enum TicketStatus {
    Open,
    Pending,
    Resolved,
    Closed,
}

impl Default for TicketStatus {
    fn default() -> (r: Self)
        ensures
            r == TicketStatus::Open,
    {
        TicketStatus::Open
    }
}

/// Whether a status counts as done: resolved or closed.
pub open spec fn is_done(s: TicketStatus) -> bool {
    s == TicketStatus::Resolved || s == TicketStatus::Closed
}

/// Whether a status counts as done: resolved or closed.
pub fn status_is_done(s: TicketStatus) -> (r: bool)
    ensures
        r == is_done(s),
{
    match s {
        TicketStatus::Resolved | TicketStatus::Closed => true,
        _ => false,
    }
}

/// Something that happened on a ticket.
#[derive(Debug, Clone)]
pub struct TicketEvent {
    pub kind: String,
    pub at: String,
    pub actor: Option<String>,
    pub body: Option<String>,
    pub visibility: String,
}

/// A ticket event as text values.
pub struct TicketEventView {
    pub kind: Seq<char>,
    pub at: Seq<char>,
    pub actor: Option<Seq<char>>,
    pub body: Option<Seq<char>>,
    pub visibility: Seq<char>,
}

impl View for TicketEvent {
    type V = TicketEventView;

    open spec fn view(&self) -> TicketEventView {
        TicketEventView {
            kind: self.kind@,
            at: self.at@,
            actor: self.actor.deep_view(),
            body: self.body.deep_view(),
            visibility: self.visibility@,
        }
    }
}

/// The views of a list of events.
pub open spec fn events_view(events: Seq<TicketEvent>) -> Seq<TicketEventView> {
    events.map_values(|e: TicketEvent| e@)
}

/// A copy of an optional text.
pub fn copy_text_option(o: &Option<String>) -> (r: Option<String>)
    ensures
        r.deep_view() == o.deep_view(),
{
    match o {
        Some(s) => Some(s.clone()),
        None => None,
    }
}

impl TicketEvent {
    /// A copy of the event.
    pub fn duplicate(&self) -> (r: TicketEvent)
        ensures
            r@ == self@,
    {
        TicketEvent {
            kind: self.kind.clone(),
            at: self.at.clone(),
            actor: copy_text_option(&self.actor),
            body: copy_text_option(&self.body),
            visibility: self.visibility.clone(),
        }
    }
}

/// A support ticket as it is given.
#[derive(Debug, Clone)]
pub struct Ticket {
    pub id: String,
    pub subject: Option<String>,
    pub created_at: String,
    pub updated_at: Option<String>,
    pub priority: TicketPriority,
    pub status: TicketStatus,
    pub channel: Option<String>,
    pub requester_id: Option<String>,
    pub assignee: Option<String>,
    pub team: Option<String>,
    pub product_area: Option<String>,
    pub tags: Vec<String>,
    pub events: Vec<TicketEvent>,
}

/// A ticket as text values.
pub struct TicketView {
    pub id: Seq<char>,
    pub subject: Option<Seq<char>>,
    pub created_at: Seq<char>,
    pub updated_at: Option<Seq<char>>,
    pub priority: TicketPriority,
    pub status: TicketStatus,
    pub channel: Option<Seq<char>>,
    pub requester_id: Option<Seq<char>>,
    pub assignee: Option<Seq<char>>,
    pub team: Option<Seq<char>>,
    pub product_area: Option<Seq<char>>,
    pub tags: Seq<Seq<char>>,
    pub events: Seq<TicketEventView>,
}

impl View for Ticket {
    type V = TicketView;

    open spec fn view(&self) -> TicketView {
        TicketView {
            id: self.id@,
            subject: self.subject.deep_view(),
            created_at: self.created_at@,
            updated_at: self.updated_at.deep_view(),
            priority: self.priority,
            status: self.status,
            channel: self.channel.deep_view(),
            requester_id: self.requester_id.deep_view(),
            assignee: self.assignee.deep_view(),
            team: self.team.deep_view(),
            product_area: self.product_area.deep_view(),
            tags: self.tags.deep_view(),
            events: events_view(self.events@),
        }
    }
}

/// A duration of an SLA rule. The policy gives it in hours; the library
/// holds what the hours come to: a positive number of hours as whole
/// milliseconds, hours that are not a positive number, or hours whose
/// milliseconds do not fit in an `i64`.
#[derive(Debug, Clone, Copy, PartialEq, Eq, Structural)]
pub enum SlaHours {
    Millis(i64),
    NotPositive,
    TooLarge,
}

/// How long the first response and the resolution of a ticket may take.
#[derive(Debug, Clone, Copy, PartialEq, Eq, Structural)]
pub struct SlaRule {
    pub first_response_hours: SlaHours,
    pub resolution_hours: SlaHours,
}

/// One rule per priority.
#[derive(Debug, Clone, Copy, PartialEq, Eq, Structural)]
pub struct SlaPriorities {
    pub low: SlaRule,
    pub normal: SlaRule,
    pub high: SlaRule,
    pub urgent: SlaRule,
}

/// The service-level agreement.
#[derive(Debug, Clone, Copy, PartialEq, Eq, Structural)]
pub struct SlaPolicy {
    pub priorities: SlaPriorities,
}

impl SlaPolicy {
    /// The rule of a priority.
    pub open spec fn rule_of(self, priority: TicketPriority) -> SlaRule {
        match priority {
            TicketPriority::Low => self.priorities.low,
            TicketPriority::Normal => self.priorities.normal,
            TicketPriority::High => self.priorities.high,
            TicketPriority::Urgent => self.priorities.urgent,
        }
    }

    /// The rule of a priority.
    pub fn rule(&self, priority: TicketPriority) -> (r: &SlaRule)
        ensures
            *r == self.rule_of(priority),
    {
        match priority {
            TicketPriority::Low => &self.priorities.low,
            TicketPriority::Normal => &self.priorities.normal,
            TicketPriority::High => &self.priorities.high,
            TicketPriority::Urgent => &self.priorities.urgent,
        }
    }
}

/// Where a ticket stands against one milestone.
#[derive(Debug, Clone, Copy, PartialEq, Eq, Structural)]
pub enum MilestoneState {
    Pending,
    Met,
    Breached,
}

/// One milestone of the SLA: when it is due, when it was reached, and
/// where the ticket stands.
#[derive(Debug, Clone)]
pub struct SlaMilestone {
    pub due_at: String,
    pub completed_at: Option<String>,
    pub state: MilestoneState,
}

/// A milestone as text values.
pub struct SlaMilestoneView {
    pub due_at: Seq<char>,
    pub completed_at: Option<Seq<char>>,
    pub state: MilestoneState,
}

impl View for SlaMilestone {
    type V = SlaMilestoneView;

    open spec fn view(&self) -> SlaMilestoneView {
        SlaMilestoneView {
            due_at: self.due_at@,
            completed_at: self.completed_at.deep_view(),
            state: self.state,
        }
    }
}

/// Where a ticket stands against its SLA at one instant.
#[derive(Debug, Clone)]
pub struct TicketSla {
    pub ticket_id: String,
    pub evaluated_at: String,
    pub first_response: SlaMilestone,
    pub resolution: SlaMilestone,
}

/// The SLA of a ticket as text values.
pub struct TicketSlaView {
    pub ticket_id: Seq<char>,
    pub evaluated_at: Seq<char>,
    pub first_response: SlaMilestoneView,
    pub resolution: SlaMilestoneView,
}

impl View for TicketSla {
    type V = TicketSlaView;

    open spec fn view(&self) -> TicketSlaView {
        TicketSlaView {
            ticket_id: self.ticket_id@,
            evaluated_at: self.evaluated_at@,
            first_response: self.first_response@,
            resolution: self.resolution@,
        }
    }
}

/// One line of the queue.
#[derive(Debug, Clone)]
pub struct QueueEntry {
    pub ticket: Ticket,
    pub sla: TicketSla,
    pub breached: bool,
    pub next_deadline: String,
}

/// A queue line as text values.
pub struct QueueEntryView {
    pub ticket: TicketView,
    pub sla: TicketSlaView,
    pub breached: bool,
    pub next_deadline: Seq<char>,
}

impl View for QueueEntry {
    type V = QueueEntryView;

    open spec fn view(&self) -> QueueEntryView {
        QueueEntryView {
            ticket: self.ticket@,
            sla: self.sla@,
            breached: self.breached,
            next_deadline: self.next_deadline@,
        }
    }
}

/// What a routing criterion expects: one value, or any of several.
#[derive(Debug, Clone)]
pub enum MatchValue {
    One(String),
    Many(Vec<String>),
}

/// A criterion as text values.
pub enum MatchValueView {
    One(Seq<char>),
    Many(Seq<Seq<char>>),
}

impl View for MatchValue {
    type V = MatchValueView;

    open spec fn view(&self) -> MatchValueView {
        match self {
            MatchValue::One(s) => MatchValueView::One(s@),
            MatchValue::Many(v) => MatchValueView::Many(v.deep_view()),
        }
    }
}

/// Whether a criterion accepts a value; a missing value counts as empty.
pub open spec fn match_value_accepts(m: MatchValueView, actual: Option<Seq<char>>) -> bool {
    let a = match actual {
        Some(s) => s,
        None => Seq::<char>::empty(),
    };
    match m {
        MatchValueView::One(expected) => expected == a,
        MatchValueView::Many(expected) => expected.contains(a),
    }
}

impl MatchValue {
    /// Whether the criterion accepts `actual`; a missing value counts as
    /// empty.
    pub fn matches(&self, actual: Option<&str>) -> (r: bool)
        ensures
            r == match_value_accepts(
                self@,
                match actual {
                    Some(s) => Some(s@),
                    None => None,
                },
            ),
    {
        let a: &str = match actual {
            Some(s) => s,
            None => "",
        };
        proof {
            reveal_strlit("");
            assert(""@ =~= Seq::<char>::empty());
        }
        match self {
            MatchValue::One(expected) => text::text_equal(expected.as_str(), a),
            MatchValue::Many(expected) => {
                let mut i: usize = 0;
                while i < expected.len()
                    invariant
                        i <= expected@.len(),
                        self@ == MatchValueView::Many(expected.deep_view()),
                        a@ == match actual {
                            Some(s) => s@,
                            None => Seq::<char>::empty(),
                        },
                        forall|k: int| 0 <= k < i ==> expected@[k]@ != a@,
                    decreases expected.len() - i,
                {
                    if text::text_equal(expected[i].as_str(), a) {
                        assert(expected.deep_view()[i as int] == a@);
                        assert(expected.deep_view().contains(a@));
                        return true;
                    }
                    i = i + 1;
                }
                assert(!expected.deep_view().contains(a@));
                false
            },
        }
    }
}

/// What a routing rule looks at. A missing criterion accepts anything;
/// every listed tag must be on the ticket.
#[derive(Debug, Clone)]
pub struct RoutingMatch {
    pub channel: Option<MatchValue>,
    pub priority: Option<MatchValue>,
    pub product_area: Option<MatchValue>,
    pub tags: Vec<String>,
}

impl Default for RoutingMatch {
    fn default() -> (r: Self)
        ensures
            r.channel is None,
            r.priority is None,
            r.product_area is None,
            r.tags@.len() == 0,
    {
        RoutingMatch { channel: None, priority: None, product_area: None, tags: Vec::new() }
    }
}

/// A rule's criteria as text values.
pub struct RoutingMatchView {
    pub channel: Option<MatchValueView>,
    pub priority: Option<MatchValueView>,
    pub product_area: Option<MatchValueView>,
    pub tags: Seq<Seq<char>>,
}

/// The view of an optional criterion.
pub open spec fn match_option_view(m: Option<MatchValue>) -> Option<MatchValueView> {
    match m {
        Some(v) => Some(v@),
        None => None,
    }
}

impl View for RoutingMatch {
    type V = RoutingMatchView;

    open spec fn view(&self) -> RoutingMatchView {
        RoutingMatchView {
            channel: match_option_view(self.channel),
            priority: match_option_view(self.priority),
            product_area: match_option_view(self.product_area),
            tags: self.tags.deep_view(),
        }
    }
}

/// A rule that sends the tickets it matches to a team.
#[derive(Debug, Clone)]
pub struct RoutingRule {
    pub id: String,
    pub team: String,
    pub criteria: RoutingMatch,
}

/// A routing rule as text values.
pub struct RoutingRuleView {
    pub id: Seq<char>,
    pub team: Seq<char>,
    pub criteria: RoutingMatchView,
}

impl View for RoutingRule {
    type V = RoutingRuleView;

    open spec fn view(&self) -> RoutingRuleView {
        RoutingRuleView { id: self.id@, team: self.team@, criteria: self.criteria@ }
    }
}

/// The views of a list of rules.
pub open spec fn rules_view(rules: Seq<RoutingRule>) -> Seq<RoutingRuleView> {
    rules.map_values(|r: RoutingRule| r@)
}

/// Where a ticket goes: the rule that matched and its team, or neither.
#[derive(Debug, Clone)]
pub struct RoutingDecision {
    pub ticket_id: String,
    pub rule_id: Option<String>,
    pub team: Option<String>,
}

/// A routing decision as text values.
pub struct RoutingDecisionView {
    pub ticket_id: Seq<char>,
    pub rule_id: Option<Seq<char>>,
    pub team: Option<Seq<char>>,
}

impl View for RoutingDecision {
    type V = RoutingDecisionView;

    open spec fn view(&self) -> RoutingDecisionView {
        RoutingDecisionView {
            ticket_id: self.ticket_id@,
            rule_id: self.rule_id.deep_view(),
            team: self.team.deep_view(),
        }
    }
}

/// The value that an error is about.
#[derive(Debug, Clone, PartialEq, Eq)]
pub enum FieldName {
    TicketId,
    TicketCreatedAt,
    TicketUpdatedAt,
    Tag,
    EventType(usize),
    EventAt(usize),
    EventVisibility(usize),
    /// The time of an event, as the SLA reads it.
    EventTime,
    RuleId(usize),
    RuleTeam(usize),
    /// A value named by the caller.
    Label(String),
}

/// Why an operation refused its input.
#[derive(Debug, Clone, PartialEq, Eq)]
pub enum SupportError {
    /// A value that must not be empty is empty or only white space.
    EmptyValue(FieldName),
    /// A value is not an RFC 3339 date.
    InvalidDate(FieldName),
    /// A first-response duration of the policy is not a positive number of hours.
    FirstResponseHoursNotPositive,
    /// A resolution duration of the policy is not a positive number of hours.
    ResolutionHoursNotPositive,
    /// A duration of the policy does not fit in milliseconds.
    DurationTooLarge,
    /// A deadline falls outside the dates that can be represented.
    DeadlineOutOfRange,
}

} // verus!
