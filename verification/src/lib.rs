//! Support tickets: one shape for a ticket, the service-level agreement it
//! is measured against, the queue a human works from, and where a ticket is
//! routed.

pub mod support;

pub use support::{
    FieldName, MatchValue, MilestoneState, QueueEntry, RoutingDecision, RoutingMatch,
    RoutingRule, SlaHours, SlaMilestone, SlaPolicy, SlaPriorities, SlaRule, SupportError, Ticket,
    TicketEvent, TicketPriority, TicketSla, TicketStatus,
};
pub use support::dates::Timestamp;
pub use support::normalize::{normalize_ticket, parse_optional_date};
pub use support::queue::{build_queue, build_timeline};
pub use support::routing::route_ticket;
pub use support::sla::{compute_sla, validate_policy};
