//! Reading a ticket as given: the fields it must carry, the dates it
//! declares, and the tags it may hold.

use vstd::prelude::*;
use super::{
    FieldName, SupportError, Ticket, TicketEvent, TicketEventView, TicketView, events_view,
};
use super::dates::{
    Timestamp, format_rfc3339_millis, parse_rfc3339, rfc3339_instant, rfc3339_millis_text,
};
use super::order::{at_time, event_before, lemma_events_keep_ties, sort_events_by_time, sort_stable};
use super::text::{
    lemma_text_less_asymmetric, lemma_text_less_total, lemma_text_less_transitive,
    lowercase_text, text_before, text_equal, text_less, to_lowercase_text, trim_spec, trimmed,
};

verus! {

/// A value that must not be empty: its trimmed text, or the error that names
/// the field.
pub fn required(value: &str, field: FieldName) -> (r: Result<String, SupportError>)
    ensures
        match r {
            Ok(s) => trim_spec(value@).len() > 0 && s@ == trim_spec(value@),
            Err(e) => trim_spec(value@).len() == 0 && e == SupportError::EmptyValue(field),
        },
{
    let normalized = trimmed(value);
    if normalized.as_str().unicode_len() == 0 {
        return Err(SupportError::EmptyValue(field));
    }
    Ok(normalized)
}

/// An optional text: trimmed, and gone when nothing is left.
pub open spec fn optional_spec(value: Option<Seq<char>>) -> Option<Seq<char>> {
    match value {
        Some(s) => if trim_spec(s).len() > 0 {
            Some(trim_spec(s))
        } else {
            None
        },
        None => None,
    }
}

/// Normalizing an optional text twice is normalizing it once.
pub proof fn lemma_optional_idempotent(value: Option<Seq<char>>)
    ensures
        optional_spec(optional_spec(value)) == optional_spec(value),
{
    if let Some(s) = value {
        super::text::lemma_trim_idempotent(s);
    }
}

/// An optional text: trimmed, and gone when nothing is left.
pub fn optional(value: Option<String>) -> (r: Option<String>)
    ensures
        r.deep_view() == optional_spec(value.deep_view()),
{
    match value {
        Some(item) => {
            let normalized = trimmed(item.as_str());
            if normalized.as_str().unicode_len() == 0 {
                None
            } else {
                Some(normalized)
            }
        },
        None => None,
    }
}

/// The instant an RFC 3339 text names, or the error that names the field.
pub fn parse_date(value: &str, field: FieldName) -> (r: Result<Timestamp, SupportError>)
    ensures
        match r {
            Ok(t) => rfc3339_instant(value@) == Some(t@),
            Err(e) => rfc3339_instant(value@) is None && e == SupportError::InvalidDate(field),
        },
{
    match parse_rfc3339(value) {
        Some(t) => Ok(t),
        None => Err(SupportError::InvalidDate(field)),
    }
}

/// The RFC 3339 text of an instant, in UTC, with milliseconds.
pub fn format_date(value: &Timestamp) -> (r: String)
    ensures
        r@ == rfc3339_millis_text(value@.0, value@.1),
{
    format_rfc3339_millis(value)
}

/// An optional date: absent stays absent; a given text must be an RFC 3339
/// date, and an error names the label.
pub fn parse_optional_date(value: Option<&str>, label: &str) -> (r: Result<
    Option<Timestamp>,
    SupportError,
>)
    ensures
        match value {
            None => r matches Ok(None),
            Some(v) => match rfc3339_instant(v@) {
                Some(x) => r matches Ok(Some(t)) && t@ == x,
                None => r matches Err(SupportError::InvalidDate(FieldName::Label(l))) && l@ == label@,
            },
        },
{
    match value {
        None => Ok(None),
        Some(v) => match parse_rfc3339(v) {
            Some(t) => Ok(Some(t)),
            None => Err(SupportError::InvalidDate(FieldName::Label(label.to_owned()))),
        },
    }
}

/// A tag as the library keeps it: trimmed and lower-cased.
pub open spec fn normalized_tag(t: Seq<char>) -> Seq<char> {
    lowercase_text(trim_spec(t))
}

/// Whether some tag is empty or only white space.
pub open spec fn has_blank_tag(tags: Seq<Seq<char>>) -> bool {
    exists|k: int| 0 <= k < tags.len() && trim_spec(#[trigger] tags[k]).len() == 0
}

/// The set of normalized tags.
pub open spec fn tag_set(tags: Seq<Seq<char>>) -> Set<Seq<char>> {
    tags.map_values(|t: Seq<char>| normalized_tag(t)).to_set()
}

/// Every text sorts before every later one: sorted, without repeats.
pub open spec fn strictly_sorted(s: Seq<Seq<char>>) -> bool {
    forall|i: int, j: int| 0 <= i < j < s.len() ==> text_less(#[trigger] s[i], #[trigger] s[j])
}

/// The sorted list, without repeats, of a set of texts.
pub open spec fn sorted_list_of(set: Set<Seq<char>>) -> Seq<Seq<char>> {
    choose|v: Seq<Seq<char>>| strictly_sorted(v) && v.to_set() == set
}

/// What normalizing a list of tags gives: the sorted list of the distinct
/// normalized tags, or an error if a tag is blank.
pub open spec fn tags_outcome(tags: Seq<Seq<char>>) -> Result<Seq<Seq<char>>, SupportError> {
    if has_blank_tag(tags) {
        Err(SupportError::EmptyValue(FieldName::Tag))
    } else {
        Ok(sorted_list_of(tag_set(tags)))
    }
}

/// A sorted list without repeats is determined by the set of its texts.
pub proof fn lemma_sorted_list_unique(a: Seq<Seq<char>>, b: Seq<Seq<char>>)
    requires
        strictly_sorted(a),
        strictly_sorted(b),
        a.to_set() == b.to_set(),
    ensures
        a == b,
    decreases a.len(),
{
    if a.len() == 0 {
        if b.len() > 0 {
            assert(b.to_set().contains(b[0]));
        }
        assert(a =~= b);
    } else {
        assert(a.to_set().contains(a[0]));
        assert(b.contains(a[0]));
        let k = choose|k: int| 0 <= k < b.len() && b[k] == a[0];
        assert(b.to_set().contains(b[0]));
        assert(a.contains(b[0]));
        let m = choose|m: int| 0 <= m < a.len() && a[m] == b[0];
        if k > 0 {
            assert(text_less(b[0], b[k]));
            if m > 0 {
                assert(text_less(a[0], a[m]));
                lemma_text_less_asymmetric(a[0], a[m]);
            } else {
                lemma_text_less_asymmetric(a[0], a[0]);
            }
        }
        assert(a[0] == b[0]);
        let ra = a.drop_first();
        let rb = b.drop_first();
        assert forall|x: Seq<char>| ra.to_set().contains(x) <==> rb.to_set().contains(x) by {
            if ra.contains(x) {
                let i = choose|i: int| 0 <= i < ra.len() && ra[i] == x;
                assert(a[i + 1] == x);
                assert(a.to_set().contains(x));
                assert(b.contains(x));
                let j = choose|j: int| 0 <= j < b.len() && b[j] == x;
                if j == 0 {
                    assert(text_less(a[0], a[i + 1]));
                    lemma_text_less_asymmetric(x, x);
                }
                assert(rb[j - 1] == x);
            }
            if rb.contains(x) {
                let i = choose|i: int| 0 <= i < rb.len() && rb[i] == x;
                assert(b[i + 1] == x);
                assert(b.to_set().contains(x));
                assert(a.contains(x));
                let j = choose|j: int| 0 <= j < a.len() && a[j] == x;
                if j == 0 {
                    assert(text_less(b[0], b[i + 1]));
                    lemma_text_less_asymmetric(x, x);
                }
                assert(ra[j - 1] == x);
            }
        }
        assert(ra.to_set() =~= rb.to_set());
        lemma_sorted_list_unique(ra, rb);
        assert(a =~= seq![a[0]] + ra);
        assert(b =~= seq![b[0]] + rb);
    }
}

/// Inserts a text into a sorted list without repeats, unless it is there.
fn insert_tag(v: &mut Vec<String>, x: String)
    requires
        strictly_sorted(old(v).deep_view()),
    ensures
        strictly_sorted(final(v).deep_view()),
        final(v).deep_view().to_set() == old(v).deep_view().to_set().insert(x@),
{
    let ghost s = v.deep_view();
    let mut k: usize = 0;
    while k < v.len() && text_before(v[k].as_str(), x.as_str())
        invariant
            k <= v@.len(),
            s == v.deep_view(),
            forall|i: int| 0 <= i < k ==> text_less(#[trigger] s[i], x@),
        decreases v.len() - k,
    {
        k = k + 1;
    }
    if k < v.len() && text_equal(v[k].as_str(), x.as_str()) {
        assert(s.to_set().contains(x@)) by {
            assert(s[k as int] == x@);
        }
        assert(s.to_set().insert(x@) =~= s.to_set());
        return ;
    }
    proof {
        if k < s.len() {
            lemma_text_less_total(s[k as int], x@);
            assert(text_less(x@, s[k as int]));
        }
    }
    v.insert(k, x);
    proof {
        let t = v.deep_view();
        assert(t =~= s.insert(k as int, x@));
        assert forall|i: int, j: int| 0 <= i < j < t.len() implies text_less(
            #[trigger] t[i],
            #[trigger] t[j],
        ) by {
            if j < k {
                assert(t[i] == s[i] && t[j] == s[j]);
            } else if j == k {
                assert(t[i] == s[i]);
            } else if i < k {
                assert(t[i] == s[i] && t[j] == s[j - 1]);
                assert(text_less(x@, s[k as int]));
                if j - 1 > k {
                    assert(text_less(s[k as int], s[j - 1]));
                    lemma_text_less_transitive(x@, s[k as int], s[j - 1]);
                }
                lemma_text_less_transitive(s[i], x@, s[j - 1]);
            } else if i == k {
                assert(t[j] == s[j - 1]);
                if j - 1 > k {
                    assert(text_less(s[k as int], s[j - 1]));
                    lemma_text_less_transitive(x@, s[k as int], s[j - 1]);
                }
            } else {
                assert(t[i] == s[i - 1] && t[j] == s[j - 1]);
            }
        }
        assert forall|y: Seq<char>| t.to_set().contains(y) <==> s.to_set().insert(x@).contains(y) by {
            if t.contains(y) {
                let i = choose|i: int| 0 <= i < t.len() && t[i] == y;
                if i < k {
                    assert(s[i] == y);
                } else if i > k {
                    assert(s[i - 1] == y);
                }
            }
            if s.contains(y) {
                let i = choose|i: int| 0 <= i < s.len() && s[i] == y;
                if i < k {
                    assert(t[i] == y);
                } else {
                    assert(t[i + 1] == y);
                }
            }
            if y == x@ {
                assert(t[k as int] == y);
            }
        }
        assert(t.to_set() =~= s.to_set().insert(x@));
    }
}

/// The view of the result of normalizing tags.
pub open spec fn tags_result_view(r: Result<Vec<String>, SupportError>) -> Result<
    Seq<Seq<char>>,
    SupportError,
> {
    match r {
        Ok(v) => Ok(v.deep_view()),
        Err(e) => Err(e),
    }
}

/// The tags trimmed, lower-cased, without repeats and sorted; an error if a
/// tag is blank.
pub fn normalize_tags(tags: Vec<String>) -> (r: Result<Vec<String>, SupportError>)
    ensures
        tags_result_view(r) == tags_outcome(tags.deep_view()),
{
    let ghost all = tags.deep_view();
    let mut normalized: Vec<String> = Vec::new();
    let mut i: usize = 0;
    while i < tags.len()
        invariant
            i <= all.len(),
            all == tags.deep_view(),
            strictly_sorted(normalized.deep_view()),
            normalized.deep_view().to_set() == tag_set(all.take(i as int)),
            forall|k: int| 0 <= k < i ==> trim_spec(#[trigger] all[k]).len() > 0,
        decreases tags.len() - i,
    {
        let tag = match required(tags[i].as_str(), FieldName::Tag) {
            Ok(t) => t,
            Err(e) => {
                assert(trim_spec(all[i as int]).len() == 0);
                assert(has_blank_tag(all));
                return Err(e);
            },
        };
        let lower = to_lowercase_text(tag.as_str());
        insert_tag(&mut normalized, lower);
        proof {
            let f = |t: Seq<char>| normalized_tag(t);
            assert(all.take(i + 1).map_values(f) =~= all.take(i as int).map_values(f).push(
                normalized_tag(all[i as int]),
            ));
            let p = all.take(i as int).map_values(f);
            let y = normalized_tag(all[i as int]);
            assert(p.push(y).to_set() =~= p.to_set().insert(y)) by {
                assert forall|z: Seq<char>| p.push(y).contains(z) <==> p.to_set().insert(y).contains(
                    z,
                ) by {
                    if p.push(y).contains(z) {
                        let j = choose|j: int| 0 <= j < p.push(y).len() && p.push(y)[j] == z;
                        if j < p.len() {
                            assert(p[j] == z);
                        }
                    }
                    if p.contains(z) {
                        let j = choose|j: int| 0 <= j < p.len() && p[j] == z;
                        assert(p.push(y)[j] == z);
                    }
                    if z == y {
                        assert(p.push(y)[p.len() as int] == z);
                    }
                }
            }
        }
        i = i + 1;
    }
    proof {
        assert(all.take(all.len() as int) =~= all);
        assert(!has_blank_tag(all));
        lemma_sorted_list_unique(normalized.deep_view(), sorted_list_of(tag_set(all)));
    }
    Ok(normalized)
}

/// What normalizing the event at `index` gives: its type and visibility
/// trimmed and required, its time rewritten in UTC with milliseconds, its
/// actor and body optional.
pub open spec fn event_outcome(e: TicketEventView, index: usize) -> Result<
    TicketEventView,
    SupportError,
> {
    if trim_spec(e.kind).len() == 0 {
        Err(SupportError::EmptyValue(FieldName::EventType(index)))
    } else {
        match rfc3339_instant(e.at) {
            None => Err(SupportError::InvalidDate(FieldName::EventAt(index))),
            Some(x) => if trim_spec(e.visibility).len() == 0 {
                Err(SupportError::EmptyValue(FieldName::EventVisibility(index)))
            } else {
                Ok(
                    TicketEventView {
                        kind: trim_spec(e.kind),
                        at: rfc3339_millis_text(x.0, x.1),
                        actor: optional_spec(e.actor),
                        body: optional_spec(e.body),
                        visibility: trim_spec(e.visibility),
                    },
                )
            },
        }
    }
}

/// What normalizing a list of events gives, in their order: the first
/// error, or every event normalized.
pub open spec fn events_outcome(es: Seq<TicketEventView>) -> Result<
    Seq<TicketEventView>,
    SupportError,
>
    decreases es.len(),
{
    if es.len() == 0 {
        Ok(Seq::empty())
    } else {
        match events_outcome(es.drop_last()) {
            Err(e) => Err(e),
            Ok(prev) => match event_outcome(es.last(), (es.len() - 1) as usize) {
                Err(e) => Err(e),
                Ok(ev) => Ok(prev.push(ev)),
            },
        }
    }
}

/// An error among the first events is the error of all of them.
proof fn lemma_events_error_prefix(es: Seq<TicketEventView>, k: int)
    requires
        0 <= k <= es.len(),
        events_outcome(es.take(k)) is Err,
    ensures
        events_outcome(es) == events_outcome(es.take(k)),
    decreases es.len() - k,
{
    if k < es.len() {
        assert(es.take(k + 1).drop_last() =~= es.take(k));
        lemma_events_error_prefix(es, k + 1);
    } else {
        assert(es.take(k) =~= es);
    }
}

/// The view of the result of normalizing an event.
pub open spec fn event_result_view(r: Result<TicketEvent, SupportError>) -> Result<
    TicketEventView,
    SupportError,
> {
    match r {
        Ok(e) => Ok(e@),
        Err(e) => Err(e),
    }
}

/// The event at `index`, normalized.
fn normalize_event(event: &TicketEvent, index: usize) -> (r: Result<TicketEvent, SupportError>)
    ensures
        event_result_view(r) == event_outcome(event@, index),
{
    let kind = match required(event.kind.as_str(), FieldName::EventType(index)) {
        Ok(k) => k,
        Err(e) => return Err(e),
    };
    let at = match parse_date(event.at.as_str(), FieldName::EventAt(index)) {
        Ok(t) => format_date(&t),
        Err(e) => return Err(e),
    };
    let actor = optional(super::copy_text_option(&event.actor));
    let body = optional(super::copy_text_option(&event.body));
    let visibility = match required(event.visibility.as_str(), FieldName::EventVisibility(index)) {
        Ok(v) => v,
        Err(e) => return Err(e),
    };
    Ok(TicketEvent { kind, at, actor, body, visibility })
}

/// The view of the result of normalizing events.
pub open spec fn events_result_view(r: Result<Vec<TicketEvent>, SupportError>) -> Result<
    Seq<TicketEventView>,
    SupportError,
> {
    match r {
        Ok(v) => Ok(events_view(v@)),
        Err(e) => Err(e),
    }
}

/// Every event normalized, in order; the first error if one fails.
fn normalize_events(events: &Vec<TicketEvent>) -> (r: Result<Vec<TicketEvent>, SupportError>)
    ensures
        events_result_view(r) == events_outcome(events_view(events@)),
{
    let ghost es = events_view(events@);
    let mut normalized: Vec<TicketEvent> = Vec::new();
    assert(es.take(0) =~= Seq::<TicketEventView>::empty());
    assert(events_view(normalized@) =~= Seq::<TicketEventView>::empty());
    for i in 0..events.len()
        invariant
            es == events_view(events@),
            events_outcome(es.take(i as int)) == Ok::<Seq<TicketEventView>, SupportError>(
                events_view(normalized@),
            ),
    {
        proof {
            assert(es.take(i + 1).drop_last() =~= es.take(i as int));
            assert(es.take(i + 1).last() == es[i as int]);
        }
        match normalize_event(&events[i], i) {
            Ok(e) => {
                let ghost prev = events_view(normalized@);
                let ghost ev = e@;
                normalized.push(e);
                assert(events_view(normalized@) =~= prev.push(ev));
            },
            Err(e) => {
                proof {
                    lemma_events_error_prefix(es, i + 1);
                }
                return Err(e);
            },
        }
    }
    assert(es.take(events.len() as int) =~= es);
    Ok(normalized)
}

/// What normalizing a ticket gives: its id required; its creation time, and
/// its update time (the creation time when absent), rewritten in UTC with
/// milliseconds; its optional texts trimmed; its tags normalized; its events
/// normalized and sorted stably by time. The first field that fails, in
/// that order, gives the error.
pub open spec fn normalize_outcome(t: TicketView) -> Result<TicketView, SupportError> {
    if trim_spec(t.id).len() == 0 {
        Err(SupportError::EmptyValue(FieldName::TicketId))
    } else {
        match rfc3339_instant(t.created_at) {
            None => Err(SupportError::InvalidDate(FieldName::TicketCreatedAt)),
            Some(c) => {
                let created = rfc3339_millis_text(c.0, c.1);
                let source = match t.updated_at {
                    Some(u) => u,
                    None => created,
                };
                match rfc3339_instant(source) {
                    None => Err(SupportError::InvalidDate(FieldName::TicketUpdatedAt)),
                    Some(u) => match tags_outcome(t.tags) {
                        Err(e) => Err(e),
                        Ok(tags) => match events_outcome(t.events) {
                            Err(e) => Err(e),
                            Ok(events) => Ok(
                                TicketView {
                                    id: trim_spec(t.id),
                                    subject: optional_spec(t.subject),
                                    created_at: created,
                                    updated_at: Some(rfc3339_millis_text(u.0, u.1)),
                                    priority: t.priority,
                                    status: t.status,
                                    channel: optional_spec(t.channel),
                                    requester_id: optional_spec(t.requester_id),
                                    assignee: optional_spec(t.assignee),
                                    team: optional_spec(t.team),
                                    product_area: optional_spec(t.product_area),
                                    tags: tags,
                                    events: sort_stable(events, event_before()),
                                },
                            ),
                        },
                    },
                }
            },
        }
    }
}

/// The view of the result of normalizing a ticket.
pub open spec fn ticket_result_view(r: Result<Ticket, SupportError>) -> Result<
    TicketView,
    SupportError,
> {
    match r {
        Ok(t) => Ok(t@),
        Err(e) => Err(e),
    }
}

/// The ticket with its fields checked and put in one shape: see
/// `normalize_outcome`.
pub fn normalize_ticket(ticket: Ticket) -> (r: Result<Ticket, SupportError>)
    ensures
        ticket_result_view(r) == normalize_outcome(ticket@),
{
    let ghost t = ticket@;
    let Ticket {
        id,
        subject,
        created_at,
        updated_at,
        priority,
        status,
        channel,
        requester_id,
        assignee,
        team,
        product_area,
        tags,
        events,
    } = ticket;
    let id = match required(id.as_str(), FieldName::TicketId) {
        Ok(v) => v,
        Err(e) => return Err(e),
    };
    let subject = optional(subject);
    let created_at = match parse_date(created_at.as_str(), FieldName::TicketCreatedAt) {
        Ok(c) => format_date(&c),
        Err(e) => return Err(e),
    };
    let source: &str = match &updated_at {
        Some(u) => u.as_str(),
        None => created_at.as_str(),
    };
    let updated_at = match parse_date(source, FieldName::TicketUpdatedAt) {
        Ok(u) => Some(format_date(&u)),
        Err(e) => return Err(e),
    };
    let channel = optional(channel);
    let requester_id = optional(requester_id);
    let assignee = optional(assignee);
    let team = optional(team);
    let product_area = optional(product_area);
    let tags = match normalize_tags(tags) {
        Ok(v) => v,
        Err(e) => return Err(e),
    };
    let normalized = match normalize_events(&events) {
        Ok(v) => v,
        Err(e) => return Err(e),
    };
    let events = sort_events_by_time(&normalized);
    Ok(
        Ticket {
            id,
            subject,
            created_at,
            updated_at,
            priority,
            status,
            channel,
            requester_id,
            assignee,
            team,
            product_area,
            tags,
            events,
        },
    )
}

/// How many of the first texts of `v` sort before `x`.
spec fn leading_before(v: Seq<Seq<char>>, x: Seq<char>) -> int
    decreases v.len(),
{
    if v.len() > 0 && text_less(v[0], x) {
        1 + leading_before(v.drop_first(), x)
    } else {
        0
    }
}

proof fn lemma_leading_before(v: Seq<Seq<char>>, x: Seq<char>)
    requires
        strictly_sorted(v),
    ensures
        0 <= leading_before(v, x) <= v.len(),
        forall|k: int| 0 <= k < leading_before(v, x) ==> text_less(#[trigger] v[k], x),
        forall|k: int| leading_before(v, x) <= k < v.len() ==> !text_less(#[trigger] v[k], x),
    decreases v.len(),
{
    if v.len() > 0 && text_less(v[0], x) {
        let w = v.drop_first();
        assert forall|i: int, j: int| 0 <= i < j < w.len() implies text_less(
            #[trigger] w[i],
            #[trigger] w[j],
        ) by {
            assert(w[i] == v[i + 1] && w[j] == v[j + 1]);
        }
        lemma_leading_before(w, x);
        assert forall|k: int| 0 <= k < leading_before(v, x) implies text_less(#[trigger] v[k], x) by {
            if k > 0 {
                assert(v[k] == w[k - 1]);
            }
        }
        assert forall|k: int| leading_before(v, x) <= k < v.len() implies !text_less(
            #[trigger] v[k],
            x,
        ) by {
            assert(v[k] == w[k - 1]);
        }
    } else {
        assert forall|k: int| 0 <= k < v.len() implies !text_less(#[trigger] v[k], x) by {
            if k > 0 && text_less(v[k], x) {
                assert(text_less(v[0], v[k]));
                lemma_text_less_transitive(v[0], v[k], x);
            }
        }
    }
}

/// The set of a sequence with one more element.
proof fn lemma_push_to_set(s: Seq<Seq<char>>, x: Seq<char>)
    ensures
        s.push(x).to_set() == s.to_set().insert(x),
{
    assert forall|z: Seq<char>| s.push(x).contains(z) <==> s.to_set().insert(x).contains(z) by {
        if s.push(x).contains(z) {
            let j = choose|j: int| 0 <= j < s.push(x).len() && s.push(x)[j] == z;
            if j < s.len() {
                assert(s[j] == z);
            }
        }
        if s.contains(z) {
            let j = choose|j: int| 0 <= j < s.len() && s[j] == z;
            assert(s.push(x)[j] == z);
        }
        if z == x {
            assert(s.push(x)[s.len() as int] == z);
        }
    }
    assert(s.push(x).to_set() =~= s.to_set().insert(x));
}

/// Every finite list of texts has a sorted list without repeats with the
/// same texts.
proof fn lemma_sorted_list_exists(s: Seq<Seq<char>>)
    ensures
        exists|v: Seq<Seq<char>>| strictly_sorted(v) && v.to_set() == s.to_set(),
    decreases s.len(),
{
    if s.len() == 0 {
        let v = Seq::<Seq<char>>::empty();
        assert(v.to_set() =~= s.to_set());
        assert(strictly_sorted(v));
    } else {
        let r = s.drop_last();
        let x = s.last();
        lemma_sorted_list_exists(r);
        let v = choose|v: Seq<Seq<char>>| strictly_sorted(v) && v.to_set() == r.to_set();
        lemma_push_to_set(r, x);
        assert(r.push(x) =~= s);
        if v.contains(x) {
            assert(v.to_set().contains(x));
            assert(v.to_set() =~= v.to_set().insert(x));
            assert(strictly_sorted(v) && v.to_set() == s.to_set());
        } else {
            lemma_leading_before(v, x);
            let p = leading_before(v, x);
            let w = v.insert(p, x);
            assert forall|i: int, j: int| 0 <= i < j < w.len() implies text_less(
                #[trigger] w[i],
                #[trigger] w[j],
            ) by {
                if p < v.len() {
                    lemma_text_less_total(v[p], x);
                    assert(v[p] != x);
                }
                if j < p {
                    assert(w[i] == v[i] && w[j] == v[j]);
                } else if j == p {
                    assert(w[i] == v[i]);
                } else if i < p {
                    assert(w[i] == v[i] && w[j] == v[j - 1]);
                    if j - 1 > p {
                        assert(text_less(v[p], v[j - 1]));
                        lemma_text_less_transitive(x, v[p], v[j - 1]);
                    }
                    lemma_text_less_transitive(v[i], x, v[j - 1]);
                } else if i == p {
                    assert(w[j] == v[j - 1]);
                    if j - 1 > p {
                        assert(text_less(v[p], v[j - 1]));
                        lemma_text_less_transitive(x, v[p], v[j - 1]);
                    }
                } else {
                    assert(w[i] == v[i - 1] && w[j] == v[j - 1]);
                }
            }
            assert forall|y: Seq<char>| w.to_set().contains(y) <==> v.to_set().insert(x).contains(y) by {
                if w.contains(y) {
                    let i = choose|i: int| 0 <= i < w.len() && w[i] == y;
                    if i < p {
                        assert(v[i] == y);
                    } else if i > p {
                        assert(v[i - 1] == y);
                    }
                }
                if v.contains(y) {
                    let i = choose|i: int| 0 <= i < v.len() && v[i] == y;
                    if i < p {
                        assert(w[i] == y);
                    } else {
                        assert(w[i + 1] == y);
                    }
                }
                if y == x {
                    assert(w[p] == y);
                }
            }
            assert(w.to_set() =~= s.to_set());
            assert(strictly_sorted(w) && w.to_set() == s.to_set());
        }
    }
}

/// Normalized tags are sorted without repeats, and they are exactly the
/// given tags trimmed and lower-cased.
pub proof fn lemma_normalized_tags(tags: Seq<Seq<char>>)
    requires
        !has_blank_tag(tags),
    ensures
        tags_outcome(tags) is Ok,
        strictly_sorted(tags_outcome(tags)->Ok_0),
        tags_outcome(tags)->Ok_0.to_set() == tag_set(tags),
        forall|k: int| 0 <= k < tags.len() ==> tags_outcome(tags)->Ok_0.contains(
            normalized_tag(#[trigger] tags[k]),
        ),
{
    let m = tags.map_values(|t: Seq<char>| normalized_tag(t));
    lemma_sorted_list_exists(m);
    let v = tags_outcome(tags)->Ok_0;
    assert forall|k: int| 0 <= k < tags.len() implies v.contains(normalized_tag(#[trigger] tags[k])) by {
        assert(m[k] == normalized_tag(tags[k]));
        assert(m.to_set().contains(m[k]));
        assert(v.to_set().contains(m[k]));
    }
}

/// The order of the tags and their repeats do not matter: two lists with the
/// same tags normalize alike.
pub proof fn lemma_tags_order_irrelevant(a: Seq<Seq<char>>, b: Seq<Seq<char>>)
    requires
        a.to_set() == b.to_set(),
    ensures
        tags_outcome(a) == tags_outcome(b),
{
    assert(has_blank_tag(a) == has_blank_tag(b)) by {
        if has_blank_tag(a) {
            let k = choose|k: int| 0 <= k < a.len() && trim_spec(#[trigger] a[k]).len() == 0;
            assert(a.to_set().contains(a[k]));
            assert(b.contains(a[k]));
        }
        if has_blank_tag(b) {
            let k = choose|k: int| 0 <= k < b.len() && trim_spec(#[trigger] b[k]).len() == 0;
            assert(b.to_set().contains(b[k]));
            assert(a.contains(b[k]));
        }
    }
    let f = |t: Seq<char>| normalized_tag(t);
    assert forall|y: Seq<char>| tag_set(a).contains(y) <==> tag_set(b).contains(y) by {
        if a.map_values(f).contains(y) {
            let i = choose|i: int| 0 <= i < a.len() && a.map_values(f)[i] == y;
            assert(a.to_set().contains(a[i]));
            assert(b.contains(a[i]));
            let j = choose|j: int| 0 <= j < b.len() && b[j] == a[i];
            assert(b.map_values(f)[j] == y);
        }
        if b.map_values(f).contains(y) {
            let i = choose|i: int| 0 <= i < b.len() && b.map_values(f)[i] == y;
            assert(b.to_set().contains(b[i]));
            assert(a.contains(b[i]));
            let j = choose|j: int| 0 <= j < a.len() && a[j] == b[i];
            assert(a.map_values(f)[j] == y);
        }
    }
    assert(tag_set(a) =~= tag_set(b));
}

/// A normalized ticket has its events sorted by time, its id trimmed and
/// not empty, and its update time set.
pub proof fn lemma_normalized_ticket(t: TicketView)
    requires
        normalize_outcome(t) is Ok,
    ensures
        super::order::sorted_by(normalize_outcome(t)->Ok_0.events, event_before()),
        normalize_outcome(t)->Ok_0.id == trim_spec(t.id),
        normalize_outcome(t)->Ok_0.id.len() > 0,
        normalize_outcome(t)->Ok_0.updated_at is Some,
        strictly_sorted(normalize_outcome(t)->Ok_0.tags),
        normalize_outcome(t)->Ok_0.tags.to_set() == tag_set(t.tags),
{
    super::order::lemma_event_order();
    super::order::lemma_sort_sorted(events_outcome(t.events)->Ok_0, event_before());
    lemma_normalized_tags(t.tags);
}

/// `out` is the optional text `input` normalized: absent exactly when the
/// input is absent or blank, and otherwise the input trimmed.
pub open spec fn trimmed_or_absent(out: Option<Seq<char>>, input: Option<Seq<char>>) -> bool {
    &&& (out is None <==> (input is None || trim_spec(input->Some_0).len() == 0))
    &&& (out is Some ==> out->Some_0 == trim_spec(input->Some_0))
}

/// `out` is event `e` normalized: type and visibility trimmed, time read as
/// RFC 3339 and written back in UTC with milliseconds, actor and body
/// trimmed or absent.
pub open spec fn event_normalized_from(out: TicketEventView, e: TicketEventView) -> bool {
    &&& out.kind == trim_spec(e.kind)
    &&& trim_spec(e.kind).len() > 0
    &&& rfc3339_instant(e.at) is Some
    &&& out.at == rfc3339_millis_text(rfc3339_instant(e.at)->Some_0.0, rfc3339_instant(e.at)->Some_0.1)
    &&& trimmed_or_absent(out.actor, e.actor)
    &&& trimmed_or_absent(out.body, e.body)
    &&& out.visibility == trim_spec(e.visibility)
    &&& trim_spec(e.visibility).len() > 0
}

proof fn lemma_optional_relation(v: Option<Seq<char>>)
    ensures
        trimmed_or_absent(optional_spec(v), v),
{
}

proof fn lemma_events_outcome_fields(es: Seq<TicketEventView>)
    requires
        events_outcome(es) is Ok,
    ensures
        events_outcome(es)->Ok_0.len() == es.len(),
        forall|i: int|
            0 <= i < es.len() ==> event_normalized_from(
                #[trigger] events_outcome(es)->Ok_0[i],
                es[i],
            ),
    decreases es.len(),
{
    if es.len() > 0 {
        let r = es.drop_last();
        lemma_events_outcome_fields(r);
        let e = es.last();
        lemma_optional_relation(e.actor);
        lemma_optional_relation(e.body);
        let v = events_outcome(es)->Ok_0;
        assert forall|i: int| 0 <= i < es.len() implies event_normalized_from(#[trigger] v[i], es[i]) by {
            if i < es.len() - 1 {
                assert(v[i] == events_outcome(r)->Ok_0[i]);
                assert(es[i] == r[i]);
            }
        }
    }
}

/// What a normalized ticket holds, field by field: the id trimmed and not
/// blank; priority and status as given; every optional text trimmed, absent
/// when blank; the creation time read as RFC 3339 and written in UTC with
/// milliseconds; the update time likewise, taken from the creation time when
/// absent.
pub proof fn lemma_normalized_fields(t: TicketView)
    requires
        normalize_outcome(t) is Ok,
    ensures
        normalize_outcome(t)->Ok_0.id == trim_spec(t.id),
        trim_spec(t.id).len() > 0,
        normalize_outcome(t)->Ok_0.priority == t.priority,
        normalize_outcome(t)->Ok_0.status == t.status,
        trimmed_or_absent(normalize_outcome(t)->Ok_0.subject, t.subject),
        trimmed_or_absent(normalize_outcome(t)->Ok_0.channel, t.channel),
        trimmed_or_absent(normalize_outcome(t)->Ok_0.requester_id, t.requester_id),
        trimmed_or_absent(normalize_outcome(t)->Ok_0.assignee, t.assignee),
        trimmed_or_absent(normalize_outcome(t)->Ok_0.team, t.team),
        trimmed_or_absent(normalize_outcome(t)->Ok_0.product_area, t.product_area),
        rfc3339_instant(t.created_at) is Some,
        normalize_outcome(t)->Ok_0.created_at == rfc3339_millis_text(
            rfc3339_instant(t.created_at)->Some_0.0,
            rfc3339_instant(t.created_at)->Some_0.1,
        ),
        ({
            let source = match t.updated_at {
                Some(u) => u,
                None => normalize_outcome(t)->Ok_0.created_at,
            };
            &&& rfc3339_instant(source) is Some
            &&& normalize_outcome(t)->Ok_0.updated_at == Some(
                rfc3339_millis_text(rfc3339_instant(source)->Some_0.0, rfc3339_instant(source)->Some_0.1),
            )
        }),
{
    lemma_optional_relation(t.subject);
    lemma_optional_relation(t.channel);
    lemma_optional_relation(t.requester_id);
    lemma_optional_relation(t.assignee);
    lemma_optional_relation(t.team);
    lemma_optional_relation(t.product_area);
}

/// The tags of a normalized ticket: the set of the given tags, which are
/// not blank, each trimmed and lower-cased; sorted without repeats.
pub proof fn lemma_normalized_tag_list(t: TicketView)
    requires
        normalize_outcome(t) is Ok,
    ensures
        forall|k: int| 0 <= k < t.tags.len() ==> trim_spec(#[trigger] t.tags[k]).len() > 0,
        normalize_outcome(t)->Ok_0.tags.to_set() == t.tags.map_values(
            |x: Seq<char>| lowercase_text(trim_spec(x)),
        ).to_set(),
        forall|i: int, j: int|
            0 <= i < j < normalize_outcome(t)->Ok_0.tags.len() ==> text_less(
                #[trigger] normalize_outcome(t)->Ok_0.tags[i],
                #[trigger] normalize_outcome(t)->Ok_0.tags[j],
            ),
{
    assert(tags_outcome(t.tags) is Ok);
    lemma_normalized_tags(t.tags);
    let f = |x: Seq<char>| normalized_tag(x);
    let g = |x: Seq<char>| lowercase_text(trim_spec(x));
    assert(t.tags.map_values(f) =~= t.tags.map_values(g));
}

/// Event `e` normalized, once its type, time and visibility are known to
/// pass: type and visibility trimmed, time in UTC with milliseconds, actor
/// and body trimmed or absent.
pub open spec fn event_normalized(e: TicketEventView) -> TicketEventView {
    TicketEventView {
        kind: trim_spec(e.kind),
        at: rfc3339_millis_text(rfc3339_instant(e.at)->Some_0.0, rfc3339_instant(e.at)->Some_0.1),
        actor: optional_spec(e.actor),
        body: optional_spec(e.body),
        visibility: trim_spec(e.visibility),
    }
}

/// The given events, each normalized, in the order given.
pub open spec fn events_normalized(es: Seq<TicketEventView>) -> Seq<TicketEventView> {
    es.map_values(|e: TicketEventView| event_normalized(e))
}

proof fn lemma_trimmed_or_absent_unique(out: Option<Seq<char>>, input: Option<Seq<char>>)
    requires
        trimmed_or_absent(out, input),
    ensures
        out == optional_spec(input),
{
}

/// Events of a normalized ticket that happen at the same time keep the order
/// in which they were given: for every time `a`, its events at `a` are the
/// given events whose normalized time is `a`, normalized, in the given
/// order.
pub proof fn lemma_normalized_events_keep_ties(t: TicketView, a: Seq<char>)
    requires
        normalize_outcome(t) is Ok,
    ensures
        normalize_outcome(t)->Ok_0.events.filter(at_time(a)) == events_normalized(t.events).filter(
            at_time(a),
        ),
{
    assert(events_outcome(t.events) is Ok);
    let v = events_outcome(t.events)->Ok_0;
    lemma_events_outcome_fields(t.events);
    assert(v =~= events_normalized(t.events)) by {
        assert forall|i: int| 0 <= i < v.len() implies v[i] == events_normalized(t.events)[i] by {
            assert(event_normalized_from(v[i], t.events[i]));
            lemma_trimmed_or_absent_unique(v[i].actor, t.events[i].actor);
            lemma_trimmed_or_absent_unique(v[i].body, t.events[i].body);
        }
    }
    lemma_events_keep_ties(v, a);
}

/// The events of a normalized ticket: as many as were given, each the
/// normalized form of a given event and each given event normalized among
/// them, sorted by time.
pub proof fn lemma_normalized_event_list(t: TicketView)
    requires
        normalize_outcome(t) is Ok,
    ensures
        normalize_outcome(t)->Ok_0.events.len() == t.events.len(),
        forall|i: int|
            #![trigger t.events[i]]
            0 <= i < t.events.len() ==> exists|k: int|
                #![trigger normalize_outcome(t)->Ok_0.events[k]]
                0 <= k < t.events.len() && event_normalized_from(
                    normalize_outcome(t)->Ok_0.events[k],
                    t.events[i],
                ),
        forall|k: int|
            #![trigger normalize_outcome(t)->Ok_0.events[k]]
            0 <= k < t.events.len() ==> exists|i: int|
                #![trigger t.events[i]]
                0 <= i < t.events.len() && event_normalized_from(
                    normalize_outcome(t)->Ok_0.events[k],
                    t.events[i],
                ),
        forall|i: int, j: int|
            0 <= i < j < normalize_outcome(t)->Ok_0.events.len() ==> !text_less(
                #[trigger] normalize_outcome(t)->Ok_0.events[j].at,
                #[trigger] normalize_outcome(t)->Ok_0.events[i].at,
            ),
{
    assert(events_outcome(t.events) is Ok);
    let v = events_outcome(t.events)->Ok_0;
    let n = normalize_outcome(t)->Ok_0.events;
    assert(n == sort_stable(v, event_before()));
    lemma_events_outcome_fields(t.events);
    super::order::lemma_event_order();
    super::order::lemma_sort_sorted(v, event_before());
    super::order::lemma_sort_permutes(v, event_before());
    assert forall|i: int| #![trigger t.events[i]] 0 <= i < t.events.len() implies exists|k: int|
        #![trigger n[k]]
        0 <= k < t.events.len() && event_normalized_from(n[k], t.events[i]) by {
        assert(v.contains(v[i]));
        vstd::seq_lib::to_multiset_contains(v, v[i]);
        vstd::seq_lib::to_multiset_contains(n, v[i]);
        let k = choose|k: int| 0 <= k < n.len() && n[k] == v[i];
        assert(event_normalized_from(n[k], t.events[i]));
    }
    assert forall|k: int| #![trigger n[k]] 0 <= k < t.events.len() implies exists|i: int|
        #![trigger t.events[i]]
        0 <= i < t.events.len() && event_normalized_from(n[k], t.events[i]) by {
        assert(n.contains(n[k]));
        vstd::seq_lib::to_multiset_contains(n, n[k]);
        vstd::seq_lib::to_multiset_contains(v, n[k]);
        let i = choose|i: int| 0 <= i < v.len() && v[i] == n[k];
        assert(event_normalized_from(v[i], t.events[i]));
    }
    assert forall|i: int, j: int| 0 <= i < j < n.len() implies !text_less(
        #[trigger] n[j].at,
        #[trigger] n[i].at,
    ) by {
        assert(!event_before()(n[j], n[i]));
    }
}

/// Whether an event can be normalized: its type and visibility are not
/// blank and its time is an RFC 3339 date.
pub open spec fn event_acceptable(e: TicketEventView) -> bool {
    &&& trim_spec(e.kind).len() > 0
    &&& rfc3339_instant(e.at) is Some
    &&& trim_spec(e.visibility).len() > 0
}

/// The error for an event that cannot be normalized, at position `index`:
/// a blank type first, then a time that is no date, then a blank
/// visibility.
pub open spec fn event_refusal(e: TicketEventView, index: usize) -> SupportError {
    if trim_spec(e.kind).len() == 0 {
        SupportError::EmptyValue(FieldName::EventType(index))
    } else if rfc3339_instant(e.at) is None {
        SupportError::InvalidDate(FieldName::EventAt(index))
    } else {
        SupportError::EmptyValue(FieldName::EventVisibility(index))
    }
}

proof fn lemma_events_outcome_law(es: Seq<TicketEventView>)
    ensures
        (forall|i: int| 0 <= i < es.len() ==> event_acceptable(#[trigger] es[i])) ==> events_outcome(
            es,
        ) is Ok,
        forall|i: int|
            #![trigger es[i]]
            0 <= i < es.len() && !event_acceptable(es[i]) && (forall|j: int|
                0 <= j < i ==> event_acceptable(#[trigger] es[j])) ==> events_outcome(es) == Err::<
                Seq<TicketEventView>,
                SupportError,
            >(event_refusal(es[i], i as usize)),
    decreases es.len(),
{
    if es.len() > 0 {
        let r = es.drop_last();
        lemma_events_outcome_law(r);
        let n = es.len() - 1;
        assert(es.last() == es[n]);
        if forall|i: int| 0 <= i < es.len() ==> event_acceptable(#[trigger] es[i]) {
            assert forall|i: int| 0 <= i < r.len() implies event_acceptable(#[trigger] r[i]) by {
                assert(r[i] == es[i]);
            }
            assert(event_acceptable(es[n]));
        }
        assert forall|i: int|
            #![trigger es[i]]
            0 <= i < es.len() && !event_acceptable(es[i]) && (forall|j: int|
                0 <= j < i ==> event_acceptable(#[trigger] es[j])) implies events_outcome(es) == Err::<
            Seq<TicketEventView>,
            SupportError,
        >(event_refusal(es[i], i as usize)) by {
            if i < n {
                assert(r[i] == es[i]);
                assert forall|j: int| 0 <= j < i implies event_acceptable(#[trigger] r[j]) by {
                    assert(r[j] == es[j]);
                    assert(event_acceptable(es[j]));
                }
            } else {
                assert forall|j: int| 0 <= j < r.len() implies event_acceptable(#[trigger] r[j]) by {
                    assert(r[j] == es[j]);
                    assert(event_acceptable(es[j]));
                }
            }
        }
    }
}

/// When normalizing succeeds and which error it gives otherwise, over all
/// tickets: it succeeds exactly when the id is not blank, the creation time
/// is a date, the update time (or, without one, the normalized creation
/// time) is a date, no tag is blank, and every event can be normalized.
/// Otherwise the first failing check, in that order, gives the error; among
/// the events, the first event that fails.
pub proof fn lemma_normalize_succeeds(t: TicketView)
    ensures
        normalize_outcome(t) is Ok <==> {
            &&& trim_spec(t.id).len() > 0
            &&& rfc3339_instant(t.created_at) is Some
            &&& rfc3339_instant(
                match t.updated_at {
                    Some(u) => u,
                    None => rfc3339_millis_text(
                        rfc3339_instant(t.created_at)->Some_0.0,
                        rfc3339_instant(t.created_at)->Some_0.1,
                    ),
                },
            ) is Some
            &&& forall|k: int| 0 <= k < t.tags.len() ==> trim_spec(#[trigger] t.tags[k]).len() > 0
            &&& forall|i: int| 0 <= i < t.events.len() ==> event_acceptable(#[trigger] t.events[i])
        },
        trim_spec(t.id).len() == 0 ==> normalize_outcome(t) == Err::<TicketView, SupportError>(
            SupportError::EmptyValue(FieldName::TicketId),
        ),
        trim_spec(t.id).len() > 0 && rfc3339_instant(t.created_at) is None ==> normalize_outcome(t)
            == Err::<TicketView, SupportError>(SupportError::InvalidDate(FieldName::TicketCreatedAt)),
        trim_spec(t.id).len() > 0 && rfc3339_instant(t.created_at) is Some && rfc3339_instant(
            match t.updated_at {
                Some(u) => u,
                None => rfc3339_millis_text(
                    rfc3339_instant(t.created_at)->Some_0.0,
                    rfc3339_instant(t.created_at)->Some_0.1,
                ),
            },
        ) is None ==> normalize_outcome(t) == Err::<TicketView, SupportError>(
            SupportError::InvalidDate(FieldName::TicketUpdatedAt),
        ),
        (exists|k: int|
            0 <= k < t.tags.len() && trim_spec(#[trigger] t.tags[k]).len() == 0) && trim_spec(t.id).len()
            > 0 && rfc3339_instant(t.created_at) is Some && rfc3339_instant(
            match t.updated_at {
                Some(u) => u,
                None => rfc3339_millis_text(
                    rfc3339_instant(t.created_at)->Some_0.0,
                    rfc3339_instant(t.created_at)->Some_0.1,
                ),
            },
        ) is Some ==> normalize_outcome(t) == Err::<TicketView, SupportError>(
            SupportError::EmptyValue(FieldName::Tag),
        ),
        forall|i: int|
            #![trigger t.events[i]]
            0 <= i < t.events.len() && !event_acceptable(t.events[i]) && (forall|j: int|
                0 <= j < i ==> event_acceptable(#[trigger] t.events[j])) && (forall|k: int|
                0 <= k < t.tags.len() ==> trim_spec(#[trigger] t.tags[k]).len() > 0) && trim_spec(
                t.id,
            ).len() > 0 && rfc3339_instant(t.created_at) is Some && rfc3339_instant(
                match t.updated_at {
                    Some(u) => u,
                    None => rfc3339_millis_text(
                        rfc3339_instant(t.created_at)->Some_0.0,
                        rfc3339_instant(t.created_at)->Some_0.1,
                    ),
                },
            ) is Some ==> normalize_outcome(t) == Err::<TicketView, SupportError>(
                event_refusal(t.events[i], i as usize),
            ),
{
    lemma_events_outcome_law(t.events);
    if forall|i: int| 0 <= i < t.events.len() ==> event_acceptable(#[trigger] t.events[i]) {
    } else {
        let i = choose|i: int| 0 <= i < t.events.len() && !event_acceptable(#[trigger] t.events[i]);
        lemma_first_failure(t.events, i);
    }
    if normalize_outcome(t) is Ok {
        lemma_normalized_tags(t.tags);
        if !(forall|i: int| 0 <= i < t.events.len() ==> event_acceptable(#[trigger] t.events[i])) {
            let i = choose|i: int| 0 <= i < t.events.len() && !event_acceptable(#[trigger] t.events[i]);
            lemma_first_failure(t.events, i);
        }
    }
}

/// If some event fails, there is a first one.
proof fn lemma_first_failure(es: Seq<TicketEventView>, i: int)
    requires
        0 <= i < es.len(),
        !event_acceptable(es[i]),
    ensures
        exists|m: int|
            #![trigger es[m]]
            0 <= m < es.len() && !event_acceptable(es[m]) && (forall|j: int|
                0 <= j < m ==> event_acceptable(#[trigger] es[j])),
    decreases i,
{
    if exists|j: int| 0 <= j < i && !event_acceptable(#[trigger] es[j]) {
        let j = choose|j: int| 0 <= j < i && !event_acceptable(#[trigger] es[j]);
        lemma_first_failure(es, j);
    } else {
        assert(es[i] == es[i]);
    }
}

} // verus!
