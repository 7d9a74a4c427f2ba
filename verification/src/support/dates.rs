//! Instants as the library reads them: whole seconds since the Unix epoch
//! and the nanoseconds since the last whole second, as chrono counts them.
//! Reading, writing and shifting an instant is chrono's work; ordering two
//! instants is the library's.

use chrono::{DateTime, SecondsFormat, TimeDelta, Utc};
use vstd::prelude::*;

verus! {

/// Whether `DateTime::<Utc>::from_timestamp(secs, nanos)` gives an instant:
/// the seconds lie in chrono's range and the nanoseconds are valid (up to
/// two seconds' worth on a leap second).
pub uninterp spec fn utc_representable(secs: i64, nanos: u32) -> bool;

/// The instant that `DateTime::parse_from_rfc3339` reads from a text, as
/// `(timestamp, timestamp_subsec_nanos)` in UTC, or `None` if it refuses it.
pub uninterp spec fn rfc3339_instant(text: Seq<char>) -> Option<(i64, u32)>;

/// The text that `to_rfc3339_opts(SecondsFormat::Millis, true)` writes for
/// the UTC instant `(secs, nanos)`.
pub uninterp spec fn rfc3339_millis_text(secs: i64, nanos: u32) -> Seq<char>;

/// The instant that `checked_add_signed` gives when `ms` milliseconds are
/// added to the UTC instant `(secs, nanos)`, or `None` when the sum leaves
/// chrono's range or `ms` is no `TimeDelta`.
pub uninterp spec fn shifted_by_millis(secs: i64, nanos: u32, ms: i64) -> Option<(i64, u32)>;

/// An instant in UTC.
#[derive(Debug, Clone, Copy, PartialEq, Eq, Hash)]
pub struct Timestamp {
    secs: i64,
    nanos: u32,
}

impl View for Timestamp {
    type V = (i64, u32);

    closed spec fn view(&self) -> (i64, u32) {
        (self.secs, self.nanos)
    }
}

impl Timestamp {
    /// Every timestamp is one that chrono can represent.
    #[verifier::type_invariant]
    closed spec fn representable(self) -> bool {
        utc_representable(self.secs, self.nanos)
    }

    /// The whole seconds since the Unix epoch.
    pub fn unix_seconds(&self) -> (r: i64)
        ensures
            r == self@.0,
    {
        self.secs
    }

    /// The nanoseconds since the last whole second.
    pub fn subsec_nanos(&self) -> (r: u32)
        ensures
            r == self@.1,
    {
        self.nanos
    }

    /// The instant `secs` seconds and `nanos` nanoseconds after the Unix
    /// epoch, if chrono can represent it.
    pub fn from_unix(secs: i64, nanos: u32) -> (r: Option<Timestamp>)
        ensures
            r is Some <==> utc_representable(secs, nanos),
            r matches Some(t) ==> t@ == (secs, nanos),
    {
        utc_from_timestamp(secs, nanos)
    }

    /// Whether this instant is not later than `other`.
    pub fn not_after(&self, other: &Timestamp) -> (r: bool)
        ensures
            r == instant_le(self@, other@),
    {
        self.secs < other.secs || (self.secs == other.secs && self.nanos <= other.nanos)
    }
}

/// Whether instant `a` is not later than instant `b`: chrono orders instants
/// by their seconds, then by their nanoseconds.
pub open spec fn instant_le(a: (i64, u32), b: (i64, u32)) -> bool {
    a.0 < b.0 || (a.0 == b.0 && a.1 <= b.1)
}

/// Calls `DateTime::<Utc>::from_timestamp`, which gives an instant exactly
/// when `utc_representable(secs, nanos)`; its documentation guarantees the
/// round trip with `timestamp` and `timestamp_subsec_nanos`.
#[verifier::external_body]
fn utc_from_timestamp(secs: i64, nanos: u32) -> (r: Option<Timestamp>)
    ensures
        r is Some <==> utc_representable(secs, nanos),
        r matches Some(t) ==> t@ == (secs, nanos),
{
    match DateTime::<Utc>::from_timestamp(secs, nanos) {
        Some(_) => Some(Timestamp { secs, nanos }),
        None => None,
    }
}

/// Calls `DateTime::parse_from_rfc3339` and takes the instant it reads in
/// UTC; the result is named `rfc3339_instant`.
#[verifier::external_body]
pub(crate) fn parse_rfc3339(text: &str) -> (r: Option<Timestamp>)
    ensures
        match r {
            Some(t) => rfc3339_instant(text@) == Some(t@),
            None => rfc3339_instant(text@) is None,
        },
{
    match DateTime::parse_from_rfc3339(text) {
        Ok(d) => Some(Timestamp { secs: d.timestamp(), nanos: d.timestamp_subsec_nanos() }),
        Err(_) => None,
    }
}

/// Calls `to_rfc3339_opts(SecondsFormat::Millis, true)` on the instant; the
/// text is named `rfc3339_millis_text`. The instant is rebuilt with
/// `DateTime::from_timestamp`, which gives it back for every `Timestamp` (the
/// type's invariant), so the default is never taken.
#[verifier::external_body]
pub(crate) fn format_rfc3339_millis(t: &Timestamp) -> (r: String)
    ensures
        r@ == rfc3339_millis_text(t@.0, t@.1),
{
    let d = DateTime::<Utc>::from_timestamp(t.secs, t.nanos).unwrap_or_default();
    d.to_rfc3339_opts(SecondsFormat::Millis, true)
}

/// Calls `TimeDelta::try_milliseconds` and `checked_add_signed`; the result
/// is named `shifted_by_millis`. The instant is rebuilt as for
/// `format_rfc3339_millis`.
#[verifier::external_body]
pub(crate) fn add_millis(t: &Timestamp, ms: i64) -> (r: Option<Timestamp>)
    ensures
        match r {
            Some(u) => shifted_by_millis(t@.0, t@.1, ms) == Some(u@),
            None => shifted_by_millis(t@.0, t@.1, ms) is None,
        },
{
    let d = DateTime::<Utc>::from_timestamp(t.secs, t.nanos).unwrap_or_default();
    match TimeDelta::try_milliseconds(ms) {
        Some(delta) => match d.checked_add_signed(delta) {
            Some(x) => Some(Timestamp { secs: x.timestamp(), nanos: x.timestamp_subsec_nanos() }),
            None => None,
        },
        None => None,
    }
}

} // verus!
