//! Environmental event markers for consciousness experiments, and the
//! wall-clock formatting used to timestamp them.

use vstd::prelude::*;

use crate::calendar::{spec_days_to_date, spec_is_leap};
use crate::session::{civil_from_days, spec_iso8601};
use crate::text::{dec_padded, push_dec_padded, string_from_chars};

verus! {

/// Categories of environmental events.
#[derive(Debug, Clone, Copy, PartialEq, Eq, Structural)]
pub enum EventCategory {
    /// Major world events (news, disasters, elections).
    WorldEvent,
    /// Local environmental changes (weather, noise, light).
    LocalEnvironment,
    /// Operator state changes (meditation, emotional shift).
    OperatorState,
    /// Technical events (source availability change, system load).
    Technical,
    /// Group coherence events (multiple people focused).
    GroupCoherence,
    /// Custom/other.
    Custom,
}

/// The display label of an event category.
pub open spec fn spec_event_category_name(c: EventCategory) -> Seq<char> {
    match c {
        EventCategory::WorldEvent => "world"@,
        EventCategory::LocalEnvironment => "local"@,
        EventCategory::OperatorState => "operator"@,
        EventCategory::Technical => "technical"@,
        EventCategory::GroupCoherence => "group"@,
        EventCategory::Custom => "custom"@,
    }
}

impl EventCategory {
    /// The display label of this category.
    pub fn to_string(&self) -> (s: String)
        ensures
            s@ == spec_event_category_name(*self),
    {
        match self {
            EventCategory::WorldEvent => String::from_str("world"),
            EventCategory::LocalEnvironment => String::from_str("local"),
            EventCategory::OperatorState => String::from_str("operator"),
            EventCategory::Technical => String::from_str("technical"),
            EventCategory::GroupCoherence => String::from_str("group"),
            EventCategory::Custom => String::from_str("custom"),
        }
    }
}

/// Gregorian leap year.
pub fn is_leap(year: u64) -> (leap: bool)
    ensures
        leap == spec_is_leap(year as int),
{
    (year % 4 == 0 && year % 100 != 0) || year % 400 == 0
}

/// Gregorian date `(year, month, day)` from days since 1970-01-01.
pub fn days_to_date(days_since_epoch: u64) -> (date: (u64, u64, u64))
    ensures
        date.0 as int == spec_days_to_date(days_since_epoch as nat).0,
        date.1 as int == spec_days_to_date(days_since_epoch as nat).1,
        date.2 as int == spec_days_to_date(days_since_epoch as nat).2,
{
    civil_from_days(days_since_epoch)
}

/// The ISO 8601 wall-clock text `YYYY-MM-DDTHH:MM:SSZ` of a Unix time,
/// built from the time of day and the date of the day count.
pub open spec fn spec_wall_time(secs: nat) -> Seq<char> {
    let remaining = secs % 86400;
    let (y, m, d) = spec_days_to_date(secs / 86400);
    dec_padded(y as nat, 4) + seq!['-'] + dec_padded(m as nat, 2) + seq!['-'] + dec_padded(
        d as nat,
        2,
    ) + seq!['T'] + dec_padded(remaining / 3600, 2) + seq![':'] + dec_padded(
        (remaining % 3600) / 60,
        2,
    ) + seq![':'] + dec_padded(remaining % 60, 2) + seq!['Z']
}

/// ISO 8601 wall-clock time (UTC) of the given Unix time in seconds.
pub fn current_wall_time(secs: u64) -> (s: String)
    ensures
        s@ == spec_wall_time(secs as nat),
{
    let remaining = secs % 86400;
    let hours = remaining / 3600;
    let minutes = (remaining % 3600) / 60;
    let seconds = remaining % 60;
    let days = secs / 86400;
    let (year, month, day) = days_to_date(days);
    let mut out: Vec<char> = Vec::new();
    push_dec_padded(&mut out, year, 4);
    out.push('-');
    push_dec_padded(&mut out, month, 2);
    out.push('-');
    push_dec_padded(&mut out, day, 2);
    out.push('T');
    push_dec_padded(&mut out, hours, 2);
    out.push(':');
    push_dec_padded(&mut out, minutes, 2);
    out.push(':');
    push_dec_padded(&mut out, seconds, 2);
    out.push('Z');
    assert(out@ =~= spec_wall_time(secs as nat));
    string_from_chars(&out)
}

/// The wall-clock time of an event is the full ISO-8601 timestamp of the
/// same instant that session metadata uses.
pub proof fn lemma_wall_time_is_iso8601(secs: nat)
    ensures
        spec_wall_time(secs) == spec_iso8601(secs, false),
{
    let r = secs % 86400;
    assert(r / 3600 == (secs / 3600) % 24) by (nonlinear_arith)
        requires
            r == secs % 86400,
    ;
    assert((r % 3600) / 60 == (secs / 60) % 60) by (nonlinear_arith)
        requires
            r == secs % 86400,
    ;
    assert(r % 60 == secs % 60) by (nonlinear_arith)
        requires
            r == secs % 86400,
    ;
}

} // verus!
