//! The cron and chrono crates behind the library's schedules.
use vstd::prelude::*;
use crate::text::text_to_string;

verus! {

#[verifier::external_type_specification]
#[verifier::external_body]
pub struct ExCronError(cron::error::Error);

/// Whether the cron crate accepts an expression (`cron::Schedule::from_str`).
pub uninterp spec fn cron_accepts(expr: Seq<char>) -> bool;

/// The first time (in milliseconds since the Unix epoch, UTC) strictly after
/// `after_ms` at which the schedule of an accepted expression fires, if any
/// (the first item of `cron::Schedule::after`).
pub uninterp spec fn cron_first_fire_after(expr: Seq<char>, after_ms: i64) -> Option<i64>;

/// The latest instant (milliseconds since the Unix epoch, UTC) after which
/// the cron crate can look for a fire: its search starts one second past the
/// given time, and chrono's range ends at 262142-12-31T23:59:59.999 UTC
/// (8210266876799999 ms), past which that step panics.
pub const LATEST_START_MS: i64 = 8210266876798999;

/// The instant an RFC 3339 timestamp denotes, in milliseconds since the Unix
/// epoch (`chrono::DateTime::parse_from_rfc3339`, then `timestamp_millis`);
/// `None` when the text is not such a timestamp.
pub uninterp spec fn rfc3339_millis(text: Seq<char>) -> Option<i64>;

/// `chrono::DateTime::parse_from_rfc3339` followed by `timestamp_millis`;
/// the result is the named one, a function of the text alone.
#[verifier::external_body]
pub(crate) fn rfc3339_ms(text: &str) -> (r: Option<i64>)
    ensures
        r == rfc3339_millis(text@),
{
    match chrono::DateTime::parse_from_rfc3339(text) {
        Ok(t) => Some(t.timestamp_millis()),
        Err(_) => None,
    }
}

/// `cron::Schedule::from_str`: parses an expression (the schedule itself is
/// not kept); it succeeds exactly when the expression is accepted.
#[verifier::external_body]
pub(crate) fn cron_parse(expr: &str) -> (r: Result<(), cron::error::Error>)
    ensures
        r is Ok == cron_accepts(expr@),
{
    match <cron::Schedule as std::str::FromStr>::from_str(expr) {
        Ok(_) => Ok(()),
        Err(e) => Err(e),
    }
}

/// The message of a `cron::error::Error` (its `Display`); nothing is stated
/// of it.
#[verifier::external_body]
pub(crate) fn cron_error_text(e: &cron::error::Error) -> String {
    format!("{}", e)
}

/// A cron expression the cron crate accepts. Only `parse` builds one.
pub struct CronPlan {
    expression: String,
}

impl CronPlan {
    pub closed spec fn expression(&self) -> Seq<char> {
        self.expression@
    }

    /// Parses `expr`; on failure the cron crate's message is returned.
    pub fn parse(expr: &str) -> (r: Result<CronPlan, String>)
        ensures
            r is Ok == cron_accepts(expr@),
            r matches Ok(p) ==> p.expression() == expr@,
    {
        match cron_parse(expr) {
            Ok(()) => Ok(CronPlan { expression: text_to_string(expr) }),
            Err(e) => Err(cron_error_text(&e)),
        }
    }

    /// The expression's `cron::Schedule` (from `from_str`, which succeeds as
    /// `parse` did), then `cron::Schedule::after` with the time taken as UTC
    /// milliseconds (`chrono::DateTime::from_timestamp_millis`) and the first
    /// time it yields, as milliseconds; `None` when the schedule never fires
    /// again or `after_ms` is outside chrono's range. Past `LATEST_START_MS`
    /// the crate's one-second step overflows chrono and panics, so those
    /// times are not admitted.
    #[verifier::external_body]
    pub(crate) fn first_fire_after(&self, after_ms: i64) -> (r: Option<i64>)
        requires
            after_ms <= LATEST_START_MS,
        ensures
            r == cron_first_fire_after(self.expression(), after_ms),
    {
        match (
            <cron::Schedule as std::str::FromStr>::from_str(&self.expression),
            chrono::DateTime::from_timestamp_millis(after_ms),
        ) {
            (Ok(schedule), Some(start)) => match schedule.after(&start).next() {
                Some(t) => Some(t.timestamp_millis()),
                None => None,
            },
            _ => None,
        }
    }
}

} // verus!
