//! The build date shown in the application menu, in local time.
use time::format_description::well_known::Rfc3339;
use time::{OffsetDateTime, UtcOffset};
use vstd::prelude::*;
use crate::text::{decimal, decimal_u64, radix_text};
use vstd::string::StringExecFns;

verus! {

#[verifier::external_type_specification]
#[verifier::external_body]
pub struct ExOffsetDateTime(OffsetDateTime);

#[verifier::external_type_specification]
#[verifier::external_body]
pub struct ExUtcOffset(UtcOffset);

/// Whether `time` reads the text as an RFC 3339 date and time.
pub uninterp spec fn rfc3339_parses(s: Seq<char>) -> bool;

/// Relies on `time::OffsetDateTime::parse` with `Rfc3339`: whether it
/// succeeds depends on the text alone.
#[verifier::external_body]
fn parse_rfc3339(s: &str) -> (r: Option<OffsetDateTime>)
    ensures
        r is Some == rfc3339_parses(s@),
{
    OffsetDateTime::parse(s, &Rfc3339).ok()
}

/// Relies on `time::UtcOffset::current_local_offset`: the machine's offset
/// now, when it can be determined.
#[verifier::external_body]
fn current_local_offset() -> (r: Option<UtcOffset>) {
    UtcOffset::current_local_offset().ok()
}

/// Relies on `time::UtcOffset::UTC`: the zero offset.
#[verifier::external_body]
fn utc() -> (r: UtcOffset) {
    UtcOffset::UTC
}

/// Relies on `time::OffsetDateTime::checked_to_offset`: the same instant
/// seen at `offset`, or none when its year leaves the supported range.
#[verifier::external_body]
fn checked_to_offset(dt: OffsetDateTime, offset: UtcOffset) -> (r: Option<OffsetDateTime>) {
    dt.checked_to_offset(offset)
}

/// Relies on `time::OffsetDateTime::format`, with the description
/// `[year]-[month]-[day] [hour]:[minute]:[second] [offset_hour
/// sign:mandatory][offset_minute]` read by `time::format_description::parse`.
#[verifier::external_body]
fn format_stamp(dt: OffsetDateTime) -> (r: Option<String>) {
    let fmt = time::format_description::parse(
        "[year]-[month]-[day] [hour]:[minute]:[second] [offset_hour sign:mandatory][offset_minute]",
    ).ok()?;
    dt.format(&fmt).ok()
}

/// Shows an RFC 3339 UTC build date in local time, as
/// `2026-02-09 01:22:07 -0800`; text that does not parse, or a date that
/// cannot be shown, is returned as it came.
pub fn format_build_date_local(build_date_utc: &str) -> (r: String)
    ensures
        !rfc3339_parses(build_date_utc@) ==> r@ == build_date_utc@,
{
    let dt_utc = match parse_rfc3339(build_date_utc) {
        Some(dt) => dt,
        None => return String::from_str(build_date_utc),
    };
    let offset = match current_local_offset() {
        Some(o) => o,
        None => utc(),
    };
    match checked_to_offset(dt_utc, offset) {
        Some(local) => match format_stamp(local) {
            Some(text) => text,
            None => String::from_str(build_date_utc),
        },
        None => String::from_str(build_date_utc),
    }
}

/// The line a benchmark sentinel holds: the process and the time of first
/// paint in milliseconds, as JSON.
pub open spec fn bench_payload_spec(pid: u32, ts_ms: u64) -> Seq<char> {
    seq!['{', '"', 'p', 'i', 'd', '"', ':'] + radix_text(pid as nat, 10) + seq![
        ',',
        '"',
        't',
        's',
        '_',
        'm',
        's',
        '"',
        ':',
    ] + radix_text(ts_ms as nat, 10) + seq!['}', '\n']
}

/// Writes the line of a benchmark sentinel.
pub fn bench_payload(pid: u32, ts_ms: u64) -> (r: String)
    ensures
        r@ == bench_payload_spec(pid, ts_ms),
{
    proof {
        reveal_strlit("{\"pid\":");
        reveal_strlit(",\"ts_ms\":");
        reveal_strlit("}\n");
    }
    let r = String::from_str("{\"pid\":").concat(decimal(pid).as_str()).concat(",\"ts_ms\":").concat(
        decimal_u64(ts_ms).as_str(),
    ).concat("}\n");
    proof {
        assert(r@ =~= bench_payload_spec(pid, ts_ms));
    }
    r
}

} // verus!
