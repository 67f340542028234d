//! The local wall clock.

use vstd::prelude::*;
use chrono::{Datelike, Timelike};
use crate::sidecar::no_newline;
use crate::capture::year_text;
use crate::text::{dec_pad, digits_value, lemma_dec_pad_value};

verus! {

/// Time since the Unix epoch (`SystemTime::now().duration_since(UNIX_EPOCH)`),
/// as whole seconds and the nanoseconds past them; `None` when the system
/// clock reads before the epoch. Stated: only that the nanoseconds are below
/// one second, as `Duration::subsec_nanos` documents; the value depends on
/// the clock.
#[verifier::external_body]
fn unix_now() -> (r: Option<(u64, u32)>)
    ensures
        r matches Some((_, n)) ==> n < 1_000_000_000,
{
    match std::time::SystemTime::now().duration_since(std::time::UNIX_EPOCH) {
        Ok(d) => Some((d.as_secs(), d.subsec_nanos())),
        Err(_) => None,
    }
}

/// The latest Unix time, in seconds, that the clock is read at: in the
/// year 128,000 or so, far inside chrono's range.
pub const LATEST_CLOCK_SECS: i64 = 4_000_000_000_000;

/// How RFC 3339 text of a local time begins: `YYYY-MM-DDTHH:MM:SS`, the
/// year as chrono writes it (four digits, or a sign and at least four).
pub open spec fn rfc3339_head(t: (i32, u32, u32, u32, u32, u32)) -> Seq<char> {
    year_text(t.0 as int) + seq!['-'] + dec_pad(t.1 as nat, 2) + seq!['-'] + dec_pad(t.2 as nat, 2)
        + seq!['T'] + dec_pad(t.3 as nat, 2) + seq![':'] + dec_pad(t.4 as nat, 2) + seq![':']
        + dec_pad(t.5 as nat, 2)
}

/// The local date and time of a Unix time (`DateTime::from_timestamp`, then
/// `with_timezone(&Local)`), as (year, month, day, hour, minute, second) and
/// as its `to_rfc3339()` text; `None` where chrono cannot represent the
/// instant. Stated: the ranges that chrono's `Datelike` and `Timelike`
/// document for each field; that the RFC 3339 text is one line; and, for
/// nanoseconds below one second, that the text begins with those same
/// fields (chrono's `write_rfc3339`: the year as `{:+05}` outside 0..=9999,
/// then two digits each). The values depend on the time zone. Left unsaid:
/// chrono's lookup of the local offset expects the system's time zone data
/// to cover the instant. `requires` keeps the instant far from the end of
/// chrono's range, where `naive_local` would panic on a positive offset.
#[verifier::external_body]
fn local_fields(secs: i64, nanos: u32) -> (r: Option<((i32, u32, u32, u32, u32, u32), String)>)
    requires
        0 <= secs <= LATEST_CLOCK_SECS,
    ensures
        r matches Some((t, text)) ==> 1 <= t.1 <= 12 && 1 <= t.2 <= 31 && t.3 < 24 && t.4 < 60 && t.5
            < 60 && no_newline(text@),
        r matches Some((t, text)) ==> (nanos < 1_000_000_000 ==> rfc3339_head(t).is_prefix_of(text@)),
{
    match chrono::DateTime::from_timestamp(secs, nanos) {
        Some(u) => {
            let t = u.with_timezone(&chrono::Local);
            Some(((t.year(), t.month(), t.day(), t.hour(), t.minute(), t.second()), t.to_rfc3339()))
        },
        None => None,
    }
}

/// The moment of a capture on the local clock: its fields (year, month,
/// day, hour, minute, second) and its RFC 3339 text with the UTC offset.
pub struct CaptureTime {
    pub local: (i32, u32, u32, u32, u32, u32),
    pub rfc3339: String,
}

fn clock_reading() -> (r: Option<((i32, u32, u32, u32, u32, u32), String)>)
    ensures
        r matches Some((t, text)) ==> 1 <= t.1 <= 12 && 1 <= t.2 <= 31 && t.3 < 24 && t.4 < 60 && t.5
            < 60 && no_newline(text@),
        r matches Some((t, text)) ==> rfc3339_head(t).is_prefix_of(text@),
{
    match unix_now() {
        Some((secs, nanos)) => if secs <= LATEST_CLOCK_SECS as u64 {
            local_fields(secs as i64, nanos)
        } else {
            None
        },
        None => None,
    }
}

/// The current moment, for a screenshot's file name and sidecar; `None`
/// when the system clock reads before the Unix epoch or past
/// `LATEST_CLOCK_SECS`.
pub fn capture_time() -> (r: Option<CaptureTime>)
    ensures
        r matches Some(c) ==> 1 <= c.local.1 <= 12 && 1 <= c.local.2 <= 31 && c.local.3 < 24
            && c.local.4 < 60 && c.local.5 < 60 && no_newline(c.rfc3339@),
        r matches Some(c) ==> rfc3339_head(c.local).is_prefix_of(c.rfc3339@),
{
    match clock_reading() {
        Some((local, rfc3339)) => Some(CaptureTime { local, rfc3339 }),
        None => None,
    }
}

/// The current local date and time, as (year, month, day, hour, minute,
/// second); `None` when the system clock reads before the Unix epoch or
/// past `LATEST_CLOCK_SECS`.
pub fn local_now() -> (r: Option<(i32, u32, u32, u32, u32, u32)>)
    ensures
        r matches Some(t) ==> 1 <= t.1 <= 12 && 1 <= t.2 <= 31 && t.3 < 24 && t.4 < 60 && t.5 < 60,
{
    match clock_reading() {
        Some((t, _)) => Some(t),
        None => None,
    }
}


/// The fields of a capture time are the wall-clock fields its RFC 3339 text
/// shows: for a year from 0 to 9999, characters 0-3 hold the year, 5-6 the
/// month, 8-9 the day, 11-12 the hour, 14-15 the minute and 17-18 the
/// second, each read as a decimal number.
pub proof fn lemma_rfc3339_fields(t: (i32, u32, u32, u32, u32, u32), text: Seq<char>)
    requires
        rfc3339_head(t).is_prefix_of(text),
        0 <= t.0 <= 9999,
        t.1 < 100 && t.2 < 100 && t.3 < 100 && t.4 < 100 && t.5 < 100,
    ensures
        digits_value(text.subrange(0, 4)) == t.0,
        digits_value(text.subrange(5, 7)) == t.1,
        digits_value(text.subrange(8, 10)) == t.2,
        digits_value(text.subrange(11, 13)) == t.3,
        digits_value(text.subrange(14, 16)) == t.4,
        digits_value(text.subrange(17, 19)) == t.5,
{
    let h = rfc3339_head(t);
    lemma_dec_pad_value(t.0 as nat, 4);
    lemma_dec_pad_value(t.1 as nat, 2);
    lemma_dec_pad_value(t.2 as nat, 2);
    lemma_dec_pad_value(t.3 as nat, 2);
    lemma_dec_pad_value(t.4 as nat, 2);
    lemma_dec_pad_value(t.5 as nat, 2);
    assert(h.len() == 19);
    assert(text.subrange(0, 19) =~= h);
    assert(h.subrange(0, 4) =~= dec_pad(t.0 as nat, 4));
    assert(text.subrange(0, 4) =~= h.subrange(0, 4));
    assert(h.subrange(5, 7) =~= dec_pad(t.1 as nat, 2));
    assert(text.subrange(5, 7) =~= h.subrange(5, 7));
    assert(h.subrange(8, 10) =~= dec_pad(t.2 as nat, 2));
    assert(text.subrange(8, 10) =~= h.subrange(8, 10));
    assert(h.subrange(11, 13) =~= dec_pad(t.3 as nat, 2));
    assert(text.subrange(11, 13) =~= h.subrange(11, 13));
    assert(h.subrange(14, 16) =~= dec_pad(t.4 as nat, 2));
    assert(text.subrange(14, 16) =~= h.subrange(14, 16));
    assert(h.subrange(17, 19) =~= dec_pad(t.5 as nat, 2));
    assert(text.subrange(17, 19) =~= h.subrange(17, 19));
}

} // verus!
