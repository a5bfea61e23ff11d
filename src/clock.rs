//! Milliseconds as a clock time of day, `HH:MM:SS.fff`.
use vstd::prelude::*;
use crate::numfmt::{padded, push_padded};
use crate::text::push_char;

verus! {

/// The time of day `ms` milliseconds after midnight, wrapping around the
/// day (before midnight for a negative `ms`): hours, minutes, seconds and
/// milliseconds.
pub open spec fn clock_of(ms: int) -> (u8, u8, u8, u16) {
    let d = ms % 86_400_000;
    ((d / 3_600_000) as u8, (d / 60_000 % 60) as u8, (d / 1000 % 60) as u8, (d % 1000) as u16)
}

/// Relies on `time::Time::MIDNIGHT + Duration::milliseconds(ms)` (`Add<Duration>
/// for Time`, which wraps around the day) and `Time::as_hms_milli`.
#[verifier::external_body]
fn hms_milli(ms: i64) -> (r: (u8, u8, u8, u16))
    ensures
        r == clock_of(ms as int),
{
    (time::Time::MIDNIGHT + time::Duration::milliseconds(ms)).as_hms_milli()
}

/// `HH:MM:SS.fff` for hours, minutes, seconds and milliseconds.
pub open spec fn hms_text(t: (u8, u8, u8, u16)) -> Seq<char> {
    padded(t.0 as nat, 2) + seq![':'] + padded(t.1 as nat, 2) + seq![':'] + padded(t.2 as nat, 2)
        + seq!['.'] + padded(t.3 as nat, 3)
}

/// Formats hours, minutes, seconds and milliseconds as `HH:MM:SS.fff`.
pub fn hms_milli_to_string(hms_ms: (u8, u8, u8, u16)) -> (r: String)
    ensures
        r@ == hms_text(hms_ms),
{
    let mut s = String::new();
    push_padded(&mut s, hms_ms.0 as u64, 2);
    push_char(&mut s, ':');
    push_padded(&mut s, hms_ms.1 as u64, 2);
    push_char(&mut s, ':');
    push_padded(&mut s, hms_ms.2 as u64, 2);
    push_char(&mut s, '.');
    push_padded(&mut s, hms_ms.3 as u64, 3);
    assert(s@ =~= hms_text(hms_ms));
    s
}

/// `ms` milliseconds after midnight as a time of day, `HH:MM:SS.fff`.
pub fn ms2string(ms: i64) -> (r: String)
    ensures
        r@ == hms_text(clock_of(ms as int)),
{
    let t = hms_milli(ms);
    hms_milli_to_string(t)
}

} // verus!
