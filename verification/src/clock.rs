//! Local calendar time, as the history store consumes it: a plain
//! year/month/day/hour/minute/second record, plus the formatters that
//! derive entry ids, display timestamps and archive day-keys from it.
use vstd::prelude::*;
use crate::text::{all_digits, dec_pad, push_dec_pad};
use chrono::{Datelike, Timelike};

verus! {

/// A local wall-clock reading, split into calendar fields.
#[derive(Clone, Copy)]
pub struct ClockTime {
    pub year: u16,
    pub month: u8,
    pub day: u8,
    pub hour: u8,
    pub minute: u8,
    pub second: u8,
}

impl ClockTime {
    /// Field ranges every reading satisfies.
    pub open spec fn valid(self) -> bool {
        self.year <= 9999 && 1 <= self.month <= 12 && 1 <= self.day <= 31 && self.hour <= 23
            && self.minute <= 59 && self.second <= 59
    }
}

/// Relies on chrono: `Local::now().naive_local()` with the `Datelike` and
/// `Timelike` accessors, whose documentation promises the month starts
/// from 1 and ends at 12, the day starts from 1, and the hour, minute and
/// second are below 24, 60 and 60. chrono itself checks that the host
/// clock reads at or after the Unix epoch and panics otherwise; no
/// `requires` can exclude that environment condition.
#[verifier::external_body]
fn read_local_clock() -> (t: (i64, u32, u32, u32, u32, u32))
    ensures
        1 <= t.1 <= 12,
        1 <= t.2 <= 31,
        t.3 < 24,
        t.4 < 60,
        t.5 < 60,
{
    let now = chrono::Local::now().naive_local();
    (now.year() as i64, now.month(), now.day(), now.hour(), now.minute(), now.second())
}

/// Reads the local wall clock. The reading depends on the environment, so
/// nothing more than validity can be promised of it.
pub fn now_local() -> (t: ClockTime)
    ensures
        t.valid(),
{
    let (y, mo, d, h, mi, s) = read_local_clock();
    let year: u16 = if y < 0 {
        0
    } else if y > 9999 {
        9999
    } else {
        y as u16
    };
    ClockTime {
        year,
        month: mo as u8,
        day: d as u8,
        hour: h as u8,
        minute: mi as u8,
        second: s as u8,
    }
}

/// The eight-digit day-key of a reading, `YYYYMMDD`.
pub open spec fn date_key_view(t: ClockTime) -> Seq<char> {
    dec_pad(t.year as int, 4) + dec_pad(t.month as int, 2) + dec_pad(t.day as int, 2)
}

/// The id base of a reading, `YYYYMMDD_HHMMSS`.
pub open spec fn id_base_view(t: ClockTime) -> Seq<char> {
    date_key_view(t) + "_"@ + dec_pad(t.hour as int, 2) + dec_pad(t.minute as int, 2) + dec_pad(
        t.second as int,
        2,
    )
}

/// The display timestamp of a reading, `YYYY-MM-DD HH:MM:SS`.
pub open spec fn display_ts_view(t: ClockTime) -> Seq<char> {
    dec_pad(t.year as int, 4) + "-"@ + dec_pad(t.month as int, 2) + "-"@ + dec_pad(t.day as int, 2)
        + " "@ + dec_pad(t.hour as int, 2) + ":"@ + dec_pad(t.minute as int, 2) + ":"@ + dec_pad(
        t.second as int,
        2,
    )
}

/// Formats the eight-digit day-key `YYYYMMDD`.
pub fn format_date_key(t: &ClockTime) -> (r: String)
    requires
        t.valid(),
    ensures
        r@ == date_key_view(*t),
        r@.len() == 8,
        all_digits(r@),
{
    let mut out = String::new();
    push_dec_pad(&mut out, t.year as u64, 4);
    push_dec_pad(&mut out, t.month as u64, 2);
    push_dec_pad(&mut out, t.day as u64, 2);
    proof {
        lemma_pad_digits(t.year as int, 4);
        lemma_pad_digits(t.month as int, 2);
        lemma_pad_digits(t.day as int, 2);
        reveal_with_fuel(crate::text::pow10, 5);
        crate::text::lemma_dec_str_len_bound(t.year as int, 4);
        crate::text::lemma_dec_str_len_bound(t.month as int, 2);
        crate::text::lemma_dec_str_len_bound(t.day as int, 2);
        crate::text::lemma_dec_pad_len(t.year as int, 4);
        crate::text::lemma_dec_pad_len(t.month as int, 2);
        crate::text::lemma_dec_pad_len(t.day as int, 2);
    }
    out
}

/// Formats the id base `YYYYMMDD_HHMMSS`.
pub fn format_id_base(t: &ClockTime) -> (r: String)
    requires
        t.valid(),
    ensures
        r@ == id_base_view(*t),
{
    let mut out = format_date_key(t);
    out.append("_");
    push_dec_pad(&mut out, t.hour as u64, 2);
    push_dec_pad(&mut out, t.minute as u64, 2);
    push_dec_pad(&mut out, t.second as u64, 2);
    out
}

/// Formats the display timestamp `YYYY-MM-DD HH:MM:SS`.
pub fn format_display_ts(t: &ClockTime) -> (r: String)
    requires
        t.valid(),
    ensures
        r@ == display_ts_view(*t),
{
    let mut out = String::new();
    push_dec_pad(&mut out, t.year as u64, 4);
    out.append("-");
    push_dec_pad(&mut out, t.month as u64, 2);
    out.append("-");
    push_dec_pad(&mut out, t.day as u64, 2);
    out.append(" ");
    push_dec_pad(&mut out, t.hour as u64, 2);
    out.append(":");
    push_dec_pad(&mut out, t.minute as u64, 2);
    out.append(":");
    push_dec_pad(&mut out, t.second as u64, 2);
    out
}

/// Every character of a padded decimal is a digit.
proof fn lemma_pad_digits(n: int, w: int)
    requires
        n >= 0,
    ensures
        all_digits(dec_pad(n, w)),
{
    crate::text::lemma_dec_pad_all_digits(n, w);
}

} // verus!
