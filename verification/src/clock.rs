//! Calendar arithmetic and the wall clock.
use vstd::prelude::*;
use std::time::{Duration, SystemTime};
use crate::text::{decimal, zero_pad, push_decimal_padded, string_of};

verus! {

// ---------------------------------------------------------------------------
// The proleptic Gregorian calendar
// ---------------------------------------------------------------------------

pub open spec fn is_leap(y: int) -> bool {
    (y % 4 == 0 && y % 100 != 0) || y % 400 == 0
}

pub open spec fn days_in_month(y: int, m: int) -> int {
    if m == 2 {
        if is_leap(y) { 29 } else { 28 }
    } else if m == 4 || m == 6 || m == 9 || m == 11 {
        30
    } else {
        31
    }
}

/// Days in the months of year `y` before month `m`.
pub open spec fn days_before_month(y: int, m: int) -> int {
    let base: int = if m == 1 { 0 } else if m == 2 { 31 } else if m == 3 { 59 } else if m == 4 { 90 }
        else if m == 5 { 120 } else if m == 6 { 151 } else if m == 7 { 181 } else if m == 8 { 212 }
        else if m == 9 { 243 } else if m == 10 { 273 } else if m == 11 { 304 } else { 334 };
    if m > 2 && is_leap(y) { base + 1 } else { base }
}

/// Leap years among years `1..=n` (a difference of two of these counts the
/// leap years in between, for any integers).
pub open spec fn leaps_through(n: int) -> int {
    n / 4 - n / 100 + n / 400
}

/// Days from 1970-01-01 to the given date.
pub open spec fn days_from_civil(y: int, m: int, d: int) -> int {
    365 * (y - 1970) + (leaps_through(y - 1) - leaps_through(1969)) + days_before_month(y, m) + d - 1
}

pub open spec fn valid_date(y: int, m: int, d: int) -> bool {
    1 <= m <= 12 && 1 <= d <= days_in_month(y, m)
}

proof fn lemma_year_of_era(doe: u32)
    requires
        doe < 146097,
    ensures
        ({
            let yoe = (doe - doe / 1460 + doe / 36524 - doe / 146096) / 365;
            &&& yoe < 400
            &&& 365 * yoe + yoe / 4 - yoe / 100 <= doe
            &&& doe < 365 * (yoe + 1) + (yoe + 1) / 4 - (yoe + 1) / 100 + (yoe + 1) / 400
            &&& doe - (365 * yoe + yoe / 4 - yoe / 100) == 365 ==> ((yoe + 1) % 4 == 0
                && ((yoe + 1) % 100 != 0 || (yoe + 1) % 400 == 0))
        }),
{
    assert({
            let yoe = (doe - doe / 1460 + doe / 36524 - doe / 146096) / 365;
            &&& yoe < 400
            &&& 365 * yoe + yoe / 4 - yoe / 100 <= doe
            &&& doe < 365 * (yoe + 1) + (yoe + 1) / 4 - (yoe + 1) / 100 + (yoe + 1) / 400
            &&& doe - (365 * yoe + yoe / 4 - yoe / 100) == 365 ==> ((yoe + 1) % 4 == 0
                && ((yoe + 1) % 100 != 0 || (yoe + 1) % 400 == 0))
    }) by (bit_vector)
        requires doe < 146097u32;
}

proof fn lemma_month_of_year(doy: u32)
    requires
        doy < 366,
    ensures
        ({
            let mp = (5 * doy + 2) / 153;
            &&& mp < 12
            &&& (153 * mp + 2) / 5 <= doy
            &&& mp < 11 ==> doy < (153 * (mp + 1) + 2) / 5
        }),
{
    assert({
            let mp = (5 * doy + 2) / 153;
            &&& mp < 12
            &&& (153 * mp + 2) / 5 <= doy
            &&& mp < 11 ==> doy < (153 * (mp + 1) + 2) / 5
    }) by (bit_vector)
        requires doy < 366u32;
}

proof fn lemma_leaps_shift(e: int, k: int)
    ensures
        leaps_through(400 * e + k) == 97 * e + leaps_through(k),
{
    assert((400 * e + k) / 4 == 100 * e + k / 4) by (nonlinear_arith);
    assert((400 * e + k) / 100 == 4 * e + k / 100) by (nonlinear_arith);
    assert((400 * e + k) / 400 == e + k / 400) by (nonlinear_arith);
}

proof fn lemma_leap_shift(e: int, k: int)
    ensures
        is_leap(400 * e + k) == is_leap(k),
{
    assert((400 * e + k) % 4 == k % 4) by (nonlinear_arith);
    assert((400 * e + k) % 100 == k % 100) by (nonlinear_arith);
    assert((400 * e + k) % 400 == k % 400) by (nonlinear_arith);
}

proof fn lemma_leap_step(k: u32)
    requires
        1 <= k < 400,
    ensures
        leaps_through(k - 1) + (if is_leap(k as int) { 1int } else { 0int }) == k / 4 - k / 100,
{
    let a = (k - 1) as u32;
    assert(a / 4 - a / 100 + a / 400 + (if (k % 4 == 0 && k % 100 != 0) || k % 400 == 0 { 1int } else { 0int })
        == k / 4 - k / 100) by (bit_vector)
        requires 1u32 <= k < 400u32, a == k - 1;
}

/// Day of the March-based year on which March-based month `mp` starts
/// (March is 0, February is 11).
pub open spec fn march_start(mp: int) -> int {
    if mp == 0 { 0 } else if mp == 1 { 31 } else if mp == 2 { 61 } else if mp == 3 { 92 }
    else if mp == 4 { 122 } else if mp == 5 { 153 } else if mp == 6 { 184 } else if mp == 7 { 214 }
    else if mp == 8 { 245 } else if mp == 9 { 275 } else if mp == 10 { 306 } else if mp == 11 { 337 }
    else { 366 }
}

/// Calendar month of March-based month `mp`.
pub open spec fn month_of(mp: int) -> int {
    if mp < 10 { mp + 3 } else { mp - 9 }
}

proof fn lemma_march_start(mp: u64)
    requires
        mp < 12,
    ensures
        (153 * mp + 2) / 5 == march_start(mp as int),
        mp < 11 ==> (153 * (mp + 1) + 2) / 5 == march_start(mp + 1),
{
}

proof fn lemma_leaps_small(k: int)
    requires
        0 <= k < 400,
    ensures
        leaps_through(k) == k / 4 - k / 100,
        leaps_through(k - 1) + (if is_leap(k) { 1int } else { 0int }) == k / 4 - k / 100,
{
    if k >= 1 {
        lemma_leap_step(k as u32);
    }
}

proof fn lemma_days_identity(e: int, k: int, mp: int, d: int)
    requires
        0 <= k < 400,
        0 <= mp < 12,
    ensures
        days_from_civil(400 * e + k + (if mp >= 10 { 1int } else { 0int }), month_of(mp), d)
            == 146097 * e + 365 * k + k / 4 - k / 100 + march_start(mp) + d - 1 - 719468,
{
    lemma_leaps_small(k);
    lemma_leap_shift(e, k);
    assert(leaps_through(1969) == 477);
    if mp >= 10 {
        lemma_leaps_shift(e, k);
        assert(400 * e + k + 1 - 1 == 400 * e + k);
    } else {
        lemma_leaps_shift(e, k - 1);
        assert(400 * e + k - 1 == 400 * e + (k - 1));
    }
}

/// The floor of `z / 146097`, computed as the civil-from-days algorithm
/// does with truncating division.
fn era_of(z: i64) -> (era: i64)
    requires
        z >= i64::MIN + 146_096,
    ensures
        era as int == z as int / 146_097,
        0 <= z - era * 146_097 < 146_097,
{
    let era = (if z >= 0 { z } else { z - 146_096 }) / 146_097;
    assert(0 <= z - era * 146_097 < 146_097) by {
        if z >= 0 {
            assert(era * 146_097 <= z < era * 146_097 + 146_097) by (nonlinear_arith)
                requires era == z / 146_097, z >= 0;
        } else {
            let n = z - 146_096;
            assert(era * 146_097 >= n > era * 146_097 - 146_097) by (nonlinear_arith)
                requires era == -((-n) / 146_097), n < 0;
        }
    }
    assert(era as int == z as int / 146_097) by (nonlinear_arith)
        requires 0 <= z - era * 146_097 < 146_097;
    era
}

/// The date `z` days after 1970-01-01, as (year, month, day).
pub fn civil_from_days(z: i64) -> (r: (i64, u32, u32))
    requires
        z <= i64::MAX - 719_468,
    ensures
        valid_date(r.0 as int, r.1 as int, r.2 as int),
        days_from_civil(r.0 as int, r.1 as int, r.2 as int) == z,
{
    let z = z + 719_468;
    let era = era_of(z);
    let doe = (z - era * 146_097) as u64;
    proof { lemma_year_of_era(doe as u32); }
    let yoe = (doe - doe / 1460 + doe / 36_524 - doe / 146_096) / 365;
    let y = yoe as i64 + era * 400;
    let doy = doe - (365 * yoe + yoe / 4 - yoe / 100);
    proof { lemma_month_of_year(doy as u32); }
    let mp = (5 * doy + 2) / 153;
    proof { lemma_march_start(mp); }
    let d = (doy - (153 * mp + 2) / 5 + 1) as u32;
    let m = (if mp < 10 { mp + 3 } else { mp - 9 }) as u32;
    let r = (if m <= 2 { y + 1 } else { y }, m, d);
    proof {
        lemma_days_identity(era as int, yoe as int, mp as int, d as int);
        lemma_leap_shift(era as int, yoe + 1);
        assert(r.0 == 400 * era + yoe + (if mp >= 10 { 1int } else { 0int }));
    }
    r
}

// ---------------------------------------------------------------------------
// Date stamps
// ---------------------------------------------------------------------------

/// A signed integer zero-padded to `width` characters, the sign counting
/// towards the width.
pub open spec fn signed_padded(v: int, width: nat) -> Seq<char> {
    if v < 0 {
        seq!['-'] + zero_pad(decimal((-v) as nat), if width > 0 { (width - 1) as nat } else { 0 })
    } else {
        zero_pad(decimal(v as nat), width)
    }
}

/// `YYYY-MM-DD`.
pub open spec fn date_text(y: int, m: int, d: int) -> Seq<char> {
    signed_padded(y, 4) + "-"@ + signed_padded(m, 2) + "-"@ + signed_padded(d, 2)
}

fn push_signed_padded(out: &mut Vec<char>, v: i64, width: usize)
    requires
        width >= 1,
    ensures
        final(out)@ == old(out)@ + signed_padded(v as int, width as nat),
{
    if v < 0 {
        out.push('-');
        let mag: u64 = if v == i64::MIN { 0x8000_0000_0000_0000u64 } else { (-v) as u64 };
        let ghost mid = out@;
        push_decimal_padded(out, mag, width - 1);
        assert(final(out)@ =~= old(out)@ + signed_padded(v as int, width as nat));
    } else {
        push_decimal_padded(out, v as u64, width);
    }
}

/// `text` is the `YYYY-MM-DD` stamp of the date `days` days after 1970-01-01.
pub open spec fn is_date_stamp(days: int, text: Seq<char>) -> bool {
    exists|y: i64, m: u32, d: u32|
        valid_date(y as int, m as int, d as int) && #[trigger] days_from_civil(y as int, m as int, d as int) == days
            && text == date_text(y as int, m as int, d as int)
}

/// The date `days` days after 1970-01-01, as `YYYY-MM-DD`.
pub fn date_stamp(days: u64) -> (r: String)
    requires
        days <= u64::MAX / 86_400,
    ensures
        is_date_stamp(days as int, r@),
{
    let (y, m, d) = civil_from_days(days as i64);
    let mut out: Vec<char> = Vec::new();
    push_signed_padded(&mut out, y, 4);
    crate::text::push_str(&mut out, "-");
    push_signed_padded(&mut out, m as i64, 2);
    crate::text::push_str(&mut out, "-");
    push_signed_padded(&mut out, d as i64, 2);
    assert(out@ =~= date_text(y as int, m as int, d as int));
    let r = string_of(&out);
    assert(days_from_civil(y as int, m as int, d as int) == days);
    r
}

// ---------------------------------------------------------------------------
// The wall clock
// ---------------------------------------------------------------------------

#[verifier::external_type_specification]
#[verifier::external_body]
pub struct ExSystemTime(SystemTime);

/// `SystemTime::now`: the current time of the system clock. Nothing is
/// claimed of the value.
#[verifier::external_body]
fn system_time_now() -> SystemTime {
    SystemTime::now()
}

/// `SystemTime::duration_since(UNIX_EPOCH)`, or `None` for a time before
/// the epoch. Nothing is claimed of the value.
#[verifier::external_body]
fn duration_since_epoch(t: &SystemTime) -> Option<Duration> {
    t.duration_since(std::time::UNIX_EPOCH).ok()
}

/// `Duration::as_secs`: the whole seconds of a duration. Nothing is claimed
/// of the value.
#[verifier::external_body]
fn whole_seconds(d: &Duration) -> u64 {
    d.as_secs()
}

/// Seconds since the Unix epoch, or 0 when the clock reads earlier.
pub fn now_secs() -> u64 {
    let t = system_time_now();
    match duration_since_epoch(&t) {
        Some(d) => whole_seconds(&d),
        None => 0,
    }
}

/// Today's date on the system clock (UTC), as `YYYY-MM-DD`.
pub fn today_stamp() -> (r: String)
    ensures
        exists|days: u64| days <= u64::MAX / 86_400 && #[trigger] is_date_stamp(days as int, r@),
{
    let secs = now_secs();
    let days = secs / 86_400;
    let r = date_stamp(days);
    assert(is_date_stamp(days as int, r@));
    r
}

} // verus!
