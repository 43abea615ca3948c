//! The feed's timestamp grammar — full weekday name, abbreviated month, day,
//! year, 12-hour clock with AM/PM — together with calendar validation, the
//! day-of-week computation the weekday field is checked against, and the
//! zone-aware conversion to a Unix timestamp.

use vstd::prelude::*;
use chrono::TimeZone;
use vstd::string::StringSliceAdditionalSpecFns;
use vstd::string::StrSliceExecFns;
use crate::text::{match_prefix, digit_run_len, digits_val, all_digits, is_digit, parse_digits,
    starts_with_at, digit_run_from, space_run_len, space_run_from};

verus! {

/// Wall-clock components of a sighting's local time, hour already on the
/// 24-hour clock.
#[derive(Clone, Copy, Debug, PartialEq, Eq, Structural)]
pub struct DateParts {
    pub year: u16,
    pub month: u8,
    pub day: u8,
    pub hour24: u8,
    pub minute: u8,
}

/// Full weekday names, Sunday first.
pub open spec fn weekday_name(w: int) -> Seq<u8> {
    if w == 0 {
        "Sunday".spec_bytes()
    } else if w == 1 {
        "Monday".spec_bytes()
    } else if w == 2 {
        "Tuesday".spec_bytes()
    } else if w == 3 {
        "Wednesday".spec_bytes()
    } else if w == 4 {
        "Thursday".spec_bytes()
    } else if w == 5 {
        "Friday".spec_bytes()
    } else {
        "Saturday".spec_bytes()
    }
}

/// Abbreviated month names, January first.
pub open spec fn month_name(m: int) -> Seq<u8> {
    if m == 1 {
        "Jan".spec_bytes()
    } else if m == 2 {
        "Feb".spec_bytes()
    } else if m == 3 {
        "Mar".spec_bytes()
    } else if m == 4 {
        "Apr".spec_bytes()
    } else if m == 5 {
        "May".spec_bytes()
    } else if m == 6 {
        "Jun".spec_bytes()
    } else if m == 7 {
        "Jul".spec_bytes()
    } else if m == 8 {
        "Aug".spec_bytes()
    } else if m == 9 {
        "Sep".spec_bytes()
    } else if m == 10 {
        "Oct".spec_bytes()
    } else if m == 11 {
        "Nov".spec_bytes()
    } else {
        "Dec".spec_bytes()
    }
}

/// The weekday name beginning `s`, if any.
pub open spec fn weekday_of_prefix(s: Seq<u8>) -> Option<int> {
    if match_prefix(s, weekday_name(0)) {
        Some(0)
    } else if match_prefix(s, weekday_name(1)) {
        Some(1)
    } else if match_prefix(s, weekday_name(2)) {
        Some(2)
    } else if match_prefix(s, weekday_name(3)) {
        Some(3)
    } else if match_prefix(s, weekday_name(4)) {
        Some(4)
    } else if match_prefix(s, weekday_name(5)) {
        Some(5)
    } else if match_prefix(s, weekday_name(6)) {
        Some(6)
    } else {
        None
    }
}

/// The month name beginning `s`, if any.
pub open spec fn month_of_prefix(s: Seq<u8>) -> Option<int> {
    if match_prefix(s, month_name(1)) {
        Some(1)
    } else if match_prefix(s, month_name(2)) {
        Some(2)
    } else if match_prefix(s, month_name(3)) {
        Some(3)
    } else if match_prefix(s, month_name(4)) {
        Some(4)
    } else if match_prefix(s, month_name(5)) {
        Some(5)
    } else if match_prefix(s, month_name(6)) {
        Some(6)
    } else if match_prefix(s, month_name(7)) {
        Some(7)
    } else if match_prefix(s, month_name(8)) {
        Some(8)
    } else if match_prefix(s, month_name(9)) {
        Some(9)
    } else if match_prefix(s, month_name(10)) {
        Some(10)
    } else if match_prefix(s, month_name(11)) {
        Some(11)
    } else if match_prefix(s, month_name(12)) {
        Some(12)
    } else {
        None
    }
}

/// Gregorian leap year.
pub open spec fn is_leap(y: int) -> bool {
    y % 4 == 0 && (y % 100 != 0 || y % 400 == 0)
}

/// Days in a month of a given year.
pub open spec fn days_in_month(y: int, m: int) -> int {
    if m == 2 {
        if is_leap(y) {
            29
        } else {
            28
        }
    } else if m == 4 || m == 6 || m == 9 || m == 11 {
        30
    } else {
        31
    }
}

/// Days since 1970-01-01 of a Gregorian civil date (valid for year >= 1).
pub open spec fn days_from_civil(y: int, m: int, d: int) -> int {
    let yp = if m <= 2 {
        y - 1
    } else {
        y
    };
    let era = yp / 400;
    let yoe = yp - era * 400;
    let mp = if m > 2 {
        m - 3
    } else {
        m + 9
    };
    let doy = (153 * mp + 2) / 5 + d - 1;
    let doe = yoe * 365 + yoe / 4 - yoe / 100 + doy;
    era * 146097 + doe - 719468
}

/// Day of the week, Sunday = 0, of a civil date with year >= 1; the shift
/// keeps the dividend nonnegative (719467 is a multiple of 7 and 1970-01-01
/// was a Thursday).
pub open spec fn weekday_of(y: int, m: int, d: int) -> int {
    (days_from_civil(y, m, d) + 719471) % 7
}

/// The feed's full timestamp grammar applied to `s` (Date and Time joined
/// by a space): weekday name, month name, day, comma, four-digit year,
/// 12-hour clock "h:mm", and AM or PM — each pair of fields separated by a
/// run of one or more spaces, as the space-padded 12-hour format produces —
/// with the date valid in the Gregorian calendar and consistent with the
/// named weekday.
pub open spec fn datetime_spec(s: Seq<u8>) -> Option<DateParts> {
    match weekday_of_prefix(s) {
        Option::None => None,
        Option::Some(w) => {
            let s1 = s.skip(weekday_name(w).len() as int);
            let k1 = space_run_len(s1);
            if k1 < 1 {
                None
            } else {
                let s2 = s1.skip(k1);
                match month_of_prefix(s2) {
                    Option::None => None,
                    Option::Some(m) => {
                        let s3 = s2.skip(month_name(m).len() as int);
                        let k3 = space_run_len(s3);
                        if k3 < 1 {
                            None
                        } else {
                            let s4 = s3.skip(k3);
                            let dlen = digit_run_len(s4);
                            if !(1 <= dlen <= 2) {
                                None
                            } else {
                                let day = digits_val(s4.take(dlen));
                                let s5 = s4.skip(dlen);
                                if !match_prefix(s5, seq![44u8]) {
                                    None
                                } else {
                                    let s5b = s5.skip(1);
                                    let k5 = space_run_len(s5b);
                                    if k5 < 1 {
                                        None
                                    } else {
                                        let s6 = s5b.skip(k5);
                                        if digit_run_len(s6) != 4 {
                                            None
                                        } else {
                                            let year = digits_val(s6.take(4));
                                            let s7 = s6.skip(4);
                                            clock_spec(s7, w, m, year, day)
                                        }
                                    }
                                }
                            }
                        }
                    },
                }
            }
        },
    }
}

/// The clock half of the grammar: spaces, "h:mm", spaces, then AM or PM and
/// the end of the text, followed by the calendar and weekday validation of
/// the whole date.
pub open spec fn clock_spec(s7: Seq<u8>, w: int, m: int, year: int, day: int) -> Option<
    DateParts,
> {
    let k7 = space_run_len(s7);
    if k7 < 1 {
        None
    } else {
        let s8 = s7.skip(k7);
        let hlen = digit_run_len(s8);
        if !(1 <= hlen <= 2) {
            None
        } else {
            let hour12 = digits_val(s8.take(hlen));
            let s9 = s8.skip(hlen);
            if !match_prefix(s9, seq![58u8]) {
                None
            } else {
                let s10 = s9.skip(1);
                if digit_run_len(s10) != 2 {
                    None
                } else {
                    let minute = digits_val(s10.take(2));
                    let s11 = s10.skip(2);
                    let k11 = space_run_len(s11);
                    let sa = s11.skip(k11);
                    let is_am = k11 >= 1 && sa == seq![65u8, 77u8];
                    let is_pm = k11 >= 1 && sa == seq![80u8, 77u8];
                    if !(is_am || is_pm) {
                        None
                    } else {
                        let hour24 = if is_pm {
                            if hour12 == 12 {
                                12int
                            } else {
                                hour12 + 12
                            }
                        } else {
                            if hour12 == 12 {
                                0int
                            } else {
                                hour12
                            }
                        };
                        if 1 <= hour12 <= 12 && minute <= 59 && 1 <= year <= 9999 && 1 <= day
                            <= days_in_month(year, m) && weekday_of(year, m, day) == w {
                            Some(
                                DateParts {
                                    year: year as u16,
                                    month: m as u8,
                                    day: day as u8,
                                    hour24: hour24 as u8,
                                    minute: minute as u8,
                                },
                            )
                        } else {
                            None
                        }
                    }
                }
            }
        }
    }
}

/// Powers of ten.
pub open spec fn tenpow(n: nat) -> int
    decreases n,
{
    if n == 0 {
        1
    } else {
        10 * tenpow((n - 1) as nat)
    }
}

/// A digit string of length n denotes a value below 10^n.
pub proof fn lemma_digits_val_bound(s: Seq<u8>)
    requires
        all_digits(s),
    ensures
        0 <= digits_val(s) < tenpow(s.len()),
    decreases s.len(),
{
    if s.len() > 0 {
        assert(all_digits(s.drop_last())) by {
            assert(forall|i: int| 0 <= i < s.len() - 1 ==> s.drop_last()[i] == s[i]);
        }
        lemma_digits_val_bound(s.drop_last());
    }
}

/// Name of the outside result: the instant, in seconds of the Unix epoch,
/// that the configured deployment zone assigns to a local wall-clock time.
pub uninterp spec fn local_timestamp_of(
    year: int,
    month: int,
    day: int,
    hour: int,
    minute: int,
) -> Option<i64>;

/// Relies on chrono's `NaiveDate::from_ymd_opt` / `and_hms_opt` and
/// chrono-tz's `Tz::from_local_datetime` for the America/Los_Angeles zone:
/// the result depends on the five arguments alone (the zone's rules are
/// compiled into the library); it is `None` when the date is invalid or the
/// zone maps the wall-clock time to no single instant.
#[verifier::external_body]
pub fn local_timestamp(year: u16, month: u8, day: u8, hour: u8, minute: u8) -> (r: Option<i64>)
    ensures
        r == local_timestamp_of(year as int, month as int, day as int, hour as int, minute as int),
{
    let date = match chrono::NaiveDate::from_ymd_opt(year as i32, month as u32, day as u32) {
        Some(d) => d,
        None => return None,
    };
    let dt = match date.and_hms_opt(hour as u32, minute as u32, 0) {
        Some(t) => t,
        None => return None,
    };
    match chrono_tz::America::Los_Angeles.from_local_datetime(&dt).single() {
        Some(z) => Some(z.timestamp()),
        None => None,
    }
}

/// Which weekday name starts at `pos`, with its length.
fn weekday_at(s: &Vec<u8>, pos: usize) -> (r: Option<(u8, usize)>)
    requires
        pos <= s@.len(),
    ensures
        match r {
            Option::Some(p) => weekday_of_prefix(s@.skip(pos as int)) == Some(p.0 as int)
                && p.1 == weekday_name(p.0 as int).len(),
            Option::None => weekday_of_prefix(s@.skip(pos as int)).is_none(),
        },
{
    let names: [&str; 7] = ["Sunday", "Monday", "Tuesday", "Wednesday", "Thursday", "Friday", "Saturday"];
    let mut w: u8 = 0;
    while w < 7
        invariant
            w <= 7,
            pos <= s@.len(),
            forall|k: int| 0 <= k < w ==> !match_prefix(s@.skip(pos as int), weekday_name(k)),
            forall|k: int| 0 <= k < 7 ==> names@[k].spec_bytes() == weekday_name(k),
        decreases 7 - w,
    {
        let pat = names[w as usize].as_bytes_vec();
        if starts_with_at(s, pos, &pat) {
            return Some((w, pat.len()));
        }
        w += 1;
    }
    None
}

/// Which month name starts at `pos`, with its length.
fn month_at(s: &Vec<u8>, pos: usize) -> (r: Option<(u8, usize)>)
    requires
        pos <= s@.len(),
    ensures
        match r {
            Option::Some(p) => month_of_prefix(s@.skip(pos as int)) == Some(p.0 as int) && p.1
                == month_name(p.0 as int).len(),
            Option::None => month_of_prefix(s@.skip(pos as int)).is_none(),
        },
{
    let names: [&str; 12] = ["Jan", "Feb", "Mar", "Apr", "May", "Jun", "Jul", "Aug", "Sep", "Oct", "Nov", "Dec"];
    let mut m: u8 = 1;
    while m <= 12
        invariant
            1 <= m <= 13,
            pos <= s@.len(),
            forall|k: int| 1 <= k < m ==> !match_prefix(s@.skip(pos as int), month_name(k)),
            forall|k: int| 1 <= k <= 12 ==> names@[k - 1].spec_bytes() == month_name(k),
        decreases 13 - m,
    {
        let pat = names[(m - 1) as usize].as_bytes_vec();
        if starts_with_at(s, pos, &pat) {
            return Some((m, pat.len()));
        }
        m += 1;
    }
    None
}

/// Whether the single byte `b` stands at `pos`.
fn byte_at_is(s: &Vec<u8>, pos: usize, b: u8) -> (r: bool)
    requires
        pos <= s@.len(),
    ensures
        r == match_prefix(s@.skip(pos as int), seq![b]),
{
    if pos < s.len() {
        let eq = s[pos] == b;
        proof {
            let t = s@.skip(pos as int);
            if eq {
                assert(t.take(1) =~= seq![b]);
            } else {
                assert(t.take(1)[0] == s@[pos as int]);
            }
        }
        eq
    } else {
        false
    }
}

/// Whether the rest of `s` from `pos` is exactly the two bytes given.
fn tail_is(s: &Vec<u8>, pos: usize, b0: u8, b1: u8) -> (r: bool)
    requires
        pos <= s@.len(),
    ensures
        r == (s@.skip(pos as int) == seq![b0, b1]),
{
    let ghost t = s@.skip(pos as int);
    if s.len() - pos != 2 {
        proof {
            assert(t.len() != 2);
        }
        return false;
    }
    let r = s[pos] == b0 && s[pos + 1] == b1;
    proof {
        assert(t[0] == s@[pos as int]);
        assert(t[1] == s@[pos as int + 1]);
        if r {
            assert(t =~= seq![b0, b1]);
        }
    }
    r
}

/// Day of the week, Sunday = 0, of a valid civil date.
fn weekday_exec(year: u16, month: u8, day: u8) -> (w: u8)
    requires
        1 <= year <= 9999,
        1 <= month <= 12,
        1 <= day <= 31,
    ensures
        w as int == weekday_of(year as int, month as int, day as int),
        w < 7,
{
    let y: i64 = year as i64;
    let m: i64 = month as i64;
    let d: i64 = day as i64;
    let yp: i64 = if m <= 2 {
        y - 1
    } else {
        y
    };
    let era: i64 = yp / 400;
    let yoe: i64 = yp - era * 400;
    let mp: i64 = if m > 2 {
        m - 3
    } else {
        m + 9
    };
    let doy: i64 = (153 * mp + 2) / 5 + d - 1;
    let doe: i64 = yoe * 365 + yoe / 4 - yoe / 100 + doy;
    let days: i64 = era * 146097 + doe - 719468;
    ((days + 719471) % 7) as u8
}

/// Days in a month of a given year.
fn days_in_month_exec(year: u16, month: u8) -> (d: u8)
    requires
        1 <= month <= 12,
    ensures
        d as int == days_in_month(year as int, month as int),
{
    if month == 2 {
        if year % 4 == 0 && (year % 100 != 0 || year % 400 == 0) {
            29
        } else {
            28
        }
    } else if month == 4 || month == 6 || month == 9 || month == 11 {
        30
    } else {
        31
    }
}

/// Parse the feed's timestamp text into its wall-clock components.
#[verifier::rlimit(100)]
pub fn parse_datetime(s: &Vec<u8>) -> (r: Option<DateParts>)
    ensures
        r == datetime_spec(s@),
{
    let s_len = s.len();
    proof {
        assert(s@.skip(0) =~= s@);
        assert(s@.len() == s_len);
    }
    let (w, wlen) = match weekday_at(s, 0) {
        Some(p) => p,
        None => return None,
    };
    let pos1 = wlen;
    proof {
        assert(weekday_name(w as int).len() <= s@.len()) by {
            assert(match_prefix(s@, weekday_name(w as int)));
        }
    }
    let ghost s1 = s@.skip(pos1 as int);
    let k1 = space_run_from(s, pos1);
    if k1 < 1 {
        return None;
    }
    let pos2 = pos1 + k1;
    proof {
        assert(s1.skip(k1 as int) =~= s@.skip(pos2 as int));
    }
    let (m, mlen) = match month_at(s, pos2) {
        Some(p) => p,
        None => return None,
    };
    let pos3 = pos2 + mlen;
    proof {
        assert(match_prefix(s@.skip(pos2 as int), month_name(m as int)));
        assert(s@.skip(pos2 as int).skip(mlen as int) =~= s@.skip(pos3 as int));
    }
    let k3 = space_run_from(s, pos3);
    if k3 < 1 {
        return None;
    }
    let pos4 = pos3 + k3;
    proof {
        assert(s@.skip(pos3 as int).skip(k3 as int) =~= s@.skip(pos4 as int));
    }
    let dlen = digit_run_from(s, pos4);
    if dlen < 1 || dlen > 2 {
        return None;
    }
    proof {
        assert(s@.subrange(pos4 as int, pos4 + dlen) =~= s@.skip(pos4 as int).take(dlen as int));
        digit_run_all_digits(s@.skip(pos4 as int));
        lemma_digits_val_bound(s@.skip(pos4 as int).take(dlen as int));
        reveal_with_fuel(tenpow, 3);
    }
    let day64 = match parse_digits(s, pos4, pos4 + dlen) {
        Some(v) => v,
        None => {
            proof {
                assert(false);
            }
            return None;
        },
    };
    let pos5 = pos4 + dlen;
    proof {
        assert(s@.skip(pos4 as int).skip(dlen as int) =~= s@.skip(pos5 as int));
    }
    if !byte_at_is(s, pos5, 44) {
        return None;
    }
    let pos5b = pos5 + 1;
    proof {
        assert(s@.skip(pos5 as int).len() >= 1);
        assert(s@.skip(pos5 as int).skip(1) =~= s@.skip(pos5b as int));
    }
    let k5 = space_run_from(s, pos5b);
    if k5 < 1 {
        return None;
    }
    let pos6 = pos5b + k5;
    proof {
        assert(s@.skip(pos5b as int).skip(k5 as int) =~= s@.skip(pos6 as int));
    }
    let ylen = digit_run_from(s, pos6);
    if ylen != 4 {
        return None;
    }
    proof {
        assert(s@.subrange(pos6 as int, pos6 + 4) =~= s@.skip(pos6 as int).take(4));
        digit_run_all_digits(s@.skip(pos6 as int));
        lemma_digits_val_bound(s@.skip(pos6 as int).take(4));
        reveal_with_fuel(tenpow, 5);
    }
    let year64 = match parse_digits(s, pos6, pos6 + 4) {
        Some(v) => v,
        None => {
            proof {
                assert(false);
            }
            return None;
        },
    };
    let pos7 = pos6 + 4;
    proof {
        assert(s@.skip(pos6 as int).skip(4) =~= s@.skip(pos7 as int));
    }
    parse_clock(s, pos7, w, m, year64, day64)
}

/// Every byte of the leading digit run is a digit.
pub proof fn digit_run_all_digits(s: Seq<u8>)
    ensures
        all_digits(s.take(digit_run_len(s))),
        0 <= digit_run_len(s) <= s.len(),
        forall|k: int|
            0 <= k <= digit_run_len(s) ==> digit_run_len(s) - k == digit_run_len(s.skip(k)),
    decreases s.len(),
{
    assert(s.skip(0) =~= s);
    if s.len() > 0 && is_digit(s[0]) {
        digit_run_all_digits(s.drop_first());
        let n = digit_run_len(s);
        assert(s.drop_first() =~= s.skip(1));
        assert(n == 1 + digit_run_len(s.skip(1)));
        assert(digit_run_len(s.drop_first()) <= s.drop_first().len());
        assert(s.drop_first().len() == s.len() - 1);
        assert(n <= s.len());
        assert forall|k: int| 0 <= k <= n implies n - k == digit_run_len(s.skip(k)) by {
            if k > 0 {
                assert(s.skip(1).skip(k - 1) =~= s.skip(k));
                assert(digit_run_len(s.skip(1)) - (k - 1) == digit_run_len(s.skip(1).skip(k - 1)));
            }
        }
        assert forall|k: int| 0 <= k < n implies is_digit(s.take(n)[k]) by {
            assert(s.take(n)[k] == s[k]);
            if k > 0 {
                assert(all_digits(s.drop_first().take(n - 1)));
                assert(is_digit(s.drop_first().take(n - 1)[k - 1]));
                assert(s.drop_first().take(n - 1)[k - 1] == s[k]);
            }
        }
        assert(s.take(n).len() == n);
        assert(all_digits(s.take(n)));
        assert(all_digits(s.take(digit_run_len(s))));
    } else {
        assert(digit_run_len(s) == 0);
        assert(s.take(0).len() == 0);
        assert(all_digits(s.take(digit_run_len(s))));
    }
}

/// Parse the clock half of the timestamp from `pos` and finish validation.
fn parse_clock(s: &Vec<u8>, pos: usize, w: u8, m: u8, year64: u64, day64: u64) -> (r: Option<
    DateParts,
>)
    requires
        pos <= s@.len(),
        1 <= m <= 12,
        year64 <= 9999,
        day64 <= 99,
    ensures
        r == clock_spec(s@.skip(pos as int), w as int, m as int, year64 as int, day64 as int),
{
    let ghost s7 = s@.skip(pos as int);
    let s_len = s.len();
    proof {
        assert(s@.len() == s_len);
    }
    let k7 = space_run_from(s, pos);
    if k7 < 1 {
        return None;
    }
    let pos8 = pos + k7;
    proof {
        assert(s7.skip(k7 as int) =~= s@.skip(pos8 as int));
    }
    let hlen = digit_run_from(s, pos8);
    if hlen < 1 || hlen > 2 {
        return None;
    }
    proof {
        assert(s@.subrange(pos8 as int, pos8 + hlen) =~= s@.skip(pos8 as int).take(hlen as int));
        digit_run_all_digits(s@.skip(pos8 as int));
        lemma_digits_val_bound(s@.skip(pos8 as int).take(hlen as int));
        reveal_with_fuel(tenpow, 3);
    }
    let hour64 = match parse_digits(s, pos8, pos8 + hlen) {
        Some(v) => v,
        None => {
            proof {
                assert(false);
            }
            return None;
        },
    };
    let pos9 = pos8 + hlen;
    proof {
        assert(s@.skip(pos8 as int).skip(hlen as int) =~= s@.skip(pos9 as int));
    }
    if !byte_at_is(s, pos9, 58) {
        return None;
    }
    let pos10 = pos9 + 1;
    proof {
        assert(s@.skip(pos9 as int).skip(1) =~= s@.skip(pos10 as int));
    }
    let mlen = digit_run_from(s, pos10);
    if mlen != 2 {
        return None;
    }
    proof {
        assert(s@.subrange(pos10 as int, pos10 + 2) =~= s@.skip(pos10 as int).take(2));
        digit_run_all_digits(s@.skip(pos10 as int));
        lemma_digits_val_bound(s@.skip(pos10 as int).take(2));
        reveal_with_fuel(tenpow, 3);
    }
    let min64 = match parse_digits(s, pos10, pos10 + 2) {
        Some(v) => v,
        None => {
            proof {
                assert(false);
            }
            return None;
        },
    };
    let pos11 = pos10 + 2;
    proof {
        assert(s@.skip(pos10 as int).skip(2) =~= s@.skip(pos11 as int));
    }
    let k11 = space_run_from(s, pos11);
    if k11 < 1 {
        return None;
    }
    let posa = pos11 + k11;
    proof {
        assert(s@.skip(pos11 as int).skip(k11 as int) =~= s@.skip(posa as int));
    }
    let is_am = tail_is(s, posa, 65, 77);
    let is_pm = tail_is(s, posa, 80, 77);
    if !(is_am || is_pm) {
        return None;
    }
    if hour64 < 1 || hour64 > 12 || min64 > 59 {
        return None;
    }
    if year64 < 1 {
        return None;
    }
    let year = year64 as u16;
    let dim = days_in_month_exec(year, m);
    if day64 < 1 || day64 > dim as u64 {
        return None;
    }
    let day = day64 as u8;
    let wd = weekday_exec(year, m, day);
    if wd != w {
        return None;
    }
    let hour12 = hour64 as u8;
    let hour24: u8 = if is_pm {
        if hour12 == 12 {
            12
        } else {
            hour12 + 12
        }
    } else {
        if hour12 == 12 {
            0
        } else {
            hour12
        }
    };
    Some(DateParts { year, month: m, day, hour24, minute: min64 as u8 })
}

} // verus!
