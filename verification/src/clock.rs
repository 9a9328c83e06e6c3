//! Dates and times of day.

use crate::text;
use vstd::prelude::*;

verus! {

// ---------------------------------------------------------------------------
// the calendar
// ---------------------------------------------------------------------------

/// Whether a year has 366 days.
pub open spec fn leap(y: int) -> bool {
    y % 4 == 0 && (y % 100 != 0 || y % 400 == 0)
}

/// The number of days of a month.
pub open spec fn days_in_month(y: int, m: int) -> int {
    if m == 2 {
        if leap(y) {
            29
        } else {
            28
        }
    } else if m == 4 || m == 6 || m == 9 || m == 11 {
        30
    } else {
        31
    }
}

/// The number of days of a year before a month.
pub open spec fn days_before_month(y: int, m: int) -> int
    decreases m,
{
    if m <= 1 {
        0
    } else {
        days_before_month(y, m - 1) + days_in_month(y, m - 1)
    }
}

/// The number of days from 1970 to a later year.
pub open spec fn days_before_year(y: int) -> int
    decreases y,
{
    if y <= 1970 {
        0
    } else {
        days_before_year(y - 1) + (if leap(y - 1) {
            366int
        } else {
            365int
        })
    }
}

/// A day of the calendar.
#[derive(Clone, Copy, Debug, PartialEq, Eq, Structural)]
pub struct Date {
    pub year: u64,
    pub month: u64,
    pub day: u64,
}

impl Date {
    /// Whether the calendar has the day.
    pub open spec fn valid(self) -> bool {
        1970 <= self.year && 1 <= self.month <= 12 && 1 <= self.day <= days_in_month(
            self.year as int,
            self.month as int,
        )
    }

    /// The number of days from the first of 1970 to the day.
    pub open spec fn day_number(self) -> int {
        days_before_year(self.year as int) + days_before_month(
            self.year as int,
            self.month as int,
        ) + self.day - 1
    }
}

proof fn lemma_year_start(y: int)
    requires
        1970 <= y,
    ensures
        days_before_year(y) == 365 * (y - 1970) + (y - 1) / 4 - (y - 1) / 100 + (y - 1) / 400 - 477,
    decreases y,
{
    if y > 1970 {
        lemma_year_start(y - 1);
    }
}

proof fn lemma_month_starts(y: int)
    ensures
        days_before_month(y, 1) == 0,
        days_before_month(y, 2) == 31,
        forall|m: int|
            3 <= m <= 12 ==> #[trigger] days_before_month(y, m) == (if leap(y) {
                60int
            } else {
                59int
            }) + (153 * (m - 3) + 2) / 5,
{
    reveal_with_fuel(days_before_month, 13);
    assert forall|m: int| 3 <= m <= 12 implies #[trigger] days_before_month(y, m) == (if leap(y) {
        60int
    } else {
        59int
    }) + (153 * (m - 3) + 2) / 5 by {
        let b = days_before_month(y, 3);
        assert(m == 3 || m == 4 || m == 5 || m == 6 || m == 7 || m == 8 || m == 9 || m == 10 || m
            == 11 || m == 12);
    }
}

/// The day `doe` of a 400-year era lies in the year that the division gives.
proof fn lemma_year_of_era(doe: int, yoe: int)
    requires
        0 <= doe < 146097,
        yoe == (doe - doe / 1460 + doe / 36524 - doe / 146096) / 365,
    ensures
        0 <= yoe <= 399,
        365 * yoe + yoe / 4 - yoe / 100 <= doe,
        doe < 365 * (yoe + 1) + (yoe + 1) / 4 - (yoe + 1) / 100 + (if yoe == 399 {
            1int
        } else {
            0int
        }),
{
}

proof fn lemma_era_years(y: int, yoe: int, era: int)
    requires
        0 <= yoe <= 399,
        0 <= era,
        y == yoe + 400 * era,
    ensures
        y / 4 == yoe / 4 + 100 * era,
        y / 100 == yoe / 100 + 4 * era,
        y / 400 == era,
        (yoe + 1) / 4 - yoe / 4 - ((yoe + 1) / 100 - yoe / 100) + (if yoe == 399 {
            1int
        } else {
            0int
        }) == (if leap(y + 1) {
            1int
        } else {
            0int
        }),
{
    lemma_leap_count(y + 1);
}

/// The month, counted from March, of the day `doy` of a year that starts in
/// March.
proof fn lemma_month_of_year(doy: int, mp: int)
    requires
        0 <= doy <= 365,
        mp == (5 * doy + 2) / 153,
    ensures
        0 <= mp <= 11,
        (153 * mp + 2) / 5 <= doy,
        doy < (153 * (mp + 1) + 2) / 5,
{
}

proof fn lemma_date(y: int, doy: int, mp: int, year: int, month: int, d: int)
    requires
        1970 <= year,
        0 <= doy <= 364 + (if leap(y + 1) {
            1int
        } else {
            0int
        }),
        mp == (5 * doy + 2) / 153,
        d == doy - (153 * mp + 2) / 5 + 1,
        month == (if mp < 10 {
            mp + 3
        } else {
            mp - 9
        }),
        year == (if month <= 2 {
            y + 1
        } else {
            y
        }),
    ensures
        1 <= month <= 12,
        1 <= d <= days_in_month(year, month),
        days_before_year(year) + days_before_month(year, month) + d - 1 == 365 * y + y / 4 - y
            / 100 + y / 400 + doy - 719468,
{
    lemma_month_of_year(doy, mp);
    lemma_year_start(year);
    lemma_month_starts(year);
    if mp < 10 {
        assert(days_before_month(year, month) == (if leap(y) {
            60int
        } else {
            59int
        }) + (153 * mp + 2) / 5);
        lemma_leap_count(y);
        assert(mp == 0 || mp == 1 || mp == 2 || mp == 3 || mp == 4 || mp == 5 || mp == 6 || mp
            == 7 || mp == 8 || mp == 9);
    }
}

proof fn lemma_multiple(y: int, k: int)
    requires
        k == 4 || k == 100 || k == 400,
    ensures
        y / k - (y - 1) / k == (if y % k == 0 {
            1int
        } else {
            0int
        }),
{
}

proof fn lemma_leap_count(y: int)
    ensures
        y / 4 - (y - 1) / 4 - (y / 100 - (y - 1) / 100) + (y / 400 - (y - 1) / 400) == (if leap(
            y,
        ) {
            1int
        } else {
            0int
        }),
{
    lemma_multiple(y, 4);
    lemma_multiple(y, 100);
    lemma_multiple(y, 400);
    assert(y % 100 == 0 ==> y % 4 == 0);
    assert(y % 400 == 0 ==> y % 100 == 0);
}

/// The calendar day with a day number.
pub fn civil_from_days(days: u64) -> (r: Date)
    requires
        days <= 0x7fff_ffff_ffff,
    ensures
        r.valid(),
        r.day_number() == days,
{
    let z: u64 = days + 719468;
    let era: u64 = z / 146097;
    let doe: u64 = z % 146097;
    let yoe: u64 = (doe - doe / 1460 + doe / 36524 - doe / 146096) / 365;
    proof {
        lemma_year_of_era(doe as int, yoe as int);
    }
    let y: u64 = yoe + era * 400;
    let doy: u64 = doe - (365 * yoe + yoe / 4 - yoe / 100);
    proof {
        lemma_era_years(y as int, yoe as int, era as int);
        lemma_month_of_year(doy as int, (5 * doy + 2) / 153);
    }
    let mp: u64 = (5 * doy + 2) / 153;
    let d: u64 = doy - (153 * mp + 2) / 5 + 1;
    let month: u64 = if mp < 10 { mp + 3 } else { mp - 9 };
    let year: u64 = if month <= 2 { y + 1 } else { y };
    proof {
        lemma_since_1970(days as int, y as int, doy as int, mp as int);
        lemma_date(y as int, doy as int, mp as int, year as int, month as int, d as int);
    }
    Date { year, month, day: d }
}

proof fn lemma_since_1970(days: int, y: int, doy: int, mp: int)
    requires
        0 <= days,
        0 <= y,
        0 <= doy <= 365,
        mp == (5 * doy + 2) / 153,
        days == 365 * y + y / 4 - y / 100 + y / 400 + doy - 719468,
    ensures
        y >= 1969,
        mp < 10 ==> y >= 1970,
{
}

/// A day number belongs to one day only.
pub proof fn day_numbers_are_distinct(a: Date, b: Date)
    requires
        a.valid(),
        b.valid(),
        a.day_number() == b.day_number(),
    ensures
        a == b,
{
    if a.year < b.year {
        lemma_before_next_year(a, b);
    } else if b.year < a.year {
        lemma_before_next_year(b, a);
    } else {
        reveal_with_fuel(days_before_month, 13);
        if a.month < b.month {
            lemma_before_next_month(a, b);
        } else if b.month < a.month {
            lemma_before_next_month(b, a);
        }
    }
}

proof fn lemma_months_grow(y: int, m: int, n: int)
    requires
        1 <= m <= n,
    ensures
        days_before_month(y, m) <= days_before_month(y, n),
    decreases n - m,
{
    if m < n {
        lemma_months_grow(y, m, n - 1);
    }
}

proof fn lemma_years_grow(y: int, z: int)
    requires
        y <= z,
    ensures
        days_before_year(y) <= days_before_year(z),
    decreases z - y,
{
    if y < z {
        lemma_years_grow(y, z - 1);
    }
}

proof fn lemma_before_next_month(a: Date, b: Date)
    requires
        a.valid(),
        b.valid(),
        a.year == b.year,
        a.month < b.month,
    ensures
        a.day_number() < b.day_number(),
{
    lemma_months_grow(a.year as int, a.month + 1, b.month as int);
}

proof fn lemma_before_next_year(a: Date, b: Date)
    requires
        a.valid(),
        b.valid(),
        a.year < b.year,
    ensures
        a.day_number() < b.day_number(),
{
    let y = a.year as int;
    lemma_years_grow(y + 1, b.year as int);
    lemma_months_grow(y, a.month + 1, 13);
    lemma_months_grow(b.year as int, 1, b.month as int);
    lemma_month_starts(y);
    assert(days_before_month(y, 13) == days_before_month(y, 12) + 31);
}

// ---------------------------------------------------------------------------
// timestamps
// ---------------------------------------------------------------------------

/// The text of a point in time: date, `T`, time of day with milliseconds, `Z`.
pub open spec fn timestamp_of(date: Date, secs_of_day: nat, millis: nat) -> Seq<char> {
    text::padded(date.year as nat, 4) + "-"@ + text::padded(date.month as nat, 2) + "-"@
        + text::padded(date.day as nat, 2) + "T"@ + text::padded(secs_of_day / 3600, 2) + ":"@
        + text::padded((secs_of_day % 3600) / 60, 2) + ":"@ + text::padded(secs_of_day % 60, 2)
        + "."@ + text::padded(millis, 3) + "Z"@
}

/// The point in time `secs` seconds and `millis` milliseconds after the start
/// of 1970, in UTC.
pub fn iso8601(secs: u64, millis: u64) -> (r: String)
    requires
        secs <= i64::MAX,
    ensures
        exists|date: Date|
            {
                &&& date.valid()
                &&& date.day_number() == secs / 86400
                &&& r@ == #[trigger] timestamp_of(date, (secs % 86400) as nat, millis as nat)
            },
{
    let date: Date = civil_from_days(secs / 86400);
    let tod: u64 = secs % 86400;
    let mut r: String = text::decimal_padded(date.year, 4);
    r.append("-");
    r.append(text::decimal_padded(date.month, 2).as_str());
    r.append("-");
    r.append(text::decimal_padded(date.day, 2).as_str());
    r.append("T");
    r.append(text::decimal_padded(tod / 3600, 2).as_str());
    r.append(":");
    r.append(text::decimal_padded((tod % 3600) / 60, 2).as_str());
    r.append(":");
    r.append(text::decimal_padded(tod % 60, 2).as_str());
    r.append(".");
    r.append(text::decimal_padded(millis, 3).as_str());
    r.append("Z");
    assert(r@ == timestamp_of(date, tod as nat, millis as nat));
    r
}

// ---------------------------------------------------------------------------
// local time
// ---------------------------------------------------------------------------

/// A point in time as the clock on the wall shows it.
#[derive(Clone, Copy, Debug, PartialEq, Eq, Structural)]
pub struct LocalTime {
    pub year: i32,
    pub month: u32,
    pub day: u32,
    pub hour: u32,
    pub minute: u32,
}

/// The numeral of a number that may be negative.
pub open spec fn signed_dec(n: int) -> Seq<char> {
    if n < 0 {
        "-"@ + text::dec((-n) as nat)
    } else {
        text::dec(n as nat)
    }
}

fn signed_text(n: i32) -> (r: String)
    ensures
        r@ == signed_dec(n as int),
{
    if n < 0 {
        let m: u64 = (-(n as i64)) as u64;
        text::concat2("-", text::decimal(m).as_str())
    } else {
        text::decimal(n as u64)
    }
}

/// Hours and minutes.
pub open spec fn hours_and_minutes(t: LocalTime) -> Seq<char> {
    text::padded(t.hour as nat, 2) + ":"@ + text::padded(t.minute as nat, 2)
}

/// The day and the time of day, as short as `now` allows: the time alone on
/// the same day, without the year in the same year.
pub open spec fn clock_of(t: LocalTime, now: Option<LocalTime>) -> Seq<char> {
    let same_year = now matches Some(n) && n.year == t.year;
    let same_day = same_year && now->0.month == t.month && now->0.day == t.day;
    if same_day {
        hours_and_minutes(t)
    } else if same_year {
        text::dec(t.month as nat) + "月"@ + text::dec(t.day as nat) + "日 "@ + hours_and_minutes(t)
    } else {
        signed_dec(t.year as int) + "年"@ + text::dec(t.month as nat) + "月"@ + text::dec(
            t.day as nat,
        ) + "日 "@ + hours_and_minutes(t)
    }
}

/// The day and the time of day, as short as `now` allows.
pub fn clock_text(t: &LocalTime, now: &Option<LocalTime>) -> (r: String)
    ensures
        r@ == clock_of(*t, *now),
{
    let hour: String = text::decimal_padded(t.hour as u64, 2);
    let minute: String = text::decimal_padded(t.minute as u64, 2);
    let clock: String = text::concat3(hour.as_str(), ":", minute.as_str());
    let same_year: bool = match now {
        Some(n) => n.year == t.year,
        None => false,
    };
    let same_day: bool = same_year && (match now {
        Some(n) => n.month == t.month && n.day == t.day,
        None => false,
    });
    if same_day {
        return clock;
    }
    let mut r: String = String::new();
    if !same_year {
        r = signed_text(t.year).concat("年");
        r.append(text::decimal(t.month as u64).as_str());
    } else {
        r = text::decimal(t.month as u64);
    }
    r.append("月");
    r.append(text::decimal(t.day as u64).as_str());
    r.append("日 ");
    r.append(clock.as_str());
    r
}

/// The last millisecond of the calendar that a clock on the wall covers.
pub const LAST_MS: u64 = 8210266876799999;

/// Whether a clock that goes `off` seconds ahead of UTC shows `t` at the time
/// `ms`, in milliseconds since the start of 1970. Behind UTC, the first day of
/// 1970 may still be the last of 1969.
pub open spec fn ahead_shows(t: LocalTime, ms: u64, off: int) -> bool {
    let secs = ms as int / 1000 + off;
    let of_day = secs % 86400;
    &&& -86400 < off < 86400
    &&& 1 <= t.month <= 12
    &&& 1 <= t.day <= days_in_month(t.year as int, t.month as int)
    &&& if secs < 0 {
        t.year == 1969 && t.month == 12 && t.day == 31
    } else {
        t.year >= 1970 && days_before_year(t.year as int) + days_before_month(
            t.year as int,
            t.month as int,
        ) + t.day - 1 == secs / 86400
    }
    &&& t.hour == of_day / 3600
    &&& t.minute == (of_day % 3600) / 60
}

/// Whether a clock on the wall shows `r` at the time `ms`, in some time zone:
/// within the calendar that it covers a date and a time of day, behind it
/// nothing.
pub open spec fn wall_shows(r: Option<LocalTime>, ms: u64) -> bool {
    &&& ms <= LAST_MS ==> (r matches Some(t) && exists|off: int| #[trigger] ahead_shows(t, ms, off))
    &&& LAST_MS < ms <= i64::MAX ==> r is None
}

/// `chrono::TimeZone::timestamp_millis_opt` on `chrono::Local` gives the date
/// and time of day in the time zone of the machine, less than a day away from
/// UTC, up to the end of the year 262142, and nothing behind it. Which time
/// zone that is rests on the machine. Nothing is said of times beyond the
/// range of `i64`.
#[verifier::external_body]
fn local_time(ms: u64) -> (r: Option<LocalTime>)
    ensures
        wall_shows(r, ms),
{
    let found = chrono::TimeZone::timestamp_millis_opt(&chrono::Local, ms as i64).single();
    found.map(|t| LocalTime {
        year: chrono::Datelike::year(&t),
        month: chrono::Datelike::month(&t),
        day: chrono::Datelike::day(&t),
        hour: chrono::Timelike::hour(&t),
        minute: chrono::Timelike::minute(&t),
    })
}

/// The text for a message's time, given what the clock on the wall shows for
/// it and for now; nothing for a time that it does not show.
pub fn message_clock(t: &Option<LocalTime>, now: &Option<LocalTime>) -> (r: String)
    ensures
        r@ == (match *t {
            Some(t) => clock_of(t, *now),
            None => Seq::empty(),
        }),
{
    match t {
        Some(t) => clock_text(t, now),
        None => String::new(),
    }
}

/// Whether a text tells a time, as short as another time allows.
pub open spec fn tells(s: Seq<char>, t: Option<LocalTime>, now: Option<LocalTime>) -> bool {
    s == (match t {
        Some(t) => clock_of(t, now),
        None => Seq::empty(),
    })
}

/// The text for a message's time in the time zone of the machine, as short as
/// the time now allows.
pub fn format_message_clock(time_ms: u64, now_ms: u64) -> (r: String)
    ensures
        exists|t: Option<LocalTime>, now: Option<LocalTime>|
            wall_shows(t, time_ms) && wall_shows(now, now_ms) && #[trigger] tells(r@, t, now),
        time_ms <= LAST_MS ==> r@.len() > 0,
        LAST_MS < time_ms <= i64::MAX ==> r@.len() == 0,
{
    let t: Option<LocalTime> = local_time(time_ms);
    let now: Option<LocalTime> = local_time(now_ms);
    let r = message_clock(&t, &now);
    proof {
        assert(tells(r@, t, now));
        reveal_strlit(":");
    }
    r
}

// ---------------------------------------------------------------------------
// laws of the calendar and of how times are written
// ---------------------------------------------------------------------------

/// Of the years before `y` every fourth has a day more, but not every
/// hundredth, and yet every four-hundredth.
pub proof fn years_follow_the_calendar(y: int)
    requires
        1970 <= y,
    ensures
        days_before_year(y) == 365 * (y - 1970) + (y - 1) / 4 - (y - 1) / 100 + (y - 1) / 400 - 477,
    decreases y,
{
    if y > 1970 {
        years_follow_the_calendar(y - 1);
    }
}

/// The months of a year make up its days, and but for the second they have 30
/// and 31 days in turn, twice 31 in the middle.
pub proof fn months_make_up_the_year(y: int, m: int)
    ensures
        days_before_month(y, 13) == 365 + (if y % 400 == 0 || (y % 4 == 0 && y % 100 != 0) {
            1int
        } else {
            0
        }),
        1 <= m <= 12 && m != 2 ==> days_in_month(y, m) == 30 + (m + m / 8) % 2,
{
    reveal_with_fuel(days_before_month, 13);
}

/// A timestamp holds the date and the time of day as numbers at fixed places.
pub proof fn timestamp_tells_the_time(date: Date, h: nat, m: nat, s: nat, millis: nat)
    requires
        date.valid(),
        date.year <= 9999,
        h < 24,
        m < 60,
        s < 60,
        millis < 1000,
    ensures
        ({
            let t = timestamp_of(date, (h * 60 + m) * 60 + s, millis);
            &&& t.len() == 24
            &&& text::number(t.subrange(0, 4)) == date.year
            &&& text::number(t.subrange(5, 7)) == date.month
            &&& text::number(t.subrange(8, 10)) == date.day
            &&& text::number(t.subrange(11, 13)) == h
            &&& text::number(t.subrange(14, 16)) == m
            &&& text::number(t.subrange(17, 19)) == s
            &&& text::number(t.subrange(20, 23)) == millis
            &&& t[4] == '-' && t[7] == '-' && t[10] == 'T' && t[13] == ':' && t[16] == ':' && t[19]
                == '.' && t[23] == 'Z'
        }),
{
    reveal_strlit("-");
    reveal_strlit("T");
    reveal_strlit(":");
    reveal_strlit(".");
    reveal_strlit("Z");
    let secs = (h * 60 + m) * 60 + s;
    assert(secs / 3600 == h);
    assert((secs % 3600) / 60 == m);
    assert(secs % 60 == s);
    lemma_field(date.year as nat, 4);
    lemma_field(date.month as nat, 2);
    lemma_field(date.day as nat, 2);
    lemma_field(h, 2);
    lemma_field(m, 2);
    lemma_field(s, 2);
    lemma_field(millis, 3);
    let t = timestamp_of(date, secs, millis);
    assert(t.subrange(0, 4) =~= text::padded(date.year as nat, 4));
    assert(t.subrange(5, 7) =~= text::padded(date.month as nat, 2));
    assert(t.subrange(8, 10) =~= text::padded(date.day as nat, 2));
    assert(t.subrange(11, 13) =~= text::padded(h, 2));
    assert(t.subrange(14, 16) =~= text::padded(m, 2));
    assert(t.subrange(17, 19) =~= text::padded(s, 2));
    assert(t.subrange(20, 23) =~= text::padded(millis, 3));
}

proof fn lemma_field(n: nat, width: nat)
    requires
        width == 2 && n < 100 || width == 3 && n < 1000 || width == 4 && n < 10000,
    ensures
        text::padded(n, width).len() == width,
        text::number(text::padded(n, width)) == n,
{
    text::lemma_dec_width(n);
    text::padding_keeps_the_number(n, width);
}

/// A clock ends in hours and minutes of two digits each.
pub proof fn clock_ends_in_the_time(t: LocalTime, now: Option<LocalTime>)
    requires
        t.hour < 24,
        t.minute < 60,
    ensures
        ({
            let s = clock_of(t, now);
            let n = s.len();
            &&& n >= 5
            &&& s[n - 3] == ':'
            &&& text::number(s.subrange(n - 5, n - 3)) == t.hour
            &&& text::number(s.subrange(n - 2, n as int)) == t.minute
        }),
{
    reveal_strlit(":");
    lemma_field(t.hour as nat, 2);
    lemma_field(t.minute as nat, 2);
    let time = hours_and_minutes(t);
    let s = clock_of(t, now);
    let n = s.len();
    assert(time.len() == 5 && time[2] == ':');
    assert(time.subrange(0, 2) =~= text::padded(t.hour as nat, 2));
    assert(time.subrange(3, 5) =~= text::padded(t.minute as nat, 2));
    let front = s.take(n - 5);
    assert(s =~= front + time);
    assert(s.subrange(n - 5, n - 3) =~= time.subrange(0, 2));
    assert(s.subrange(n - 2, n as int) =~= time.subrange(3, 5));
}

/// A clock tells the day where it is not today's, and nothing of it where it is.
pub proof fn clock_tells_another_day(t: LocalTime, now: LocalTime)
    requires
        t.hour < 24,
        t.minute < 60,
    ensures
        t.year == now.year && t.month == now.month && t.day == now.day ==> clock_of(
            t,
            Some(now),
        ).len() == 5,
        t.year == now.year && !(t.month == now.month && t.day == now.day) ==> text::begins(
            clock_of(t, Some(now)),
            text::dec(t.month as nat) + "月"@ + text::dec(t.day as nat) + "日"@,
        ),
{
    reveal_strlit(":");
    reveal_strlit("日 ");
    reveal_strlit("日");
    lemma_field(t.hour as nat, 2);
    lemma_field(t.minute as nat, 2);
    if t.year == now.year && !(t.month == now.month && t.day == now.day) {
        let day = text::dec(t.month as nat) + "月"@ + text::dec(t.day as nat) + "日"@;
        let s = clock_of(t, Some(now));
        assert("日 "@.len() == 2 && "日"@.len() == 1 && "日 "@[0] == "日"@[0]);
        assert(s.take(day.len() as int) =~= day);
    }
}

/// A clock tells the year where it is not this one or this one is not known.
pub proof fn clock_tells_another_year(t: LocalTime, now: Option<LocalTime>)
    requires
        now matches Some(n) ==> n.year != t.year,
    ensures
        t.year >= 0 ==> text::begins(
            clock_of(t, now),
            text::dec(t.year as nat) + "年"@ + text::dec(t.month as nat) + "月"@ + text::dec(
                t.day as nat,
            ),
        ),
        t.year < 0 ==> text::begins(clock_of(t, now), "-"@ + text::dec((-t.year) as nat)),
{
    let s = clock_of(t, now);
    let year = signed_dec(t.year as int);
    let date = year + "年"@ + text::dec(t.month as nat) + "月"@ + text::dec(t.day as nat);
    assert(s.take(date.len() as int) =~= date);
    assert(s.take(year.len() as int) =~= year);
}

} // verus!
