//! Calendar dates: validity, ISO-8601 parsing, day numbers and ordering.
//!
//! Dates are kept as plain year/month/day fields so that everything about
//! them can be stated and proved directly; the only outside call is the one
//! that reads the clock.
use vstd::prelude::*;

verus! {

/// A proleptic Gregorian calendar date, years 1 through 9999.
#[derive(Clone, Copy, PartialEq, Eq, Structural, Debug)]
pub struct Date {
    pub year: u16,
    pub month: u8,
    pub day: u8,
}

pub open spec fn is_leap_year(y: int) -> bool {
    (y % 4 == 0 && y % 100 != 0) || y % 400 == 0
}

pub open spec fn days_in_month(y: int, m: int) -> int {
    if m == 2 {
        if is_leap_year(y) {
            29
        } else {
            28
        }
    } else if m == 4 || m == 6 || m == 9 || m == 11 {
        30
    } else {
        31
    }
}

pub open spec fn is_digit(c: char) -> bool {
    48 <= c as int <= 57
}

pub open spec fn digit(c: char) -> int {
    c as int - 48
}

/// `YYYY-MM-DD`: ten characters, digits and two dashes.
pub open spec fn date_shape(s: Seq<char>) -> bool {
    &&& s.len() == 10
    &&& is_digit(s[0])
    &&& is_digit(s[1])
    &&& is_digit(s[2])
    &&& is_digit(s[3])
    &&& s[4] == '-'
    &&& is_digit(s[5])
    &&& is_digit(s[6])
    &&& s[7] == '-'
    &&& is_digit(s[8])
    &&& is_digit(s[9])
}

/// What a well-shaped ISO date text denotes, if its fields form a real
/// calendar date.
pub open spec fn spec_parse_date(s: Seq<char>) -> Option<Date> {
    if date_shape(s) {
        let y = 1000 * digit(s[0]) + 100 * digit(s[1]) + 10 * digit(s[2]) + digit(s[3]);
        let m = 10 * digit(s[5]) + digit(s[6]);
        let d = 10 * digit(s[8]) + digit(s[9]);
        if 1 <= y && 1 <= m <= 12 && 1 <= d <= days_in_month(y, m) {
            Some(Date { year: y as u16, month: m as u8, day: d as u8 })
        } else {
            None
        }
    } else {
        None
    }
}

impl Date {
    /// A real calendar date within the supported year range.
    pub open spec fn wf(self) -> bool {
        &&& 1 <= self.year <= 9999
        &&& 1 <= self.month <= 12
        &&& 1 <= self.day <= days_in_month(self.year as int, self.month as int)
    }

    /// Days since 1970-01-01 (negative before it), by the usual civil
    /// calendar formula over 400-year eras.
    pub open spec fn spec_day_number(self) -> int {
        let y: int = if self.month <= 2 {
            self.year - 1
        } else {
            self.year as int
        };
        let m: int = self.month as int;
        let era: int = y / 400;
        let yoe: int = y - era * 400;
        let mp: int = if m > 2 {
            m - 3
        } else {
            m + 9
        };
        let doy: int = (153 * mp + 2) / 5 + self.day - 1;
        let doe: int = yoe * 365 + yoe / 4 - yoe / 100 + doy;
        era * 146097 + doe - 719468
    }

    /// Chronological order.
    pub open spec fn spec_lt(self, other: Date) -> bool {
        ||| self.year < other.year
        ||| (self.year == other.year && self.month < other.month)
        ||| (self.year == other.year && self.month == other.month && self.day < other.day)
    }

    pub fn day_number(&self) -> (r: i64)
        requires
            self.wf(),
        ensures
            r == self.spec_day_number(),
    {
        let year: u64 = self.year as u64;
        let month: u64 = self.month as u64;
        let day: u64 = self.day as u64;
        let y: u64 = if month <= 2 {
            year - 1
        } else {
            year
        };
        let era: u64 = y / 400;
        let yoe: u64 = y - era * 400;
        let mp: u64 = if month > 2 {
            month - 3
        } else {
            month + 9
        };
        let doy: u64 = (153 * mp + 2) / 5 + day - 1;
        let doe: u64 = yoe * 365 + yoe / 4 - yoe / 100 + doy;
        (era * 146097 + doe) as i64 - 719468
    }

    /// Is this a real calendar date in the supported range?
    pub fn is_wf(&self) -> (r: bool)
        ensures
            r == self.wf(),
    {
        1 <= self.year && self.year <= 9999 && 1 <= self.month && self.month <= 12 && 1 <= self.day
            && self.day <= days_in_month_exec(self.year, self.month)
    }

    pub fn lt(&self, other: &Date) -> (r: bool)
        ensures
            r == self.spec_lt(*other),
    {
        if self.year != other.year {
            self.year < other.year
        } else if self.month != other.month {
            self.month < other.month
        } else {
            self.day < other.day
        }
    }
}

/// Days contributed by whole calendar-shifted years before `y`, the year
/// part of the day-number formula.
pub(crate) open spec fn spec_year_days(y: int) -> int {
    (y / 400) * 146097 + (y % 400) * 365 + (y % 400) / 4 - (y % 400) / 100
}

/// One year adds 365 days, and one more before a leap-year February.
proof fn lemma_year_step(y: int)
    requires
        0 <= y,
    ensures
        spec_year_days(y + 1) == spec_year_days(y) + 365 + (if is_leap_year(y + 1) {
            1int
        } else {
            0int
        }),
{
    let era = y / 400;
    let yoe = y % 400;
    vstd::arithmetic::div_mod::lemma_fundamental_div_mod(y, 400);
    if yoe == 399 {
        vstd::arithmetic::div_mod::lemma_fundamental_div_mod_converse(y + 1, 400, era + 1, 0);
        assert(spec_year_days(y + 1) == (era + 1) * 146097);
        assert(399int * 365 + 399int / 4 - 399int / 100 == 145731);
        assert((era + 1) * 146097 == era * 146097 + 146097);
        assert(is_leap_year(y + 1)) by {
            vstd::arithmetic::div_mod::lemma_fundamental_div_mod_converse(y + 1, 400, era + 1, 0);
        }
    } else {
        vstd::arithmetic::div_mod::lemma_fundamental_div_mod_converse(y + 1, 400, era, yoe + 1);
        assert((y + 1) / 400 == era);
        assert((y + 1) % 400 == yoe + 1);
        let q4 = yoe / 4;
        let r4 = yoe % 4;
        vstd::arithmetic::div_mod::lemma_fundamental_div_mod(yoe, 4);
        let q100 = yoe / 100;
        let r100 = yoe % 100;
        vstd::arithmetic::div_mod::lemma_fundamental_div_mod(yoe, 100);
        if r4 == 3 {
            vstd::arithmetic::div_mod::lemma_fundamental_div_mod_converse(yoe + 1, 4, q4 + 1, 0);
        } else {
            vstd::arithmetic::div_mod::lemma_fundamental_div_mod_converse(yoe + 1, 4, q4, r4 + 1);
        }
        if r100 == 99 {
            vstd::arithmetic::div_mod::lemma_fundamental_div_mod_converse(
                yoe + 1,
                100,
                q100 + 1,
                0,
            );
        } else {
            vstd::arithmetic::div_mod::lemma_fundamental_div_mod_converse(
                yoe + 1,
                100,
                q100,
                r100 + 1,
            );
        }
        // the calendar year y + 1 and the year-of-era yoe + 1 agree modulo
        // 4, 100 and 400
        assert((y + 1) % 4 == (yoe + 1) % 4) by {
            vstd::arithmetic::div_mod::lemma_fundamental_div_mod(yoe + 1, 4);
            vstd::arithmetic::div_mod::lemma_fundamental_div_mod_converse(
                y + 1,
                4,
                100 * era + (yoe + 1) / 4,
                (yoe + 1) % 4,
            );
        }
        assert((y + 1) % 100 == (yoe + 1) % 100) by {
            vstd::arithmetic::div_mod::lemma_fundamental_div_mod(yoe + 1, 100);
            vstd::arithmetic::div_mod::lemma_fundamental_div_mod_converse(
                y + 1,
                100,
                4 * era + (yoe + 1) / 100,
                (yoe + 1) % 100,
            );
        }
        // a century year within the era is also a quarter year
        if r100 == 99 {
            assert(r4 == 3) by {
                vstd::arithmetic::div_mod::lemma_fundamental_div_mod_converse(
                    yoe,
                    4,
                    25 * q100 + 24,
                    3,
                );
            }
        }
    }
}

/// The year part never shrinks as years advance.
proof fn lemma_year_days_mono(y1: int, y2: int)
    requires
        0 <= y1 <= y2,
    ensures
        spec_year_days(y1) + 365 * (y2 - y1) <= spec_year_days(y2),
    decreases y2 - y1,
{
    if y1 < y2 {
        lemma_year_days_mono(y1, y2 - 1);
        lemma_year_step(y2 - 1);
    }
}

/// The twelve month offsets of the day-of-year formula, concretely.
proof fn lemma_month_starts()
    ensures
        (153int * 0 + 2) / 5 == 0,
        (153int * 1 + 2) / 5 == 31,
        (153int * 2 + 2) / 5 == 61,
        (153int * 3 + 2) / 5 == 92,
        (153int * 4 + 2) / 5 == 122,
        (153int * 5 + 2) / 5 == 153,
        (153int * 6 + 2) / 5 == 184,
        (153int * 7 + 2) / 5 == 214,
        (153int * 8 + 2) / 5 == 245,
        (153int * 9 + 2) / 5 == 275,
        (153int * 10 + 2) / 5 == 306,
        (153int * 11 + 2) / 5 == 337,
{
}

/// A strictly earlier date has a strictly smaller day number.
proof fn lemma_dn_lt(a: Date, b: Date)
    requires
        a.wf(),
        b.wf(),
        a.spec_lt(b),
    ensures
        a.spec_day_number() < b.spec_day_number(),
{
    let ya: int = if a.month <= 2 {
        a.year - 1
    } else {
        a.year as int
    };
    let yb: int = if b.month <= 2 {
        b.year - 1
    } else {
        b.year as int
    };
    let mpa: int = if a.month > 2 {
        a.month - 3
    } else {
        a.month + 9
    };
    let mpb: int = if b.month > 2 {
        b.month - 3
    } else {
        b.month + 9
    };
    let doya: int = (153 * mpa + 2) / 5 + a.day - 1;
    let doyb: int = (153 * mpb + 2) / 5 + b.day - 1;
    assert(a.spec_day_number() == spec_year_days(ya) + doya - 719468) by {
        vstd::arithmetic::div_mod::lemma_fundamental_div_mod(ya, 400);
    }
    assert(b.spec_day_number() == spec_year_days(yb) + doyb - 719468) by {
        vstd::arithmetic::div_mod::lemma_fundamental_div_mod(yb, 400);
    }
    lemma_month_starts();
    if ya == yb {
        if a.month == b.month {
        } else {
            assert(mpa < mpb);
            assert(doya < (153 * (mpa + 1) + 2) / 5);
            assert((153 * (mpa + 1) + 2) / 5 <= (153 * mpb + 2) / 5) by {
                vstd::arithmetic::div_mod::lemma_div_is_ordered(
                    153 * (mpa + 1) + 2,
                    153 * mpb + 2,
                    5,
                );
            }
            assert(doyb >= (153 * mpb + 2) / 5);
        }
    } else {
        assert(ya < yb);
        // a's day of year ends before its computational year does, whose
        // February belongs to calendar year ya + 1
        assert(doya <= 364 + (if is_leap_year(ya + 1) {
            1int
        } else {
            0int
        }));
        lemma_year_step(ya);
        lemma_year_days_mono(ya + 1, yb);
        assert(doyb >= 0);
    }
}

/// The order on dates is chronological: one date stands before another
/// exactly when its day number is smaller.
pub proof fn lemma_order_chronological(a: Date, b: Date)
    requires
        a.wf(),
        b.wf(),
    ensures
        a.spec_lt(b) <==> a.spec_day_number() < b.spec_day_number(),
{
    if a.spec_lt(b) {
        lemma_dn_lt(a, b);
    } else if b.spec_lt(a) {
        lemma_dn_lt(b, a);
    }
}

/// The date a year/month/day triple denotes: `Some` exactly when the triple
/// is a real calendar date in the supported range.
pub fn date_from_ymd(y: i64, m: i64, d: i64) -> (r: Option<Date>)
    ensures
        match r {
            Some(date) => {
                &&& date.wf()
                &&& date.year == y
                &&& date.month == m
                &&& date.day == d
            },
            None => !(1 <= y <= 9999 && 1 <= m <= 12 && 1 <= d <= days_in_month(y as int, m as int)),
        },
{
    if 1 <= y && y <= 9999 && 1 <= m && m <= 12 && 1 <= d && d <= 31 {
        let date = Date { year: y as u16, month: m as u8, day: d as u8 };
        let dim: u8 = days_in_month_exec(date.year, date.month);
        if date.day <= dim {
            Some(date)
        } else {
            None
        }
    } else {
        None
    }
}

pub fn days_in_month_exec(y: u16, m: u8) -> (r: u8)
    ensures
        r == days_in_month(y as int, m as int),
{
    if m == 2 {
        if (y % 4 == 0 && y % 100 != 0) || y % 400 == 0 {
            29
        } else {
            28
        }
    } else if m == 4 || m == 6 || m == 9 || m == 11 {
        30
    } else {
        31
    }
}

/// Parses `YYYY-MM-DD`; `Some` exactly when the text is well shaped and
/// denotes a real calendar date.
pub fn parse_date(s: &str) -> (r: Option<Date>)
    ensures
        r == spec_parse_date(s@),
{
    let n = s.unicode_len();
    if n != 10 {
        return None;
    }
    let c0 = s.get_char(0);
    let c1 = s.get_char(1);
    let c2 = s.get_char(2);
    let c3 = s.get_char(3);
    let c4 = s.get_char(4);
    let c5 = s.get_char(5);
    let c6 = s.get_char(6);
    let c7 = s.get_char(7);
    let c8 = s.get_char(8);
    let c9 = s.get_char(9);
    if !(digit_exec(c0) && digit_exec(c1) && digit_exec(c2) && digit_exec(c3) && c4 == '-'
        && digit_exec(c5) && digit_exec(c6) && c7 == '-' && digit_exec(c8) && digit_exec(c9)) {
        return None;
    }
    let y: u64 = 1000 * digit_value(c0) + 100 * digit_value(c1) + 10 * digit_value(c2)
        + digit_value(c3);
    let m: u64 = 10 * digit_value(c5) + digit_value(c6);
    let d: u64 = 10 * digit_value(c8) + digit_value(c9);
    if 1 <= y && 1 <= m && m <= 12 && 1 <= d {
        let dim: u8 = days_in_month_exec(y as u16, m as u8);
        if d <= dim as u64 {
            Some(Date { year: y as u16, month: m as u8, day: d as u8 })
        } else {
            None
        }
    } else {
        None
    }
}

pub(crate) fn digit_exec(c: char) -> (r: bool)
    ensures
        r == is_digit(c),
{
    c >= '0' && c <= '9'
}

pub(crate) fn digit_value(c: char) -> (r: u64)
    requires
        is_digit(c),
    ensures
        r == digit(c),
{
    (c as u32 - 48) as u64
}

/// Relies on `SystemTime::now` and on chrono's `DateTime::from_timestamp`
/// with chrono-tz's `US::Pacific`: the current civil date in the Pacific
/// time zone, or `None` when the clock reads before 1970 or past chrono's
/// range, each step taken by its non-panicking path. chrono documents
/// `month()` as 1..=12 and `day()` as 1..=31; nothing more is assumed of
/// the clock.
#[verifier::external_body]
fn now_pacific_ymd() -> (r: Option<(i64, i64, i64)>)
    ensures
        r matches Some(t) ==> 1 <= t.1 <= 12,
        r matches Some(t) ==> 1 <= t.2 <= 31,
{
    let dur = std::time::SystemTime::now().duration_since(std::time::UNIX_EPOCH).ok()?;
    let secs = i64::try_from(dur.as_secs()).ok()?;
    let utc = chrono::DateTime::<chrono::Utc>::from_timestamp(secs, 0)?;
    let d = utc.with_timezone(&chrono_tz::US::Pacific).date_naive();
    Some(
        (chrono::Datelike::year(&d) as i64, chrono::Datelike::month(&d) as i64,
        chrono::Datelike::day(&d) as i64),
    )
}

/// Today's date in Pacific time, if the clock can be read and its reading
/// lies in the supported range; every returned date is well formed.
pub fn today_pacific() -> (r: Option<Date>)
    ensures
        r matches Some(d) ==> d.wf(),
{
    match now_pacific_ymd() {
        Some((y, m, d)) => date_from_ymd(y, m, d),
        None => None,
    }
}

} // verus!
