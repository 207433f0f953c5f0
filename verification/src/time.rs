//! The time that is given to every file of the cache.

use chrono::{Datelike, Timelike};
use vstd::prelude::*;

verus! {

/// The second that every file is from, counted from the start of the year 1970.
pub const SAFE_SECONDS: u32 = 456_789_000;

/// That second as it is written in a zip file: the 22nd of June 1984, at 21:50.
pub const SAFE_TIME: u32 = 148_287_040;

/// A second of the civil calendar, in universal time.
#[derive(Debug, PartialEq, Eq, Clone, Copy, Structural)]
pub struct Civil {
    pub year: i32,
    pub month: u32,
    pub day: u32,
    pub hour: u32,
    pub minute: u32,
    pub second: u32,
}

/// Whether a year has a day more.
pub open spec fn is_leap(year: int) -> bool {
    year % 4 == 0 && (year % 100 != 0 || year % 400 == 0)
}

/// How many of the years from 1 to the given one have a day more.
pub open spec fn leap_years(year: int) -> int {
    year / 4 - year / 100 + year / 400
}

/// The days of a year before a month.
pub open spec fn days_before(year: int, month: int) -> int {
    (if month <= 1 {
        0
    } else if month == 2 {
        31
    } else if month == 3 {
        59
    } else if month == 4 {
        90
    } else if month == 5 {
        120
    } else if month == 6 {
        151
    } else if month == 7 {
        181
    } else if month == 8 {
        212
    } else if month == 9 {
        243
    } else if month == 10 {
        273
    } else if month == 11 {
        304
    } else if month == 12 {
        334
    } else {
        365int
    }) + if month > 2 && is_leap(year) {
        1int
    } else {
        0
    }
}

impl Civil {
    /// Whether there is such a second.
    pub open spec fn is_valid(self) -> bool {
        &&& 1 <= self.month <= 12
        &&& 1 <= self.day <= days_before(self.year as int, self.month + 1) - days_before(
            self.year as int,
            self.month as int,
        )
        &&& self.hour < 24
        &&& self.minute < 60
        &&& self.second < 60
    }

    /// The days from the start of the year 1970.
    pub open spec fn days(self) -> int {
        365 * (self.year - 1970) + leap_years(self.year - 1) - leap_years(1969) + days_before(
            self.year as int,
            self.month as int,
        ) + self.day - 1
    }

    /// The seconds from the start of the year 1970.
    pub open spec fn seconds(self) -> int {
        86400 * self.days() + 3600 * self.hour + 60 * self.minute + self.second
    }

    /// Whether the second can be written as in a zip file.
    pub open spec fn is_dos(self) -> bool {
        self.is_valid() && 1980 <= self.year <= 2107
    }

    /// How the second is written in a zip file: two words, of which the upper one holds year,
    /// month and day, and the lower one hour, minute and every other second.
    pub open spec fn dos_word(self) -> int {
        65536 * (512 * (self.year - 1980) + 32 * self.month + self.day) + 2048 * self.hour + 32
            * self.minute + self.second as int / 2
    }
}

/// Finds the second of the calendar by `chrono::DateTime::from_timestamp`, which counts the
/// seconds from the start of the year 1970 in the Gregorian calendar, without leap seconds.
#[verifier::external_body]
fn civil_time(seconds: u32) -> (r: Option<Civil>)
    ensures
        match r {
            Some(c) => c.is_valid() && c.seconds() == seconds,
            None => false,
        },
{
    let t = chrono::DateTime::from_timestamp(i64::from(seconds), 0)?.naive_utc();
    Some(Civil {
        year: t.year(),
        month: t.month(),
        day: t.day(),
        hour: t.hour(),
        minute: t.minute(),
        second: t.second(),
    })
}

/// Writes a second as in a zip file by `dostime::DOSDateTime::try_from`, which takes the years
/// from 1980 to 2107, and by the conversion of its result into a number.
#[verifier::external_body]
fn to_dos(c: Civil) -> (r: Option<u32>)
    ensures
        match r {
            Some(word) => c.is_dos() && word == c.dos_word(),
            None => !c.is_dos(),
        },
{
    let date = chrono::NaiveDate::from_ymd_opt(c.year, c.month, c.day)?;
    let t = date.and_hms_opt(c.hour, c.minute, c.second)?;
    dostime::DOSDateTime::try_from(t).ok().map(u32::from)
}

/// The second of the calendar that is so many seconds from the start of the year 1970 is written
/// as in a zip file, if it can be.
pub fn dos_time(seconds: u32) -> (r: Option<u32>)
    ensures
        match r {
            Some(word) => exists|c: Civil| #[trigger]
                c.is_dos() && c.seconds() == seconds && word == c.dos_word(),
            None => exists|c: Civil| #[trigger] c.is_valid() && c.seconds() == seconds && !c.is_dos(),
        },
{
    match civil_time(seconds) {
        Some(c) => to_dos(c),
        None => None,
    }
}

/// The time of every file as it is written in a zip file.
pub fn safe_time() -> (r: u32)
    ensures
        r == SAFE_TIME,
{
    match dos_time(SAFE_SECONDS) {
        Some(word) => {
            proof {
                let c = choose|c: Civil| #[trigger]
                    c.is_dos() && c.seconds() == SAFE_SECONDS && word == c.dos_word();
                lemma_safe_second(c);
            }
            word
        },
        None => {
            proof {
                let c = choose|c: Civil| #[trigger]
                    c.is_valid() && c.seconds() == SAFE_SECONDS && !c.is_dos();
                lemma_safe_second(c);
            }
            0
        },
    }
}

/// The first day of a year, counted as [`Civil::days`] counts.
spec fn year_start(year: int) -> int {
    365 * (year - 1970) + leap_years(year - 1) - leap_years(1969)
}

/// Of the numbers up to `n`, one more is a multiple of `d` than of those before `n`, if `n` is one.
proof fn lemma_multiples(n: int, d: int)
    requires
        d == 4 || d == 100 || d == 400,
    ensures
        n / d == (n - 1) / d + if n % d == 0 {
            1int
        } else {
            0
        },
{
    if d == 4 {
        assert(n / 4 == (n - 1) / 4 + if n % 4 == 0 {
            1int
        } else {
            0
        });
    } else if d == 100 {
        assert(n / 100 == (n - 1) / 100 + if n % 100 == 0 {
            1int
        } else {
            0
        });
    } else {
        assert(n / 400 == (n - 1) / 400 + if n % 400 == 0 {
            1int
        } else {
            0
        });
    }
}

/// The leap years are counted one by one.
proof fn lemma_leap_years(year: int)
    ensures
        leap_years(year) == leap_years(year - 1) + if is_leap(year) {
            1int
        } else {
            0
        },
{
    lemma_multiples(year, 4);
    lemma_multiples(year, 100);
    lemma_multiples(year, 400);
    assert(year % 100 == 0 ==> year % 4 == 0);
    assert(year % 400 == 0 ==> year % 100 == 0);
}

/// A later year starts after all days of an earlier one.
proof fn lemma_years(one: int, other: int)
    requires
        one < other,
    ensures
        year_start(one) + days_before(one, 13) <= year_start(other),
    decreases other - one,
{
    if other == one + 1 {
        lemma_leap_years(one);
    } else {
        lemma_years(one, other - 1);
        lemma_years(other - 1, other);
    }
}

/// A second of the calendar is known by how far it is from the start of the year 1970.
pub proof fn law_seconds_are_unique(one: Civil, other: Civil)
    requires
        one.is_valid(),
        other.is_valid(),
        one.seconds() == other.seconds(),
    ensures
        one == other,
{
    assert(one.days() == other.days());
    assert(one.hour == other.hour);
    assert(one.minute == other.minute);
    if one.year < other.year {
        lemma_years(one.year as int, other.year as int);
    } else if other.year < one.year {
        lemma_years(other.year as int, one.year as int);
    }
    assert(one.year == other.year);
    assert(one.month == other.month);
}

proof fn lemma_safe_second(c: Civil)
    requires
        c.is_valid(),
        c.seconds() == SAFE_SECONDS,
    ensures
        c == (Civil { year: 1984, month: 6, day: 22, hour: 21, minute: 50, second: 0 }),
{
    let safe = Civil { year: 1984, month: 6, day: 22, hour: 21, minute: 50, second: 0 };
    assert(safe.is_valid() && safe.seconds() == SAFE_SECONDS);
    law_seconds_are_unique(c, safe);
}

/// Every file is from the 22nd of June 1984, at 21:50, whose second is the 456789000th: no other date
/// is written as that time, and none is that far from the start of the year 1970.
pub proof fn law_files_are_from_june_1984(c: Civil)
    requires
        c.is_dos(),
    ensures
        ({
            let safe = Civil { year: 1984, month: 6, day: 22, hour: 21, minute: 50, second: 0 };
            &&& safe.seconds() == 456_789_000
            &&& c.seconds() == 456_789_000 <==> c == safe
            &&& c.dos_word() == SAFE_TIME ==> (c == safe || c == (Civil { second: 1, ..safe }))
            &&& safe.dos_word() == SAFE_TIME
            &&& SAFE_SECONDS == 456_789_000
        }),
{
    let safe = Civil { year: 1984, month: 6, day: 22, hour: 21, minute: 50, second: 0 };
    assert(safe.is_valid() && safe.seconds() == 456_789_000);
    if c.seconds() == safe.seconds() {
        law_seconds_are_unique(c, safe);
    }
}

} // verus!
