//! Calendar instants: points in time with date and time-of-day (second)
//! resolution, totally ordered through an integer model (`stamp`).

use vstd::prelude::*;

verus! {

/// A point in time with calendar-date and time-of-day (second) resolution.
///
/// Instants are totally ordered; the order and all interval arithmetic are
/// defined through [`Instant::stamp`], the number of seconds since the
/// calendar origin (midnight of January 1 of year 1).
#[derive(Copy, Clone, Debug, PartialEq, Eq, Structural)]
pub struct Instant {
    /// Calendar year (1 to 9999 for a well-formed instant).
    pub year: u16,
    /// Calendar month, 1 (January) to 12 (December).
    pub month: u8,
    /// Day of the month, 1 to the month's length.
    pub day: u8,
    /// Seconds since this day's midnight (0 to 86399).
    pub sec: u32,
}

/// Gregorian leap-year rule.
pub open spec fn is_leap_year(y: int) -> bool {
    (y % 4 == 0 && y % 100 != 0) || y % 400 == 0
}

/// Number of days in month `m` of year `y`.
pub open spec fn days_in_month(y: int, m: int) -> int {
    if m == 2 {
        if is_leap_year(y) {
            29
        } else {
            28
        }
    } else if m == 4 || m == 6 || m == 9 || m == 11 {
        30
    } else {
        31
    }
}

/// Number of days in year `y`.
pub open spec fn days_in_year(y: int) -> int {
    if is_leap_year(y) {
        366
    } else {
        365
    }
}

/// Days of year `y` that precede the first day of month `m`.
pub open spec fn days_before_month(y: int, m: int) -> int
    decreases m,
{
    if m <= 1 {
        0
    } else {
        days_before_month(y, m - 1) + days_in_month(y, m - 1)
    }
}

/// Days that precede January 1 of year `y`, counting from the origin (year 1).
pub open spec fn days_before_year(y: int) -> int
    decreases y,
{
    if y <= 1 {
        0
    } else {
        days_before_year(y - 1) + days_in_year(y - 1)
    }
}

/// Index of a calendar day, counting January 1 of year 1 as day 0.
pub open spec fn day_number(y: int, m: int, d: int) -> int {
    days_before_year(y) + days_before_month(y, m) + d - 1
}

/// First stamp beyond the supported range: midnight of January 1, year 10000.
pub open spec fn stamp_limit() -> int {
    (Instant { year: 10000, month: 1, day: 1, sec: 0 }).stamp()
}

/// Strict lexicographic order on (year, month, day, second).
pub open spec fn lex_lt(a: Instant, b: Instant) -> bool {
    ||| a.year < b.year
    ||| (a.year == b.year && a.month < b.month)
    ||| (a.year == b.year && a.month == b.month && a.day < b.day)
    ||| (a.year == b.year && a.month == b.month && a.day == b.day && a.sec < b.sec)
}

impl Instant {
    /// Seconds since the calendar origin: the mathematical model of an instant.
    pub open spec fn stamp(self) -> int {
        day_number(self.year as int, self.month as int, self.day as int) * 86400 + self.sec
    }

    /// The fields describe a real calendar date with a time of day.
    pub open spec fn fields_ok(self) -> bool {
        &&& 1 <= self.year
        &&& 1 <= self.month <= 12
        &&& 1 <= self.day <= days_in_month(self.year as int, self.month as int)
        &&& self.sec < 86400
    }

    /// Well-formed: a real calendar date within the supported year range.
    pub open spec fn wf(self) -> bool {
        self.fields_ok() && self.year <= 9999
    }
}

/// The months of a year sum to the year's length.
proof fn lemma_months_sum(y: int)
    ensures
        days_before_month(y, 13) == days_in_year(y),
{
    reveal_with_fuel(days_before_month, 13);
}

/// `days_before_year` grows by at least a year's length per year.
proof fn lemma_dby_monotone(y1: int, y2: int)
    requires
        1 <= y1 <= y2,
    ensures
        days_before_year(y1) <= days_before_year(y2),
        y1 < y2 ==> days_before_year(y1) + days_in_year(y1) <= days_before_year(y2),
    decreases y2 - y1,
{
    if y1 < y2 {
        lemma_dby_monotone(y1, y2 - 1);
    }
}

/// `days_before_month` grows by at least the month's length per month.
proof fn lemma_dbm_monotone(y: int, m1: int, m2: int)
    requires
        1 <= m1 <= m2,
    ensures
        days_before_month(y, m1) <= days_before_month(y, m2),
        m1 < m2 ==> days_before_month(y, m1) + days_in_month(y, m1) <= days_before_month(y, m2),
    decreases m2 - m1,
{
    if m1 < m2 {
        lemma_dbm_monotone(y, m1, m2 - 1);
    }
}

/// A valid date's day number lies within its year's days.
proof fn lemma_day_number_in_year(y: int, m: int, d: int)
    requires
        1 <= m <= 12,
        1 <= d <= days_in_month(y, m),
    ensures
        days_before_year(y) <= day_number(y, m, d),
        day_number(y, m, d) < days_before_year(y) + days_in_year(y),
{
    lemma_dbm_monotone(y, 1, m);
    lemma_dbm_monotone(y, m, 13);
    lemma_months_sum(y);
}

/// The stamp is strictly monotone with respect to the field order.
pub proof fn lemma_stamp_lt(a: Instant, b: Instant)
    requires
        a.fields_ok(),
        b.fields_ok(),
        lex_lt(a, b),
    ensures
        a.stamp() < b.stamp(),
{
    let (ya, ma, da) = (a.year as int, a.month as int, a.day as int);
    let (yb, mb, db) = (b.year as int, b.month as int, b.day as int);
    if ya < yb {
        lemma_day_number_in_year(ya, ma, da);
        lemma_day_number_in_year(yb, mb, db);
        lemma_dby_monotone(ya, yb);
        assert(day_number(ya, ma, da) < day_number(yb, mb, db));
    } else if ma < mb {
        lemma_dbm_monotone(ya, ma, mb);
        assert(day_number(ya, ma, da) < day_number(yb, mb, db));
    } else if da < db {
        assert(day_number(ya, ma, da) < day_number(yb, mb, db));
    } else {
        assert(a.stamp() < b.stamp());
    }
}

/// On valid fields, the stamp order is exactly the field order, and equal
/// stamps mean equal instants.
pub proof fn lemma_stamp_order(a: Instant, b: Instant)
    requires
        a.fields_ok(),
        b.fields_ok(),
    ensures
        a.stamp() < b.stamp() <==> lex_lt(a, b),
        a.stamp() == b.stamp() <==> a == b,
{
    if lex_lt(a, b) {
        lemma_stamp_lt(a, b);
    } else if lex_lt(b, a) {
        lemma_stamp_lt(b, a);
    } else {
        assert(a == b);
    }
}

/// A well-formed instant's stamp lies below the supported limit.
pub proof fn lemma_stamp_in_range(a: Instant)
    requires
        a.wf(),
    ensures
        0 <= a.stamp() < stamp_limit(),
{
    let lim = Instant { year: 10000, month: 1, day: 1, sec: 0 };
    lemma_stamp_lt(a, lim);
    lemma_day_number_in_year(a.year as int, a.month as int, a.day as int);
    lemma_dby_monotone(1, a.year as int);
}

/// Linear index of an instant's calendar month.
pub open spec fn month_index(i: Instant) -> int {
    i.year * 12 + i.month
}

/// Midnight of the first day of the month that follows `i`'s month.
pub open spec fn first_of_next_month_spec(i: Instant) -> Instant {
    if i.month >= 12 {
        Instant { year: (i.year + 1) as u16, month: 1, day: 1, sec: 0 }
    } else {
        Instant { year: i.year, month: (i.month + 1) as u8, day: 1, sec: 0 }
    }
}

/// December 31 of year 9999 is the last supported day, and no well-formed
/// instant's day lies beyond it.
proof fn lemma_max_day_number(a: Instant)
    requires
        a.wf(),
    ensures
        day_number(a.year as int, a.month as int, a.day as int) <= days_before_year(10000) - 1,
        day_number(a.year as int, a.month as int, a.day as int) == days_before_year(10000) - 1
            <==> (a.year == 9999 && a.month == 12 && a.day == 31),
        stamp_limit() == days_before_year(10000) * 86400,
{
    let (y, m, d) = (a.year as int, a.month as int, a.day as int);
    lemma_months_sum(9999);
    assert(days_before_month(9999, 13) == days_before_month(9999, 12) + days_in_month(9999, 12));
    assert(days_before_year(10000) == days_before_year(9999) + days_in_year(9999));
    assert(day_number(9999, 12, 31) == days_before_year(10000) - 1);
    lemma_day_number_in_year(y, m, d);
    assert(days_before_year(y) + days_in_year(y) == days_before_year(y + 1));
    lemma_dby_monotone(y + 1, 10000);
    if !(a.year == 9999 && a.month == 12 && a.day == 31) {
        let a0 = Instant { sec: 0, ..a };
        let b0 = Instant { year: 9999, month: 12, day: 31, sec: 0 };
        lemma_stamp_lt(a0, b0);
    }
}

/// Any well-formed instant before year 9999 keeps at least a non-leap
/// year's worth of seconds of headroom below the supported limit.
pub proof fn lemma_stamp_headroom(a: Instant)
    requires
        a.wf(),
        a.year < 9999,
    ensures
        a.stamp() + 31536000 <= stamp_limit(),
{
    let b = Instant { year: 9999, month: 1, day: 1, sec: 0 };
    lemma_stamp_lt(a, b);
    assert(days_before_year(10000) == days_before_year(9999) + days_in_year(9999));
    assert(!is_leap_year(9999));
}

impl Instant {
    /// Length in days of month `month` of year `year`.
    pub fn days_in_month_of(year: u16, month: u8) -> (r: u8)
        requires
            1 <= month <= 12,
        ensures
            r as int == days_in_month(year as int, month as int),
    {
        let leap = (year % 4 == 0 && year % 100 != 0) || year % 400 == 0;
        if month == 2 {
            if leap {
                29
            } else {
                28
            }
        } else if month == 4 || month == 6 || month == 9 || month == 11 {
            30
        } else {
            31
        }
    }

    /// Build the instant at midnight of the given calendar date; `None` when
    /// the fields do not name a date in the supported range.
    pub fn from_ymd(year: u16, month: u8, day: u8) -> (r: Option<Instant>)
        ensures
            r is Some <==> (1 <= year <= 9999 && 1 <= month <= 12 && 1 <= day
                && day as int <= days_in_month(year as int, month as int)),
            r matches Some(i) ==> i == (Instant { year, month, day, sec: 0 }) && i.wf(),
    {
        if 1 <= year && year <= 9999 && 1 <= month && month <= 12 && 1 <= day
            && day <= Self::days_in_month_of(year, month) {
            Some(Instant { year, month, day, sec: 0 })
        } else {
            None
        }
    }

    /// Strict order on instants: earlier in time.
    pub fn lt(&self, other: &Instant) -> (r: bool)
        requires
            self.fields_ok(),
            other.fields_ok(),
        ensures
            r == (self.stamp() < other.stamp()),
    {
        proof {
            lemma_stamp_order(*self, *other);
        }
        if self.year != other.year {
            self.year < other.year
        } else if self.month != other.month {
            self.month < other.month
        } else if self.day != other.day {
            self.day < other.day
        } else {
            self.sec < other.sec
        }
    }

    /// The instant one whole day (86400 seconds) later, keeping the time of day.
    pub fn next_day(&self) -> (r: Instant)
        requires
            self.wf(),
            self.stamp() + 86400 < stamp_limit(),
        ensures
            r.wf(),
            r.stamp() == self.stamp() + 86400,
            r.sec == self.sec,
    {
        proof {
            lemma_max_day_number(*self);
        }
        let dim = Self::days_in_month_of(self.year, self.month);
        if self.day < dim {
            Instant { day: self.day + 1, ..*self }
        } else if self.month < 12 {
            Instant { month: self.month + 1, day: 1, ..*self }
        } else {
            proof {
                lemma_months_sum(self.year as int);
                assert(days_before_month(self.year as int, 13) == days_before_month(
                    self.year as int,
                    12,
                ) + days_in_month(self.year as int, 12));
            }
            Instant { year: self.year + 1, month: 1, day: 1, sec: self.sec }
        }
    }

    /// The instant `n` seconds later.
    pub fn add_secs(&self, n: u64) -> (r: Instant)
        requires
            self.wf(),
            self.stamp() + n < stamp_limit(),
        ensures
            r.wf(),
            r.stamp() == self.stamp() + n,
    {
        let mut cur = *self;
        let mut remaining = n;
        while remaining >= 86400
            invariant
                cur.wf(),
                cur.stamp() + remaining == self.stamp() + n,
                self.stamp() + n < stamp_limit(),
            decreases remaining,
        {
            cur = cur.next_day();
            remaining = remaining - 86400;
        }
        let total = cur.sec as u64 + remaining;
        if total >= 86400 {
            proof {
                lemma_max_day_number(cur);
            }
            let date = cur.next_day();
            Instant { sec: (total - 86400) as u32, ..date }
        } else {
            Instant { sec: total as u32, ..cur }
        }
    }

    /// Midnight of the first day of the following calendar month.
    pub fn first_of_next_month(&self) -> (r: Instant)
        requires
            self.wf(),
        ensures
            r == first_of_next_month_spec(*self),
            r.fields_ok(),
            r.day == 1 && r.sec == 0,
            month_index(r) == month_index(*self) + 1,
            r.stamp() > self.stamp(),
    {
        let r = if self.month >= 12 {
            Instant { year: self.year + 1, month: 1, day: 1, sec: 0 }
        } else {
            Instant { year: self.year, month: self.month + 1, day: 1, sec: 0 }
        };
        proof {
            lemma_stamp_lt(*self, r);
        }
        r
    }

    /// Whole seconds from `self` to the later instant `other`.
    pub fn seconds_until(&self, other: &Instant) -> (d: u64)
        requires
            self.fields_ok(),
            other.fields_ok(),
            self.stamp() <= other.stamp(),
        ensures
            d == other.stamp() - self.stamp(),
    {
        let ds = self.day_number_of();
        let de = other.day_number_of();
        let a = (ds as i64) * 86400 + (self.sec as i64);
        let b = (de as i64) * 86400 + (other.sec as i64);
        (b - a) as u64
    }

    /// The day number of this instant's date.
    pub fn day_number_of(&self) -> (r: u64)
        requires
            self.fields_ok(),
        ensures
            r as int == day_number(self.year as int, self.month as int, self.day as int),
            r < 366 * (self.year as u64 + 1),
    {
        let mut acc: u64 = 0;
        let mut y: u16 = 1;
        while y < self.year
            invariant
                1 <= y <= self.year,
                acc as int == days_before_year(y as int),
                acc <= 366 * ((y - 1) as u64),
            decreases self.year as int - y as int,
        {
            let leap = (y % 4 == 0 && y % 100 != 0) || y % 400 == 0;
            acc = acc + if leap {
                366
            } else {
                365
            };
            y = y + 1;
        }
        let mut m: u8 = 1;
        while m < self.month
            invariant
                1 <= m <= self.month,
                self.fields_ok(),
                acc as int == days_before_year(self.year as int) + days_before_month(
                    self.year as int,
                    m as int,
                ),
                acc <= 366 * ((self.year - 1) as u64) + 31 * ((m - 1) as u64),
            decreases self.month as int - m as int,
        {
            acc = acc + Self::days_in_month_of(self.year, m) as u64;
            m = m + 1;
        }
        acc + (self.day - 1) as u64
    }
}

} // verus!
