//! Half-open periods over instants: construction and validation, duration,
//! strict-overlap tests, and decomposition into calendar-aligned sub-periods.

use vstd::prelude::*;

use crate::instant::{
    first_of_next_month_spec, lemma_stamp_in_range, lemma_stamp_lt, stamp_limit, Instant,
};

verus! {

/// Why a period could not be constructed.
#[derive(Copy, Clone, Debug, PartialEq, Eq, Structural)]
pub enum ValidationError {
    /// The requested end does not lie strictly after the requested start.
    InvalidRange,
}

/// A half-open time interval `[start, end)`: `start` is included, `end` is
/// excluded. A well-formed period is never empty (`start` lies strictly
/// before `end`), so two periods whose boundaries meet are contiguous with
/// no gap and no overlap.
#[derive(Copy, Clone, Debug, PartialEq, Eq, Structural)]
pub struct Period {
    /// First instant inside the period.
    pub start: Instant,
    /// First instant after the period.
    pub end: Instant,
}

/// A value that holds during a period: the unit of a timeline.
#[derive(Copy, Clone, Debug, PartialEq, Eq)]
pub struct PeriodValue<T> {
    /// When the value holds.
    pub period: Period,
    /// The value that holds then.
    pub value: T,
}

impl Period {
    /// Well-formed: both boundaries are real instants and the interval is
    /// non-empty.
    pub open spec fn wf(self) -> bool {
        self.start.wf() && self.end.wf() && self.start.stamp() < self.end.stamp()
    }

    /// A stamp lies inside the half-open interval.
    pub open spec fn contains(self, t: int) -> bool {
        self.start.stamp() <= t < self.end.stamp()
    }

    /// Strict-overlap relation: the two intervals share at least one instant.
    /// Periods that only touch (`self.end == other.start`) do not intersect.
    pub open spec fn intersects_spec(self, other: Period) -> bool {
        self.start.stamp() < other.end.stamp() && self.end.stamp() > other.start.stamp()
    }

    /// Build the period `[start, end)`; fails with `InvalidRange` exactly
    /// when `end` does not lie strictly after `start`.
    pub fn new(start: Instant, end: Instant) -> (r: Result<Period, ValidationError>)
        requires
            start.wf(),
            end.wf(),
        ensures
            r is Ok <==> start.stamp() < end.stamp(),
            r matches Ok(p) ==> p == (Period { start, end }) && p.wf(),
            r matches Err(e) ==> e == ValidationError::InvalidRange,
    {
        if start.lt(&end) {
            Ok(Period { start, end })
        } else {
            Err(ValidationError::InvalidRange)
        }
    }

    /// The one-day period starting at midnight of the given date.
    pub fn one_day(date: Instant) -> (r: Period)
        requires
            date.wf(),
            date.sec == 0,
            date.stamp() + 86400 < stamp_limit(),
        ensures
            r.wf(),
            r.start == date,
            r.end.stamp() == date.stamp() + 86400,
            r.end.sec == 0,
    {
        Period { start: date, end: date.next_day() }
    }

    /// Length of the period in seconds.
    pub fn duration(&self) -> (d: i64)
        requires
            self.start.fields_ok(),
            self.end.fields_ok(),
        ensures
            d == self.end.stamp() - self.start.stamp(),
    {
        let ds = self.start.day_number_of();
        let de = self.end.day_number_of();
        (de as i64) * 86400 + (self.end.sec as i64) - (ds as i64) * 86400 - (
        self.start.sec as i64)
    }

    /// Strict-overlap test: true exactly when the two periods share an
    /// instant. Touching periods do not intersect.
    pub fn intersect(&self, other: &Period) -> (r: bool)
        requires
            self.start.fields_ok(),
            self.end.fields_ok(),
            other.start.fields_ok(),
            other.end.fields_ok(),
        ensures
            r == self.intersects_spec(*other),
    {
        self.start.lt(&other.end) && other.start.lt(&self.end)
    }
}

impl Period {
    /// Split the period into consecutive whole sub-periods of `step` seconds
    /// each: `[start, start+step)`, `[start+step, start+2*step)`, and so on,
    /// for as long as a whole step still fits inside the period. A trailing
    /// remainder shorter than `step` is silently dropped, so no sub-period
    /// reaches past `end`, and a period shorter than `step` yields nothing.
    pub fn split_in_periods(&self, step: u64) -> (r: Vec<Period>)
        requires
            self.wf(),
            step >= 1,
        ensures
            forall|i: int| 0 <= i < r@.len() ==> (#[trigger] r@[i]).wf(),
            forall|i: int|
                0 <= i < r@.len() ==> (#[trigger] r@[i]).end.stamp() == r@[i].start.stamp()
                    + step,
            forall|i: int|
                0 <= i < r@.len() ==> (#[trigger] r@[i]).start.stamp() == self.start.stamp() + i
                    * step,
            forall|i: int| 0 <= i < r@.len() - 1 ==> (#[trigger] r@[i]).end == r@[i + 1].start,
            forall|i: int| 0 <= i < r@.len() ==> (#[trigger] r@[i]).end.stamp()
                <= self.end.stamp(),
            r@.len() >= 1 ==> r@[0].start == self.start,
            self.start.stamp() + r@.len() * step <= self.end.stamp(),
            self.end.stamp() < self.start.stamp() + (r@.len() + 1) * step,
            forall|i: int, j: int|
                0 <= i < j < r@.len() ==> !(#[trigger] r@[i]).intersects_spec(#[trigger] r@[j]),
    {
        let mut r: Vec<Period> = Vec::new();
        let mut cur: Instant = self.start;
        loop
            invariant
                self.wf(),
                step >= 1,
                cur.wf(),
                cur.stamp() <= self.end.stamp(),
                cur.stamp() == self.start.stamp() + r@.len() * step,
                r@.len() == 0 ==> cur == self.start,
                r@.len() >= 1 ==> r@[0].start == self.start,
                r@.len() >= 1 ==> r@[r@.len() - 1].end == cur,
                forall|i: int| 0 <= i < r@.len() ==> (#[trigger] r@[i]).wf(),
                forall|i: int|
                    0 <= i < r@.len() ==> (#[trigger] r@[i]).end.stamp() == r@[i].start.stamp()
                        + step,
                forall|i: int|
                    0 <= i < r@.len() ==> (#[trigger] r@[i]).start.stamp() == self.start.stamp()
                        + i * step,
                forall|i: int| 0 <= i < r@.len() - 1 ==> (#[trigger] r@[i]).end == r@[i + 1].start,
                forall|i: int| 0 <= i < r@.len() ==> (#[trigger] r@[i]).end.stamp()
                    <= cur.stamp(),
                forall|i: int, j: int|
                    0 <= i < j < r@.len() ==> (#[trigger] r@[i]).end.stamp() <= (
                    #[trigger] r@[j]).start.stamp(),
            ensures
                self.end.stamp() - cur.stamp() < step,
                cur.stamp() == self.start.stamp() + r@.len() * step,
            decreases self.end.stamp() - cur.stamp(),
        {
            let remaining = cur.seconds_until(&self.end);
            if remaining < step {
                break ;
            }
            proof {
                lemma_stamp_in_range(self.end);
            }
            let next = cur.add_secs(step);
            r.push(Period { start: cur, end: next });
            proof {
                assert((r@.len() - 1) * step + step == r@.len() * step) by (nonlinear_arith);
            }
            cur = next;
        }
        proof {
            assert(r@.len() * step + step == (r@.len() + 1) * step) by (nonlinear_arith);
        }
        r
    }

    /// Split the period into whole one-day sub-periods; a trailing remainder
    /// shorter than a day is dropped.
    pub fn get_all_days(&self) -> (r: Vec<Period>)
        requires
            self.wf(),
        ensures
            forall|i: int| 0 <= i < r@.len() ==> (#[trigger] r@[i]).wf(),
            forall|i: int|
                0 <= i < r@.len() ==> (#[trigger] r@[i]).end.stamp() == r@[i].start.stamp()
                    + 86400,
            forall|i: int|
                0 <= i < r@.len() ==> (#[trigger] r@[i]).start.stamp() == self.start.stamp() + i
                    * 86400,
            forall|i: int| 0 <= i < r@.len() - 1 ==> (#[trigger] r@[i]).end == r@[i + 1].start,
            forall|i: int| 0 <= i < r@.len() ==> (#[trigger] r@[i]).end.stamp()
                <= self.end.stamp(),
            r@.len() >= 1 ==> r@[0].start == self.start,
            self.start.stamp() + r@.len() * 86400 <= self.end.stamp(),
            self.end.stamp() < self.start.stamp() + (r@.len() + 1) * 86400,
            forall|i: int, j: int|
                0 <= i < j < r@.len() ==> !(#[trigger] r@[i]).intersects_spec(#[trigger] r@[j]),
    {
        self.split_in_periods(86400)
    }

    /// Split the period into whole one-hour sub-periods; a trailing
    /// remainder shorter than an hour is dropped.
    pub fn get_all_hours(&self) -> (r: Vec<Period>)
        requires
            self.wf(),
        ensures
            forall|i: int| 0 <= i < r@.len() ==> (#[trigger] r@[i]).wf(),
            forall|i: int|
                0 <= i < r@.len() ==> (#[trigger] r@[i]).end.stamp() == r@[i].start.stamp()
                    + 3600,
            forall|i: int|
                0 <= i < r@.len() ==> (#[trigger] r@[i]).start.stamp() == self.start.stamp() + i
                    * 3600,
            forall|i: int| 0 <= i < r@.len() - 1 ==> (#[trigger] r@[i]).end == r@[i + 1].start,
            forall|i: int| 0 <= i < r@.len() ==> (#[trigger] r@[i]).end.stamp()
                <= self.end.stamp(),
            r@.len() >= 1 ==> r@[0].start == self.start,
            self.start.stamp() + r@.len() * 3600 <= self.end.stamp(),
            self.end.stamp() < self.start.stamp() + (r@.len() + 1) * 3600,
            forall|i: int, j: int|
                0 <= i < j < r@.len() ==> !(#[trigger] r@[i]).intersects_spec(#[trigger] r@[j]),
    {
        self.split_in_periods(3600)
    }

    /// Split the period into whole one-week sub-periods; a trailing
    /// remainder shorter than a week is dropped.
    pub fn get_all_weeks(&self) -> (r: Vec<Period>)
        requires
            self.wf(),
        ensures
            forall|i: int| 0 <= i < r@.len() ==> (#[trigger] r@[i]).wf(),
            forall|i: int|
                0 <= i < r@.len() ==> (#[trigger] r@[i]).end.stamp() == r@[i].start.stamp()
                    + 604800,
            forall|i: int|
                0 <= i < r@.len() ==> (#[trigger] r@[i]).start.stamp() == self.start.stamp() + i
                    * 604800,
            forall|i: int| 0 <= i < r@.len() - 1 ==> (#[trigger] r@[i]).end == r@[i + 1].start,
            forall|i: int| 0 <= i < r@.len() ==> (#[trigger] r@[i]).end.stamp()
                <= self.end.stamp(),
            r@.len() >= 1 ==> r@[0].start == self.start,
            self.start.stamp() + r@.len() * 604800 <= self.end.stamp(),
            self.end.stamp() < self.start.stamp() + (r@.len() + 1) * 604800,
            forall|i: int, j: int|
                0 <= i < j < r@.len() ==> !(#[trigger] r@[i]).intersects_spec(#[trigger] r@[j]),
    {
        self.split_in_periods(604800)
    }

    /// Split the period into calendar-month sub-periods, clipped to the
    /// period's bounds. The first sub-period starts at `start` itself (even
    /// mid-month), every later one starts at the first midnight of the next
    /// calendar month, and the last one ends at `end` (a partial final month
    /// is clipped, never extended; an `end` exactly on a month's first
    /// midnight leaves no empty tail).
    pub fn get_all_months(&self) -> (r: Vec<Period>)
        requires
            self.wf(),
        ensures
            r@.len() >= 1,
            r@[0].start == self.start,
            r@[r@.len() - 1].end == self.end,
            forall|i: int| 0 <= i < r@.len() ==> (#[trigger] r@[i]).wf(),
            forall|i: int|
                0 <= i < r@.len() - 1 ==> (#[trigger] r@[i]).end == first_of_next_month_spec(
                    r@[i].start,
                ),
            forall|i: int| 0 <= i < r@.len() - 1 ==> (#[trigger] r@[i]).end == r@[i + 1].start,
            forall|i: int|
                1 <= i < r@.len() ==> (#[trigger] r@[i]).start.day == 1 && r@[i].start.sec == 0,
            forall|i: int| 0 <= i < r@.len() ==> (#[trigger] r@[i]).start.stamp()
                < self.end.stamp(),
            first_of_next_month_spec(r@[r@.len() - 1].start).stamp() >= self.end.stamp(),
            forall|i: int, j: int|
                0 <= i < j < r@.len() ==> !(#[trigger] r@[i]).intersects_spec(#[trigger] r@[j]),
    {
        let mut r: Vec<Period> = Vec::new();
        let mut cur: Instant = self.start;
        loop
            invariant
                self.wf(),
                cur.wf(),
                cur.stamp() < self.end.stamp(),
                r@.len() == 0 ==> cur == self.start,
                r@.len() >= 1 ==> r@[0].start == self.start,
                r@.len() >= 1 ==> r@[r@.len() - 1].end == cur && cur.day == 1 && cur.sec == 0,
                forall|i: int| 0 <= i < r@.len() ==> (#[trigger] r@[i]).wf(),
                forall|i: int|
                    0 <= i < r@.len() ==> (#[trigger] r@[i]).end == first_of_next_month_spec(
                        r@[i].start,
                    ),
                forall|i: int| 0 <= i < r@.len() - 1 ==> (#[trigger] r@[i]).end == r@[i + 1].start,
                forall|i: int|
                    1 <= i < r@.len() ==> (#[trigger] r@[i]).start.day == 1 && r@[i].start.sec
                        == 0,
                forall|i: int| 0 <= i < r@.len() ==> (#[trigger] r@[i]).start.stamp()
                    < self.end.stamp(),
                forall|i: int| 0 <= i < r@.len() ==> (#[trigger] r@[i]).end.stamp()
                    <= cur.stamp(),
                forall|i: int, j: int|
                    0 <= i < j < r@.len() ==> (#[trigger] r@[i]).end.stamp() <= (
                    #[trigger] r@[j]).start.stamp(),
            ensures
                first_of_next_month_spec(cur).stamp() >= self.end.stamp(),
            decreases self.end.stamp() - cur.stamp(),
        {
            let next_first = cur.first_of_next_month();
            if !next_first.lt(&self.end) {
                break ;
            }
            proof {
                if next_first.year > 9999 {
                    lemma_stamp_lt(self.end, next_first);
                }
            }
            r.push(Period { start: cur, end: next_first });
            cur = next_first;
        }
        r.push(Period { start: cur, end: self.end });
        r
    }
}

/// One step of the plain-period merge: absorb into `acc` every following
/// period that touches or overlaps it; the joined period reaches to the
/// later of the two ends. Returns the joined period and what is left.
pub open spec fn absorb_periods(acc: Period, rest: Seq<Period>) -> (Period, Seq<Period>)
    decreases rest.len(),
{
    if rest.len() == 0 {
        (acc, rest)
    } else if rest[0].start.stamp() <= acc.end.stamp() {
        let joined = Period {
            start: acc.start,
            end: if rest[0].end.stamp() > acc.end.stamp() {
                rest[0].end
            } else {
                acc.end
            },
        };
        absorb_periods(joined, rest.drop_first())
    } else {
        (acc, rest)
    }
}

/// What remains after an absorb step is never longer than what went in.
proof fn lemma_absorb_periods_len(acc: Period, rest: Seq<Period>)
    ensures
        absorb_periods(acc, rest).1.len() <= rest.len(),
    decreases rest.len(),
{
    if rest.len() > 0 && rest[0].start.stamp() <= acc.end.stamp() {
        let joined = Period {
            start: acc.start,
            end: if rest[0].end.stamp() > acc.end.stamp() {
                rest[0].end
            } else {
                acc.end
            },
        };
        lemma_absorb_periods_len(joined, rest.drop_first());
    }
}

/// The merged form of a period sequence ordered by non-decreasing start:
/// every maximal run of touching or overlapping periods becomes a single
/// period, and gaps are preserved.
pub open spec fn merge_periods_spec(s: Seq<Period>) -> Seq<Period>
    decreases s.len() via merge_periods_spec_decreases
{
    if s.len() == 0 {
        Seq::empty()
    } else {
        let (acc, rest) = absorb_periods(s[0], s.drop_first());
        seq![acc] + merge_periods_spec(rest)
    }
}

#[via_fn]
proof fn merge_periods_spec_decreases(s: Seq<Period>) {
    if s.len() > 0 {
        lemma_absorb_periods_len(s[0], s.drop_first());
    }
}

/// Merge an ordered sequence of periods into the minimal equivalent one:
/// every run of periods that touch or overlap is joined into one period,
/// while gaps between runs are preserved.
pub fn merge_contiguous_periods(input: Vec<Period>) -> (r: Vec<Period>)
    requires
        forall|i: int|
            0 <= i < input@.len() ==> (#[trigger] input@[i]).start.fields_ok()
                && input@[i].end.fields_ok(),
    ensures
        r@ == merge_periods_spec(input@),
{
    let n = input.len();
    let mut out: Vec<Period> = Vec::new();
    let mut i: usize = 0;
    proof {
        assert(input@.skip(0) =~= input@);
        assert(Seq::<Period>::empty() + merge_periods_spec(input@) =~= merge_periods_spec(
            input@,
        ));
    }
    while i < n
        invariant
            i <= n,
            n == input@.len(),
            forall|k: int|
                0 <= k < input@.len() ==> (#[trigger] input@[k]).start.fields_ok()
                    && input@[k].end.fields_ok(),
            out@ + merge_periods_spec(input@.skip(i as int)) == merge_periods_spec(input@),
        decreases n - i,
    {
        let ghost i0 = i as int;
        let mut acc = input[i];
        let mut j: usize = i + 1;
        loop
            invariant
                i0 + 1 <= j <= n,
                n == input@.len(),
                forall|k: int|
                    0 <= k < input@.len() ==> (#[trigger] input@[k]).start.fields_ok()
                        && input@[k].end.fields_ok(),
                acc.start.fields_ok(),
                acc.end.fields_ok(),
                absorb_periods(input@[i0], input@.skip(i0 + 1)) == absorb_periods(
                    acc,
                    input@.skip(j as int),
                ),
            ensures
                i0 + 1 <= j <= n,
                absorb_periods(input@[i0], input@.skip(i0 + 1)).0 == acc,
                absorb_periods(input@[i0], input@.skip(i0 + 1)).1 == input@.skip(j as int),
            decreases n - j,
        {
            if j == n {
                proof {
                    assert(input@.skip(j as int) =~= Seq::<Period>::empty());
                }
                break ;
            }
            let nxt = input[j];
            if !acc.end.lt(&nxt.start) {
                proof {
                    assert(input@.skip(j as int).drop_first() =~= input@.skip(j as int + 1));
                }
                let new_end = if acc.end.lt(&nxt.end) {
                    nxt.end
                } else {
                    acc.end
                };
                acc = Period { start: acc.start, end: new_end };
                j = j + 1;
            } else {
                break ;
            }
        }
        proof {
            assert(input@.skip(i0).drop_first() =~= input@.skip(i0 + 1));
            assert(input@.skip(i0)[0] == input@[i0]);
            assert(out@.push(acc) + merge_periods_spec(input@.skip(j as int))
                =~= out@ + (seq![acc] + merge_periods_spec(input@.skip(j as int))));
        }
        out.push(acc);
        i = j;
    }
    proof {
        assert(input@.skip(n as int) =~= Seq::<Period>::empty());
        assert(out@ + merge_periods_spec(Seq::<Period>::empty()) =~= out@);
    }
    out
}

/// Intersection is symmetric: `a` intersects `b` exactly when `b`
/// intersects `a`.
pub proof fn lemma_intersect_symmetric(a: Period, b: Period)
    ensures
        a.intersects_spec(b) == b.intersects_spec(a),
{
}

/// Periods that only touch — one's end is the other's start — do not
/// intersect, in either order.
pub proof fn lemma_touching_periods_do_not_intersect(a: Period, b: Period)
    requires
        a.end.stamp() == b.start.stamp(),
    ensures
        !a.intersects_spec(b),
        !b.intersects_spec(a),
{
}

/// Two non-empty periods intersect exactly when some instant lies in both:
/// the strict-overlap test recognises every non-empty overlap.
pub proof fn lemma_intersect_iff_shared_instant(a: Period, b: Period)
    requires
        a.start.stamp() < a.end.stamp(),
        b.start.stamp() < b.end.stamp(),
    ensures
        a.intersects_spec(b) <==> exists|t: int| a.contains(t) && b.contains(t),
{
    if a.intersects_spec(b) {
        let t = if a.start.stamp() >= b.start.stamp() {
            a.start.stamp()
        } else {
            b.start.stamp()
        };
        assert(a.contains(t) && b.contains(t));
    }
}

} // verus!
