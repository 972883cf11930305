use periods::instant::Instant;
use periods::periods::{merge_contiguous_periods, Period, ValidationError};

fn ymd(year: u16, month: u8, day: u8) -> Instant {
    Instant::from_ymd(year, month, day).unwrap()
}

#[test]
fn periods_shoud_not_intersect() {
    let p1 = Period::one_day(ymd(2023, 7, 14));
    let p2 = Period::one_day(ymd(2023, 7, 15));
    let p3 = Period::one_day(ymd(2023, 8, 15));

    assert!(!p1.intersect(&p2));
    assert!(!p1.intersect(&p3));
    assert!(!p2.intersect(&p1));
    assert!(!p3.intersect(&p2));
}

#[test]
fn periods_shoud_intersect() {
    let p1 = Period::new(ymd(2023, 7, 14), ymd(2023, 7, 20)).unwrap();
    let p2 = Period::new(ymd(2023, 7, 16), ymd(2023, 7, 18)).unwrap();
    let p3 = Period::new(ymd(2023, 7, 10), ymd(2023, 7, 16)).unwrap();

    assert!(p1.intersect(&p2));
    assert!(p1.intersect(&p3));
}

#[test]
fn duration_should_be_10() {
    let start = ymd(2023, 7, 11);
    let end = ymd(2023, 7, 21);

    let period = Period::new(start, end).expect("Cannot create period");
    let days: Vec<Period> = period.get_all_days();

    assert_eq!(days.len(), 10);
}

#[test]
fn period_should_be_one_day() {
    let period = Period::one_day(ymd(2023, 7, 14));
    let expected_start = ymd(2023, 7, 14);
    let expected_end = ymd(2023, 7, 15);

    assert_eq!(period.start, expected_start);
    assert_eq!(period.end, expected_end);
}

#[test]
fn test_get_all_days() {
    let start_datetime = ymd(2023, 7, 11);
    let end_datetime = ymd(2023, 7, 15);

    let period = Period::new(start_datetime, end_datetime).expect("Cannot create period");
    let days: Vec<Period> = period.get_all_days();

    assert_eq!(days.len(), 4);

    let expected_dates = vec![
        ymd(2023, 7, 11),
        ymd(2023, 7, 12),
        ymd(2023, 7, 13),
        ymd(2023, 7, 14),
        ymd(2023, 7, 15),
    ];

    for (i, day) in days.iter().enumerate() {
        assert_eq!(day.start, expected_dates[i]);
        assert_eq!(day.end, expected_dates[i + 1]);
    }
}

#[test]
fn test_get_all_hours() {
    let period = Period::one_day(ymd(2023, 7, 14));
    let hours: Vec<Period> = period.get_all_hours();

    assert_eq!(hours.len(), 24);

    let expected_start_secs = (0..24).map(|hour| hour * 3600).collect::<Vec<u32>>();

    for (i, hour) in hours.iter().enumerate() {
        assert_eq!(hour.start.sec, expected_start_secs[i]);
        let duration = hour.duration();
        assert_eq!(duration, 3600);
    }
}

#[test]
fn test_get_all_weeks() {
    let start_datetime = ymd(2023, 7, 1);
    let end_datetime = ymd(2023, 9, 1);

    let period = Period::new(start_datetime, end_datetime).expect("Cannot create period");
    let weeks: Vec<Period> = period.get_all_weeks();

    assert_eq!(weeks.len(), 8);

    assert_eq!(weeks[0].start, ymd(2023, 7, 1));
    assert_eq!(weeks[0].end, ymd(2023, 7, 8));

    assert_eq!(weeks[1].start, ymd(2023, 7, 8));
    assert_eq!(weeks[1].end, ymd(2023, 7, 15));

    assert_eq!(weeks[2].start, ymd(2023, 7, 15));
    assert_eq!(weeks[2].end, ymd(2023, 7, 22));

    assert_eq!(weeks[3].start, ymd(2023, 7, 22));
    assert_eq!(weeks[3].end, ymd(2023, 7, 29));

    assert_eq!(weeks[4].start, ymd(2023, 7, 29));
    assert_eq!(weeks[4].end, ymd(2023, 8, 5));

    assert_eq!(weeks[5].start, ymd(2023, 8, 5));
    assert_eq!(weeks[5].end, ymd(2023, 8, 12));

    assert_eq!(weeks[6].start, ymd(2023, 8, 12));
    assert_eq!(weeks[6].end, ymd(2023, 8, 19));

    // The six days from August 26 on do not fill a week and are dropped.
    assert_eq!(weeks[7].start, ymd(2023, 8, 19));
    assert_eq!(weeks[7].end, ymd(2023, 8, 26));
}

#[test]
fn test_get_all_months() {
    let start_datetime = ymd(2023, 1, 1);
    let end_datetime = ymd(2024, 1, 1);

    let period = Period::new(start_datetime, end_datetime).expect("Cannot create period");
    let months: Vec<Period> = period.get_all_months();

    assert_eq!(months.len(), 12);

    for i in 0..11 {
        let sm = (i + 1) as u8;
        let em = sm + 1;

        assert_eq!(months[i].start, ymd(2023, sm, 1));
        assert_eq!(months[i].end, ymd(2023, em, 1));
    }

    assert_eq!(months[11].start, ymd(2023, 12, 1));
    assert_eq!(months[11].end, ymd(2024, 1, 1));
}

#[test]
fn construct_succeeds_iff_start_before_end() {
    let a = ymd(2023, 7, 11);
    let b = ymd(2023, 7, 15);

    assert_eq!(Period::new(a, b), Ok(Period { start: a, end: b }));
    assert_eq!(Period::new(b, a), Err(ValidationError::InvalidRange));
    assert_eq!(Period::new(a, a), Err(ValidationError::InvalidRange));
}

#[test]
fn from_ymd_accepts_exactly_real_dates() {
    assert!(Instant::from_ymd(2023, 2, 28).is_some());
    assert!(Instant::from_ymd(2023, 2, 29).is_none());
    assert!(Instant::from_ymd(2024, 2, 29).is_some());
    assert!(Instant::from_ymd(1900, 2, 29).is_none());
    assert!(Instant::from_ymd(2000, 2, 29).is_some());
    assert!(Instant::from_ymd(2023, 13, 1).is_none());
    assert!(Instant::from_ymd(2023, 4, 31).is_none());
    assert!(Instant::from_ymd(2023, 0, 1).is_none());
    assert!(Instant::from_ymd(2023, 1, 0).is_none());
    assert!(Instant::from_ymd(0, 1, 1).is_none());
    assert!(Instant::from_ymd(9999, 12, 31).is_some());
    assert!(Instant::from_ymd(10000, 1, 1).is_none());
}

#[test]
fn duration_is_in_seconds() {
    let ten_days = Period::new(ymd(2023, 7, 11), ymd(2023, 7, 21)).unwrap();
    assert_eq!(ten_days.duration(), 10 * 86400);

    // Crosses February 29 of a leap year.
    let leap = Period::new(ymd(2024, 2, 28), ymd(2024, 3, 1)).unwrap();
    assert_eq!(leap.duration(), 2 * 86400);

    // Crosses a year boundary.
    let newyear = Period::new(ymd(2023, 12, 31), ymd(2024, 1, 2)).unwrap();
    assert_eq!(newyear.duration(), 2 * 86400);
}

#[test]
fn touching_periods_do_not_intersect_but_overlapping_do() {
    let a = Period::new(ymd(2023, 7, 10), ymd(2023, 7, 14)).unwrap();
    let b = Period::new(ymd(2023, 7, 14), ymd(2023, 7, 18)).unwrap();

    // Touching only: no intersection, in either order.
    assert!(!a.intersect(&b));
    assert!(!b.intersect(&a));

    // A shared day makes a non-empty overlap: intersection, both orders.
    let c = Period::new(ymd(2023, 7, 13), ymd(2023, 7, 18)).unwrap();
    assert!(a.intersect(&c));
    assert!(c.intersect(&a));

    // A nested period intersects too.
    let inner = Period::new(ymd(2023, 7, 11), ymd(2023, 7, 12)).unwrap();
    assert!(a.intersect(&inner));
    assert!(inner.intersect(&a));
}

#[test]
fn decompositions_are_adjacent_and_disjoint() {
    let period = Period::new(ymd(2023, 11, 15), ymd(2024, 2, 10)).unwrap();

    let days = period.get_all_days();
    for i in 0..days.len() - 1 {
        assert_eq!(days[i].end, days[i + 1].start);
        assert!(!days[i].intersect(&days[i + 1]));
    }

    let months = period.get_all_months();
    for i in 0..months.len() - 1 {
        assert_eq!(months[i].end, months[i + 1].start);
        assert!(!months[i].intersect(&months[i + 1]));
    }
}

#[test]
fn months_partial_tail_is_clipped() {
    let period = Period::new(ymd(2023, 7, 11), ymd(2023, 7, 15)).unwrap();
    let months = period.get_all_months();

    assert_eq!(months.len(), 1);
    assert_eq!(months[0].start, ymd(2023, 7, 11));
    assert_eq!(months[0].end, ymd(2023, 7, 15));
}

#[test]
fn months_clip_both_ends_and_roll_over_years() {
    let period = Period::new(ymd(2023, 11, 15), ymd(2024, 2, 10)).unwrap();
    let months = period.get_all_months();

    assert_eq!(months.len(), 4);
    assert_eq!(months[0], Period { start: ymd(2023, 11, 15), end: ymd(2023, 12, 1) });
    assert_eq!(months[1], Period { start: ymd(2023, 12, 1), end: ymd(2024, 1, 1) });
    assert_eq!(months[2], Period { start: ymd(2024, 1, 1), end: ymd(2024, 2, 1) });
    assert_eq!(months[3], Period { start: ymd(2024, 2, 1), end: ymd(2024, 2, 10) });
}

#[test]
fn months_leave_no_empty_tail_on_first_of_month_end() {
    let period = Period::new(ymd(2023, 7, 11), ymd(2023, 8, 1)).unwrap();
    let months = period.get_all_months();

    assert_eq!(months.len(), 1);
    assert_eq!(months[0], Period { start: ymd(2023, 7, 11), end: ymd(2023, 8, 1) });
}

#[test]
fn days_cover_a_leap_february() {
    let period = Period::new(ymd(2024, 2, 28), ymd(2024, 3, 2)).unwrap();
    let days = period.get_all_days();

    assert_eq!(days.len(), 3);
    assert_eq!(days[0], Period { start: ymd(2024, 2, 28), end: ymd(2024, 2, 29) });
    assert_eq!(days[1], Period { start: ymd(2024, 2, 29), end: ymd(2024, 3, 1) });
    assert_eq!(days[2], Period { start: ymd(2024, 3, 1), end: ymd(2024, 3, 2) });
}

#[test]
fn split_in_periods_emits_whole_steps_only() {
    // A 5-day period split in 2-day steps: only two whole steps fit; the
    // one-day remainder is dropped.
    let period = Period::new(ymd(2023, 7, 1), ymd(2023, 7, 6)).unwrap();
    let parts = period.split_in_periods(2 * 86400);

    assert_eq!(parts.len(), 2);
    assert_eq!(parts[0], Period { start: ymd(2023, 7, 1), end: ymd(2023, 7, 3) });
    assert_eq!(parts[1], Period { start: ymd(2023, 7, 3), end: ymd(2023, 7, 5) });
}

#[test]
fn days_drop_a_partial_trailing_day() {
    // The period ends at noon: the half day after July 15 is dropped.
    let start = ymd(2023, 7, 14);
    let end = Instant { year: 2023, month: 7, day: 15, sec: 12 * 3600 };
    let period = Period::new(start, end).unwrap();
    let days = period.get_all_days();

    assert_eq!(days.len(), 1);
    assert_eq!(days[0], Period { start: ymd(2023, 7, 14), end: ymd(2023, 7, 15) });
}

#[test]
fn split_yields_nothing_when_no_whole_step_fits() {
    // One second is shorter than a day: day decomposition yields nothing.
    let start = ymd(2023, 7, 14);
    let end = Instant { year: 2023, month: 7, day: 14, sec: 1 };
    let period = Period::new(start, end).unwrap();

    assert!(period.get_all_days().is_empty());
    assert!(period.split_in_periods(86400).is_empty());
    assert_eq!(period.get_all_hours().len(), 0);
}

#[test]
fn hours_roll_over_midnight() {
    let start = Instant { year: 2023, month: 7, day: 14, sec: 23 * 3600 };
    let end = Instant { year: 2023, month: 7, day: 15, sec: 3600 };
    let period = Period::new(start, end).unwrap();
    let hours = period.get_all_hours();

    assert_eq!(hours.len(), 2);
    assert_eq!(hours[0], Period { start, end: ymd(2023, 7, 15) });
    assert_eq!(hours[1], Period { start: ymd(2023, 7, 15), end });
    assert_eq!(hours[0].duration(), 3600);
    assert_eq!(hours[1].duration(), 3600);
}

#[test]
fn merge_contiguous_periods_joins_runs_and_keeps_gaps() {
    let merged = merge_contiguous_periods(vec![
        Period::new(ymd(2023, 7, 14), ymd(2023, 7, 20)).unwrap(),
        Period::new(ymd(2023, 7, 20), ymd(2023, 7, 24)).unwrap(),
        Period::new(ymd(2023, 7, 24), ymd(2023, 7, 26)).unwrap(),
        Period::new(ymd(2023, 7, 28), ymd(2023, 8, 10)).unwrap(),
    ]);

    assert_eq!(merged.len(), 2);
    assert_eq!(merged[0], Period { start: ymd(2023, 7, 14), end: ymd(2023, 7, 26) });
    assert_eq!(merged[1], Period { start: ymd(2023, 7, 28), end: ymd(2023, 8, 10) });
}

#[test]
fn merge_contiguous_periods_joins_overlaps_and_nested_periods() {
    let merged = merge_contiguous_periods(vec![
        Period::new(ymd(2023, 7, 1), ymd(2023, 7, 10)).unwrap(),
        Period::new(ymd(2023, 7, 2), ymd(2023, 7, 5)).unwrap(),
        Period::new(ymd(2023, 7, 8), ymd(2023, 7, 12)).unwrap(),
    ]);

    assert_eq!(merged.len(), 1);
    assert_eq!(merged[0], Period { start: ymd(2023, 7, 1), end: ymd(2023, 7, 12) });
}
