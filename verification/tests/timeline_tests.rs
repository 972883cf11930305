use periods::instant::Instant;
use periods::periods::{Period, PeriodValue};
use periods::timeline::{merge_contiguous_periods_values, Timeline};

fn ymd(year: u16, month: u8, day: u8) -> Instant {
    Instant::from_ymd(year, month, day).unwrap()
}

fn pv(start: Instant, end: Instant, value: i32) -> PeriodValue<i32> {
    PeriodValue { period: Period::new(start, end).unwrap(), value }
}

#[test]
fn merge_coalesces_a_touching_equal_value_run() {
    let d1 = ymd(2023, 7, 14);
    let d2 = ymd(2023, 7, 16);
    let d3 = ymd(2023, 7, 20);

    let merged = merge_contiguous_periods_values(vec![pv(d1, d2, 25), pv(d2, d3, 25)]);

    assert_eq!(merged, vec![pv(d1, d3, 25)]);
}

#[test]
fn merge_truncates_the_earlier_of_two_overlapping_elements() {
    let d1 = ymd(2023, 7, 1);
    let d3 = ymd(2023, 7, 5);
    let d4 = ymd(2023, 7, 10);
    let d5 = ymd(2023, 7, 15);

    let merged = merge_contiguous_periods_values(vec![pv(d1, d4, 30), pv(d3, d5, 30)]);

    assert_eq!(merged, vec![pv(d1, d3, 30), pv(d3, d5, 30)]);
}

#[test]
fn merge_truncates_overlap_between_different_values_too() {
    let d1 = ymd(2023, 7, 1);
    let d3 = ymd(2023, 7, 5);
    let d4 = ymd(2023, 7, 10);
    let d5 = ymd(2023, 7, 15);

    let merged = merge_contiguous_periods_values(vec![pv(d1, d4, 1), pv(d3, d5, 2)]);

    assert_eq!(merged, vec![pv(d1, d3, 1), pv(d3, d5, 2)]);
}

#[test]
fn merge_preserves_gaps() {
    let d1 = ymd(2023, 7, 1);
    let d2 = ymd(2023, 7, 5);
    let d3 = ymd(2023, 7, 10);
    let d4 = ymd(2023, 7, 15);

    let input = vec![pv(d1, d2, 7), pv(d3, d4, 7)];
    let merged = merge_contiguous_periods_values(input.clone());

    assert_eq!(merged, input);
}

#[test]
fn merge_keeps_touching_elements_with_different_values_apart() {
    let d1 = ymd(2023, 7, 1);
    let d2 = ymd(2023, 7, 5);
    let d3 = ymd(2023, 7, 10);

    let input = vec![pv(d1, d2, 23), pv(d2, d3, 25)];
    let merged = merge_contiguous_periods_values(input.clone());

    assert_eq!(merged, input);
}

#[test]
fn merge_coalesces_longer_runs_into_one_element() {
    let price_variation = vec![
        pv(ymd(2023, 7, 14), ymd(2023, 7, 15), 23),
        pv(ymd(2023, 7, 15), ymd(2023, 7, 16), 25),
        pv(ymd(2023, 7, 16), ymd(2023, 7, 20), 25),
        pv(ymd(2023, 7, 21), ymd(2023, 7, 28), 29),
        pv(ymd(2023, 7, 28), ymd(2023, 8, 12), 30),
        pv(ymd(2023, 8, 12), ymd(2023, 8, 31), 30),
        pv(ymd(2023, 9, 10), ymd(2023, 9, 30), 30),
    ];

    let merged = merge_contiguous_periods_values(price_variation);

    assert_eq!(
        merged,
        vec![
            pv(ymd(2023, 7, 14), ymd(2023, 7, 15), 23),
            pv(ymd(2023, 7, 15), ymd(2023, 7, 20), 25),
            pv(ymd(2023, 7, 21), ymd(2023, 7, 28), 29),
            pv(ymd(2023, 7, 28), ymd(2023, 8, 31), 30),
            pv(ymd(2023, 9, 10), ymd(2023, 9, 30), 30),
        ]
    );
}

#[test]
fn merge_is_idempotent_on_ordered_disjoint_input() {
    let input = vec![
        pv(ymd(2023, 7, 1), ymd(2023, 7, 5), 1),
        pv(ymd(2023, 7, 5), ymd(2023, 7, 9), 1),
        pv(ymd(2023, 7, 9), ymd(2023, 7, 12), 2),
        pv(ymd(2023, 8, 1), ymd(2023, 8, 3), 2),
    ];

    let once = merge_contiguous_periods_values(input);
    let twice = merge_contiguous_periods_values(once.clone());

    assert_eq!(twice, once);
}

#[test]
fn merge_of_empty_timeline_is_empty() {
    let merged = merge_contiguous_periods_values(Vec::<PeriodValue<i32>>::new());
    assert!(merged.is_empty());
}

#[test]
fn timeline_hands_out_its_elements_in_order() {
    let first = pv(ymd(2023, 7, 1), ymd(2023, 7, 5), 10);
    let second = pv(ymd(2023, 7, 5), ymd(2023, 7, 9), 20);

    let mut timeline = Timeline::new(vec![first, second]);

    assert_eq!(timeline.next(), Some(first));
    assert_eq!(timeline.next(), Some(second));
    assert_eq!(timeline.next(), None);
    assert_eq!(timeline.next(), None);
}
