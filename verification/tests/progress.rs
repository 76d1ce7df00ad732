use arnis::progress::{
    is_report_due, percentage_of, ElementProgress, ELEMENTS_SHARE, ELEMENTS_START, FINISH_START,
    GROUND_SHARE, GROUND_START, SAVE_SHARE, SAVE_START,
};

#[test]
fn percentages_are_those_of_the_machine() {
    for total in [1u64, 3, 7, 80, 999_983, u64::MAX] {
        for done in [0, 1, total / 3, total / 2, total] {
            let expected = 25.0 + (done as f64 / total as f64) * 45.0;
            let found = percentage_of(ELEMENTS_START, ELEMENTS_SHARE, done, total);
            assert_eq!(f64::from_bits(found), expected);
        }
    }
}

#[test]
fn stages_meet() {
    for total in [1, 3, 7, 1_000_003] {
        assert_eq!(percentage_of(ELEMENTS_START, ELEMENTS_SHARE, total, total), GROUND_START);
        assert_eq!(percentage_of(GROUND_START, GROUND_SHARE, total, total), SAVE_START);
        assert_eq!(percentage_of(SAVE_START, SAVE_SHARE, total, total), FINISH_START);
    }
    assert_eq!(f64::from_bits(FINISH_START), 99.0);
}

#[test]
fn percentages_do_not_fall() {
    let mut last = 25.0;
    for done in 0..=1009 {
        let percent = f64::from_bits(percentage_of(ELEMENTS_START, ELEMENTS_SHARE, done, 1009));
        assert!(percent >= last);
        last = percent;
    }
}

#[test]
fn reports_are_due_at_intervals_and_at_the_end() {
    let due: Vec<u64> = (1..=33).filter(|done| is_report_due(*done, 33, 10)).collect();
    assert_eq!(due, vec![3, 6, 9, 12, 15, 18, 21, 24, 27, 30, 33]);
    assert!((1..=5).all(|done| is_report_due(done, 5, 10)));
}

#[test]
fn elements_are_shown_when_enough_has_changed() {
    let mut progress = ElementProgress::new(1000);
    let mut shown = 25.0;
    for done in 1..=1000u64 {
        let percent = 25.0 + (done as f64 / 1000.0) * 45.0;
        let expected: Option<f64> = if (percent - shown as f64).abs() > 0.25 {
            shown = percent;
            Some(percent)
        } else {
            None
        };
        assert_eq!(progress.advance(1).map(f64::from_bits), expected);
    }
}

#[test]
fn elements_are_counted_by_batches() {
    let mut progress = ElementProgress::new(10);
    assert_eq!(progress.advance(4).map(f64::from_bits), Some(43.0));
    assert_eq!(progress.advance(6).map(f64::from_bits), Some(70.0));
}
