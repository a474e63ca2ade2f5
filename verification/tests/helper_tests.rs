use pin_tracker::helper::{average, more_resent_date, percent_to_analog};

#[test]
fn test_percent_to_analog() {
    assert_eq!(percent_to_analog(100), 1023);
    assert_eq!(percent_to_analog(200), 1023);
    assert_eq!(percent_to_analog(0), 0);
    assert_eq!(percent_to_analog(50), 511);
}

#[test]
fn test_average() {
    assert_eq!(average(&vec![2, 3, 7]), 4);
    assert_eq!(average(&vec![0]), 0);
    let vec: Vec<i64> = Vec::new();
    assert_eq!(average(&vec), 0);
    // 3.35 and 1.45 degrees in fixed-point thousandths average to 2.4 degrees.
    assert_eq!(average(&vec![3350, 1450]), 2400);
}

#[test]
fn test_average_truncates_toward_zero() {
    assert_eq!(average(&vec![7, 2]), 4);
    assert_eq!(average(&vec![-7, -2]), -4);
    assert_eq!(average(&vec![-3, -4]), -3);
}

#[test]
fn test_more_recent_date() {
    let now: i64 = 1_700_000_000_000;
    let dt1 = Some(now);
    let dt2 = Some(now + 3_000);
    let dt3 = Some(now - 3_000);
    let dt4 = None;
    assert_eq!(more_resent_date(dt1, dt2), dt2);
    assert_eq!(more_resent_date(dt2, dt1), dt2);
    assert_eq!(more_resent_date(dt1, dt3), dt1);
    assert_eq!(more_resent_date(dt2, dt3), dt2);
    assert_eq!(more_resent_date(dt1, dt4), dt1);
    assert_eq!(more_resent_date(dt2, dt4), dt2);
    assert_eq!(more_resent_date(dt3, dt4), dt3);
    assert_eq!(more_resent_date(dt4, dt4), dt4);
    assert_eq!(more_resent_date(dt4, dt1), dt1);
}
