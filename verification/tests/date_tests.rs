use calen_do::date_util::{days_in_month, month_year_offset, Date};

#[test]
fn test_month_year_offset() {
    assert_eq!(month_year_offset(1, 2020, -1), (12, 2019));
    assert_eq!(month_year_offset(1, 2020, -2), (11, 2019));
    assert_eq!(month_year_offset(12, 2020, 1), (1, 2021));
    assert_eq!(month_year_offset(12, 2020, 2), (2, 2021));
    assert_eq!(month_year_offset(4, 2020, -10), (6, 2019));
    assert_eq!(month_year_offset(4, 2020, 0), (4, 2020));
}

#[test]
fn test_days_in_month_leap_year() {
    let expected = [31, 29, 31, 30, 31, 30, 31, 31, 30, 31, 30, 31];
    for month in 1..=12u8 {
        assert_eq!(days_in_month(2020, month), expected[(month - 1) as usize]);
    }
}

#[test]
fn test_days_in_month_non_leap_year() {
    let expected = [31, 28, 31, 30, 31, 30, 31, 31, 30, 31, 30, 31];
    for month in 1..=12u8 {
        assert_eq!(days_in_month(2021, month), expected[(month - 1) as usize]);
    }
}

#[test]
fn test_days_in_month_century_rules() {
    // A century year is a leap year only when divisible by 400.
    assert_eq!(days_in_month(2000, 2), 29);
    assert_eq!(days_in_month(1900, 2), 28);
    assert_eq!(days_in_month(2100, 2), 28);
}

#[test]
fn test_pred_crosses_month_and_year() {
    let first_of_march = Date { year: 2020, month: 3, day: 1 };
    assert_eq!(first_of_march.pred(), Date { year: 2020, month: 2, day: 29 });
    let new_year = Date { year: 2021, month: 1, day: 1 };
    assert_eq!(new_year.pred(), Date { year: 2020, month: 12, day: 31 });
    let mid_month = Date { year: 2021, month: 7, day: 15 };
    assert_eq!(mid_month.pred(), Date { year: 2021, month: 7, day: 14 });
}

#[test]
fn test_succ_crosses_month_and_year() {
    let leap_day = Date { year: 2020, month: 2, day: 29 };
    assert_eq!(leap_day.succ(), Date { year: 2020, month: 3, day: 1 });
    let new_years_eve = Date { year: 2020, month: 12, day: 31 };
    assert_eq!(new_years_eve.succ(), Date { year: 2021, month: 1, day: 1 });
    let non_leap_february = Date { year: 2021, month: 2, day: 28 };
    assert_eq!(non_leap_february.succ(), Date { year: 2021, month: 3, day: 1 });
}

#[test]
fn test_calendar_order() {
    let earlier = Date { year: 2020, month: 12, day: 31 };
    let later = Date { year: 2021, month: 1, day: 1 };
    assert!(earlier.le(later));
    assert!(!later.le(earlier));
    assert!(earlier.le(earlier));
}
