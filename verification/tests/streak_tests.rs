use calen_do::date_util::Date;
use calen_do::streak::{
    compute_n_activities_cache, find_current_streak, find_longest_streak, NActivitiesCache,
};
use calen_do::user_data::{Activity, UserData};

fn date(year: u16, month: u8, day: u8) -> Date {
    Date { year, month, day }
}

// The reference day used below, far from any month boundary.
fn d0() -> Date {
    date(2021, 6, 20)
}

fn days_before(n: u8) -> Date {
    date(2021, 6, 20 - n)
}

#[test]
fn test_current_streak_of_three() {
    let dates = vec![d0(), days_before(1), days_before(2)];
    assert_eq!(find_current_streak(&dates, d0()), 3);
}

#[test]
fn test_current_streak_zero_when_today_unmarked() {
    // A long run just before the reference day counts for nothing.
    let dates = vec![days_before(1), days_before(2), days_before(3), days_before(4)];
    assert_eq!(find_current_streak(&dates, d0()), 0);
}

#[test]
fn test_current_streak_stops_at_gap() {
    let dates = vec![d0(), days_before(1), days_before(3), days_before(4)];
    assert_eq!(find_current_streak(&dates, d0()), 2);
}

#[test]
fn test_current_streak_across_month_boundary() {
    let dates = vec![date(2020, 3, 1), date(2020, 2, 29), date(2020, 2, 28)];
    assert_eq!(find_current_streak(&dates, date(2020, 3, 1)), 3);
}

#[test]
fn test_longest_streak_two_tied_runs() {
    // Two runs of two days each: one closed by a gap, one ending on the
    // reference day.
    let start = days_before(5);
    let dates = vec![days_before(5), days_before(4), days_before(1), d0()];
    assert_eq!(find_longest_streak(start, &dates, d0()), 2);
}

#[test]
fn test_longest_streak_closed_by_gap() {
    let start = days_before(6);
    let dates = vec![days_before(5), days_before(4), days_before(3)];
    assert_eq!(find_longest_streak(start, &dates, d0()), 3);
}

#[test]
fn test_longest_streak_forced_close_at_current_date() {
    // The maximal run ends exactly on the reference day, with no gap after
    // it to close it; it must still be counted.
    let start = days_before(6);
    let dates = vec![days_before(5), days_before(4), days_before(2), days_before(1), d0()];
    assert_eq!(find_longest_streak(start, &dates, d0()), 3);
}

#[test]
fn test_longest_streak_clipped_at_start() {
    // Marked days before the starting date do not extend a run.
    let start = days_before(2);
    let dates = vec![days_before(4), days_before(3), days_before(2), days_before(1)];
    assert_eq!(find_longest_streak(start, &dates, d0()), 2);
}

#[test]
fn test_longest_streak_empty() {
    let dates: Vec<Date> = vec![];
    assert_eq!(find_longest_streak(days_before(5), &dates, d0()), 0);
}

#[test]
fn test_activity_count_cache() {
    let user_data = UserData {
        activities: vec![
            Activity {
                name: "a".to_owned(),
                starting_date: days_before(5),
                dates: vec![d0(), days_before(1)],
            },
            Activity {
                name: "b".to_owned(),
                starting_date: days_before(5),
                dates: vec![d0(), days_before(2)],
            },
        ],
    };
    let mut cache = NActivitiesCache::new();
    compute_n_activities_cache(&mut cache, &user_data);
    assert_eq!(cache.count(d0()), 2);
    assert_eq!(cache.count(days_before(1)), 1);
    assert_eq!(cache.count(days_before(2)), 1);
    assert_eq!(cache.count(days_before(3)), 0);
}

#[test]
fn test_streaks_over_cache_aggregate() {
    // In overview a day counts as marked when any activity marked it.
    let user_data = UserData {
        activities: vec![
            Activity {
                name: "a".to_owned(),
                starting_date: days_before(5),
                dates: vec![d0()],
            },
            Activity {
                name: "b".to_owned(),
                starting_date: days_before(5),
                dates: vec![days_before(1)],
            },
        ],
    };
    let mut cache = NActivitiesCache::new();
    compute_n_activities_cache(&mut cache, &user_data);
    assert_eq!(find_current_streak(&cache, d0()), 2);
    assert_eq!(find_longest_streak(days_before(5), &cache, d0()), 2);
}

#[test]
fn test_cache_is_rebuilt_from_scratch() {
    let one = UserData {
        activities: vec![Activity {
            name: "a".to_owned(),
            starting_date: days_before(5),
            dates: vec![d0()],
        }],
    };
    let other = UserData {
        activities: vec![Activity {
            name: "a".to_owned(),
            starting_date: days_before(5),
            dates: vec![days_before(1)],
        }],
    };
    let mut cache = NActivitiesCache::new();
    compute_n_activities_cache(&mut cache, &one);
    compute_n_activities_cache(&mut cache, &other);
    assert_eq!(cache.count(d0()), 0);
    assert_eq!(cache.count(days_before(1)), 1);
}
