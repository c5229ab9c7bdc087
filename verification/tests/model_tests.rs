use calen_do::date_util::Date;
use calen_do::user_data::{Activity, UserData};

fn date(year: u16, month: u8, day: u8) -> Date {
    Date { year, month, day }
}

fn named(name: &str) -> Activity {
    Activity {
        name: name.to_owned(),
        starting_date: date(2021, 1, 1),
        dates: vec![],
    }
}

fn names(data: &UserData) -> Vec<String> {
    data.activities.iter().map(|a| a.name.clone()).collect()
}

#[test]
fn test_new_default_holds_one_activity() {
    let today = date(2021, 6, 20);
    let data = UserData::new_default(today);
    assert_eq!(data.activities.len(), 1);
    assert_eq!(data.activities[0].name, "New Unnamed Activity");
    assert_eq!(data.activities[0].starting_date, today);
    assert!(data.activities[0].dates.is_empty());
}

#[test]
fn test_toggle_twice_restores_membership() {
    let mut activity = named("a");
    let day = date(2021, 6, 20);
    assert!(!activity.has_date(day));
    activity.toggle_date(day);
    assert!(activity.has_date(day));
    activity.toggle_date(day);
    assert!(!activity.has_date(day));
}

#[test]
fn test_toggle_twice_restores_membership_when_present() {
    let mut activity = named("a");
    let day = date(2021, 6, 20);
    let other = date(2021, 6, 21);
    activity.toggle_date(day);
    activity.toggle_date(other);
    activity.toggle_date(other);
    assert!(activity.has_date(day));
    assert!(!activity.has_date(other));
}

#[test]
fn test_insert_shifts_later_activities() {
    let mut data = UserData {
        activities: vec![named("a"), named("b"), named("c")],
    };
    data.insert_default_activity(1, date(2021, 6, 20));
    assert_eq!(names(&data), vec!["a", "New Unnamed Activity", "b", "c"]);
}

#[test]
fn test_remove_is_inverse_of_insert() {
    let mut data = UserData {
        activities: vec![named("a"), named("b"), named("c")],
    };
    data.insert_default_activity(1, date(2021, 6, 20));
    data.remove_activity(1);
    assert_eq!(names(&data), vec!["a", "b", "c"]);
}

#[test]
fn test_insert_at_end() {
    let mut data = UserData { activities: vec![named("a")] };
    data.insert_default_activity(1, date(2021, 6, 20));
    assert_eq!(names(&data), vec!["a", "New Unnamed Activity"]);
}

#[test]
fn test_remove_last_activity_is_refused() {
    let mut data = UserData { activities: vec![named("only")] };
    data.remove_activity(0);
    assert_eq!(names(&data), vec!["only"]);
}
