use calen_do::date_util::Date;
use calen_do::ui::{Id, InteractMode, UiState};
use calen_do::user_data::{Activity, UserData};

fn date(year: u16, month: u8, day: u8) -> Date {
    Date { year, month, day }
}

fn today() -> Date {
    date(2021, 6, 20)
}

fn two_activities() -> UserData {
    UserData {
        activities: vec![
            Activity {
                name: "a".to_owned(),
                starting_date: date(2021, 6, 15),
                dates: vec![],
            },
            Activity {
                name: "b".to_owned(),
                starting_date: date(2021, 6, 10),
                dates: vec![],
            },
        ],
    }
}

#[test]
fn test_add_activity_follows_current() {
    let mut ui = UiState::new();
    let mut data = two_activities();
    ui.handle_button(&mut data, Id::AddActivity, today());
    assert_eq!(data.activities.len(), 3);
    assert_eq!(data.activities[1].name, "New Unnamed Activity");
    assert_eq!(ui.current_activity, 1);
}

#[test]
fn test_remove_activity_steps_back() {
    let mut ui = UiState::new();
    let mut data = two_activities();
    ui.handle_button(&mut data, Id::NextActivity, today());
    assert_eq!(ui.current_activity, 1);
    ui.handle_button(&mut data, Id::RemActivity, today());
    assert_eq!(data.activities.len(), 1);
    assert_eq!(data.activities[0].name, "a");
    assert_eq!(ui.current_activity, 0);
}

#[test]
fn test_remove_keeps_last_activity() {
    let mut ui = UiState::new();
    let mut data = UserData {
        activities: vec![Activity {
            name: "only".to_owned(),
            starting_date: today(),
            dates: vec![],
        }],
    };
    ui.handle_button(&mut data, Id::RemActivity, today());
    assert_eq!(data.activities.len(), 1);
}

#[test]
fn test_prev_next_stay_in_range() {
    let mut ui = UiState::new();
    let mut data = two_activities();
    ui.handle_button(&mut data, Id::PrevActivity, today());
    assert_eq!(ui.current_activity, 0);
    ui.handle_button(&mut data, Id::NextActivity, today());
    ui.handle_button(&mut data, Id::NextActivity, today());
    assert_eq!(ui.current_activity, 1);
}

#[test]
fn test_toggles_and_modes() {
    let mut ui = UiState::new();
    let mut data = two_activities();
    ui.handle_button(&mut data, Id::Overview, today());
    assert!(ui.overview);
    ui.handle_button(&mut data, Id::EditMode, today());
    assert!(ui.edit_mode);
    ui.handle_button(&mut data, Id::CurrentActivity, today());
    assert!(matches!(ui.imode, InteractMode::ActivityRename));
}

#[test]
fn test_starting_date_select_cancels_on_same_button() {
    let mut ui = UiState::new();
    let mut data = two_activities();
    ui.handle_button(&mut data, Id::SetStartingDate, today());
    assert!(matches!(ui.imode, InteractMode::StartingDateSelect));
    // Any other button does nothing while selecting.
    ui.handle_button(&mut data, Id::Overview, today());
    assert!(matches!(ui.imode, InteractMode::StartingDateSelect));
    assert!(!ui.overview);
    ui.handle_button(&mut data, Id::SetStartingDate, today());
    assert!(matches!(ui.imode, InteractMode::Normal));
}

#[test]
fn test_day_click_sets_starting_date() {
    let mut ui = UiState::new();
    let mut data = two_activities();
    ui.handle_button(&mut data, Id::SetStartingDate, today());
    ui.handle_day_click(&mut data, date(2021, 6, 1), today());
    assert_eq!(data.activities[0].starting_date, date(2021, 6, 1));
    assert!(matches!(ui.imode, InteractMode::Normal));
}

#[test]
fn test_day_click_toggles_today_and_yesterday_only() {
    let mut ui = UiState::new();
    let mut data = two_activities();
    ui.handle_day_click(&mut data, today(), today());
    ui.handle_day_click(&mut data, date(2021, 6, 19), today());
    ui.handle_day_click(&mut data, date(2021, 6, 18), today());
    assert!(data.activities[0].has_date(today()));
    assert!(data.activities[0].has_date(date(2021, 6, 19)));
    assert!(!data.activities[0].has_date(date(2021, 6, 18)));
}

#[test]
fn test_day_click_in_edit_mode_toggles_any_day() {
    let mut ui = UiState::new();
    let mut data = two_activities();
    ui.handle_button(&mut data, Id::EditMode, today());
    ui.handle_day_click(&mut data, date(2021, 1, 2), today());
    assert!(data.activities[0].has_date(date(2021, 1, 2)));
}

#[test]
fn test_rename_appends_deletes_and_commits() {
    let mut ui = UiState::new();
    let mut data = two_activities();
    ui.handle_button(&mut data, Id::CurrentActivity, today());
    ui.handle_text(&mut data, 'x');
    ui.handle_text(&mut data, 'y');
    ui.handle_text(&mut data, '\u{8}');
    ui.handle_text(&mut data, 'z');
    assert_eq!(data.activities[0].name, "axz");
    ui.handle_text(&mut data, '\r');
    assert!(matches!(ui.imode, InteractMode::Normal));
    // Typing outside of rename mode changes nothing.
    ui.handle_text(&mut data, 'q');
    assert_eq!(data.activities[0].name, "axz");
}

#[test]
fn test_refresh_updates_streaks_for_current_activity() {
    let mut ui = UiState::new();
    let mut data = two_activities();
    ui.handle_day_click(&mut data, today(), today());
    ui.handle_day_click(&mut data, date(2021, 6, 19), today());
    ui.refresh(&data, today());
    assert_eq!(ui.current_streak, 2);
    assert_eq!(ui.longest_streak, 2);
}

#[test]
fn test_refresh_in_overview_aggregates() {
    let mut ui = UiState::new();
    let mut data = two_activities();
    // Mark today on the first activity and yesterday on the second.
    ui.handle_day_click(&mut data, today(), today());
    ui.handle_button(&mut data, Id::NextActivity, today());
    ui.handle_day_click(&mut data, date(2021, 6, 19), today());
    ui.handle_button(&mut data, Id::Overview, today());
    ui.refresh(&data, today());
    assert_eq!(ui.current_streak, 2);
    assert_eq!(ui.longest_streak, 2);
    assert_eq!(ui.n_activities_cache.count(today()), 1);
}
