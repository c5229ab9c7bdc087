//! Core of a habit-tracking calendar: a proleptic Gregorian date type with
//! calendar arithmetic, a data model of tracked activities, a versioned
//! binary codec for saving and loading that model, and streak statistics.

pub mod date_util;
pub mod codec;
pub mod streak;
pub mod ui;
pub mod user_data;
