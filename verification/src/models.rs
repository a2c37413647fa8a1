//! The records that flow between the planner, the store and the bot.
//! Instants are whole seconds since 1970-01-01 00:00 UTC.
use vstd::prelude::*;

verus! {

/// A day of the week.
#[derive(Debug, Clone, Copy, PartialEq, Eq, Structural)]
pub enum Weekday {
    Mon,
    Tue,
    Wed,
    Thu,
    Fri,
    Sat,
    Sun,
}

/// A calendar date of the proleptic Gregorian calendar, counted as chrono
/// counts it: 1 January of year 1 is day 1.
#[derive(Debug, Clone, Copy, PartialEq, Eq, Structural)]
pub struct Date {
    pub days_from_ce: i32,
}

/// An instant seen from Europe/Rome: `utc` is the instant and `local` the
/// wall-clock time there, both in seconds counted from 1970-01-01 00:00 (the
/// local one as if it were UTC).
#[derive(Debug, Clone, Copy, PartialEq, Eq, Structural)]
pub struct RomeDateTime {
    pub utc: i64,
    pub local: i64,
}

/// A saved availability. `weekday` is 1 for Monday to 7 for Sunday; the
/// minutes count from midnight of that day, the end possibly past 1440.
pub struct AvailabilityRow {
    pub id: String,
    pub guild_id: String,
    pub user_id: String,
    pub username: String,
    pub weekday: u32,
    pub start_minute: i64,
    pub end_minute: i64,
    pub starts_at_utc: i64,
    pub ends_at_utc: i64,
    pub is_recurring: bool,
}

/// An availability about to be saved.
pub struct NewAvailability {
    pub id: String,
    pub guild_id: String,
    pub user_id: String,
    pub username: String,
    pub weekday: u32,
    pub start_minute: i64,
    pub end_minute: i64,
    pub starts_at_utc: i64,
    pub ends_at_utc: i64,
    pub is_recurring: bool,
}

/// One concrete stretch of availability of one user in the planning week.
pub struct AvailabilityInstance {
    pub availability_id: String,
    pub user_id: String,
    pub username: String,
    pub start_utc: i64,
    pub end_utc: i64,
}

/// A stretch of time in which every participant of the week is available.
pub struct OverlapSlot {
    pub display_index: i64,
    pub start_utc: i64,
    pub end_utc: i64,
    pub participant_user_ids: Vec<String>,
    pub participant_usernames: Vec<String>,
}

/// A slot of a saved overlap table.
pub struct StoredOverlapItem {
    pub id: String,
    pub display_index: i64,
    pub start_utc: i64,
    pub end_utc: i64,
    pub start_local: String,
    pub end_local: String,
    pub participant_user_ids: Vec<String>,
    pub participant_usernames: Vec<String>,
}

/// A session that an admin has fixed.
pub struct ScheduledSession {
    pub id: String,
    pub guild_id: String,
    pub scheduled_by_user_id: String,
    pub scheduled_by_username: String,
    pub start_utc: i64,
    pub end_utc: i64,
    pub start_local: String,
    pub end_local: String,
    pub participant_user_ids: Vec<String>,
    pub participant_usernames: Vec<String>,
}

/// The planning window: from Monday `start_date` to the Monday `end_date`
/// that follows it, midnight to midnight in Europe/Rome.
#[derive(Debug, Clone, Copy, PartialEq, Eq, Structural)]
pub struct PlanningWeek {
    pub start_date: Date,
    pub end_date: Date,
    pub start_utc: i64,
    pub end_utc: i64,
}

/// The weekday stored as a number: 1 is Monday, ..., 6 is Saturday, and any
/// other number is Sunday.
pub open spec fn weekday_of_number(n: u32) -> Weekday {
    if n == 1 {
        Weekday::Mon
    } else if n == 2 {
        Weekday::Tue
    } else if n == 3 {
        Weekday::Wed
    } else if n == 4 {
        Weekday::Thu
    } else if n == 5 {
        Weekday::Fri
    } else if n == 6 {
        Weekday::Sat
    } else {
        Weekday::Sun
    }
}

impl AvailabilityRow {
    /// The stored weekday as a day of the week.
    pub fn weekday_enum(&self) -> (res: Weekday)
        ensures
            res == weekday_of_number(self.weekday),
    {
        match self.weekday {
            1 => Weekday::Mon,
            2 => Weekday::Tue,
            3 => Weekday::Wed,
            4 => Weekday::Thu,
            5 => Weekday::Fri,
            6 => Weekday::Sat,
            _ => Weekday::Sun,
        }
    }
}

} // verus!
