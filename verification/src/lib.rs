//! A calendar-recurrence library: schedules that repeat daily, weekly,
//! monthly or yearly at a fixed interval, restricted to a set of allowed
//! weekdays. Given a rule (anchor date, weekday mask, kind, interval) the
//! engine computes the next occurrence strictly after a reference date and
//! decides whether an arbitrary date is an occurrence of the rule.

pub mod date;
pub mod engine;
pub mod weekday;

pub use engine::find_next_date;
pub use engine::find_next_weekstart;
pub use engine::match_repeating_date;
pub use engine::Repeating;
pub use engine::RepeatingDateError;
pub use date::get_months_since;
pub use date::Date;
pub use weekday::days_until;
pub use weekday::Weekday;
pub use weekday::WeekdayFlags;
