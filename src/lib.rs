//! A weekly task schedule: tasks filed under the days of the week, each day
//! kept in order of time, every task named by an identifier that is never reused.
pub mod day;
pub mod list;
mod table;
pub mod task;
pub mod time;

pub use day::{all_days, idx_to_day, string_to_day, to_string, DayOfWeek};
pub use list::{List, TaskAttribute};
pub use task::{Task, TaskEntry};
pub use time::{SchedulerError, Time};
