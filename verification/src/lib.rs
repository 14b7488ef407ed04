//! Task tracker core: recurrence rules, calendar arithmetic on day numbers,
//! and the decisions behind the task views.

pub mod text;
pub mod calendar;
pub mod recurrence;
pub mod task;
pub mod listing;
