//! Finds the most active cookie(s) of a cookie log on a given date.
//!
//! The pipeline has four stages, each a verified function:
//! [`lines_after_header`] splits the log text into records,
//! [`get_cookie_logs`] parses each record, [`get_cookies_on_date`] keeps the
//! records of one date, and [`most_active_cookies`] returns the identifiers
//! with the highest count.

pub mod text;
pub mod log;
pub mod activity;

pub use text::lines_after_header;
pub use log::{CookieLog, MalformedRecord, get_cookie_logs, get_cookies_on_date};
pub use activity::most_active_cookies;
