//! Working days of a month and a random spread of work hours over them.
//!
//! [`calendar`] derives weekdays and holidays from a year and a month;
//! [`generate`] splits a number of hours into capped daily parts and places
//! each part inside a daily window; [`request`] holds the rules a request has
//! to pass before hours are generated for it.

pub mod calendar;
pub mod generate;
pub mod request;
