//! Dates and time intervals under financial market conventions: holiday
//! calendars, business-day adjustment, day-count conventions and tenors.

pub mod aux_funcs;
pub mod business_days;
pub mod calendars;
pub mod date;
pub mod date_adjusting;
pub mod day_counting;
pub mod easter;
pub mod tenors;
pub mod time_fractions;
