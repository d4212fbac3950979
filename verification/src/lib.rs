//! Calendar dates stored in a single `u32`, without time of day or time zone.
//!
//! Two encodings are offered. [`neat_date`] stores the number of days since
//! 0001-01-01 of the proleptic Gregorian calendar: every number up to
//! [`neat_date::MAX_DATE`] is a date, and the next day has the next number.
//! [`packed_date`] stores year, month and day in bit fields of their own.
//! [`calendar`] holds the model of the calendar that the contracts of
//! [`neat_date`] are stated over, with its laws; [`decimal`] writes numbers
//! with zeros in front.

pub mod calendar;
pub mod decimal;
pub mod neat_date;
pub mod packed_date;
