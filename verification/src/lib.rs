//! Streaming aggregation of weather measurements.
//!
//! The library ingests lines of the form `<name>;<temperature>` and keeps,
//! for every distinct station name, the minimum, arithmetic mean, and
//! maximum of its readings.  Temperatures are fixed-point decimals with one
//! fractional digit; internally they are held as signed integers scaled by
//! 1000 (`codec`).  A `Station` accumulates readings for one name
//! (`station`), and a `StationTable` keys accumulators by name and renders
//! the final report (`engine`).

pub mod codec;
pub mod engine;
pub mod station;
