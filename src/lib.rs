//! Estimates where a photo was taken from a sparse location history: the
//! nearest fixes before and after the query instant are picked from two
//! streams in a fixed order, and the position between them is interpolated.
//!
//! Coordinates and altitudes are fixed-point integers in billionths of a
//! degree (or of a metre); instants are Unix seconds with a nanosecond part.

pub mod autocomplete;
pub mod coordinate;
pub mod error;
pub mod gps;
pub mod instant;
pub mod line;
pub mod timeline;
