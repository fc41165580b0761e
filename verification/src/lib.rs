//! Tone-response tables for display calibration.
//!
//! Two text formats are read: the export of a curve editor and the export of
//! a cubic colour lattice. Either one is turned into three tables of
//! sixteen-bit samples, one each for red, green and blue, 256 entries long.
//!
//! Numbers are read digit by digit. The samples of a curve are made as
//! single-precision arithmetic makes them, worked out over whole numbers; the
//! entries of a lattice table are rounded once, from the exact sum. The
//! sample blocks of a curve export are found with the `regex` crate;
//! everything else is proved.

pub mod compose;
pub mod curve;
pub mod decimal;
pub mod digits;
pub mod error;
pub mod lattice;
pub mod number;
pub mod pattern;
pub mod sampler;
pub mod single;
pub mod text;
