//! Turns a region-based coverage report into per-line coverage.
//!
//! A report lists, for each source file, the boundaries of its instrumented
//! regions. The library cuts the nested regions into flat intervals
//! ([`region`]), finds where each interval lies in the source text and
//! narrows it to the code it holds ([`string_seek`]), and records for every
//! line the intervals that touch it ([`lines`]). [`convert`] does the three
//! in a row for one file; [`codecov`] says what a line's hits come to.

pub mod codecov;
pub mod convert;
pub mod lines;
pub mod llvm;
pub mod permutation;
pub mod region;
pub mod string_seek;
