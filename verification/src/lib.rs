//! Bounded-window two-sum anomaly scan over a buffer of newline-separated
//! decimal numbers.
//!
//! A number is an anomaly when no two entries at distinct positions among the
//! `window` numbers that come just before it add up to it. The first `window`
//! numbers have no full window before them and are never anomalies.
//!
//! - [`parser`] reads a run of digits as a number.
//! - [`validator`] decides whether a number is the sum of two entries of a
//!   window.
//! - [`window`] holds the numbers that a walk has read last.
//! - [`scanner`] walks one segment of the buffer and reports its anomalies.
//! - [`partition`] cuts the buffer into segments that end where lines end.
//! - [`scan`] runs the walks over all segments and puts their outcomes
//!   together.
//! - [`lines`] and [`anomaly`] say what the lines of a text and the anomalies
//!   of a stream of numbers are; [`equivalence`] says which of the anomalies
//!   of the whole buffer a scan in several segments finds.

pub mod anomaly;
pub mod config;
pub mod equivalence;
pub mod error;
pub mod lines;
pub mod parser;
pub mod partition;
pub mod scan;
pub mod scanner;
pub mod validator;
pub mod window;
