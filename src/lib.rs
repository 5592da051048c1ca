//! Frequency statistics and weighted combination search over the history of
//! a six-plus-one number draw ("red" numbers 1..=33, one "blue" number 1..=16).
//!
//! Weights are exact integers: for a table built from `n` records, the real
//! weight of an entry is `weight / n²` (see [`models::weight_of`]). All
//! entries of one table, and the scores built from them, share that
//! denominator, so every comparison made on them is exact.

pub mod models;
pub mod random;
pub mod analyzer;
pub mod sampler;
pub mod ranking;
pub mod laws;
pub mod history;
pub mod parse;
pub mod store;

pub use models::{AlgorithmType, BallFrequency, PredictionResult, SsqRecord};
pub use random::RandomSource;
pub use analyzer::Analyzer;
pub use store::{history_text, update_marker_text};
pub use parse::{parse_algorithm, parse_row, parse_rows, parse_u8};
pub use history::{keep_recent, last_update_date, trim_text, merge_records, sample_record, should_fetch, CalendarDate, MAX_RECORDS};
