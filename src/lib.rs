//! Per-word part-of-speech weight tables: estimation from a tagger's output,
//! post-processing (threshold, rounding, renormalization) and differencing.
//!
//! Weights are fixed-point integers: a weight `w` stands for `w / 10^9`.
//! Rounding to a number of decimal places goes halves away from zero.

pub mod types;
pub mod taxonomy;
pub mod contexts;
pub mod weights;
pub mod estimate;
pub mod table;
pub mod laws;

pub use types::{Pos, Sym, NUM_POS};
pub use taxonomy::normalize_nlprule_pos;
pub use contexts::{get_test_contexts, NUM_CONTEXTS};
pub use weights::{Dist, UNIT, SCALE_DIGITS, WEIGHT_MAX, round_to_decimal_places, calculate_differences};
pub use estimate::{
    TaggedToken, TagCounts, count_tags, postprocess, calculate_observed_weights, estimate_word,
    estimate_table,
};
pub use table::{Entry, WordTable, DiffStats, Nuance, compare_keys, compare_stats, diff_tables};
