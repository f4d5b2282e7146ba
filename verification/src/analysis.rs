//! Signals from closed five-second windows, and the life of the positions they open.

pub mod analog;
pub mod bucket;
pub mod entry;
pub mod entry_laws;
pub mod feature;
pub mod lanes;
pub mod laws;
pub mod position;
pub mod readings;
pub mod resolve;
pub mod series;
pub mod signal;

pub use analog::{barrier_stats, pattern_forecast};
pub use bucket::build_buckets;
pub use feature::{feature_at, microstructure_score};
pub use position::advance_position;
pub use signal::build_signals;
