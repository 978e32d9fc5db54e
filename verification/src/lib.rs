//! Streaming computation of item indicators from user-item interactions.
//!
//! The crate consumes a stream of `(user, item)` interaction pairs (as dense
//! integer ids) and produces, for each item, a small set of other items whose
//! cooccurrence with it is statistically surprising. The pipeline is:
//! a downsampled cooccurrence accumulator (per-item frequency cap and
//! per-user reservoir sampling), contingency tables over the accumulated
//! counts, and a bounded top-k selection over externally computed scores.

mod util;
pub mod model;
pub mod sparse;
pub mod rng;
pub mod accum;
pub mod rescore;
pub mod laws;

pub use util::new_dense_vector;
pub use util::to_millis;
pub use accum::Accumulator;
pub use rescore::RescorePlan;
pub use rescore::rescore_plan;
pub use rescore::contingency;
pub use rescore::select_top;
