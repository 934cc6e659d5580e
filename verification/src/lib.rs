//! A dynamic arc-consistency engine for finite-domain constraint networks.
//!
//! Variables carry ordered domains of integer values; binary equality and
//! inequality constraints between variables prune those domains to their
//! arc-consistent closure. Every pruning is attributed to the constraint
//! responsible for it, so that retracting a constraint can incrementally
//! restore exactly the values it killed and re-propagate the consequences.

mod domain;
mod engine;

pub use domain::ConstraintKind;
pub use engine::Constraint;
pub use engine::Engine;
pub use engine::lemma_equality_consistent;
pub use engine::lemma_live_witness;
pub use engine::live_map;
pub use engine::lemma_inequality_live;
pub use engine::lemma_no_constraints_full_domain;
