//! A transactional multi-version table engine.
//!
//! Readers see a consistent snapshot per transaction; writers accumulate
//! changes in a per-transaction delta that becomes visible at commit, and
//! committed deltas are eventually folded into the canonical version.

pub mod delta;
pub mod error;
pub mod general;
pub mod laws;
pub mod model;
pub mod null;
pub mod schema;
pub mod semaphore;
pub mod table;
pub mod text;
pub mod txn;
pub mod value;
pub mod version;
