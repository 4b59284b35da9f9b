//! Operation reconciliation and triage engine for a personal-finance tracker.
//!
//! Imported bank transactions ("operations") are held in a [`store::Store`],
//! deduplicated by content hash ([`store::Store::refresh_statuses_with_hashes`]
//! forces colliding records into a review state), moved through a binary
//! review workflow (pending triage / ok), and matched against user-defined
//! tag rules ([`matcher::match_rules`]) to propose automatic classifications.
//!
//! Persistence and the GUI shell are external collaborators: they exchange
//! plain values with this crate and are not part of the verified core.

pub mod detect;
pub mod error;
pub mod matcher;
pub mod operation;
pub mod order;
pub mod state;
pub mod store;
pub mod text;

pub use error::EngineError;
pub use state::OpState;
