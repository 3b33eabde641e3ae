//! Aggregation and comparison of the answers that DNS name servers give for
//! one list of domain names.
//!
//! The crate holds the rules of the measurement: how answer text becomes
//! records, which records count as the same observation, how observations
//! accumulate and merge, how a run is cut into batches, and how the
//! resulting data sets of several servers overlap.

pub mod addr;
pub mod analysis;
pub mod batch;
pub mod collect;
pub mod error;
pub mod name;
pub mod name_server;
pub mod record_type;
pub mod record_wrapper;
pub mod sets;
pub mod store;
pub mod text;
