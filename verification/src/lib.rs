//! Differential parity between transactional key-value clients.
//!
//! Two clients are driven through one scenario, each run is recorded as a trace,
//! and the traces are projected and compared.

pub mod order;
pub mod text;
pub mod base64;
pub mod sorted;
pub mod class;
pub mod json;
pub mod observation;
pub mod command;
pub mod isolation;
pub mod trace;
pub mod project;
pub mod comparison;
pub mod seen;
pub mod scenario;
pub mod mapping;
pub mod driver;
pub mod run;
pub mod dispatch;
pub mod paging;
pub mod store;
pub mod commit;
pub mod harness;
pub mod cluster;
pub mod placement;
