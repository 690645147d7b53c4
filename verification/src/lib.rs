//! A schema-validated, append-only document store.
//!
//! Records are JSON objects validated against named models, framed into a
//! per-model append log, and indexed for point and equality lookups.  The
//! engine coalesces writes into batches and fans successful inserts out to
//! subscribers.  Everything here works on plain values; the surrounding
//! process performs the file, network and timer work and hands the results
//! in.

pub mod models;
pub mod json;
pub mod frame;
pub mod index;
pub mod storage;
pub mod errors;
pub mod config;
pub mod metrics;
pub mod logger;
pub mod broadcast;
pub mod engine;
