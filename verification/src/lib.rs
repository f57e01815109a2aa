//! A registry of employees and their leave requests, kept in stable memory.
//!
//! One counter hands out the identifiers of both kinds of record. Each kind
//! lives in an ordered map of its own, from identifier to the encoded record.
//!
//! - `records`: the two kinds of record, and their views in contracts.
//! - `error`: what an operation reports when it cannot do its work.
//! - `codec`: the byte encoding of a record, with its inverse.
//! - `storage`: the stable cell and the stable map, and what is taken on
//!   trust of them.
//! - `model`: the registry as a counter and two mathematical maps.
//! - `registry`: the registry itself and its operations, each with a contract
//!   over the model.
//! - `laws`: what holds of the operations taken together.

pub mod codec;
pub mod error;
pub mod laws;
pub mod model;
pub mod records;
pub mod registry;
pub mod storage;
