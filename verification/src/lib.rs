//! A small hyperparameter-search engine: parameter distributions that map
//! user-facing values to one scalar encoding, a trial store with a strict
//! running/finished life cycle, and the handle through which an objective
//! asks for parameter values.

pub mod distribution;
pub mod error;
pub mod sampler;
pub mod scalar;
pub mod storage;
pub mod study;
