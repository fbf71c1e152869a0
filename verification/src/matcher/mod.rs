//! Matching of Digital Credentials API requests.

pub mod config;
pub mod engine;
pub mod entries;
pub mod envelope;
pub mod error;
pub mod laws;
pub mod origins;
pub mod request;
pub mod store;
pub mod transaction_data;
