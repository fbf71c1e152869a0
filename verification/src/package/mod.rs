//! Credential packages: a wallet's credentials, as a configuration lists them.

pub mod config;
pub mod display;
pub mod payment;
pub mod store;
pub mod layout;
