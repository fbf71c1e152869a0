//! Planning: from a DCQL query and a credential store to what a user can choose from.

pub mod by_id;
pub mod configs;
pub mod constraints;
pub mod error;
pub mod index;
pub mod laws;
pub mod matching;
pub mod options;
pub mod plan;
pub mod presentation;
pub mod selections;
pub mod slots;
pub mod transactions;
