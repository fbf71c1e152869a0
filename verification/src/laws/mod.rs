//! What holds of every result, in terms of what goes in and what comes out.

pub mod arrangements;
pub mod choices;
pub mod claims;
pub mod combinations;
pub mod displays;
pub mod documents;
pub mod entries;
pub mod envelopes;
pub mod listings;
pub mod models;
pub mod packages;
pub mod payloads;
pub mod requests;
pub mod texts;
pub mod values;
