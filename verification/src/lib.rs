//! Matching of digital-credential requests against a wallet's credentials.

pub mod base64url;
pub mod c8;
pub mod hashsets;
pub mod idset;
pub mod json;
pub mod laws;
pub mod matcher;
pub mod models;
pub mod package;
pub mod path;
pub mod planner;
pub mod render;
pub mod seqs;
pub mod store;
pub mod text;
pub mod ts12;
