//! TS12 transaction data: strong customer authentication with wallet credentials.

pub mod metadata;
pub mod values;
