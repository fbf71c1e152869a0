//! Planning errors.

use crate::text::Text;
use vstd::prelude::*;
use vstd::string::StringExecFns;

verus! {

/// Query planning error.
#[derive(Debug)]
pub enum PlanError {
    /// DCQL or transaction-data structure is invalid.
    InvalidQuery(String),
    /// Query is valid but cannot be satisfied with available credentials.
    Unsatisfied,
}

/// Model of [`PlanError`].
pub enum PlanErrorModel {
    InvalidQuery(Text),
    Unsatisfied,
}

impl DeepView for PlanError {
    type V = PlanErrorModel;

    open spec fn deep_view(&self) -> PlanErrorModel {
        match *self {
            PlanError::InvalidQuery(reason) => PlanErrorModel::InvalidQuery(reason@),
            PlanError::Unsatisfied => PlanErrorModel::Unsatisfied,
        }
    }
}

impl PlanErrorModel {
    /// The message that a user reads.
    pub open spec fn message(self) -> Text {
        match self {
            PlanErrorModel::InvalidQuery(reason) => "invalid dcql query: "@ + reason,
            PlanErrorModel::Unsatisfied => "unsatisfied dcql query: no credential combination satisfies all credential and transaction_data constraints"@,
        }
    }
}

impl PlanError {
    /// The message that a user reads.
    pub fn message(&self) -> (message: String)
        ensures
            message@ == self.deep_view().message(),
    {
        match self {
            PlanError::InvalidQuery(reason) => {
                let mut message = "invalid dcql query: ".to_owned();
                message.append(reason.as_str());
                message
            },
            PlanError::Unsatisfied => "unsatisfied dcql query: no credential combination satisfies all credential and transaction_data constraints".to_owned(),
        }
    }
}

} // verus!
