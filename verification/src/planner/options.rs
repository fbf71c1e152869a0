//! Planner configuration.

use crate::text::{starts_with, Text};
use vstd::prelude::*;

verus! {

broadcast use vstd::string::group_string_axioms;

/// How to choose options inside each credential set query.
#[derive(Debug, Clone, Copy, PartialEq, Eq, Structural)]
pub enum CredentialSetOptionMode {
    /// Keep all satisfiable options.
    AllSatisfiable,
    /// Keep only the first satisfiable option in declared order.
    FirstSatisfiableOnly,
}

/// How optional credential set queries are incorporated into alternatives.
#[derive(Debug, Clone, Copy, PartialEq, Eq, Structural)]
pub enum OptionalCredentialSetsMode {
    /// Prefer including satisfiable optional sets first, then alternatives without them.
    PreferPresent,
    /// Prefer omitting optional sets first, then alternatives that include them.
    PreferAbsent,
    /// If an optional set is satisfiable, always include one option for it.
    AlwaysPresentIfSatisfiable,
}

/// Default TS12 SCA transaction-data type prefix.
pub const DEFAULT_TS12_PREFIX: &'static str = "urn:eudi:sca:";

/// Planner configuration knobs.
#[derive(Debug, PartialEq, Eq)]
pub struct PlanOptions {
    /// Option-selection policy for each credential set query.
    pub credential_set_option_mode: CredentialSetOptionMode,
    /// Inclusion policy for optional credential set queries.
    pub optional_credential_sets_mode: OptionalCredentialSetsMode,
    /// Transaction-data type prefixes that activate TS12 behavior.
    ///
    /// An empty list disables TS12 handling.
    pub ts12_prefixes: Vec<String>,
}

/// Model of [`PlanOptions`].
pub struct PlanOptionsModel {
    pub credential_set_option_mode: CredentialSetOptionMode,
    pub optional_credential_sets_mode: OptionalCredentialSetsMode,
    pub ts12_prefixes: Seq<Text>,
}

impl DeepView for PlanOptions {
    type V = PlanOptionsModel;

    open spec fn deep_view(&self) -> PlanOptionsModel {
        PlanOptionsModel {
            credential_set_option_mode: self.credential_set_option_mode,
            optional_credential_sets_mode: self.optional_credential_sets_mode,
            ts12_prefixes: self.ts12_prefixes.deep_view(),
        }
    }
}

impl Clone for PlanOptions {
    fn clone(&self) -> (copy: PlanOptions)
        ensures
            copy.deep_view() == self.deep_view(),
    {
        let copy = PlanOptions {
            credential_set_option_mode: self.credential_set_option_mode,
            optional_credential_sets_mode: self.optional_credential_sets_mode,
            ts12_prefixes: self.ts12_prefixes.clone(),
        };
        assert(copy.ts12_prefixes.deep_view() =~= self.ts12_prefixes.deep_view());
        copy
    }
}

/// The planner configuration where none is given.
pub open spec fn default_options() -> PlanOptionsModel {
    PlanOptionsModel {
        credential_set_option_mode: CredentialSetOptionMode::AllSatisfiable,
        optional_credential_sets_mode: OptionalCredentialSetsMode::PreferPresent,
        ts12_prefixes: seq![DEFAULT_TS12_PREFIX@],
    }
}

impl Default for PlanOptions {
    fn default() -> (options: PlanOptions)
        ensures
            options.deep_view() == default_options(),
    {
        let mut prefixes: Vec<String> = Vec::new();
        prefixes.push(DEFAULT_TS12_PREFIX.to_owned());
        assert(prefixes.deep_view() =~= seq![DEFAULT_TS12_PREFIX@]);
        PlanOptions {
            credential_set_option_mode: CredentialSetOptionMode::AllSatisfiable,
            optional_credential_sets_mode: OptionalCredentialSetsMode::PreferPresent,
            ts12_prefixes: prefixes,
        }
    }
}

impl PlanOptionsModel {
    /// Whether a transaction-data type is subject to TS12 rules: it begins with one of the
    /// configured prefixes. An empty prefix counts for nothing.
    pub open spec fn is_ts12(self, data_type: Text) -> bool {
        exists|i: int|
            0 <= i < self.ts12_prefixes.len() && (#[trigger] self.ts12_prefixes[i]).len() > 0
                && self.ts12_prefixes[i].is_prefix_of(data_type)
    }
}

impl PlanOptions {
    /// Returns true if a transaction-data type is subject to TS12 rules.
    pub fn is_ts12_transaction_data_type(&self, data_type: &str) -> (is: bool)
        ensures
            is == self.deep_view().is_ts12(data_type@),
    {
        let ghost prefixes = self.deep_view().ts12_prefixes;
        let mut i: usize = 0;
        while i < self.ts12_prefixes.len()
            invariant
                i <= self.ts12_prefixes.len(),
                prefixes == self.ts12_prefixes.deep_view(),
                forall|j: int|
                    0 <= j < i ==> !((#[trigger] prefixes[j]).len() > 0 && prefixes[j].is_prefix_of(
                        data_type@,
                    )),
            decreases self.ts12_prefixes.len() - i,
        {
            let prefix = self.ts12_prefixes[i].as_str();
            assert(self.deep_view().ts12_prefixes[i as int] == prefix@);
            if !prefix.is_empty() && starts_with(data_type, prefix) {
                return true;
            }
            i = i + 1;
        }
        false
    }
}

} // verus!
