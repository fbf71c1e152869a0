//! Origins that a signed request is for.

use crate::json::{find_member, member, JsonModel};
use crate::matcher::error::{MatcherError, MatcherErrorModel, OpenId4VpError, OpenId4VpErrorModel};
use crate::matcher::request::{OpenId4VpRequest, OpenId4VpRequestModel};
use crate::text::{contains_text, Text};
use vstd::prelude::*;

verus! {

broadcast use vstd::string::group_string_axioms;

/// Whether all values are text that is not empty.
pub open spec fn all_filled(items: Seq<JsonModel>) -> bool {
    forall|i: int|
        0 <= i < items.len() ==> match (#[trigger] items[i]).as_text() {
            Some(text) => text.len() > 0,
            None => false,
        }
}

/// The origins that a request names: its member `expected_origins`, if that is an array of text
/// with at least one element and no empty one.
pub open spec fn expected_origins(request: OpenId4VpRequestModel) -> Option<Seq<Text>> {
    match member(request.extra, "expected_origins"@) {
        Some(JsonModel::Array(items)) => if items.len() > 0 && all_filled(items) {
            Some(items.map_values(|item: JsonModel| item.as_text()->0))
        } else {
            None
        },
        _ => None,
    }
}

/// What is wrong with the origin of a caller who sends a signed request. A caller without an
/// origin has an empty one.
pub open spec fn origin_fault(
    protocol: Text,
    expected: Option<Seq<Text>>,
    origin: Text,
) -> Option<OpenId4VpErrorModel> {
    match expected {
        None => Some(OpenId4VpErrorModel::ExpectedOriginsMissing { protocol }),
        Some(expected) => if origin.len() == 0 {
            Some(OpenId4VpErrorModel::OriginMissing { protocol })
        } else if !expected.contains(origin) {
            Some(OpenId4VpErrorModel::OriginMismatch { protocol, origin })
        } else {
            None
        },
    }
}

/// The origins that `request` names.
pub fn expected_origins_from_request(request: &OpenId4VpRequest) -> (origins: Option<Vec<String>>)
    ensures
        origins.deep_view() == expected_origins(request.deep_view()),
{
    let items = match find_member(&request.extra, "expected_origins") {
        Some(value) => match value.as_array() {
            Some(items) => items,
            None => return None,
        },
        None => return None,
    };
    let ghost models = items.deep_view();
    assert(models.len() == items.len());
    if items.is_empty() {
        return None;
    }
    let mut out: Vec<String> = Vec::new();
    let mut i: usize = 0;
    while i < items.len()
        invariant
            i <= items.len(),
            models == items.deep_view(),
            models.len() > 0,
            member(request.deep_view().extra, "expected_origins"@) == Some(
                JsonModel::Array(models),
            ),
            out.len() == i,
            forall|k: int|
                0 <= k < i ==> match (#[trigger] models[k]).as_text() {
                    Some(text) => text.len() > 0 && text == out@[k]@,
                    None => false,
                },
        decreases items.len() - i,
    {
        assert(models[i as int] == items@[i as int].deep_view());
        let text = match items[i].as_str() {
            Some(text) => text,
            None => return None,
        };
        if text.is_empty() {
            return None;
        }
        out.push(text.to_owned());
        i = i + 1;
    }
    assert(out.deep_view() =~= models.map_values(|item: JsonModel| item.as_text()->0));
    Some(out)
}

/// Checks that a signed request is for the origin of its caller.
pub fn ensure_expected_origins(
    protocol: &str,
    request: &OpenId4VpRequest,
    origin: &str,
) -> (checked: Result<(), MatcherError>)
    ensures
        match checked {
            Ok(_) => origin_fault(
                protocol@,
                expected_origins(request.deep_view()),
                origin@,
            ) is None,
            Err(error) => match origin_fault(
                protocol@,
                expected_origins(request.deep_view()),
                origin@,
            ) {
                Some(fault) => error.deep_view() == MatcherErrorModel::InvalidOpenId4Vp(fault),
                None => false,
            },
        },
{
    let expected = match expected_origins_from_request(request) {
        Some(expected) => expected,
        None => return Err(
            MatcherError::InvalidOpenId4Vp(
                OpenId4VpError::ExpectedOriginsMissing { protocol: protocol.to_owned() },
            ),
        ),
    };
    if origin.is_empty() {
        return Err(
            MatcherError::InvalidOpenId4Vp(
                OpenId4VpError::OriginMissing { protocol: protocol.to_owned() },
            ),
        );
    }
    let listed = expected.as_slice();
    assert(listed.deep_view() =~= expected.deep_view());
    if contains_text(listed, origin) {
        return Ok(());
    }
    Err(
        MatcherError::InvalidOpenId4Vp(
            OpenId4VpError::OriginMismatch {
                protocol: protocol.to_owned(),
                origin: origin.to_owned(),
            },
        ),
    )
}

} // verus!
