//! The transaction data of a request.

use crate::base64url::{base64url, decode_base64url, decoding, Base64Error};
use crate::matcher::request::{TransactionDataInput, TransactionDataInputModel};
use crate::models::{TransactionData, TransactionDataModel};
use crate::planner::constraints::as_ints;
use crate::seqs::lemma_take_all;
use crate::ts12::metadata::{has_shape, Ts12TransactionDataShape};
use vstd::prelude::*;

verus! {

broadcast use vstd::string::group_string_axioms;

/// Whether transaction data can be matched: it has a type, names credentials, and its payload is
/// an object where it has one.
pub open spec fn acceptable(data: TransactionDataModel) -> bool {
    data.data_type.len() > 0 && data.credential_ids.len() > 0 && has_shape(data)
}

/// The transaction data of an encoded entry, given its decoding.
pub open spec fn encoded_data(
    bytes: Result<Seq<u8>, Base64Error>,
    parsed: Option<TransactionDataModel>,
) -> Option<TransactionDataModel> {
    match bytes {
        Ok(_) => parsed,
        Err(_) => None,
    }
}

/// The transaction data of an entry, if it can be matched.
pub open spec fn entry_data(input: TransactionDataInputModel) -> Option<TransactionDataModel> {
    let data = match input {
        TransactionDataInputModel::Decoded(data) => Some(data),
        TransactionDataInputModel::Encoded { encoded, parsed } => encoded_data(
            base64url(encoded),
            parsed,
        ),
    };
    match data {
        Some(data) => if acceptable(data) {
            Some(data)
        } else {
            None
        },
        None => None,
    }
}

/// The transaction data of a request that can be matched, each with its index in the request. The
/// other entries are left out.
pub open spec fn decoded_data(inputs: Seq<TransactionDataInputModel>) -> (
    Seq<TransactionDataModel>,
    Seq<int>,
)
    decreases inputs.len(),
{
    if inputs.len() == 0 {
        (Seq::empty(), Seq::empty())
    } else {
        let (data, indices) = decoded_data(inputs.drop_last());
        match entry_data(inputs.last()) {
            Some(last) => (data.push(last), indices.push(inputs.len() - 1)),
            None => (data, indices),
        }
    }
}

/// Transaction data of a request, with the indices that it has there.
#[derive(Debug)]
pub struct DecodedTransactionData {
    /// The transaction data that can be matched.
    pub data: Vec<TransactionData>,
    /// For each of them its index in the request.
    pub request_indices: Vec<usize>,
}

impl DeepView for DecodedTransactionData {
    type V = (Seq<TransactionDataModel>, Seq<int>);

    open spec fn deep_view(&self) -> (Seq<TransactionDataModel>, Seq<int>) {
        (self.data.deep_view(), as_ints(self.request_indices@))
    }
}

/// Whether `data`, which is at `index`, can be matched.
pub fn is_acceptable(index: usize, data: &TransactionData) -> (is: bool)
    ensures
        is == acceptable(data.deep_view()),
{
    assert(data.deep_view().credential_ids.len() == data.credential_ids.len());
    if data.data_type.as_str().is_empty() || data.credential_ids.is_empty() {
        return false;
    }
    Ts12TransactionDataShape::build(index, data).is_ok()
}

/// The transaction data of an encoded entry.
pub fn data_from_encoded<'a>(
    bytes: Result<Vec<u8>, Base64Error>,
    parsed: &'a Option<TransactionData>,
) -> (data: Option<&'a TransactionData>)
    ensures
        data.deep_view() == encoded_data(decoding(bytes), parsed.deep_view()),
{
    match bytes {
        Ok(_) => match parsed {
            Some(data) => Some(data),
            None => None,
        },
        Err(_) => None,
    }
}

/// The transaction data of a request that can be matched.
pub fn decode_transaction_data(
    inputs: &Option<Vec<TransactionDataInput>>,
) -> (decoded: Option<DecodedTransactionData>)
    ensures
        match (inputs.deep_view(), decoded) {
            (Some(inputs), Some(decoded)) => decoded.deep_view() == decoded_data(inputs),
            (None, None) => true,
            _ => false,
        },
{
    let inputs = match inputs {
        Some(inputs) => inputs,
        None => return None,
    };
    let ghost all = inputs.deep_view();
    let mut data: Vec<TransactionData> = Vec::new();
    let mut request_indices: Vec<usize> = Vec::new();
    let mut i: usize = 0;
    proof {
        assert(all.take(0) =~= Seq::<TransactionDataInputModel>::empty());
        assert(data.deep_view() =~= Seq::<TransactionDataModel>::empty());
        assert(as_ints(request_indices@) =~= Seq::<int>::empty());
    }
    while i < inputs.len()
        invariant
            i <= inputs.len(),
            all == inputs.deep_view(),
            decoded_data(all.take(i as int)) == (data.deep_view(), as_ints(request_indices@)),
        decreases inputs.len() - i,
    {
        let input = &inputs[i];
        let at: usize = i;
        let ghost before = (data.deep_view(), as_ints(request_indices@));
        proof {
            assert(all[i as int] == input.deep_view());
            assert(all.take(i + 1).drop_last() =~= all.take(i as int));
            assert(all.take(i + 1).last() == input.deep_view());
        }
        i = i + 1;
        let found = match input {
            TransactionDataInput::Decoded(found) => Some(found),
            TransactionDataInput::Encoded { encoded, parsed } => data_from_encoded(
                decode_base64url(encoded.as_str()),
                parsed,
            ),
        };
        let found = match found {
            Some(found) => found,
            None => continue,
        };
        if !is_acceptable(at, found) {
            continue;
        }
        data.push(found.clone());
        request_indices.push(at);
        proof {
            assert(data.deep_view() =~= before.0.push(found.deep_view()));
            assert(as_ints(request_indices@) =~= before.1.push(at as int));
        }
    }
    proof {
        lemma_take_all(all);
    }
    Some(DecodedTransactionData { data, request_indices })
}

/// Every transaction data that is matched comes from the entry of the request that its index
/// names.
pub proof fn lemma_decoded_data(inputs: Seq<TransactionDataInputModel>)
    ensures
        ({
            let (data, indices) = decoded_data(inputs);
            &&& data.len() == indices.len()
            &&& forall|k: int|
                0 <= k < data.len() ==> 0 <= #[trigger] indices[k] < inputs.len() && entry_data(
                    inputs[indices[k]],
                ) == Some(data[k])
            &&& forall|i: int, j: int|
                0 <= i < j < indices.len() ==> #[trigger] indices[i] < #[trigger] indices[j]
        }),
    decreases inputs.len(),
{
    if inputs.len() > 0 {
        let rest = inputs.drop_last();
        lemma_decoded_data(rest);
        let (data, indices) = decoded_data(inputs);
        let (earlier, places) = decoded_data(rest);
        assert forall|k: int| 0 <= k < data.len() implies 0 <= #[trigger] indices[k] < inputs.len()
            && entry_data(inputs[indices[k]]) == Some(data[k]) by {
            if k < earlier.len() {
                assert(places[k] == indices[k]);
                assert(rest[places[k]] == inputs[indices[k]]);
            }
        }
        assert forall|i: int, j: int| 0 <= i < j < indices.len() implies #[trigger] indices[i]
            < #[trigger] indices[j] by {
            assert(places[i] == indices[i]);
            if j < places.len() {
                assert(places[j] == indices[j]);
            }
        }
    }
}

} // verus!
