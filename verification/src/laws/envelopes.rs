//! What holds of signed requests and of transaction data that is decoded.

use crate::base64url::{base64url, padded, url_safe_no_pad, Base64Error};
use crate::json::member;
use crate::laws::listings::ascends;
use crate::matcher::envelope::{compact_envelope, decoded_signatures, is_separator, json_document};
use crate::matcher::envelope::{json_envelope, json_part, split_on};
use crate::matcher::error::{MatcherErrorModel, OpenId4VpErrorModel};
use crate::matcher::request::{EnvelopeModel, OpenId4VpSignedFormat, SignatureModel};
use crate::matcher::request::{SignedSignatureModel, TransactionDataInputModel};
use crate::matcher::transaction_data::{decoded_data, entry_data};
use crate::models::TransactionDataModel;
use crate::seqs::{lemma_first_where, lemma_first_where_is, lemma_push_contains};
use crate::text::Text;
use vstd::prelude::*;
use vstd::utf8::encode_utf8;

verus! {

/// Whether a text is another with padding behind it, so that its bytes come in groups of four. No
/// padding is longer than it has to be.
pub open spec fn is_padded(text: Text, long: Text) -> bool {
    &&& text.len() <= long.len() < text.len() + 4
    &&& long.take(text.len() as int) == text
    &&& forall|i: int| text.len() <= i < long.len() ==> #[trigger] long[i] == '='
    &&& (encode_utf8(text).len() + (long.len() - text.len())) % 4 == 0
}

/// Text is decoded as it is where that can be, and else with the padding that it lacks.
pub proof fn lemma_padding_may_be_missing(text: Text, long: Text)
    requires
        is_padded(text, long),
    ensures
        url_safe_no_pad(text) is Ok ==> base64url(text) == url_safe_no_pad(text),
        url_safe_no_pad(text) is Err ==> base64url(text) == url_safe_no_pad(long),
{
    let over = encode_utf8(text).len() % 4;
    let more = long.len() - text.len();
    assert((over + more) % 4 == 0);
    assert(over == 0 ==> more == 0);
    assert(over > 0 ==> more == 4 - over);
    assert(padded(text).len() == long.len());
    assert forall|i: int| 0 <= i < long.len() implies padded(text)[i] == long[i] by {
        if i < text.len() {
            assert(long.take(text.len() as int)[i] == long[i]);
        }
    }
    assert(padded(text) =~= long);
}

/// Every text has padding.
pub proof fn lemma_padding_exists(text: Text) -> (long: Text)
    ensures
        is_padded(text, long),
{
    let long = padded(text);
    assert(long.take(text.len() as int) =~= text);
    long
}

/// Whether a part of a signed request holds this document: it is base64url of bytes that are JSON.
pub open spec fn is_document(part: Text, document: serde_json::Value) -> bool {
    exists|bytes: Seq<u8>|
        base64url(part) == Ok::<Seq<u8>, Base64Error>(bytes) && #[trigger] json_document(bytes)
            == Ok::<serde_json::Value, Text>(document)
}

proof fn lemma_part(protocol: Text, part: Text)
    ensures
        match json_part(protocol, part) {
            Ok(document) => is_document(part, document),
            Err(_) => forall|document: serde_json::Value| !#[trigger] is_document(part, document),
        },
        forall|document: serde_json::Value| #[trigger]
            is_document(part, document) ==> json_part(protocol, part) == Ok::<
                serde_json::Value,
                MatcherErrorModel,
            >(document),
{
    if let Ok(bytes) = base64url(part) {
        if let Ok(document) = json_document(bytes) {
            assert(is_document(part, document));
        }
    }
}

/// A part that is not base64url is reported with the fault of the decoding. One that is not JSON is
/// reported with the message that says why.
pub proof fn lemma_faults_of_parts(protocol: Text, part: Text)
    ensures
        base64url(part) matches Err(fault) ==> json_part(protocol, part) == Err::<
            serde_json::Value,
            MatcherErrorModel,
        >(MatcherErrorModel::InvalidBase64(fault)),
        base64url(part) matches Ok(bytes) ==> (json_document(bytes) matches Err(why) ==> json_part(
            protocol,
            part,
        ) == Err::<serde_json::Value, MatcherErrorModel>(
            MatcherErrorModel::InvalidOpenId4Vp(
                OpenId4VpErrorModel::SignedPayloadNotSupported { protocol, message: why },
            ),
        )),
{
}

/// Whether a text is made of three parts that are joined by points and hold none themselves.
pub open spec fn joins(text: Text, first: Text, second: Text, third: Text) -> bool {
    &&& text == first + seq!['.'] + second + seq!['.'] + third
    &&& !first.contains('.') && !second.contains('.') && !third.contains('.')
}

proof fn lemma_split_off(text: Text, head: Text, rest: Text)
    requires
        text == head + seq!['.'] + rest,
        !head.contains('.'),
    ensures
        split_on(text, '.') == seq![head] + split_on(rest, '.'),
{
    let k = head.len() as int;
    assert forall|j: int| 0 <= j < k implies !is_separator('.')(#[trigger] text[j]) by {
        assert(head[j] == text[j]);
        assert(head.contains(head[j]));
    }
    assert(text[k] == '.');
    lemma_first_where_is(text, is_separator('.'), k);
    assert(text.take(k) =~= head);
    assert(text.skip(k + 1) =~= rest);
}

proof fn lemma_no_split(text: Text)
    requires
        !text.contains('.'),
    ensures
        split_on(text, '.') == seq![text],
{
    lemma_first_where(text, is_separator('.'));
}

proof fn lemma_first_part(text: Text)
    ensures
        split_on(text, '.').len() > 0,
        !split_on(text, '.')[0].contains('.'),
        split_on(text, '.').len() == 1 ==> split_on(text, '.')[0] == text,
        split_on(text, '.').len() > 1 ==> exists|rest: Text| #[trigger]
            split_on(rest, '.') == split_on(text, '.').skip(1) && text == split_on(text, '.')[0]
                + seq!['.'] + rest,
{
    let parts = split_on(text, '.');
    lemma_first_where(text, is_separator('.'));
    match crate::seqs::first_where(text, is_separator('.')) {
        Some(k) => {
            let rest = text.skip(k + 1);
            assert(parts == seq![text.take(k)] + split_on(rest, '.'));
            assert(parts.skip(1) =~= split_on(rest, '.'));
            assert(text =~= text.take(k) + seq!['.'] + rest);
            assert forall|j: int| 0 <= j < k implies text.take(k)[j] != '.' by {
                assert(!is_separator('.')(text[j]));
            }
            lemma_split_length(rest);
        },
        None => {
            assert forall|j: int| 0 <= j < text.len() implies text[j] != '.' by {
                assert(!is_separator('.')(text[j]));
            }
        },
    }
}

proof fn lemma_split_length(text: Text)
    ensures
        split_on(text, '.').len() > 0,
{
}

/// The parts of a text are its own only if it is made of them.
proof fn lemma_three_parts(text: Text)
    requires
        split_on(text, '.').len() == 3,
    ensures
        ({
            let parts = split_on(text, '.');
            joins(text, parts[0], parts[1], parts[2])
        }),
{
    let parts = split_on(text, '.');
    lemma_first_part(text);
    let rest = choose|rest: Text| #[trigger]
        split_on(rest, '.') == parts.skip(1) && text == parts[0] + seq!['.'] + rest;
    lemma_first_part(rest);
    let last = choose|last: Text| #[trigger]
        split_on(last, '.') == split_on(rest, '.').skip(1) && rest == split_on(rest, '.')[0]
            + seq!['.'] + last;
    lemma_first_part(last);
    assert(split_on(rest, '.')[0] == parts[1]);
    assert(split_on(last, '.')[0] == parts[2]);
    assert(text =~= parts[0] + seq!['.'] + parts[1] + seq!['.'] + parts[2]);
}

/// A compact request that is made of header, payload and signature has an envelope exactly where
/// none of them is empty and header and payload hold documents. Its envelope holds the three and
/// the two documents.
pub proof fn lemma_compact_requests(
    protocol: Text,
    request: Text,
    header: Text,
    payload: Text,
    signature: Text,
)
    requires
        joins(request, header, payload, signature),
    ensures
        match compact_envelope(protocol, request) {
            Ok(envelope) => {
                &&& header.len() > 0 && payload.len() > 0 && signature.len() > 0
                &&& envelope.format == OpenId4VpSignedFormat::Compact
                &&& envelope.payload_b64 == payload
                &&& is_document(payload, envelope.payload)
                &&& envelope.signatures.len() == 1
                &&& envelope.signatures[0].protected_b64 == header
                &&& is_document(header, envelope.signatures[0].protected)
                &&& envelope.signatures[0].signature_b64 == signature
                &&& envelope.signatures[0].header is None
            },
            Err(fault) => if header.len() == 0 || payload.len() == 0 || signature.len() == 0 {
                fault == MatcherErrorModel::InvalidOpenId4Vp(
                    OpenId4VpErrorModel::SignedRequestMalformed { protocol },
                )
            } else {
                forall|protected: serde_json::Value, document: serde_json::Value| !(#[trigger]
                is_document(header, protected) && #[trigger] is_document(payload, document))
            },
        },
{
    let rest = payload + seq!['.'] + signature;
    assert(request =~= header + seq!['.'] + rest);
    lemma_split_off(request, header, rest);
    lemma_split_off(rest, payload, signature);
    lemma_no_split(signature);
    let parts = split_on(request, '.');
    assert(parts =~= seq![header, payload, signature]);
    lemma_part(protocol, header);
    lemma_part(protocol, payload);
}

/// A compact request that is not made of three parts is malformed.
pub proof fn lemma_other_compact_requests(protocol: Text, request: Text)
    requires
        forall|header: Text, payload: Text, signature: Text|
            !#[trigger] joins(request, header, payload, signature),
    ensures
        compact_envelope(protocol, request) == Err::<EnvelopeModel, MatcherErrorModel>(
            MatcherErrorModel::InvalidOpenId4Vp(
                OpenId4VpErrorModel::SignedRequestMalformed { protocol },
            ),
        ),
{
    if split_on(request, '.').len() == 3 {
        lemma_three_parts(request);
    }
}

/// Whether a decoded signature is a signature with its header read.
pub open spec fn is_read(written: SignatureModel, read: SignedSignatureModel) -> bool {
    &&& written.protected.len() > 0
    &&& written.signature.len() > 0
    &&& read.protected_b64 == written.protected
    &&& is_document(written.protected, read.protected)
    &&& read.signature_b64 == written.signature
    &&& read.header == written.header
}

/// Whether a signature can be read.
pub open spec fn is_readable(written: SignatureModel) -> bool {
    exists|read: SignedSignatureModel| is_read(written, read)
}

/// Whether this is what is wrong with a signature: a part of it is empty, or its header holds no
/// document.
pub open spec fn is_fault(protocol: Text, written: SignatureModel, fault: MatcherErrorModel) -> bool {
    if written.protected.len() == 0 || written.signature.len() == 0 {
        fault == MatcherErrorModel::InvalidOpenId4Vp(
            OpenId4VpErrorModel::SignedRequestMalformed { protocol },
        )
    } else {
        json_part(protocol, written.protected) == Err::<serde_json::Value, MatcherErrorModel>(fault)
    }
}

/// Whether the first signature that cannot be read has this fault.
pub open spec fn is_first_fault(
    protocol: Text,
    signatures: Seq<SignatureModel>,
    i: int,
    fault: MatcherErrorModel,
) -> bool {
    &&& 0 <= i < signatures.len()
    &&& !is_readable(signatures[i])
    &&& is_fault(protocol, signatures[i], fault)
    &&& forall|j: int| 0 <= j < i ==> is_readable(#[trigger] signatures[j])
}

proof fn lemma_signatures(protocol: Text, signatures: Seq<SignatureModel>)
    ensures
        match decoded_signatures(protocol, signatures) {
            Ok(decoded) => decoded.len() == signatures.len() && forall|i: int|
                0 <= i < signatures.len() ==> is_read(signatures[i], #[trigger] decoded[i]),
            Err(fault) => exists|i: int| is_first_fault(protocol, signatures, i, fault),
        },
    decreases signatures.len(),
{
    if signatures.len() > 0 {
        let rest = signatures.drop_last();
        let last = signatures.last();
        let n = signatures.len() - 1;
        lemma_signatures(protocol, rest);
        lemma_part(protocol, last.protected);
        match decoded_signatures(protocol, rest) {
            Err(fault) => {
                let i = choose|i: int| is_first_fault(protocol, rest, i, fault);
                assert(signatures[i] == rest[i]);
                assert forall|j: int| 0 <= j < i implies is_readable(#[trigger] signatures[j]) by {
                    assert(is_readable(rest[j]));
                }
                assert(is_first_fault(protocol, signatures, i, fault));
            },
            Ok(earlier) => {
                assert forall|j: int| 0 <= j < n implies is_readable(#[trigger] signatures[j]) by {
                    assert(is_read(rest[j], earlier[j]));
                }
                match decoded_signatures(protocol, signatures) {
                    Ok(decoded) => {
                        assert forall|i: int| 0 <= i < signatures.len() implies is_read(
                            signatures[i],
                            #[trigger] decoded[i],
                        ) by {
                            if i < n {
                                assert(is_read(rest[i], earlier[i]));
                            }
                        }
                    },
                    Err(fault) => {
                        assert(!is_readable(signatures[n])) by {
                            assert forall|read: SignedSignatureModel| !is_read(last, read) by {
                                if is_read(last, read) {
                                    assert(is_document(last.protected, read.protected));
                                }
                            }
                        }
                        assert(is_first_fault(protocol, signatures, n, fault));
                    },
                }
            },
        }
    }
}

/// A request with several signatures has an envelope exactly where it has a signature, its payload
/// holds a document, and every signature can be read. Its envelope holds them all, in order.
pub proof fn lemma_requests_with_several_signatures(
    protocol: Text,
    payload: Text,
    signatures: Seq<SignatureModel>,
)
    ensures
        match json_envelope(protocol, payload, signatures) {
            Ok(envelope) => {
                &&& signatures.len() > 0
                &&& envelope.format == OpenId4VpSignedFormat::Json
                &&& envelope.payload_b64 == payload
                &&& is_document(payload, envelope.payload)
                &&& envelope.signatures.len() == signatures.len()
                &&& forall|i: int|
                    0 <= i < signatures.len() ==> is_read(
                        signatures[i],
                        #[trigger] envelope.signatures[i],
                    )
            },
            Err(fault) => if signatures.len() == 0 {
                fault == MatcherErrorModel::InvalidOpenId4Vp(
                    OpenId4VpErrorModel::SignedRequestMalformed { protocol },
                )
            } else {
                ||| json_part(protocol, payload) == Err::<serde_json::Value, MatcherErrorModel>(
                    fault,
                ) && forall|document: serde_json::Value|
                    !#[trigger] is_document(payload, document)
                ||| exists|i: int| is_first_fault(protocol, signatures, i, fault)
            },
        },
{
    lemma_part(protocol, payload);
    lemma_signatures(protocol, signatures);
}

/// Whether an entry of a request holds transaction data that can be matched: data that has a type,
/// names credentials, and has no payload that is not an object. An encoded entry has to be
/// base64url.
pub open spec fn holds_data(input: TransactionDataInputModel, data: TransactionDataModel) -> bool {
    &&& match input {
        TransactionDataInputModel::Decoded(own) => own == data,
        TransactionDataInputModel::Encoded { encoded, parsed } => base64url(encoded) is Ok && parsed
            == Some(data),
    }
    &&& data.data_type.len() > 0
    &&& data.credential_ids.len() > 0
    &&& member(data.extra, "payload"@) matches Some(payload) ==> payload is Object
}

proof fn lemma_entry(input: TransactionDataInputModel)
    ensures
        entry_data(input) matches Some(data) ==> holds_data(input, data),
        forall|data: TransactionDataModel| #[trigger]
            holds_data(input, data) ==> entry_data(input) == Some(data),
{
}

/// Transaction data that can be matched is kept, in order, each with its index in the request. The
/// other entries are left out.
pub proof fn lemma_transaction_data_is_kept(inputs: Seq<TransactionDataInputModel>)
    ensures
        ({
            let (data, indices) = decoded_data(inputs);
            &&& data.len() == indices.len()
            &&& ascends(indices, inputs.len())
            &&& forall|k: int|
                0 <= k < data.len() ==> holds_data(inputs[indices[k]], #[trigger] data[k])
            &&& forall|i: int, own: TransactionDataModel|
                0 <= i < inputs.len() && #[trigger] holds_data(inputs[i], own) ==> indices.contains(
                    i,
                )
        }),
    decreases inputs.len(),
{
    if inputs.len() > 0 {
        let rest = inputs.drop_last();
        let n = inputs.len() - 1;
        lemma_transaction_data_is_kept(rest);
        lemma_entry(inputs[n]);
        let (earlier, places) = decoded_data(rest);
        let (data, indices) = decoded_data(inputs);
        assert forall|k: int| 0 <= k < data.len() implies holds_data(
            inputs[indices[k]],
            #[trigger] data[k],
        ) by {
            if k < earlier.len() {
                assert(holds_data(rest[places[k]], earlier[k]));
                assert(0 <= places[k] < rest.len());
            }
        }
        assert(ascends(indices, inputs.len())) by {
            assert forall|k: int| 0 <= k < indices.len() implies 0 <= #[trigger] indices[k]
                < inputs.len() by {
                if k < places.len() {
                    assert(0 <= places[k] < rest.len());
                }
            }
            assert forall|j: int, k: int| 0 <= j < k < indices.len() implies #[trigger] indices[j]
                < #[trigger] indices[k] by {
                assert(0 <= places[j] < rest.len());
                if k < places.len() {
                    assert(places[j] < places[k]);
                }
            }
        }
        assert forall|i: int, own: TransactionDataModel|
            0 <= i < inputs.len() && #[trigger] holds_data(
                inputs[i],
                own,
            ) implies indices.contains(i) by {
            lemma_push_contains(places, n, i);
            if i < n {
                assert(holds_data(rest[i], own));
            }
        }
    }
}

} // verus!
