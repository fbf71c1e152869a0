//! Decoding of signed requests.

use crate::base64url::{base64url, decode_base64url, Base64Error};
use crate::json::JsonValue;
use crate::matcher::error::{MatcherError, MatcherErrorModel, OpenId4VpError, OpenId4VpErrorModel};
use crate::matcher::request::{EnvelopeModel, OpenId4VpMultiSignedData};
use crate::matcher::request::{OpenId4VpSignedData, OpenId4VpSignedEnvelope, OpenId4VpSignedFormat};
use crate::matcher::request::{OpenId4VpSignedSignature, SignatureModel, SignedSignatureModel};
use crate::planner::matching::result_view;
use crate::seqs::{first_where, lemma_first_where, lemma_first_where_is, lemma_take_all};
use crate::text::{chars_of, Text};
use vstd::prelude::*;

verus! {

broadcast use vstd::string::group_string_axioms;

/// The JSON document that bytes hold, or the message that says why they hold none.
pub uninterp spec fn json_document(bytes: Seq<u8>) -> Result<serde_json::Value, Text>;

/// `serde_json::from_slice` into a `serde_json::Value`: a function of the bytes, named
/// [`json_document`]. Which bytes it accepts, and what they stand for, is not stated.
#[verifier::external_body]
fn parse_json(bytes: &Vec<u8>) -> (document: Result<serde_json::Value, String>)
    ensures
        match document {
            Ok(value) => json_document(bytes@) == Ok::<serde_json::Value, Text>(value),
            Err(message) => json_document(bytes@) == Err::<serde_json::Value, Text>(message@),
        },
{
    serde_json::from_slice(bytes).map_err(|error| error.to_string())
}

/// Tells the separator from other characters.
pub open spec fn is_separator(separator: char) -> spec_fn(char) -> bool {
    |c: char| c == separator
}

/// The parts of a text between the occurrences of a separator.
pub open spec fn split_on(text: Text, separator: char) -> Seq<Text>
    decreases text.len(),
{
    match first_where(text, is_separator(separator)) {
        Some(k) => if 0 <= k < text.len() {
            seq![text.take(k)] + split_on(text.skip(k + 1), separator)
        } else {
            seq![text]
        },
        None => seq![text],
    }
}

/// The error for a signed request that does not have its parts.
pub open spec fn malformed(protocol: Text) -> MatcherErrorModel {
    MatcherErrorModel::InvalidOpenId4Vp(OpenId4VpErrorModel::SignedRequestMalformed { protocol })
}

/// What the decoding of a base64url JSON part comes to, given its two steps.
pub open spec fn part_of(
    protocol: Text,
    bytes: Result<Seq<u8>, Base64Error>,
) -> Result<serde_json::Value, MatcherErrorModel> {
    match bytes {
        Err(error) => Err(MatcherErrorModel::InvalidBase64(error)),
        Ok(bytes) => match json_document(bytes) {
            Ok(value) => Ok(value),
            Err(message) => Err(
                MatcherErrorModel::InvalidOpenId4Vp(
                    OpenId4VpErrorModel::SignedPayloadNotSupported { protocol, message },
                ),
            ),
        },
    }
}

/// The JSON document of a base64url part.
pub open spec fn json_part(protocol: Text, part: Text) -> Result<
    serde_json::Value,
    MatcherErrorModel,
> {
    part_of(protocol, base64url(part))
}

/// The result of decoding a part.
pub open spec fn part_view(part: Result<serde_json::Value, MatcherError>) -> Result<
    serde_json::Value,
    MatcherErrorModel,
> {
    match part {
        Ok(value) => Ok(value),
        Err(error) => Err(error.deep_view()),
    }
}

/// The envelope of a compact request, given its decoded header and payload.
pub open spec fn compact_of(
    parts: Seq<Text>,
    protected: Result<serde_json::Value, MatcherErrorModel>,
    payload: Result<serde_json::Value, MatcherErrorModel>,
) -> Result<EnvelopeModel, MatcherErrorModel> {
    match protected {
        Err(error) => Err(error),
        Ok(protected) => match payload {
            Err(error) => Err(error),
            Ok(payload) => Ok(
                EnvelopeModel {
                    format: OpenId4VpSignedFormat::Compact,
                    payload_b64: parts[1],
                    payload,
                    signatures: seq![
                        SignedSignatureModel {
                            protected_b64: parts[0],
                            protected,
                            signature_b64: parts[2],
                            header: None,
                        },
                    ],
                },
            ),
        },
    }
}

/// Whether a compact request has its three parts, none of them empty.
pub open spec fn has_three_parts(parts: Seq<Text>) -> bool {
    parts.len() == 3 && parts[0].len() > 0 && parts[1].len() > 0 && parts[2].len() > 0
}

/// The envelope of a compact request.
pub open spec fn compact_envelope(protocol: Text, request: Text) -> Result<
    EnvelopeModel,
    MatcherErrorModel,
> {
    let parts = split_on(request, '.');
    if has_three_parts(parts) {
        compact_of(parts, json_part(protocol, parts[0]), json_part(protocol, parts[1]))
    } else {
        Err(malformed(protocol))
    }
}

/// The decoded signatures of a request with several, or the first fault.
pub open spec fn decoded_signatures(protocol: Text, signatures: Seq<SignatureModel>) -> Result<
    Seq<SignedSignatureModel>,
    MatcherErrorModel,
>
    decreases signatures.len(),
{
    if signatures.len() == 0 {
        Ok(Seq::empty())
    } else {
        match decoded_signatures(protocol, signatures.drop_last()) {
            Err(error) => Err(error),
            Ok(earlier) => {
                let last = signatures.last();
                if last.protected.len() == 0 || last.signature.len() == 0 {
                    Err(malformed(protocol))
                } else {
                    match json_part(protocol, last.protected) {
                        Err(error) => Err(error),
                        Ok(protected) => Ok(
                            earlier.push(
                                SignedSignatureModel {
                                    protected_b64: last.protected,
                                    protected,
                                    signature_b64: last.signature,
                                    header: last.header,
                                },
                            ),
                        ),
                    }
                }
            },
        }
    }
}

/// The envelope of a request with several signatures.
pub open spec fn json_envelope(
    protocol: Text,
    payload: Text,
    signatures: Seq<SignatureModel>,
) -> Result<EnvelopeModel, MatcherErrorModel> {
    if signatures.len() == 0 {
        Err(malformed(protocol))
    } else {
        match json_part(protocol, payload) {
            Err(error) => Err(error),
            Ok(document) => match decoded_signatures(protocol, signatures) {
                Err(error) => Err(error),
                Ok(decoded) => Ok(
                    EnvelopeModel {
                        format: OpenId4VpSignedFormat::Json,
                        payload_b64: payload,
                        payload: document,
                        signatures: decoded,
                    },
                ),
            },
        }
    }
}

/// The parts of `text` between the occurrences of `separator`.
pub fn split_text(text: &str, separator: char) -> (parts: Vec<String>)
    ensures
        parts.deep_view() == split_on(text@, separator),
{
    let chars = chars_of(text);
    let ghost whole = text@;
    let ghost hit = is_separator(separator);
    let mut parts: Vec<String> = Vec::new();
    let mut from: usize = 0;
    let mut at: usize = 0;
    assert(whole.skip(0) =~= whole);
    assert(parts.deep_view() =~= Seq::<Text>::empty());
    assert(split_on(whole, separator) =~= parts.deep_view() + split_on(whole.skip(0), separator));
    while at < chars.len()
        invariant
            from <= at <= chars.len(),
            chars@ == whole,
            hit == is_separator(separator),
            forall|j: int| from <= j < at ==> whole[j] != separator,
            split_on(whole, separator) == parts.deep_view() + split_on(
                whole.skip(from as int),
                separator,
            ),
        decreases chars.len() - at,
    {
        if chars[at] == separator {
            let ghost rest = whole.skip(from as int);
            let ghost before = parts.deep_view();
            let part = slice_text(&chars, from, at);
            proof {
                assert forall|j: int| 0 <= j < at - from implies !hit(#[trigger] rest[j]) by {
                    assert(rest[j] == whole[from + j]);
                }
                assert(rest[at - from] == whole[at as int]);
                lemma_first_where_is(rest, hit, at - from);
                assert(rest.take(at - from) =~= whole.subrange(from as int, at as int));
                assert(rest.skip(at - from + 1) =~= whole.skip(at + 1));
                assert(split_on(rest, separator) == seq![rest.take(at - from)] + split_on(
                    rest.skip(at - from + 1),
                    separator,
                ));
            }
            parts.push(part);
            proof {
                assert(parts.deep_view() =~= before.push(part@));
                assert(before + split_on(rest, separator) =~= parts.deep_view() + split_on(
                    whole.skip(at + 1),
                    separator,
                ));
            }
            from = at + 1;
        }
        at = at + 1;
    }
    let ghost rest = whole.skip(from as int);
    let ghost before = parts.deep_view();
    let part = slice_text(&chars, from, chars.len());
    proof {
        lemma_first_where(rest, hit);
        if let Some(k) = first_where(rest, hit) {
            assert(rest[k] == whole[from + k]);
        }
        assert(whole.subrange(from as int, whole.len() as int) =~= rest);
        assert(split_on(rest, separator) =~= seq![rest]);
    }
    parts.push(part);
    assert(parts.deep_view() =~= before + seq![rest]);
    parts
}

/// The text of the characters from `from` up to `to`.
fn slice_text(chars: &Vec<char>, from: usize, to: usize) -> (text: String)
    requires
        from <= to <= chars.len(),
    ensures
        text@ == chars@.subrange(from as int, to as int),
{
    let mut text = String::new();
    let mut i: usize = from;
    assert(text@ =~= chars@.subrange(from as int, from as int));
    while i < to
        invariant
            from <= i <= to <= chars.len(),
            text@ == chars@.subrange(from as int, i as int),
        decreases to - i,
    {
        text.push(chars[i]);
        i = i + 1;
        assert(text@ =~= chars@.subrange(from as int, i as int));
    }
    text
}

/// The error for a signed request that does not have its parts.
fn malformed_request(protocol: &str) -> (error: MatcherError)
    ensures
        error.deep_view() == malformed(protocol@),
{
    MatcherError::InvalidOpenId4Vp(
        OpenId4VpError::SignedRequestMalformed { protocol: protocol.to_owned() },
    )
}

/// Reads decoded bytes as JSON.
pub fn json_from_bytes(
    protocol: &str,
    bytes: Result<Vec<u8>, Base64Error>,
) -> (part: Result<serde_json::Value, MatcherError>)
    ensures
        part_view(part) == part_of(protocol@, crate::base64url::decoding(bytes)),
{
    match bytes {
        Err(error) => Err(MatcherError::InvalidBase64(error)),
        Ok(bytes) => match parse_json(&bytes) {
            Ok(value) => Ok(value),
            Err(message) => Err(
                MatcherError::InvalidOpenId4Vp(
                    OpenId4VpError::SignedPayloadNotSupported {
                        protocol: protocol.to_owned(),
                        message,
                    },
                ),
            ),
        },
    }
}

/// Decodes a base64url JSON part.
pub fn decode_base64url_json(
    protocol: &str,
    input: &str,
) -> (part: Result<serde_json::Value, MatcherError>)
    ensures
        part_view(part) == json_part(protocol@, input@),
{
    json_from_bytes(protocol, decode_base64url(input))
}

/// Puts together the envelope of a compact request.
pub fn assemble_compact(
    parts: &Vec<String>,
    protected: Result<serde_json::Value, MatcherError>,
    payload: Result<serde_json::Value, MatcherError>,
) -> (envelope: Result<OpenId4VpSignedEnvelope, MatcherError>)
    requires
        parts.len() == 3,
    ensures
        result_view(envelope) == compact_of(
            parts.deep_view(),
            part_view(protected),
            part_view(payload),
        ),
{
    let protected = match protected {
        Ok(protected) => protected,
        Err(error) => return Err(error),
    };
    let payload = match payload {
        Ok(payload) => payload,
        Err(error) => return Err(error),
    };
    let ghost texts = parts.deep_view();
    let signature = OpenId4VpSignedSignature {
        protected_b64: parts[0].clone(),
        protected,
        signature_b64: parts[2].clone(),
        header: None,
    };
    let ghost model = signature.deep_view();
    let signatures = vec![signature];
    proof {
        assert(texts[0] == parts@[0]@ && texts[1] == parts@[1]@ && texts[2] == parts@[2]@);
        assert(signatures.deep_view() =~= seq![model]);
    }
    Ok(
        OpenId4VpSignedEnvelope {
            format: OpenId4VpSignedFormat::Compact,
            payload_b64: parts[1].clone(),
            payload,
            signatures,
        },
    )
}

/// Decodes a compact request.
pub fn decode_openid4vp_signed_envelope(
    protocol: &str,
    data: &OpenId4VpSignedData,
) -> (envelope: Result<OpenId4VpSignedEnvelope, MatcherError>)
    ensures
        result_view(envelope) == compact_envelope(protocol@, data.request@),
{
    let parts = split_text(data.request.as_str(), '.');
    let ghost texts = parts.deep_view();
    assert(texts.len() == parts.len());
    if parts.len() != 3 {
        return Err(malformed_request(protocol));
    }
    assert(texts[0] == parts@[0]@ && texts[1] == parts@[1]@ && texts[2] == parts@[2]@);
    if parts[0].as_str().is_empty() || parts[1].as_str().is_empty()
        || parts[2].as_str().is_empty() {
        return Err(malformed_request(protocol));
    }
    let protected = decode_base64url_json(protocol, parts[0].as_str());
    let payload = decode_base64url_json(protocol, parts[1].as_str());
    assemble_compact(&parts, protected, payload)
}

/// Copies an optional document.
fn clone_header(header: &Option<JsonValue>) -> (copy: Option<JsonValue>)
    ensures
        copy.deep_view() == header.deep_view(),
{
    match header {
        Some(header) => Some(header.clone()),
        None => None,
    }
}

/// Decodes a request with several signatures.
pub fn decode_openid4vp_multisigned_envelope(
    protocol: &str,
    data: &OpenId4VpMultiSignedData,
) -> (envelope: Result<OpenId4VpSignedEnvelope, MatcherError>)
    ensures
        result_view(envelope) == json_envelope(
            protocol@,
            data.payload@,
            data.signatures.deep_view(),
        ),
{
    let ghost all = data.signatures.deep_view();
    assert(all.len() == data.signatures.len());
    if data.signatures.is_empty() {
        return Err(malformed_request(protocol));
    }
    let payload = match decode_base64url_json(protocol, data.payload.as_str()) {
        Ok(payload) => payload,
        Err(error) => return Err(error),
    };
    let mut signatures: Vec<OpenId4VpSignedSignature> = Vec::new();
    let mut i: usize = 0;
    assert(signatures.deep_view() =~= Seq::<SignedSignatureModel>::empty());
    assert(all.take(0) =~= Seq::<SignatureModel>::empty());
    while i < data.signatures.len()
        invariant
            i <= data.signatures.len(),
            all == data.signatures.deep_view(),
            all.len() > 0,
            json_part(protocol@, data.payload@) == Ok::<serde_json::Value, MatcherErrorModel>(
                payload,
            ),
            decoded_signatures(protocol@, all.take(i as int)) == Ok::<
                Seq<SignedSignatureModel>,
                MatcherErrorModel,
            >(signatures.deep_view()),
        decreases data.signatures.len() - i,
    {
        let signature = &data.signatures[i];
        let ghost before = signatures.deep_view();
        proof {
            assert(all[i as int] == signature.deep_view());
            assert(all.take(i + 1).drop_last() =~= all.take(i as int));
            assert(all.take(i + 1).last() == signature.deep_view());
        }
        if signature.protected.as_str().is_empty() || signature.signature.as_str().is_empty() {
            proof {
                lemma_signature_fault(protocol@, all, i + 1);
            }
            return Err(malformed_request(protocol));
        }
        let protected = match decode_base64url_json(protocol, signature.protected.as_str()) {
            Ok(protected) => protected,
            Err(error) => {
                proof {
                    lemma_signature_fault(protocol@, all, i + 1);
                }
                return Err(error);
            },
        };
        let decoded = OpenId4VpSignedSignature {
            protected_b64: signature.protected.clone(),
            protected,
            signature_b64: signature.signature.clone(),
            header: clone_header(&signature.header),
        };
        let ghost model = decoded.deep_view();
        signatures.push(decoded);
        assert(signatures.deep_view() =~= before.push(model));
        i = i + 1;
    }
    proof {
        lemma_take_all(all);
    }
    Ok(
        OpenId4VpSignedEnvelope {
            format: OpenId4VpSignedFormat::Json,
            payload_b64: data.payload.clone(),
            payload,
            signatures,
        },
    )
}

/// The first fault among the signatures is the one that is reported.
proof fn lemma_signature_fault(protocol: Text, signatures: Seq<SignatureModel>, n: int)
    requires
        0 <= n <= signatures.len(),
        decoded_signatures(protocol, signatures.take(n)) is Err,
    ensures
        decoded_signatures(protocol, signatures) == decoded_signatures(
            protocol,
            signatures.take(n),
        ),
    decreases signatures.len() - n,
{
    if n == signatures.len() {
        lemma_take_all(signatures);
    } else {
        assert(signatures.take(n + 1).drop_last() =~= signatures.take(n));
        lemma_signature_fault(protocol, signatures, n + 1);
    }
}

} // verus!
