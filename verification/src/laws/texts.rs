//! What holds of texts, and of documents as text.

use crate::c8::{nul_free, without_nul};
use crate::idset::{lemma_sorted_listing, sorted_ids};
use crate::json::{JsonModel, NumberModel};
use crate::laws::listings::{drawn_at, lemma_filtering_keeps_the_order};
use crate::models::{claim_value_json, ClaimValueModel};
use crate::render::{array_document, document_text, flag_document, json_text, number_document};
use crate::render::{object_document, rendered, rendered_items, rendered_members, string_document};
use crate::text::{decimal, precedes, Text};
use vstd::prelude::*;

verus! {

/// Whether a text comes before another by what they hold at this place: they are equal up to there,
/// and there the first ends and the other does not, or it has the lower character.
pub open spec fn differs_at(left: Text, right: Text, k: int) -> bool {
    &&& 0 <= k <= left.len()
    &&& k < right.len()
    &&& forall|i: int| 0 <= i < k ==> #[trigger] left[i] == right[i]
    &&& k == left.len() || (left[k] as int) < (right[k] as int)
}

/// Whether a text comes before another.
pub open spec fn comes_before(left: Text, right: Text) -> bool {
    exists|k: int| differs_at(left, right, k)
}

/// A text precedes another exactly where the first difference says so.
pub proof fn lemma_the_first_difference_decides(left: Text, right: Text)
    ensures
        precedes(left, right) <==> comes_before(left, right),
    decreases left.len(),
{
    if right.len() > 0 && left.len() > 0 && left[0] == right[0] {
        let (l, r) = (left.drop_first(), right.drop_first());
        lemma_the_first_difference_decides(l, r);
        if precedes(left, right) {
            let k = choose|k: int| differs_at(l, r, k);
            assert forall|i: int| 0 <= i < k + 1 implies #[trigger] left[i] == right[i] by {
                if i > 0 {
                    assert(l[i - 1] == r[i - 1]);
                }
            }
            assert(differs_at(left, right, k + 1));
        }
        if exists|k: int| differs_at(left, right, k) {
            let k = choose|k: int| differs_at(left, right, k);
            assert(k > 0);
            assert forall|i: int| 0 <= i < k - 1 implies #[trigger] l[i] == r[i] by {
                assert(left[i + 1] == right[i + 1]);
            }
            assert(differs_at(l, r, k - 1));
        }
    } else if right.len() > 0 {
        if precedes(left, right) {
            assert(differs_at(left, right, 0));
        }
        if exists|k: int| differs_at(left, right, k) {
            let k = choose|k: int| differs_at(left, right, k);
            if k > 0 {
                assert(left[0] == right[0]);
            }
        }
    }
}

/// Ids are sorted: all of them, each once, and none before one that precedes it.
pub proof fn lemma_ids_are_sorted(ids: Set<Text>)
    requires
        ids.finite(),
    ensures
        sorted_ids(ids).no_duplicates(),
        forall|id: Text| #[trigger] sorted_ids(ids).contains(id) <==> ids.contains(id),
        forall|i: int, j: int|
            0 <= i < j < sorted_ids(ids).len() ==> comes_before(
                #[trigger] sorted_ids(ids)[i],
                #[trigger] sorted_ids(ids)[j],
            ),
{
    let listed = sorted_ids(ids);
    lemma_sorted_listing(ids);
    assert forall|id: Text| #[trigger] listed.contains(id) <==> ids.contains(id) by {
        assert(listed.to_set().contains(id) <==> listed.contains(id));
    }
    assert forall|i: int, j: int| 0 <= i < j < listed.len() implies comes_before(
        #[trigger] listed[i],
        #[trigger] listed[j],
    ) by {
        assert(precedes(listed[i], listed[j]));
        lemma_the_first_difference_decides(listed[i], listed[j]);
    }
}

/// The number that digits stand for.
pub open spec fn numeral(digits: Text) -> int
    decreases digits.len(),
{
    if digits.len() == 0 {
        0
    } else {
        10 * numeral(digits.drop_last()) + (digits.last() as int - '0' as int)
    }
}

/// A number is written in decimal digits that stand for it, without leading zeros.
pub proof fn lemma_numbers_are_written_in_decimal(value: nat)
    ensures
        decimal(value).len() > 0,
        forall|i: int|
            0 <= i < decimal(value).len() ==> '0' as int <= #[trigger] decimal(value)[i] as int
                <= '9' as int,
        numeral(decimal(value)) == value,
        decimal(value)[0] == '0' ==> decimal(value).len() == 1,
    decreases value,
{
    reveal_with_fuel(numeral, 2);
    if value >= 10 {
        let rest = decimal(value / 10);
        lemma_numbers_are_written_in_decimal(value / 10);
        assert(decimal(value).drop_last() =~= rest);
        if decimal(value)[0] == '0' {
            assert(rest[0] == '0');
            assert(rest.len() == 1);
            assert(numeral(rest) == 0) by {
                assert(rest.drop_last().len() == 0);
            }
            assert(value / 10 == 0);
        }
    } else {
        assert(decimal(value).drop_last().len() == 0);
    }
}

/// A number of a document is written in decimal, behind a minus sign where it is negative, or as it
/// is where it is no integer.
pub proof fn lemma_numbers_of_documents(number: NumberModel)
    ensures
        match number {
            NumberModel::PosInt(value) => number.text() == decimal(value as nat),
            NumberModel::NegInt(value) => if value >= 0 {
                number.text() == decimal(value as nat)
            } else {
                number.text().len() > 0 && number.text()[0] == '-' && number.text().skip(1)
                    == decimal((-value) as nat)
            },
            NumberModel::Float(text) => number.text() == text,
        },
{
    if let NumberModel::NegInt(value) = number {
        if value < 0 {
            assert(number.text().skip(1) =~= decimal((-value) as nat));
        }
    }
}

/// Texts for the host are without NULs. All other characters stay, in order.
pub proof fn lemma_nuls_are_left_out(text: Text) -> (at: Seq<int>)
    ensures
        drawn_at(without_nul(text), text, at),
        forall|i: int| 0 <= i < text.len() ==> (#[trigger] at.contains(i) <==> text[i] != '\0'),
{
    lemma_filtering_keeps_the_order(text, |c: char| c != '\0')
}

/// A text is free of NULs exactly where none of its characters is one.
pub proof fn lemma_texts_without_nuls(text: Text)
    ensures
        nul_free(text) <==> forall|i: int| 0 <= i < text.len() ==> #[trigger] text[i] != '\0',
{
    if !nul_free(text) {
        assert(exists|i: int| 0 <= i < text.len() && #[trigger] text[i] == '\0');
    }
}

/// A claim value is the document of the same kind that holds the same text, integer or flag.
pub proof fn lemma_claim_values_as_documents(value: ClaimValueModel)
    ensures
        match value {
            ClaimValueModel::String(text) => claim_value_json(value) == JsonModel::String(text),
            ClaimValueModel::Integer(number) => claim_value_json(value) matches JsonModel::Number(
                own,
            ) && own.as_i64() == Some(number) && (number >= 0 <==> own is PosInt),
            ClaimValueModel::Boolean(flag) => claim_value_json(value) == JsonModel::Bool(flag),
        },
{
}

/// A document is rendered part by part: every element of an array at its place, and every member of
/// an object at its place and under its name.
pub proof fn lemma_documents_are_rendered_part_by_part(document: JsonModel)
    ensures
        json_text(document) == document_text(rendered(document)),
        match document {
            JsonModel::Null => rendered(document) == flag_document(None),
            JsonModel::Bool(flag) => rendered(document) == flag_document(Some(flag)),
            JsonModel::Number(number) => rendered(document) == number_document(number.text()),
            JsonModel::String(text) => rendered(document) == string_document(text),
            JsonModel::Array(items) => exists|parts: Seq<serde_json::Value>|
                rendered(document) == #[trigger] array_document(parts) && parts.len() == items.len()
                    && forall|i: int|
                    0 <= i < items.len() ==> #[trigger] parts[i] == rendered(items[i]),
            JsonModel::Object(members) => exists|parts: Seq<(Text, serde_json::Value)>|
                rendered(document) == #[trigger] object_document(parts) && parts.len()
                    == members.len() && forall|i: int|
                    0 <= i < members.len() ==> #[trigger] parts[i] == (
                        members[i].0,
                        rendered(members[i].1),
                    ),
        },
{
    match document {
        JsonModel::Array(items) => {
            lemma_items(items);
            assert(rendered(document) == array_document(rendered_items(items)));
        },
        JsonModel::Object(members) => {
            lemma_members(members);
            assert(rendered(document) == object_document(rendered_members(members)));
        },
        _ => {},
    }
}

proof fn lemma_items(items: Seq<JsonModel>)
    ensures
        rendered_items(items).len() == items.len(),
        forall|i: int|
            0 <= i < items.len() ==> #[trigger] rendered_items(items)[i] == rendered(items[i]),
    decreases items.len(),
{
    if items.len() > 0 {
        let rest = items.drop_last();
        lemma_items(rest);
        assert forall|i: int| 0 <= i < items.len() implies #[trigger] rendered_items(items)[i]
            == rendered(items[i]) by {
            if i < rest.len() {
                assert(rendered_items(rest)[i] == rendered(rest[i]));
            }
        }
    }
}

proof fn lemma_members(members: Seq<(Text, JsonModel)>)
    ensures
        rendered_members(members).len() == members.len(),
        forall|i: int|
            0 <= i < members.len() ==> #[trigger] rendered_members(members)[i] == (
                members[i].0,
                rendered(members[i].1),
            ),
    decreases members.len(),
{
    if members.len() > 0 {
        let rest = members.drop_last();
        lemma_members(rest);
        assert forall|i: int| 0 <= i < members.len() implies #[trigger] rendered_members(members)[i]
            == (members[i].0, rendered(members[i].1)) by {
            if i < rest.len() {
                assert(rendered_members(rest)[i] == (rest[i].0, rendered(rest[i].1)));
            }
        }
    }
}

} // verus!
