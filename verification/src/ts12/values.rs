//! The value types of displayable transaction claims.

use crate::json::{JsonModel, JsonValue};
use crate::text::{chars_of, same_text, starts_with, Text};
use vstd::prelude::*;

verus! {

broadcast use vstd::string::group_string_axioms;

/// Whether a character is a decimal digit.
pub open spec fn is_digit(c: char) -> bool {
    '0' <= c <= '9'
}

/// Whether a text is made of decimal digits, and is not empty.
pub open spec fn is_number(text: Text) -> bool {
    text.len() > 0 && forall|i: int| 0 <= i < text.len() ==> is_digit(#[trigger] text[i])
}

/// Whether a text is a decimal amount: digits, or digits around one point.
pub open spec fn is_amount(text: Text) -> bool {
    is_number(text) || exists|k: int|
        0 <= k < text.len() && #[trigger] text[k] == '.' && is_number(text.take(k)) && is_number(
            text.skip(k + 1),
        )
}

/// Whether a text is a currency code: three capital letters.
pub open spec fn is_currency(text: Text) -> bool {
    text.len() == 3 && forall|i: int| 0 <= i < text.len() ==> 'A' <= #[trigger] text[i] <= 'Z'
}

/// Whether a text is an amount and a currency code, with a blank between them.
pub open spec fn is_currency_amount(text: Text) -> bool {
    &&& text.len() > 4
    &&& text[text.len() - 4] == ' '
    &&& is_amount(text.take(text.len() - 4))
    &&& is_currency(text.skip(text.len() - 3))
}

/// Whether a text has the form of a date, `YYYY-MM-DD`.
pub open spec fn is_date(text: Text) -> bool {
    &&& text.len() == 10
    &&& text[4] == '-'
    &&& text[7] == '-'
    &&& forall|i: int| 0 <= i < text.len() && i != 4 && i != 7 ==> is_digit(#[trigger] text[i])
}

/// Whether a text begins in the form of a time, `HH:MM`.
pub open spec fn is_time(text: Text) -> bool {
    &&& text.len() >= 5
    &&& text[2] == ':'
    &&& forall|i: int| 0 <= i < 5 && i != 2 ==> is_digit(#[trigger] text[i])
}

/// Whether a text is a date and a time, with a `T` between them.
pub open spec fn is_date_time(text: Text) -> bool {
    &&& text.len() > 10
    &&& text[10] == 'T'
    &&& is_date(text.take(10))
    &&& is_time(text.skip(11))
}

/// The codes for how often a payment recurs.
pub open spec fn frequency_codes() -> Seq<Text> {
    seq![
        "INDA"@,
        "DAIL"@,
        "WEEK"@,
        "TOWK"@,
        "TWMN"@,
        "MNTH"@,
        "TOMN"@,
        "QUTR"@,
        "FOMN"@,
        "SEMI"@,
        "YEAR"@,
        "TYEA"@,
    ]
}

/// The value types that can be displayed.
pub open spec fn value_types() -> Seq<Text> {
    seq![
        "boolean"@,
        "frequency"@,
        "image"@,
        "iso_date"@,
        "iso_time"@,
        "iso_date_time"@,
        "iso_currency"@,
        "iso_currency_amount"@,
        "label_only"@,
        "mini_markdown"@,
        "url"@,
    ]
}

/// Whether a value is of a value type.
pub open spec fn conforms(value: JsonModel, value_type: Text) -> bool {
    if value_type == "boolean"@ {
        value is Bool
    } else if value_type == "label_only"@ {
        true
    } else {
        match value {
            JsonModel::String(text) => if value_type == "frequency"@ {
                frequency_codes().contains(text)
            } else if value_type == "image"@ || value_type == "mini_markdown"@ || value_type
                == "url"@ {
                true
            } else if value_type == "iso_date"@ {
                is_date(text)
            } else if value_type == "iso_time"@ {
                is_time(text)
            } else if value_type == "iso_date_time"@ {
                is_date_time(text)
            } else if value_type == "iso_currency"@ {
                is_currency(text)
            } else if value_type == "iso_currency_amount"@ {
                is_currency_amount(text)
            } else {
                false
            },
            _ => false,
        }
    }
}

/// Whether an image has to be accompanied by an integrity claim: it is a reference to somewhere
/// else.
pub open spec fn needs_integrity(value: JsonModel) -> bool {
    match value {
        JsonModel::String(text) => text.len() > 0 && !"data:"@.is_prefix_of(text),
        _ => false,
    }
}

fn digit(c: char) -> (is: bool)
    ensures
        is == is_digit(c),
{
    '0' <= c && c <= '9'
}

/// Whether the characters from `from` up to `to` are decimal digits, and there are any.
fn number_between(chars: &Vec<char>, from: usize, to: usize) -> (is: bool)
    requires
        from <= to <= chars.len(),
    ensures
        is == is_number(chars@.subrange(from as int, to as int)),
{
    let ghost text = chars@.subrange(from as int, to as int);
    let mut i: usize = from;
    while i < to
        invariant
            from <= i <= to <= chars.len(),
            text == chars@.subrange(from as int, to as int),
            forall|j: int| 0 <= j < i - from ==> is_digit(#[trigger] text[j]),
        decreases to - i,
    {
        assert(text[i - from] == chars@[i as int]);
        if !digit(chars[i]) {
            return false;
        }
        i = i + 1;
    }
    from < to
}

/// Whether the first `end` characters are a decimal amount.
fn amount_before(chars: &Vec<char>, end: usize) -> (is: bool)
    requires
        end <= chars.len(),
    ensures
        is == is_amount(chars@.take(end as int)),
{
    let ghost text = chars@.take(end as int);
    let mut point: usize = 0;
    while point < end && digit(chars[point])
        invariant
            point <= end <= chars.len(),
            text == chars@.take(end as int),
            forall|j: int| 0 <= j < point ==> is_digit(#[trigger] text[j]),
        decreases end - point,
    {
        assert(text[point as int] == chars@[point as int]);
        point = point + 1;
    }
    if point == end {
        proof {
            if is_amount(text) && !is_number(text) {
                let k = choose|k: int|
                    0 <= k < text.len() && #[trigger] text[k] == '.' && is_number(text.take(k))
                        && is_number(text.skip(k + 1));
                assert(is_digit(text[k]));
            }
        }
        return end > 0;
    }
    assert(text[point as int] == chars@[point as int]);
    assert(!is_number(text));
    if chars[point] != '.' {
        proof {
            if is_amount(text) {
                let k = choose|k: int|
                    0 <= k < text.len() && #[trigger] text[k] == '.' && is_number(text.take(k))
                        && is_number(text.skip(k + 1));
                if k < point {
                    assert(is_digit(text[k]));
                } else if k > point {
                    assert(text.take(k)[point as int] == text[point as int]);
                    assert(is_digit(text.take(k)[point as int]));
                }
            }
        }
        return false;
    }
    let is = point > 0 && number_between(chars, point + 1, end);
    proof {
        assert(chars@.subrange(point + 1, end as int) =~= text.skip(point + 1));
        if is {
            assert forall|j: int| 0 <= j < text.take(point as int).len() implies is_digit(
                #[trigger] text.take(point as int)[j],
            ) by {
                assert(text.take(point as int)[j] == text[j]);
            }
            assert(is_number(text.take(point as int)));
        } else if is_amount(text) {
            let k = choose|k: int|
                0 <= k < text.len() && #[trigger] text[k] == '.' && is_number(text.take(k))
                    && is_number(text.skip(k + 1));
            if k < point {
                assert(is_digit(text[k]));
            } else if k > point {
                assert(text.take(k)[point as int] == '.');
                assert(is_digit(text.take(k)[point as int]));
            }
        }
    }
    is
}

/// Whether `value` is a decimal amount.
pub fn is_decimal_amount(value: &str) -> (is: bool)
    ensures
        is == is_amount(value@),
{
    let chars = chars_of(value);
    assert(chars@.take(chars@.len() as int) =~= value@);
    amount_before(&chars, chars.len())
}

/// Whether the last three of the characters, from `at` on, are a currency code.
fn currency_from(chars: &Vec<char>, at: usize) -> (is: bool)
    requires
        at <= chars.len(),
    ensures
        is == is_currency(chars@.skip(at as int)),
{
    let ghost text = chars@.skip(at as int);
    if chars.len() - at != 3 {
        return false;
    }
    let mut i: usize = at;
    while i < chars.len()
        invariant
            at <= i <= chars.len(),
            text == chars@.skip(at as int),
            forall|j: int| 0 <= j < i - at ==> 'A' <= #[trigger] text[j] <= 'Z',
        decreases chars.len() - i,
    {
        assert(text[i - at] == chars@[i as int]);
        if chars[i] < 'A' || chars[i] > 'Z' {
            return false;
        }
        i = i + 1;
    }
    true
}

/// Whether `value` is a currency code.
pub fn is_iso_currency(value: &str) -> (is: bool)
    ensures
        is == is_currency(value@),
{
    let chars = chars_of(value);
    assert(chars@.skip(0) =~= value@);
    currency_from(&chars, 0)
}

/// Whether `value` is an amount with a currency code.
pub fn is_iso_currency_amount(value: &str) -> (is: bool)
    ensures
        is == is_currency_amount(value@),
{
    let chars = chars_of(value);
    let n = chars.len();
    if n <= 4 {
        return false;
    }
    chars[n - 4] == ' ' && amount_before(&chars, n - 4) && currency_from(&chars, n - 3)
}

/// Whether the characters begin in the form of a date.
fn date_first(chars: &Vec<char>) -> (is: bool)
    ensures
        is == (chars@.len() >= 10 && is_date(chars@.take(10))),
{
    if chars.len() < 10 {
        return false;
    }
    let ghost text = chars@.take(10);
    let mut i: usize = 0;
    while i < 10
        invariant
            i <= 10,
            chars.len() >= 10,
            text == chars@.take(10),
            forall|j: int| 0 <= j < i && j != 4 && j != 7 ==> is_digit(#[trigger] text[j]),
            i > 4 ==> text[4] == '-',
            i > 7 ==> text[7] == '-',
        decreases 10 - i,
    {
        assert(text[i as int] == chars@[i as int]);
        if i == 4 || i == 7 {
            if chars[i] != '-' {
                return false;
            }
        } else if !digit(chars[i]) {
            return false;
        }
        i = i + 1;
    }
    true
}

/// Whether `value` has the form of a date.
pub fn is_iso_date(value: &str) -> (is: bool)
    ensures
        is == is_date(value@),
{
    let chars = chars_of(value);
    assert(chars@.len() == 10 ==> chars@.take(10) =~= value@);
    chars.len() == 10 && date_first(&chars)
}

/// Whether the characters from `at` on begin in the form of a time.
fn time_from(chars: &Vec<char>, at: usize) -> (is: bool)
    requires
        at <= chars.len(),
    ensures
        is == is_time(chars@.skip(at as int)),
{
    let ghost text = chars@.skip(at as int);
    if chars.len() - at < 5 {
        return false;
    }
    assert forall|k: int| 0 <= k < 5 implies text[k] == chars@[at + k] by {}
    let is = digit(chars[at]) && digit(chars[at + 1]) && chars[at + 2] == ':' && digit(
        chars[at + 3],
    ) && digit(chars[at + 4]);
    proof {
        if is {
            assert forall|i: int| 0 <= i < 5 && i != 2 implies is_digit(#[trigger] text[i]) by {
                assert(i == 0 || i == 1 || i == 3 || i == 4);
            }
        } else if is_time(text) {
            assert(is_digit(text[0]) && is_digit(text[1]) && is_digit(text[3]) && is_digit(text[4]));
        }
    }
    is
}

/// Whether `value` begins in the form of a time.
pub fn is_iso_time(value: &str) -> (is: bool)
    ensures
        is == is_time(value@),
{
    let chars = chars_of(value);
    assert(chars@.skip(0) =~= value@);
    time_from(&chars, 0)
}

/// Whether `value` is a date and a time.
pub fn is_iso_date_time(value: &str) -> (is: bool)
    ensures
        is == is_date_time(value@),
{
    let chars = chars_of(value);
    if chars.len() <= 10 {
        return false;
    }
    chars[10] == 'T' && date_first(&chars) && time_from(&chars, 11)
}

/// Whether `value` says how often a payment recurs.
pub fn is_frequency_code(value: &str) -> (is: bool)
    ensures
        is == frequency_codes().contains(value@),
{
    proof {
        let codes = frequency_codes();
        assert(codes[0] == "INDA"@ && codes[1] == "DAIL"@ && codes[2] == "WEEK"@);
        assert(codes[3] == "TOWK"@ && codes[4] == "TWMN"@ && codes[5] == "MNTH"@);
        assert(codes[6] == "TOMN"@ && codes[7] == "QUTR"@ && codes[8] == "FOMN"@);
        assert(codes[9] == "SEMI"@ && codes[10] == "YEAR"@ && codes[11] == "TYEA"@);
        assert(codes.len() == 12);
    }
    same_text(value, "INDA") || same_text(value, "DAIL") || same_text(value, "WEEK") || same_text(
        value,
        "TOWK",
    ) || same_text(value, "TWMN") || same_text(value, "MNTH") || same_text(value, "TOMN")
        || same_text(value, "QUTR") || same_text(value, "FOMN") || same_text(value, "SEMI")
        || same_text(value, "YEAR") || same_text(value, "TYEA")
}

/// Whether `value_type` can be displayed.
pub fn is_supported_value_type(value_type: &str) -> (is: bool)
    ensures
        is == value_types().contains(value_type@),
{
    proof {
        let types = value_types();
        assert(types[0] == "boolean"@ && types[1] == "frequency"@ && types[2] == "image"@);
        assert(types[3] == "iso_date"@ && types[4] == "iso_time"@);
        assert(types[5] == "iso_date_time"@ && types[6] == "iso_currency"@);
        assert(types[7] == "iso_currency_amount"@ && types[8] == "label_only"@);
        assert(types[9] == "mini_markdown"@ && types[10] == "url"@);
        assert(types.len() == 11);
    }
    same_text(value_type, "boolean") || same_text(value_type, "frequency") || same_text(
        value_type,
        "image",
    ) || same_text(value_type, "iso_date") || same_text(value_type, "iso_time") || same_text(
        value_type,
        "iso_date_time",
    ) || same_text(value_type, "iso_currency") || same_text(value_type, "iso_currency_amount")
        || same_text(value_type, "label_only") || same_text(value_type, "mini_markdown")
        || same_text(value_type, "url")
}

/// Whether `value` is of the value type `value_type`.
pub fn value_conforms_to_type(value: &JsonValue, value_type: &str) -> (is: bool)
    ensures
        is == conforms(value.deep_view(), value_type@),
{
    if same_text(value_type, "boolean") {
        return value.is_boolean();
    }
    if same_text(value_type, "label_only") {
        return true;
    }
    let text = match value.as_str() {
        Some(text) => text,
        None => return false,
    };
    if same_text(value_type, "frequency") {
        is_frequency_code(text)
    } else if same_text(value_type, "image") || same_text(value_type, "mini_markdown") || same_text(
        value_type,
        "url",
    ) {
        true
    } else if same_text(value_type, "iso_date") {
        is_iso_date(text)
    } else if same_text(value_type, "iso_time") {
        is_iso_time(text)
    } else if same_text(value_type, "iso_date_time") {
        is_iso_date_time(text)
    } else if same_text(value_type, "iso_currency") {
        is_iso_currency(text)
    } else if same_text(value_type, "iso_currency_amount") {
        is_iso_currency_amount(text)
    } else {
        false
    }
}

/// Whether the image `value` has to be accompanied by an integrity claim.
pub fn image_requires_integrity(value: &JsonValue) -> (requires_it: bool)
    ensures
        requires_it == needs_integrity(value.deep_view()),
{
    match value.as_str() {
        Some(text) => !text.is_empty() && !starts_with(text, "data:"),
        None => false,
    }
}

} // verus!
