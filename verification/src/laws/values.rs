//! What holds of values that are of a value type.

use crate::json::JsonModel;
use crate::text::Text;
use crate::ts12::values::{conforms, frequency_codes, is_amount, is_currency, is_date, is_number};
use crate::ts12::values::{is_time, needs_integrity, value_types};
use vstd::prelude::*;

verus! {

/// Whether a text consists of so many decimal digits.
pub open spec fn digits(text: Text, count: nat) -> bool {
    text.len() == count && forall|i: int| 0 <= i < count ==> '0' <= #[trigger] text[i] <= '9'
}

/// Whether a text is a number of this form: digits, or digits on both sides of a point.
pub open spec fn amount_of(text: Text, whole: Text, fraction: Option<Text>) -> bool {
    &&& whole.len() > 0 && digits(whole, whole.len())
    &&& match fraction {
        Some(fraction) => fraction.len() > 0 && digits(fraction, fraction.len()) && text == whole
            + seq!['.'] + fraction,
        None => text == whole,
    }
}

/// An amount is digits, or digits on both sides of a point, and nothing else is one.
pub proof fn lemma_amounts(text: Text)
    ensures
        is_amount(text) <==> exists|whole: Text, fraction: Option<Text>| #[trigger]
            amount_of(text, whole, fraction),
{
    if is_amount(text) {
        if is_number(text) {
            assert(amount_of(text, text, None));
        } else {
            let k = choose|k: int|
                0 <= k < text.len() && #[trigger] text[k] == '.' && is_number(text.take(k))
                    && is_number(text.skip(k + 1));
            assert(text =~= text.take(k) + seq!['.'] + text.skip(k + 1));
            assert(amount_of(text, text.take(k), Some(text.skip(k + 1))));
        }
    }
    if exists|whole: Text, fraction: Option<Text>| #[trigger] amount_of(text, whole, fraction) {
        let (whole, fraction) = choose|whole: Text, fraction: Option<Text>| #[trigger]
            amount_of(text, whole, fraction);
        match fraction {
            Some(fraction) => {
                let k = whole.len() as int;
                assert(text[k] == '.');
                assert(text.take(k) =~= whole);
                assert(text.skip(k + 1) =~= fraction);
                assert(is_number(text.take(k)) && is_number(text.skip(k + 1)));
            },
            None => {
                assert(is_number(text));
            },
        }
    }
}

/// Whether a text consists of these three letters, all of them capital.
pub open spec fn code_of(text: Text, a: char, b: char, c: char) -> bool {
    text == seq![a, b, c] && 'A' <= a <= 'Z' && 'A' <= b <= 'Z' && 'A' <= c <= 'Z'
}

/// A currency code is three capital letters, and nothing else is one.
pub proof fn lemma_currencies(text: Text)
    ensures
        conforms(JsonModel::String(text), "iso_currency"@) <==> exists|a: char, b: char, c: char| #[trigger]
            code_of(text, a, b, c),
        is_currency(text) == conforms(JsonModel::String(text), "iso_currency"@),
{
    lemma_value_type_names();
    if is_currency(text) {
        assert('A' <= text[0] <= 'Z' && 'A' <= text[1] <= 'Z' && 'A' <= text[2] <= 'Z');
        assert(text =~= seq![text[0], text[1], text[2]]);
        assert(code_of(text, text[0], text[1], text[2]));
    }
}

/// An amount with a currency is an amount, a blank and a currency code, and nothing else is one.
pub proof fn lemma_currency_amounts(text: Text)
    ensures
        conforms(JsonModel::String(text), "iso_currency_amount"@) <==> exists|
            amount: Text,
            code: Text,
        |
            text == #[trigger] (amount + seq![' '] + code) && is_amount(amount) && is_currency(code),
{
    lemma_value_type_names();
    if conforms(JsonModel::String(text), "iso_currency_amount"@) {
        let amount = text.take(text.len() - 4);
        let code = text.skip(text.len() - 3);
        assert(text =~= amount + seq![' '] + code);
    }
    if exists|amount: Text, code: Text|
        text == #[trigger] (amount + seq![' '] + code) && is_amount(amount) && is_currency(code) {
        let (amount, code) = choose|amount: Text, code: Text|
            text == #[trigger] (amount + seq![' '] + code) && is_amount(amount) && is_currency(code);
        assert(amount.len() > 0);
        assert(text.take(text.len() - 4) =~= amount);
        assert(text.skip(text.len() - 3) =~= code);
        assert(text[text.len() - 4] == ' ');
    }
}

/// A date is four, two and two digits with a dash between them, and nothing else is one.
pub proof fn lemma_dates(text: Text)
    ensures
        conforms(JsonModel::String(text), "iso_date"@) <==> exists|
            year: Text,
            month: Text,
            day: Text,
        |
            text == #[trigger] (year + seq!['-'] + month + seq!['-'] + day) && digits(year, 4)
                && digits(month, 2) && digits(day, 2),
        is_date(text) == conforms(JsonModel::String(text), "iso_date"@),
{
    lemma_value_type_names();
    if is_date(text) {
        let year = text.take(4);
        let month = text.subrange(5, 7);
        let day = text.skip(8);
        assert(text =~= year + seq!['-'] + month + seq!['-'] + day);
        assert forall|i: int| 0 <= i < 4 implies '0' <= #[trigger] year[i] <= '9' by {
            assert(year[i] == text[i]);
        }
        assert forall|i: int| 0 <= i < 2 implies '0' <= #[trigger] month[i] <= '9' by {
            assert(month[i] == text[5 + i]);
        }
        assert forall|i: int| 0 <= i < 2 implies '0' <= #[trigger] day[i] <= '9' by {
            assert(day[i] == text[8 + i]);
        }
    }
    if exists|year: Text, month: Text, day: Text|
        text == #[trigger] (year + seq!['-'] + month + seq!['-'] + day) && digits(year, 4)
            && digits(month, 2) && digits(day, 2) {
        let (year, month, day) = choose|year: Text, month: Text, day: Text|
            text == #[trigger] (year + seq!['-'] + month + seq!['-'] + day) && digits(year, 4)
                && digits(month, 2) && digits(day, 2);
        assert(text.len() == 10);
        assert(text[4] == '-' && text[7] == '-');
        assert forall|i: int| 0 <= i < text.len() && i != 4 && i != 7 implies '0'
            <= #[trigger] text[i] <= '9' by {
            if i < 4 {
                assert(text[i] == year[i]);
            } else if i < 7 {
                assert(text[i] == month[i - 5]);
            } else {
                assert(text[i] == day[i - 8]);
            }
        }
    }
}

/// A time begins with two digits, a colon and two digits, and nothing else is one.
pub proof fn lemma_times(text: Text)
    ensures
        conforms(JsonModel::String(text), "iso_time"@) <==> exists|
            hour: Text,
            minute: Text,
            rest: Text,
        |
            text == #[trigger] (hour + seq![':'] + minute + rest) && digits(hour, 2) && digits(
                minute,
                2,
            ),
        is_time(text) == conforms(JsonModel::String(text), "iso_time"@),
{
    lemma_value_type_names();
    if is_time(text) {
        let hour = text.take(2);
        let minute = text.subrange(3, 5);
        let rest = text.skip(5);
        assert(text =~= hour + seq![':'] + minute + rest);
        assert forall|i: int| 0 <= i < 2 implies '0' <= #[trigger] hour[i] <= '9' by {
            assert(hour[i] == text[i]);
        }
        assert forall|i: int| 0 <= i < 2 implies '0' <= #[trigger] minute[i] <= '9' by {
            assert(minute[i] == text[3 + i]);
        }
    }
    if exists|hour: Text, minute: Text, rest: Text|
        text == #[trigger] (hour + seq![':'] + minute + rest) && digits(hour, 2) && digits(
            minute,
            2,
        ) {
        let (hour, minute, rest) = choose|hour: Text, minute: Text, rest: Text|
            text == #[trigger] (hour + seq![':'] + minute + rest) && digits(hour, 2) && digits(
                minute,
                2,
            );
        assert(text[2] == ':');
        assert forall|i: int| 0 <= i < 5 && i != 2 implies '0' <= #[trigger] text[i] <= '9' by {
            if i < 2 {
                assert(text[i] == hour[i]);
            } else {
                assert(text[i] == minute[i - 3]);
            }
        }
    }
}

/// A date and time is a date, a `T` and a time, and nothing else is one.
pub proof fn lemma_date_times(text: Text)
    ensures
        conforms(JsonModel::String(text), "iso_date_time"@) <==> exists|date: Text, time: Text|
            text == #[trigger] (date + seq!['T'] + time) && is_date(date) && is_time(time),
{
    lemma_value_type_names();
    if conforms(JsonModel::String(text), "iso_date_time"@) {
        assert(text =~= text.take(10) + seq!['T'] + text.skip(11));
    }
    if exists|date: Text, time: Text|
        text == #[trigger] (date + seq!['T'] + time) && is_date(date) && is_time(time) {
        let (date, time) = choose|date: Text, time: Text|
            text == #[trigger] (date + seq!['T'] + time) && is_date(date) && is_time(time);
        assert(text.take(10) =~= date);
        assert(text.skip(11) =~= time);
        assert(text[10] == 'T');
    }
}

/// Whether a name is none of those of value types that are not about dates or money.
spec fn is_dated_or_priced(name: Text) -> bool {
    name != "boolean"@ && name != "label_only"@ && name != "frequency"@ && name != "image"@ && name
        != "mini_markdown"@ && name != "url"@
}

/// The names of the value types differ.
proof fn lemma_value_type_names()
    ensures
        "boolean"@ != "label_only"@,
        "frequency"@ != "boolean"@ && "frequency"@ != "label_only"@,
        "image"@ != "boolean"@ && "image"@ != "label_only"@ && "image"@ != "frequency"@,
        "mini_markdown"@ != "boolean"@ && "mini_markdown"@ != "label_only"@ && "mini_markdown"@
            != "frequency"@,
        "url"@ != "boolean"@ && "url"@ != "label_only"@ && "url"@ != "frequency"@,
        is_dated_or_priced("iso_date"@),
        is_dated_or_priced("iso_time"@),
        is_dated_or_priced("iso_date_time"@),
        is_dated_or_priced("iso_currency"@),
        is_dated_or_priced("iso_currency_amount"@),
        "iso_time"@ != "iso_date"@,
        "iso_date_time"@ != "iso_date"@ && "iso_date_time"@ != "iso_time"@,
        "iso_currency"@ != "iso_date"@ && "iso_currency"@ != "iso_time"@ && "iso_currency"@
            != "iso_date_time"@,
        "iso_currency_amount"@ != "iso_date"@ && "iso_currency_amount"@ != "iso_time"@
            && "iso_currency_amount"@ != "iso_date_time"@ && "iso_currency_amount"@
            != "iso_currency"@,
{
    reveal_strlit("boolean");
    reveal_strlit("label_only");
    reveal_strlit("frequency");
    reveal_strlit("image");
    reveal_strlit("mini_markdown");
    reveal_strlit("url");
    reveal_strlit("iso_date");
    reveal_strlit("iso_time");
    reveal_strlit("iso_date_time");
    reveal_strlit("iso_currency");
    reveal_strlit("iso_currency_amount");
    assert("boolean"@[0] == 'b');
    assert("label_only"@[0] == 'l');
    assert("frequency"@[0] == 'f');
    assert("mini_markdown"@[0] == 'm');
    assert("url"@[0] == 'u');
    assert("image"@[0] == 'i' && "image"@[1] == 'm');
    assert("iso_date"@[0] == 'i' && "iso_date"@[1] == 's' && "iso_date"@[4] == 'd');
    assert("iso_time"@[0] == 'i' && "iso_time"@[1] == 's' && "iso_time"@[4] == 't');
    assert("iso_date_time"@[0] == 'i' && "iso_date_time"@[1] == 's' && "iso_date_time"@.len()
        == 13);
    assert("iso_currency"@[0] == 'i' && "iso_currency"@[1] == 's' && "iso_currency"@.len() == 12);
    assert("iso_currency_amount"@[0] == 'i' && "iso_currency_amount"@[1] == 's'
        && "iso_currency_amount"@.len() == 19);
    assert("iso_date"@.len() == 8 && "iso_time"@.len() == 8);
}

/// A truth value is a boolean, a label is anything, and everything else is text: a code for how
/// often something happens, or any text where an image, a link or marked-up text is expected.
pub proof fn lemma_kinds_of_values(value: JsonModel)
    ensures
        conforms(value, "boolean"@) <==> value is Bool,
        conforms(value, "label_only"@),
        conforms(value, "image"@) <==> value is String,
        conforms(value, "url"@) <==> value is String,
        conforms(value, "mini_markdown"@) <==> value is String,
        conforms(value, "frequency"@) ==> value is String,
        conforms(value, "iso_date"@) ==> value is String,
        conforms(value, "iso_time"@) ==> value is String,
        conforms(value, "iso_date_time"@) ==> value is String,
        conforms(value, "iso_currency"@) ==> value is String,
        conforms(value, "iso_currency_amount"@) ==> value is String,
{
    lemma_value_type_names();
}

/// The value types that are known are these.
pub proof fn lemma_known_value_types(name: Text)
    ensures
        value_types().contains(name) <==> name == "boolean"@ || name == "frequency"@ || name
            == "image"@ || name == "iso_date"@ || name == "iso_time"@ || name == "iso_date_time"@
            || name == "iso_currency"@ || name == "iso_currency_amount"@ || name == "label_only"@
            || name == "mini_markdown"@ || name == "url"@,
{
    let all = value_types();
    assert(all[0] == "boolean"@ && all[1] == "frequency"@ && all[2] == "image"@);
    assert(all[3] == "iso_date"@ && all[4] == "iso_time"@ && all[5] == "iso_date_time"@);
    assert(all[6] == "iso_currency"@ && all[7] == "iso_currency_amount"@);
    assert(all[8] == "label_only"@ && all[9] == "mini_markdown"@ && all[10] == "url"@);
    assert(all.len() == 11);
}

/// How often something happens is told by one of these codes.
pub proof fn lemma_frequencies(text: Text)
    ensures
        conforms(JsonModel::String(text), "frequency"@) <==> text == "INDA"@ || text == "DAIL"@
            || text == "WEEK"@ || text == "TOWK"@ || text == "TWMN"@ || text == "MNTH"@ || text
            == "TOMN"@ || text == "QUTR"@ || text == "FOMN"@ || text == "SEMI"@ || text == "YEAR"@
            || text == "TYEA"@,
{
    lemma_value_type_names();
    let all = frequency_codes();
    assert(all[0] == "INDA"@ && all[1] == "DAIL"@ && all[2] == "WEEK"@ && all[3] == "TOWK"@);
    assert(all[4] == "TWMN"@ && all[5] == "MNTH"@ && all[6] == "TOMN"@ && all[7] == "QUTR"@);
    assert(all[8] == "FOMN"@ && all[9] == "SEMI"@ && all[10] == "YEAR"@ && all[11] == "TYEA"@);
    assert(all.len() == 12);
}

/// An image needs an integrity claim exactly where it is text that is not empty and does not hold
/// the image itself.
pub proof fn lemma_images_that_are_references(value: JsonModel)
    ensures
        needs_integrity(value) <==> (value matches JsonModel::String(text) && text.len() > 0 && !(
        exists|rest: Text| text == #[trigger] ("data:"@ + rest))),
{
    if let JsonModel::String(text) = value {
        if "data:"@.is_prefix_of(text) {
            let rest = text.skip("data:"@.len() as int);
            assert(text =~= "data:"@ + rest);
        }
        if exists|rest: Text| text == #[trigger] ("data:"@ + rest) {
            let rest = choose|rest: Text| text == #[trigger] ("data:"@ + rest);
            assert(text.subrange(0, "data:"@.len() as int) =~= "data:"@);
        }
    }
}

} // verus!
