//! Text helpers: characters, lexicographic order, prefixes and decimal rendering.

use vstd::prelude::*;

verus! {

broadcast use vstd::string::group_string_axioms;

/// The mathematical model of a string: its characters in order.
pub type Text = Seq<char>;

/// `<str as PartialEq>::eq`: two string slices are equal exactly when they hold the same characters.
pub assume_specification[ <str as PartialEq>::eq ](left: &str, right: &str) -> (equal: bool)
    ensures
        equal == (left@ == right@),
;

/// `String::push` appends one character at the end and changes nothing before it.
pub assume_specification[ std::string::String::push ](text: &mut std::string::String, c: char)
    ensures
        final(text)@ == old(text)@.push(c),
;

/// Whether two string slices hold the same characters.
pub fn same_text(left: &str, right: &str) -> (same: bool)
    ensures
        same == (left@ == right@),
{
    *left == *right
}

/// The characters of `text`, in order.
pub fn chars_of(text: &str) -> (chars: Vec<char>)
    ensures
        chars@ == text@,
{
    let mut chars: Vec<char> = Vec::new();
    for c in it: text.chars()
        invariant
            it.seq() == text@,
            chars@ == it.seq().take(it.index() as int),
    {
        assert(it.seq().take(it.index() as int + 1) =~= it.seq().take(it.index() as int).push(c));
        chars.push(c);
    }
    assert(text@.take(text@.len() as int) =~= text@);
    chars
}

/// Whether `text` begins with `prefix`.
pub fn starts_with(text: &str, prefix: &str) -> (found: bool)
    ensures
        found == prefix@.is_prefix_of(text@),
{
    let chars = chars_of(text);
    let wanted = chars_of(prefix);
    if wanted.len() > chars.len() {
        return false;
    }
    let mut i: usize = 0;
    while i < wanted.len()
        invariant
            i <= wanted.len() <= chars.len(),
            chars@ == text@,
            wanted@ == prefix@,
            forall|j: int| 0 <= j < i ==> chars@[j] == wanted@[j],
        decreases wanted.len() - i,
    {
        if chars[i] != wanted[i] {
            assert(text@.subrange(0, prefix@.len() as int)[i as int] != prefix@[i as int]);
            return false;
        }
        i = i + 1;
    }
    assert(prefix@ =~= text@.subrange(0, prefix@.len() as int));
    true
}

/// Strict lexicographic order on text, by code point.
///
/// This is the order of Rust strings: UTF-8 keeps the order of code points.
pub open spec fn precedes(left: Text, right: Text) -> bool
    decreases left.len(),
{
    if right.len() == 0 {
        false
    } else if left.len() == 0 {
        true
    } else if left[0] == right[0] {
        precedes(left.drop_first(), right.drop_first())
    } else {
        (left[0] as int) < (right[0] as int)
    }
}

/// No text precedes itself.
pub proof fn lemma_precedes_irreflexive(text: Text)
    ensures
        !precedes(text, text),
    decreases text.len(),
{
    if text.len() > 0 {
        lemma_precedes_irreflexive(text.drop_first());
    }
}

/// The order is transitive.
pub proof fn lemma_precedes_transitive(a: Text, b: Text, c: Text)
    requires
        precedes(a, b),
        precedes(b, c),
    ensures
        precedes(a, c),
    decreases a.len(),
{
    if a.len() > 0 && b.len() > 0 && c.len() > 0 && a[0] == b[0] && b[0] == c[0] {
        lemma_precedes_transitive(a.drop_first(), b.drop_first(), c.drop_first());
    }
}

/// Two different texts are always ordered one way or the other.
pub proof fn lemma_precedes_total(a: Text, b: Text)
    ensures
        a == b || precedes(a, b) || precedes(b, a),
    decreases a.len(),
{
    if a.len() == 0 && b.len() == 0 {
        assert(a =~= b);
    } else if a.len() > 0 && b.len() > 0 && a[0] == b[0] {
        lemma_precedes_total(a.drop_first(), b.drop_first());
        if a.drop_first() == b.drop_first() {
            assert(a =~= seq![a[0]] + a.drop_first());
            assert(b =~= seq![b[0]] + b.drop_first());
        }
    }
}

/// Whether `left` comes strictly before `right` in lexicographic order.
pub fn text_precedes(left: &str, right: &str) -> (before: bool)
    ensures
        before == precedes(left@, right@),
{
    let a = chars_of(left);
    let b = chars_of(right);
    let mut i: usize = 0;
    assert(a@.skip(0) =~= a@);
    assert(b@.skip(0) =~= b@);
    while i < a.len() && i < b.len() && a[i] == b[i]
        invariant
            i <= a.len(),
            i <= b.len(),
            precedes(a@, b@) == precedes(a@.skip(i as int), b@.skip(i as int)),
        decreases a.len() - i,
    {
        assert(a@.skip(i as int).drop_first() =~= a@.skip(i + 1));
        assert(b@.skip(i as int).drop_first() =~= b@.skip(i + 1));
        i = i + 1;
    }
    if i == b.len() {
        false
    } else if i == a.len() {
        true
    } else {
        a[i] < b[i]
    }
}

/// The decimal digit that stands for `digit`.
pub open spec fn digit_char(digit: nat) -> char {
    ('0' as u32 + digit) as char
}

/// The decimal rendering of a natural number, without leading zeros.
pub open spec fn decimal(value: nat) -> Text
    decreases value,
{
    if value < 10 {
        seq![digit_char(value)]
    } else {
        decimal(value / 10).push(digit_char(value % 10))
    }
}

/// Renders `value` in decimal.
pub fn decimal_text(value: u64) -> (text: String)
    ensures
        text@ == decimal(value as nat),
    decreases value,
{
    let digit: u64 = value % 10;
    let c: char = (48u8 + digit as u8) as char;
    let mut text = if value < 10 {
        String::new()
    } else {
        decimal_text(value / 10)
    };
    text.push(c);
    assert(c == digit_char(digit as nat));
    assert(value < 10 ==> text@ =~= seq![digit_char(value as nat)]);
    text
}

/// Whether `texts` holds `wanted`.
pub fn contains_text(texts: &[String], wanted: &str) -> (found: bool)
    ensures
        found == texts.deep_view().contains(wanted@),
{
    let mut i: usize = 0;
    while i < texts.len()
        invariant
            i <= texts@.len(),
            forall|j: int| 0 <= j < i ==> texts.deep_view()[j] != wanted@,
        decreases texts@.len() - i,
    {
        if same_text(texts[i].as_str(), wanted) {
            assert(texts.deep_view()[i as int] == wanted@);
            return true;
        }
        i = i + 1;
    }
    false
}

} // verus!
