//! JSON values as the matcher reads them.

use crate::text::{decimal, decimal_text, same_text, Text};
use vstd::prelude::*;
use vstd::string::StringExecFns;

verus! {

broadcast use vstd::string::group_string_axioms;

/// A JSON number. A number that is no integer is held by its rendering.
#[derive(Debug)]
pub enum JsonNumber {
    PosInt(u64),
    NegInt(i64),
    Float(String),
}

/// A JSON value. Object members are listed in the order of the object.
#[derive(Debug)]
pub enum JsonValue {
    Null,
    Bool(bool),
    Number(JsonNumber),
    String(String),
    Array(Vec<JsonValue>),
    Object(Vec<(String, JsonValue)>),
}

/// Model of a [`JsonNumber`].
pub enum NumberModel {
    PosInt(u64),
    NegInt(i64),
    Float(Text),
}

/// Model of a [`JsonValue`].
pub enum JsonModel {
    Null,
    Bool(bool),
    Number(NumberModel),
    String(Text),
    Array(Seq<JsonModel>),
    Object(Seq<(Text, JsonModel)>),
}

impl DeepView for JsonNumber {
    type V = NumberModel;

    open spec fn deep_view(&self) -> NumberModel {
        match *self {
            JsonNumber::PosInt(value) => NumberModel::PosInt(value),
            JsonNumber::NegInt(value) => NumberModel::NegInt(value),
            JsonNumber::Float(text) => NumberModel::Float(text@),
        }
    }
}

/// The model of a value.
pub open spec fn json_model(value: JsonValue) -> JsonModel
    decreases value,
{
    match value {
        JsonValue::Null => JsonModel::Null,
        JsonValue::Bool(flag) => JsonModel::Bool(flag),
        JsonValue::Number(number) => JsonModel::Number(number.deep_view()),
        JsonValue::String(text) => JsonModel::String(text@),
        JsonValue::Array(items) => JsonModel::Array(json_models(items@)),
        JsonValue::Object(entries) => JsonModel::Object(entry_models(entries@)),
    }
}

/// The models of a list of values.
pub open spec fn json_models(items: Seq<JsonValue>) -> Seq<JsonModel>
    decreases items,
{
    if items.len() == 0 {
        Seq::empty()
    } else {
        json_models(items.drop_last()).push(json_model(items.last()))
    }
}

/// The models of an object's members.
pub open spec fn entry_models(entries: Seq<(String, JsonValue)>) -> Seq<(Text, JsonModel)>
    decreases entries,
{
    if entries.len() == 0 {
        Seq::empty()
    } else {
        entry_models(entries.drop_last()).push(
            (entries.last().0@, json_model(entries.last().1)),
        )
    }
}

impl DeepView for JsonValue {
    type V = JsonModel;

    open spec fn deep_view(&self) -> JsonModel {
        json_model(*self)
    }
}

/// The models of a list are the models of its elements.
pub proof fn lemma_json_models(items: Seq<JsonValue>)
    ensures
        json_models(items).len() == items.len(),
        forall|i: int|
            0 <= i < items.len() ==> #[trigger] json_models(items)[i] == json_model(items[i]),
        json_models(items) == Seq::new(items.len(), |i: int| items[i].deep_view()),
    decreases items.len(),
{
    if items.len() > 0 {
        lemma_json_models(items.drop_last());
    }
    assert(json_models(items) =~= Seq::new(items.len(), |i: int| items[i].deep_view()));
}

/// The models of an object's members are the models of each.
pub proof fn lemma_entry_models(entries: Seq<(String, JsonValue)>)
    ensures
        entry_models(entries).len() == entries.len(),
        forall|i: int|
            0 <= i < entries.len() ==> #[trigger] entry_models(entries)[i] == (
                entries[i].0@,
                json_model(entries[i].1),
            ),
        entry_models(entries) == Seq::new(entries.len(), |i: int| entries[i].deep_view()),
    decreases entries.len(),
{
    if entries.len() > 0 {
        lemma_entry_models(entries.drop_last());
    }
    assert(entry_models(entries) =~= Seq::new(entries.len(), |i: int| entries[i].deep_view()));
}

/// The value of the first member named `key`.
pub open spec fn member(entries: Seq<(Text, JsonModel)>, key: Text) -> Option<JsonModel>
    decreases entries.len(),
{
    if entries.len() == 0 {
        None
    } else {
        match member(entries.drop_last(), key) {
            Some(value) => Some(value),
            None => if entries.last().0 == key {
                Some(entries.last().1)
            } else {
                None
            },
        }
    }
}

impl NumberModel {
    /// The number as a 64-bit signed integer, when it is one.
    pub open spec fn as_i64(self) -> Option<i64> {
        match self {
            NumberModel::PosInt(value) => if value <= i64::MAX {
                Some(value as i64)
            } else {
                None
            },
            NumberModel::NegInt(value) => Some(value),
            NumberModel::Float(_) => None,
        }
    }

    /// The rendering of the number.
    pub open spec fn text(self) -> Text {
        match self {
            NumberModel::PosInt(value) => decimal(value as nat),
            NumberModel::NegInt(value) => if value < 0 {
                seq!['-'] + decimal((-value) as nat)
            } else {
                decimal(value as nat)
            },
            NumberModel::Float(text) => text,
        }
    }
}

impl JsonModel {
    /// The text of a JSON string.
    pub open spec fn as_text(self) -> Option<Text> {
        match self {
            JsonModel::String(text) => Some(text),
            _ => None,
        }
    }

    /// The elements of a JSON array.
    pub open spec fn as_array(self) -> Option<Seq<JsonModel>> {
        match self {
            JsonModel::Array(items) => Some(items),
            _ => None,
        }
    }

    /// The member `key` of a JSON object.
    pub open spec fn get(self, key: Text) -> Option<JsonModel> {
        match self {
            JsonModel::Object(entries) => member(entries, key),
            _ => None,
        }
    }
}

/// Finds the first member named `key`.
pub fn find_member<'a>(entries: &'a Vec<(String, JsonValue)>, key: &str) -> (found: Option<
    &'a JsonValue,
>)
    ensures
        found.deep_view() == member(entries.deep_view(), key@),
{
    let ghost all = entries.deep_view();
    let mut i: usize = 0;
    while i < entries.len()
        invariant
            i <= entries.len(),
            all == entries.deep_view(),
            member(all.take(i as int), key@) is None,
        decreases entries.len() - i,
    {
        assert(all.take(i + 1).drop_last() =~= all.take(i as int));
        if same_text(entries[i].0.as_str(), key) {
            proof {
                assert(member(all.take(i + 1), key@) == Some(all[i as int].1));
                lemma_member_prefix(all, key@, i + 1);
            }
            return Some(&entries[i].1);
        }
        i = i + 1;
    }
    assert(all.take(all.len() as int) =~= all);
    None
}

/// A member that a prefix has, the whole object has.
proof fn lemma_member_prefix(entries: Seq<(Text, JsonModel)>, key: Text, n: int)
    requires
        0 <= n <= entries.len(),
        member(entries.take(n), key) is Some,
    ensures
        member(entries, key) == member(entries.take(n), key),
    decreases entries.len() - n,
{
    if n == entries.len() {
        assert(entries.take(n) =~= entries);
    } else {
        assert(entries.take(n + 1).drop_last() =~= entries.take(n));
        lemma_member_prefix(entries, key, n + 1);
    }
}

impl JsonNumber {
    /// The number as a 64-bit signed integer, when it is one.
    pub fn as_i64(&self) -> (value: Option<i64>)
        ensures
            value == self.deep_view().as_i64(),
    {
        match self {
            JsonNumber::PosInt(value) => if *value <= 0x7fff_ffff_ffff_ffff {
                Some(*value as i64)
            } else {
                None
            },
            JsonNumber::NegInt(value) => Some(*value),
            JsonNumber::Float(_) => None,
        }
    }

    /// The rendering of the number.
    pub fn text(&self) -> (text: String)
        ensures
            text@ == self.deep_view().text(),
    {
        match self {
            JsonNumber::PosInt(value) => decimal_text(*value),
            JsonNumber::NegInt(value) => if *value < 0 {
                let size: u64 = (-(*value as i128)) as u64;
                let mut text = String::new();
                text.push('-');
                text.append(decimal_text(size).as_str());
                assert(text@ =~= seq!['-'] + decimal(size as nat));
                text
            } else {
                decimal_text(*value as u64)
            },
            JsonNumber::Float(text) => text.clone(),
        }
    }
}

impl Clone for JsonNumber {
    fn clone(&self) -> (copy: JsonNumber)
        ensures
            copy.deep_view() == self.deep_view(),
    {
        match self {
            JsonNumber::PosInt(value) => JsonNumber::PosInt(*value),
            JsonNumber::NegInt(value) => JsonNumber::NegInt(*value),
            JsonNumber::Float(text) => JsonNumber::Float(text.clone()),
        }
    }
}

impl Clone for JsonValue {
    fn clone(&self) -> (copy: JsonValue)
        ensures
            copy.deep_view() == self.deep_view(),
        decreases *self,
    {
        match self {
            JsonValue::Null => JsonValue::Null,
            JsonValue::Bool(flag) => JsonValue::Bool(*flag),
            JsonValue::Number(number) => JsonValue::Number(number.clone()),
            JsonValue::String(text) => JsonValue::String(text.clone()),
            JsonValue::Array(items) => {
                let mut copies: Vec<JsonValue> = Vec::new();
                let mut i: usize = 0;
                while i < items.len()
                    invariant
                        i <= items.len(),
                        copies.len() == i,
                        *self == JsonValue::Array(*items),
                        forall|j: int|
                            0 <= j < i ==> (#[trigger] copies@[j]).deep_view()
                                == items@[j].deep_view(),
                    decreases items.len() - i,
                {
                    assert(decreases_to!(*self => self->Array_0));
                    assert(decreases_to!(*items => items@));
                    assert(decreases_to!(items@ => items@[i as int]));
                    copies.push(items[i].clone());
                    i = i + 1;
                }
                proof {
                    lemma_json_models(items@);
                    lemma_json_models(copies@);
                    assert(json_models(items@) =~= json_models(copies@));
                }
                JsonValue::Array(copies)
            },
            JsonValue::Object(entries) => {
                let mut copies: Vec<(String, JsonValue)> = Vec::new();
                let mut i: usize = 0;
                while i < entries.len()
                    invariant
                        i <= entries.len(),
                        copies.len() == i,
                        *self == JsonValue::Object(*entries),
                        forall|j: int|
                            0 <= j < i ==> (#[trigger] copies@[j]).deep_view()
                                == entries@[j].deep_view(),
                    decreases entries.len() - i,
                {
                    assert(decreases_to!(*self => self->Object_0));
                    assert(decreases_to!(*entries => entries@));
                    assert(decreases_to!(entries@ => entries@[i as int]));
                    assert(decreases_to!(entries@[i as int] => entries@[i as int].1));
                    copies.push((entries[i].0.clone(), entries[i].1.clone()));
                    i = i + 1;
                }
                proof {
                    lemma_entry_models(entries@);
                    lemma_entry_models(copies@);
                    assert(entry_models(entries@) =~= entry_models(copies@));
                }
                JsonValue::Object(copies)
            },
        }
    }
}

/// A copy of an object's members.
pub fn clone_entries(entries: &Vec<(String, JsonValue)>) -> (copies: Vec<(String, JsonValue)>)
    ensures
        copies.deep_view() == entries.deep_view(),
{
    let mut copies: Vec<(String, JsonValue)> = Vec::new();
    let mut i: usize = 0;
    while i < entries.len()
        invariant
            i <= entries.len(),
            copies.len() == i,
            forall|j: int|
                0 <= j < i ==> (#[trigger] copies@[j]).deep_view() == entries@[j].deep_view(),
        decreases entries.len() - i,
    {
        copies.push((entries[i].0.clone(), entries[i].1.clone()));
        i = i + 1;
    }
    assert(copies.deep_view() =~= entries.deep_view());
    copies
}

impl JsonValue {
    /// The text of a JSON string.
    pub fn as_str(&self) -> (text: Option<&str>)
        ensures
            text.deep_view() == self.deep_view().as_text(),
    {
        match self {
            JsonValue::String(text) => Some(text.as_str()),
            _ => None,
        }
    }

    /// Whether the value is a JSON string.
    pub fn is_string(&self) -> (is: bool)
        ensures
            is == (self.deep_view() is String),
    {
        match self {
            JsonValue::String(_) => true,
            _ => false,
        }
    }

    /// Whether the value is a JSON boolean.
    pub fn is_boolean(&self) -> (is: bool)
        ensures
            is == (self.deep_view() is Bool),
    {
        match self {
            JsonValue::Bool(_) => true,
            _ => false,
        }
    }

    /// The elements of a JSON array.
    pub fn as_array(&self) -> (items: Option<&Vec<JsonValue>>)
        ensures
            items.deep_view() == self.deep_view().as_array(),
    {
        match self {
            JsonValue::Array(items) => {
                proof {
                    lemma_json_models(items@);
                }
                Some(items)
            },
            _ => None,
        }
    }

    /// The member `key` of a JSON object.
    pub fn get(&self, key: &str) -> (found: Option<&JsonValue>)
        ensures
            found.deep_view() == self.deep_view().get(key@),
    {
        match self {
            JsonValue::Object(entries) => {
                proof {
                    lemma_entry_models(entries@);
                }
                find_member(entries, key)
            },
            _ => None,
        }
    }
}

} // verus!
