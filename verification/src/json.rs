//! JSON values as the library reads and writes them.
use vstd::prelude::*;
use crate::text::{same_text, texts};

verus! {

/// A JSON value. The fields of an object stand in the order in which they are
/// written.
#[derive(Debug)]
pub enum Json {
    Null,
    Bool(bool),
    Natural(u64),
    Negative(i64),
    /// A number with a fraction or an exponent, as its text.
    Fraction(String),
    Text(String),
    Array(Vec<Json>),
    Object(Vec<(String, Json)>),
}

/// The first field with a name, from the `n`th on.
pub open spec fn field_from(fields: Seq<(String, Json)>, name: Seq<char>, n: int) -> Option<Json>
    decreases fields.len() - n,
{
    if n < 0 || n >= fields.len() {
        None
    } else if fields[n].0@ == name {
        Some(fields[n].1)
    } else {
        field_from(fields, name, n + 1)
    }
}

/// The field of an object with a name.
pub open spec fn field(value: Json, name: Seq<char>) -> Option<Json> {
    match value {
        Json::Object(fields) => field_from(fields@, name, 0),
        _ => None,
    }
}

/// The field of a field.
pub open spec fn inner_field(value: Json, outer: Seq<char>, name: Seq<char>) -> Option<Json> {
    match field(value, outer) {
        Some(inner) => field(inner, name),
        None => None,
    }
}

/// The text of a value that may be absent.
pub open spec fn text_in(value: Option<Json>) -> Option<Seq<char>> {
    match value {
        Some(Json::Text(text)) => Some(text@),
        _ => None,
    }
}

/// The number of a value that may be absent, where it is a natural number.
pub open spec fn natural_in(value: Option<Json>) -> Option<u64> {
    match value {
        Some(Json::Natural(n)) => Some(n),
        _ => None,
    }
}

/// The number of a value that may be absent, where it is a whole number of 64
/// bits with a sign.
pub open spec fn whole_in(value: Option<Json>) -> Option<int> {
    match value {
        Some(Json::Natural(n)) => if n <= i64::MAX {
            Some(n as int)
        } else {
            None
        },
        Some(Json::Negative(n)) => Some(n as int),
        _ => None,
    }
}

/// The items of a value that may be absent, where it is an array.
pub open spec fn items_in(value: Option<Json>) -> Option<Seq<Json>> {
    match value {
        Some(Json::Array(items)) => Some(items@),
        _ => None,
    }
}

/// An array holds a text.
pub open spec fn holds_text(items: Seq<Json>, text: Seq<char>) -> bool {
    exists|k: int| 0 <= k < items.len() && text_in(Some(#[trigger] items[k])) == Some(text)
}

/// A value that may be absent, as the specifications take it.
pub open spec fn found(value: Option<&Json>) -> Option<Json> {
    match value {
        Some(inner) => Some(*inner),
        None => None,
    }
}

impl Json {
    pub fn get(&self, name: &str) -> (result: Option<&Json>)
        ensures
            found(result) == field(*self, name@),
    {
        match self {
            Json::Object(fields) => {
                let mut n: usize = 0;
                while n < fields.len()
                    invariant
                        n <= fields@.len(),
                        field_from(fields@, name@, n as int) == field_from(fields@, name@, 0),
                        *self == Json::Object(*fields),
                    decreases fields@.len() - n,
                {
                    let entry = &fields[n];
                    if same_text(entry.0.as_str(), name) {
                        return Some(&entry.1);
                    }
                    n += 1;
                }
                None
            },
            _ => None,
        }
    }

    pub fn get_inner(&self, outer: &str, name: &str) -> (result: Option<&Json>)
        ensures
            found(result) == inner_field(*self, outer@, name@),
    {
        match self.get(outer) {
            Some(inner) => inner.get(name),
            None => None,
        }
    }

    pub fn as_text(&self) -> (result: Option<&str>)
        ensures
            (match result {
                Some(text) => Some(text@),
                None => None,
            }) == text_in(Some(*self)),
    {
        match self {
            Json::Text(text) => Some(text.as_str()),
            _ => None,
        }
    }

    pub fn as_natural(&self) -> (result: Option<u64>)
        ensures
            result == natural_in(Some(*self)),
    {
        match self {
            Json::Natural(n) => Some(*n),
            _ => None,
        }
    }

    pub fn as_whole(&self) -> (result: Option<i64>)
        ensures
            (match result {
                Some(n) => Some(n as int),
                None => None,
            }) == whole_in(Some(*self)),
    {
        match self {
            Json::Natural(n) => if *n <= 0x7fff_ffff_ffff_ffff {
                Some(*n as i64)
            } else {
                None
            },
            Json::Negative(n) => Some(*n),
            _ => None,
        }
    }

    pub fn as_items(&self) -> (result: Option<&Vec<Json>>)
        ensures
            (match result {
                Some(items) => Some(items@),
                None => None,
            }) == items_in(Some(*self)),
    {
        match self {
            Json::Array(items) => Some(items),
            _ => None,
        }
    }
}

/// The text of a field.
pub fn text_field<'a>(value: &'a Json, name: &str) -> (result: Option<&'a str>)
    ensures
        (match result {
            Some(text) => Some(text@),
            None => None,
        }) == text_in(field(*value, name@)),
{
    match value.get(name) {
        Some(inner) => inner.as_text(),
        None => None,
    }
}

/// The natural number of a field, or 0.
pub fn natural_or_zero(value: Option<&Json>) -> (result: u64)
    ensures
        result == (match natural_in(found(value)) {
            Some(n) => n,
            None => 0,
        }),
{
    match value {
        Some(inner) => match inner.as_natural() {
            Some(n) => n,
            None => 0,
        },
        None => 0,
    }
}

/// Whether an array holds a text.
pub fn array_holds(items: &Vec<Json>, text: &str) -> (result: bool)
    ensures
        result == holds_text(items@, text@),
{
    let mut n: usize = 0;
    while n < items.len()
        invariant
            n <= items@.len(),
            forall|k: int| 0 <= k < n ==> text_in(Some(#[trigger] items@[k])) != Some(text@),
        decreases items@.len() - n,
    {
        if let Some(found) = items[n].as_text() {
            if same_text(found, text) {
                assert(text_in(Some(items@[n as int])) == Some(text@));
                return true;
            }
        }
        n += 1;
    }
    false
}

/// A field whose value is an array that holds a text.
pub open spec fn field_holds(value: Option<Json>, text: Seq<char>) -> bool {
    match items_in(value) {
        Some(items) => holds_text(items, text),
        None => false,
    }
}

pub fn value_holds(value: Option<&Json>, text: &str) -> (result: bool)
    ensures
        result == field_holds(found(value), text@),
{
    match value {
        Some(inner) => match inner.as_items() {
            Some(items) => array_holds(items, text),
            None => false,
        },
        None => false,
    }
}

/// A text value.
pub fn json_text(text: &str) -> (value: Json)
    ensures
        text_in(Some(value)) == Some(text@),
        value is Text,
{
    Json::Text(text.to_owned())
}

/// A field with a name and a value.
pub open spec fn is_field(entry: (String, Json), name: Seq<char>, value: Json) -> bool {
    entry.0@ == name && entry.1 == value
}

/// A field with a name and a text.
pub open spec fn is_text_field(entry: (String, Json), name: Seq<char>, text: Seq<char>) -> bool {
    entry.0@ == name && text_in(Some(entry.1)) == Some(text)
}

/// Makes a field.
pub fn entry(name: &str, value: Json) -> (result: (String, Json))
    ensures
        is_field(result, name@, value),
{
    (name.to_owned(), value)
}

/// Makes a field with a text.
pub fn text_entry(name: &str, text: &str) -> (result: (String, Json))
    ensures
        is_text_field(result, name@, text@),
{
    (name.to_owned(), json_text(text))
}

/// An array of texts.
pub open spec fn is_texts(value: Json, list: Seq<Seq<char>>) -> bool {
    match value {
        Json::Array(items) => items@.len() == list.len() && forall|k: int|
            0 <= k < list.len() ==> text_in(Some(#[trigger] items@[k])) == Some(list[k]),
        _ => false,
    }
}

/// Makes an array of texts.
pub fn json_texts(list: &Vec<String>) -> (value: Json)
    ensures
        is_texts(value, texts(list@)),
{
    let mut items: Vec<Json> = Vec::new();
    let mut n: usize = 0;
    while n < list.len()
        invariant
            n <= list@.len(),
            items@.len() == n,
            forall|k: int|
                0 <= k < n ==> text_in(Some(#[trigger] items@[k])) == Some(texts(list@)[k]),
        decreases list@.len() - n,
    {
        items.push(json_text(list[n].as_str()));
        n += 1;
    }
    Json::Array(items)
}

} // verus!
