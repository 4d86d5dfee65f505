//! JSON, as `serde_json` writes and reads it.
//!
//! What `serde_json` does takes pages to say, so its results have names here:
//! the text it writes for an object ([`pretty_object`], [`line_object`]), where a value
//! ends ([`value_end`]), what a value is ([`text_in`], [`number_in`], [`texts_in`],
//! [`entries_in`]), and what a `Value` holds under a field ([`last_line_field`]), where
//! the last field of a name counts.
use vstd::prelude::*;

use crate::document::struct_read;
use crate::order::entries_map;
use crate::text::models;

verus! {

/// The error that `serde_json` reports.
#[verifier::external_type_specification]
#[verifier::external_body]
pub struct ExJsonError(serde_json::Error);

/// A value of an object that is to be written.
#[derive(Debug, PartialEq, Eq)]
pub enum JsonField {
    Number(u64),
    Texts(Vec<String>),
    Entries(Vec<(String, String)>),
}

/// A value, as a mathematical value.
pub enum JsonModel {
    Number(u64),
    Texts(Seq<Seq<char>>),
    Entries(Seq<(Seq<char>, Seq<char>)>),
}

pub open spec fn pairs_model(pairs: Seq<(String, String)>) -> Seq<(Seq<char>, Seq<char>)> {
    pairs.map_values(|p: (String, String)| (p.0@, p.1@))
}

impl View for JsonField {
    type V = JsonModel;

    open spec fn view(&self) -> JsonModel {
        match self {
            JsonField::Number(n) => JsonModel::Number(*n),
            JsonField::Texts(t) => JsonModel::Texts(models(t@)),
            JsonField::Entries(e) => JsonModel::Entries(pairs_model(e@)),
        }
    }
}

pub open spec fn fields_model(fields: Seq<(String, JsonField)>) -> Seq<(Seq<char>, JsonModel)> {
    fields.map_values(|f: (String, JsonField)| (f.0@, f.1@))
}

/// The bytes that `serde_json::to_vec_pretty` writes for an object with these
/// fields in this order.
pub uninterp spec fn pretty_object(fields: Seq<(Seq<char>, JsonModel)>) -> Seq<u8>;

/// Where the JSON value that some bytes begin with ends, white space in front of it
/// counted: nothing, where they begin with none.
pub uninterp spec fn value_end(bytes: Seq<u8>) -> Option<nat>;

/// The string that some bytes are the JSON of.
pub uninterp spec fn text_in(bytes: Seq<u8>) -> Option<Seq<char>>;

/// The `u64` that some bytes are the JSON of.
pub uninterp spec fn number_in(bytes: Seq<u8>) -> Option<u64>;

/// The list of strings that some bytes are the JSON of.
pub uninterp spec fn texts_in(bytes: Seq<u8>) -> Option<Seq<Seq<char>>>;

/// The object of strings that some bytes are the JSON of.
pub uninterp spec fn entries_in(bytes: Seq<u8>) -> Option<Map<Seq<char>, Seq<char>>>;

/// What the last field of this name in a line of JSON holds where that is a string:
/// `None` where the line is not JSON, `Some(None)` where there is no such string.
pub uninterp spec fn last_line_field(line: Seq<char>, field: Seq<char>) -> Option<Option<Seq<char>>>;

/// A value of an object that is to be written on one line.
#[derive(Debug, PartialEq, Eq)]
pub enum LineField {
    Text(String),
    Flag(bool),
}

pub enum LineModel {
    Text(Seq<char>),
    Flag(bool),
}

impl View for LineField {
    type V = LineModel;

    open spec fn view(&self) -> LineModel {
        match self {
            LineField::Text(t) => LineModel::Text(t@),
            LineField::Flag(b) => LineModel::Flag(*b),
        }
    }
}

pub open spec fn line_model(fields: Seq<(String, LineField)>) -> Seq<(Seq<char>, LineModel)> {
    fields.map_values(|f: (String, LineField)| (f.0@, f.1@))
}

/// The text that a `serde_json::Value` shows for an object with these fields in this
/// order.
pub uninterp spec fn line_object(fields: Seq<(Seq<char>, LineModel)>) -> Seq<char>;

/// The text under a name, if there is one; of two fields of one name the later one
/// counts.
pub open spec fn text_under(fields: Seq<(Seq<char>, LineModel)>, name: Seq<char>) -> Option<
    Seq<char>,
>
    decreases fields.len(),
{
    if fields.len() == 0 {
        None
    } else if fields.last().0 == name {
        match fields.last().1 {
            LineModel::Text(text) => Some(text),
            LineModel::Flag(_) => None,
        }
    } else {
        text_under(fields.drop_last(), name)
    }
}

/// Whether some bytes are the JSON of a value.
pub open spec fn is_json_of(bytes: Seq<u8>, value: JsonField) -> bool {
    match value {
        JsonField::Number(n) => number_in(bytes) == Some(n),
        JsonField::Texts(t) => texts_in(bytes) == Some(models(t@)),
        JsonField::Entries(e) => entries_in(bytes) == Some(entries_map(e@)),
    }
}

pub open spec fn field_names(fields: Seq<(String, JsonField)>) -> Seq<Seq<char>> {
    Seq::new(fields.len(), |i: int| fields[i].0@)
}

/// Whether a document, read for these fields, gives back what was written.
pub open spec fn reads_back(document: Seq<u8>, fields: Seq<(String, JsonField)>) -> bool {
    struct_read(document, field_names(fields)) matches Some(found) && forall|i: int|
        0 <= i < fields.len() ==> (found[i] matches Some(bytes) && is_json_of(
            bytes,
            (#[trigger] fields[i]).1,
        ))
}

/// `serde_json::to_vec_pretty` on an object of numbers, lists of strings and
/// objects of strings: it succeeds, and the document has each field once, with the
/// JSON of its value.
#[verifier::external_body]
pub(crate) fn write_object(fields: Vec<(String, JsonField)>) -> (r: Result<
    Vec<u8>,
    serde_json::Error,
>)
    requires
        field_names(fields@).no_duplicates(),
    ensures
        match r {
            Ok(v) => v@ == pretty_object(fields_model(fields@)) && reads_back(v@, fields@),
            Err(_) => false,
        },
{
    let convert = |field: JsonField| match field {
        JsonField::Number(n) => serde_json::Value::from(n),
        JsonField::Texts(t) => serde_json::Value::from(t),
        JsonField::Entries(e) => e.into_iter().collect(),
    };
    let object: serde_json::Map<String, serde_json::Value> =
        fields.into_iter().map(|(name, field)| (name, convert(field))).collect();
    serde_json::to_vec_pretty(&object)
}

/// The first step of a `serde_json::StreamDeserializer` that ignores what it reads,
/// and its `byte_offset`: a value has at least one byte, and ends within the bytes.
#[verifier::external_body]
pub(crate) fn skip_value(bytes: &[u8]) -> (r: Option<usize>)
    ensures
        match r {
            Some(end) => value_end(bytes@) == Some(end as nat) && 0 < end <= bytes@.len(),
            None => value_end(bytes@) is None,
        },
{
    let mut values = serde_json::Deserializer::from_slice(bytes).into_iter::<serde::de::IgnoredAny>();
    values.next()?.ok()?;
    Some(values.byte_offset())
}

/// `serde_json::from_slice` into a `String`.
#[verifier::external_body]
pub(crate) fn read_text(bytes: &[u8]) -> (r: Result<String, serde_json::Error>)
    ensures
        match r {
            Ok(text) => text_in(bytes@) == Some(text@),
            Err(_) => text_in(bytes@) is None,
        },
{
    serde_json::from_slice(bytes)
}

/// `serde_json::from_slice` into a `u64`.
#[verifier::external_body]
pub(crate) fn read_number(bytes: &[u8]) -> (r: Result<u64, serde_json::Error>)
    ensures
        match r {
            Ok(n) => number_in(bytes@) == Some(n),
            Err(_) => number_in(bytes@) is None,
        },
{
    serde_json::from_slice(bytes)
}

/// `serde_json::from_slice` into a `Vec<String>`.
#[verifier::external_body]
pub(crate) fn read_texts(bytes: &[u8]) -> (r: Result<Vec<String>, serde_json::Error>)
    ensures
        match r {
            Ok(texts) => texts_in(bytes@) == Some(models(texts@)),
            Err(_) => texts_in(bytes@) is None,
        },
{
    serde_json::from_slice(bytes)
}

/// `serde_json::from_slice` into a `BTreeMap<String, String>`, as a list.
#[verifier::external_body]
pub(crate) fn read_entries(bytes: &[u8]) -> (r: Result<Vec<(String, String)>, serde_json::Error>)
    ensures
        match r {
            Ok(entries) => entries_in(bytes@) == Some(entries_map(entries@)),
            Err(_) => entries_in(bytes@) is None,
        },
{
    let all: std::collections::BTreeMap<String, String> = serde_json::from_slice(bytes)?;
    Ok(all.into_iter().collect())
}

/// `serde_json::from_str` into a `Value`, then `Value::as_str` of what it holds
/// under a field.
#[verifier::external_body]
pub(crate) fn read_line_field(line: &str, field: &str) -> (r: Result<
    Option<String>,
    serde_json::Error,
>)
    ensures
        match r {
            Ok(Some(v)) => last_line_field(line@, field@) == Some(Some(v@)),
            Ok(None) => last_line_field(line@, field@) == Some(None::<Seq<char>>),
            Err(_) => last_line_field(line@, field@) is None,
        },
{
    let value: serde_json::Value = serde_json::from_str(line)?;
    Ok(value[field].as_str().map(|s| s.to_string()))
}

/// Names that `serde_json` keeps for itself: an object that begins with one is not
/// read as an object.
pub open spec fn is_reserved(name: Seq<char>) -> bool {
    name == "$serde_json::private::Number"@ || name == "$serde_json::private::RawValue"@
}

/// `Value::to_string` of an object of strings and booleans: it stands in braces, on
/// one line, and every string in it reads back under its name.
#[verifier::external_body]
pub(crate) fn write_line(fields: Vec<(String, LineField)>) -> (r: String)
    requires
        forall|i: int| 0 <= i < fields@.len() ==> !is_reserved((#[trigger] fields@[i]).0@),
    ensures
        r@ == line_object(line_model(fields@)),
        r@.len() >= 2 && r@[0] == '{' && r@.last() == '}' && !r@.contains('\n'),
        forall|name: Seq<char>| #[trigger]
            last_line_field(r@, name) == Some(text_under(line_model(fields@), name)),
{
    let convert = |field: LineField| match field {
        LineField::Text(t) => serde_json::Value::from(t),
        LineField::Flag(b) => serde_json::Value::from(b),
    };
    let object: serde_json::Map<String, serde_json::Value> =
        fields.into_iter().map(|(name, field)| (name, convert(field))).collect();
    serde_json::Value::Object(object).to_string()
}

} // verus!
