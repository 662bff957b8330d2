//! JSON documents of one shape: an object whose members are arrays of
//! objects whose members are strings. Printing them is serde_json's.

use vstd::prelude::*;

verus! {

/// A JSON object whose members hold strings: the members in order, each a
/// key with its text.
pub type JsonRow = Vec<(String, String)>;

/// A JSON object whose members hold arrays of rows: the members in order,
/// each a key with its rows.
pub type JsonDocument = Vec<(String, Vec<JsonRow>)>;

/// A row as plain text values.
pub open spec fn row_model(row: JsonRow) -> Seq<(Seq<char>, Seq<char>)> {
    Seq::new(row@.len(), |i: int| (row@[i].0@, row@[i].1@))
}

/// Rows as plain text values.
pub open spec fn rows_model(rows: Seq<JsonRow>) -> Seq<Seq<(Seq<char>, Seq<char>)>> {
    Seq::new(rows.len(), |i: int| row_model(rows[i]))
}

/// A document as plain text values.
pub open spec fn document_model(document: Seq<(String, Vec<JsonRow>)>) -> Seq<
    (Seq<char>, Seq<Seq<(Seq<char>, Seq<char>)>>),
> {
    Seq::new(document.len(), |i: int| (document[i].0@, rows_model(document[i].1@)))
}

/// The text that `serde_json::to_string_pretty` prints for the JSON value
/// of this content: an object with these members, each an array of objects
/// whose members are strings. In an object serde_json keeps one member for
/// each key, the last one given.
pub uninterp spec fn pretty_json_text(
    document: Seq<(Seq<char>, Seq<Seq<(Seq<char>, Seq<char>)>>)>,
) -> Seq<char>;

/// `serde_json::to_string_pretty` on the `serde_json::Value` of the
/// document: `Value::Object` of the members, each a `Value::Array` of
/// `Value::Object`s of `Value::String`s. The result is named, as the text
/// that is printed for the document; such a value is always printed.
#[verifier::external_body]
fn print_pretty(document: &JsonDocument) -> (text: String)
    ensures
        text@ == pretty_json_text(document_model(document@)),
{
    let text = |t: &String| serde_json::Value::String(t.clone());
    let row = |r: &JsonRow| {
        serde_json::Value::Object(r.iter().map(|(k, t)| (k.clone(), text(t))).collect())
    };
    let rows = |rs: &Vec<JsonRow>| serde_json::Value::Array(rs.iter().map(row).collect());
    let members = document.iter().map(|(k, rs)| (k.clone(), rows(rs))).collect();
    serde_json::to_string_pretty(&serde_json::Value::Object(members)).unwrap_or_default()
}

/// The document as pretty-printed JSON text.
pub fn to_pretty_text(document: &JsonDocument) -> (text: String)
    ensures
        text@ == pretty_json_text(document_model(document@)),
{
    print_pretty(document)
}

} // verus!
