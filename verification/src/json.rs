//! An in-memory JSON document as a source, and the JSON parser it uses.
use crate::category::Category;
use crate::node::{Node, Tree};
use vstd::prelude::*;
use vstd::string::*;

verus! {

#[verifier::external_type_specification]
#[verifier::external_body]
pub struct ExJsonValue(serde_json::Value);

/// The document that serde_json reads from a JSON text, as the model of a
/// [`Node`] (numbers as their text), or `None` where serde_json rejects the
/// text.
pub uninterp spec fn json_parse(text: Seq<char>) -> Option<Tree>;

/// The message that serde_json's error displays for a JSON text that it
/// rejects.
pub uninterp spec fn json_error_text(text: Seq<char>) -> Seq<char>;

/// Calls `serde_json::from_str::<serde_json::Value>`, and on failure displays
/// the error. Claims only that the outcome is a function of the text: the
/// document is named `json_parse`, the message `json_error_text`; what JSON
/// means, and what the message says, is serde_json's.
#[verifier::external_body]
pub(crate) fn parse_json(text: &str) -> (r: Result<Node, String>)
    ensures
        r is Ok <==> json_parse(text@) is Some,
        r matches Ok(n) ==> json_parse(text@) == Some(n@),
        r matches Err(m) ==> m@ == json_error_text(text@),
{
    match serde_json::from_str::<serde_json::Value>(text) {
        Ok(v) => Ok(node_from_json(v)),
        Err(e) => Err(e.to_string()),
    }
}

/// Moves a `serde_json::Value` into a [`Node`], variant by variant; a number
/// becomes its text as `serde_json::Number` displays it.
#[verifier::external_body]
fn node_from_json(v: serde_json::Value) -> Node {
    match v {
        serde_json::Value::Null => Node::Null,
        serde_json::Value::Bool(b) => Node::Bool(b),
        serde_json::Value::Number(n) => Node::Number(n.to_string()),
        serde_json::Value::String(s) => Node::Text(s),
        serde_json::Value::Array(a) => Node::Array(a.into_iter().map(node_from_json).collect()),
        serde_json::Value::Object(m) => Node::Object(
            m.into_iter().map(|(k, x)| (k, node_from_json(x))).collect(),
        ),
    }
}

/// An in-memory JSON source. Reports [`Category::File`].
pub struct JsonStr {
    name: String,
    bytes: String,
}

impl JsonStr {
    /// A JSON source. `name` is a human-readable label used in error
    /// messages; `json` is the document text.
    pub fn new(name: &str, json: &str) -> (r: JsonStr)
        ensures
            r.label() == name@,
            r.text() == json@,
    {
        JsonStr { name: String::from_str(name), bytes: String::from_str(json) }
    }

    pub closed spec fn label(&self) -> Seq<char> {
        self.name@
    }

    pub closed spec fn text(&self) -> Seq<char> {
        self.bytes@
    }

    pub fn name(&self) -> (r: &str)
        ensures
            r@ == self.label(),
    {
        self.name.as_str()
    }

    pub fn category(&self) -> (r: Category)
        ensures
            r == Category::File,
    {
        Category::File
    }

    /// The document text.
    pub fn contents(&self) -> (r: &str)
        ensures
            r@ == self.text(),
    {
        self.bytes.as_str()
    }

    /// The document that the text parses into, or the parser's message.
    pub fn document(&self) -> (r: Result<Node, String>)
        ensures
            r is Ok <==> json_parse(self.text()) is Some,
            r matches Ok(n) ==> json_parse(self.text()) == Some(n@),
            r matches Err(m) ==> m@ == json_error_text(self.text()),
    {
        parse_json(self.bytes.as_str())
    }
}

} // verus!
