//! An in-memory TOML document as a source, and the TOML parser it uses.
use crate::category::Category;
use crate::node::{Node, Tree};
use vstd::prelude::*;
use vstd::string::*;

verus! {

#[verifier::external_type_specification]
#[verifier::external_body]
pub struct ExTomlValue(toml::Value);

/// The document that the toml crate reads from a TOML text, as the model of
/// a [`Node`] (integers and floats as their text; a datetime as the one-entry
/// table `{"$__toml_private_datetime": <its TOML text>}` that the toml crate
/// presents to serde in its place),
/// or `None` where the toml crate rejects the text.
pub uninterp spec fn toml_parse(text: Seq<char>) -> Option<Tree>;

/// The message that the toml crate's error displays for a TOML text that it
/// rejects.
pub uninterp spec fn toml_error_text(text: Seq<char>) -> Seq<char>;

/// Calls `toml::from_str::<toml::Table>`, and on failure displays the
/// error. Claims only that the outcome is a function of the text: the
/// document is named `toml_parse`, the message `toml_error_text`; what TOML
/// means, and what the message says, is the toml crate's.
#[verifier::external_body]
pub(crate) fn parse_toml(text: &str) -> (r: Result<Node, String>)
    ensures
        r is Ok <==> toml_parse(text@) is Some,
        r matches Ok(n) ==> toml_parse(text@) == Some(n@),
        r matches Err(m) ==> m@ == toml_error_text(text@),
{
    match toml::from_str::<toml::Table>(text) {
        Ok(t) => Ok(Node::Object(t.into_iter().map(|(k, x)| (k, node_from_toml(x))).collect())),
        Err(e) => Err(e.to_string()),
    }
}

/// Moves a `toml::Value` into a [`Node`], variant by variant. An integer
/// becomes its decimal text, a float its `Debug` text (which always shows a
/// fraction or an exponent), a datetime the one-entry table under which
/// `toml_datetime` hands it to serde (`toml_datetime/src/datetime.rs`,
/// `FIELD`).
#[verifier::external_body]
fn node_from_toml(v: toml::Value) -> Node {
    match v {
        toml::Value::String(s) => Node::Text(s),
        toml::Value::Integer(i) => Node::Number(i.to_string()),
        toml::Value::Float(f) => Node::Number(format!("{:?}", f)),
        toml::Value::Boolean(b) => Node::Bool(b),
        toml::Value::Datetime(d) => Node::Object(
            vec![("$__toml_private_datetime".to_string(), Node::Text(d.to_string()))],
        ),
        toml::Value::Array(a) => Node::Array(a.into_iter().map(node_from_toml).collect()),
        toml::Value::Table(m) => Node::Object(
            m.into_iter().map(|(k, x)| (k, node_from_toml(x))).collect(),
        ),
    }
}

/// An in-memory TOML source. Reports [`Category::File`].
pub struct TomlStr {
    name: String,
    bytes: String,
}

impl TomlStr {
    /// A TOML source. `name` is a human-readable label used in error
    /// messages; `toml` is the document text.
    pub fn new(name: &str, toml: &str) -> (r: TomlStr)
        ensures
            r.label() == name@,
            r.text() == toml@,
    {
        TomlStr { name: String::from_str(name), bytes: String::from_str(toml) }
    }

    pub closed spec fn label(&self) -> Seq<char> {
        self.name@
    }

    pub closed spec fn text(&self) -> Seq<char> {
        self.bytes@
    }

    pub fn name(&self) -> (r: &str)
        ensures
            r@ == self.label(),
    {
        self.name.as_str()
    }

    pub fn category(&self) -> (r: Category)
        ensures
            r == Category::File,
    {
        Category::File
    }

    /// The document text.
    pub fn contents(&self) -> (r: &str)
        ensures
            r@ == self.text(),
    {
        self.bytes.as_str()
    }

    /// The document that the text parses into, or the parser's message.
    pub fn document(&self) -> (r: Result<Node, String>)
        ensures
            r is Ok <==> toml_parse(self.text()) is Some,
            r matches Ok(n) ==> toml_parse(self.text()) == Some(n@),
            r matches Err(m) ==> m@ == toml_error_text(self.text()),
    {
        parse_toml(self.bytes.as_str())
    }
}

} // verus!
