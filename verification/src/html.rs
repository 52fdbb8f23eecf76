//! A small builder for a `<div>` element with escaped attributes, used by
//! plugins to produce embed markup. Attribute values are escaped for a
//! double-quoted HTML attribute position.

use vstd::prelude::*;
use vstd::string::*;

verus! {

/// The entity replacement for one character in a double-quoted attribute
/// value: `&`, `<`, `>` and `"` become entities, all else stays itself.
pub open spec fn escape_attr_char(c: char) -> Seq<char> {
    if c == '&' {
        "&amp;"@
    } else if c == '<' {
        "&lt;"@
    } else if c == '>' {
        "&gt;"@
    } else if c == '"' {
        "&quot;"@
    } else {
        seq![c]
    }
}

/// A string escaped for a double-quoted attribute position, character by
/// character.
pub open spec fn spec_escape_attr(s: Seq<char>) -> Seq<char>
    decreases s.len(),
{
    if s.len() == 0 {
        Seq::empty()
    } else {
        spec_escape_attr(s.drop_last()) + escape_attr_char(s.last())
    }
}

/// Relies on html_escape::encode_double_quoted_attribute, which replaces
/// exactly the characters `&`, `<`, `>` and `"` by the entities `&amp;`,
/// `&lt;`, `&gt;` and `&quot;` and keeps every other character unchanged.
#[verifier::external_body]
fn escape_attr(s: &str) -> (r: String)
    ensures
        r@ == spec_escape_attr(s@),
{
    html_escape::encode_double_quoted_attribute(s).into_owned()
}

/// Builds a `<div>` element one attribute at a time.
pub struct HtmlElementBuilder {
    html: String,
}

impl View for HtmlElementBuilder {
    type V = Seq<char>;

    closed spec fn view(&self) -> Seq<char> {
        self.html@
    }
}

impl HtmlElementBuilder {
    /// Start a fresh element.
    pub fn new() -> (r: Self)
        ensures
            r@ == "<div"@,
    {
        HtmlElementBuilder { html: String::from_str("<div") }
    }

    /// Add an attribute; the value is escaped for its double-quoted
    /// position.
    pub fn attr(self, key: &str, value: &str) -> (r: Self)
        ensures
            r@ == self@ + " "@ + key@ + "=\""@ + spec_escape_attr(value@) + "\""@,
    {
        let mut html = self.html;
        html.append(" ");
        html.append(key);
        html.append("=\"");
        let escaped = escape_attr(value);
        html.append(escaped.as_str());
        html.append("\"");
        HtmlElementBuilder { html }
    }

    /// Add a `data-` attribute whose value is the given serialized JSON
    /// text, escaped for its double-quoted position.
    pub fn data(self, key: &str, value_json: &str) -> (r: Self)
        ensures
            r@ == self@ + " data-"@ + key@ + "=\""@ + spec_escape_attr(value_json@) + "\""@,
    {
        let mut html = self.html;
        html.append(" data-");
        html.append(key);
        html.append("=\"");
        let escaped = escape_attr(value_json);
        html.append(escaped.as_str());
        html.append("\"");
        HtmlElementBuilder { html }
    }

    /// Close the element and hand back its markup.
    pub fn finish(self) -> (r: String)
        ensures
            r@ == self@ + "></div>"@,
    {
        let mut html = self.html;
        html.append("></div>");
        html
    }
}

} // verus!
