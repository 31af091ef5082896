//! Escaping of the values that host expressions write into the output.

use vstd::prelude::*;

verus! {

/// What HTML escaping writes for `c`: an entity for `&`, `<`, `>`, `"`, `'`
/// and `/`, the character itself otherwise.
pub open spec fn html_entity(c: char) -> Seq<char> {
    if c == '&' {
        "&amp;"@
    } else if c == '<' {
        "&lt;"@
    } else if c == '>' {
        "&gt;"@
    } else if c == '"' {
        "&quot;"@
    } else if c == '\'' {
        "&#x27;"@
    } else if c == '/' {
        "&#x2F;"@
    } else {
        seq![c]
    }
}

/// `s` escaped for HTML, character by character.
pub open spec fn html_safe(s: Seq<char>) -> Seq<char>
    decreases s.len(),
{
    if s.len() == 0 {
        Seq::empty()
    } else {
        html_safe(s.drop_last()) + html_entity(s.last())
    }
}

/// Relies on `html_escape::encode_safe`, which replaces `&`, `<`, `>`, `"`,
/// `'` and `/` by their entities and copies every other character.
#[verifier::external_body]
pub fn encode_html(s: &str) -> (r: String)
    ensures
        r@ == html_safe(s@),
{
    html_escape::encode_safe(s).into_owned()
}

/// How values are escaped for one output language.
pub trait Escaper {
    /// The text written for a value `s`.
    spec fn escaped(&self, s: Seq<char>) -> Seq<char>;

    /// The text to write for `value`.
    fn escape(&self, value: &str) -> (r: String)
        ensures
            r@ == self.escaped(value@);
}

/// The escaper that leaves values as they are.
pub struct Empty;

/// The escaper for HTML, through `html_escape`.
pub struct Html;

impl Escaper for Empty {
    open spec fn escaped(&self, s: Seq<char>) -> Seq<char> {
        s
    }

    fn escape(&self, value: &str) -> (r: String) {
        String::from_str(value)
    }
}

impl Escaper for Html {
    open spec fn escaped(&self, s: Seq<char>) -> Seq<char> {
        html_safe(s)
    }

    fn escape(&self, value: &str) -> (r: String) {
        encode_html(value)
    }
}

/// A value marked safe: it is written as it stands, whatever the escaper.
pub struct MarkedSafe(pub String);

/// A value and the escaper it is written through.
pub struct Escaped<E> {
    value: String,
    escaper: E,
}

impl<E: Escaper> Escaped<E> {
    /// The value `value`, to be written through `escaper`.
    pub fn new(value: &str, escaper: E) -> (r: Self)
        ensures
            r.value()@ == value@,
            r.escaper() == escaper,
    {
        Escaped { value: String::from_str(value), escaper }
    }

    /// The value.
    pub closed spec fn value(&self) -> String {
        self.value
    }

    /// The escaper.
    pub closed spec fn escaper(&self) -> E {
        self.escaper
    }

    /// The text to write: the value through the escaper.
    pub fn render(&self) -> (r: String)
        ensures
            r@ == self.escaper().escaped(self.value()@),
    {
        self.escaper.escape(self.value.as_str())
    }

    /// The text to write for a value marked safe: the value as it stands.
    pub fn render_safe(value: &MarkedSafe) -> (r: String)
        ensures
            r@ == value.0@,
    {
        value.0.clone()
    }
}

} // verus!
