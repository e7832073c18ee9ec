//! Facets: the hierarchical categories (`/human/writer`) that entities are filed under.
use vstd::prelude::*;
use vstd::string::*;

verus! {

/// Whether tantivy accepts `path` as the text of a facet: it is not empty
/// and starts with `/`.
pub open spec fn facet_text_ok(path: Seq<char>) -> bool {
    path.len() > 0 && path[0] == '/'
}

/// The encoded form of the steps of a facet text, read after its leading
/// `/`: an unescaped `/` becomes the separator `\u{0}`, a `\` is dropped and
/// the character after it is kept as it is; any other character is kept.
pub open spec fn encode_steps(s: Seq<char>, escaped: bool) -> Seq<char>
    decreases s.len(),
{
    if s.len() == 0 {
        Seq::empty()
    } else if escaped {
        seq![s[0]] + encode_steps(s.drop_first(), false)
    } else if s[0] == '\\' {
        encode_steps(s.drop_first(), true)
    } else if s[0] == '/' {
        seq!['\u{0}'] + encode_steps(s.drop_first(), false)
    } else {
        seq![s[0]] + encode_steps(s.drop_first(), false)
    }
}

/// The encoded form that tantivy gives the facet written `path`.
pub open spec fn facet_encoding(path: Seq<char>) -> Seq<char> {
    encode_steps(path.drop_first(), false)
}

/// Calls `tantivy::schema::Facet::from_text` and keeps the facet's encoded
/// form. The contract claims what tantivy's source shows: the text is
/// accepted exactly when it is not empty and starts with `/`, and the
/// encoding is `facet_encoding` (tantivy reads the text byte by byte, but
/// `/` and `\` are single bytes that no other character contains).
#[verifier::external_body]
fn tantivy_facet_encoding(path: &str) -> (r: Option<String>)
    ensures
        r is Some <==> facet_text_ok(path@),
        r matches Some(e) ==> e@ == facet_encoding(path@),
{
    tantivy::schema::Facet::from_text(path).ok().map(|f| f.encoded_str().to_string())
}

/// A facet text that tantivy refused.
#[derive(Debug)]
pub struct FacetParseError {
    pub text: String,
}

/// A point in a hierarchy of categories, kept in tantivy's encoded form.
#[derive(Debug)]
pub struct Facet {
    encoded: String,
}

impl View for Facet {
    type V = Seq<char>;

    closed spec fn view(&self) -> Seq<char> {
        self.encoded@
    }
}

impl Facet {
    /// Reads a facet from its text (`/a/b`), as `tantivy::schema::Facet::from_text` does.
    pub fn from_text(path: &str) -> (r: Result<Facet, FacetParseError>)
        ensures
            r is Ok <==> facet_text_ok(path@),
            r matches Ok(f) ==> f@ == facet_encoding(path@),
            r matches Err(e) ==> e.text@ == path@,
    {
        match tantivy_facet_encoding(path) {
            Some(encoded) => Ok(Facet { encoded }),
            None => Err(FacetParseError { text: path.to_string() }),
        }
    }

    /// The encoded form, as tantivy keeps it.
    pub fn encoded_str(&self) -> (r: &str)
        ensures
            r@ == self@,
    {
        self.encoded.as_str()
    }
}

} // verus!
