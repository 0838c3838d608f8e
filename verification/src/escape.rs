use vstd::prelude::*;

verus! {

/// The HTML escaping of one character: the five significant characters
/// become entities, every other character stays itself.
pub open spec fn html_escape_char(c: char) -> Seq<char> {
    if c == '<' {
        "&lt;"@
    } else if c == '>' {
        "&gt;"@
    } else if c == '&' {
        "&amp;"@
    } else if c == '"' {
        "&quot;"@
    } else if c == '\'' {
        "&#x27;"@
    } else {
        seq![c]
    }
}

/// The HTML escaping of a text, character by character.
pub open spec fn html_escape(s: Seq<char>) -> Seq<char>
    decreases s.len(),
{
    if s.len() == 0 {
        Seq::empty()
    } else {
        html_escape_char(s[0]) + html_escape(s.skip(1))
    }
}

/// Relies on `askama_escape::escape` with the `Html` escaper: replaces
/// `<`, `>`, `&`, `"` and `'` by their entities and keeps everything else.
#[verifier::external_body]
pub(crate) fn escape_html(s: &str) -> (r: String)
    ensures
        r@ == html_escape(s@),
{
    askama_escape::escape(s, askama_escape::Html).to_string()
}

} // verus!
