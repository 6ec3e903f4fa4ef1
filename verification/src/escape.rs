//! Patterns read as URIs.

use vstd::prelude::*;

verus! {

/// The path of a text read as a URI; nothing if the text is no URI.
pub uninterp spec fn uri_path_of(text: Seq<char>) -> Option<Seq<char>>;

/// Whether a character can stand in the path of a URI as it is.
pub open spec fn is_path_char(c: char) -> bool {
    ||| c == '!' || c == '"' || c == '=' || c == '|' || c == '~' || c == '{' || c == '}'
    ||| '$' <= c <= ';'
    ||| '@' <= c <= '_'
    ||| 'a' <= c <= 'z'
}

/// Number of leading characters that can stand in the path of a URI.
pub open spec fn path_chars(text: Seq<char>) -> nat
    decreases text.len(),
{
    if text.len() == 0 || !is_path_char(text[0]) {
        0
    } else {
        1 + path_chars(text.skip(1))
    }
}

/// Whether a text is a path in a URI as it is.
pub open spec fn is_plain_path(text: Seq<char>) -> bool {
    0 < text.len() <= 65534 && text[0] == '/' && path_chars(text) == text.len()
}

/// What is known of the path of a text that begins with a slash: it reaches up to a query or a
/// fragment, and no other character may end it.
pub open spec fn is_uri_path(text: Seq<char>, path: Option<Seq<char>>) -> bool {
    let n = path_chars(text) as int;
    &&& path == uri_path_of(text)
    &&& is_plain_path(text) ==> path == Some(text)
    &&& text.len() > 0 && text[0] == '/' && n < text.len() ==> {
        &&& text[n] != '?' && text[n] != '#' ==> path is None
        &&& path is Some ==> path == Some(text.take(n))
    }
}

/// The text of a string, if there is one.
pub open spec fn optional_text(text: Option<String>) -> Option<Seq<char>> {
    match text {
        Some(t) => Some(t@),
        None => None,
    }
}

/// Reads a text as a URI and takes its path.
///
/// Trusted: whether `hyper::Uri` reads a text, and what `path` then gives, depends on the text
/// alone. If the text begins with a slash, the path is what stands before the first `?` or `#`; the
/// text is no URI if a character stands there that a path cannot hold, and it is one if it is made
/// of such characters alone and is not too long. Of other texts, and of what may follow a path,
/// nothing is said.
#[verifier::external_body]
pub(crate) fn uri_path(text: &str) -> (r: Option<String>)
    ensures
        optional_text(r) == uri_path_of(text@),
        is_uri_path(text@, optional_text(r)),
{
    match text.parse::<hyper::Uri>() {
        Ok(uri) => Some(uri.path().to_owned()),
        Err(_) => None,
    }
}

} // verus!
