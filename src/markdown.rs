//! Markdown as a stream of events: plain text nodes, which directives may stand
//! in, and everything else, which passes through untouched.

use pulldown_cmark::{Event, Parser};
use vstd::prelude::*;

verus! {

#[verifier::external_type_specification]
#[verifier::external_body]
pub struct ExCmarkError(pulldown_cmark_to_cmark::Error);

/// The texts of the text nodes of `content`, in document order.
pub uninterp spec fn markdown_texts(content: Seq<char>) -> Seq<Seq<char>>;

/// `content` written back as markdown with its text nodes, in order, replaced
/// by `texts` and every other event as parsed; `None` where the writer refuses
/// the events.
pub uninterp spec fn markdown_with_texts(content: Seq<char>, texts: Seq<Seq<char>>) -> Option<
    Seq<char>,
>;

/// The characters of each string.
pub open spec fn string_views(v: Seq<String>) -> Seq<Seq<char>> {
    v.map_values(|s: String| s@)
}

/// Relies on `pulldown_cmark::Parser::new`: the text of each text event of
/// `content`, in order.
#[verifier::external_body]
pub(crate) fn parse_texts(content: &str) -> (r: Vec<String>)
    ensures
        string_views(r@) == markdown_texts(content@),
{
    let mut texts = Vec::new();
    for event in Parser::new(content) {
        if let Event::Text(text) = event {
            texts.push(text.into_string());
        }
    }
    texts
}

/// Relies on `pulldown_cmark::Parser::new` and `pulldown_cmark_to_cmark::cmark`:
/// the events of `content`, with the text of the k-th text event replaced by
/// `texts[k]`, written back as markdown.
#[verifier::external_body]
pub(crate) fn write_with_texts(content: &str, texts: Vec<String>) -> (r: Result<
    String,
    pulldown_cmark_to_cmark::Error,
>)
    requires
        texts@.len() == markdown_texts(content@).len(),
    ensures
        match markdown_with_texts(content@, string_views(texts@)) {
            Some(s) => r matches Ok(out) && out@ == s,
            None => r is Err,
        },
{
    let mut texts = texts.into_iter();
    let mut events = Vec::new();
    for event in Parser::new(content) {
        events.push(
            match event {
                Event::Text(_) => Event::Text(texts.next().unwrap_or_default().into()),
                other => other,
            },
        );
    }
    let mut out = String::new();
    match pulldown_cmark_to_cmark::cmark(events.iter(), &mut out) {
        Ok(_) => Ok(out),
        Err(err) => Err(err),
    }
}

} // verus!
