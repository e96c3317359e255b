use vstd::prelude::*;
use select::document::Document;
use select::predicate::Name;

verus! {

/// The href attribute values of the anchor elements of an HTML document, in
/// document order: what link extraction yields on a given body text. HTML
/// parsing is a function of the characters alone.
pub uninterp spec fn links_of(body: Seq<char>) -> Seq<Seq<char>>;

/// Relies on select's HTML parsing (Document::from on a string, find over
/// anchor elements, Node::attr for "href") to list a document's raw anchor
/// targets; the result depends on the document text alone.
#[verifier::external_body]
pub(crate) fn extract_links(body: &str) -> (r: Vec<String>)
    ensures
        r.deep_view() == links_of(body@),
{
    Document::from(body)
        .find(Name("a"))
        .filter_map(|n| n.attr("href"))
        .map(str::to_owned)
        .collect()
}

} // verus!
