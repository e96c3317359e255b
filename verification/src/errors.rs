use vstd::prelude::*;

verus! {

/// The HTTP fetch (or the body decoding) failed for one URL.
#[derive(Clone, Debug, PartialEq)]
pub struct FetchError {
    pub url: String,
    pub cause: String,
}

/// The errors a crawl can surface: the very first URL did not parse as an
/// absolute URL, or a round's fetch failed and the whole crawl was aborted.
#[derive(Clone, Debug, PartialEq)]
pub enum CrawlError {
    InvalidBaseUrl,
    Aborted(FetchError),
}

} // verus!
