pub mod driver;
pub mod errors;
pub mod extract;
pub mod frontier;
pub mod page;
pub mod strutil;
pub mod utils;

pub use errors::{CrawlError, FetchError};
pub use extract::links_of;
pub use frontier::Frontier;
pub use page::{Page, PageView};

use vstd::prelude::*;
use frontier::{contains_key, wf_entries, EntryView};
use utils::{check_base_url, normalise_url, spec_normalize, url_parse};

verus! {

/// The established base, or the serialization of the first URL ever added
/// when no base is established yet (the two coincide on the first addition).
pub open spec fn spec_new_base(old_base: Seq<char>, u: Seq<char>) -> Seq<char> {
    if old_base.len() == 0 {
        url_parse(u)->Some_0.serialization
    } else {
        old_base
    }
}

/// The crawl state: the immutable base URL, set exactly once by the first URL
/// ever added, and the frontier of discovered pages.
#[derive(Clone, Debug, PartialEq)]
pub struct SimpleCrawler {
    pub base_url: String,
    pub urls: Frontier,
}

impl SimpleCrawler {
    /// The characters of the stored base URL; empty until a base is set.
    pub open spec fn spec_base(&self) -> Seq<char> {
        self.base_url@
    }

    /// The crawl state's invariant: the frontier's keys are unique.
    pub open spec fn wf(&self) -> bool {
        wf_entries(self.urls@)
    }

    /// Creates an empty crawler with no base URL and no discovered pages.
    pub fn new() -> (c: SimpleCrawler)
        ensures
            c.wf(),
            c.spec_base().len() == 0,
            c.urls@ =~= Seq::<EntryView>::empty(),
    {
        SimpleCrawler { base_url: String::new(), urls: Frontier::new() }
    }

    /// The stored base URL.
    pub fn base_url(&self) -> (b: &String)
        ensures
            b@ == self.spec_base(),
    {
        &self.base_url
    }

    /// Adds a URL to be crawled. The first URL establishes the base and must
    /// parse as an absolute URL; that is the only error. Once a base is set,
    /// every later URL is only normalized against it and silently dropped
    /// when rejected or already present.
    pub fn url(self, url: &str) -> (r: Result<SimpleCrawler, CrawlError>)
        requires
            self.wf(),
        ensures
            match r {
                Ok(c) => {
                    &&& c.wf()
                    &&& c.spec_base() == spec_new_base(self.spec_base(), url@)
                    &&& self.spec_base().len() == 0 ==> (url_parse(url@) is Some && url_parse(
                        c.spec_base(),
                    ) is Some)
                    &&& ((self.spec_base().len() == 0 && url_parse(url@)->Some_0.host is Some
                        && !url@.contains('?') && !url@.contains('#')) ==> contains_key(
                        c.urls@,
                        url@,
                    ))
                    &&& match spec_normalize(c.spec_base(), url@) {
                        Some(k) => if contains_key(self.urls@, k) {
                            c.urls@ =~= self.urls@
                        } else {
                            c.urls@ =~= self.urls@.push((k, PageView::pending()))
                        },
                        None => c.urls@ =~= self.urls@,
                    }
                },
                Err(e) => self.spec_base().len() == 0 && url_parse(url@) is None && e
                    == CrawlError::InvalidBaseUrl,
            },
            self.spec_base().len() > 0 ==> r is Ok,
    {
        let mut new = self;
        if new.base_url.as_str().is_empty() {
            let new_base_url = match check_base_url(url) {
                Ok(b) => b,
                Err(e) => {
                    return Err(e);
                },
            };
            new.base_url = new_base_url;
        }
        match normalise_url(new.base_url.as_str(), url) {
            Some(u) => {
                new.urls.insert_if_absent(u.as_str());
            },
            None => {},
        }
        Ok(new)
    }
}

} // verus!
