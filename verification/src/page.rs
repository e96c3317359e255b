use vstd::prelude::*;

verus! {

/// Abstract state of one discovered page: the text retrieved for it and
/// whether it has been fetched and link-extracted.
pub struct PageView {
    pub body: Seq<char>,
    pub crawled: bool,
}

impl PageView {
    /// A freshly discovered page: no body yet, not crawled.
    pub open spec fn pending() -> PageView {
        PageView { body: Seq::<char>::empty(), crawled: false }
    }

    /// A fully processed page: body cleared, marked crawled.
    pub open spec fn done() -> PageView {
        PageView { body: Seq::<char>::empty(), crawled: true }
    }
}

/// The Page struct stores the text extracted from a crawled web page
/// temporarily, until its links have been extracted, and records whether the
/// page has been crawled or not.
#[derive(Clone, Debug, PartialEq)]
pub struct Page {
    body: String,
    crawled: bool,
}

impl View for Page {
    type V = PageView;

    closed spec fn view(&self) -> PageView {
        PageView { body: self.body@, crawled: self.crawled }
    }
}

impl Page {
    pub fn new() -> (p: Page)
        ensures
            p@ == PageView::pending(),
    {
        Page { body: String::new(), crawled: false }
    }

    pub fn with_values(body: &str, crawled: &bool) -> (p: Page)
        ensures
            p@ == (PageView { body: body@, crawled: *crawled }),
    {
        Page { body: body.to_owned(), crawled: *crawled }
    }

    pub fn body(&self) -> (b: &String)
        ensures
            b@ == self@.body,
    {
        &self.body
    }

    pub fn crawled(&self) -> (c: bool)
        ensures
            c == self@.crawled,
    {
        self.crawled
    }
}

} // verus!
