use vstd::prelude::*;

verus! {

/// The markup of one page.
pub struct Html(String);

impl Html {
    pub fn new(html: String) -> (r: Html)
        ensures
            r.view() == html@,
    {
        Html(html)
    }

    pub closed spec fn view(&self) -> Seq<char> {
        self.0@
    }

    /// The markup as text.
    pub fn as_str(&self) -> (r: &str)
        ensures
            r@ == self.view(),
    {
        self.0.as_str()
    }
}

/// Why a page could not be fetched.
#[derive(Debug)]
pub struct FetchError {
    pub message: String,
}

/// Fetches the markup of a page by its name.
pub trait PageFetcher {
    fn fetch(&self, page_name: &str) -> Result<Html, FetchError>;
}

/// Where the pages of the encyclopedia are fetched from: the page named `p`
/// lives at `<base url>/wiki/<p>`.
pub struct WikiPageFetcher {
    base_url: String,
}

/// The address of the English encyclopedia.
pub open spec fn wiki_base_url() -> Seq<char> {
    "https://en.wikipedia.org"@
}

impl WikiPageFetcher {
    pub closed spec fn base(&self) -> Seq<char> {
        self.base_url@
    }

    pub fn new() -> (r: WikiPageFetcher)
        ensures
            r.base() == wiki_base_url(),
    {
        WikiPageFetcher { base_url: String::from_str("https://en.wikipedia.org") }
    }

    /// The address of the page named `page_name`.
    pub fn page_url(&self, page_name: &str) -> (r: String)
        ensures
            r@ == self.base() + "/wiki/"@ + page_name@,
    {
        let mut url = self.base_url.clone();
        url.append("/wiki/");
        url.append(page_name);
        url
    }
}

impl Default for WikiPageFetcher {
    fn default() -> (r: WikiPageFetcher)
        ensures
            r.base() == wiki_base_url(),
    {
        WikiPageFetcher::new()
    }
}

} // verus!
