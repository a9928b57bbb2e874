use crate::error::LinkError;
use crate::fetcher::{Html, PageFetcher};
use crate::links::{page_links, parse_links};
use crate::topics::{topic_set, topics};
use vstd::prelude::*;

verus! {

/// The links of the page `page_name` whose markup is `html`: each link once,
/// or a parse error naming the page where the markup cannot be parsed.
pub fn links_of_page(page_name: &str, html: &Html) -> (r: Result<Vec<String>, LinkError>)
    ensures
        match r {
            Ok(v) => page_links(html.view()) == Some(topic_set(v@)) && topics(v@).no_duplicates(),
            Err(e) => page_links(html.view()) is None && e is Parse && e.topic() == page_name@,
        },
{
    match parse_links(html.as_str()) {
        Some(v) => Ok(v),
        None => Err(LinkError::Parse(String::from_str(page_name))),
    }
}

/// Finds the links of pages that a fetcher brings.
pub struct WikiScraper<F: PageFetcher> {
    fetcher: F,
}

impl<F: PageFetcher> WikiScraper<F> {
    pub fn with_fetcher(fetcher: F) -> (r: Self)
        ensures
            r.fetcher() == fetcher,
    {
        WikiScraper { fetcher }
    }

    pub closed spec fn fetcher(&self) -> F {
        self.fetcher
    }

    /// The markup of the page `page_name`, or a fetch error naming it.
    fn get_page_contents(&self, page_name: &str) -> (r: Result<Html, LinkError>)
        ensures
            r matches Err(e) ==> (e is Fetch && e.topic() == page_name@),
    {
        match self.fetcher.fetch(page_name) {
            Ok(html) => Ok(html),
            Err(e) => Err(LinkError::Fetch(String::from_str(page_name), e.message)),
        }
    }

    /// The markup of the page `page_name` as text.
    pub fn scrape(&self, page_name: &str) -> (r: Result<String, LinkError>)
        ensures
            r matches Err(e) ==> (e is Fetch && e.topic() == page_name@),
    {
        match self.get_page_contents(page_name) {
            Ok(html) => Ok(String::from_str(html.as_str())),
            Err(e) => Err(e),
        }
    }

    /// The links of the page `page_name`, each once. Whatever the fetcher
    /// brings, they are the links of some markup; an error names the page.
    pub fn get_wiki_links(&self, page_name: &str) -> (r: Result<Vec<String>, LinkError>)
        ensures
            match r {
                Ok(v) => topics(v@).no_duplicates() && exists|h: Seq<char>| page_links(h) == Some(topic_set(v@)),
                Err(e) => e.topic() == page_name@,
            },
    {
        let html = match self.get_page_contents(page_name) {
            Ok(html) => html,
            Err(e) => {
                return Err(e);
            },
        };
        links_of_page(page_name, &html)
    }
}

impl<F: PageFetcher + Default> WikiScraper<F> {
    /// A scraper with the fetcher's default settings.
    pub fn new() -> (r: Self) {
        WikiScraper { fetcher: F::default() }
    }
}

/// Looks for ladders between pages that a fetcher brings; the search itself
/// is a `LadderSearch`, fed with the links that `scraper` finds.
pub struct WikiLadderFinder<F: PageFetcher> {
    scraper: WikiScraper<F>,
}

impl<F: PageFetcher> WikiLadderFinder<F> {
    pub fn with_fetcher(fetcher: F) -> (r: Self)
        ensures
            r.scraper_view().fetcher() == fetcher,
    {
        WikiLadderFinder { scraper: WikiScraper::with_fetcher(fetcher) }
    }

    pub closed spec fn scraper_view(&self) -> WikiScraper<F> {
        self.scraper
    }

    /// The scraper that finds the links of each page.
    pub fn scraper(&self) -> (r: &WikiScraper<F>)
        ensures
            *r == self.scraper_view(),
    {
        &self.scraper
    }
}

impl<F: PageFetcher + Default> Default for WikiLadderFinder<F> {
    fn default() -> (r: Self) {
        WikiLadderFinder { scraper: WikiScraper::new() }
    }
}

} // verus!
