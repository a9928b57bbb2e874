pub mod error;
pub mod fetcher;
pub mod frontier;
pub mod graph;
pub mod ladder;
pub mod links;
pub mod scraper;
pub mod search;
pub mod topics;

pub use fetcher::{Html, PageFetcher, WikiPageFetcher};
pub use scraper::{WikiLadderFinder, WikiScraper};
