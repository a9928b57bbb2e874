use std::collections::HashSet;
use wiki_racer::error::LinkError;
use wiki_racer::fetcher::{FetchError, Html, PageFetcher, WikiPageFetcher};
use wiki_racer::links::{links_from_hrefs, parse_links, wiki_link_target};
use wiki_racer::scraper::{links_of_page, WikiLadderFinder, WikiScraper};

struct MockPageFetcher(String);

impl PageFetcher for MockPageFetcher {
    fn fetch(&self, _page_name: &str) -> Result<Html, FetchError> {
        Ok(Html::new(self.0.clone()))
    }
}

struct FailingFetcher;

impl PageFetcher for FailingFetcher {
    fn fetch(&self, _page_name: &str) -> Result<Html, FetchError> {
        Err(FetchError { message: "offline".to_string() })
    }
}

fn as_set(v: Vec<String>) -> HashSet<String> {
    v.into_iter().collect()
}

#[test]
fn returns_expected_links() {
    let html = r#"
<p>
In <a href="/wiki/Topology​">topology</a>, the <b>long line</b> (or
<b>Alexandroff line</b>) is a
<a href="/wiki/Topological_space​">topological space</a> somewhat similar to
the <a href="/wiki/Real_line​">real line</a>, but in a certain way "longer". It
behaves locally just like the real line, but has different large-scale
properties (e.g., it is neither
<a href="/wiki/Lindel%C3%B6f_space​">Lindelöf</a> nor
<a href="/wiki/Separable_space​">separable</a>). Therefore, it serves as one of
the basic counterexamples of topology
<a href="http://www.ams.org/mathscinet-getitem?mr=507446">[1]</a>.
Intuitively, the usual real-number line consists of a countable number of line
segments [0,1) laid end-to-end, whereas the long line is constructed from an
uncountable number of such segments. You can consult
<a href="/wiki/Special:BookSources/978-1-55608-010-4">this</a> book for more
information.
</p>"#;

    let expected_links: Vec<String> = vec![
        "Topology​".into(),
        "Topological_space​".into(),
        "Real_line​".into(),
        "Lindel%C3%B6f_space​".into(),
        "Separable_space​".into(),
    ];
    let links = parse_links(html).unwrap();
    assert_eq!(as_set(links), HashSet::from_iter(expected_links));
}

#[test]
fn returns_expected_wiki_links() {
    let html = r#"
      <p>
      In <a href="/wiki/Topology​">topology</a>, the <b>long line</b> (or
      <b>Alexandroff line</b>) is a
      <a href="/wiki/Topological_space​">topological space</a> somewhat similar to
      the <a href="/wiki/Real_line​">real line</a>, but in a certain way "longer". It
      behaves locally just like the real line, but has different large-scale
      properties (e.g., it is neither
      <a href="/wiki/Lindel%C3%B6f_space​">Lindelöf</a> nor
      <a href="/wiki/Separable_space​">separable</a>). Therefore, it serves as one of
      the basic counterexamples of topology
      <a href="http://www.ams.org/mathscinet-getitem?mr=507446">[1]</a>.
      Intuitively, the usual real-number line consists of a countable number of line
      segments [0,1) laid end-to-end, whereas the long line is constructed from an
      uncountable number of such segments. You can consult
      <a href="/wiki/Special:BookSources/978-1-55608-010-4">this</a> book for more
      information.
      </p>
      "#;
    let scraper = WikiScraper::with_fetcher(MockPageFetcher(html.to_string()));

    let expected_links: Vec<String> = vec![
        "Topology​".into(),
        "Topological_space​".into(),
        "Real_line​".into(),
        "Lindel%C3%B6f_space​".into(),
        "Separable_space​".into(),
    ];
    let links = scraper.get_wiki_links("page_name").unwrap();
    assert_eq!(as_set(links), HashSet::from_iter(expected_links));
}

#[test]
fn extraction_keeps_only_content_links() {
    let html = r#"<a href="/wiki/Topology">t</a> <a href="/wiki/Topological_space">s</a>
<a href="http://example.com/x">x</a> <a href="/wiki/Special:BookSources/123">b</a>"#;
    let links = parse_links(html).unwrap();
    let expected: HashSet<String> = ["Topology", "Topological_space"].iter().map(|s| s.to_string()).collect();
    assert_eq!(as_set(links), expected);
}

#[test]
fn repeated_links_are_listed_once() {
    let html = r#"<a href="/wiki/A">1</a><a href="/wiki/A">2</a><a>no href</a><a href="/wiki/B">3</a>"#;
    let mut links = parse_links(html).unwrap();
    links.sort();
    assert_eq!(links, vec!["A".to_string(), "B".to_string()]);
}

#[test]
fn link_target_rule() {
    assert_eq!(wiki_link_target("/wiki/Topology"), Some("Topology".to_string()));
    assert_eq!(wiki_link_target("/wiki/"), Some("".to_string()));
    assert_eq!(wiki_link_target("/wiki/a/wiki/b"), Some("a/wiki/b".to_string()));
    assert_eq!(wiki_link_target("/wiki/Lindel%C3%B6f_space"), Some("Lindel%C3%B6f_space".to_string()));
    assert_eq!(wiki_link_target("/wiki/File:X.png"), None);
    assert_eq!(wiki_link_target("http://example.com/wiki/x"), None);
    assert_eq!(wiki_link_target("/wik"), None);
    assert_eq!(wiki_link_target(" /wiki/Topology"), None);
}

#[test]
fn hrefs_are_trimmed_before_the_rule() {
    let hrefs = vec!["  /wiki/Topology \n".to_string(), "/wiki/Special:X".to_string(), "/w".to_string()];
    assert_eq!(links_from_hrefs(&hrefs), vec!["Topology".to_string()]);
}

#[test]
fn page_links_of_given_markup() {
    let html = Html::new(r#"<div><a href="/wiki/Graph">g</a></div>"#.to_string());
    assert_eq!(html.as_str(), r#"<div><a href="/wiki/Graph">g</a></div>"#);
    match links_of_page("Page", &html) {
        Ok(v) => assert_eq!(v, vec!["Graph".to_string()]),
        Err(_) => panic!("markup should parse"),
    }
}

#[test]
fn fetch_failure_names_the_page() {
    let scraper = WikiScraper::with_fetcher(FailingFetcher);
    match scraper.get_wiki_links("Topology") {
        Err(LinkError::Fetch(page, message)) => {
            assert_eq!(page, "Topology");
            assert_eq!(message, "offline");
        }
        _ => panic!("expected a fetch error"),
    }
    assert!(matches!(scraper.scrape("Topology"), Err(LinkError::Fetch(_, _))));
}

#[test]
fn scrape_returns_the_markup() {
    let scraper = WikiScraper::with_fetcher(MockPageFetcher("<p>hi</p>".to_string()));
    match scraper.scrape("X") {
        Ok(s) => assert_eq!(s, "<p>hi</p>"),
        Err(_) => panic!("expected markup"),
    }
}

#[test]
fn page_url_joins_base_and_name() {
    let fetcher = WikiPageFetcher::new();
    assert_eq!(fetcher.page_url("JavaScript"), "https://en.wikipedia.org/wiki/JavaScript");
    let fetcher = WikiPageFetcher::default();
    assert_eq!(fetcher.page_url(""), "https://en.wikipedia.org/wiki/");
}

#[test]
fn finder_hands_out_its_scraper() {
    let finder = WikiLadderFinder::with_fetcher(MockPageFetcher(r#"<a href="/wiki/End">e</a>"#.to_string()));
    match finder.scraper().get_wiki_links("Start") {
        Ok(v) => assert_eq!(v, vec!["End".to_string()]),
        Err(_) => panic!("expected links"),
    }
}
