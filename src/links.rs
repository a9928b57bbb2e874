use crate::topics::{insert_topic, topic_set, topics};
use vstd::prelude::*;
use vstd::string::StringSliceAdditionalSpecFns;

verus! {

/// The path prefix of a content link.
pub open spec fn wiki_prefix() -> Seq<char> {
    seq!['/', 'w', 'i', 'k', 'i', '/']
}

/// `s` holds the content-link prefix at position `i`.
pub open spec fn prefix_at(s: Seq<char>, i: int) -> bool {
    0 <= i && i + 6 <= s.len() && s.subrange(i, i + 6) == wiki_prefix()
}

/// The topic that a trimmed link names: links under the content path with no
/// namespace qualifier (no `:`) name what follows the path prefix, as it
/// stands; others name none.
pub open spec fn wiki_target(link: Seq<char>) -> Option<Seq<char>> {
    if prefix_at(link, 0) && !link.contains(':') {
        Some(link.subrange(6, link.len() as int))
    } else {
        None
    }
}

/// What `str::trim` returns for `s`.
pub uninterp spec fn trim_of(s: Seq<char>) -> Seq<char>;

/// The `href` values of the anchors in `html`, in document order, or `None`
/// where the markup cannot be parsed.
pub uninterp spec fn anchor_hrefs(html: Seq<char>) -> Option<Seq<Seq<char>>>;

/// The topics named by the trimmed hrefs of `hrefs`.
pub open spec fn href_links(hrefs: Seq<Seq<char>>) -> Set<Seq<char>> {
    Set::new(|w: Seq<char>| exists|i: int| 0 <= i < hrefs.len() && wiki_target(trim_of(#[trigger] hrefs[i])) == Some(w))
}

/// The links found in the page `html`, or `None` where it cannot be parsed.
pub open spec fn page_links(html: Seq<char>) -> Option<Set<Seq<char>>> {
    match anchor_hrefs(html) {
        Some(h) => Some(href_links(h)),
        None => None,
    }
}

/// Characters of the Unicode `White_Space` property, the whitespace that
/// `str::trim` removes.
pub open spec fn white_space(c: char) -> bool {
    let n = c as u32;
    ||| 0x9 <= n <= 0xd
    ||| n == 0x20 || n == 0x85 || n == 0xa0 || n == 0x1680
    ||| 0x2000 <= n <= 0x200a
    ||| n == 0x2028 || n == 0x2029 || n == 0x202f || n == 0x205f || n == 0x3000
}

/// Relies on `str::trim`: the result depends on the characters of `s` alone,
/// and a string that neither starts nor ends with whitespace is kept as it is.
#[verifier::external_body]
fn trimmed(s: &str) -> (r: String)
    ensures
        r@ == trim_of(s@),
        s@.len() == 0 || (!white_space(s@[0]) && !white_space(s@.last())) ==> r@ == s@,
{
    s.trim().to_string()
}

/// Relies on `tl::parse` and tl's `a[href]` query selector: the `href` of each
/// matching anchor in document order, empty where it is not UTF-8; `None`
/// where the markup is refused, which `tl::parse` does only for input longer
/// than `u32::MAX` bytes (the selector is fixed and valid).
#[verifier::external_body]
fn hrefs_in(html: &str) -> (r: Option<Vec<String>>)
    ensures
        html.spec_bytes().len() <= u32::MAX ==> r is Some,
        match r {
            Some(v) => anchor_hrefs(html@) == Some(topics(v@)),
            None => anchor_hrefs(html@) is None,
        },
{
    let dom = tl::parse(html, tl::ParserOptions::default()).ok()?;
    let parser = dom.parser();
    let anchors = dom.query_selector("a[href]")?;
    Some(anchors.map(|h| {
        let tag = h.get(parser).and_then(|n| n.as_tag());
        let href = tag.and_then(|t| t.attributes().get("href").flatten());
        href.and_then(|b| b.try_as_utf8_str()).unwrap_or_default().to_string()
    }).collect())
}

/// Whether the content-link prefix starts at character `i` of `s`.
fn has_prefix_at(s: &str, i: usize, n: usize) -> (r: bool)
    requires
        n == s@.len(),
    ensures
        r == prefix_at(s@, i as int),
{
    if i > n || n - i < 6 {
        return false;
    }
    let r = s.get_char(i) == '/' && s.get_char(i + 1) == 'w' && s.get_char(i + 2) == 'i' && s.get_char(i + 3)
        == 'k' && s.get_char(i + 4) == 'i' && s.get_char(i + 5) == '/';
    assert(r == (s@.subrange(i as int, i + 6) =~= wiki_prefix()));
    r
}

/// Whether `s` holds a `:`.
fn has_colon(s: &str, n: usize) -> (r: bool)
    requires
        n == s@.len(),
    ensures
        r == s@.contains(':'),
{
    let mut i: usize = 0;
    while i < n
        invariant
            i <= n,
            n == s@.len(),
            forall|k: int| 0 <= k < i ==> s@[k] != ':',
        decreases n - i,
    {
        if s.get_char(i) == ':' {
            return true;
        }
        i = i + 1;
    }
    false
}

/// The topic named by an already trimmed link, as `wiki_target` says.
pub fn wiki_link_target(link: &str) -> (r: Option<String>)
    ensures
        match r {
            Some(t) => wiki_target(link@) == Some(t@),
            None => wiki_target(link@) is None,
        },
{
    let n = link.unicode_len();
    if !has_prefix_at(link, 0, n) || has_colon(link, n) {
        return None;
    }
    Some(String::from_str(link.substring_char(6, n)))
}

/// The distinct topics named by `hrefs`: each href is trimmed, then kept as
/// `wiki_target` says.
pub fn links_from_hrefs(hrefs: &Vec<String>) -> (r: Vec<String>)
    ensures
        topic_set(r@) == href_links(topics(hrefs@)),
        topics(r@).no_duplicates(),
        forall|k: int| 0 <= k < hrefs@.len() && (hrefs@[k]@.len() == 0 || (!white_space(hrefs@[k]@[0])
            && !white_space(hrefs@[k]@.last()))) ==> #[trigger] trim_of(hrefs@[k]@) == hrefs@[k]@,
{
    let mut out: Vec<String> = Vec::new();
    let mut i: usize = 0;
    while i < hrefs.len()
        invariant
            i <= hrefs.len(),
            topics(out@).no_duplicates(),
            topic_set(out@) == href_links(topics(hrefs@).subrange(0, i as int)),
            forall|k: int| 0 <= k < i && (hrefs@[k]@.len() == 0 || (!white_space(hrefs@[k]@[0])
                && !white_space(hrefs@[k]@.last()))) ==> #[trigger] trim_of(hrefs@[k]@) == hrefs@[k]@,
        decreases hrefs.len() - i,
    {
        let link = trimmed(hrefs[i].as_str());
        let target = wiki_link_target(link.as_str());
        let ghost prev = topic_set(out@);
        let ghost h = topics(hrefs@);
        match target {
            Some(t) => {
                let ghost tv = t@;
                insert_topic(&mut out, t);
                proof {
                    assert(topic_set(out@) =~= href_links(h.subrange(0, i + 1))) by {
                        assert forall|w: Seq<char>| href_links(h.subrange(0, i + 1)).contains(w) implies topic_set(out@).contains(w) by {
                            let k = choose|k: int| 0 <= k < i + 1 && wiki_target(trim_of(#[trigger] h.subrange(0, i + 1)[k])) == Some(w);
                            if k < i {
                                assert(h.subrange(0, i as int)[k] == h.subrange(0, i + 1)[k]);
                            }
                        }
                        assert forall|w: Seq<char>| topic_set(out@).contains(w) implies href_links(h.subrange(0, i + 1)).contains(w) by {
                            if w == tv {
                                assert(h.subrange(0, i + 1)[i as int] == hrefs@[i as int]@);
                            } else {
                                let k = choose|k: int| 0 <= k < i && wiki_target(trim_of(#[trigger] h.subrange(0, i as int)[k])) == Some(w);
                                assert(h.subrange(0, i as int)[k] == h.subrange(0, i + 1)[k]);
                            }
                        }
                    }
                }
            },
            None => {
                proof {
                    assert(topic_set(out@) =~= href_links(h.subrange(0, i + 1))) by {
                        assert forall|w: Seq<char>| href_links(h.subrange(0, i + 1)).contains(w) implies topic_set(out@).contains(w) by {
                            let k = choose|k: int| 0 <= k < i + 1 && wiki_target(trim_of(#[trigger] h.subrange(0, i + 1)[k])) == Some(w);
                            assert(h.subrange(0, i + 1)[i as int] == hrefs@[i as int]@);
                            if k < i {
                                assert(h.subrange(0, i as int)[k] == h.subrange(0, i + 1)[k]);
                            }
                        }
                        assert forall|w: Seq<char>| topic_set(out@).contains(w) implies href_links(h.subrange(0, i + 1)).contains(w) by {
                            let k = choose|k: int| 0 <= k < i && wiki_target(trim_of(#[trigger] h.subrange(0, i as int)[k])) == Some(w);
                            assert(h.subrange(0, i as int)[k] == h.subrange(0, i + 1)[k]);
                        }
                    }
                }
            },
        }
        i = i + 1;
    }
    assert(topics(hrefs@).subrange(0, hrefs.len() as int) =~= topics(hrefs@));
    out
}

/// The distinct links found in the page `html`, or `None` where its markup
/// cannot be parsed.
pub fn parse_links(html: &str) -> (r: Option<Vec<String>>)
    ensures
        match r {
            Some(v) => page_links(html@) == Some(topic_set(v@)) && topics(v@).no_duplicates(),
            None => page_links(html@) is None,
        },
        html.spec_bytes().len() <= u32::MAX ==> r is Some,
{
    match hrefs_in(html) {
        Some(hrefs) => Some(links_from_hrefs(&hrefs)),
        None => None,
    }
}

} // verus!
