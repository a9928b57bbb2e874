use crate::error::LinkError;
use crate::topics::{contains_topic, topic_set, topics};
use vstd::prelude::*;

verus! {

/// Every link target listed in `pages`, in order.
pub open spec fn graph_targets(pages: Seq<(String, Vec<String>)>) -> Seq<Seq<char>>
    decreases pages.len(),
{
    if pages.len() == 0 {
        Seq::empty()
    } else {
        graph_targets(pages.drop_last()) + topics(pages.last().1@)
    }
}

proof fn lemma_graph_targets_contains(pages: Seq<(String, Vec<String>)>, i: int, w: Seq<char>)
    requires
        0 <= i < pages.len(),
        topic_set(pages[i].1@).contains(w),
    ensures
        graph_targets(pages).contains(w),
    decreases pages.len(),
{
    let k = choose|k: int| 0 <= k < topics(pages[i].1@).len() && topics(pages[i].1@)[k] == w;
    let prefix = graph_targets(pages.drop_last());
    if i == pages.len() - 1 {
        assert(graph_targets(pages)[prefix.len() + k] == w);
    } else {
        lemma_graph_targets_contains(pages.drop_last(), i, w);
        let m = choose|m: int| 0 <= m < prefix.len() && prefix[m] == w;
        assert(graph_targets(pages)[m] == w);
    }
}

/// A finite link graph held in memory: each page lists its links, and some
/// topics can be marked as failing to load.
pub struct LinkGraph {
    pages: Vec<(String, Vec<String>)>,
    broken: Vec<String>,
}

impl LinkGraph {
    /// The links of topic `t`: all links listed for pages named `t`; none for a
    /// topic that has no page.
    pub closed spec fn links_of(&self, t: Seq<char>) -> Set<Seq<char>> {
        Set::new(|w: Seq<char>| exists|i: int| 0 <= i < self.pages@.len() && #[trigger] self.pages@[i].0@ == t
            && topic_set(self.pages@[i].1@).contains(w))
    }

    /// Whether loading the links of `t` fails.
    pub closed spec fn is_broken(&self, t: Seq<char>) -> bool {
        topics(self.broken@).contains(t)
    }

    /// Every topic that some page links to.
    pub closed spec fn targets(&self) -> Seq<Seq<char>> {
        graph_targets(self.pages@)
    }

    pub proof fn lemma_targets(&self, v: Seq<char>, w: Seq<char>)
        requires
            self.links_of(v).contains(w),
        ensures
            self.targets().contains(w),
    {
        let i = choose|i: int| 0 <= i < self.pages@.len() && #[trigger] self.pages@[i].0@ == v
            && topic_set(self.pages@[i].1@).contains(w);
        lemma_graph_targets_contains(self.pages@, i, w);
    }

    /// A graph with no pages.
    pub fn new() -> (r: LinkGraph)
        ensures
            forall|t: Seq<char>| #[trigger] r.links_of(t) == Set::<Seq<char>>::empty(),
            forall|t: Seq<char>| !#[trigger] r.is_broken(t),
    {
        let r = LinkGraph { pages: Vec::new(), broken: Vec::new() };
        assert forall|t: Seq<char>| #[trigger] r.links_of(t) == Set::<Seq<char>>::empty() by {
            assert(r.links_of(t) =~= Set::<Seq<char>>::empty());
        }
        r
    }

    /// Adds a page named `name` that links to `links`.
    pub fn add_page(&mut self, name: &str, links: Vec<String>)
        ensures
            forall|t: Seq<char>| #[trigger] final(self).links_of(t) == if t == name@ {
                old(self).links_of(t) + topic_set(links@)
            } else {
                old(self).links_of(t)
            },
            forall|t: Seq<char>| #[trigger] final(self).is_broken(t) == old(self).is_broken(t),
    {
        let ghost prev = self.pages@;
        let entry = (String::from_str(name), links);
        self.pages.push(entry);
        assert forall|t: Seq<char>| #[trigger] self.links_of(t) == if t == name@ {
            old(self).links_of(t) + topic_set(entry.1@)
        } else {
            old(self).links_of(t)
        } by {
            let n = prev.len() as int;
            assert forall|w: Seq<char>| self.links_of(t).contains(w) implies (if t == name@ {
                old(self).links_of(t) + topic_set(entry.1@)
            } else {
                old(self).links_of(t)
            }).contains(w) by {
                let i = choose|i: int| 0 <= i < self.pages@.len() && #[trigger] self.pages@[i].0@ == t
                    && topic_set(self.pages@[i].1@).contains(w);
                if i < n {
                    assert(prev[i] == self.pages@[i]);
                }
            }
            assert forall|w: Seq<char>| (if t == name@ {
                old(self).links_of(t) + topic_set(entry.1@)
            } else {
                old(self).links_of(t)
            }).contains(w) implies self.links_of(t).contains(w) by {
                if old(self).links_of(t).contains(w) {
                    let i = choose|i: int| 0 <= i < prev.len() && #[trigger] prev[i].0@ == t
                        && topic_set(prev[i].1@).contains(w);
                    assert(self.pages@[i] == prev[i]);
                    assert(self.pages@[i].0@ == t && topic_set(self.pages@[i].1@).contains(w));
                } else {
                    assert(self.pages@[n] == entry);
                    assert(self.pages@[n].0@ == t && topic_set(self.pages@[n].1@).contains(w));
                }
            }
            assert(self.links_of(t) =~= (if t == name@ {
                old(self).links_of(t) + topic_set(entry.1@)
            } else {
                old(self).links_of(t)
            }));
        }
    }

    /// The links of `t`, each listed once, or a fetch error for a topic marked
    /// as failing.
    pub fn links(&self, t: &String) -> (r: Result<Vec<String>, LinkError>)
        ensures
            match r {
                Ok(v) => {
                    &&& !self.is_broken(t@)
                    &&& topic_set(v@) == self.links_of(t@)
                    &&& topics(v@).no_duplicates()
                },
                Err(e) => self.is_broken(t@) && e is Fetch && e.topic() == t@,
            },
    {
        if contains_topic(&self.broken, t) {
            return Err(LinkError::Fetch(t.clone(), String::from_str("page unavailable")));
        }
        let mut out: Vec<String> = Vec::new();
        let mut i: usize = 0;
        while i < self.pages.len()
            invariant
                i <= self.pages@.len(),
                topics(out@).no_duplicates(),
                forall|w: Seq<char>| topic_set(out@).contains(w) <==> exists|k: int| 0 <= k < i && #[trigger] self.pages@[k].0@ == t@
                    && topic_set(self.pages@[k].1@).contains(w),
            decreases self.pages@.len() - i,
        {
            if self.pages[i].0 == *t {
                let listed = &self.pages[i].1;
                let mut j: usize = 0;
                while j < listed.len()
                    invariant
                        i < self.pages@.len(),
                        self.pages@[i as int].0@ == t@,
                        *listed == self.pages@[i as int].1,
                        j <= listed@.len(),
                        topics(out@).no_duplicates(),
                        forall|w: Seq<char>| topic_set(out@).contains(w) <==> (exists|k: int| 0 <= k < i && #[trigger] self.pages@[k].0@ == t@
                            && topic_set(self.pages@[k].1@).contains(w)) || topics(listed@).subrange(0, j as int).contains(w),
                    decreases listed@.len() - j,
                {
                    let ghost before_out = out@;
                    if !contains_topic(&out, &listed[j]) {
                        let ghost prev = out@;
                        out.push(listed[j].clone());
                        proof {
                            assert(topics(out@) =~= topics(prev).push(listed@[j as int]@));
                            topics(prev).lemma_push_to_set_commute(listed@[j as int]@);
                            assert forall|a: int, b: int| 0 <= a < b < topics(out@).len() implies topics(out@)[a] != topics(out@)[b] by {
                                if b == prev.len() {
                                    assert(topics(prev)[a] == topics(out@)[a]);
                                    assert(topics(prev).contains(topics(prev)[a]));
                                } else {
                                    assert(topics(prev)[a] == topics(out@)[a]);
                                    assert(topics(prev)[b] == topics(out@)[b]);
                                }
                            }
                        }
                    }
                    proof {
                        let w = listed@[j as int]@;
                        assert(topics(listed@).subrange(0, j + 1) =~= topics(listed@).subrange(0, j as int).push(w));
                        assert(topic_set(out@) == topic_set(before_out).insert(w)) by {
                            if topics(before_out).contains(w) {
                                assert(out@ == before_out);
                                assert(topic_set(before_out).contains(w));
                                assert(topic_set(before_out).insert(w) =~= topic_set(before_out));
                            }
                        }
                        assert forall|x: Seq<char>| topics(listed@).subrange(0, j + 1).contains(x) <==> (topics(listed@).subrange(0, j as int).contains(x) || x == w) by {
                            if topics(listed@).subrange(0, j + 1).contains(x) && x != w {
                                let m = choose|m: int| 0 <= m < j + 1 && #[trigger] topics(listed@).subrange(0, j + 1)[m] == x;
                                assert(topics(listed@).subrange(0, j as int)[m] == x);
                            }
                            if topics(listed@).subrange(0, j as int).contains(x) {
                                let m = choose|m: int| 0 <= m < j && #[trigger] topics(listed@).subrange(0, j as int)[m] == x;
                                assert(topics(listed@).subrange(0, j + 1)[m] == x);
                            }
                            if x == w {
                                assert(topics(listed@).subrange(0, j + 1)[j as int] == x);
                            }
                        }
                        assert forall|x: Seq<char>| topic_set(out@).contains(x) <==> (exists|k: int| 0 <= k < i && #[trigger] self.pages@[k].0@ == t@
                            && topic_set(self.pages@[k].1@).contains(x)) || topics(listed@).subrange(0, j + 1).contains(x) by {
                            assert(topic_set(out@).contains(x) == (topic_set(before_out).contains(x) || x == w));
                            assert(topics(listed@).subrange(0, j + 1).contains(x) == (topics(listed@).subrange(0, j as int).contains(x) || x == w));
                        }
                    }
                    j = j + 1;
                }
                proof {
                    assert(topics(listed@).subrange(0, listed@.len() as int) =~= topics(listed@));
                    assert forall|w: Seq<char>| topic_set(out@).contains(w) <==> exists|k: int| 0 <= k < i + 1 && #[trigger] self.pages@[k].0@ == t@
                        && topic_set(self.pages@[k].1@).contains(w) by {
                        if topics(listed@).contains(w) {
                            assert(self.pages@[i as int].0@ == t@ && topic_set(self.pages@[i as int].1@).contains(w));
                        }
                    }
                }
            }
            i = i + 1;
        }
        proof {
            assert(topic_set(out@) =~= self.links_of(t@));
        }
        Ok(out)
    }

    /// Marks topic `name` as failing to load.
    pub fn add_broken(&mut self, name: &str)
        ensures
            forall|t: Seq<char>| #[trigger] final(self).links_of(t) == old(self).links_of(t),
            forall|t: Seq<char>| #[trigger] final(self).is_broken(t) == (old(self).is_broken(t) || t == name@),
    {
        let ghost prev = self.broken@;
        self.broken.push(String::from_str(name));
        assert(topics(self.broken@) =~= topics(prev).push(name@));
        assert forall|t: Seq<char>| #[trigger] self.is_broken(t) == (old(self).is_broken(t) || t == name@) by {
            if topics(prev).contains(t) {
                let k = choose|k: int| 0 <= k < topics(prev).len() && topics(prev)[k] == t;
                assert(topics(self.broken@)[k] == t);
            }
            if t == name@ {
                assert(topics(self.broken@)[prev.len() as int] == t);
            }
            if topics(self.broken@).contains(t) && t != name@ {
                let k = choose|k: int| 0 <= k < topics(self.broken@).len() && topics(self.broken@)[k] == t;
                assert(topics(prev)[k] == t);
            }
        }
        assert forall|t: Seq<char>| #[trigger] self.links_of(t) == old(self).links_of(t) by {
            assert(self.links_of(t) =~= old(self).links_of(t));
        }
    }
}

} // verus!
