use crate::error::LadderError;
use crate::graph::LinkGraph;
use crate::search::{exhausted, follows_links, LadderSearch};
use crate::topics::topics;
use vstd::prelude::*;

verus! {

/// `l` is a ladder from `start` to `end` in `g`: at least two topics, each
/// linking to the next.
pub open spec fn is_ladder(g: &LinkGraph, l: Seq<Seq<char>>, start: Seq<char>, end: Seq<char>) -> bool {
    &&& l.len() >= 2
    &&& l[0] == start
    &&& l.last() == end
    &&& forall|k: int| 0 <= k < l.len() - 1 ==> #[trigger] g.links_of(l[k]).contains(l[k + 1])
}

/// Some ladder leads from `start` to `end` in `g`.
pub open spec fn reachable(g: &LinkGraph, start: Seq<char>, end: Seq<char>) -> bool {
    exists|l: Seq<Seq<char>>| #[trigger] is_ladder(g, l, start, end)
}

/// No topic of `g` fails to load.
pub open spec fn never_fails(g: &LinkGraph) -> bool {
    forall|t: Seq<char>| !#[trigger] g.is_broken(t)
}

/// Links recorded by a search agree with the graph.
pub open spec fn agrees(g: &LinkGraph, known: Map<Seq<char>, Set<Seq<char>>>) -> bool {
    forall|v: Seq<char>| #[trigger] known.contains_key(v) ==> known[v] == g.links_of(v)
}

/// Once a search has run out of ladders, with links that agree with `g`, no
/// ladder leads from its start to its end.
proof fn lemma_exhausted_unreachable(
    g: &LinkGraph,
    known: Map<Seq<char>, Set<Seq<char>>>,
    start: Seq<char>,
    end: Seq<char>,
)
    requires
        agrees(g, known),
        exhausted(known, start, end),
    ensures
        !reachable(g, start, end),
{
    if reachable(g, start, end) {
        let l = choose|l: Seq<Seq<char>>| #[trigger] is_ladder(g, l, start, end);
        let k = l.len() - 2;
        lemma_expanded_prefix(g, known, l, start, end, k);
        assert(g.links_of(l[k]).contains(l[k + 1]));
        assert(known[l[k]].contains(end));
    }
}

proof fn lemma_expanded_prefix(
    g: &LinkGraph,
    known: Map<Seq<char>, Set<Seq<char>>>,
    l: Seq<Seq<char>>,
    start: Seq<char>,
    end: Seq<char>,
    k: int,
)
    requires
        agrees(g, known),
        exhausted(known, start, end),
        is_ladder(g, l, start, end),
        0 <= k <= l.len() - 2,
    ensures
        known.contains_key(l[k]),
    decreases k,
{
    if k > 0 {
        lemma_expanded_prefix(g, known, l, start, end, k - 1);
        assert(0 <= k - 1 < l.len() - 1);
        assert(g.links_of(l[k - 1]).contains(l[(k - 1) + 1]));
        assert(known[l[k - 1]].contains(l[k]));
    }
}

/// Searches `g` for a ladder from `start` to `end`. The links of `end` are
/// loaded first; then ladders are grown from `[start]`, best score first, each
/// topic expanded at most once, until some expanded topic links to `end`.
/// Success comes only through such a link, so a ladder holds at least two
/// topics, also where `start` equals `end`.
pub fn find_ladder_in(g: &LinkGraph, start: &str, end: &str) -> (r: Result<Vec<String>, LadderError>)
    ensures
        g.is_broken(end@) ==> (r matches Err(LadderError::Links(e)) && e is Fetch && e.topic() == end@),
        !g.is_broken(end@) && g.is_broken(start@) ==> (r matches Err(LadderError::Links(e)) && e is Fetch
            && e.topic() == start@),
        match r {
            Ok(l) => {
                &&& is_ladder(g, topics(l@), start@, end@)
                &&& start@ != end@ ==> topics(l@).no_duplicates()
                &&& forall|k: int| 0 <= k < topics(l@).len() - 1 ==> !g.is_broken(#[trigger] topics(l@)[k])
            },
            Err(LadderError::NotFound) => !reachable(g, start@, end@),
            Err(LadderError::Links(e)) => g.is_broken(e.topic()),
        },
        never_fails(g) ==> (r is Ok <==> reachable(g, start@, end@)),
{
    let end_name = String::from_str(end);
    let end_links = match g.links(&end_name) {
        Ok(v) => v,
        Err(e) => {
            return Err(LadderError::Links(e));
        },
    };
    let mut search = LadderSearch::new(start, end, end_links);
    let ghost universe = seq![start@] + g.targets();
    loop
        invariant
            search.wf(),
            search.pending_ladder() is None,
            search.start_topic() == start@,
            search.end_topic() == end@,
            agrees(g, search.known()),
            universe == seq![start@] + g.targets(),
            search.expanded().to_set() == search.known().dom(),
            search.expanded().no_duplicates(),
            forall|v: Seq<char>| #[trigger] search.known().contains_key(v) ==> universe.contains(v),
            !g.is_broken(end@),
            g.is_broken(start@) ==> !search.known().contains_key(start@),
            forall|v: Seq<char>| #[trigger] search.known().contains_key(v) ==> !g.is_broken(v),
        decreases universe.len() - search.expanded().len(),
    {
        proof {
            search.expanded().unique_seq_to_set();
            universe.lemma_cardinality_of_set();
            vstd::set_lib::lemma_len_subset(search.expanded().to_set(), universe.to_set());
        }
        let ghost before = search;
        match search.next_topic() {
            None => {
                proof {
                    lemma_exhausted_unreachable(g, search.known(), start@, end@);
                }
                return Err(LadderError::NotFound);
            },
            Some(t) => {
                proof {
                    let l = search.pending_ladder()->0;
                    if l.len() == 1 {
                        assert(t@ == start@);
                        assert(universe[0] == start@);
                    } else {
                        let v = l[l.len() - 2];
                        assert(follows_links(l, search.known()));
                        assert(l[(l.len() - 2) + 1] == t@);
                        assert(search.known().contains_key(v) && search.known()[v].contains(t@));
                        g.lemma_targets(v, t@);
                        let m = choose|m: int| 0 <= m < g.targets().len() && g.targets()[m] == t@;
                        assert(universe[m + 1] == t@);
                    }
                }
                let links = match g.links(&t) {
                    Ok(v) => v,
                    Err(e) => {
                        proof {
                            if g.is_broken(start@) {
                                assert(t@ == start@) by {
                                    let l = search.pending_ladder()->0;
                                    if l.len() > 1 {
                                        assert(search.known().contains_key(l[0]));
                                    }
                                }
                            }
                        }
                        return Err(LadderError::Links(e));
                    },
                };
                let ghost l = search.pending_ladder()->0;
                let ghost mid = search;
                match search.take_links(links) {
                    Some(found) => {
                        proof {
                            let f = topics(found@);
                            assert forall|k: int| 0 <= k < f.len() - 1 implies #[trigger] g.links_of(f[k]).contains(f[k + 1]) by {
                                if k < l.len() - 1 {
                                    assert(f[k] == l[k] && f[k + 1] == l[k + 1]);
                                    assert(search.known().contains_key(l[k]));
                                } else {
                                    assert(f[k] == t@);
                                }
                            }
                            assert(is_ladder(g, f, start@, end@));
                            assert forall|k: int| 0 <= k < f.len() - 1 implies !g.is_broken(#[trigger] f[k]) by {
                                assert(f[k] == l[k]);
                                if k < l.len() - 1 {
                                    assert(mid.known().contains_key(l[k]));
                                }
                            }
                        }
                        return Ok(found);
                    },
                    None => {
                        proof {
                            mid.expanded().lemma_push_to_set_commute(t@);
                            assert(search.expanded().to_set() =~= search.known().dom());
                            search.expanded().unique_seq_to_set();
                            universe.lemma_cardinality_of_set();
                            vstd::set_lib::lemma_len_subset(search.expanded().to_set(), universe.to_set());
                        }
                    },
                }
            },
        }
    }
}

} // verus!
