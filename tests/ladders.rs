use wiki_racer::error::{LadderError, LinkError};
use wiki_racer::frontier::Frontier;
use wiki_racer::graph::LinkGraph;
use wiki_racer::ladder::find_ladder_in;
use wiki_racer::search::LadderSearch;
use wiki_racer::topics::count_common;

fn names(v: &[&str]) -> Vec<String> {
    v.iter().map(|s| s.to_string()).collect()
}

fn diamond() -> LinkGraph {
    let mut g = LinkGraph::new();
    g.add_page("A", names(&["B", "C"]));
    g.add_page("B", names(&["D"]));
    g.add_page("C", names(&["D"]));
    g.add_page("D", names(&[]));
    g
}

fn assert_ladder(g: &LinkGraph, l: &[String], start: &str, end: &str) {
    assert!(l.len() >= 2);
    assert_eq!(l[0], start);
    assert_eq!(l[l.len() - 1], end);
    for w in l.windows(2) {
        let links = g.links(&w[0]).ok().unwrap();
        assert!(links.contains(&w[1]));
    }
}

#[test]
fn diamond_ladder_goes_through_b_or_c() {
    let g = diamond();
    let l = find_ladder_in(&g, "A", "D").ok().unwrap();
    assert_eq!(l.len(), 3);
    assert!(l[1] == "B" || l[1] == "C");
    assert_eq!(l[2], "D");
    assert_ladder(&g, &l, "A", "D");
}

#[test]
fn two_cycle_without_target_is_not_found() {
    let mut g = LinkGraph::new();
    g.add_page("A", names(&["B"]));
    g.add_page("B", names(&["A"]));
    assert!(matches!(find_ladder_in(&g, "A", "C"), Err(LadderError::NotFound)));
}

#[test]
fn every_reachable_pair_gives_a_ladder() {
    let mut g = LinkGraph::new();
    g.add_page("A", names(&["B", "E"]));
    g.add_page("B", names(&["C", "A"]));
    g.add_page("C", names(&["D"]));
    g.add_page("E", names(&["C"]));
    g.add_page("D", names(&["B"]));
    for start in ["A", "B", "C", "D", "E"] {
        for end in ["A", "B", "C", "D", "E"] {
            match find_ladder_in(&g, start, end) {
                Ok(l) => assert_ladder(&g, &l, start, end),
                Err(_) => panic!("{} reaches {} in this graph", start, end),
            }
        }
    }
}

#[test]
fn unreachable_end_is_not_found() {
    let g = diamond();
    assert!(matches!(find_ladder_in(&g, "D", "A"), Err(LadderError::NotFound)));
    assert!(matches!(find_ladder_in(&g, "B", "C"), Err(LadderError::NotFound)));
}

#[test]
fn start_equal_to_end_needs_a_link_back() {
    let g = diamond();
    assert!(matches!(find_ladder_in(&g, "A", "A"), Err(LadderError::NotFound)));
    let mut g = LinkGraph::new();
    g.add_page("A", names(&["B"]));
    g.add_page("B", names(&["A"]));
    assert_eq!(find_ladder_in(&g, "A", "A").ok().unwrap(), names(&["A", "B", "A"]));
}

#[test]
fn failing_end_page_is_reported() {
    let mut g = diamond();
    g.add_broken("D");
    g.add_broken("A");
    match find_ladder_in(&g, "A", "D") {
        Err(LadderError::Links(LinkError::Fetch(page, _))) => assert_eq!(page, "D"),
        _ => panic!("expected the end page to fail"),
    }
}

#[test]
fn failing_start_page_is_reported() {
    let mut g = diamond();
    g.add_broken("A");
    match find_ladder_in(&g, "A", "D") {
        Err(LadderError::Links(LinkError::Fetch(page, _))) => assert_eq!(page, "A"),
        _ => panic!("expected the start page to fail"),
    }
}

#[test]
fn failing_intermediate_page_aborts() {
    let mut g = LinkGraph::new();
    g.add_page("A", names(&["B"]));
    g.add_page("B", names(&["C"]));
    g.add_page("C", names(&["D"]));
    g.add_broken("B");
    match find_ladder_in(&g, "A", "D") {
        Err(LadderError::Links(LinkError::Fetch(page, _))) => assert_eq!(page, "B"),
        _ => panic!("expected the search to stop at B"),
    }
}

#[test]
fn graph_links_merge_pages_of_one_name() {
    let mut g = LinkGraph::new();
    g.add_page("A", names(&["B", "C"]));
    g.add_page("A", names(&["C", "D"]));
    let mut l = g.links(&"A".to_string()).ok().unwrap();
    l.sort();
    assert_eq!(l, names(&["B", "C", "D"]));
    assert!(g.links(&"Z".to_string()).ok().unwrap().is_empty());
}

#[test]
fn node_with_two_parents_is_expanded_once() {
    let mut g = diamond();
    g.add_page("D", names(&["E"]));
    let mut search = LadderSearch::new("A", "E", names(&[]));
    let mut expanded: Vec<String> = Vec::new();
    let result = loop {
        match search.next_topic() {
            None => break None,
            Some(t) => {
                assert!(!expanded.contains(&t));
                expanded.push(t.clone());
                let links = g.links(&t).ok().unwrap();
                if let Some(l) = search.take_links(links) {
                    break Some(l);
                }
            }
        }
    };
    let l = result.unwrap();
    assert_eq!(l.len(), 4);
    assert_eq!(l[3], "E");
    assert_eq!(expanded.iter().filter(|t| t.as_str() == "D").count(), 1);
}

#[test]
fn revisited_tail_is_skipped() {
    let mut g = LinkGraph::new();
    g.add_page("A", names(&["B", "C"]));
    g.add_page("B", names(&["C"]));
    g.add_page("C", names(&["B"]));
    let mut search = LadderSearch::new("A", "Z", names(&[]));
    let mut expanded: Vec<String> = Vec::new();
    while let Some(t) = search.next_topic() {
        expanded.push(t.clone());
        assert!(search.take_links(g.links(&t).ok().unwrap()).is_none());
    }
    expanded.sort();
    assert_eq!(expanded, names(&["A", "B", "C"]));
}

#[test]
fn children_are_scored_by_the_parent_affinity() {
    let mut g = LinkGraph::new();
    g.add_page("S", names(&["X", "Y"]));
    g.add_page("X", names(&["P"]));
    g.add_page("Y", names(&["Q", "R"]));
    g.add_page("Q", names(&["T"]));
    g.add_page("R", names(&["T"]));
    g.add_page("P", names(&[]));
    let mut search = LadderSearch::new("S", "T", names(&["Q", "R"]));
    let mut order: Vec<String> = Vec::new();
    let found = loop {
        let t = search.next_topic().unwrap();
        order.push(t.clone());
        if let Some(l) = search.take_links(g.links(&t).ok().unwrap()) {
            break l;
        }
    };
    assert_eq!(order[0], "S");
    let y_pos = order.iter().position(|t| t == "Y").unwrap();
    let q_or_r = order.iter().position(|t| t == "Q" || t == "R").unwrap();
    assert_eq!(q_or_r, y_pos + 1);
    assert_eq!(found[0], "S");
    assert_eq!(found[1], "Y");
    assert_eq!(found[3], "T");
}

#[test]
fn common_links_are_counted() {
    assert_eq!(count_common(&names(&["A", "B", "C"]), &names(&["C", "A", "Z"])), 2);
    assert_eq!(count_common(&names(&[]), &names(&["A"])), 0);
    assert_eq!(count_common(&names(&["A"]), &names(&[])), 0);
}

#[test]
fn frontier_pops_greatest_score_first() {
    let mut f = Frontier::new();
    assert_eq!(f.pop(), None);
    f.push(1, 3);
    f.push(2, 7);
    f.push(3, 5);
    assert_eq!(f.pop(), Some((2, 7)));
    assert_eq!(f.pop(), Some((3, 5)));
    assert_eq!(f.pop(), Some((1, 3)));
    assert_eq!(f.pop(), None);
}

#[test]
fn found_ladders_repeat_no_topic() {
    let mut g = LinkGraph::new();
    g.add_page("A", names(&["B", "A"]));
    g.add_page("B", names(&["A", "C", "B"]));
    g.add_page("C", names(&["A", "B", "D"]));
    let l = find_ladder_in(&g, "A", "D").ok().unwrap();
    assert_eq!(l, names(&["A", "B", "C", "D"]));
}

#[test]
fn broken_page_is_never_routed_around() {
    let mut g = diamond();
    g.add_broken("B");
    match find_ladder_in(&g, "A", "D") {
        Ok(l) => assert_eq!(l, names(&["A", "C", "D"])),
        Err(LadderError::Links(LinkError::Fetch(page, _))) => assert_eq!(page, "B"),
        Err(_) => panic!("D is reachable"),
    }
}

#[test]
fn best_scored_ladder_is_expanded_first() {
    let mut g = LinkGraph::new();
    g.add_page("E", names(&["X"]));
    g.add_page("S", names(&["B", "C"]));
    g.add_page("B", names(&["X", "P"]));
    g.add_page("C", names(&["E"]));
    g.add_page("P", names(&["E"]));
    let l = find_ladder_in(&g, "S", "E").ok().unwrap();
    if l[1] == "B" {
        assert_eq!(l, names(&["S", "B", "P", "E"]));
    } else {
        assert_eq!(l, names(&["S", "C", "E"]));
    }
}
