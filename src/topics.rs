use vstd::prelude::*;

verus! {

/// The topics named by a list of strings.
pub open spec fn topics(v: Seq<String>) -> Seq<Seq<char>> {
    v.map_values(|s: String| s@)
}

/// The set of topics named by a list of strings.
pub open spec fn topic_set(v: Seq<String>) -> Set<Seq<char>> {
    topics(v).to_set()
}

/// How many entries of `links` are members of `target`; for a list without
/// repeats this is the size of the intersection of the two link sets.
pub open spec fn common_count(links: Seq<Seq<char>>, target: Set<Seq<char>>) -> nat {
    links.filter(|t: Seq<char>| target.contains(t)).len()
}

/// For links listed without repeats, `common_count` is the size of the
/// intersection of the two link sets.
pub proof fn lemma_common_count_is_intersection(links: Seq<Seq<char>>, target: Set<Seq<char>>)
    requires
        links.no_duplicates(),
    ensures
        common_count(links, target) == links.to_set().intersect(target).len(),
    decreases links.len(),
{
    let pred = |t: Seq<char>| target.contains(t);
    if links.len() == 0 {
        assert(links.filter(pred) =~= Seq::<Seq<char>>::empty()) by {
            links.lemma_filter_len(pred);
        }
        assert(links.to_set().intersect(target) =~= Set::<Seq<char>>::empty());
    } else {
        let init = links.drop_last();
        let x = links.last();
        assert(init.no_duplicates());
        lemma_common_count_is_intersection(init, target);
        assert(links =~= init.push(x));
        init.lemma_filter_len_push(pred, x);
        init.lemma_push_to_set_commute(x);
        assert(!init.to_set().contains(x)) by {
            if init.contains(x) {
                let k = choose|k: int| 0 <= k < init.len() && init[k] == x;
                assert(links[k] == links[links.len() - 1]);
            }
        }
        if target.contains(x) {
            assert(links.to_set().intersect(target) =~= init.to_set().intersect(target).insert(x));
        } else {
            assert(links.to_set().intersect(target) =~= init.to_set().intersect(target));
        }
    }
}

/// Whether `t` occurs in `v`.
pub fn contains_topic(v: &Vec<String>, t: &String) -> (r: bool)
    ensures
        r == topics(v@).contains(t@),
{
    let mut i: usize = 0;
    while i < v.len()
        invariant
            i <= v.len(),
            forall|k: int| 0 <= k < i ==> v@[k]@ != t@,
        decreases v.len() - i,
    {
        if v[i] == *t {
            assert(topics(v@)[i as int] == t@);
            return true;
        }
        i = i + 1;
    }
    proof {
        if topics(v@).contains(t@) {
            let k = choose|k: int| 0 <= k < topics(v@).len() && topics(v@)[k] == t@;
            assert(v@[k]@ == t@);
        }
    }
    false
}

/// A copy of a list of topics.
pub fn copy_topics(v: &Vec<String>) -> (r: Vec<String>)
    ensures
        topics(r@) == topics(v@),
{
    let mut r: Vec<String> = Vec::new();
    let mut i: usize = 0;
    while i < v.len()
        invariant
            i <= v.len(),
            topics(r@) == topics(v@).subrange(0, i as int),
        decreases v.len() - i,
    {
        let ghost prev = r@;
        let c = v[i].clone();
        r.push(c);
        assert(r@ == prev.push(c));
        assert(c@ == v@[i as int]@);
        assert(topics(prev).len() == i);
        assert(prev.len() == i);
        assert(r@.len() == i + 1);
        assert(topics(r@).len() == i + 1);
        assert forall|k: int| 0 <= k < i implies #[trigger] topics(r@)[k] == topics(v@)[k] by {
            assert(topics(prev)[k] == topics(v@).subrange(0, i as int)[k]);
        }
        assert(topics(r@) =~= topics(v@).subrange(0, i + 1));
        i = i + 1;
    }
    assert(topics(v@).subrange(0, v.len() as int) =~= topics(v@));
    r
}

/// The number of entries of `links` that occur in `target`.
pub fn count_common(links: &Vec<String>, target: &Vec<String>) -> (r: usize)
    ensures
        r == common_count(topics(links@), topic_set(target@)),
{
    let ghost pred = |t: Seq<char>| topic_set(target@).contains(t);
    let mut n: usize = 0;
    let mut i: usize = 0;
    while i < links.len()
        invariant
            i <= links.len(),
            pred == (|t: Seq<char>| topic_set(target@).contains(t)),
            n == topics(links@).subrange(0, i as int).filter(pred).len(),
            n <= i,
        decreases links.len() - i,
    {
        let hit = contains_topic(target, &links[i]);
        proof {
            let s = topics(links@).subrange(0, i as int);
            s.lemma_filter_len_push(pred, links@[i as int]@);
            assert(topics(links@).subrange(0, i + 1) =~= s.push(links@[i as int]@));
            assert(topic_set(target@).contains(links@[i as int]@) == hit);
        }
        if hit {
            n = n + 1;
        }
        i = i + 1;
    }
    assert(topics(links@).subrange(0, links.len() as int) =~= topics(links@));
    n
}

/// Adds `t` to the list of distinct topics `out`, unless it is already there.
pub fn insert_topic(out: &mut Vec<String>, t: String)
    requires
        topics(old(out)@).no_duplicates(),
    ensures
        topics(final(out)@).no_duplicates(),
        topic_set(final(out)@) == topic_set(old(out)@).insert(t@),
{
    if contains_topic(out, &t) {
        assert(topic_set(out@).insert(t@) =~= topic_set(out@));
        return;
    }
    let ghost prev = out@;
    let ghost tv = t@;
    out.push(t);
    proof {
        assert(topics(out@) =~= topics(prev).push(tv));
        topics(prev).lemma_push_to_set_commute(tv);
        assert forall|a: int, b: int| 0 <= a < b < topics(out@).len() implies topics(out@)[a] != topics(out@)[b] by {
            assert(topics(prev)[a] == topics(out@)[a]);
            if b == prev.len() {
                assert(topics(prev).contains(topics(prev)[a]));
            } else {
                assert(topics(prev)[b] == topics(out@)[b]);
            }
        }
    }
}

} // verus!
