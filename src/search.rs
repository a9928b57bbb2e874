use crate::frontier::Frontier;
use crate::topics::{
    common_count, contains_topic, copy_topics, count_common, lemma_common_count_is_intersection, topic_set, topics,
};
use vstd::prelude::*;

verus! {

/// Every step of `ladder` follows a link set recorded in `links`.
pub open spec fn follows_links(ladder: Seq<Seq<char>>, links: Map<Seq<char>, Set<Seq<char>>>) -> bool {
    forall|j: int|
        0 <= j < ladder.len() - 1 ==> links.contains_key(#[trigger] ladder[j]) && links[ladder[j]].contains(
            ladder[j + 1],
        )
}

/// The expanded topics, with their links, leave nothing to explore: `start` was
/// expanded, every link of an expanded topic was expanded, and no expanded topic
/// links to `end`.
pub open spec fn exhausted(links: Map<Seq<char>, Set<Seq<char>>>, start: Seq<char>, end: Seq<char>) -> bool {
    &&& links.contains_key(start)
    &&& forall|v: Seq<char>, w: Seq<char>|
        links.contains_key(v) && #[trigger] links[v].contains(w) ==> links.contains_key(w)
    &&& forall|v: Seq<char>| #[trigger] links.contains_key(v) ==> !links[v].contains(end)
}

spec fn ladder_at(ladders: Seq<Vec<String>>, i: int) -> Seq<Seq<char>> {
    topics(ladders[i]@)
}

/// Every stored ladder starts at `start` and follows the recorded links.
spec fn ladders_wf(ladders: Seq<Vec<String>>, start: Seq<char>, known: Map<Seq<char>, Set<Seq<char>>>) -> bool {
    forall|i: int|
        0 <= i < ladders.len() ==> {
            &&& #[trigger] ladder_at(ladders, i).len() >= 1
            &&& ladder_at(ladders, i)[0] == start
            &&& ladder_at(ladders, i).no_duplicates()
            &&& follows_links(ladder_at(ladders, i), known)
        }
}

/// `w` is the last topic of a queued or pending ladder.
spec fn queued(entries: Map<usize, usize>, ladders: Seq<Vec<String>>, pending: Option<usize>, w: Seq<char>) -> bool {
    ||| exists|k: usize| #[trigger] entries.contains_key(k) && ladder_at(ladders, k as int).last() == w
    ||| (pending is Some && ladder_at(ladders, pending->0 as int).last() == w)
}

/// Ladder `i` of `mid` was extended by each link of `links` not expanded in
/// `mid`: `after` queues exactly those children, scored `score`, and keeps
/// everything `mid` held.
#[verifier::opaque]
spec fn children_queued(mid: LadderSearch, after: LadderSearch, i: usize, links: Seq<String>, score: usize) -> bool {
    &&& after.ladders@.len() >= mid.ladders@.len()
    &&& forall|k: int| 0 <= k < mid.ladders@.len() ==> #[trigger] after.ladders@[k] == mid.ladders@[k]
    &&& ladders_wf(after.ladders@, after.start@, after.known@)
    &&& after.frontier.entries().dom().finite()
    &&& forall|k: usize| #[trigger] after.frontier.entries().contains_key(k) ==> k < after.ladders@.len()
    &&& forall|k: usize| #[trigger] mid.frontier.entries().contains_key(k) ==> after.frontier.entries().contains_key(k)
        && after.frontier.entries()[k] == mid.frontier.entries()[k]
    &&& forall|k: usize| #[trigger] after.frontier.entries().contains_key(k) && !mid.frontier.entries().contains_key(k)
        ==> after.frontier.entries()[k] == score && exists|m: int| 0 <= m < links.len()
        && !after.known@.contains_key(#[trigger] topics(links)[m])
        && ladder_at(after.ladders@, k as int) == mid.ladder(i as int).push(topics(links)[m])
    &&& forall|m: int| 0 <= m < links.len() && !after.known@.contains_key(#[trigger] topics(links)[m]) ==> exists|k: usize|
        #[trigger] after.frontier.entries().contains_key(k) && !mid.frontier.entries().contains_key(k)
        && ladder_at(after.ladders@, k as int) == mid.ladder(i as int).push(topics(links)[m])
}

/// What holds once the children of the pending ladder `i` of `before` are
/// queued: `mid` is `before` with the tail of ladder `i` expanded, and `after`
/// is `mid` with the children queued.
proof fn lemma_expansion_done(
    before: LadderSearch,
    mid: LadderSearch,
    after: LadderSearch,
    i: usize,
    links: Seq<String>,
    score: usize,
)
    requires
        before.wf(),
        before.pending == Some(i),
        i < before.ladders@.len(),
        mid.known@ == before.known@.insert(before.tail(i as int), topic_set(links)),
        topics(mid.visited@).to_set() == mid.known@.dom(),
        topics(mid.visited@).no_duplicates(),
        mid.ladders@ == before.ladders@,
        mid.frontier == before.frontier,
        mid.pending is None,
        mid.start@ == before.start@,
        mid.end@ == before.end@,
        !topic_set(links).contains(before.end@),
        after.known@ == mid.known@,
        after.visited@ == mid.visited@,
        after.start@ == mid.start@,
        after.end@ == mid.end@,
        after.pending == mid.pending,
        children_queued(mid, after, i, links, score),
    ensures
        after.wf(),
        forall|k: usize| #[trigger] after.frontier.entries().contains_key(k)
            && !before.frontier.entries().contains_key(k) ==> exists|w: Seq<char>|
            #[trigger] topic_set(links).contains(w) && !after.known@.contains_key(w)
            && ladder_at(after.ladders@, k as int) == before.ladder(i as int).push(w),
        forall|w: Seq<char>| #[trigger] topic_set(links).contains(w) && !after.known@.contains_key(w) ==> exists|k: usize|
            #[trigger] after.frontier.entries().contains_key(k) && !before.frontier.entries().contains_key(k)
            && ladder_at(after.ladders@, k as int) == before.ladder(i as int).push(w),
        forall|k: usize| #[trigger] after.frontier.entries().contains_key(k) && !before.frontier.entries().contains_key(k)
            ==> after.frontier.entries()[k] == score,
        forall|k: usize| #[trigger] before.frontier.entries().contains_key(k) ==> after.frontier.entries().contains_key(k)
            && after.frontier.entries()[k] == before.frontier.entries()[k]
            && ladder_at(after.ladders@, k as int) == ladder_at(before.ladders@, k as int),
{
    reveal(children_queued);
    let t = before.tail(i as int);
    let link_set = topic_set(links);
    assert forall|w: Seq<char>| #[trigger] before.covered(w) || link_set.contains(w) implies after.covered(w) by {
        if link_set.contains(w) {
            let m = choose|m: int| 0 <= m < topics(links).len() && topics(links)[m] == w;
            if !after.known@.contains_key(w) {
                assert(!after.known@.contains_key(topics(links)[m]));
                let k = choose|k: usize| #[trigger] after.frontier.entries().contains_key(k)
                    && !mid.frontier.entries().contains_key(k)
                    && ladder_at(after.ladders@, k as int) == mid.ladder(i as int).push(topics(links)[m]);
                assert(ladder_at(after.ladders@, k as int).last() == w);
            }
        } else if !after.known@.contains_key(w) {
            if w == t {
            } else {
                let k = choose|k: usize| #[trigger] before.frontier.entries().contains_key(k)
                    && ladder_at(before.ladders@, k as int).last() == w;
                assert(after.frontier.entries().contains_key(k));
                assert(ladder_at(after.ladders@, k as int) == ladder_at(before.ladders@, k as int));
            }
        }
    }
    assert(after.covered(after.start@)) by { assert(before.covered(before.start@)); }
    let p = before.ladder(i as int);
    assert forall|k: usize| #[trigger] after.frontier.entries().contains_key(k)
        && !before.frontier.entries().contains_key(k) implies exists|w: Seq<char>|
        #[trigger] topic_set(links).contains(w) && !after.known@.contains_key(w)
        && ladder_at(after.ladders@, k as int) == p.push(w) by {
        let m = choose|m: int| 0 <= m < links.len() && !after.known@.contains_key(#[trigger] topics(links)[m])
            && ladder_at(after.ladders@, k as int) == p.push(topics(links)[m]);
        assert(topic_set(links).contains(topics(links)[m]));
    }
    assert forall|w: Seq<char>| #[trigger] topic_set(links).contains(w) && !after.known@.contains_key(w) implies exists|k: usize|
        #[trigger] after.frontier.entries().contains_key(k) && !before.frontier.entries().contains_key(k)
        && ladder_at(after.ladders@, k as int) == p.push(w) by {
        let m = choose|m: int| 0 <= m < topics(links).len() && topics(links)[m] == w;
        assert(!after.known@.contains_key(topics(links)[m]));
    }
    assert forall|v: Seq<char>, w: Seq<char>|
        after.known@.contains_key(v) && #[trigger] after.known@[v].contains(w) implies after.covered(w) by {
        if v != t {
            assert(before.known@[v].contains(w));
            assert(before.covered(w));
        }
    }
        }

/// The expansion facts of `lemma_expansion_done`, restated through the
/// search's accessors.
proof fn lemma_expansion_view(before: LadderSearch, after: LadderSearch, i: usize, links: Seq<String>, score: usize)
    requires
        before.pending == Some(i),
        topics(links).no_duplicates() ==> score == topic_set(links).intersect(topic_set(before.end_links@)).len(),
        after.known@ == before.known@.insert(before.tail(i as int), topic_set(links)),
        forall|k: usize| #[trigger] after.frontier.entries().contains_key(k)
            && !before.frontier.entries().contains_key(k) ==> exists|w: Seq<char>|
            #[trigger] topic_set(links).contains(w) && !after.known@.contains_key(w)
            && ladder_at(after.ladders@, k as int) == before.ladder(i as int).push(w),
        forall|w: Seq<char>| #[trigger] topic_set(links).contains(w) && !after.known@.contains_key(w) ==> exists|k: usize|
            #[trigger] after.frontier.entries().contains_key(k) && !before.frontier.entries().contains_key(k)
            && ladder_at(after.ladders@, k as int) == before.ladder(i as int).push(w),
        forall|k: usize| #[trigger] after.frontier.entries().contains_key(k) && !before.frontier.entries().contains_key(k)
            ==> after.frontier.entries()[k] == score,
        forall|k: usize| #[trigger] before.frontier.entries().contains_key(k) ==> after.frontier.entries().contains_key(k)
            && after.frontier.entries()[k] == before.frontier.entries()[k]
            && ladder_at(after.ladders@, k as int) == ladder_at(before.ladders@, k as int),
    ensures
        forall|k: usize| #[trigger] after.scores().contains_key(k)
            && !before.scores().contains_key(k) ==> exists|w: Seq<char>|
            #[trigger] topic_set(links).contains(w) && !after.known().contains_key(w)
                && after.queued_ladder(k) == before.pending_ladder()->0.push(w),
        forall|w: Seq<char>| #[trigger] topic_set(links).contains(w) && !after.known().contains_key(w)
            ==> exists|k: usize| #[trigger] after.scores().contains_key(k)
            && !before.scores().contains_key(k) && after.queued_ladder(k) == before.pending_ladder()->0.push(w),
        forall|k: usize| #[trigger] before.scores().contains_key(k) ==> after.scores().contains_key(k)
            && after.scores()[k] == before.scores()[k]
            && after.queued_ladder(k) == before.queued_ladder(k),
        forall|k: usize| #[trigger] after.scores().contains_key(k) && !before.scores().contains_key(k) ==> after.scores()[k]
            == score,
        topics(links).no_duplicates() ==> forall|k: usize| #[trigger] after.scores().contains_key(k)
            && !before.scores().contains_key(k) ==> after.scores()[k]
            == topic_set(links).intersect(before.end_link_set()).len(),
{
    assert(before.pending_ladder()->0 == before.ladder(i as int));
    assert(before.end_link_set() == topic_set(before.end_links@));
    assert(after.known() == after.known@);
    assert forall|k: usize| #[trigger] after.scores().contains_key(k) && !before.scores().contains_key(k) implies after.scores()[k]
        == score by {
        assert(after.frontier.entries().contains_key(k) && !before.frontier.entries().contains_key(k));
    }
    assert forall|w: Seq<char>| #[trigger] topic_set(links).contains(w) && !after.known().contains_key(w) implies exists|k: usize|
        #[trigger] after.scores().contains_key(k) && !before.scores().contains_key(k)
        && after.queued_ladder(k) == before.pending_ladder()->0.push(w) by {
        let k = choose|k: usize| #[trigger] after.frontier.entries().contains_key(k)
            && !before.frontier.entries().contains_key(k)
            && ladder_at(after.ladders@, k as int) == before.ladder(i as int).push(w);
        assert(after.scores().contains_key(k) && !before.scores().contains_key(k));
    }
    assert forall|k: usize| #[trigger] after.scores().contains_key(k) && !before.scores().contains_key(k) implies exists|w: Seq<char>|
        #[trigger] topic_set(links).contains(w) && !after.known().contains_key(w)
            && after.queued_ladder(k) == before.pending_ladder()->0.push(w) by {
        assert(after.frontier.entries().contains_key(k) && !before.frontier.entries().contains_key(k));
    }
    assert forall|k: usize| #[trigger] before.scores().contains_key(k) implies after.scores().contains_key(k)
        && after.scores()[k] == before.scores()[k] && after.queued_ladder(k) == before.queued_ladder(k) by {
        assert(before.frontier.entries().contains_key(k));
    }
}

/// State of one search for a ladder from a start topic to an end topic.
///
/// The search is driven from outside: `next_topic` names the topic whose links
/// are needed next, and `take_links` hands them over. Candidate ladders are
/// kept in `ladders`; the frontier holds the indices of those not yet taken
/// out, scored by the affinity of the topic they were grown from.
pub struct LadderSearch {
    start: String,
    end: String,
    end_links: Vec<String>,
    ladders: Vec<Vec<String>>,
    frontier: Frontier,
    visited: Vec<String>,
    pending: Option<usize>,
    known: Ghost<Map<Seq<char>, Set<Seq<char>>>>,
}

impl LadderSearch {
    /// The links reported so far, for each expanded topic.
    pub closed spec fn known(&self) -> Map<Seq<char>, Set<Seq<char>>> {
        self.known@
    }

    pub closed spec fn start_topic(&self) -> Seq<char> {
        self.start@
    }

    pub closed spec fn end_topic(&self) -> Seq<char> {
        self.end@
    }

    pub closed spec fn end_link_set(&self) -> Set<Seq<char>> {
        topic_set(self.end_links@)
    }

    /// The expanded topics, in the order of their expansion.
    pub closed spec fn expanded(&self) -> Seq<Seq<char>> {
        topics(self.visited@)
    }

    /// The ladder whose last topic awaits its links, if any.
    pub closed spec fn pending_ladder(&self) -> Option<Seq<Seq<char>>> {
        match self.pending {
            Some(i) => Some(self.ladder(i as int)),
            None => None,
        }
    }

    /// The scores of the queued ladders, by index.
    pub closed spec fn scores(&self) -> Map<usize, usize> {
        self.frontier.entries()
    }

    /// The ladder stored under index `k`.
    pub closed spec fn queued_ladder(&self, k: usize) -> Seq<Seq<char>> {
        ladder_at(self.ladders@, k as int)
    }

    closed spec fn ladder(&self, i: int) -> Seq<Seq<char>> {
        ladder_at(self.ladders@, i)
    }

    closed spec fn tail(&self, i: int) -> Seq<char> {
        ladder_at(self.ladders@, i).last()
    }

    closed spec fn covered(&self, w: Seq<char>) -> bool {
        self.known@.contains_key(w) || queued(self.frontier.entries(), self.ladders@, self.pending, w)
    }

    pub closed spec fn wf(&self) -> bool {
        &&& ladders_wf(self.ladders@, self.start@, self.known@)
        &&& self.frontier.entries().dom().finite()
        &&& forall|k: usize| #[trigger] self.frontier.entries().contains_key(k) ==> k < self.ladders@.len()
        &&& self.pending is Some ==> {
            &&& self.pending->0 < self.ladders@.len()
            &&& !self.known@.contains_key(self.tail(self.pending->0 as int))
        }
        &&& topics(self.visited@).to_set() == self.known@.dom()
        &&& topics(self.visited@).no_duplicates()
        &&& self.covered(self.start@)
        &&& forall|v: Seq<char>, w: Seq<char>|
            self.known@.contains_key(v) && #[trigger] self.known@[v].contains(w) ==> self.covered(w)
        &&& forall|v: Seq<char>| #[trigger] self.known@.contains_key(v) ==> !self.known@[v].contains(self.end@)
    }

    /// No topic is expanded twice in one search: the expanded topics are
    /// pairwise distinct.
    pub proof fn lemma_expanded_once(&self)
        requires
            self.wf(),
        ensures
            self.expanded().no_duplicates(),
    {
    }

    /// A search whose frontier holds the one-topic ladder `[start]`, scored 0.
    /// `end_links` are the links of `end`, fetched before the search begins.
    pub fn new(start: &str, end: &str, end_links: Vec<String>) -> (r: LadderSearch)
        ensures
            r.wf(),
            r.start_topic() == start@,
            r.end_topic() == end@,
            r.end_link_set() == topic_set(end_links@),
            r.known() == Map::<Seq<char>, Set<Seq<char>>>::empty(),
            r.expanded().len() == 0,
            r.pending_ladder() is None,
            r.scores() == map![0usize => 0usize],
            r.queued_ladder(0) == seq![start@],
    {
        let first = String::from_str(start);
        let mut ladder: Vec<String> = Vec::new();
        ladder.push(first);
        let mut ladders: Vec<Vec<String>> = Vec::new();
        ladders.push(ladder);
        let mut frontier = Frontier::new();
        assert(frontier.entries() =~= Map::<usize, usize>::empty());
        frontier.push(0, 0);
        assert(frontier.entries() =~= map![0usize => 0usize]);
        let r = LadderSearch {
            start: String::from_str(start),
            end: String::from_str(end),
            end_links,
            ladders,
            frontier,
            visited: Vec::new(),
            pending: None,
            known: Ghost(Map::empty()),
        };
        assert(r.ladder(0) =~= seq![start@]);
        assert(r.frontier.entries().contains_key(0usize));
        assert(topics(r.visited@).to_set() =~= Set::empty());
        r
    }

    /// Takes ladders out of the frontier, greatest score first, and drops each
    /// whose last topic was already expanded. Returns the last topic of the
    /// first one left, which then awaits its links; `None` when the frontier
    /// runs out, after which nothing is left to explore.
    pub fn next_topic(&mut self) -> (r: Option<String>)
        requires
            old(self).wf(),
            old(self).pending_ladder() is None,
        ensures
            final(self).wf(),
            final(self).known() == old(self).known(),
            final(self).expanded() == old(self).expanded(),
            final(self).start_topic() == old(self).start_topic(),
            final(self).end_topic() == old(self).end_topic(),
            final(self).end_link_set() == old(self).end_link_set(),
            forall|k: usize| #[trigger] final(self).scores().contains_key(k) ==> old(self).scores().contains_key(k)
                && final(self).scores()[k] == old(self).scores()[k],
            forall|k: usize| #[trigger] old(self).scores().contains_key(k) ==> final(self).queued_ladder(k)
                == old(self).queued_ladder(k),
            forall|k: usize| #[trigger] old(self).scores().contains_key(k) && !final(self).scores().contains_key(k)
                ==> old(self).known().contains_key(old(self).queued_ladder(k).last()) || (r is Some
                && final(self).pending_ladder()->0 == old(self).queued_ladder(k)),
            match r {
                None => {
                    &&& final(self).pending_ladder() is None
                    &&& exhausted(final(self).known(), final(self).start_topic(), final(self).end_topic())
                },
                Some(t) => {
                    &&& !old(self).known().contains_key(t@)
                    &&& final(self).pending_ladder() is Some
                    &&& final(self).pending_ladder()->0.len() >= 1
                    &&& final(self).pending_ladder()->0.last() == t@
                    &&& final(self).pending_ladder()->0[0] == final(self).start_topic()
                    &&& follows_links(final(self).pending_ladder()->0, final(self).known())
                    &&& exists|i: usize| #[trigger] old(self).scores().contains_key(i) && !final(self).scores().contains_key(i)
                        && final(self).pending_ladder()->0 == old(self).queued_ladder(i)
                        && forall|k: usize| #[trigger] final(self).scores().contains_key(k) ==> final(self).scores()[k]
                        <= old(self).scores()[i]
                },
            },
    {
        let ghost orig = *self;
        loop
            invariant
                self.wf(),
                self.ladders@ == orig.ladders@,
                orig.frontier == old(self).frontier,
                orig.ladders@ == old(self).ladders@,
                orig.known@ == old(self).known@,
                forall|k: usize| #[trigger] self.frontier.entries().contains_key(k) ==> orig.frontier.entries().contains_key(k)
                    && self.frontier.entries()[k] == orig.frontier.entries()[k],
                forall|k: usize| #[trigger] orig.frontier.entries().contains_key(k) && !self.frontier.entries().contains_key(k)
                    ==> orig.known@.contains_key(ladder_at(orig.ladders@, k as int).last()),
                self.pending is None,
                self.known@ == old(self).known@,
                self.visited@ == old(self).visited@,
                self.start@ == old(self).start@,
                self.end@ == old(self).end@,
                self.end_links@ == old(self).end_links@,
            decreases self.frontier.entries().dom().len(),
        {
            let ghost before = *self;
            match self.frontier.pop() {
                None => {
                    proof {
                        assert forall|w: Seq<char>| self.covered(w) implies self.known@.contains_key(w) by {
                            if !self.known@.contains_key(w) {
                                let k = choose|k: usize| #[trigger] self.frontier.entries().contains_key(k) && self.tail(k as int) == w;
                                assert(self.frontier.entries().dom().contains(k));
                            }
                        }
                    }
                    return None;
                },
                Some((i, score)) => {
                    proof {
                        assert(self.frontier.entries().dom() =~= before.frontier.entries().dom().remove(i));
                        assert forall|k: usize| #[trigger] self.frontier.entries().contains_key(k) implies
                            self.frontier.entries()[k] <= score by {
                            assert(before.frontier.entries().contains_key(k));
                        }
                    }
                    assert(before.wf());
                    assert(before.frontier.entries().contains_key(i));
                    assert(i < self.ladders@.len());
                    assert(self.ladders@ == before.ladders@);
                    assert(self.ladder(i as int).len() >= 1);
                    let last = self.ladders[i].len() - 1;
                    let tail = &self.ladders[i][last];
                    assert(tail@ == self.tail(i as int));
                    if !contains_topic(&self.visited, tail) {
                        let t = tail.clone();
                        self.pending = Some(i);
                        assert(ladder_at(self.ladders@, i as int).len() >= 1);
                        proof {
                            assert(topics(self.visited@).to_set().contains(t@) == topics(self.visited@).contains(t@));
                            assert forall|w: Seq<char>| before.covered(w) implies self.covered(w) by {
                                if !self.known@.contains_key(w) {
                                    let k = choose|k: usize| #[trigger] before.frontier.entries().contains_key(k) && before.tail(k as int) == w;
                                    if k != i {
                                        assert(self.frontier.entries().contains_key(k));
                                    }
                                }
                            }
                        }
                        proof {
                            assert(orig.frontier.entries().contains_key(i) && !self.frontier.entries().contains_key(i));
                            assert(self.scores().contains_key(i) == self.frontier.entries().contains_key(i));
                            assert(orig.scores()[i] == score);
                            assert(self.pending_ladder()->0 == orig.queued_ladder(i));
                            assert(forall|k: usize| #[trigger] self.scores().contains_key(k) ==> self.scores()[k]
                                <= orig.scores()[i]);
                            assert(old(self).scores() == orig.scores());
                            assert(old(self).queued_ladder(i) == orig.queued_ladder(i));
                            assert(old(self).scores().contains_key(i) && !self.scores().contains_key(i)
                                && self.pending_ladder()->0 == old(self).queued_ladder(i)
                                && forall|k: usize| #[trigger] self.scores().contains_key(k) ==> self.scores()[k]
                                <= old(self).scores()[i]);
                            assert forall|k: usize| #[trigger] orig.scores().contains_key(k) && !self.scores().contains_key(k)
                                implies orig.known().contains_key(orig.queued_ladder(k).last()) || self.pending_ladder()->0
                                == orig.queued_ladder(k) by {
                                assert(orig.frontier.entries().contains_key(k));
                                if k != i {
                                    assert(!before.frontier.entries().contains_key(k));
                                }
                            }
                        }
                        return Some(t);
                    }
                    proof {
                        assert(topics(self.visited@).to_set().contains(tail@));
                        assert(orig.frontier.entries().contains_key(i));
                        assert forall|w: Seq<char>| before.covered(w) implies self.covered(w) by {
                            if !self.known@.contains_key(w) {
                                let k = choose|k: usize| #[trigger] before.frontier.entries().contains_key(k) && before.tail(k as int) == w;
                                if k != i {
                                    assert(self.frontier.entries().contains_key(k));
                                }
                            }
                        }
                    }
                },
            }
        }
    }
    /// Queues ladder `i` extended by each link of `links` that was not
    /// expanded, all scored `score`.
    #[verifier::rlimit(30)]
    fn queue_children(&mut self, i: usize, links: &Vec<String>, score: usize)
        requires
            i < old(self).ladders@.len(),
            ladders_wf(old(self).ladders@, old(self).start@, old(self).known@),
            old(self).known@.contains_key(old(self).tail(i as int)),
            old(self).known@[old(self).tail(i as int)] == topic_set(links@),
            topics(old(self).visited@).to_set() == old(self).known@.dom(),
            old(self).frontier.entries().dom().finite(),
            forall|k: usize| #[trigger] old(self).frontier.entries().contains_key(k) ==> k < old(self).ladders@.len(),
        ensures
            final(self).known@ == old(self).known@,
            final(self).visited@ == old(self).visited@,
            final(self).start@ == old(self).start@,
            final(self).end@ == old(self).end@,
            final(self).end_links@ == old(self).end_links@,
            final(self).pending == old(self).pending,
            children_queued(*old(self), *final(self), i, links@, score),
    {
        let ghost before = *self;
        let ghost t = before.tail(i as int);
        let ghost link_set = topic_set(links@);
        let mut j: usize = 0;
        while j < links.len()
            invariant
                j <= links.len(),
                i < self.ladders@.len(),
                t == before.tail(i as int),
                link_set == topic_set(links@),
                self.known@ == before.known@,
                self.known@.contains_key(t),
                self.known@[t] == link_set,
                self.visited@ == before.visited@,
                self.start@ == before.start@,
                self.end@ == before.end@,
                self.end_links@ == before.end_links@,
                self.pending == before.pending,
                topics(self.visited@).to_set() == self.known@.dom(),
                ladder_at(self.ladders@, i as int) == before.ladder(i as int),
                self.ladders@.len() >= before.ladders@.len(),
                forall|k: int| 0 <= k < before.ladders@.len() ==> #[trigger] self.ladders@[k] == before.ladders@[k],
                ladders_wf(self.ladders@, self.start@, self.known@),
                self.frontier.entries().dom().finite(),
                forall|k: usize| #[trigger] self.frontier.entries().contains_key(k) ==> k < self.ladders@.len(),
                forall|k: usize| #[trigger] before.frontier.entries().contains_key(k) ==> self.frontier.entries().contains_key(k)
                    && self.frontier.entries()[k] == before.frontier.entries()[k],
                forall|k: usize| #[trigger] self.frontier.entries().contains_key(k) && !before.frontier.entries().contains_key(k)
                    ==> self.frontier.entries()[k] == score && before.ladders@.len() <= k < self.ladders@.len()
                    && exists|m: int| 0 <= m < j
                    && !self.known@.contains_key(#[trigger] topics(links@)[m])
                    && ladder_at(self.ladders@, k as int) == before.ladder(i as int).push(topics(links@)[m]),
                forall|m: int| 0 <= m < j && !self.known@.contains_key(#[trigger] topics(links@)[m]) ==> exists|k: usize|
                    #[trigger] self.frontier.entries().contains_key(k) && !before.frontier.entries().contains_key(k)
                    && ladder_at(self.ladders@, k as int) == before.ladder(i as int).push(topics(links@)[m]),
            decreases links.len() - j,
        {
            let ghost mid = *self;
            if !contains_topic(&self.visited, &links[j]) {
                let mut child = copy_topics(&self.ladders[i]);
                let ghost base = child@;
                child.push(links[j].clone());
                let id = self.ladders.len();
                self.ladders.push(child);
                self.frontier.push(id, score);
                proof {
                    let w = links@[j as int]@;
                    assert(topics(child@) =~= topics(base).push(w));
                    assert(ladder_at(self.ladders@, id as int) == topics(child@));
                    assert(link_set.contains(w)) by {
                        assert(topics(links@)[j as int] == w);
                    }
                    let l = ladder_at(self.ladders@, id as int);
                    let p = before.ladder(i as int);
                    assert(l.len() >= 1 && l[0] == self.start@) by {
                        assert(ladder_at(mid.ladders@, i as int).len() >= 1);
                        assert(p[0] == before.start@);
                    }
                    assert(l.no_duplicates()) by {
                        assert(ladder_at(mid.ladders@, i as int).len() >= 1);
                        assert(p.no_duplicates());
                        assert(!self.known@.contains_key(w));
                        assert forall|m: int| 0 <= m < p.len() implies p[m] != w by {
                            if m < p.len() - 1 {
                                assert(follows_links(ladder_at(mid.ladders@, i as int), self.known@));
                                assert(self.known@.contains_key(p[m]));
                            } else {
                                assert(p[m] == t);
                            }
                        }
                        assert forall|a: int, b: int| 0 <= a < b < l.len() implies l[a] != l[b] by {
                            assert(l[a] == p[a]);
                            if b < l.len() - 1 {
                                assert(l[b] == p[b]);
                            }
                        }
                    }
                    assert(follows_links(l, self.known@)) by {
                        assert(ladder_at(mid.ladders@, i as int).len() >= 1);
                        assert forall|m: int| 0 <= m < l.len() - 1 implies self.known@.contains_key(#[trigger] l[m])
                            && self.known@[l[m]].contains(l[m + 1]) by {
                            if m < p.len() - 1 {
                                assert(l[m] == p[m] && l[m + 1] == p[m + 1]);
                                assert(follows_links(ladder_at(mid.ladders@, i as int), self.known@));
                            } else {
                                assert(l[m] == t && l[m + 1] == w);
                            }
                        }
                    }
                    assert forall|q: int| 0 <= q < self.ladders@.len() implies #[trigger] ladder_at(self.ladders@, q).len() >= 1
                        && ladder_at(self.ladders@, q)[0] == self.start@ && ladder_at(self.ladders@, q).no_duplicates()
                        && follows_links(ladder_at(self.ladders@, q), self.known@) by {
                        if q < mid.ladders@.len() {
                            assert(ladder_at(self.ladders@, q) == ladder_at(mid.ladders@, q));
                        }
                    }
                    assert(!before.frontier.entries().contains_key(id));
                    assert forall|k: usize| #[trigger] self.frontier.entries().contains_key(k)
                        && !before.frontier.entries().contains_key(k) implies self.frontier.entries()[k] == score
                        && before.ladders@.len() <= k < self.ladders@.len() && exists|m: int| 0 <= m < j + 1
                        && !self.known@.contains_key(#[trigger] topics(links@)[m])
                        && ladder_at(self.ladders@, k as int) == p.push(topics(links@)[m]) by {
                        if k == id {
                            assert(topics(links@)[j as int] == w);
                            assert(!self.known@.contains_key(topics(links@)[j as int]) && ladder_at(self.ladders@, k as int)
                                == p.push(topics(links@)[j as int]));
                        } else {
                            assert(mid.frontier.entries().contains_key(k));
                            let m = choose|m: int| 0 <= m < j && !mid.known@.contains_key(#[trigger] topics(links@)[m])
                                && ladder_at(mid.ladders@, k as int) == p.push(topics(links@)[m]);
                            assert(ladder_at(self.ladders@, k as int) == ladder_at(mid.ladders@, k as int));
                        }
                    }
                    assert forall|m: int| 0 <= m < j + 1 && !self.known@.contains_key(#[trigger] topics(links@)[m]) implies exists|k: usize|
                        #[trigger] self.frontier.entries().contains_key(k) && !before.frontier.entries().contains_key(k)
                        && ladder_at(self.ladders@, k as int) == p.push(topics(links@)[m]) by {
                        if m == j {
                            assert(topics(links@)[j as int] == w);
                            assert(self.frontier.entries().contains_key(id));
                        } else {
                            let k = choose|k: usize| #[trigger] mid.frontier.entries().contains_key(k)
                                && !before.frontier.entries().contains_key(k)
                                && ladder_at(mid.ladders@, k as int) == p.push(topics(links@)[m]);
                            assert(self.frontier.entries().contains_key(k));
                            assert(ladder_at(self.ladders@, k as int) == ladder_at(mid.ladders@, k as int));
                        }
                    }
                }
            } else {
                proof {
                    let w = links@[j as int]@;
                    assert(topics(self.visited@).to_set().contains(w));
                    assert(topics(links@)[j as int] == w);
                }
            }
            j = j + 1;
        }
        proof {
            reveal(children_queued);
        }
    }

    /// Hands over the links of the pending ladder's last topic, which is then
    /// expanded. If they hold the end topic, returns the pending ladder with the
    /// end topic appended. Otherwise queues the pending ladder extended by each
    /// link not yet expanded, all scored by the number of the links that are
    /// also links of the end topic.
    pub fn take_links(&mut self, links: Vec<String>) -> (r: Option<Vec<String>>)
        requires
            old(self).wf(),
            old(self).pending_ladder() is Some,
        ensures
            ({
                let ladder = old(self).pending_ladder()->0;
                let t = ladder.last();
                &&& final(self).known() == old(self).known().insert(t, topic_set(links@))
                &&& final(self).expanded() == old(self).expanded().push(t)
                &&& final(self).pending_ladder() is None
                &&& final(self).start_topic() == old(self).start_topic()
                &&& final(self).end_topic() == old(self).end_topic()
                &&& final(self).end_link_set() == old(self).end_link_set()
                &&& match r {
                    Some(found) => {
                        &&& old(self).start_topic() != old(self).end_topic() ==> topics(found@).no_duplicates()
                        &&& topic_set(links@).contains(old(self).end_topic())
                        &&& topics(found@) == ladder.push(old(self).end_topic())
                    },
                    None => {
                        &&& !topic_set(links@).contains(old(self).end_topic())
                        &&& final(self).wf()
                        &&& forall|k: usize| #[trigger] final(self).scores().contains_key(k)
                            && !old(self).scores().contains_key(k) ==> final(self).scores()[k]
                            == common_count(topics(links@), old(self).end_link_set())
                        &&& forall|k: usize| #[trigger] final(self).scores().contains_key(k)
                            && !old(self).scores().contains_key(k) ==> exists|w: Seq<char>|
                            #[trigger] topic_set(links@).contains(w) && !final(self).known().contains_key(w)
                                && final(self).queued_ladder(k) == ladder.push(w)
                        &&& forall|w: Seq<char>| #[trigger] topic_set(links@).contains(w) && !final(self).known().contains_key(w)
                            ==> exists|k: usize| #[trigger] final(self).scores().contains_key(k)
                            && !old(self).scores().contains_key(k) && final(self).queued_ladder(k) == ladder.push(w)
                        &&& forall|k: usize| #[trigger] old(self).scores().contains_key(k) ==> final(self).scores().contains_key(k)
                            && final(self).scores()[k] == old(self).scores()[k]
                            && final(self).queued_ladder(k) == old(self).queued_ladder(k)
                        &&& topics(links@).no_duplicates() ==> forall|k: usize| #[trigger] final(self).scores().contains_key(k)
                            && !old(self).scores().contains_key(k) ==> final(self).scores()[k]
                            == topic_set(links@).intersect(old(self).end_link_set()).len()
                    },
                }
            }),
            old(self).pending_ladder()->0[0] == old(self).start_topic(),
            follows_links(old(self).pending_ladder()->0, old(self).known()),
    {
        let ghost before = *self;
        let i = match self.pending {
            Some(i) => i,
            None => 0,
        };
        assert(ladder_at(self.ladders@, i as int).len() >= 1);
        self.pending = None;
        let last = self.ladders[i].len() - 1;
        let tail = self.ladders[i][last].clone();
        let ghost t = tail@;
        assert(t == before.tail(i as int));
        let affinity = count_common(&links, &self.end_links);
        proof {
            if topics(links@).no_duplicates() {
                lemma_common_count_is_intersection(topics(links@), topic_set(self.end_links@));
            }
        }
        let ghost prev_visited = self.visited@;
        self.visited.push(tail);
        let ghost link_set = topic_set(links@);
        self.known = Ghost(self.known@.insert(t, link_set));
        proof {
            assert(topics(self.visited@) =~= topics(prev_visited).push(t));
            topics(prev_visited).lemma_push_to_set_commute(t);
            assert(topics(self.visited@).to_set() =~= self.known@.dom());
            assert(!topics(prev_visited).contains(t)) by {
                assert(topics(prev_visited).to_set().contains(t) == topics(prev_visited).contains(t));
            }
            assert(topics(self.visited@).no_duplicates()) by {
                assert forall|a: int, b: int| 0 <= a < b < topics(self.visited@).len() implies
                    topics(self.visited@)[a] != topics(self.visited@)[b] by {
                    if b == topics(prev_visited).len() {
                        assert(topics(prev_visited)[a] == topics(self.visited@)[a]);
                    } else {
                        assert(topics(prev_visited)[a] == topics(self.visited@)[a]);
                        assert(topics(prev_visited)[b] == topics(self.visited@)[b]);
                    }
                }
            }
            assert forall|j: int| 0 <= j < self.ladders@.len() implies follows_links(
                #[trigger] ladder_at(self.ladders@, j),
                self.known@,
            ) by {
                let l = ladder_at(self.ladders@, j);
                assert forall|m: int| 0 <= m < l.len() - 1 implies self.known@.contains_key(#[trigger] l[m])
                    && self.known@[l[m]].contains(l[m + 1]) by {
                    assert(before.known@.contains_key(l[m]));
                    assert(l[m] != t);
                }
            }
        }
        assert(topics(self.visited@) == topics(before.visited@).push(t));
        if contains_topic(&links, &self.end) {
            let mut found = copy_topics(&self.ladders[i]);
            let ghost base = found@;
            found.push(self.end.clone());
            assert(topics(found@) =~= topics(base).push(self.end@));
            proof {
                let p = before.ladder(i as int);
                if before.start@ != before.end@ {
                    assert forall|m: int| 0 <= m < p.len() implies p[m] != before.end@ by {
                        if m > 0 {
                            assert(before.known@.contains_key(p[m - 1]) && before.known@[p[m - 1]].contains(p[(m - 1) + 1]));
                        }
                    }
                    assert forall|a: int, b: int| 0 <= a < b < topics(found@).len() implies topics(found@)[a]
                        != topics(found@)[b] by {
                        assert(topics(found@)[a] == p[a]);
                        if b < p.len() {
                            assert(topics(found@)[b] == p[b]);
                        }
                    }
                }
            }
            return Some(found);
        }
        let ghost mid = *self;
        self.queue_children(i, &links, affinity);
        proof {
            lemma_expansion_done(before, mid, *self, i, links@, affinity);
            lemma_expansion_view(before, *self, i, links@, affinity);
        }
        None
    }
}


} // verus!
