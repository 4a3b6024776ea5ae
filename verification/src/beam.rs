//! Best-first search of a proximity graph with a bounded list of results.
//!
//! All graph searches of the library are one search under different rules. The search
//! keeps a frontier of nodes to expand and a list of the best nodes found, both in rank
//! order. It expands the nearest node of the frontier until that node is worse than the
//! worst of a full list. [`Rules`] says what a search does step by step; [`search_from`]
//! does it.
use crate::float_order;
use crate::metric::Metric;
use crate::ranking;
use crate::ranking::Scored;
use crate::visited::VisitedSet;
use vstd::prelude::*;

verus! {

/// Number of expanded nodes that a coherence gate remembers.
pub const GATE_HISTORY: usize = 8;

/// The neighbour lists of a graph.
pub open spec fn links_of(graph: Seq<Vec<u32>>) -> Seq<Seq<u32>> {
    Seq::new(graph.len(), |i: int| graph[i]@)
}

/// Every neighbour is a node.
pub open spec fn closed_graph(links: Seq<Seq<u32>>) -> bool {
    forall|i: int, j: int|
        0 <= i < links.len() && 0 <= j < links[i].len() ==> #[trigger] links[i][j] < links.len()
}

/// State of a search.
pub struct Beam {
    /// Nodes to expand, nearest first.
    pub frontier: Seq<Scored>,
    /// The best nodes so far, nearest first.
    pub best: Seq<Scored>,
    /// Nodes met so far.
    pub seen: Set<int>,
    /// The nodes expanded last, oldest first.
    pub recent: Seq<u32>,
}

/// What a search goes by.
pub struct Rules {
    /// The neighbour lists.
    pub links: Seq<Seq<u32>>,
    /// The distance of each node from the query.
    pub dist: spec_fn(int) -> u32,
    /// Whether a node is passed over, given the nodes expanded last.
    pub blocked: spec_fn(Seq<u32>, u32) -> bool,
    /// How many results are kept.
    pub cap: nat,
    /// Whether nodes too far for the results are expanded all the same.
    pub explore_all: bool,
    /// Whether a node must be strictly nearer than the worst result to take its place; if
    /// not, it must only not be as far, which differs where a distance is a NaN.
    pub strict: bool,
}

/// `recent` after one more expansion.
pub open spec fn remembered(recent: Seq<u32>, id: u32) -> Seq<u32> {
    let grown = recent.push(id);
    if grown.len() > GATE_HISTORY {
        grown.drop_first()
    } else {
        grown
    }
}

/// No node is passed over.
pub open spec fn open_gate() -> spec_fn(Seq<u32>, u32) -> bool {
    |recent: Seq<u32>, id: u32| false
}

/// Only nodes of a graph of `n` nodes.
pub open spec fn inside(ids: Seq<u32>, n: nat) -> bool {
    forall|i: int| 0 <= i < ids.len() ==> #[trigger] ids[i] < n
}

impl Rules {
    /// A node with its distance.
    pub open spec fn scored(self, id: u32) -> Scored {
        Scored { id, bits: (self.dist)(id as int) }
    }

    /// Whether a node at this distance gets into the results.
    pub open spec fn enters(self, best: Seq<Scored>, bits: u32) -> bool {
        best.len() < self.cap || (if self.strict {
            float_order::below(bits, best.last().bits)
        } else {
            !float_order::at_most(best.last().bits, bits)
        })
    }

    /// The results with one more node, the worst left out where there are too many.
    pub open spec fn kept(self, best: Seq<Scored>, x: Scored) -> Seq<Scored> {
        ranking::first_k(ranking::ranked(best.push(x)), self.cap)
    }

    /// The state after starting from one more node.
    pub open spec fn entered(self, s: Beam, id: u32) -> Beam {
        let x = self.scored(id);
        Beam {
            frontier: ranking::ranked(s.frontier.push(x)),
            best: self.kept(s.best, x),
            seen: s.seen.insert(id as int),
            recent: s.recent,
        }
    }

    /// The state after starting from these nodes.
    pub open spec fn start(self, entries: Seq<u32>) -> Beam
        decreases entries.len(),
    {
        if entries.len() == 0 {
            Beam {
                frontier: Seq::empty(),
                best: Seq::empty(),
                seen: Set::empty(),
                recent: Seq::empty(),
            }
        } else {
            self.entered(self.start(entries.drop_last()), entries.last())
        }
    }

    /// The state after meeting a node as somebody's neighbour.
    pub open spec fn met(self, s: Beam, id: u32) -> Beam {
        let seen = s.seen.insert(id as int);
        if s.seen.contains(id as int) {
            s
        } else if (self.blocked)(s.recent, id) {
            Beam { seen, ..s }
        } else {
            let x = self.scored(id);
            let enters = self.enters(s.best, x.bits);
            Beam {
                frontier: if enters || self.explore_all {
                    ranking::ranked(s.frontier.push(x))
                } else {
                    s.frontier
                },
                best: if enters {
                    self.kept(s.best, x)
                } else {
                    s.best
                },
                seen,
                recent: s.recent,
            }
        }
    }

    /// The state after meeting all these nodes.
    pub open spec fn met_all(self, s: Beam, ids: Seq<u32>) -> Beam
        decreases ids.len(),
    {
        if ids.len() == 0 {
            s
        } else {
            self.met(self.met_all(s, ids.drop_last()), ids.last())
        }
    }

    /// Whether the search is over: nothing to expand, or only what is farther than the
    /// worst of enough results.
    pub open spec fn finished(self, s: Beam) -> bool {
        s.frontier.len() == 0 || (s.best.len() >= self.cap && float_order::below(
            s.best.last().bits,
            s.frontier[0].bits,
        ))
    }

    /// The state with the nearest node taken off the frontier.
    pub open spec fn popped(self, s: Beam) -> Beam {
        Beam {
            frontier: s.frontier.drop_first(),
            recent: remembered(s.recent, s.frontier[0].id),
            ..s
        }
    }

    /// The state after expanding the nearest node.
    pub open spec fn expanded(self, s: Beam) -> Beam {
        self.met_all(self.popped(s), self.links[s.frontier[0].id as int])
    }

    /// The state after at most `steps` expansions.
    pub open spec fn run(self, s: Beam, steps: nat) -> Beam
        decreases steps,
    {
        if steps == 0 || self.finished(s) {
            s
        } else {
            self.run(self.expanded(s), (steps - 1) as nat)
        }
    }

    /// The state in which a search from `entries` ends. No node is expanded twice, so
    /// there are no more expansions than nodes.
    pub open spec fn outcome(self, entries: Seq<u32>) -> Beam {
        self.run(self.start(entries), self.links.len())
    }

    /// What every state of a search satisfies.
    pub open spec fn sound(self, s: Beam) -> bool {
        &&& ranking::in_order(s.frontier)
        &&& ranking::in_order(s.best)
        &&& ranking::distinct_ids(s.frontier)
        &&& ranking::distinct_ids(s.best)
        &&& s.best.len() <= self.cap
        &&& forall|i: int| 0 <= i < s.frontier.len() ==> self.known(s, #[trigger] s.frontier[i])
        &&& forall|i: int| 0 <= i < s.best.len() ==> self.known(s, #[trigger] s.best[i])
        &&& s.seen.finite()
        &&& forall|v: int| #[trigger] s.seen.contains(v) ==> 0 <= v < self.links.len()
        &&& s.recent.len() <= GATE_HISTORY
        &&& forall|i: int| 0 <= i < s.recent.len() ==> #[trigger] s.recent[i] < self.links.len()
    }

    /// An entry is a node that was met, with its own distance.
    pub open spec fn known(self, s: Beam, x: Scored) -> bool {
        s.seen.contains(x.id as int) && x == self.scored(x.id)
    }

    /// Expansions that can still come.
    pub open spec fn remaining(self, s: Beam) -> int {
        s.frontier.len() + self.links.len() - s.seen.len()
    }

    proof fn seen_fits(self, s: Beam)
        requires
            self.sound(s),
        ensures
            s.seen.len() <= self.links.len(),
    {
        let all = vstd::set_lib::set_int_range(0, self.links.len() as int);
        vstd::set_lib::lemma_int_range(0, self.links.len() as int);
        assert(s.seen.subset_of(all));
        vstd::set_lib::lemma_len_subset(s.seen, all);
    }

    proof fn push_is_sound(self, s: Beam, list: Seq<Scored>, id: u32)
        requires
            self.sound(s),
            id < self.links.len(),
            !s.seen.contains(id as int),
            ranking::in_order(list),
            ranking::distinct_ids(list),
            forall|i: int| 0 <= i < list.len() ==> self.known(s, #[trigger] list[i]),
        ensures
            ({
                let r = ranking::ranked(list.push(self.scored(id)));
                let t = Beam { seen: s.seen.insert(id as int), ..s };
                &&& ranking::in_order(r)
                &&& ranking::distinct_ids(r)
                &&& r.len() == list.len() + 1
                &&& forall|i: int| 0 <= i < r.len() ==> self.known(t, #[trigger] r[i])
            }),
    {
        let x = self.scored(id);
        let grown = list.push(x);
        ranking::ranked_properties(grown);
        let r = ranking::ranked(grown);
        let t = Beam { seen: s.seen.insert(id as int), ..s };
        assert(ranking::distinct_ids(grown));
        assert forall|i: int| 0 <= i < r.len() implies self.known(t, #[trigger] r[i]) by {
            assert(r.contains(r[i]));
            assert(grown.contains(r[i]));
            let at = choose|at: int| 0 <= at < grown.len() && grown[at] == r[i];
            if at < list.len() {
                assert(self.known(s, list[at]));
            }
        }
    }

    proof fn kept_is_sound(self, s: Beam, id: u32)
        requires
            self.sound(s),
            id < self.links.len(),
            !s.seen.contains(id as int),
            self.cap > 0,
        ensures
            ({
                let r = self.kept(s.best, self.scored(id));
                let t = Beam { seen: s.seen.insert(id as int), ..s };
                &&& ranking::in_order(r)
                &&& ranking::distinct_ids(r)
                &&& 0 < r.len() <= self.cap
                &&& s.best.len() <= r.len()
                &&& forall|i: int| 0 <= i < r.len() ==> self.known(t, #[trigger] r[i])
            }),
    {
        self.push_is_sound(s, s.best, id);
    }

    /// Starting from one more node keeps the state sound.
    pub proof fn entered_is_sound(self, s: Beam, id: u32)
        requires
            self.sound(s),
            self.cap > 0,
            id < self.links.len(),
            !s.seen.contains(id as int),
        ensures
            self.sound(self.entered(s, id)),
            self.remaining(self.entered(s, id)) == self.remaining(s),
            self.entered(s, id).best.len() > 0,
    {
        self.push_is_sound(s, s.frontier, id);
        self.kept_is_sound(s, id);
    }

    /// Starting from distinct nodes gives a sound state with nothing lost.
    pub proof fn start_is_sound(self, entries: Seq<u32>)
        requires
            self.cap > 0,
            entries.no_duplicates(),
            forall|i: int| 0 <= i < entries.len() ==> #[trigger] entries[i] < self.links.len(),
        ensures
            self.sound(self.start(entries)),
            self.remaining(self.start(entries)) == self.links.len(),
            entries.len() > 0 ==> self.start(entries).best.len() > 0,
            forall|v: int|
                #[trigger] self.start(entries).seen.contains(v) <==> exists|i: int|
                    0 <= i < entries.len() && entries[i] == v,
        decreases entries.len(),
    {
        if entries.len() > 0 {
            let front = entries.drop_last();
            assert(front.no_duplicates());
            self.start_is_sound(front);
            let s = self.start(front);
            let id = entries.last();
            assert(!s.seen.contains(id as int));
            self.entered_is_sound(s, id);
            assert forall|v: int|
                #[trigger] self.start(entries).seen.contains(v) <==> exists|i: int|
                    0 <= i < entries.len() && entries[i] == v by {
                if s.seen.contains(v) {
                    let i = choose|i: int| 0 <= i < front.len() && front[i] == v;
                    assert(entries[i] == v);
                }
                if v == id {
                    assert(entries[entries.len() - 1] == v);
                }
                if exists|i: int| 0 <= i < entries.len() && entries[i] == v {
                    let i = choose|i: int| 0 <= i < entries.len() && entries[i] == v;
                    if i < front.len() {
                        assert(front[i] == v);
                    }
                }
            }
        }
    }

    /// Meeting a node keeps the state sound and brings no end farther away.
    pub proof fn met_is_sound(self, s: Beam, id: u32)
        requires
            self.sound(s),
            self.cap > 0,
            id < self.links.len(),
        ensures
            self.sound(self.met(s, id)),
            self.remaining(self.met(s, id)) <= self.remaining(s),
            self.met(s, id).best.len() >= s.best.len(),
            self.met(s, id).seen == s.seen.insert(id as int),
            self.met(s, id).recent == s.recent,
    {
        if s.seen.contains(id as int) {
            assert(s.seen.insert(id as int) =~= s.seen);
        } else {
            self.push_is_sound(s, s.frontier, id);
            self.kept_is_sound(s, id);
            assert forall|i: int| 0 <= i < s.frontier.len() implies self.known(
                self.met(s, id),
                #[trigger] s.frontier[i],
            ) by {
                assert(self.known(s, s.frontier[i]));
            }
            assert forall|i: int| 0 <= i < s.best.len() implies self.known(
                self.met(s, id),
                #[trigger] s.best[i],
            ) by {
                assert(self.known(s, s.best[i]));
            }
        }
    }

    /// Meeting several nodes keeps the state sound and brings no end farther away.
    pub proof fn met_all_is_sound(self, s: Beam, ids: Seq<u32>)
        requires
            self.sound(s),
            self.cap > 0,
            forall|i: int| 0 <= i < ids.len() ==> #[trigger] ids[i] < self.links.len(),
        ensures
            self.sound(self.met_all(s, ids)),
            self.remaining(self.met_all(s, ids)) <= self.remaining(s),
            self.met_all(s, ids).best.len() >= s.best.len(),
            s.seen.subset_of(self.met_all(s, ids).seen),
            forall|i: int|
                0 <= i < ids.len() ==> self.met_all(s, ids).seen.contains(#[trigger] ids[i] as int),
            forall|v: int| #[trigger]
                self.met_all(s, ids).seen.contains(v) ==> s.seen.contains(v) || exists|i: int|
                    0 <= i < ids.len() && ids[i] == v,
        decreases ids.len(),
    {
        if ids.len() > 0 {
            let front = ids.drop_last();
            self.met_all_is_sound(s, front);
            let t = self.met_all(s, front);
            self.met_is_sound(t, ids.last());
            let u = self.met_all(s, ids);
            assert forall|i: int| 0 <= i < ids.len() implies u.seen.contains(
                #[trigger] ids[i] as int,
            ) by {
                if i < front.len() {
                    assert(front[i] == ids[i]);
                }
            }
            assert forall|v: int| #[trigger] u.seen.contains(v) implies s.seen.contains(v)
                || exists|i: int| 0 <= i < ids.len() && ids[i] == v by {
                if t.seen.contains(v) {
                    if !s.seen.contains(v) {
                        let i = choose|i: int| 0 <= i < front.len() && front[i] == v;
                        assert(ids[i] == v);
                    }
                } else {
                    assert(ids[ids.len() - 1] == v);
                }
            }
        }
    }

    /// Taking a node off the frontier keeps the state sound.
    pub proof fn popped_is_sound(self, s: Beam)
        requires
            self.sound(s),
            s.frontier.len() > 0,
        ensures
            self.sound(self.popped(s)),
            self.remaining(self.popped(s)) == self.remaining(s) - 1,
            s.frontier[0].id < self.links.len(),
    {
        assert(self.known(s, s.frontier[0]));
        let t = self.popped(s);
        assert forall|i: int| 0 <= i < t.frontier.len() implies self.known(
            t,
            #[trigger] t.frontier[i],
        ) by {
            assert(self.known(s, s.frontier[i + 1]));
        }
        assert forall|i: int| 0 <= i < t.best.len() implies self.known(t, #[trigger] t.best[i]) by {
            assert(self.known(s, s.best[i]));
        }
    }

    /// An expansion keeps the state sound and uses up one of the expansions that can come.
    pub proof fn expanded_is_sound(self, s: Beam)
        requires
            self.sound(s),
            self.cap > 0,
            closed_graph(self.links),
            s.frontier.len() > 0,
        ensures
            self.sound(self.expanded(s)),
            self.remaining(self.expanded(s)) < self.remaining(s),
            self.expanded(s).best.len() >= s.best.len(),
    {
        self.popped_is_sound(s);
        self.met_all_is_sound(self.popped(s), self.links[s.frontier[0].id as int]);
    }

    /// Enough steps lead to a sound state in which the search is over.
    pub proof fn run_is_sound(self, s: Beam, steps: nat)
        requires
            self.sound(s),
            self.cap > 0,
            closed_graph(self.links),
            self.remaining(s) <= steps,
        ensures
            self.sound(self.run(s, steps)),
            self.finished(self.run(s, steps)),
            self.run(s, steps).best.len() >= s.best.len(),
        decreases steps,
    {
        self.seen_fits(s);
        if steps > 0 && !self.finished(s) {
            self.expanded_is_sound(s);
            self.run_is_sound(self.expanded(s), (steps - 1) as nat);
        }
    }

    /// What a search finds: at least one node and at most as many as are kept, no node
    /// twice, each with its own distance, nearest first.
    pub proof fn outcome_is_sound(self, entries: Seq<u32>)
        requires
            self.cap > 0,
            closed_graph(self.links),
            entries.len() > 0,
            entries.no_duplicates(),
            forall|i: int| 0 <= i < entries.len() ==> #[trigger] entries[i] < self.links.len(),
        ensures
            self.finished(self.outcome(entries)),
            0 < self.outcome(entries).best.len() <= self.cap,
            ranking::in_order(self.outcome(entries).best),
            ranking::distinct_ids(self.outcome(entries).best),
            forall|i: int|
                0 <= i < self.outcome(entries).best.len() ==> {
                    let x = #[trigger] self.outcome(entries).best[i];
                    x.id < self.links.len() && x == self.scored(x.id)
                },
    {
        self.start_is_sound(entries);
        self.run_is_sound(self.start(entries), self.links.len());
        let t = self.outcome(entries);
        assert forall|i: int| 0 <= i < t.best.len() implies {
            let x = #[trigger] t.best[i];
            x.id < self.links.len() && x == self.scored(x.id)
        } by {
            assert(self.known(t, t.best[i]));
        }
    }
}

impl Rules {
    /// Two searches that differ at most in what they pass over, and pass over the same nodes.
    pub open spec fn agrees(self, other: Rules) -> bool {
        &&& other.links == self.links
        &&& other.dist == self.dist
        &&& other.cap == self.cap
        &&& other.explore_all == self.explore_all
        &&& other.strict == self.strict
        &&& forall|recent: Seq<u32>, id: u32|
            id < self.links.len() && inside(recent, self.links.len()) ==> #[trigger] (self.blocked)(
                recent,
                id,
            ) == (other.blocked)(recent, id)
    }

    proof fn start_agrees(self, other: Rules, entries: Seq<u32>)
        requires
            self.agrees(other),
        ensures
            self.start(entries) == other.start(entries),
        decreases entries.len(),
    {
        if entries.len() > 0 {
            self.start_agrees(other, entries.drop_last());
        }
    }

    proof fn met_all_agrees(self, other: Rules, s: Beam, ids: Seq<u32>)
        requires
            self.agrees(other),
            self.sound(s),
            self.cap > 0,
            forall|i: int| 0 <= i < ids.len() ==> #[trigger] ids[i] < self.links.len(),
        ensures
            self.met_all(s, ids) == other.met_all(s, ids),
        decreases ids.len(),
    {
        if ids.len() > 0 {
            let front = ids.drop_last();
            assert forall|i: int| 0 <= i < front.len() implies #[trigger] front[i]
                < self.links.len() by {
                assert(ids[i] < self.links.len());
            }
            self.met_all_agrees(other, s, front);
            self.met_all_is_sound(s, front);
            let t = self.met_all(s, front);
            assert(inside(t.recent, self.links.len()));
            assert((self.blocked)(t.recent, ids.last()) == (other.blocked)(t.recent, ids.last()));
        }
    }

    proof fn run_agrees(self, other: Rules, s: Beam, steps: nat)
        requires
            self.agrees(other),
            self.sound(s),
            self.cap > 0,
            closed_graph(self.links),
        ensures
            self.run(s, steps) == other.run(s, steps),
        decreases steps,
    {
        if steps > 0 && !self.finished(s) {
            let id = s.frontier[0].id;
            self.popped_is_sound(s);
            assert(self.links[id as int] == other.links[id as int]);
            self.met_all_agrees(other, self.popped(s), self.links[id as int]);
            self.expanded_is_sound(s);
            self.run_agrees(other, self.expanded(s), (steps - 1) as nat);
        }
    }

    /// Searches that pass over the same nodes end the same.
    pub proof fn outcome_agrees(self, other: Rules, entries: Seq<u32>)
        requires
            self.agrees(other),
            self.cap > 0,
            closed_graph(self.links),
            entries.no_duplicates(),
            forall|i: int| 0 <= i < entries.len() ==> #[trigger] entries[i] < self.links.len(),
        ensures
            self.outcome(entries) == other.outcome(entries),
    {
        self.start_agrees(other, entries);
        self.start_is_sound(entries);
        self.run_agrees(other, self.start(entries), self.links.len());
    }
}

/// Each node of a path is a neighbour of the one before it.
pub open spec fn is_path(links: Seq<Seq<u32>>, path: Seq<u32>) -> bool {
    &&& path.len() > 0
    &&& path[0] < links.len()
    &&& forall|i: int|
        0 <= i < path.len() - 1 ==> links[#[trigger] path[i] as int].contains(path[i + 1])
}

/// Whether a node can be reached from the entries along the links.
pub open spec fn reachable(links: Seq<Seq<u32>>, entries: Seq<u32>, v: u32) -> bool {
    exists|path: Seq<u32>| #[trigger]
        is_path(links, path) && entries.contains(path[0]) && path.last() == v
}

/// Paths of a closed graph lead from node to node.
pub proof fn path_stays_inside(links: Seq<Seq<u32>>, path: Seq<u32>, i: int)
    requires
        closed_graph(links),
        is_path(links, path),
        0 <= i < path.len(),
    ensures
        path[i] < links.len(),
    decreases i,
{
    if i > 0 {
        path_stays_inside(links, path, i - 1);
        let list = links[path[i - 1] as int];
        assert(list.contains(path[i - 1 + 1]));
        let a = choose|a: int| 0 <= a < list.len() && list[a] == path[i];
        assert(links[path[i - 1] as int][a] < links.len());
    }
}

/// The nodes that can be reached from the entries along the links.
pub open spec fn reached(links: Seq<Seq<u32>>, entries: Seq<u32>) -> Set<int> {
    Set::new(|v: int| 0 <= v <= u32::MAX && reachable(links, entries, v as u32))
}

/// Only nodes can be reached, so there are no more of them than nodes.
pub proof fn reached_fits(links: Seq<Seq<u32>>, entries: Seq<u32>)
    requires
        closed_graph(links),
    ensures
        reached(links, entries).finite(),
        reached(links, entries).len() <= links.len(),
{
    let all = vstd::set_lib::set_int_range(0, links.len() as int);
    vstd::set_lib::lemma_int_range(0, links.len() as int);
    assert forall|v: int| #[trigger] reached(links, entries).contains(v) implies all.contains(v) by {
        let path = choose|path: Seq<u32>| #[trigger]
            is_path(links, path) && entries.contains(path[0]) && path.last() == v as u32;
        path_stays_inside(links, path, path.len() - 1);
    }
    assert(reached(links, entries).subset_of(all));
    vstd::set_lib::lemma_len_subset(reached(links, entries), all);
}

impl Rules {
    /// All that was met can be reached from the entries.
    pub open spec fn traced(self, s: Beam, entries: Seq<u32>) -> bool {
        forall|v: u32| #[trigger] s.seen.contains(v as int) ==> reachable(self.links, entries, v)
    }

    proof fn step_is_traced(self, s: Beam, entries: Seq<u32>, from: u32, to: u32)
        requires
            self.traced(s, entries),
            s.seen.contains(from as int),
            from < self.links.len(),
            self.links[from as int].contains(to),
        ensures
            reachable(self.links, entries, to),
    {
        let path = choose|path: Seq<u32>| #[trigger]
            is_path(self.links, path) && entries.contains(path[0]) && path.last() == from;
        let longer = path.push(to);
        assert(is_path(self.links, longer)) by {
            assert forall|i: int| 0 <= i < longer.len() - 1 implies self.links[#[trigger] longer[i] as int].contains(
                longer[i + 1],
            ) by {
                if i < path.len() - 1 {
                    assert(path[i] == longer[i]);
                }
            }
        }
        assert(longer[0] == path[0]);
        assert(longer.last() == to);
    }

    proof fn run_is_traced(self, s: Beam, steps: nat, entries: Seq<u32>)
        requires
            self.sound(s),
            self.cap > 0,
            closed_graph(self.links),
            self.traced(s, entries),
        ensures
            self.traced(self.run(s, steps), entries),
            self.sound(self.run(s, steps)),
        decreases steps,
    {
        if steps > 0 && !self.finished(s) {
            let from = s.frontier[0].id;
            let ids = self.links[from as int];
            let t = self.expanded(s);
            self.expanded_is_sound(s);
            self.popped_is_sound(s);
            self.met_all_is_sound(self.popped(s), ids);
            assert(self.known(s, s.frontier[0]));
            assert forall|v: u32| #[trigger] t.seen.contains(v as int) implies reachable(
                self.links,
                entries,
                v,
            ) by {
                if !s.seen.contains(v as int) {
                    let i = choose|i: int| 0 <= i < ids.len() && ids[i] as int == v as int;
                    assert(ids[i] == v);
                    self.step_is_traced(s, entries, from, v);
                }
            }
            self.run_is_traced(t, (steps - 1) as nat, entries);
        }
    }

    proof fn start_is_traced(self, entries: Seq<u32>)
        requires
            self.cap > 0,
            entries.no_duplicates(),
            forall|i: int| 0 <= i < entries.len() ==> #[trigger] entries[i] < self.links.len(),
        ensures
            self.traced(self.start(entries), entries),
    {
        self.start_is_sound(entries);
        let s = self.start(entries);
        assert forall|v: u32| #[trigger] s.seen.contains(v as int) implies reachable(
            self.links,
            entries,
            v,
        ) by {
            let i = choose|i: int| 0 <= i < entries.len() && entries[i] as int == v as int;
            let path = seq![v];
            assert(entries[i] == v);
            assert(is_path(self.links, path));
            assert(path[0] == v && path.last() == v);
        }
    }

    /// Every result of a search can be reached from where it started.
    pub proof fn results_are_reachable(self, entries: Seq<u32>)
        requires
            self.cap > 0,
            closed_graph(self.links),
            entries.no_duplicates(),
            forall|i: int| 0 <= i < entries.len() ==> #[trigger] entries[i] < self.links.len(),
        ensures
            forall|i: int|
                0 <= i < self.outcome(entries).best.len() ==> reachable(
                    self.links,
                    entries,
                    (#[trigger] self.outcome(entries).best[i]).id,
                ),
    {
        self.start_is_sound(entries);
        self.start_is_traced(entries);
        let s = self.start(entries);
        self.run_is_traced(s, self.links.len(), entries);
        let t = self.outcome(entries);
        assert forall|i: int| 0 <= i < t.best.len() implies reachable(
            self.links,
            entries,
            (#[trigger] t.best[i]).id,
        ) by {
            assert(self.known(t, t.best[i]));
        }
    }

    /// Nothing was left out: every node met is a result, and what is no longer on the
    /// frontier has been expanded.
    pub open spec fn complete(self, s: Beam) -> bool {
        &&& s.best.len() == s.seen.len()
        &&& forall|v: u32| #[trigger]
            s.seen.contains(v as int) ==> s.best.contains(self.scored(v))
        &&& forall|v: u32, j: int|
            s.seen.contains(v as int) && !s.frontier.contains(self.scored(v)) && 0 <= j
                < self.links[v as int].len() ==> s.seen.contains(
                #[trigger] self.links[v as int][j] as int,
            )
    }

    proof fn kept_whole(self, s: Beam, id: u32)
        requires
            self.sound(s),
            s.best.len() == s.seen.len(),
            self.links.len() <= self.cap,
            id < self.links.len(),
            !s.seen.contains(id as int),
        ensures
            s.best.len() < self.cap,
            self.kept(s.best, self.scored(id)) == ranking::ranked(s.best.push(self.scored(id))),
    {
        let grown = s.seen.insert(id as int);
        let all = vstd::set_lib::set_int_range(0, self.links.len() as int);
        vstd::set_lib::lemma_int_range(0, self.links.len() as int);
        assert(grown.subset_of(all));
        vstd::set_lib::lemma_len_subset(grown, all);
        ranking::ranked_properties(s.best.push(self.scored(id)));
    }

    proof fn met_is_complete(self, s: Beam, id: u32, from: u32)
        requires
            self.sound(s),
            self.links.len() <= self.cap,
            id < self.links.len(),
            self.blocked == open_gate(),
            s.best.len() == s.seen.len(),
            forall|v: u32| #[trigger]
                s.seen.contains(v as int) ==> s.best.contains(self.scored(v)),
            forall|v: u32, j: int|
                v != from && s.seen.contains(v as int) && !s.frontier.contains(self.scored(v)) && 0
                    <= j < self.links[v as int].len() ==> s.seen.contains(
                    #[trigger] self.links[v as int][j] as int,
                ),
        ensures
            ({
                let t = self.met(s, id);
                &&& t.best.len() == t.seen.len()
                &&& forall|v: u32| #[trigger]
                    t.seen.contains(v as int) ==> t.best.contains(self.scored(v))
                &&& forall|v: u32, j: int|
                    v != from && t.seen.contains(v as int) && !t.frontier.contains(self.scored(v))
                        && 0 <= j < self.links[v as int].len() ==> t.seen.contains(
                        #[trigger] self.links[v as int][j] as int,
                    )
            }),
    {
        if !s.seen.contains(id as int) {
            self.kept_whole(s, id);
            let t = self.met(s, id);
            let x = self.scored(id);
            let best = s.best.push(x);
            let frontier = s.frontier.push(x);
            ranking::ranked_properties(best);
            ranking::ranked_properties(frontier);
            assert(best[best.len() - 1] == x);
            assert(frontier[frontier.len() - 1] == x);
            assert forall|v: u32| #[trigger] t.seen.contains(v as int) implies t.best.contains(
                self.scored(v),
            ) by {
                if s.seen.contains(v as int) {
                    let at = choose|at: int|
                        0 <= at < s.best.len() && s.best[at] == self.scored(v);
                    assert(best[at] == self.scored(v));
                }
                assert(best.contains(self.scored(v)));
            }
            assert forall|v: u32, j: int|
                v != from && t.seen.contains(v as int) && !t.frontier.contains(self.scored(v)) && 0
                    <= j < self.links[v as int].len() implies t.seen.contains(
                #[trigger] self.links[v as int][j] as int,
            ) by {
                assert(!frontier.contains(self.scored(v)));
                if s.frontier.contains(self.scored(v)) {
                    let at = choose|at: int|
                        0 <= at < s.frontier.len() && s.frontier[at] == self.scored(v);
                    assert(frontier[at] == self.scored(v));
                }
                assert(v != id);
                assert(s.seen.contains(v as int));
            }
        }
    }

    proof fn met_all_is_complete(self, s: Beam, ids: Seq<u32>, from: u32)
        requires
            self.sound(s),
            self.cap > 0,
            self.links.len() <= self.cap,
            forall|i: int| 0 <= i < ids.len() ==> #[trigger] ids[i] < self.links.len(),
            self.blocked == open_gate(),
            s.best.len() == s.seen.len(),
            forall|v: u32| #[trigger]
                s.seen.contains(v as int) ==> s.best.contains(self.scored(v)),
            forall|v: u32, j: int|
                v != from && s.seen.contains(v as int) && !s.frontier.contains(self.scored(v)) && 0
                    <= j < self.links[v as int].len() ==> s.seen.contains(
                    #[trigger] self.links[v as int][j] as int,
                ),
        ensures
            ({
                let t = self.met_all(s, ids);
                &&& t.best.len() == t.seen.len()
                &&& forall|v: u32| #[trigger]
                    t.seen.contains(v as int) ==> t.best.contains(self.scored(v))
                &&& forall|v: u32, j: int|
                    v != from && t.seen.contains(v as int) && !t.frontier.contains(self.scored(v))
                        && 0 <= j < self.links[v as int].len() ==> t.seen.contains(
                        #[trigger] self.links[v as int][j] as int,
                    )
            }),
        decreases ids.len(),
    {
        if ids.len() > 0 {
            let front = ids.drop_last();
            self.met_all_is_complete(s, front, from);
            self.met_all_is_sound(s, front);
            self.met_is_complete(self.met_all(s, front), ids.last(), from);
        }
    }

    proof fn run_is_complete(self, s: Beam, steps: nat)
        requires
            self.sound(s),
            self.cap > 0,
            self.links.len() <= self.cap,
            closed_graph(self.links),
            self.blocked == open_gate(),
            self.complete(s),
        ensures
            self.complete(self.run(s, steps)),
            s.seen.subset_of(self.run(s, steps).seen),
        decreases steps,
    {
        if steps > 0 && !self.finished(s) {
            let x = s.frontier[0];
            let from = x.id;
            let ids = self.links[from as int];
            let p = self.popped(s);
            let t = self.expanded(s);
            self.popped_is_sound(s);
            assert(self.known(s, x));
            assert forall|v: u32, j: int|
                v != from && p.seen.contains(v as int) && !p.frontier.contains(self.scored(v)) && 0
                    <= j < self.links[v as int].len() implies p.seen.contains(
                #[trigger] self.links[v as int][j] as int,
            ) by {
                if s.frontier.contains(self.scored(v)) {
                    let at = choose|at: int|
                        0 <= at < s.frontier.len() && s.frontier[at] == self.scored(v);
                    assert(at != 0);
                    assert(p.frontier[at - 1] == self.scored(v));
                }
            }
            self.met_all_is_complete(p, ids, from);
            self.met_all_is_sound(p, ids);
            assert(self.complete(t));
            self.expanded_is_sound(s);
            self.run_is_complete(t, (steps - 1) as nat);
        }
    }

    proof fn start_is_complete(self, entries: Seq<u32>)
        requires
            self.cap > 0,
            self.links.len() <= self.cap,
            entries.no_duplicates(),
            forall|i: int| 0 <= i < entries.len() ==> #[trigger] entries[i] < self.links.len(),
        ensures
            self.complete(self.start(entries)),
            forall|v: u32| #[trigger]
                self.start(entries).seen.contains(v as int) ==> self.start(
                    entries,
                ).frontier.contains(self.scored(v)),
        decreases entries.len(),
    {
        if entries.len() > 0 {
            let front = entries.drop_last();
            assert(front.no_duplicates());
            self.start_is_complete(front);
            self.start_is_sound(front);
            let s = self.start(front);
            let id = entries.last();
            let t = self.start(entries);
            assert(!s.seen.contains(id as int));
            self.kept_whole(s, id);
            let x = self.scored(id);
            let best = s.best.push(x);
            let frontier = s.frontier.push(x);
            ranking::ranked_properties(best);
            ranking::ranked_properties(frontier);
            assert(best[best.len() - 1] == x);
            assert(frontier[frontier.len() - 1] == x);
            assert forall|v: u32| #[trigger] t.seen.contains(v as int) implies t.best.contains(
                self.scored(v),
            ) && t.frontier.contains(self.scored(v)) by {
                if s.seen.contains(v as int) {
                    let at = choose|at: int|
                        0 <= at < s.best.len() && s.best[at] == self.scored(v);
                    assert(best[at] == self.scored(v));
                    let at = choose|at: int|
                        0 <= at < s.frontier.len() && s.frontier[at] == self.scored(v);
                    assert(frontier[at] == self.scored(v));
                }
                assert(best.contains(self.scored(v)));
                assert(frontier.contains(self.scored(v)));
            }
        }
    }

    /// A search that keeps as many results as there are nodes, and passes no node over,
    /// finds every node that can be reached.
    pub proof fn wide_search_finds_all(self, entries: Seq<u32>, v: u32)
        requires
            0 < self.links.len() <= self.cap,
            closed_graph(self.links),
            self.blocked == open_gate(),
            entries.no_duplicates(),
            forall|i: int| 0 <= i < entries.len() ==> #[trigger] entries[i] < self.links.len(),
            reachable(self.links, entries, v),
        ensures
            self.outcome(entries).best.contains(self.scored(v)),
    {
        let s = self.start(entries);
        let t = self.outcome(entries);
        self.start_is_sound(entries);
        self.start_is_complete(entries);
        self.run_is_complete(s, self.links.len());
        self.run_is_sound(s, self.links.len());
        let path = choose|path: Seq<u32>| #[trigger]
            is_path(self.links, path) && entries.contains(path[0]) && path.last() == v;
        let i = choose|i: int| 0 <= i < entries.len() && entries[i] == path[0];
        assert(s.seen.contains(path[0] as int));
        self.path_is_seen(t, path, path.len() - 1);
    }

    proof fn path_is_seen(self, t: Beam, path: Seq<u32>, i: int)
        requires
            0 < self.links.len() <= self.cap,
            closed_graph(self.links),
            self.sound(t),
            self.complete(t),
            self.finished(t),
            is_path(self.links, path),
            t.seen.contains(path[0] as int),
            0 <= i < path.len(),
        ensures
            t.seen.contains(path[i] as int),
        decreases i,
    {
        if i > 0 {
            self.path_is_seen(t, path, i - 1);
            let v = path[i - 1];
            let ids = self.links[v as int];
            assert(ids.contains(path[i - 1 + 1]));
            let j = choose|j: int| 0 <= j < ids.len() && ids[j] == path[i];
            assert(self.links[v as int][j] < self.links.len());
            if t.frontier.len() == 0 {
                assert(!t.frontier.contains(self.scored(v)));
                assert(t.seen.contains(self.links[v as int][j] as int));
            } else {
                let all = vstd::set_lib::set_int_range(0, self.links.len() as int);
                vstd::set_lib::lemma_int_range(0, self.links.len() as int);
                assert(t.seen.subset_of(all));
                vstd::set_lib::lemma_len_subset(t.seen, all);
                vstd::set_lib::lemma_subset_equality(t.seen, all);
            }
        }
    }
}

impl Rules {
    /// Whoever is no longer on the frontier, but for `from`, has been expanded.
    spec fn expands_all_but(self, s: Beam, from: int) -> bool {
        forall|v: u32, j: int|
            v != from && s.seen.contains(v as int) && !s.frontier.contains(self.scored(v)) && 0 <= j
                < self.links[v as int].len() ==> s.seen.contains(
                #[trigger] self.links[v as int][j] as int,
            )
    }

    /// There are as many results as nodes met, unless there are as many as are kept; and till
    /// then nothing was overlooked.
    spec fn filled_but(self, s: Beam, from: int) -> bool {
        &&& s.best.len() < self.cap ==> s.best.len() == s.seen.len() && self.expands_all_but(
            s,
            from,
        )
        &&& s.best.len() <= s.seen.len()
    }

    proof fn met_is_filled(self, s: Beam, id: u32, from: int)
        requires
            self.sound(s),
            id < self.links.len(),
            self.blocked == open_gate(),
            self.filled_but(s, from),
        ensures
            self.filled_but(self.met(s, id), from),
    {
        let t = self.met(s, id);
        if !s.seen.contains(id as int) {
            let x = self.scored(id);
            let best = s.best.push(x);
            let frontier = s.frontier.push(x);
            ranking::ranked_properties(best);
            ranking::ranked_properties(frontier);
            if t.best.len() < self.cap {
                assert(s.best.len() < self.cap);
                assert(frontier[frontier.len() - 1] == x);
                assert forall|v: u32, j: int|
                    v != from && t.seen.contains(v as int) && !t.frontier.contains(self.scored(v))
                        && 0 <= j < self.links[v as int].len() implies t.seen.contains(
                    #[trigger] self.links[v as int][j] as int,
                ) by {
                    assert(!frontier.contains(self.scored(v)));
                    if s.frontier.contains(self.scored(v)) {
                        let at = choose|at: int|
                            0 <= at < s.frontier.len() && s.frontier[at] == self.scored(v);
                        assert(frontier[at] == self.scored(v));
                    }
                    assert(v != id);
                    assert(s.seen.contains(v as int));
                }
            }
        }
    }

    proof fn met_all_is_filled(self, s: Beam, ids: Seq<u32>, from: int)
        requires
            self.sound(s),
            self.cap > 0,
            forall|i: int| 0 <= i < ids.len() ==> #[trigger] ids[i] < self.links.len(),
            self.blocked == open_gate(),
            self.filled_but(s, from),
        ensures
            self.filled_but(self.met_all(s, ids), from),
        decreases ids.len(),
    {
        if ids.len() > 0 {
            let front = ids.drop_last();
            self.met_all_is_filled(s, front, from);
            self.met_all_is_sound(s, front);
            self.met_is_filled(self.met_all(s, front), ids.last(), from);
        }
    }

    proof fn run_is_filled(self, s: Beam, steps: nat)
        requires
            self.sound(s),
            self.cap > 0,
            closed_graph(self.links),
            self.blocked == open_gate(),
            self.filled_but(s, -1),
        ensures
            self.filled_but(self.run(s, steps), -1),
            s.seen.subset_of(self.run(s, steps).seen),
        decreases steps,
    {
        if steps > 0 && !self.finished(s) {
            let x = s.frontier[0];
            let from = x.id;
            let ids = self.links[from as int];
            let p = self.popped(s);
            let t = self.expanded(s);
            self.popped_is_sound(s);
            assert(self.known(s, x));
            if p.best.len() < self.cap {
                assert forall|v: u32, j: int|
                    v != from && p.seen.contains(v as int) && !p.frontier.contains(self.scored(v))
                        && 0 <= j < self.links[v as int].len() implies p.seen.contains(
                    #[trigger] self.links[v as int][j] as int,
                ) by {
                    if s.frontier.contains(self.scored(v)) {
                        let at = choose|at: int|
                            0 <= at < s.frontier.len() && s.frontier[at] == self.scored(v);
                        assert(at != 0);
                        assert(p.frontier[at - 1] == self.scored(v));
                    }
                }
            }
            self.met_all_is_filled(p, ids, from as int);
            self.met_all_is_sound(p, ids);
            if t.best.len() < self.cap {
                assert forall|v: u32, j: int|
                    v != -1 && t.seen.contains(v as int) && !t.frontier.contains(self.scored(v))
                        && 0 <= j < self.links[v as int].len() implies t.seen.contains(
                    #[trigger] self.links[v as int][j] as int,
                ) by {
                    if v == from {
                        assert(ids[j] == self.links[v as int][j]);
                    }
                }
            }
            self.expanded_is_sound(s);
            self.run_is_filled(t, (steps - 1) as nat);
        }
    }

    proof fn start_is_filled(self, entries: Seq<u32>)
        requires
            self.cap > 0,
            entries.no_duplicates(),
            forall|i: int| 0 <= i < entries.len() ==> #[trigger] entries[i] < self.links.len(),
        ensures
            self.filled_but(self.start(entries), -1),
            forall|v: u32| #[trigger]
                self.start(entries).seen.contains(v as int) ==> self.start(
                    entries,
                ).frontier.contains(self.scored(v)),
        decreases entries.len(),
    {
        if entries.len() > 0 {
            let front = entries.drop_last();
            assert(front.no_duplicates());
            self.start_is_filled(front);
            self.start_is_sound(front);
            let s = self.start(front);
            let id = entries.last();
            let t = self.start(entries);
            assert(!s.seen.contains(id as int));
            let x = self.scored(id);
            let best = s.best.push(x);
            let frontier = s.frontier.push(x);
            ranking::ranked_properties(best);
            ranking::ranked_properties(frontier);
            assert(frontier[frontier.len() - 1] == x);
            assert forall|v: u32| #[trigger] t.seen.contains(v as int) implies t.frontier.contains(
                self.scored(v),
            ) by {
                if s.seen.contains(v as int) {
                    let at = choose|at: int|
                        0 <= at < s.frontier.len() && s.frontier[at] == self.scored(v);
                    assert(frontier[at] == self.scored(v));
                }
                assert(frontier.contains(self.scored(v)));
            }
        }
    }

    proof fn path_is_met(self, t: Beam, path: Seq<u32>, i: int)
        requires
            closed_graph(self.links),
            self.expands_all_but(t, -1),
            t.frontier.len() == 0,
            is_path(self.links, path),
            t.seen.contains(path[0] as int),
            0 <= i < path.len(),
        ensures
            t.seen.contains(path[i] as int),
        decreases i,
    {
        if i > 0 {
            self.path_is_met(t, path, i - 1);
            let v = path[i - 1];
            let ids = self.links[v as int];
            assert(ids.contains(path[i - 1 + 1]));
            let j = choose|j: int| 0 <= j < ids.len() && ids[j] == path[i];
            assert(!t.frontier.contains(self.scored(v)));
            assert(t.seen.contains(self.links[v as int][j] as int));
        }
    }

    /// A search that passes no node over finds as many nodes as can be reached, or as many as
    /// are kept where that is fewer.
    pub proof fn result_count(self, entries: Seq<u32>)
        requires
            self.cap > 0,
            self.links.len() <= u32::MAX,
            closed_graph(self.links),
            self.blocked == open_gate(),
            entries.no_duplicates(),
            forall|i: int| 0 <= i < entries.len() ==> #[trigger] entries[i] < self.links.len(),
        ensures
            self.outcome(entries).best.len() == (if self.cap < reached(self.links, entries).len() {
                self.cap
            } else {
                reached(self.links, entries).len()
            }),
    {
        let s = self.start(entries);
        let t = self.outcome(entries);
        let all = reached(self.links, entries);
        self.start_is_sound(entries);
        self.start_is_filled(entries);
        self.run_is_filled(s, self.links.len());
        self.run_is_sound(s, self.links.len());
        self.start_is_traced(entries);
        self.run_is_traced(s, self.links.len(), entries);
        reached_fits(self.links, entries);
        assert forall|v: int| #[trigger] t.seen.contains(v) implies all.contains(v) by {
            assert(t.seen.contains((v as u32) as int));
        }
        assert(t.seen.subset_of(all));
        vstd::set_lib::lemma_len_subset(t.seen, all);
        if t.best.len() < self.cap {
            assert(t.frontier.len() == 0);
            assert forall|v: int| #[trigger] all.contains(v) implies t.seen.contains(v) by {
                let path = choose|path: Seq<u32>| #[trigger]
                    is_path(self.links, path) && entries.contains(path[0]) && path.last()
                        == v as u32;
                let i = choose|i: int| 0 <= i < entries.len() && entries[i] == path[0];
                assert(s.seen.contains(path[0] as int));
                self.path_is_met(t, path, path.len() - 1);
            }
            assert(all =~= t.seen);
        }
    }
}

impl Rules {
    /// Distances are numbers that are not negative.
    pub open spec fn plain(self) -> bool {
        forall|v: int| 0 <= v < self.links.len() ==> #[trigger] (self.dist)(v)
            <= float_order::INFINITY
    }

    /// A node is a result, or there are as many results as are kept and none is farther.
    pub open spec fn is_covered(self, best: Seq<Scored>, v: u32) -> bool {
        best.contains(self.scored(v)) || (best.len() == self.cap && forall|i: int|
            0 <= i < best.len() ==> (#[trigger] best[i]).bits <= (self.dist)(v as int))
    }

    /// All that was met is covered, and results that are no longer on the frontier, but for
    /// `from`, have been expanded.
    spec fn covers_but(self, s: Beam, from: int) -> bool {
        &&& forall|v: u32| #[trigger] s.seen.contains(v as int) ==> self.is_covered(s.best, v)
        &&& forall|v: u32, j: int|
            v != from && s.best.contains(self.scored(v)) && !s.frontier.contains(self.scored(v))
                && 0 <= j < self.links[v as int].len() ==> s.seen.contains(
                #[trigger] self.links[v as int][j] as int,
            )
    }

    proof fn kept_covers(self, s: Beam, id: u32)
        requires
            self.sound(s),
            self.plain(),
            self.cap > 0,
            id < self.links.len(),
            !s.seen.contains(id as int),
        ensures
            ({
                let best = self.kept(s.best, self.scored(id));
                &&& self.is_covered(best, id)
                &&& forall|v: u32| #[trigger]
                    s.seen.contains(v as int) && self.is_covered(s.best, v) ==> self.is_covered(
                        best,
                        v,
                    )
                &&& forall|y: Scored| #[trigger]
                    best.contains(y) ==> s.best.contains(y) || y == self.scored(id)
            }),
    {
        let x = self.scored(id);
        let grown = s.best.push(x);
        let all = ranking::ranked(grown);
        let best = self.kept(s.best, x);
        ranking::ranked_properties(grown);
        self.push_is_sound(s, s.best, id);
        assert forall|y: Scored| grown.contains(y) implies s.best.contains(y) || y == x by {
            let i = choose|i: int| 0 <= i < grown.len() && grown[i] == y;
            if i < s.best.len() {
                assert(s.best[i] == y);
            }
        }
        assert forall|y: Scored| #[trigger] best.contains(y) implies s.best.contains(y) || y == x by {
            let i = choose|i: int| 0 <= i < best.len() && best[i] == y;
            assert(all[i] == y);
            assert(all.contains(y));
        }
        assert forall|y: Scored| s.best.contains(y) || y == x implies grown.contains(y) by {
            if y == x {
                assert(grown[s.best.len() as int] == x);
            } else {
                let i = choose|i: int| 0 <= i < s.best.len() && s.best[i] == y;
                assert(grown[i] == y);
            }
        }
        assert((self.dist)(id as int) <= float_order::INFINITY);
        assert forall|i: int| 0 <= i < s.best.len() implies (#[trigger] s.best[i]).bits
            <= float_order::INFINITY by {
            assert(self.known(s, s.best[i]));
            assert((self.dist)(s.best[i].id as int) <= float_order::INFINITY);
        }
        assert forall|y: Scored|
            (s.best.contains(y) || y == x) && y.id < self.links.len() && y.bits == (self.dist)(
                y.id as int,
            ) implies #[trigger] best.contains(y) || (best.len() == self.cap && forall|i: int|
            0 <= i < best.len() ==> (#[trigger] best[i]).bits <= y.bits) by {
            assert(grown.contains(y));
            assert(all.contains(y));
            assert(y.bits <= float_order::INFINITY);
            let at = choose|at: int| 0 <= at < all.len() && all[at] == y;
            if at < best.len() {
                assert(best[at] == y);
            } else {
                assert forall|i: int| 0 <= i < best.len() implies (#[trigger] best[i]).bits
                    <= y.bits by {
                    assert(best[i] == all[i]);
                    assert(all[i].leads(all[at]));
                    assert(best.contains(best[i]));
                    if best[i] != x {
                        assert(s.best.contains(best[i]));
                        let a = choose|a: int| 0 <= a < s.best.len() && s.best[a] == best[i];
                        assert(s.best[a].bits <= float_order::INFINITY);
                    }
                }
            }
        }
        assert(self.is_covered(best, id)) by {
            assert(best.contains(x) || best.len() == self.cap);
        }
        assert forall|v: u32| #[trigger]
            s.seen.contains(v as int) && self.is_covered(s.best, v) implies self.is_covered(
            best,
            v,
        ) by {
            let y = self.scored(v);
            assert((self.dist)(v as int) <= float_order::INFINITY);
            if s.best.contains(y) {
                assert(best.contains(y) || best.len() == self.cap);
            } else {
                assert(self.is_covered(s.best, v));
                let last = all[all.len() - 1];
                assert forall|i: int| 0 <= i < best.len() implies (#[trigger] best[i]).bits
                    <= y.bits by {
                    assert(best.contains(best[i]));
                    if best[i] != x {
                        let a = choose|a: int| 0 <= a < s.best.len() && s.best[a] == best[i];
                        assert(s.best[a].bits <= y.bits);
                    } else {
                        assert(all[i] == x && i < all.len() - 1);
                        assert(all[i].leads(last));
                        assert(all[i].id != last.id);
                        assert(all.contains(last));
                        let a = choose|a: int| 0 <= a < s.best.len() && s.best[a] == last;
                        assert(s.best[a].bits <= y.bits);
                    }
                }
            }
        }
    }

    proof fn met_covers(self, s: Beam, id: u32, from: int)
        requires
            self.sound(s),
            self.plain(),
            self.cap > 0,
            id < self.links.len(),
            self.blocked == open_gate(),
            self.covers_but(s, from),
        ensures
            self.covers_but(self.met(s, id), from),
    {
        let t = self.met(s, id);
        if !s.seen.contains(id as int) {
            let x = self.scored(id);
            let frontier = s.frontier.push(x);
            ranking::ranked_properties(frontier);
            assert(frontier[s.frontier.len() as int] == x);
            if self.enters(s.best, x.bits) {
                self.kept_covers(s, id);
            } else {
                assert((self.dist)(id as int) <= float_order::INFINITY);
                assert forall|i: int| 0 <= i < s.best.len() implies (#[trigger] s.best[i]).bits
                    <= x.bits by {
                    let last = s.best[s.best.len() - 1];
                    assert(self.known(s, s.best[i]) && self.known(s, last));
                    assert((self.dist)(s.best[i].id as int) <= float_order::INFINITY);
                    assert((self.dist)(last.id as int) <= float_order::INFINITY);
                    if i < s.best.len() - 1 {
                        assert(s.best[i].leads(last));
                    }
                }
            }
            assert forall|v: u32| #[trigger] t.seen.contains(v as int) implies self.is_covered(
                t.best,
                v,
            ) by {
                if v != id {
                    assert(s.seen.contains(v as int));
                }
            }
            assert forall|v: u32, j: int|
                v != from && t.best.contains(self.scored(v)) && !t.frontier.contains(self.scored(v))
                    && 0 <= j < self.links[v as int].len() implies t.seen.contains(
                #[trigger] self.links[v as int][j] as int,
            ) by {
                let y = self.scored(v);
                if s.frontier.contains(y) {
                    let at = choose|at: int| 0 <= at < s.frontier.len() && s.frontier[at] == y;
                    assert(frontier[at] == y);
                    assert(frontier.contains(y));
                }
                if v == id {
                    assert(frontier.contains(x));
                    assert(!s.best.contains(x)) by {
                        if s.best.contains(x) {
                            let a = choose|a: int| 0 <= a < s.best.len() && s.best[a] == x;
                            assert(self.known(s, s.best[a]));
                        }
                    }
                }
                assert(s.best.contains(y));
                assert(s.seen.contains(self.links[v as int][j] as int));
            }
        }
    }

    proof fn met_all_covers(self, s: Beam, ids: Seq<u32>, from: int)
        requires
            self.sound(s),
            self.plain(),
            self.cap > 0,
            forall|i: int| 0 <= i < ids.len() ==> #[trigger] ids[i] < self.links.len(),
            self.blocked == open_gate(),
            self.covers_but(s, from),
        ensures
            self.covers_but(self.met_all(s, ids), from),
        decreases ids.len(),
    {
        if ids.len() > 0 {
            let front = ids.drop_last();
            self.met_all_covers(s, front, from);
            self.met_all_is_sound(s, front);
            self.met_covers(self.met_all(s, front), ids.last(), from);
        }
    }

    proof fn run_covers(self, s: Beam, steps: nat)
        requires
            self.sound(s),
            self.plain(),
            self.cap > 0,
            closed_graph(self.links),
            self.blocked == open_gate(),
            self.covers_but(s, -1),
        ensures
            self.covers_but(self.run(s, steps), -1),
            s.seen.subset_of(self.run(s, steps).seen),
        decreases steps,
    {
        if steps > 0 && !self.finished(s) {
            let x = s.frontier[0];
            let from = x.id;
            let ids = self.links[from as int];
            let p = self.popped(s);
            let t = self.expanded(s);
            self.popped_is_sound(s);
            assert(self.known(s, x));
            assert forall|v: u32, j: int|
                v != from && p.best.contains(self.scored(v)) && !p.frontier.contains(self.scored(v))
                    && 0 <= j < self.links[v as int].len() implies p.seen.contains(
                #[trigger] self.links[v as int][j] as int,
            ) by {
                if s.frontier.contains(self.scored(v)) {
                    let at = choose|at: int|
                        0 <= at < s.frontier.len() && s.frontier[at] == self.scored(v);
                    assert(at != 0);
                    assert(p.frontier[at - 1] == self.scored(v));
                }
            }
            assert forall|v: u32| #[trigger] p.seen.contains(v as int) implies self.is_covered(
                p.best,
                v,
            ) by {
                assert(s.seen.contains(v as int));
            }
            self.met_all_covers(p, ids, from as int);
            self.met_all_is_sound(p, ids);
            assert forall|v: u32, j: int|
                v != -1 && t.best.contains(self.scored(v)) && !t.frontier.contains(self.scored(v))
                    && 0 <= j < self.links[v as int].len() implies t.seen.contains(
                #[trigger] self.links[v as int][j] as int,
            ) by {
                if v == from {
                    assert(ids[j] == self.links[v as int][j]);
                }
            }
            self.expanded_is_sound(s);
            self.run_covers(t, (steps - 1) as nat);
        }
    }

    proof fn start_covers(self, entries: Seq<u32>)
        requires
            self.cap > 0,
            self.plain(),
            entries.no_duplicates(),
            forall|i: int| 0 <= i < entries.len() ==> #[trigger] entries[i] < self.links.len(),
        ensures
            self.covers_but(self.start(entries), -1),
        decreases entries.len(),
    {
        self.start_is_filled(entries);
        self.start_is_sound(entries);
        if entries.len() > 0 {
            let front = entries.drop_last();
            assert(front.no_duplicates());
            self.start_covers(front);
            self.start_is_sound(front);
            let s = self.start(front);
            let id = entries.last();
            assert(!s.seen.contains(id as int));
            self.kept_covers(s, id);
            let t = self.start(entries);
            assert forall|v: u32| #[trigger] t.seen.contains(v as int) implies self.is_covered(
                t.best,
                v,
            ) by {
                if v != id {
                    assert(s.seen.contains(v as int));
                }
            }
        }
        let t = self.start(entries);
        assert forall|v: u32, j: int|
            v != -1 && t.best.contains(self.scored(v)) && !t.frontier.contains(self.scored(v)) && 0
                <= j < self.links[v as int].len() implies t.seen.contains(
            #[trigger] self.links[v as int][j] as int,
        ) by {
            let a = choose|a: int| 0 <= a < t.best.len() && t.best[a] == self.scored(v);
            assert(self.known(t, t.best[a]));
            assert(t.seen.contains(v as int));
        }
    }

    /// A search that passes no node over leaves nothing better within reach: every entry, and
    /// every neighbour of a result, is a result itself, or there are as many results as are
    /// kept and none of them is farther.
    pub proof fn no_better_neighbour(self, entries: Seq<u32>, v: u32)
        requires
            self.cap > 0,
            self.plain(),
            closed_graph(self.links),
            self.blocked == open_gate(),
            entries.no_duplicates(),
            forall|i: int| 0 <= i < entries.len() ==> #[trigger] entries[i] < self.links.len(),
            entries.contains(v) || exists|i: int|
                0 <= i < self.outcome(entries).best.len() && self.links[(#[trigger] self.outcome(
                    entries,
                ).best[i]).id as int].contains(v),
        ensures
            self.is_covered(self.outcome(entries).best, v),
    {
        let s = self.start(entries);
        let t = self.outcome(entries);
        self.start_is_sound(entries);
        self.start_covers(entries);
        self.run_covers(s, self.links.len());
        self.run_is_sound(s, self.links.len());
        if entries.contains(v) {
            let i = choose|i: int| 0 <= i < entries.len() && entries[i] == v;
            assert(s.seen.contains(v as int));
        } else {
            let i = choose|i: int|
                0 <= i < t.best.len() && self.links[(#[trigger] t.best[i]).id as int].contains(v);
            let x = t.best[i];
            assert(self.known(t, x));
            assert(t.best.contains(self.scored(x.id)));
            let list = self.links[x.id as int];
            let j = choose|j: int| 0 <= j < list.len() && list[j] == v;
            assert(!t.frontier.contains(x)) by {
                if t.frontier.contains(x) {
                    let a = choose|a: int| 0 <= a < t.frontier.len() && t.frontier[a] == x;
                    let last = t.best[t.best.len() - 1];
                    assert(self.known(t, last) && self.known(t, t.frontier[0]));
                    assert((self.dist)(x.id as int) <= float_order::INFINITY);
                    assert((self.dist)(last.id as int) <= float_order::INFINITY);
                    assert((self.dist)(t.frontier[0].id as int) <= float_order::INFINITY);
                    if a > 0 {
                        assert(t.frontier[0].leads(t.frontier[a]));
                    }
                    if i < t.best.len() - 1 {
                        assert(t.best[i].leads(last));
                    }
                }
            }
            assert(t.seen.contains(self.links[x.id as int][j] as int));
        }
    }
}

/// The last eight of a list, or all where there are fewer.
pub open spec fn last_eight(list: Seq<u32>) -> Seq<u32> {
    if list.len() > 8 {
        list.skip(list.len() - 8)
    } else {
        list
    }
}

/// The first node of a list that has `v` as a neighbour is number `i`.
pub open spec fn first_meets(links: Seq<Seq<u32>>, list: Seq<u32>, v: u32, i: int) -> bool {
    &&& 0 <= i < list.len()
    &&& links[list[i] as int].contains(v)
    &&& forall|j: int| 0 <= j < i ==> !links[(#[trigger] list[j]) as int].contains(v)
}

impl Rules {
    /// A node is let in by the nodes expanded: when it was met first it was not passed over,
    /// given the last eight expanded then.
    pub open spec fn lets_in(self, expanded: Seq<u32>, v: u32) -> bool {
        exists|i: int| #[trigger]
            first_meets(self.links, expanded, v, i) && !(self.blocked)(
                last_eight(expanded.take(i + 1)),
                v,
            )
    }

    /// An entry, or a node let in.
    pub open spec fn is_admitted(self, entries: Seq<u32>, expanded: Seq<u32>, v: u32) -> bool {
        entries.contains(v) || self.lets_in(expanded, v)
    }

    proof fn lets_in_stays(self, expanded: Seq<u32>, next: u32, v: u32)
        requires
            self.lets_in(expanded, v),
        ensures
            self.lets_in(expanded.push(next), v),
    {
        let i = choose|i: int| #[trigger]
            first_meets(self.links, expanded, v, i) && !(self.blocked)(
                last_eight(expanded.take(i + 1)),
                v,
            );
        let longer = expanded.push(next);
        assert(longer.take(i + 1) =~= expanded.take(i + 1));
        assert(longer[i] == expanded[i]);
        assert forall|j: int| 0 <= j < i implies !self.links[(#[trigger] longer[j]) as int].contains(
            v,
        ) by {
            assert(longer[j] == expanded[j]);
        }
        assert(first_meets(self.links, longer, v, i));
    }

    proof fn lets_in_before(self, expanded: Seq<u32>, next: u32, v: u32)
        requires
            self.lets_in(expanded.push(next), v),
        ensures
            self.lets_in(expanded, v) || (self.links[next as int].contains(v) && !(self.blocked)(
                last_eight(expanded.push(next)),
                v,
            ) && forall|j: int|
                0 <= j < expanded.len() ==> !self.links[(#[trigger] expanded[j]) as int].contains(
                    v,
                )),
    {
        let longer = expanded.push(next);
        let i = choose|i: int| #[trigger]
            first_meets(self.links, longer, v, i) && !(self.blocked)(
                last_eight(longer.take(i + 1)),
                v,
            );
        if i < expanded.len() {
            assert(longer.take(i + 1) =~= expanded.take(i + 1));
            assert(longer[i] == expanded[i]);
            assert forall|j: int| 0 <= j < i implies !self.links[(
            #[trigger] expanded[j]) as int].contains(v) by {
                assert(longer[j] == expanded[j]);
            }
            assert(first_meets(self.links, expanded, v, i));
        } else {
            assert(longer.take(i + 1) =~= longer);
            assert forall|j: int| 0 <= j < expanded.len() implies !self.links[(
            #[trigger] expanded[j]) as int].contains(v) by {
                assert(longer[j] == expanded[j]);
            }
        }
    }

    /// The state comes from these entries by these expansions.
    spec fn follows(self, s: Beam, entries: Seq<u32>, expanded: Seq<u32>) -> bool {
        &&& s.recent == last_eight(expanded)
        &&& forall|i: int| 0 <= i < s.best.len() ==> self.is_admitted(
            entries,
            expanded,
            (#[trigger] s.best[i]).id,
        )
        &&& forall|i: int| 0 <= i < s.frontier.len() ==> self.is_admitted(
            entries,
            expanded,
            (#[trigger] s.frontier[i]).id,
        )
        &&& forall|v: u32| #[trigger]
            s.seen.contains(v as int) && self.is_admitted(entries, expanded, v)
                ==> self.is_covered(s.best, v)
        &&& forall|i: int|
            0 <= i < s.best.len() ==> s.frontier.contains(#[trigger] s.best[i])
                || expanded.contains(s.best[i].id)
        &&& forall|i: int|
            0 <= i < entries.len() ==> s.seen.contains(#[trigger] entries[i] as int)
        &&& forall|i: int| 0 <= i < expanded.len() ==> #[trigger] expanded[i] < self.links.len()
    }

    /// Every neighbour of the first `n` expanded was met, and what was met is an entry or a
    /// neighbour of one expanded.
    spec fn sees(self, s: Beam, entries: Seq<u32>, expanded: Seq<u32>, n: int) -> bool {
        &&& forall|i: int, v: u32|
            0 <= i < n && #[trigger] self.links[expanded[i] as int].contains(v) ==> s.seen.contains(
                v as int,
            )
        &&& forall|v: u32| #[trigger]
            s.seen.contains(v as int) ==> entries.contains(v) || exists|i: int|
                0 <= i < expanded.len() && self.links[(#[trigger] expanded[i]) as int].contains(v)
    }

    proof fn met_follows(self, s: Beam, entries: Seq<u32>, before: Seq<u32>, from: u32, id: u32)
        requires
            self.sound(s),
            self.plain(),
            self.cap > 0,
            id < self.links.len(),
            self.links[from as int].contains(id),
            self.follows(s, entries, before.push(from)),
            self.sees(s, entries, before.push(from), before.len() as int),
        ensures
            self.follows(self.met(s, id), entries, before.push(from)),
            self.sees(self.met(s, id), entries, before.push(from), before.len() as int),
    {
        let expanded = before.push(from);
        let t = self.met(s, id);
        let last = before.len() as int;
        self.met_is_sound(s, id);
        assert(expanded[last] == from);
        assert forall|v: u32| #[trigger] t.seen.contains(v as int) implies entries.contains(v)
            || exists|i: int|
            0 <= i < expanded.len() && self.links[(#[trigger] expanded[i]) as int].contains(v) by {
            if v == id {
                assert(self.links[expanded[last] as int].contains(v));
            } else {
                assert(s.seen.contains(v as int));
            }
        }
        if !s.seen.contains(id as int) {
            let x = self.scored(id);
            let frontier = s.frontier.push(x);
            ranking::ranked_properties(frontier);
            assert(frontier[s.frontier.len() as int] == x);
            assert(!entries.contains(id)) by {
                if entries.contains(id) {
                    let a = choose|a: int| 0 <= a < entries.len() && entries[a] == id;
                    assert(s.seen.contains(entries[a] as int));
                }
            }
            assert forall|j: int| 0 <= j < last implies !self.links[(
            #[trigger] expanded[j]) as int].contains(id) by {
                if self.links[expanded[j] as int].contains(id) {
                    assert(s.seen.contains(id as int));
                }
            }
            assert(first_meets(self.links, expanded, id, last));
            assert(expanded.take(last + 1) =~= expanded);
            assert(self.lets_in(expanded, id) <==> !(self.blocked)(s.recent, id)) by {
                if self.lets_in(expanded, id) {
                    let i = choose|i: int| #[trigger]
                        first_meets(self.links, expanded, id, i) && !(self.blocked)(
                            last_eight(expanded.take(i + 1)),
                            id,
                        );
                    assert(i == last);
                }
            }
            if !(self.blocked)(s.recent, id) {
                if self.enters(s.best, x.bits) {
                    self.kept_covers(s, id);
                } else {
                    assert((self.dist)(id as int) <= float_order::INFINITY);
                    assert forall|i: int| 0 <= i < s.best.len() implies (#[trigger] s.best[i]).bits
                        <= x.bits by {
                        let end = s.best[s.best.len() - 1];
                        assert(self.known(s, s.best[i]) && self.known(s, end));
                        assert((self.dist)(s.best[i].id as int) <= float_order::INFINITY);
                        assert((self.dist)(end.id as int) <= float_order::INFINITY);
                        if i < s.best.len() - 1 {
                            assert(s.best[i].leads(end));
                        }
                    }
                }
            }
            assert forall|i: int| 0 <= i < t.best.len() implies self.is_admitted(
                entries,
                expanded,
                (#[trigger] t.best[i]).id,
            ) && (t.frontier.contains(t.best[i]) || expanded.contains(t.best[i].id)) by {
                let y = t.best[i];
                assert(t.best.contains(y));
                if !s.best.contains(y) {
                    assert(y == x);
                    assert(frontier.contains(x));
                } else {
                    let a = choose|a: int| 0 <= a < s.best.len() && s.best[a] == y;
                    assert(self.is_admitted(entries, expanded, s.best[a].id));
                    if s.frontier.contains(y) {
                        let b = choose|b: int| 0 <= b < s.frontier.len() && s.frontier[b] == y;
                        assert(frontier[b] == y);
                        assert(frontier.contains(y));
                    }
                }
            }
            assert forall|i: int| 0 <= i < t.frontier.len() implies self.is_admitted(
                entries,
                expanded,
                (#[trigger] t.frontier[i]).id,
            ) by {
                let y = t.frontier[i];
                assert(t.frontier.contains(y));
                if t.frontier == s.frontier {
                    assert(s.frontier[i] == y);
                } else {
                    assert(frontier.contains(y));
                    let b = choose|b: int| 0 <= b < frontier.len() && frontier[b] == y;
                    if b < s.frontier.len() {
                        assert(s.frontier[b] == y);
                    }
                }
            }
            assert forall|v: u32| #[trigger]
                t.seen.contains(v as int) && self.is_admitted(
                    entries,
                    expanded,
                    v,
                ) implies self.is_covered(t.best, v) by {
                if v != id {
                    assert(s.seen.contains(v as int));
                }
            }
        }
    }

    proof fn met_all_follows(
        self,
        s: Beam,
        entries: Seq<u32>,
        before: Seq<u32>,
        from: u32,
        ids: Seq<u32>,
    )
        requires
            self.sound(s),
            self.plain(),
            self.cap > 0,
            forall|i: int|
                0 <= i < ids.len() ==> #[trigger] ids[i] < self.links.len()
                    && self.links[from as int].contains(ids[i]),
            self.follows(s, entries, before.push(from)),
            self.sees(s, entries, before.push(from), before.len() as int),
        ensures
            self.follows(self.met_all(s, ids), entries, before.push(from)),
            self.sees(self.met_all(s, ids), entries, before.push(from), before.len() as int),
        decreases ids.len(),
    {
        if ids.len() > 0 {
            let front = ids.drop_last();
            self.met_all_follows(s, entries, before, from, front);
            self.met_all_is_sound(s, front);
            assert(ids[ids.len() - 1] == ids.last());
            self.met_follows(self.met_all(s, front), entries, before, from, ids.last());
        }
    }

    proof fn run_follows(self, s: Beam, steps: nat, entries: Seq<u32>, before: Seq<u32>) -> (expanded:
        Seq<u32>)
        requires
            self.sound(s),
            self.plain(),
            self.cap > 0,
            closed_graph(self.links),
            self.follows(s, entries, before),
            self.sees(s, entries, before, before.len() as int),
        ensures
            self.follows(self.run(s, steps), entries, expanded),
            self.sees(self.run(s, steps), entries, expanded, expanded.len() as int),
        decreases steps,
    {
        if steps > 0 && !self.finished(s) {
            let x = s.frontier[0];
            let from = x.id;
            let ids = self.links[from as int];
            let p = self.popped(s);
            let t = self.expanded(s);
            let longer = before.push(from);
            self.popped_is_sound(s);
            assert(self.known(s, x));
            assert(longer[before.len() as int] == from);
            assert(p.recent =~= last_eight(longer));
            assert forall|i: int| 0 <= i < ids.len() implies #[trigger] ids[i] < self.links.len()
                && self.links[from as int].contains(ids[i]) by {
                assert(self.links[from as int][i] < self.links.len());
            }
            assert forall|v: u32| self.is_admitted(entries, before, v) implies #[trigger] self.is_admitted(
                entries,
                longer,
                v,
            ) by {
                if !entries.contains(v) {
                    self.lets_in_stays(before, from, v);
                }
            }
            assert forall|v: u32| #[trigger]
                p.seen.contains(v as int) && self.is_admitted(
                    entries,
                    longer,
                    v,
                ) implies self.is_covered(p.best, v) by {
                if !entries.contains(v) {
                    self.lets_in_before(before, from, v);
                    if !self.lets_in(before, v) {
                        assert(s.seen.contains(v as int));
                        let j = choose|j: int|
                            0 <= j < before.len() && self.links[(
                            #[trigger] before[j]) as int].contains(v);
                        assert(0 <= j < before.len());
                    }
                }
                assert(s.seen.contains(v as int) && self.is_admitted(entries, before, v));
            }
            assert forall|i: int| 0 <= i < p.best.len() implies p.frontier.contains(
                #[trigger] p.best[i],
            ) || longer.contains(p.best[i].id) by {
                let y = p.best[i];
                assert(s.best[i] == y);
                if before.contains(y.id) {
                    let a = choose|a: int| 0 <= a < before.len() && before[a] == y.id;
                    assert(longer[a] == y.id);
                } else {
                    let a = choose|a: int| 0 <= a < s.frontier.len() && s.frontier[a] == y;
                    if a == 0 {
                        assert(longer[before.len() as int] == y.id);
                    } else {
                        assert(p.frontier[a - 1] == y);
                    }
                }
            }
            assert forall|i: int| 0 <= i < p.frontier.len() implies self.is_admitted(
                entries,
                longer,
                (#[trigger] p.frontier[i]).id,
            ) by {
                assert(p.frontier[i] == s.frontier[i + 1]);
                assert(self.is_admitted(entries, before, s.frontier[i + 1].id));
            }
            assert forall|i: int| 0 <= i < p.best.len() implies self.is_admitted(
                entries,
                longer,
                (#[trigger] p.best[i]).id,
            ) by {
                assert(self.is_admitted(entries, before, s.best[i].id));
            }
            assert forall|i: int, v: u32|
                0 <= i < before.len() && #[trigger] self.links[longer[i] as int].contains(
                    v,
                ) implies p.seen.contains(v as int) by {
                assert(longer[i] == before[i]);
                assert(self.links[before[i] as int].contains(v));
            }
            assert forall|v: u32| #[trigger] p.seen.contains(v as int) implies entries.contains(v)
                || exists|i: int|
                0 <= i < longer.len() && self.links[(#[trigger] longer[i]) as int].contains(v) by {
                assert(s.seen.contains(v as int));
                if !entries.contains(v) {
                    let j = choose|j: int|
                        0 <= j < before.len() && self.links[(#[trigger] before[j]) as int].contains(
                            v,
                        );
                    assert(longer[j] == before[j]);
                }
            }
            assert forall|i: int| 0 <= i < longer.len() implies #[trigger] longer[i]
                < self.links.len() by {
                if i < before.len() {
                    assert(longer[i] == before[i]);
                }
            }
            self.met_all_follows(p, entries, before, from, ids);
            self.met_all_is_sound(p, ids);
            assert forall|i: int, v: u32|
                0 <= i < longer.len() && #[trigger] self.links[longer[i] as int].contains(
                    v,
                ) implies t.seen.contains(v as int) by {
                if i == before.len() {
                    let a = choose|a: int| 0 <= a < ids.len() && ids[a] == v;
                    assert(t.seen.contains(ids[a] as int));
                }
            }
            self.expanded_is_sound(s);
            self.run_follows(t, (steps - 1) as nat, entries, longer)
        } else {
            before
        }
    }

    /// What a search with a gate does: there is a list of nodes that it expanded, all results
    /// among them. A result is an entry or was let in when it was met first, and every entry
    /// and every node let in is a result, or there are as many results as are kept and none of
    /// them is farther.
    pub proof fn search_lets_in(self, entries: Seq<u32>) -> (expanded: Seq<u32>)
        requires
            self.cap > 0,
            self.plain(),
            closed_graph(self.links),
            entries.no_duplicates(),
            forall|i: int| 0 <= i < entries.len() ==> #[trigger] entries[i] < self.links.len(),
        ensures
            ({
                let best = self.outcome(entries).best;
                &&& forall|i: int| 0 <= i < expanded.len() ==> #[trigger] expanded[i]
                    < self.links.len()
                &&& forall|i: int|
                    0 <= i < best.len() ==> expanded.contains((#[trigger] best[i]).id)
                        && self.is_admitted(entries, expanded, best[i].id)
                &&& forall|v: u32| #[trigger]
                    self.is_admitted(entries, expanded, v) ==> self.is_covered(best, v)
            }),
    {
        let s = self.start(entries);
        let t = self.outcome(entries);
        let none = Seq::<u32>::empty();
        self.start_is_sound(entries);
        self.start_covers(entries);
        self.start_is_filled(entries);
        self.start_remembers(entries);
        assert forall|v: u32| #[trigger] s.seen.contains(v as int) implies entries.contains(v) by {
            let i = choose|i: int| 0 <= i < entries.len() && entries[i] as int == v as int;
            assert(entries[i] == v);
        }
        assert forall|i: int| 0 <= i < s.best.len() implies self.is_admitted(
            entries,
            none,
            (#[trigger] s.best[i]).id,
        ) && s.frontier.contains(s.best[i]) by {
            assert(self.known(s, s.best[i]));
        }
        assert forall|i: int| 0 <= i < s.frontier.len() implies self.is_admitted(
            entries,
            none,
            (#[trigger] s.frontier[i]).id,
        ) by {
            assert(self.known(s, s.frontier[i]));
        }
        assert(s.recent =~= last_eight(none));
        let expanded = self.run_follows(s, self.links.len(), entries, none);
        self.run_is_sound(s, self.links.len());
        assert forall|i: int| 0 <= i < t.best.len() implies expanded.contains(
            (#[trigger] t.best[i]).id,
        ) by {
            let x = t.best[i];
            if t.frontier.contains(x) {
                let a = choose|a: int| 0 <= a < t.frontier.len() && t.frontier[a] == x;
                let last = t.best[t.best.len() - 1];
                assert(self.known(t, x) && self.known(t, last) && self.known(t, t.frontier[0]));
                assert((self.dist)(x.id as int) <= float_order::INFINITY);
                assert((self.dist)(last.id as int) <= float_order::INFINITY);
                assert((self.dist)(t.frontier[0].id as int) <= float_order::INFINITY);
                if a > 0 {
                    assert(t.frontier[0].leads(t.frontier[a]));
                }
                if i < t.best.len() - 1 {
                    assert(t.best[i].leads(last));
                }
            }
        }
        assert forall|v: u32| #[trigger] self.is_admitted(
            entries,
            expanded,
            v,
        ) implies self.is_covered(t.best, v) by {
            if entries.contains(v) {
                let i = choose|i: int| 0 <= i < entries.len() && entries[i] == v;
                assert(t.seen.contains(entries[i] as int));
            } else {
                let i = choose|i: int| #[trigger]
                    first_meets(self.links, expanded, v, i) && !(self.blocked)(
                        last_eight(expanded.take(i + 1)),
                        v,
                    );
                assert(self.links[expanded[i] as int].contains(v));
            }
            assert(t.seen.contains(v as int));
        }
        expanded
    }

    proof fn start_remembers(self, entries: Seq<u32>)
        ensures
            self.start(entries).recent.len() == 0,
        decreases entries.len(),
    {
        if entries.len() > 0 {
            self.start_remembers(entries.drop_last());
        }
    }
}

impl Rules {
    /// All nodes with their distances.
    pub open spec fn nodes(self) -> Seq<Scored> {
        Seq::new(self.links.len(), |v: int| Scored { id: v as u32, bits: (self.dist)(v) })
    }

    /// `wide` differs only in that it keeps at least as many results; both expand every node
    /// met, and every distance is a number that is not negative.
    pub open spec fn widened(self, wide: Rules) -> bool {
        &&& wide.links == self.links
        &&& wide.dist == self.dist
        &&& wide.blocked == self.blocked
        &&& self.explore_all && wide.explore_all
        &&& self.strict && wide.strict
        &&& 0 < self.cap <= wide.cap
        &&& forall|v: int|
            0 <= v < self.links.len() ==> #[trigger] (self.dist)(v) <= float_order::INFINITY
    }

    /// A search and a wider one are at the same place: what they have to expand is the same,
    /// the results of the first are results of the second, and as far as its list reaches
    /// the distances are the same.
    pub open spec fn alongside(self, s: Beam, t: Beam) -> bool {
        &&& s.frontier == t.frontier
        &&& s.seen == t.seen
        &&& s.recent == t.recent
        &&& self.matches_front(s.best, t.best)
    }

    /// The results of a search and of a wider one.
    pub open spec fn matches_front(self, a: Seq<Scored>, b: Seq<Scored>) -> bool {
        &&& a.len() == (if self.cap < b.len() {
            self.cap
        } else {
            b.len()
        })
        &&& forall|i: int| 0 <= i < a.len() ==> (#[trigger] a[i]).bits == b[i].bits
        &&& forall|i: int| 0 <= i < a.len() ==> b.contains(#[trigger] a[i])
    }

    proof fn plain_bits(self, s: Beam)
        requires
            self.sound(s),
            forall|v: int|
                0 <= v < self.links.len() ==> #[trigger] (self.dist)(v) <= float_order::INFINITY,
        ensures
            forall|i: int|
                0 <= i < s.best.len() ==> (#[trigger] s.best[i]).bits <= float_order::INFINITY,
            forall|i: int|
                0 <= i < s.frontier.len() ==> (#[trigger] s.frontier[i]).bits
                    <= float_order::INFINITY,
    {
        assert forall|i: int| 0 <= i < s.best.len() implies (#[trigger] s.best[i]).bits
            <= float_order::INFINITY by {
            assert(self.known(s, s.best[i]));
            assert(s.seen.contains(s.best[i].id as int));
            assert((self.dist)(s.best[i].id as int) <= float_order::INFINITY);
        }
        assert forall|i: int| 0 <= i < s.frontier.len() implies (#[trigger] s.frontier[i]).bits
            <= float_order::INFINITY by {
            assert(self.known(s, s.frontier[i]));
            assert(s.seen.contains(s.frontier[i].id as int));
            assert((self.dist)(s.frontier[i].id as int) <= float_order::INFINITY);
        }
    }

    /// Keeping one more node in both lists leaves them alongside.
    proof fn kept_alongside(self, wide: Rules, s: Beam, t: Beam, x: Scored)
        requires
            self.widened(wide),
            self.sound(s),
            wide.sound(t),
            self.alongside(s, t),
            x.bits <= float_order::INFINITY,
            !s.seen.contains(x.id as int),
        ensures
            self.matches_front(self.kept(s.best, x), wide.kept(t.best, x)),
    {
        let p = ranking::ranked_push(s.best, x);
        let q = ranking::ranked_push(t.best, x);
        let grown_a = s.best.insert(p, x);
        let grown_b = t.best.insert(q, x);
        let a = self.kept(s.best, x);
        let b = wide.kept(t.best, x);
        self.plain_bits(s);
        wide.plain_bits(t);
        assert forall|i: int| 0 <= i < a.len() implies (#[trigger] a[i]).bits == b[i].bits by {
            if i < s.best.len() {
                assert(s.best[i].bits == t.best[i].bits);
            }
            if 0 < i {
                assert(s.best[i - 1].bits == t.best[i - 1].bits);
            }
            if 0 < i < s.best.len() {
                assert(s.best[i - 1].leads(s.best[i]));
                assert(t.best[i - 1].leads(t.best[i]));
            }
            assert(a[i] == grown_a[i]);
            assert(b[i] == grown_b[i]);
        }
        assert forall|i: int| 0 <= i < grown_a.len() implies grown_b.contains(
            #[trigger] grown_a[i],
        ) by {
            let y = grown_a[i];
            if i == p {
                assert(grown_b[q] == y);
            } else {
                let at = if i < p { i } else { i - 1 };
                assert(s.best[at] == y);
                let j = choose|j: int| 0 <= j < t.best.len() && t.best[j] == y;
                let k = if j < q { j } else { j + 1 };
                assert(grown_b[k] == y);
            }
        }
        assert(ranking::distinct_ids(s.best.push(x))) by {
            assert forall|i: int| 0 <= i < s.best.len() implies (#[trigger] s.best[i]).id != x.id by {
                assert(self.known(s, s.best[i]));
            }
        }
        ranking::ranked_properties(s.best.push(x));
        ranking::ranked_properties(t.best.push(x));
        assert forall|i: int| 0 <= i < a.len() implies b.contains(#[trigger] a[i]) by {
            let y = a[i];
            assert(grown_a[i] == y);
            assert(grown_b.contains(grown_a[i]));
            let k = choose|k: int| 0 <= k < grown_b.len() && grown_b[k] == y;
            if k < b.len() {
                assert(b[k] == y);
            } else {
                // `y` is the last of both grown lists, so the narrower one gave it up as well.
                let z = grown_a.last();
                assert(grown_b.contains(grown_a[grown_a.len() - 1]));
                let l = choose|l: int| 0 <= l < grown_b.len() && grown_b[l] == z;
                assert(y.leads(z));
                if l < k {
                    assert(grown_b[l].leads(grown_b[k]));
                }
                float_order::below_is_lower_rank(y.bits, z.bits);
                assert(y == z);
                assert(grown_a[i].id != grown_a[grown_a.len() - 1].id);
            }
        }
    }

    proof fn met_alongside(self, wide: Rules, s: Beam, t: Beam, id: u32)
        requires
            self.widened(wide),
            self.sound(s),
            wide.sound(t),
            self.alongside(s, t),
            id < self.links.len(),
        ensures
            self.alongside(self.met(s, id), wide.met(t, id)),
    {
        if !s.seen.contains(id as int) && !(self.blocked)(s.recent, id) {
            let x = self.scored(id);
            assert((self.dist)(id as int) <= float_order::INFINITY);
            self.plain_bits(s);
            wide.plain_bits(t);
            self.kept_alongside(wide, s, t, x);
            let in_a = self.enters(s.best, x.bits);
            let in_b = wide.enters(t.best, x.bits);
            if s.best.len() == self.cap {
                let last = s.best.len() - 1;
                assert(s.best[last].bits == t.best[last].bits);
                if last < t.best.len() - 1 {
                    assert(t.best[last].leads(t.best[t.best.len() - 1]));
                }
            }
            if in_a {
                assert(in_b);
            } else if in_b {
                self.outside_alongside(wide, s, t, x);
            }
        }
    }

    /// A node too far for the narrower list disturbs nothing of it in the wider one.
    proof fn outside_alongside(self, wide: Rules, s: Beam, t: Beam, x: Scored)
        requires
            self.widened(wide),
            self.sound(s),
            wide.sound(t),
            self.alongside(s, t),
            x.bits <= float_order::INFINITY,
            !self.enters(s.best, x.bits),
            wide.enters(t.best, x.bits),
        ensures
            self.matches_front(s.best, wide.kept(t.best, x)),
    {
        let q = ranking::ranked_push(t.best, x);
        let grown = t.best.insert(q, x);
        let b = wide.kept(t.best, x);
        let last = s.best.len() - 1;
        self.plain_bits(s);
        wide.plain_bits(t);
        assert(s.best.len() == self.cap);
        assert(s.best[last].bits <= x.bits);
        assert forall|i: int| 0 <= i < s.best.len() implies (#[trigger] s.best[i]).bits <= x.bits by {
            if i < last {
                assert(s.best[i].leads(s.best[last]));
            }
        }
        assert forall|i: int| 0 <= i < s.best.len() implies (#[trigger] s.best[i]).bits
            == b[i].bits by {
            assert(b[i] == grown[i]);
            assert(t.best[i].bits == s.best[i].bits);
            if i == q {
                assert(x.leads(t.best[i]));
            } else if i > q {
                assert(x.leads(t.best[i - 1]));
                assert(t.best[i - 1].leads(t.best[i]));
            }
        }
        assert forall|i: int| 0 <= i < s.best.len() implies b.contains(#[trigger] s.best[i]) by {
            self.near_stays(wide, t, x, s.best[i], q);
        }
    }

    /// A result that is not farther than a node which enters stays a result.
    proof fn near_stays(self, wide: Rules, t: Beam, x: Scored, y: Scored, q: int)
        requires
            self.widened(wide),
            wide.sound(t),
            t.best.contains(y),
            y.bits <= x.bits <= float_order::INFINITY,
            wide.enters(t.best, x.bits),
            0 <= q <= t.best.len(),
            ranking::ranked(t.best.push(x)) == t.best.insert(q, x),
        ensures
            wide.kept(t.best, x).contains(y),
    {
        wide.plain_bits(t);
        let grown = t.best.insert(q, x);
        let b = wide.kept(t.best, x);
        let j = choose|j: int| 0 <= j < t.best.len() && t.best[j] == y;
        let k = if j < q { j } else { j + 1 };
        assert(grown[k] == y);
        if k < b.len() {
            assert(b[k] == y);
        } else {
            // Only the last of a full list is given up, and that is farther than `x`.
            assert(j == t.best.len() - 1);
            assert(float_order::below(x.bits, t.best.last().bits));
        }
    }

    proof fn met_all_alongside(self, wide: Rules, s: Beam, t: Beam, ids: Seq<u32>)
        requires
            self.widened(wide),
            self.sound(s),
            wide.sound(t),
            self.alongside(s, t),
            forall|i: int| 0 <= i < ids.len() ==> #[trigger] ids[i] < self.links.len(),
        ensures
            self.alongside(self.met_all(s, ids), wide.met_all(t, ids)),
        decreases ids.len(),
    {
        if ids.len() > 0 {
            let front = ids.drop_last();
            self.met_all_alongside(wide, s, t, front);
            self.met_all_is_sound(s, front);
            wide.met_all_is_sound(t, front);
            self.met_alongside(wide, self.met_all(s, front), wide.met_all(t, front), ids.last());
        }
    }

    /// Whether a node is among the `k` nearest of all.
    pub open spec fn among_nearest(self, x: Scored, k: nat) -> bool {
        ranking::first_k(ranking::ranked(self.nodes()), k).contains(x)
    }

    proof fn nearest_is_not_cut(self, s: Beam, k: nat, x: Scored, list: Seq<Scored>)
        requires
            self.sound(s),
            self.links.len() <= u32::MAX,
            self.among_nearest(x, k),
            ranking::distinct_ids(list),
            forall|i: int|
                0 <= i < list.len() ==> self.known(s, #[trigger] list[i]) && list[i].leads(x)
                    && list[i] != x,
        ensures
            list.len() < k,
    {
        let all = self.nodes();
        assert forall|i: int| 0 <= i < list.len() implies all.contains(#[trigger] list[i])
            && list[i].leads(x) && list[i] != x by {
            assert(self.known(s, list[i]));
            assert(s.seen.contains(list[i].id as int));
            assert(all[list[i].id as int] == list[i]);
        }
        ranking::few_lead(all, k, x, list);
    }

    /// A result among the `k` nearest of all nodes stays a result.
    proof fn met_keeps_nearest(self, s: Beam, id: u32, k: nat, x: Scored)
        requires
            self.sound(s),
            self.links.len() <= u32::MAX,
            0 < k <= self.cap,
            id < self.links.len(),
            self.among_nearest(x, k),
            s.best.contains(x),
        ensures
            self.met(s, id).best.contains(x),
    {
        let t = self.met(s, id);
        if !t.best.contains(x) {
            self.met_is_sound(s, id);
            let grown = s.best.push(self.scored(id));
            let at = choose|at: int| 0 <= at < s.best.len() && s.best[at] == x;
            assert(grown[at] == x);
            ranking::first_k_are_best(grown, self.cap, x);
            assert forall|i: int| 0 <= i < t.best.len() implies self.known(t, #[trigger] t.best[i])
                && t.best[i].leads(x) && t.best[i] != x by {
                assert(t.best.contains(t.best[i]));
            }
            self.nearest_is_not_cut(t, k, x, t.best);
        }
    }

    proof fn met_all_keeps_nearest(self, s: Beam, ids: Seq<u32>, k: nat, x: Scored)
        requires
            self.sound(s),
            self.links.len() <= u32::MAX,
            0 < k <= self.cap,
            forall|i: int| 0 <= i < ids.len() ==> #[trigger] ids[i] < self.links.len(),
            self.among_nearest(x, k),
            s.best.contains(x),
        ensures
            self.met_all(s, ids).best.contains(x),
        decreases ids.len(),
    {
        if ids.len() > 0 {
            let front = ids.drop_last();
            self.met_all_keeps_nearest(s, front, k, x);
            self.met_all_is_sound(s, front);
            self.met_keeps_nearest(self.met_all(s, front), ids.last(), k, x);
        }
    }

    proof fn run_keeps_nearest(self, s: Beam, steps: nat, k: nat, x: Scored)
        requires
            self.sound(s),
            closed_graph(self.links),
            self.links.len() <= u32::MAX,
            0 < k <= self.cap,
            self.among_nearest(x, k),
            s.best.contains(x),
        ensures
            self.run(s, steps).best.contains(x),
        decreases steps,
    {
        if steps > 0 && !self.finished(s) {
            self.popped_is_sound(s);
            self.expanded_is_sound(s);
            self.met_all_keeps_nearest(
                self.popped(s),
                self.links[s.frontier[0].id as int],
                k,
                x,
            );
            self.run_keeps_nearest(self.expanded(s), (steps - 1) as nat, k, x);
        }
    }

    /// A wider search goes at least as far, and what it had alongside it keeps.
    proof fn wider_run_keeps_nearest(
        self,
        wide: Rules,
        s: Beam,
        t: Beam,
        steps: nat,
        k: nat,
        x: Scored,
    )
        requires
            self.widened(wide),
            self.sound(s),
            wide.sound(t),
            self.alongside(s, t),
            closed_graph(self.links),
            self.links.len() <= u32::MAX,
            0 < k <= self.cap,
            self.among_nearest(x, k),
            self.run(s, steps).best.contains(x),
        ensures
            wide.run(t, steps).best.contains(x),
        decreases steps,
    {
        if steps == 0 || self.finished(s) {
            let at = choose|at: int| 0 <= at < s.best.len() && s.best[at] == x;
            assert(t.best.contains(s.best[at]));
            wide.run_keeps_nearest(t, steps, k, x);
        } else {
            self.plain_bits(s);
            wide.plain_bits(t);
            if wide.finished(t) {
                let last = s.best.len() - 1;
                assert(s.best[last].bits == t.best[last].bits);
                if last < t.best.len() - 1 {
                    assert(t.best[last].leads(t.best[t.best.len() - 1]));
                }
                assert(self.finished(s));
            }
            let ids = self.links[s.frontier[0].id as int];
            self.popped_is_sound(s);
            wide.popped_is_sound(t);
            self.met_all_alongside(wide, self.popped(s), wide.popped(t), ids);
            self.expanded_is_sound(s);
            wide.expanded_is_sound(t);
            self.wider_run_keeps_nearest(
                wide,
                self.expanded(s),
                wide.expanded(t),
                (steps - 1) as nat,
                k,
                x,
            );
        }
    }

    /// A result among the `k` nearest of all nodes is among the first `k` results.
    proof fn nearest_is_first(self, s: Beam, k: nat, x: Scored)
        requires
            self.sound(s),
            self.links.len() <= u32::MAX,
            self.among_nearest(x, k),
            s.best.contains(x),
        ensures
            ranking::first_k(s.best, k).contains(x),
    {
        let at = choose|at: int| 0 <= at < s.best.len() && s.best[at] == x;
        let first = ranking::first_k(s.best, k);
        if at < first.len() {
            assert(first[at] == x);
        } else {
            assert forall|i: int| 0 <= i < first.len() implies self.known(s, #[trigger] first[i])
                && first[i].leads(x) && first[i] != x by {
                assert(self.known(s, s.best[i]));
                assert(s.best[i].leads(s.best[at]));
                assert(s.best[i].id != s.best[at].id);
            }
            assert(ranking::distinct_ids(first)) by {
                assert forall|i: int, j: int| 0 <= i < j < first.len() implies (#[trigger] first[i]).id
                    != (#[trigger] first[j]).id by {
                    assert(s.best[i].id != s.best[j].id);
                }
            }
            self.nearest_is_not_cut(s, k, x, first);
        }
    }

    /// A search that keeps more results loses none of the `k` nearest nodes that a narrower
    /// search from the same node finds.
    pub proof fn wider_search_keeps_nearest(self, wide: Rules, entry: u32, k: nat, x: Scored)
        requires
            self.widened(wide),
            closed_graph(self.links),
            self.links.len() <= u32::MAX,
            entry < self.links.len(),
            0 < k <= self.cap,
            self.among_nearest(x, k),
            self.outcome(seq![entry]).best.contains(x),
        ensures
            ranking::first_k(wide.outcome(seq![entry]).best, k).contains(x),
    {
        let entries = seq![entry];
        let none = Seq::<u32>::empty();
        let s = self.start(none);
        let t = wide.start(none);
        assert(entries.drop_last() =~= none);
        self.start_is_sound(none);
        wide.start_is_sound(none);
        self.start_is_sound(entries);
        wide.start_is_sound(entries);
        assert((self.dist)(entry as int) <= float_order::INFINITY);
        self.kept_alongside(wide, s, t, self.scored(entry));
        assert(self.alongside(self.start(entries), wide.start(entries)));
        self.wider_run_keeps_nearest(
            wide,
            self.start(entries),
            wide.start(entries),
            self.links.len(),
            k,
            x,
        );
        wide.run_is_sound(wide.start(entries), wide.links.len());
        wide.nearest_is_first(wide.outcome(entries), k, x);
    }
}

/// A coherence gate: passes over a node that is more similar than `threshold` to one of the
/// nodes expanded last.
pub struct Gate<'a, S: Metric> {
    /// Similarity between nodes.
    pub similarity: &'a S,
    /// Similarity above which a direction counts as covered.
    pub threshold: u32,
}

/// What a gate passes over.
pub open spec fn gate_blocks<S: Metric>(gate: Option<Gate<'_, S>>) -> spec_fn(Seq<u32>, u32) -> bool {
    match gate {
        None => open_gate(),
        Some(g) => |recent: Seq<u32>, id: u32| covered(g.similarity, g.threshold, recent, id),
    }
}

/// Whether a node is more similar than `threshold` to one of `recent`.
pub open spec fn covered<S: Metric>(
    similarity: &S,
    threshold: u32,
    recent: Seq<u32>,
    id: u32,
) -> bool {
    exists|i: int|
        0 <= i < recent.len() && float_order::below(
            threshold,
            similarity.measured(id as int, #[trigger] recent[i] as int),
        )
}

/// The rules of a search for query number `query`.
pub open spec fn rules_for<M: Metric, S: Metric>(
    graph: Seq<Vec<u32>>,
    metric: &M,
    query: u32,
    cap: usize,
    explore_all: bool,
    strict: bool,
    gate: Option<Gate<'_, S>>,
) -> Rules {
    Rules {
        links: links_of(graph),
        dist: |v: int| metric.measured(query as int, v),
        blocked: gate_blocks(gate),
        cap: cap as nat,
        explore_all,
        strict,
    }
}

/// A similarity bound, where there is one, covers any two nodes.
pub open spec fn gate_covers<S: Metric>(gate: Option<Gate<'_, S>>, n: nat) -> bool {
    gate matches Some(g) ==> n <= g.similarity.sources() && n <= g.similarity.targets()
}

fn is_blocked<S: Metric>(gate: &Option<Gate<'_, S>>, recent: &Vec<u32>, id: u32, n: usize) -> (r: bool)
    requires
        gate_covers(*gate, n as nat),
        id < n,
        forall|i: int| 0 <= i < recent@.len() ==> #[trigger] recent@[i] < n,
    ensures
        r == gate_blocks(*gate)(recent@, id),
{
    match gate {
        None => false,
        Some(g) => {
            let mut i: usize = 0;
            while i < recent.len()
                invariant
                    *gate == Some(*g),
                    i <= recent@.len(),
                    n <= g.similarity.sources(),
                    n <= g.similarity.targets(),
                    id < n,
                    forall|j: int| 0 <= j < recent@.len() ==> #[trigger] recent@[j] < n,
                    forall|j: int|
                        0 <= j < i ==> !float_order::below(
                            g.threshold,
                            g.similarity.measured(id as int, #[trigger] recent@[j] as int),
                        ),
                decreases recent@.len() - i,
            {
                let other: u32 = recent[i];
                let similarity: u32 = g.similarity.measure(id, other);
                if float_order::less(g.threshold, similarity) {
                    assert(recent@[i as int] == other);
                    assert(covered(g.similarity, g.threshold, recent@, id));
                    return true;
                }
                i += 1;
            }
            false
        },
    }
}

/// What a search gives: the best nodes, nearest first, and how many nodes it met.
pub struct Found {
    /// The best nodes with their distances.
    pub best: Vec<Scored>,
    /// Number of nodes met.
    pub met: usize,
}

/// Searches `graph` for the nodes nearest to query number `query`, from the given entries.
pub fn search_from<M: Metric, S: Metric>(
    graph: &Vec<Vec<u32>>,
    metric: &M,
    query: u32,
    cap: usize,
    explore_all: bool,
    strict: bool,
    gate: Option<Gate<'_, S>>,
    entries: &Vec<u32>,
    visited: &mut VisitedSet,
) -> (found: Found)
    requires
        0 < cap,
        closed_graph(links_of(graph@)),
        query < metric.sources(),
        graph@.len() <= metric.targets(),
        gate_covers(gate, graph@.len()),
        entries@.no_duplicates(),
        forall|i: int| 0 <= i < entries@.len() ==> #[trigger] entries@[i] < graph@.len(),
        old(visited).wf(),
        old(visited).capacity() >= graph@.len(),
        old(visited).clears_left() > 0,
    ensures
        ({
            let rules = rules_for(graph@, metric, query, cap, explore_all, strict, gate);
            &&& found.best@ == rules.outcome(entries@).best
            &&& found.met == rules.outcome(entries@).seen.len()
        }),
        final(visited).wf(),
        final(visited).capacity() == old(visited).capacity(),
        final(visited).clears_left() == old(visited).clears_left() - 1,
{
    let n: usize = graph.len();
    let ghost rules = rules_for(graph@, metric, query, cap, explore_all, strict, gate);
    let ghost mut state = rules.start(Seq::empty());
    visited.clear();
    let ghost clears = visited.clears_left();
    let ghost room = visited.capacity();
    let mut frontier: Vec<Scored> = Vec::new();
    let mut best: Vec<Scored> = Vec::new();
    let mut recent: Vec<u32> = Vec::new();
    let mut met: usize = 0;

    let mut e: usize = 0;
    while e < entries.len()
        invariant
            e <= entries@.len(),
            n == graph@.len(),
            0 < cap,
            query < metric.sources(),
            n <= metric.targets(),
            rules == rules_for(graph@, metric, query, cap, explore_all, strict, gate),
            entries@.no_duplicates(),
            forall|i: int| 0 <= i < entries@.len() ==> #[trigger] entries@[i] < graph@.len(),
            visited.wf(),
            visited.capacity() == room,
            n <= room,
            visited.clears_left() == clears,
            state == rules.start(entries@.take(e as int)),
            frontier@ == state.frontier,
            best@ == state.best,
            visited@ == state.seen,
            recent@ == state.recent,
            met == e,
        decreases entries@.len() - e,
    {
        let id: u32 = entries[e];
        proof {
            let done = entries@.take(e as int);
            assert(done.no_duplicates());
            rules.start_is_sound(done);
            assert(entries@.take(e + 1).drop_last() =~= done);
            assert(entries@.take(e + 1).last() == id);
            if state.seen.contains(id as int) {
                let i = choose|i: int| 0 <= i < done.len() && done[i] as int == id as int;
                assert(entries@[i] == entries@[e as int]);
            }
            rules.entered_is_sound(state, id);
        }
        let x = Scored { id, bits: metric.measure(query, id) };
        ranking::insert_ranked(&mut frontier, x);
        keep_best(&mut best, x, cap);
        visited.insert(id);
        proof {
            state = rules.entered(state, id);
        }
        met = met + 1;
        e += 1;
    }
    proof {
        assert(entries@.take(e as int) =~= entries@);
        rules.start_is_sound(entries@);
        distinct_below(entries@, n as nat);
        entry_count(rules, entries@);
    }
    let ghost mut steps: nat = n as nat;
    loop
        invariant_except_break
            rules.run(state, steps) == rules.outcome(entries@),
            rules.remaining(state) <= steps,
        invariant
            n == graph@.len(),
            0 < cap,
            query < metric.sources(),
            n <= metric.targets(),
            gate_covers(gate, n as nat),
            rules == rules_for(graph@, metric, query, cap, explore_all, strict, gate),
            closed_graph(rules.links),
            rules.links.len() == n,
            visited.wf(),
            visited.capacity() == room,
            n <= room,
            visited.clears_left() == clears,
            rules.sound(state),
            frontier@ == state.frontier,
            best@ == state.best,
            visited@ == state.seen,
            recent@ == state.recent,
            met == state.seen.len(),
        ensures
            state == rules.outcome(entries@),
        decreases steps,
    {
        if frontier.len() == 0 {
            break;
        }
        if best.len() >= cap && float_order::less(best[best.len() - 1].bits, frontier[0].bits) {
            break;
        }
        let current = frontier.remove(0);
        recent.push(current.id);
        if recent.len() > GATE_HISTORY {
            recent.remove(0);
        }
        let ghost before = state;
        proof {
            rules.seen_fits(state);
            rules.popped_is_sound(state);
            rules.expanded_is_sound(state);
            state = rules.popped(state);
            assert(frontier@ =~= state.frontier);
            assert(recent@ =~= state.recent);
        }
        let ghost popped = state;
        let list = &graph[current.id as usize];
        let mut j: usize = 0;
        while j < list.len()
            invariant
                j <= list@.len(),
                n == graph@.len(),
                0 < cap,
                query < metric.sources(),
                n <= metric.targets(),
                gate_covers(gate, n as nat),
                rules == rules_for(graph@, metric, query, cap, explore_all, strict, gate),
                rules.links.len() == n,
                forall|i: int| 0 <= i < list@.len() ==> #[trigger] list@[i] < n,
                visited.wf(),
                visited.capacity() == room,
            n <= room,
                visited.clears_left() == clears,
                rules.sound(state),
                state == rules.met_all(popped, list@.take(j as int)),
                frontier@ == state.frontier,
                best@ == state.best,
                visited@ == state.seen,
                recent@ == state.recent,
                met == state.seen.len(),
            decreases list@.len() - j,
        {
            let id: u32 = list[j];
            proof {
                assert(list@.take(j + 1).drop_last() =~= list@.take(j as int));
                assert(list@.take(j + 1).last() == id);
                rules.met_is_sound(state, id);
                rules.seen_fits(rules.met(state, id));
                assert forall|i: int| 0 <= i < recent@.len() implies #[trigger] recent@[i] < n by {
                    assert(state.recent[i] < rules.links.len());
                }
            }
            if !visited.contains(id) {
                visited.insert(id);
                met = met + 1;
                if !is_blocked(&gate, &recent, id, n) {
                    let x = Scored { id, bits: metric.measure(query, id) };
                    let enters = if best.len() < cap {
                        true
                    } else {
                        let worst: u32 = best[best.len() - 1].bits;
                        if strict {
                            float_order::less(x.bits, worst)
                        } else {
                            !float_order::less_or_equal(worst, x.bits)
                        }
                    };
                    if enters || explore_all {
                        ranking::insert_ranked(&mut frontier, x);
                    }
                    if enters {
                        keep_best(&mut best, x, cap);
                    }
                }
            }
            proof {
                state = rules.met(state, id);
            }
            j += 1;
        }
        proof {
            assert(list@.take(j as int) =~= rules.links[current.id as int]);
            assert(state == rules.expanded(before));
            steps = (steps - 1) as nat;
        }
    }
    Found { best, met }
}

fn keep_best(best: &mut Vec<Scored>, x: Scored, cap: usize)
    requires
        ranking::in_order(old(best)@),
        old(best)@.len() <= cap,
    ensures
        final(best)@ == ranking::first_k(ranking::ranked(old(best)@.push(x)), cap as nat),
{
    ranking::insert_ranked(best, x);
    if best.len() > cap {
        best.truncate(cap);
    }
}

proof fn distinct_below(ids: Seq<u32>, n: nat)
    requires
        ids.no_duplicates(),
        forall|i: int| 0 <= i < ids.len() ==> #[trigger] ids[i] < n,
    ensures
        ids.len() <= n,
{
    let wide = ids.map_values(|x: u32| x as int);
    assert(wide.no_duplicates());
    wide.unique_seq_to_set();
    let all = vstd::set_lib::set_int_range(0, n as int);
    vstd::set_lib::lemma_int_range(0, n as int);
    assert forall|v: int| wide.to_set().contains(v) implies all.contains(v) by {
        let i = choose|i: int| 0 <= i < wide.len() && wide[i] == v;
        assert(ids[i] < n);
    }
    vstd::set_lib::lemma_len_subset(wide.to_set(), all);
}

proof fn entry_count(rules: Rules, entries: Seq<u32>)
    requires
        rules.cap > 0,
        entries.no_duplicates(),
        forall|i: int| 0 <= i < entries.len() ==> #[trigger] entries[i] < rules.links.len(),
    ensures
        rules.start(entries).seen.len() == entries.len(),
    decreases entries.len(),
{
    if entries.len() > 0 {
        let front = entries.drop_last();
        assert(front.no_duplicates());
        entry_count(rules, front);
        rules.start_is_sound(front);
        let s = rules.start(front);
        if s.seen.contains(entries.last() as int) {
            let i = choose|i: int| 0 <= i < front.len() && front[i] as int == entries.last() as int;
            assert(entries[i] == entries.last());
        }
    }
}

} // verus!
