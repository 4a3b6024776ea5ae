//! Beam search of a flat graph, and three ways to choose its width.
use crate::adaptive::calibrate::CalibrationTable;
use crate::adaptive::graph::FlatGraph;
use crate::adaptive::metrics;
use crate::beam;
use crate::float_order;
use crate::knn;
use crate::metric::Metric;
use crate::ranking;
use crate::ranking::Scored;
use crate::visited::VisitedSet;
use vstd::prelude::*;

verus! {

/// A node and the bits of its squared distance from the query.
pub type SearchResult = Scored;

/// The wider of two beams.
pub open spec fn wider(a: usize, b: usize) -> usize {
    if a < b {
        b
    } else {
        a
    }
}

/// The rules of a beam search: every node met is expanded in its turn, and a node takes the
/// place of the worst result when it is nearer.
pub open spec fn beam_rules<M: Metric>(graph: &FlatGraph, metric: &M, query: u32, cap: usize) -> beam::Rules {
    beam::rules_for(graph.neighbors@, metric, query, cap, true, true, None::<beam::Gate<'_, M>>)
}

/// What a beam search finds: the `k` best of the at least `ef` and `k` nodes it keeps.
pub open spec fn beam_results<M: Metric>(
    graph: &FlatGraph,
    metric: &M,
    query: u32,
    k: usize,
    ef: usize,
    entry: usize,
) -> Seq<Scored> {
    if k == 0 {
        Seq::empty()
    } else {
        ranking::first_k(
            beam_rules(graph, metric, query, wider(ef, k)).outcome(seq![entry as u32]).best,
            k as nat,
        )
    }
}

/// A search from `entry` for query number `query` makes sense: the entry is a node, and the
/// distance of every node from the query can be measured.
pub open spec fn can_search<M: Metric>(graph: &FlatGraph, metric: &M, query: u32, entry: usize) -> bool {
    &&& graph.wf()
    &&& entry < graph.n
    &&& query < metric.sources()
    &&& graph.n <= metric.targets()
}

/// Searches `graph` for the `k` nodes nearest to query number `query`, starting at `entry`
/// and keeping `ef` candidates. Gives them nearest first.
pub fn beam_search<M: Metric>(
    graph: &FlatGraph,
    metric: &M,
    query: u32,
    k: usize,
    ef: usize,
    entry: usize,
) -> (results: Vec<SearchResult>)
    requires
        k > 0 ==> can_search(graph, metric, query, entry),
    ensures
        results@ == beam_results(graph, metric, query, k, ef, entry),
        results@.len() <= k,
{
    if k == 0 {
        return Vec::new();
    }
    let cap: usize = if ef < k {
        k
    } else {
        ef
    };
    let mut visited = VisitedSet::new(graph.n);
    let mut entries: Vec<u32> = Vec::new();
    entries.push(entry as u32);
    assert(entries@ =~= seq![entry as u32]);
    let found = beam::search_from(
        &graph.neighbors,
        metric,
        query,
        cap,
        true,
        true,
        None::<beam::Gate<'_, M>>,
        &entries,
        &mut visited,
    );
    let mut best = found.best;
    if k < best.len() {
        best.truncate(k);
        assert(best@ =~= found.best@.take(k as int));
    }
    best
}

/// What a beam search finds is at least one node where one is asked for, no more than asked
/// for, no node twice, each with its own distance, nearest first, and all of them can be
/// reached from the entry.
pub proof fn beam_results_hold<M: Metric>(
    graph: &FlatGraph,
    metric: &M,
    query: u32,
    k: usize,
    ef: usize,
    entry: usize,
)
    requires
        graph.wf(),
        entry < graph.n,
    ensures
        ({
            let r = beam_results(graph, metric, query, k, ef, entry);
            &&& r.len() <= k
            &&& k > 0 ==> r.len() > 0
            &&& ranking::in_order(r)
            &&& ranking::distinct_ids(r)
            &&& forall|i: int|
                0 <= i < r.len() ==> (#[trigger] r[i]).id < graph.n && r[i].bits
                    == metric.measured(query as int, r[i].id as int) && beam::reachable(
                    beam::links_of(graph.neighbors@),
                    seq![entry as u32],
                    r[i].id,
                )
        }),
{
    if k > 0 {
        let rules = beam_rules(graph, metric, query, wider(ef, k));
        rules.outcome_is_sound(seq![entry as u32]);
        rules.results_are_reachable(seq![entry as u32]);
        let best = rules.outcome(seq![entry as u32]).best;
        let r = beam_results(graph, metric, query, k, ef, entry);
        assert forall|i: int| 0 <= i < r.len() implies (#[trigger] r[i]).id < graph.n && r[i].bits
            == metric.measured(query as int, r[i].id as int) && beam::reachable(
            beam::links_of(graph.neighbors@),
            seq![entry as u32],
            r[i].id,
        ) by {
            assert(r[i] == best[i]);
        }
    }
}

/// A beam search gives as many results as are asked for, or as many as there are nodes that can
/// be reached from the entry where those are fewer.
pub proof fn beam_results_count<M: Metric>(
    graph: &FlatGraph,
    metric: &M,
    query: u32,
    k: usize,
    ef: usize,
    entry: usize,
)
    requires
        graph.wf(),
        entry < graph.n,
    ensures
        ({
            let all = beam::reached(beam::links_of(graph.neighbors@), seq![entry as u32]).len();
            beam_results(graph, metric, query, k, ef, entry).len() == (if k < all {
                k as nat
            } else {
                all
            })
        }),
{
    if k > 0 {
        let rules = beam_rules(graph, metric, query, wider(ef, k));
        rules.outcome_is_sound(seq![entry as u32]);
        rules.result_count(seq![entry as u32]);
    }
}

/// Nothing nearer is left within reach: the entry, and every neighbour of a result, is a result
/// itself, or there are `k` results and none of them is farther.
pub proof fn results_have_no_nearer_neighbour<M: Metric>(
    graph: &FlatGraph,
    metric: &M,
    query: u32,
    k: usize,
    ef: usize,
    entry: usize,
    v: u32,
)
    requires
        graph.wf(),
        entry < graph.n,
        k > 0,
        forall|i: int|
            0 <= i < graph.n ==> #[trigger] metric.measured(query as int, i)
                <= float_order::INFINITY,
        v == entry || exists|i: int|
            0 <= i < beam_results(graph, metric, query, k, ef, entry).len()
                && graph.neighbors@[(#[trigger] beam_results(
                graph,
                metric,
                query,
                k,
                ef,
                entry,
            )[i]).id as int]@.contains(v),
    ensures
        ({
            let r = beam_results(graph, metric, query, k, ef, entry);
            let d = metric.measured(query as int, v as int);
            r.contains(Scored { id: v, bits: d }) || (r.len() == k && forall|i: int|
                0 <= i < r.len() ==> (#[trigger] r[i]).bits <= d)
        }),
{
    let rules = beam_rules(graph, metric, query, wider(ef, k));
    let entries = seq![entry as u32];
    let best = rules.outcome(entries).best;
    let r = beam_results(graph, metric, query, k, ef, entry);
    rules.outcome_is_sound(entries);
    assert forall|u: int| 0 <= u < rules.links.len() implies #[trigger] (rules.dist)(u)
        <= float_order::INFINITY by {
        assert(metric.measured(query as int, u) <= float_order::INFINITY);
    }
    if v == entry {
        assert(entries[0] == v);
    } else {
        let i = choose|i: int|
            0 <= i < r.len() && graph.neighbors@[(#[trigger] r[i]).id as int]@.contains(v);
        assert(best[i] == r[i]);
        assert(rules.links[best[i].id as int] == graph.neighbors@[best[i].id as int]@);
    }
    rules.no_better_neighbour(entries, v);
    let x = rules.scored(v);
    let d = x.bits;
    if best.contains(x) {
        let at = choose|at: int| 0 <= at < best.len() && best[at] == x;
        if at < r.len() {
            assert(r[at] == x);
        } else {
            assert forall|i: int| 0 <= i < r.len() implies (#[trigger] r[i]).bits <= d by {
                assert(r[i] == best[i]);
                assert(best[i].leads(best[at]));
                assert((rules.dist)(best[i].id as int) <= float_order::INFINITY);
                assert((rules.dist)(best[at].id as int) <= float_order::INFINITY);
            }
        }
    } else {
        assert forall|i: int| 0 <= i < r.len() implies (#[trigger] r[i]).bits <= d by {
            assert(r[i] == best[i]);
        }
    }
}

/// A beam as wide as the graph loses nothing: a node that can be reached from the entry is
/// among the results, or `k` results are and each of them is at least as near.
pub proof fn widest_beam_is_exact<M: Metric>(
    graph: &FlatGraph,
    metric: &M,
    query: u32,
    k: usize,
    ef: usize,
    entry: usize,
    v: u32,
)
    requires
        graph.wf(),
        entry < graph.n,
        ef >= graph.n,
        k > 0,
        beam::reachable(beam::links_of(graph.neighbors@), seq![entry as u32], v),
    ensures
        ({
            let r = beam_results(graph, metric, query, k, ef, entry);
            let x = Scored { id: v, bits: metric.measured(query as int, v as int) };
            r.contains(x) || (r.len() == k && forall|i: int|
                0 <= i < r.len() ==> (#[trigger] r[i]).leads(x))
        }),
{
    let rules = beam_rules(graph, metric, query, wider(ef, k));
    let entries = seq![entry as u32];
    rules.wide_search_finds_all(entries, v);
    rules.outcome_is_sound(entries);
    let best = rules.outcome(entries).best;
    let x = rules.scored(v);
    ranking::ranked_of_ordered(best);
    let r = ranking::first_k(best, k as nat);
    if !r.contains(x) {
        ranking::first_k_are_best(best, k as nat, x);
    }
}

/// Every node's distance from the query is a number that is not negative.
pub open spec fn plain_distances<M: Metric>(metric: &M, query: u32, n: nat) -> bool {
    forall|v: int|
        0 <= v < n ==> #[trigger] metric.measured(query as int, v) <= float_order::INFINITY
}

/// A wider beam loses no true neighbour: one of the `k` nearest nodes that a beam finds is
/// found by every wider beam.
pub proof fn wider_beam_keeps_neighbours<M: Metric>(
    graph: &FlatGraph,
    metric: &M,
    query: u32,
    k: usize,
    narrow: usize,
    wide: usize,
    entry: usize,
    x: Scored,
)
    requires
        graph.wf(),
        entry < graph.n,
        k > 0,
        narrow <= wide,
        plain_distances(metric, query, graph.n as nat),
        knn::nearest(metric, query as int, graph.n as nat, k as nat).contains(x),
        beam_results(graph, metric, query, k, narrow, entry).contains(x),
    ensures
        beam_results(graph, metric, query, k, wide, entry).contains(x),
{
    let a = beam_rules(graph, metric, query, wider(narrow, k));
    let b = beam_rules(graph, metric, query, wider(wide, k));
    let row = knn::scored_row(knn::measures_from(metric, query as int), graph.n as nat);
    let best = a.outcome(seq![entry as u32]).best;
    let first = ranking::first_k(best, k as nat);
    assert(a.nodes() =~= row);
    assert(a.widened(b)) by {
        assert forall|v: int| 0 <= v < a.links.len() implies #[trigger] (a.dist)(v)
            <= float_order::INFINITY by {
            assert(metric.measured(query as int, v) <= float_order::INFINITY);
        }
    }
    let i = choose|i: int| 0 <= i < first.len() && first[i] == x;
    assert(best[i] == x);
    a.wider_search_keeps_nearest(b, entry as u32, k as nat, x);
}

/// Recall never falls as the beam grows: a wider beam finds at least as many of the `k`
/// nearest nodes.
pub proof fn recall_grows_with_width<M: Metric>(
    graph: &FlatGraph,
    metric: &M,
    query: u32,
    k: usize,
    narrow: usize,
    wide: usize,
    entry: usize,
)
    requires
        graph.wf(),
        entry < graph.n,
        narrow <= wide,
        plain_distances(metric, query, graph.n as nat),
    ensures
        ({
            let truth = ranking::ids_of(
                knn::nearest(metric, query as int, graph.n as nat, k as nat),
            );
            let fewer = metrics::hits_in(
                ranking::ids_of(beam_results(graph, metric, query, k, narrow, entry)),
                truth,
            );
            let more = metrics::hits_in(
                ranking::ids_of(beam_results(graph, metric, query, k, wide, entry)),
                truth,
            );
            &&& fewer <= more
            &&& float_order::at_most(
                metrics::recall_of(fewer, truth.len()),
                metrics::recall_of(more, truth.len()),
            )
        }),
{
    let n = graph.n as nat;
    let nearest = knn::nearest(metric, query as int, n, k as nat);
    let truth = ranking::ids_of(nearest);
    let a = beam_results(graph, metric, query, k, narrow, entry);
    let b = beam_results(graph, metric, query, k, wide, entry);
    if k > 0 {
        beam_results_hold(graph, metric, query, k, narrow, entry);
        beam_results_hold(graph, metric, query, k, wide, entry);
        let row = knn::scored_row(knn::measures_from(metric, query as int), n);
        ranking::ranked_properties(row);
        assert forall|id: u32| #[trigger]
            ranking::ids_of(a).contains(id) && truth.contains(id) implies ranking::ids_of(
            b,
        ).contains(id) by {
            let i = choose|i: int| 0 <= i < a.len() && ranking::ids_of(a)[i] == id;
            let j = choose|j: int| 0 <= j < nearest.len() && truth[j] == id;
            let x = a[i];
            assert(nearest[j] == ranking::ranked(row)[j]);
            assert(ranking::ranked(row).contains(nearest[j]));
            assert(row.contains(nearest[j]));
            assert(nearest[j] == x);
            wider_beam_keeps_neighbours(graph, metric, query, k, narrow, wide, entry, x);
            let l = choose|l: int| 0 <= l < b.len() && b[l] == x;
            assert(ranking::ids_of(b)[l] == id);
        }
        ids_are_distinct(a);
        ids_are_distinct(b);
        metrics::more_hits(ranking::ids_of(a), ranking::ids_of(b), truth);
        metrics::recall_is_at_most_one(ranking::ids_of(b), truth);
    }
    metrics::recall_grows(
        metrics::hits_in(ranking::ids_of(a), truth),
        metrics::hits_in(ranking::ids_of(b), truth),
        truth.len(),
    );
}

proof fn ids_are_distinct(s: Seq<Scored>)
    requires
        ranking::distinct_ids(s),
    ensures
        ranking::ids_of(s).no_duplicates(),
{
    assert forall|i: int, j: int| 0 <= i < s.len() && 0 <= j < s.len() && i != j implies ranking::ids_of(
        s,
    )[i] != ranking::ids_of(s)[j] by {
        if i < j {
            assert(s[i].id != s[j].id);
        } else {
            assert(s[j].id != s[i].id);
        }
    }
}

/// Fixed beam width; the recall target plays no part.
pub struct FixedEfSearch<'g> {
    /// The graph searched.
    pub graph: &'g FlatGraph,
    /// The beam width.
    pub ef: usize,
    /// Where searches start.
    pub entry: usize,
}

impl<'g> FixedEfSearch<'g> {
    /// The `k` nearest nodes found with the fixed width.
    pub fn search_with_target<M: Metric>(&self, metric: &M, query: u32, k: usize, recall_target: u32) -> (results: Vec<SearchResult>)
        requires
            k > 0 ==> can_search(self.graph, metric, query, self.entry),
        ensures
            results@ == beam_results(self.graph, metric, query, k, self.ef, self.entry),
    {
        beam_search(self.graph, metric, query, k, self.ef, self.entry)
    }

    /// None: the width does not follow the target.
    pub fn effective_ef_for_target(&self, recall_target: u32, k: usize) -> (ef: Option<usize>)
        ensures
            ef is None,
    {
        None
    }
}

/// Bisects the beam width per query against the known true neighbours. An oracle, to show
/// how narrow the beam could be.
pub struct BinarySearchCalibrated<'g> {
    /// The graph searched.
    pub graph: &'g FlatGraph,
    /// Where searches start.
    pub entry: usize,
    /// Narrowest beam tried.
    pub ef_min: usize,
    /// Widest beam tried.
    pub ef_max: usize,
    /// True neighbours of each query.
    pub ground_truth: &'g Vec<Vec<u32>>,
    /// Which query is asked.
    pub query_index: usize,
}

impl<'g> BinarySearchCalibrated<'g> {
    /// Whether the recall of a beam of this width is at least `recall_target`.
    pub open spec fn meets<M: Metric>(&self, metric: &M, query: u32, k: usize, recall_target: u32, ef: int) -> bool {
        let truth = self.ground_truth@[self.query_index as int]@;
        let found = beam_results(self.graph, metric, query, k, ef as usize, self.entry);
        float_order::at_most(
            recall_target,
            metrics::recall_of(metrics::hits_in(ranking::ids_of(found), truth), truth.len()),
        )
    }

    /// The width at which bisection between `lo` and `hi` ends, `best` being the last that met
    /// the target.
    pub open spec fn bisected<M: Metric>(
        &self,
        metric: &M,
        query: u32,
        k: usize,
        recall_target: u32,
        lo: int,
        hi: int,
        best: int,
    ) -> int
        decreases hi - lo,
    {
        if lo < hi {
            let mid = (lo + hi) / 2;
            if self.meets(metric, query, k, recall_target, mid) {
                self.bisected(metric, query, k, recall_target, lo, mid, mid)
            } else {
                self.bisected(metric, query, k, recall_target, mid + 1, hi, best)
            }
        } else {
            best
        }
    }

    /// The results of the narrowest beam found by bisection whose recall reaches the target,
    /// or those of the widest beam where none was found. A target outside the range from
    /// nought to one is brought into it.
    pub fn search_with_target<M: Metric>(&self, metric: &M, query: u32, k: usize, recall_target: u32) -> (results: Vec<SearchResult>)
        requires
            k > 0 ==> can_search(self.graph, metric, query, self.entry),
            self.query_index < self.ground_truth@.len(),
        ensures
            results@ == beam_results(
                self.graph,
                metric,
                query,
                k,
                self.bisected(
                    metric,
                    query,
                    k,
                    float_order::clamped(recall_target, 0, float_order::ONE),
                    self.ef_min as int,
                    self.ef_max as int,
                    self.ef_max as int,
                ) as usize,
                self.entry,
            ),
    {
        let target = float_order::clamp(recall_target, 0, float_order::ONE);
        let mut lo: usize = self.ef_min;
        let mut hi: usize = self.ef_max;
        let mut best = beam_search(self.graph, metric, query, k, hi, self.entry);
        let ghost mut best_ef = hi as int;
        let ghost goal = self.bisected(
            metric,
            query,
            k,
            target,
            self.ef_min as int,
            self.ef_max as int,
            self.ef_max as int,
        );
        while lo < hi
            invariant
                k > 0 ==> can_search(self.graph, metric, query, self.entry),
                self.query_index < self.ground_truth@.len(),
                0 <= best_ef <= usize::MAX,
                best@ == beam_results(self.graph, metric, query, k, best_ef as usize, self.entry),
                goal == self.bisected(metric, query, k, target, lo as int, hi as int, best_ef),
            decreases hi - lo,
        {
            let mid: usize = lo + (hi - lo) / 2;
            let results = beam_search(self.graph, metric, query, k, mid, self.entry);
            let ids = ranking::ids(&results);
            let truth = &self.ground_truth[self.query_index];
            let recall = metrics::recall_at_k(ids.as_slice(), truth.as_slice());
            assert(mid == (lo + hi) / 2);
            if float_order::less_or_equal(target, recall) {
                best = results;
                hi = mid;
                proof {
                    best_ef = mid as int;
                }
            } else {
                lo = mid + 1;
            }
        }
        best
    }

    /// The narrowest beam found by bisection whose recall reaches the target, or the widest
    /// where none was found.
    pub fn find_binary_ef<M: Metric>(&self, metric: &M, query: u32, k: usize, recall_target: u32) -> (ef: usize)
        requires
            k > 0 ==> can_search(self.graph, metric, query, self.entry),
            self.query_index < self.ground_truth@.len(),
        ensures
            ef == (if self.ef_min < self.ef_max {
                self.bisected(
                    metric,
                    query,
                    k,
                    recall_target,
                    self.ef_min as int,
                    self.ef_max as int,
                    self.ef_max as int,
                )
            } else {
                self.ef_min as int
            }),
    {
        let mut lo: usize = self.ef_min;
        let mut hi: usize = self.ef_max;
        if lo >= hi {
            return lo;
        }
        let ghost goal = self.bisected(metric, query, k, recall_target, lo as int, hi as int, hi as int);
        while lo < hi
            invariant
                k > 0 ==> can_search(self.graph, metric, query, self.entry),
                self.query_index < self.ground_truth@.len(),
                lo <= hi,
                goal == self.bisected(metric, query, k, recall_target, lo as int, hi as int, hi as int),
            decreases hi - lo,
        {
            let mid: usize = lo + (hi - lo) / 2;
            let results = beam_search(self.graph, metric, query, k, mid, self.entry);
            let ids = ranking::ids(&results);
            let truth = &self.ground_truth[self.query_index];
            let recall = metrics::recall_at_k(ids.as_slice(), truth.as_slice());
            assert(mid == (lo + hi) / 2);
            if float_order::less_or_equal(recall_target, recall) {
                hi = mid;
            } else {
                lo = mid + 1;
            }
        }
        lo
    }

    /// None: the width depends on the query.
    pub fn effective_ef_for_target(&self, recall_target: u32, k: usize) -> (ef: Option<usize>)
        ensures
            ef is None,
    {
        None
    }

    /// Bisection ends within its bounds, at a width that meets the target or at the one it
    /// started from. Where meeting the target carries over to every wider beam, it ends at the
    /// narrowest that meets it.
    pub proof fn bisection_holds<M: Metric>(
        &self,
        metric: &M,
        query: u32,
        k: usize,
        recall_target: u32,
        lo: int,
        hi: int,
    )
        requires
            0 <= lo <= hi,
        ensures
            ({
                let e = self.bisected(metric, query, k, recall_target, lo, hi, hi);
                &&& lo <= e <= hi
                &&& e == hi || self.meets(metric, query, k, recall_target, e)
                &&& (self.meets(metric, query, k, recall_target, hi) && forall|a: int, b: int|
                    lo <= a <= b <= hi && #[trigger] self.meets(metric, query, k, recall_target, a)
                        ==> #[trigger] self.meets(metric, query, k, recall_target, b)) ==> forall|x: int|
                    lo <= x < e ==> !#[trigger] self.meets(metric, query, k, recall_target, x)
            }),
        decreases hi - lo,
    {
        if lo < hi {
            let mid = (lo + hi) / 2;
            if self.meets(metric, query, k, recall_target, mid) {
                self.bisection_holds(metric, query, k, recall_target, lo, mid);
            } else {
                self.bisection_holds(metric, query, k, recall_target, mid + 1, hi);
            }
        }
    }

    /// Where the true neighbours are the `k` nearest nodes and the widest beam meets the
    /// target, bisection ends at the narrowest beam that meets it.
    pub proof fn bisection_finds_narrowest<M: Metric>(
        &self,
        metric: &M,
        query: u32,
        k: usize,
        recall_target: u32,
        x: int,
    )
        requires
            self.graph.wf(),
            self.entry < self.graph.n,
            plain_distances(metric, query, self.graph.n as nat),
            self.ground_truth@[self.query_index as int]@ == ranking::ids_of(
                knn::nearest(metric, query as int, self.graph.n as nat, k as nat),
            ),
            self.ef_min <= self.ef_max,
            self.meets(metric, query, k, recall_target, self.ef_max as int),
        ensures
            ({
                let e = self.bisected(
                    metric,
                    query,
                    k,
                    recall_target,
                    self.ef_min as int,
                    self.ef_max as int,
                    self.ef_max as int,
                );
                &&& self.meets(metric, query, k, recall_target, e)
                &&& self.ef_min <= x < e ==> !self.meets(metric, query, k, recall_target, x)
            }),
    {
        let lo = self.ef_min as int;
        let hi = self.ef_max as int;
        assert forall|a: int, b: int|
            lo <= a <= b <= hi && #[trigger] self.meets(
                metric,
                query,
                k,
                recall_target,
                a,
            ) implies #[trigger] self.meets(metric, query, k, recall_target, b) by {
            recall_grows_with_width(
                self.graph,
                metric,
                query,
                k,
                a as usize,
                b as usize,
                self.entry,
            );
        }
        self.bisection_holds(metric, query, k, recall_target, lo, hi);
    }
}

/// Whether a beam of width `ef` finds a share of the true neighbours that is at least the
/// target.
pub open spec fn finds_share<M: Metric>(
    graph: &FlatGraph,
    entry: usize,
    truth: Seq<u32>,
    metric: &M,
    query: u32,
    k: usize,
    target: u32,
    ef: usize,
) -> bool {
    let found = beam_results(graph, metric, query, k, ef, entry);
    let ids = Seq::new(found.len(), |i: int| found[i].id);
    float_order::at_most(
        target,
        metrics::recall_of(ids.filter(|x: u32| truth.contains(x)).len(), truth.len()),
    )
}

impl<'g> BinarySearchCalibrated<'g> {
    /// A search with a target gives the results of a beam within the bounds that reaches it, or
    /// of the widest. Where the true neighbours are the nearest nodes and the widest beam
    /// reaches the target, the beam is the narrowest that does.
    pub proof fn target_is_reached_narrowly<M: Metric>(
        &self,
        metric: &M,
        query: u32,
        k: usize,
        recall_target: u32,
        results: Seq<SearchResult>,
    ) -> (ef: usize)
        requires
            self.graph.wf(),
            self.entry < self.graph.n,
            plain_distances(metric, query, self.graph.n as nat),
            self.ef_min <= self.ef_max,
            results == beam_results(
                self.graph,
                metric,
                query,
                k,
                self.bisected(
                    metric,
                    query,
                    k,
                    float_order::clamped(recall_target, 0, float_order::ONE),
                    self.ef_min as int,
                    self.ef_max as int,
                    self.ef_max as int,
                ) as usize,
                self.entry,
            ),
        ensures
            self.ef_min <= ef <= self.ef_max,
            results == beam_results(self.graph, metric, query, k, ef, self.entry),
            ({
                let truth = self.ground_truth@[self.query_index as int]@;
                let target = float_order::clamped(recall_target, 0, float_order::ONE);
                &&& ef == self.ef_max || finds_share(
                    self.graph,
                    self.entry,
                    truth,
                    metric,
                    query,
                    k,
                    target,
                    ef,
                )
                &&& (truth == ranking::ids_of(
                    knn::nearest(metric, query as int, self.graph.n as nat, k as nat),
                ) && finds_share(
                    self.graph,
                    self.entry,
                    truth,
                    metric,
                    query,
                    k,
                    target,
                    self.ef_max,
                )) ==> finds_share(
                    self.graph,
                    self.entry,
                    truth,
                    metric,
                    query,
                    k,
                    target,
                    ef,
                ) && forall|x: usize|
                    self.ef_min <= x < ef ==> !#[trigger] finds_share(
                        self.graph,
                        self.entry,
                        truth,
                        metric,
                        query,
                        k,
                        target,
                        x,
                    )
            }),
    {
        let truth = self.ground_truth@[self.query_index as int]@;
        let target = float_order::clamped(recall_target, 0, float_order::ONE);
        let e = self.bisected(
            metric,
            query,
            k,
            target,
            self.ef_min as int,
            self.ef_max as int,
            self.ef_max as int,
        );
        self.bisection_holds(
            metric,
            query,
            k,
            target,
            self.ef_min as int,
            self.ef_max as int,
        );
        assert forall|x: usize| #[trigger] finds_share(
            self.graph,
            self.entry,
            truth,
            metric,
            query,
            k,
            target,
            x,
        ) == self.meets(metric, query, k, target, x as int) by {
            let found = beam_results(self.graph, metric, query, k, x, self.entry);
            assert(Seq::new(found.len(), |i: int| found[i].id) =~= ranking::ids_of(found));
        }
        if truth == ranking::ids_of(
            knn::nearest(metric, query as int, self.graph.n as nat, k as nat),
        ) && self.meets(metric, query, k, target, self.ef_max as int) {
            assert forall|x: usize| self.ef_min <= x < e implies !#[trigger] finds_share(
                self.graph,
                self.entry,
                truth,
                metric,
                query,
                k,
                target,
                x,
            ) by {
                self.bisection_finds_narrowest(metric, query, k, target, x as int);
            }
            self.bisection_finds_narrowest(metric, query, k, target, 0);
        }
        e as usize
    }
}

/// Takes the beam width from a table calibrated beforehand.
pub struct TableCalibratedSearch<'g> {
    /// The graph searched.
    pub graph: &'g FlatGraph,
    /// Where searches start.
    pub entry: usize,
    /// Recall by beam width.
    pub table: &'g CalibrationTable,
}

impl<'g> TableCalibratedSearch<'g> {
    /// The `k` nearest nodes found with the narrowest beam that the table has for the target.
    pub fn search_with_target<M: Metric>(&self, metric: &M, query: u32, k: usize, recall_target: u32) -> (results: Vec<SearchResult>)
        requires
            k > 0 ==> can_search(self.graph, metric, query, self.entry),
            k == self.table.k,
        ensures
            results@ == beam_results(
                self.graph,
                metric,
                query,
                k,
                self.table.chosen(recall_target),
                self.entry,
            ),
    {
        let ef: usize = self.table.min_ef_for_target(recall_target, k);
        beam_search(self.graph, metric, query, k, ef, self.entry)
    }

    /// The width that the table has for the target.
    pub fn effective_ef_for_target(&self, recall_target: u32, k: usize) -> (ef: Option<usize>)
        requires
            k == self.table.k,
        ensures
            ef == Some(self.table.chosen(recall_target)),
    {
        Some(self.table.min_ef_for_target(recall_target, k))
    }
}

} // verus!
