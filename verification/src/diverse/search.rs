//! Greedy beam search, re-ranking by marginal relevance, and coherence-gated beam search.
use crate::adaptive::metrics;
use crate::beam;
use crate::beam::Gate;
use crate::diverse::coprime;
use crate::diverse::graph::FlatGraph;
use crate::float_order;
use crate::metric::Metric;
use crate::ranking;
use crate::ranking::Scored;
use crate::single;
use crate::visited::VisitedSet;
use vstd::prelude::*;

verus! {

/// A node and the bits of its squared distance from the query.
pub type SearchResult = Scored;

/// Smallest scale that distances are divided by, one millionth.
pub const MIN_SCALE: u32 = 0x3586_37bd;

/// The smaller of two numbers.
pub open spec fn lesser(a: nat, b: nat) -> nat {
    if a < b {
        a
    } else {
        b
    }
}

/// The share of the first `k` true neighbours, or of all where there are fewer, that are among
/// the first `k` results; nought where there is no true neighbour to find.
pub open spec fn recall_among(truth: Seq<u32>, results: Seq<Scored>, k: nat) -> u32 {
    let wanted = lesser(k, truth.len());
    let hits = metrics::hits_in(
        ranking::ids_of(results).take(lesser(k, results.len()) as int),
        truth.take(wanted as int),
    );
    if wanted == 0 {
        0
    } else {
        single::ratio_bits(hits, wanted)
    }
}

/// Recall among the first `k` is complete exactly where there is a true neighbour to find and
/// each of the first `k` of them is among the first `k` results.
pub proof fn recall_tells_what_is_missing(truth: Seq<u32>, results: Seq<Scored>, k: nat)
    requires
        k < 0x100_0000,
        truth.no_duplicates(),
        ranking::distinct_ids(results),
    ensures
        recall_among(truth, results, k) == float_order::ONE <==> truth.len() > 0 && k > 0 && forall|
            i: int,
        |
            0 <= i < truth.len() && i < k ==> is_among_first(results, k, #[trigger] truth[i]),
        recall_among(truth, results, k) == 0 <==> forall|i: int|
            0 <= i < truth.len() && i < k ==> !is_among_first(results, k, #[trigger] truth[i]),
{
    let wanted = truth.take(lesser(k, truth.len()) as int);
    let own = ranking::ids_of(results).take(lesser(k, results.len()) as int);
    assert forall|i: int, j: int| 0 <= i < own.len() && 0 <= j < own.len() && i != j implies own[i]
        != own[j] by {
        if i < j {
            assert(results[i].id != results[j].id);
        } else {
            assert(results[j].id != results[i].id);
        }
    }
    assert(wanted.no_duplicates());
    metrics::recall_tells_what_is_missing(own, wanted);
    assert forall|id: u32| #[trigger] own.contains(id) <==> is_among_first(results, k, id) by {
        if own.contains(id) {
            let i = choose|i: int| 0 <= i < own.len() && own[i] == id;
            assert(results[i].id == id);
        }
        if is_among_first(results, k, id) {
            let i = choose|i: int|
                0 <= i < results.len() && i < k && (#[trigger] results[i]).id == id;
            assert(own[i] == id);
        }
    }
    assert forall|i: int| 0 <= i < truth.len() && i < k implies wanted.contains(
        #[trigger] truth[i],
    ) by {
        assert(wanted[i] == truth[i]);
    }
    assert forall|id: u32| #[trigger] wanted.contains(id) implies exists|i: int|
        0 <= i < truth.len() && i < k && #[trigger] truth[i] == id by {
        let i = choose|i: int| 0 <= i < wanted.len() && wanted[i] == id;
        assert(truth[i] == id);
    }
}

/// Whether one of the first `k` of a list has this id.
pub open spec fn is_among_first(list: Seq<Scored>, k: nat, id: u32) -> bool {
    exists|i: int| 0 <= i < list.len() && i < k && (#[trigger] list[i]).id == id
}

/// The bits of the recall among the first `k`.
pub fn recall_at_k(ground_truth: &Vec<u32>, results: &Vec<Scored>, k: usize) -> (recall: u32)
    ensures
        recall == recall_among(ground_truth@, results@, k as nat),
{
    let wanted: usize = if k < ground_truth.len() {
        k
    } else {
        ground_truth.len()
    };
    let shown: usize = if k < results.len() {
        k
    } else {
        results.len()
    };
    if wanted == 0 {
        return 0;
    }
    let ids = ranking::ids(results);
    let found = vstd::slice::slice_subrange(ids.as_slice(), 0, shown);
    let truth = vstd::slice::slice_subrange(ground_truth.as_slice(), 0, wanted);
    assert(found@ =~= ranking::ids_of(results@).take(shown as int));
    assert(truth@ =~= ground_truth@.take(wanted as int));
    let hits = metrics::count_hits(found, truth);
    single::ratio(hits, wanted)
}

/// The smallest stride from `step` on that is coprime to `n`.
pub open spec fn is_entry_stride(step: nat, from: nat, n: nat) -> bool {
    &&& from <= step
    &&& coprime::gcd_of(step, n) == 1
    &&& forall|s: nat| from <= s < step ==> coprime::gcd_of(s, n) != 1
}

/// `count` nodes, a stride apart, wrapping round.
pub open spec fn strided(step: nat, n: nat, count: nat) -> Seq<u32> {
    Seq::new(count, |i: int| ((i * step) % n as int) as u32)
}

/// Number of nodes to start from.
pub open spec fn entry_count(n: nat, n_entry: nat) -> nat {
    if n_entry < n {
        n_entry
    } else {
        n
    }
}

/// Nodes to start from.
pub open spec fn is_entry_list(entries: Seq<u32>, n: nat, n_entry: nat) -> bool {
    exists|step: nat| #[trigger]
        is_entry_stride(step, n / entry_count(n, n_entry), n) && entries == strided(
            step,
            n,
            entry_count(n, n_entry),
        )
}

/// Nodes to start from: `n_entry` of `n` nodes, or all where there are fewer, a stride apart
/// that is close to even and coprime to `n`, so no node comes twice.
pub fn entry_points(n: usize, n_entry: usize) -> (entries: Vec<u32>)
    requires
        0 < n < u32::MAX,
        0 < n_entry,
    ensures
        is_entry_list(entries@, n as nat, n_entry as nat),
        entries@.len() == entry_count(n as nat, n_entry as nat),
        entries@.no_duplicates(),
        forall|i: int| 0 <= i < entries@.len() ==> #[trigger] entries@[i] < n,
{
    let count: usize = if n_entry < n {
        n_entry
    } else {
        n
    };
    let first: usize = n / count;
    assert(0 < first <= n) by (nonlinear_arith)
        requires
            0 < count <= n,
            first == n / count,
    ;
    let mut step: usize = first;
    while coprime::gcd(step, n) != 1
        invariant
            0 < n < u32::MAX,
            first <= step <= n + 1,
            first == n / count,
            forall|s: nat| first <= s < step ==> coprime::gcd_of(s, n as nat) != 1,
        decreases n + 1 - step,
    {
        proof {
            coprime::next_is_coprime(n as nat);
        }
        step += 1;
    }
    let mut entries: Vec<u32> = Vec::new();
    let mut i: usize = 0;
    while i < count
        invariant
            i <= count <= n < u32::MAX,
            0 < n,
            step <= n + 1,
            entries@ == strided(step as nat, n as nat, i as nat),
        decreases count - i,
    {
        assert(0 <= i * step <= 0xffff_ffff * 0xffff_ffff) by (nonlinear_arith)
            requires
                0 <= i <= 0xffff_ffff,
                0 <= step <= 0xffff_ffff,
        ;
        let at: u64 = (i as u64 * step as u64) % n as u64;
        entries.push(at as u32);
        assert((i * step) % n as int == at);
        i += 1;
        assert(entries@ =~= strided(step as nat, n as nat, i as nat));
    }
    proof {
        let s = step as nat;
        let m = n as nat;
        assert(is_entry_stride(s, m / entry_count(m, n_entry as nat), m));
        entries_are_distinct(entries@, m, n_entry as nat);
    }
    entries
}

/// Entries are distinct nodes, as many as asked for or as there are.
pub proof fn entries_are_distinct(entries: Seq<u32>, n: nat, n_entry: nat)
    requires
        0 < n <= u32::MAX,
        is_entry_list(entries, n, n_entry),
    ensures
        entries.len() == entry_count(n, n_entry),
        entries.no_duplicates(),
        forall|i: int| 0 <= i < entries.len() ==> #[trigger] entries[i] < n,
{
    let count = entry_count(n, n_entry);
    let s = choose|s: nat| #[trigger]
        is_entry_stride(s, n / count, n) && entries == strided(s, n, count);
    assert forall|a: int| 0 <= a < count implies #[trigger] entries[a] < n by {
        assert(0 <= (a * s) % n as int);
        assert((a * s) % (n as int) < n);
    }
    assert forall|a: int, b: int|
        0 <= a < entries.len() && 0 <= b < entries.len() && a != b implies entries[a]
        != entries[b] by {
        if entries[a] == entries[b] {
            assert(entries[a] < n && entries[b] < n);
            assert(0 <= (a * s) % n as int && (a * s) % (n as int) < n);
            assert(0 <= (b * s) % n as int && (b * s) % (n as int) < n);
            coprime::stride_is_injective(s, n, a, b);
        }
    }
}

/// Two numbers have a divisor in common besides one.
pub open spec fn share_divisor(a: nat, b: nat) -> bool {
    exists|d: int|
        d != 1 && d != -1 && #[trigger] coprime::divides(d, a as int) && coprime::divides(
            d,
            b as int,
        )
}

/// Entries are spread evenly: they start at the first node and go on by one stride, wrapping
/// round. The stride is the least from the even one on that has no divisor in common with the
/// number of nodes.
pub proof fn entries_are_spread(entries: Seq<u32>, n: nat, n_entry: nat) -> (step: nat)
    requires
        0 < n <= u32::MAX,
        0 < n_entry,
        is_entry_list(entries, n, n_entry),
    ensures
        step >= n / (if n_entry < n {
            n_entry
        } else {
            n
        }),
        forall|i: int|
            0 <= i < entries.len() ==> #[trigger] entries[i] == (i * step) % n as int,
        !share_divisor(step, n),
        forall|s: nat|
            n / (if n_entry < n {
                n_entry
            } else {
                n
            }) <= s < step ==> #[trigger] share_divisor(s, n),
{
    let from = n / entry_count(n, n_entry);
    let step = choose|step: nat| #[trigger]
        is_entry_stride(step, from, n) && entries == strided(step, n, entry_count(n, n_entry));
    assert forall|i: int| 0 <= i < entries.len() implies #[trigger] entries[i] == (i * step)
        % n as int by {
        vstd::arithmetic::div_mod::lemma_mod_bound(i * step, n as int);
    }
    if share_divisor(step, n) {
        let d = choose|d: int|
            d != 1 && d != -1 && #[trigger] coprime::divides(d, step as int) && coprime::divides(
                d,
                n as int,
            );
        coprime::gcd_is_greatest(step, n);
        assert(coprime::divides(d, coprime::gcd_of(step, n) as int));
        let q = choose|q: int| 1 == #[trigger] (d * q);
        assert(d == 1 || d == -1) by (nonlinear_arith)
            requires
                1 == d * q,
        ;
    }
    assert forall|s: nat| from <= s < step implies #[trigger] share_divisor(s, n) by {
        coprime::gcd_is_greatest(s, n);
        let g = coprime::gcd_of(s, n) as int;
        assert(g != 1);
        assert(coprime::divides(g, s as int) && coprime::divides(g, n as int));
    }
    step
}

/// Where as many entries are asked for as there are nodes, every node is one.
pub proof fn entries_cover_all(entries: Seq<u32>, n: nat, n_entry: nat, v: u32)
    requires
        0 < n <= u32::MAX,
        n <= n_entry,
        is_entry_list(entries, n, n_entry),
        v < n,
    ensures
        entries.contains(v),
{
    entries_are_distinct(entries, n, n_entry);
    let all = Set::new(|x: u32| x < n);
    below_is_finite(n);
    entries.unique_seq_to_set();
    assert(entries.to_set().subset_of(all)) by {
        assert forall|x: u32| entries.to_set().contains(x) implies all.contains(x) by {
            let i = choose|i: int| 0 <= i < entries.len() && entries[i] == x;
            assert(entries[i] < n);
        }
    }
    vstd::set_lib::lemma_subset_equality(entries.to_set(), all);
    assert(all.contains(v));
}

proof fn below_is_finite(n: nat)
    requires
        n <= u32::MAX,
    ensures
        Set::new(|x: u32| x < n).finite(),
        Set::new(|x: u32| x < n).len() == n,
    decreases n,
{
    let all = Set::new(|x: u32| x < n);
    if n == 0 {
        assert(all =~= Set::empty());
    } else {
        let m = (n - 1) as nat;
        below_is_finite(m);
        assert(all =~= Set::new(|x: u32| x < m).insert(m as u32));
    }
}

/// The rules of a greedy search: a node is expanded only if it got into the results.
pub open spec fn greedy_rules<M: Metric, S: Metric>(
    graph: &FlatGraph,
    metric: &M,
    query: u32,
    beam_width: usize,
    k: usize,
    gate: Option<Gate<'_, S>>,
) -> beam::Rules {
    let cap = if beam_width < k {
        k
    } else {
        beam_width
    };
    beam::rules_for(graph.neighbors@, metric, query, cap, false, true, gate)
}

/// `r` is what a search for `k` nodes from `n_entry` strided entries finds.
pub open spec fn is_found<M: Metric, S: Metric>(
    r: Seq<Scored>,
    graph: &FlatGraph,
    metric: &M,
    query: u32,
    k: usize,
    beam_width: usize,
    n_entry: usize,
    gate: Option<Gate<'_, S>>,
) -> bool {
    if k == 0 {
        r == Seq::<Scored>::empty()
    } else {
        exists|entries: Seq<u32>| #[trigger]
            is_entry_list(entries, graph.size(), n_entry as nat) && r == ranking::first_k(
                greedy_rules(graph, metric, query, beam_width, k, gate).outcome(entries).best,
                k as nat,
            )
    }
}

/// A stride is determined by where it starts, so there is one list of entries.
pub proof fn one_entry_list(a: Seq<u32>, b: Seq<u32>, n: nat, n_entry: nat)
    requires
        is_entry_list(a, n, n_entry),
        is_entry_list(b, n, n_entry),
    ensures
        a == b,
{
    let count = entry_count(n, n_entry);
    let s = choose|s: nat| #[trigger]
        is_entry_stride(s, n / count, n) && a == strided(s, n, count);
    let t = choose|t: nat| #[trigger]
        is_entry_stride(t, n / count, n) && b == strided(t, n, count);
    assert(s == t);
}

/// A beam as wide as the graph loses nothing: a node that can be reached from the entries is
/// among the results, or `k` results are and each of them is at least as near.
pub proof fn widest_beam_is_exact<M: Metric>(
    r: Seq<Scored>,
    graph: &FlatGraph,
    metric: &M,
    query: u32,
    k: usize,
    beam_width: usize,
    n_entry: usize,
    entries: Seq<u32>,
    v: u32,
)
    requires
        graph.wf(),
        0 < graph.size() <= beam_width,
        k > 0,
        is_found(r, graph, metric, query, k, beam_width, n_entry, None::<Gate<'_, M>>),
        is_entry_list(entries, graph.size(), n_entry as nat),
        beam::reachable(beam::links_of(graph.neighbors@), entries, v),
    ensures
        ({
            let x = Scored { id: v, bits: metric.measured(query as int, v as int) };
            r.contains(x) || (r.len() == k && forall|i: int|
                0 <= i < r.len() ==> (#[trigger] r[i]).leads(x))
        }),
{
    let rules = greedy_rules(graph, metric, query, beam_width, k, None::<Gate<'_, M>>);
    let from = choose|from: Seq<u32>| #[trigger]
        is_entry_list(from, graph.size(), n_entry as nat) && r == ranking::first_k(
            rules.outcome(from).best,
            k as nat,
        );
    one_entry_list(from, entries, graph.size(), n_entry as nat);
    entries_are_distinct(entries, graph.size(), n_entry as nat);
    let path = choose|path: Seq<u32>| #[trigger]
        beam::is_path(beam::links_of(graph.neighbors@), path) && entries.contains(path[0])
            && path.last() == v;
    assert(entries.len() > 0);
    rules.wide_search_finds_all(entries, v);
    rules.outcome_is_sound(entries);
    let best = rules.outcome(entries).best;
    let x = rules.scored(v);
    ranking::ranked_of_ordered(best);
    if !r.contains(x) {
        ranking::first_k_are_best(best, k as nat, x);
    }
}

/// A gate that nothing is similar enough to close changes nothing: coherence-gated search then
/// finds what greedy search finds.
pub proof fn idle_gate_is_greedy<M: Metric, S: Metric>(
    r: Seq<Scored>,
    graph: &FlatGraph,
    metric: &M,
    query: u32,
    k: usize,
    beam_width: usize,
    n_entry: usize,
    gate: Gate<'_, S>,
)
    requires
        graph.wf(),
        graph.size() > 0,
        forall|a: int, b: int|
            0 <= a < graph.size() && 0 <= b < graph.size() ==> !float_order::below(
                gate.threshold,
                #[trigger] gate.similarity.measured(a, b),
            ),
    ensures
        is_found(r, graph, metric, query, k, beam_width, n_entry, Some(gate)) <==> is_found(
            r,
            graph,
            metric,
            query,
            k,
            beam_width,
            n_entry,
            None::<Gate<'_, M>>,
        ),
{
    if k > 0 {
        let gated = greedy_rules(graph, metric, query, beam_width, k, Some(gate));
        let plain = greedy_rules(graph, metric, query, beam_width, k, None::<Gate<'_, M>>);
        assert(gated.agrees(plain)) by {
            assert(gated.dist =~= plain.dist);
            assert forall|recent: Seq<u32>, id: u32|
                id < gated.links.len() && beam::inside(recent, gated.links.len()) implies #[trigger] (
            gated.blocked)(recent, id) == (plain.blocked)(recent, id) by {
                if beam::covered(gate.similarity, gate.threshold, recent, id) {
                    let i = choose|i: int|
                        0 <= i < recent.len() && float_order::below(
                            gate.threshold,
                            gate.similarity.measured(id as int, #[trigger] recent[i] as int),
                        );
                    assert(recent[i] < gated.links.len());
                    assert(!float_order::below(
                        gate.threshold,
                        gate.similarity.measured(id as int, recent[i] as int),
                    ));
                }
            }
        }
        assert forall|entries: Seq<u32>| #[trigger]
            is_entry_list(entries, graph.size(), n_entry as nat) implies gated.outcome(entries)
            == plain.outcome(entries) by {
            entries_are_distinct(entries, graph.size(), n_entry as nat);
            gated.outcome_agrees(plain, entries);
        }
    }
}

/// Whether every distance from the query is a number that is not negative.
pub open spec fn plain_distances<M: Metric>(metric: &M, query: u32, n: nat) -> bool {
    forall|v: int|
        0 <= v < n ==> #[trigger] metric.measured(query as int, v) <= float_order::INFINITY
}

/// A node is among the results, or there are `k` of them and none is farther from the query.
pub open spec fn is_no_nearer<M: Metric>(
    r: Seq<Scored>,
    metric: &M,
    query: u32,
    k: usize,
    v: u32,
) -> bool {
    let d = metric.measured(query as int, v as int);
    r.contains(Scored { id: v, bits: d }) || (r.len() == k && forall|i: int|
        0 <= i < r.len() ==> (#[trigger] r[i]).bits <= d)
}

proof fn front_covers<M: Metric, S: Metric>(
    r: Seq<Scored>,
    graph: &FlatGraph,
    metric: &M,
    query: u32,
    k: usize,
    beam_width: usize,
    gate: Option<Gate<'_, S>>,
    entries: Seq<u32>,
    v: u32,
)
    requires
        graph.wf(),
        k > 0,
        v < graph.size(),
        plain_distances(metric, query, graph.size()),
        ({
            let rules = greedy_rules(graph, metric, query, beam_width, k, gate);
            let best = rules.outcome(entries).best;
            &&& r == ranking::first_k(best, k as nat)
            &&& rules.is_covered(best, v)
            &&& ranking::in_order(best)
            &&& forall|i: int|
                0 <= i < best.len() ==> {
                    let x = #[trigger] best[i];
                    x.id < graph.size() && x == rules.scored(x.id)
                }
        }),
    ensures
        is_no_nearer(r, metric, query, k, v),
{
    let rules = greedy_rules(graph, metric, query, beam_width, k, gate);
    let best = rules.outcome(entries).best;
    let x = rules.scored(v);
    assert(metric.measured(query as int, v as int) <= float_order::INFINITY);
    if best.contains(x) {
        let at = choose|at: int| 0 <= at < best.len() && best[at] == x;
        if at < r.len() {
            assert(r[at] == x);
        } else {
            assert forall|i: int| 0 <= i < r.len() implies (#[trigger] r[i]).bits <= x.bits by {
                assert(r[i] == best[i]);
                assert(best[i].leads(best[at]));
                assert(best[i] == rules.scored(best[i].id));
                assert(metric.measured(query as int, best[i].id as int) <= float_order::INFINITY);
            }
        }
    } else {
        assert forall|i: int| 0 <= i < r.len() implies (#[trigger] r[i]).bits <= x.bits by {
            assert(r[i] == best[i]);
        }
    }
}

/// Greedy search gives as many results as are asked for, or as many as there are nodes that can
/// be reached from the entries where those are fewer. Nothing nearer is left within reach:
/// every entry, and every neighbour of a result, is a result itself, or there are `k` results
/// and none of them is farther.
pub proof fn greedy_leaves_nothing_nearer<M: Metric>(
    r: Seq<Scored>,
    graph: &FlatGraph,
    metric: &M,
    query: u32,
    k: usize,
    beam_width: usize,
    n_entry: usize,
    entries: Seq<u32>,
)
    requires
        graph.wf(),
        graph.size() > 0,
        k > 0,
        n_entry > 0,
        is_found(r, graph, metric, query, k, beam_width, n_entry, None::<Gate<'_, M>>),
        is_entry_list(entries, graph.size(), n_entry as nat),
    ensures
        ({
            let all = beam::reached(beam::links_of(graph.neighbors@), entries).len();
            r.len() == (if k < all {
                k as nat
            } else {
                all
            })
        }),
        plain_distances(metric, query, graph.size()) ==> {
            &&& forall|i: int|
                0 <= i < entries.len() ==> is_no_nearer(r, metric, query, k, #[trigger] entries[i])
            &&& forall|i: int, j: int|
                0 <= i < r.len() && 0 <= j < graph.neighbors@[r[i].id as int]@.len()
                    ==> is_no_nearer(
                    r,
                    metric,
                    query,
                    k,
                    #[trigger] graph.neighbors@[r[i].id as int]@[j],
                )
        },
{
    let none = None::<Gate<'_, M>>;
    let rules = greedy_rules(graph, metric, query, beam_width, k, none);
    let from = choose|from: Seq<u32>| #[trigger]
        is_entry_list(from, graph.size(), n_entry as nat) && r == ranking::first_k(
            rules.outcome(from).best,
            k as nat,
        );
    one_entry_list(from, entries, graph.size(), n_entry as nat);
    entries_are_distinct(entries, graph.size(), n_entry as nat);
    let best = rules.outcome(entries).best;
    rules.outcome_is_sound(entries);
    rules.result_count(entries);
    if plain_distances(metric, query, graph.size()) {
        assert forall|v: int| 0 <= v < rules.links.len() implies #[trigger] (rules.dist)(v)
            <= float_order::INFINITY by {
            assert(metric.measured(query as int, v) <= float_order::INFINITY);
        }
        assert forall|i: int| 0 <= i < entries.len() implies is_no_nearer(
            r,
            metric,
            query,
            k,
            #[trigger] entries[i],
        ) by {
            rules.no_better_neighbour(entries, entries[i]);
            front_covers(r, graph, metric, query, k, beam_width, none, entries, entries[i]);
        }
        assert forall|i: int, j: int|
            0 <= i < r.len() && 0 <= j < graph.neighbors@[r[i].id as int]@.len() implies is_no_nearer(
            r,
            metric,
            query,
            k,
            #[trigger] graph.neighbors@[r[i].id as int]@[j],
        ) by {
            let v = graph.neighbors@[r[i].id as int]@[j];
            assert(best[i] == r[i]);
            assert(rules.links[best[i].id as int] == graph.neighbors@[best[i].id as int]@);
            assert(rules.links[best[i].id as int][j] == v);
            assert(rules.links[best[i].id as int].contains(v));
            rules.no_better_neighbour(entries, v);
            front_covers(r, graph, metric, query, k, beam_width, none, entries, v);
        }
    }
}

/// A node is let in where it is met first: it is no more similar than the threshold to that
/// node and to the seven expanded just before it.
pub open spec fn is_let_in<S: Metric>(
    graph: &FlatGraph,
    similarity: &S,
    threshold: u32,
    expanded: Seq<u32>,
    v: u32,
) -> bool {
    exists|i: int|
        0 <= i < expanded.len() && graph.neighbors@[(#[trigger] expanded[i]) as int]@.contains(v)
            && is_fresh(graph, similarity, threshold, expanded, v, i)
}

/// No node expanded before number `i` has `v` as a neighbour, and none of the eight up to it is
/// too similar to it.
pub open spec fn is_fresh<S: Metric>(
    graph: &FlatGraph,
    similarity: &S,
    threshold: u32,
    expanded: Seq<u32>,
    v: u32,
    i: int,
) -> bool {
    &&& forall|j: int|
        0 <= j < i ==> !graph.neighbors@[(#[trigger] expanded[j]) as int]@.contains(v)
    &&& forall|j: int|
        0 <= j <= i && i < j + 8 ==> !float_order::below(
            threshold,
            similarity.measured(v as int, #[trigger] expanded[j] as int),
        )
}

/// Coherence-gated search keeps to directions not yet explored: there is a list of the nodes it
/// expanded, all results among them, and a result is an entry or a node let in. Every entry and
/// every node let in is a result, or there are `k` results and none of them is farther.
pub proof fn gate_keeps_to_new_directions<M: Metric, S: Metric>(
    r: Seq<Scored>,
    graph: &FlatGraph,
    metric: &M,
    query: u32,
    k: usize,
    beam_width: usize,
    n_entry: usize,
    similarity: &S,
    threshold: u32,
    entries: Seq<u32>,
) -> (expanded: Seq<u32>)
    requires
        graph.wf(),
        graph.size() > 0,
        k > 0,
        n_entry > 0,
        is_found(
            r,
            graph,
            metric,
            query,
            k,
            beam_width,
            n_entry,
            Some(Gate { similarity, threshold }),
        ),
        is_entry_list(entries, graph.size(), n_entry as nat),
        plain_distances(metric, query, graph.size()),
    ensures
        forall|i: int| 0 <= i < expanded.len() ==> #[trigger] expanded[i] < graph.size(),
        forall|i: int|
            0 <= i < r.len() ==> expanded.contains((#[trigger] r[i]).id) && (entries.contains(
                r[i].id,
            ) || is_let_in(graph, similarity, threshold, expanded, r[i].id)),
        forall|v: u32|
            entries.contains(v) ==> #[trigger] is_no_nearer(r, metric, query, k, v),
        forall|v: u32| #[trigger]
            is_let_in(graph, similarity, threshold, expanded, v) ==> is_no_nearer(
                r,
                metric,
                query,
                k,
                v,
            ),
{
    let gate = Some(Gate { similarity, threshold });
    let rules = greedy_rules(graph, metric, query, beam_width, k, gate);
    let from = choose|from: Seq<u32>| #[trigger]
        is_entry_list(from, graph.size(), n_entry as nat) && r == ranking::first_k(
            rules.outcome(from).best,
            k as nat,
        );
    one_entry_list(from, entries, graph.size(), n_entry as nat);
    entries_are_distinct(entries, graph.size(), n_entry as nat);
    let best = rules.outcome(entries).best;
    assert forall|v: int| 0 <= v < rules.links.len() implies #[trigger] (rules.dist)(v)
        <= float_order::INFINITY by {
        assert(metric.measured(query as int, v) <= float_order::INFINITY);
    }
    rules.outcome_is_sound(entries);
    let expanded = rules.search_lets_in(entries);
    assert forall|v: u32| #[trigger] is_let_in(
        graph,
        similarity,
        threshold,
        expanded,
        v,
    ) <==> rules.lets_in(expanded, v) by {
        if rules.lets_in(expanded, v) {
            let i = choose|i: int| #[trigger]
                beam::first_meets(rules.links, expanded, v, i) && !(rules.blocked)(
                    beam::last_eight(expanded.take(i + 1)),
                    v,
                );
            let recent = beam::last_eight(expanded.take(i + 1));
            assert(expanded[i] < graph.size());
            assert(!beam::covered(similarity, threshold, recent, v));
            assert forall|j: int| 0 <= j <= i && i < j + 8 implies !float_order::below(
                threshold,
                similarity.measured(v as int, #[trigger] expanded[j] as int),
            ) by {
                let a = if i + 1 > 8 { j - (i + 1 - 8) } else { j };
                assert(recent[a] == expanded[j]);
            }
            assert forall|j: int| 0 <= j < i implies !graph.neighbors@[(
            #[trigger] expanded[j]) as int]@.contains(v) by {
                assert(expanded[j] < graph.size());
                assert(!rules.links[expanded[j] as int].contains(v));
            }
            assert(is_fresh(graph, similarity, threshold, expanded, v, i));
        }
        if is_let_in(graph, similarity, threshold, expanded, v) {
            let i = choose|i: int|
                0 <= i < expanded.len() && graph.neighbors@[(
                #[trigger] expanded[i]) as int]@.contains(v) && is_fresh(
                    graph,
                    similarity,
                    threshold,
                    expanded,
                    v,
                    i,
                );
            let recent = beam::last_eight(expanded.take(i + 1));
            assert(expanded[i] < graph.size());
            assert(!beam::covered(similarity, threshold, recent, v)) by {
                if beam::covered(similarity, threshold, recent, v) {
                    let a = choose|a: int|
                        0 <= a < recent.len() && float_order::below(
                            threshold,
                            similarity.measured(v as int, #[trigger] recent[a] as int),
                        );
                    let j = if i + 1 > 8 { a + (i + 1 - 8) } else { a };
                    assert(recent[a] == expanded[j]);
                }
            }
            assert forall|j: int| 0 <= j < i implies !rules.links[(
            #[trigger] expanded[j]) as int].contains(v) by {
                assert(expanded[j] < graph.size());
            }
            assert(beam::first_meets(rules.links, expanded, v, i));
        }
    }
    assert forall|i: int| 0 <= i < r.len() implies expanded.contains((#[trigger] r[i]).id) && (
    entries.contains(r[i].id) || is_let_in(graph, similarity, threshold, expanded, r[i].id)) by {
        assert(r[i] == best[i]);
    }
    assert forall|v: u32| entries.contains(v) implies #[trigger] is_no_nearer(
        r,
        metric,
        query,
        k,
        v,
    ) by {
        let a = choose|a: int| 0 <= a < entries.len() && entries[a] == v;
        assert(entries[a] < graph.size());
        assert(rules.is_admitted(entries, expanded, v));
        front_covers(r, graph, metric, query, k, beam_width, gate, entries, v);
    }
    assert forall|v: u32| #[trigger] is_let_in(
        graph,
        similarity,
        threshold,
        expanded,
        v,
    ) implies is_no_nearer(r, metric, query, k, v) by {
        let i = choose|i: int|
            0 <= i < expanded.len() && graph.neighbors@[(#[trigger] expanded[i]) as int]@.contains(
                v,
            ) && is_fresh(graph, similarity, threshold, expanded, v, i);
        let list = graph.neighbors@[expanded[i] as int]@;
        let a = choose|a: int| 0 <= a < list.len() && list[a] == v;
        assert(expanded[i] < graph.size());
        assert(rules.links[expanded[i] as int][a] < graph.size());
        assert(rules.is_admitted(entries, expanded, v));
        front_covers(r, graph, metric, query, k, beam_width, gate, entries, v);
    }
    expanded
}

fn strided_search<M: Metric, S: Metric>(
    graph: &FlatGraph,
    metric: &M,
    query: u32,
    k: usize,
    beam_width: usize,
    n_entry: usize,
    gate: Option<Gate<'_, S>>,
) -> (results: Vec<Scored>)
    requires
        k > 0 ==> {
            &&& graph.wf()
            &&& graph.size() > 0
            &&& n_entry > 0
            &&& query < metric.sources()
            &&& graph.size() <= metric.targets()
            &&& beam::gate_covers(gate, graph.size())
        },
    ensures
        is_found(results@, graph, metric, query, k, beam_width, n_entry, gate),
        results@.len() <= k,
        ranking::in_order(results@),
        ranking::distinct_ids(results@),
        k > 0 ==> results@.len() > 0,
        forall|i: int|
            0 <= i < results@.len() ==> (#[trigger] results@[i]).id < graph.size()
                && results@[i].bits == metric.measured(query as int, results@[i].id as int),
{
    if k == 0 {
        return Vec::new();
    }
    let cap: usize = if beam_width < k {
        k
    } else {
        beam_width
    };
    let n: usize = graph.vectors.len();
    let entries = entry_points(n, n_entry);
    let mut visited = VisitedSet::new(n);
    let ghost rules = greedy_rules(graph, metric, query, beam_width, k, gate);
    let found = beam::search_from(
        &graph.neighbors,
        metric,
        query,
        cap,
        false,
        true,
        gate,
        &entries,
        &mut visited,
    );
    proof {
        rules.outcome_is_sound(entries@);
    }
    let mut best = found.best;
    if k < best.len() {
        best.truncate(k);
        assert(best@ =~= found.best@.take(k as int));
    }
    proof {
        let whole = rules.outcome(entries@).best;
        assert forall|i: int| 0 <= i < best@.len() implies (#[trigger] best@[i]).id < graph.size()
            && best@[i].bits == metric.measured(query as int, best@[i].id as int) by {
            assert(best@[i] == whole[i]);
        }
    }
    best
}

/// Greedy beam search: always expands the candidate nearest to the query.
pub struct GreedyBeam<'a> {
    /// The graph searched.
    pub graph: &'a FlatGraph,
    /// Number of entry points.
    pub n_entry: usize,
}

impl<'a> GreedyBeam<'a> {
    /// Name of the method.
    pub fn name(&self) -> (name: &str)
        ensures
            name@ == "GreedyBeam"@,
    {
        "GreedyBeam"
    }

    /// The `k` best nodes found, nearest first.
    pub fn search<M: Metric>(&self, metric: &M, query: u32, k: usize, beam_width: usize) -> (results: Vec<SearchResult>)
        requires
            k > 0 ==> {
                &&& self.graph.wf()
                &&& self.graph.size() > 0
                &&& self.n_entry > 0
                &&& query < metric.sources()
                &&& self.graph.size() <= metric.targets()
            },
        ensures
            is_found(
                results@,
                self.graph,
                metric,
                query,
                k,
                beam_width,
                self.n_entry,
                None::<Gate<'_, M>>,
            ),
            results@.len() <= k,
            k > 0 ==> results@.len() > 0,
            ranking::in_order(results@),
            ranking::distinct_ids(results@),
            forall|i: int|
                0 <= i < results@.len() ==> (#[trigger] results@[i]).id < self.graph.size()
                    && results@[i].bits == metric.measured(query as int, results@[i].id as int),
    {
        strided_search(
            self.graph,
            metric,
            query,
            k,
            beam_width,
            self.n_entry,
            None::<Gate<'_, M>>,
        )
    }
}

/// Beam search that passes over nodes in directions already explored.
pub struct CoherenceBeam<'a> {
    /// The graph searched.
    pub graph: &'a FlatGraph,
    /// Number of entry points.
    pub n_entry: usize,
    /// The bits of the cosine similarity above which a node is passed over.
    pub coherence_threshold: u32,
}

impl<'a> CoherenceBeam<'a> {
    /// Name of the method.
    pub fn name(&self) -> (name: &str)
        ensures
            name@ == "CoherenceBeam"@,
    {
        "CoherenceBeam"
    }

    /// The `k` best nodes found, nearest first. `similarity` measures the cosine between
    /// nodes; a node more similar than the threshold to one of the eight nodes expanded last
    /// is passed over for good.
    pub fn search<M: Metric, S: Metric>(
        &self,
        metric: &M,
        similarity: &S,
        query: u32,
        k: usize,
        beam_width: usize,
    ) -> (results: Vec<SearchResult>)
        requires
            k > 0 ==> {
                &&& self.graph.wf()
                &&& self.graph.size() > 0
                &&& self.n_entry > 0
                &&& query < metric.sources()
                &&& self.graph.size() <= metric.targets()
                &&& self.graph.size() <= similarity.sources()
                &&& self.graph.size() <= similarity.targets()
            },
        ensures
            is_found(
                results@,
                self.graph,
                metric,
                query,
                k,
                beam_width,
                self.n_entry,
                Some(Gate { similarity, threshold: self.coherence_threshold }),
            ),
            results@.len() <= k,
            k > 0 ==> results@.len() > 0,
            ranking::in_order(results@),
            ranking::distinct_ids(results@),
            forall|i: int|
                0 <= i < results@.len() ==> (#[trigger] results@[i]).id < self.graph.size()
                    && results@[i].bits == metric.measured(query as int, results@[i].id as int),
    {
        strided_search(
            self.graph,
            metric,
            query,
            k,
            beam_width,
            self.n_entry,
            Some(Gate { similarity, threshold: self.coherence_threshold }),
        )
    }
}

/// How relevance and diversity make one score.
pub trait Blend {
    /// Whether a score can be computed.
    spec fn defined(&self) -> bool;

    /// The score of a candidate at distance `dist` from the query, `scale` being the largest
    /// such distance and `diversity` its least dissimilarity to what was selected.
    spec fn blended(&self, dist: u32, scale: u32, diversity: u32) -> u32;

    /// Computes the score.
    fn blend(&self, dist: u32, scale: u32, diversity: u32) -> (score: u32)
        requires
            self.defined(),
        ensures
            score == self.blended(dist, scale, diversity),
    ;
}

/// Relevance alone: the nearer, the higher, and diversity plays no part.
pub struct RelevanceOnly;

impl Blend for RelevanceOnly {
    open spec fn defined(&self) -> bool {
        true
    }

    open spec fn blended(&self, dist: u32, scale: u32, diversity: u32) -> u32 {
        if dist <= float_order::INFINITY {
            (float_order::INFINITY - dist) as u32
        } else {
            float_order::NEG_INFINITY
        }
    }

    fn blend(&self, dist: u32, scale: u32, diversity: u32) -> (score: u32) {
        if dist <= float_order::INFINITY {
            float_order::INFINITY - dist
        } else {
            float_order::NEG_INFINITY
        }
    }
}

/// A score that a function works out.
pub struct BlendWith<F> {
    /// The function of distance, scale and diversity.
    pub f: F,
}

impl<F: Fn(u32, u32, u32) -> u32> BlendWith<F> {
    /// What the function gives.
    pub open spec fn result(&self, dist: u32, scale: u32, diversity: u32) -> u32 {
        choose|score: u32| #[trigger] call_ensures(self.f, (dist, scale, diversity), score)
    }
}

impl<F: Fn(u32, u32, u32) -> u32> Blend for BlendWith<F> {
    /// The function gives a score for everything, and always the same.
    open spec fn defined(&self) -> bool {
        &&& forall|dist: u32, scale: u32, diversity: u32| #[trigger]
            call_requires(self.f, (dist, scale, diversity))
        &&& forall|dist: u32, scale: u32, diversity: u32, a: u32, b: u32| #[trigger]
            call_ensures(self.f, (dist, scale, diversity), a) && #[trigger] call_ensures(
                self.f,
                (dist, scale, diversity),
                b,
            ) ==> a == b
    }

    open spec fn blended(&self, dist: u32, scale: u32, diversity: u32) -> u32 {
        self.result(dist, scale, diversity)
    }

    fn blend(&self, dist: u32, scale: u32, diversity: u32) -> (score: u32) {
        (self.f)(dist, scale, diversity)
    }
}

/// The largest of nought and the first `n` distances.
pub open spec fn largest_dist(pool: Seq<Scored>, n: nat) -> u32
    decreases n,
{
    if n == 0 {
        0
    } else {
        float_order::larger(largest_dist(pool, (n - 1) as nat), pool[n - 1].bits)
    }
}

/// What distances are divided by: the largest in the pool, but not nought.
pub open spec fn scale_of(pool: Seq<Scored>) -> u32 {
    float_order::larger(largest_dist(pool, pool.len()), MIN_SCALE)
}

/// The least dissimilarity of `id` to the first `n` selected.
pub open spec fn least_apart<A: Metric>(apart: &A, id: u32, selected: Seq<Scored>, n: nat) -> u32
    decreases n,
{
    if n == 0 {
        float_order::INFINITY
    } else {
        float_order::smaller(
            least_apart(apart, id, selected, (n - 1) as nat),
            apart.measured(id as int, selected[n - 1].id as int),
        )
    }
}

/// How much a candidate differs from what was selected; in full where nothing was.
pub open spec fn diversity_of<A: Metric>(apart: &A, id: u32, selected: Seq<Scored>) -> u32 {
    if selected.len() == 0 {
        float_order::ONE
    } else {
        least_apart(apart, id, selected, selected.len())
    }
}

/// The score of candidate `i`.
pub open spec fn score_of<A: Metric, B: Blend>(
    apart: &A,
    blend: &B,
    pool: Seq<Scored>,
    selected: Seq<Scored>,
    i: int,
) -> u32 {
    blend.blended(pool[i].bits, scale_of(pool), diversity_of(apart, pool[i].id, selected))
}

/// The candidate among the first `n` with the highest score, the first of equals; the first
/// of all where no score is a number above negative infinity. With it the score.
pub open spec fn best_of<A: Metric, B: Blend>(
    apart: &A,
    blend: &B,
    pool: Seq<Scored>,
    selected: Seq<Scored>,
    n: nat,
) -> (int, u32)
    decreases n,
{
    if n == 0 {
        (0, float_order::NEG_INFINITY)
    } else {
        let before = best_of(apart, blend, pool, selected, (n - 1) as nat);
        let score = score_of(apart, blend, pool, selected, n - 1);
        if float_order::below(before.1, score) {
            (n - 1, score)
        } else {
            before
        }
    }
}

/// The selection continued until there are `k` or the pool is empty.
pub open spec fn selection<A: Metric, B: Blend>(
    apart: &A,
    blend: &B,
    pool: Seq<Scored>,
    selected: Seq<Scored>,
    k: nat,
) -> Seq<Scored>
    decreases pool.len(),
{
    if selected.len() < k && pool.len() > 0 {
        let best = best_of(apart, blend, pool, selected, pool.len()).0;
        if 0 <= best < pool.len() {
            selection(apart, blend, pool.remove(best), selected.push(pool[best]), k)
        } else {
            selected
        }
    } else {
        selected
    }
}

/// The best candidate is in the pool.
pub proof fn best_is_in_pool<A: Metric, B: Blend>(
    apart: &A,
    blend: &B,
    pool: Seq<Scored>,
    selected: Seq<Scored>,
    n: nat,
)
    ensures
        0 <= best_of(apart, blend, pool, selected, n).0,
        n > 0 ==> best_of(apart, blend, pool, selected, n).0 < n,
        n == 0 ==> best_of(apart, blend, pool, selected, n).0 == 0,
    decreases n,
{
    if n > 0 {
        best_is_in_pool(apart, blend, pool, selected, (n - 1) as nat);
    }
}

/// A selection takes from the pool, nothing twice, and takes as many as are asked for or there.
pub proof fn selection_holds<A: Metric, B: Blend>(
    apart: &A,
    blend: &B,
    pool: Seq<Scored>,
    selected: Seq<Scored>,
    k: nat,
)
    requires
        ranking::distinct_ids(selected + pool),
        selected.len() <= k,
    ensures
        ({
            let r = selection(apart, blend, pool, selected, k);
            &&& r.len() == (if selected.len() + pool.len() < k {
                selected.len() + pool.len()
            } else {
                k
            })
            &&& ranking::distinct_ids(r)
            &&& r.take(selected.len() as int) == selected
            &&& forall|i: int|
                selected.len() <= i < r.len() ==> pool.contains(#[trigger] r[i])
        }),
    decreases pool.len(),
{
    if selected.len() < k && pool.len() > 0 {
        best_is_in_pool(apart, blend, pool, selected, pool.len());
        let best = best_of(apart, blend, pool, selected, pool.len()).0;
        let rest = pool.remove(best);
        let grown = selected.push(pool[best]);
        let whole = selected + pool;
        let next = grown + rest;
        let m = selected.len() as int;
        assert forall|i: int, j: int| 0 <= i < j < next.len() implies (#[trigger] next[i]).id != (
        #[trigger] next[j]).id by {
            let a = if i < m { i } else if i == m { m + best } else if i - m - 1 < best { i - 1 } else { i };
            let b = if j < m { j } else if j == m { m + best } else if j - m - 1 < best { j - 1 } else { j };
            assert(next[i] == whole[a]);
            assert(next[j] == whole[b]);
            assert(a != b);
            if a < b {
                assert(whole[a].id != whole[b].id);
            } else {
                assert(whole[b].id != whole[a].id);
            }
        }
        selection_holds(apart, blend, rest, grown, k);
        let r = selection(apart, blend, pool, selected, k);
        assert(r.take(m) =~= r.take(m + 1).take(m));
        assert(grown.take(m) =~= selected);
        assert forall|i: int| m <= i < r.len() implies pool.contains(#[trigger] r[i]) by {
            if i == m {
                assert(r.take(m + 1)[m] == r[m]);
                assert(r[m] == pool[best]);
            } else {
                assert(rest.contains(r[i]));
                let a = choose|a: int| 0 <= a < rest.len() && rest[a] == r[i];
                let b = if a < best { a } else { a + 1 };
                assert(pool[b] == r[i]);
            }
        }
    } else {
        assert(selected.take(selected.len() as int) =~= selected);
        assert forall|i: int, j: int| 0 <= i < j < selected.len() implies (#[trigger] selected[i]).id != (
        #[trigger] selected[j]).id by {
            assert((selected + pool)[i].id != (selected + pool)[j].id);
        }
    }
}

/// `scale` is the largest distance in the pool, or one millionth where none is larger.
pub open spec fn is_scale(scale: u32, pool: Seq<Scored>) -> bool {
    &&& float_order::at_most(MIN_SCALE, scale)
    &&& forall|i: int|
        0 <= i < pool.len() && !float_order::not_a_number((#[trigger] pool[i]).bits)
            ==> float_order::at_most(pool[i].bits, scale)
    &&& scale == MIN_SCALE || exists|i: int| 0 <= i < pool.len() && (#[trigger] pool[i]).bits == scale
}

/// `diversity` is one where nothing is selected. Otherwise it is the least dissimilarity of the
/// node to a selected one, the first of equals.
pub open spec fn is_diversity<A: Metric>(
    diversity: u32,
    apart: &A,
    id: u32,
    selected: Seq<Scored>,
) -> bool {
    if selected.len() == 0 {
        diversity == float_order::ONE
    } else {
        &&& forall|s: int|
            0 <= s < selected.len() ==> float_order::at_most(
                diversity,
                apart.measured(id as int, (#[trigger] selected[s]).id as int),
            )
        &&& exists|s: int|
            0 <= s < selected.len() && diversity == apart.measured(
                id as int,
                (#[trigger] selected[s]).id as int,
            ) && is_first_least(diversity, apart, id, selected, s)
    }
}

/// All selected before `s` are more dissimilar.
pub open spec fn is_first_least<A: Metric>(
    diversity: u32,
    apart: &A,
    id: u32,
    selected: Seq<Scored>,
    s: int,
) -> bool {
    forall|t: int|
        0 <= t < s ==> float_order::below(
            diversity,
            apart.measured(id as int, (#[trigger] selected[t]).id as int),
        )
}

/// Dissimilarities of the node to what is selected are numbers.
pub open spec fn has_numbers<A: Metric>(apart: &A, id: u32, selected: Seq<Scored>) -> bool {
    forall|s: int|
        0 <= s < selected.len() ==> !float_order::not_a_number(
            apart.measured(id as int, (#[trigger] selected[s]).id as int),
        )
}

/// The diversity of a candidate is the least of its dissimilarities to what is selected: it is
/// at most each of them and equal to one.
pub proof fn diversity_is_least<A: Metric>(apart: &A, id: u32, selected: Seq<Scored>)
    requires
        has_numbers(apart, id, selected),
    ensures
        is_diversity(diversity_of(apart, id, selected), apart, id, selected),
{
    if selected.len() > 0 {
        least_apart_holds(apart, id, selected, selected.len());
    }
}

proof fn least_apart_holds<A: Metric>(apart: &A, id: u32, selected: Seq<Scored>, n: nat)
    requires
        0 < n <= selected.len(),
        has_numbers(apart, id, selected),
    ensures
        ({
            let d = least_apart(apart, id, selected, n);
            &&& forall|s: int|
                0 <= s < n ==> float_order::at_most(
                    d,
                    apart.measured(id as int, (#[trigger] selected[s]).id as int),
                )
            &&& exists|s: int|
                0 <= s < n && d == apart.measured(id as int, (#[trigger] selected[s]).id as int)
                    && is_first_least(d, apart, id, selected, s)
        }),
    decreases n,
{
    let d = least_apart(apart, id, selected, n);
    let last = apart.measured(id as int, selected[n - 1].id as int);
    assert(!float_order::not_a_number(last));
    if n == 1 {
        assert(least_apart(apart, id, selected, 0) == float_order::INFINITY);
        assert(d == last);
        assert(is_first_least(d, apart, id, selected, 0));
        assert(selected[0].id == selected[n - 1].id);
    } else {
        least_apart_holds(apart, id, selected, (n - 1) as nat);
        let e = least_apart(apart, id, selected, (n - 1) as nat);
        let s = choose|s: int|
            0 <= s < n - 1 && e == apart.measured(id as int, (#[trigger] selected[s]).id as int)
                && is_first_least(e, apart, id, selected, s);
        if float_order::below(last, e) {
            assert(is_first_least(d, apart, id, selected, n - 1)) by {
                assert forall|t: int| 0 <= t < n - 1 implies float_order::below(
                    d,
                    apart.measured(id as int, (#[trigger] selected[t]).id as int),
                ) by {
                    assert(float_order::at_most(
                        e,
                        apart.measured(id as int, selected[t].id as int),
                    ));
                }
            }
            assert(d == apart.measured(id as int, selected[n - 1].id as int));
        } else {
            assert(d == e);
            assert(d == apart.measured(id as int, selected[s].id as int));
        }
    }
}

proof fn one_diversity<A: Metric>(a: u32, b: u32, apart: &A, id: u32, selected: Seq<Scored>)
    requires
        is_diversity(a, apart, id, selected),
        is_diversity(b, apart, id, selected),
    ensures
        a == b,
{
    if selected.len() > 0 {
        let s = choose|s: int|
            0 <= s < selected.len() && a == apart.measured(
                id as int,
                (#[trigger] selected[s]).id as int,
            ) && is_first_least(a, apart, id, selected, s);
        let t = choose|t: int|
            0 <= t < selected.len() && b == apart.measured(
                id as int,
                (#[trigger] selected[t]).id as int,
            ) && is_first_least(b, apart, id, selected, t);
        assert(selected[s].id == selected[s].id && selected[t].id == selected[t].id);
    }
}

proof fn largest_holds(pool: Seq<Scored>, n: nat)
    requires
        n <= pool.len(),
    ensures
        float_order::at_most(0, largest_dist(pool, n)),
        forall|i: int|
            0 <= i < n && !float_order::not_a_number((#[trigger] pool[i]).bits)
                ==> float_order::at_most(pool[i].bits, largest_dist(pool, n)),
        largest_dist(pool, n) == 0 || exists|i: int|
            0 <= i < n && (#[trigger] pool[i]).bits == largest_dist(pool, n),
    decreases n,
{
    if n > 0 {
        largest_holds(pool, (n - 1) as nat);
        assert(pool[n - 1].bits == pool[n - 1].bits);
    }
}

/// Distances are divided by the largest in the pool.
pub proof fn scale_is_largest(pool: Seq<Scored>, scale: u32)
    ensures
        is_scale(scale, pool) <==> scale == scale_of(pool),
{
    largest_holds(pool, pool.len());
    let own = scale_of(pool);
    assert(is_scale(own, pool));
    if is_scale(scale, pool) {
        assert(float_order::at_most(scale, own)) by {
            if scale != MIN_SCALE {
                let i = choose|i: int|
                    0 <= i < pool.len() && (#[trigger] pool[i]).bits == scale;
                assert(float_order::at_most(pool[i].bits, own));
            }
        }
        assert(float_order::at_most(own, scale)) by {
            if own != MIN_SCALE {
                let i = choose|i: int| 0 <= i < pool.len() && (#[trigger] pool[i]).bits == own;
                assert(float_order::at_most(pool[i].bits, scale));
            }
        }
    }
}

proof fn best_of_is_best<A: Metric, B: Blend>(
    apart: &A,
    blend: &B,
    pool: Seq<Scored>,
    selected: Seq<Scored>,
    n: nat,
)
    requires
        n <= pool.len(),
    ensures
        ({
            let (best, top) = best_of(apart, blend, pool, selected, n);
            &&& !float_order::not_a_number(top)
            &&& forall|i: int|
                0 <= i < n ==> !float_order::below(
                    top,
                    #[trigger] score_of(apart, blend, pool, selected, i),
                )
            &&& {
                ||| top == float_order::NEG_INFINITY && best == 0
                ||| {
                    &&& 0 <= best < n
                    &&& top == score_of(apart, blend, pool, selected, best)
                    &&& float_order::below(float_order::NEG_INFINITY, top)
                    &&& forall|i: int|
                        0 <= i < best ==> !float_order::at_most(
                            top,
                            #[trigger] score_of(apart, blend, pool, selected, i),
                        )
                }
            }
        }),
    decreases n,
{
    if n > 0 {
        best_of_is_best(apart, blend, pool, selected, (n - 1) as nat);
    }
}

/// Items of a list in the order of another.
pub open spec fn keeps_order(rest: Seq<Scored>, pool: Seq<Scored>) -> bool {
    forall|i: int, j: int|
        0 <= i < j < rest.len() ==> comes_before(#[trigger] rest[i], #[trigger] rest[j], pool)
}

/// One item stands before another in a list.
pub open spec fn comes_before(x: Scored, y: Scored, pool: Seq<Scored>) -> bool {
    exists|a: int, b: int|
        0 <= a < b < pool.len() && #[trigger] pool[a] == x && #[trigger] pool[b] == y
}

/// What is left of a pool once the first `m` were selected.
proof fn selection_goes_on<A: Metric, B: Blend>(
    apart: &A,
    blend: &B,
    pool: Seq<Scored>,
    selected: Seq<Scored>,
    k: nat,
    m: nat,
) -> (rest: Seq<Scored>)
    requires
        ranking::distinct_ids(selected + pool),
        selected.len() <= m < selection(apart, blend, pool, selected, k).len(),
        selected.len() <= k,
    ensures
        ({
            let r = selection(apart, blend, pool, selected, k);
            let best = best_of(apart, blend, rest, r.take(m as int), rest.len()).0;
            &&& 0 <= best < rest.len()
            &&& rest[best] == r[m as int]
            &&& keeps_order(rest, pool)
            &&& forall|x: Scored| #[trigger]
                rest.contains(x) <==> pool.contains(x) && !r.take(m as int).contains(x)
        }),
    decreases pool.len(),
{
    let r = selection(apart, blend, pool, selected, k);
    selection_holds(apart, blend, pool, selected, k);
    best_is_in_pool(apart, blend, pool, selected, pool.len());
    let best = best_of(apart, blend, pool, selected, pool.len()).0;
    let left = pool.remove(best);
    let grown = selected.push(pool[best]);
    let whole = selected + pool;
    let size = selected.len() as int;
    let next = grown + left;
    assert forall|i: int, j: int| 0 <= i < j < next.len() implies (#[trigger] next[i]).id != (
    #[trigger] next[j]).id by {
        let a = if i < size { i } else if i == size { size + best } else if i - size - 1 < best { i - 1 } else { i };
        let b = if j < size { j } else if j == size { size + best } else if j - size - 1 < best { j - 1 } else { j };
        assert(next[i] == whole[a]);
        assert(next[j] == whole[b]);
        assert(a != b);
        if a < b {
            assert(whole[a].id != whole[b].id);
        } else {
            assert(whole[b].id != whole[a].id);
        }
    }
    selection_holds(apart, blend, left, grown, k);
    assert(r.take(size + 1)[size] == r[size]);
    if m == selected.len() {
        assert(keeps_order(pool, pool));
        assert forall|x: Scored| #[trigger] pool.contains(x) implies !r.take(m as int).contains(
            x,
        ) by {
            if selected.contains(x) {
                let a = choose|a: int| 0 <= a < selected.len() && selected[a] == x;
                let b = choose|b: int| 0 <= b < pool.len() && pool[b] == x;
                assert(whole[a].id != whole[size + b].id);
            }
        }
        pool
    } else {
        let rest = selection_goes_on(apart, blend, left, grown, k, m);
        assert forall|i: int, j: int| 0 <= i < j < rest.len() implies comes_before(
            #[trigger] rest[i],
            #[trigger] rest[j],
            pool,
        ) by {
            assert(comes_before(rest[i], rest[j], left));
            let (a, b) = choose|a: int, b: int|
                0 <= a < b < left.len() && #[trigger] left[a] == rest[i] && #[trigger] left[b]
                    == rest[j];
            let c = if a < best { a } else { a + 1 };
            let d = if b < best { b } else { b + 1 };
            assert(pool[c] == rest[i] && pool[d] == rest[j]);
        }
        assert forall|x: Scored| #[trigger] rest.contains(x) <==> pool.contains(x) && !r.take(
            m as int,
        ).contains(x) by {
            let front = r.take(m as int);
            assert(front[size] == pool[best]);
            if left.contains(x) {
                let a = choose|a: int| 0 <= a < left.len() && left[a] == x;
                let c = if a < best { a } else { a + 1 };
                assert(pool[c] == x);
            }
            if pool.contains(x) && x != pool[best] {
                let c = choose|c: int| 0 <= c < pool.len() && pool[c] == x;
                let a = if c < best { c } else { c - 1 };
                assert(left[a] == x);
            }
        }
        rest
    }
}

/// Marginal relevance: at every turn the candidate with the highest blend is selected, of
/// equals the first in the pool. What is blended is the distance from the query, the largest
/// distance among the candidates left, and the least dissimilarity to what was selected before.
pub proof fn selection_is_best_blend<A: Metric, B: Blend>(
    apart: &A,
    blend: &B,
    pool: Seq<Scored>,
    k: nat,
    results: Seq<Scored>,
    m: int,
    c: Scored,
    left: Seq<Scored>,
    scale: u32,
    diversity: u32,
    other_diversity: u32,
)
    requires
        ranking::distinct_ids(pool),
        results == selection(apart, blend, pool, Seq::empty(), k),
        0 <= m < results.len(),
        pool.contains(c),
        !results.take(m).contains(c),
        forall|x: Scored| #[trigger]
            left.contains(x) <==> pool.contains(x) && !results.take(m).contains(x),
        is_scale(scale, left),
        has_numbers(apart, results[m].id, results.take(m)),
        has_numbers(apart, c.id, results.take(m)),
        is_diversity(diversity, apart, results[m].id, results.take(m)),
        is_diversity(other_diversity, apart, c.id, results.take(m)),
    ensures
        pool.contains(results[m]),
        !results.take(m).contains(results[m]),
        ({
            let taken = blend.blended(results[m].bits, scale, diversity);
            let passed = blend.blended(c.bits, scale, other_diversity);
            &&& !float_order::below(taken, passed)
            &&& float_order::not_a_number(taken) ==> !float_order::below(
                float_order::NEG_INFINITY,
                passed,
            )
            &&& comes_before(c, results[m], pool) ==> !float_order::at_most(taken, passed)
                && float_order::below(float_order::NEG_INFINITY, taken)
        }),
{
    let none = Seq::<Scored>::empty();
    let sel = results.take(m);
    assert(none + pool =~= pool);
    selection_holds(apart, blend, pool, none, k);
    let rest = selection_goes_on(apart, blend, pool, none, k, m as nat);
    let best = best_of(apart, blend, rest, sel, rest.len()).0;
    best_of_is_best(apart, blend, rest, sel, rest.len());
    assert(rest.contains(rest[best]));
    assert(is_scale(scale, rest)) by {
        assert forall|i: int|
            0 <= i < rest.len() && !float_order::not_a_number(
                (#[trigger] rest[i]).bits,
            ) implies float_order::at_most(rest[i].bits, scale) by {
            assert(rest.contains(rest[i]));
            assert(left.contains(rest[i]));
            let j = choose|j: int| 0 <= j < left.len() && left[j] == rest[i];
            assert(left[j].bits == rest[i].bits);
        }
        if scale != MIN_SCALE {
            let i = choose|i: int| 0 <= i < left.len() && (#[trigger] left[i]).bits == scale;
            assert(left.contains(left[i]));
            assert(rest.contains(left[i]));
            let j = choose|j: int| 0 <= j < rest.len() && rest[j] == left[i];
            assert(rest[j].bits == scale);
        }
    }
    scale_is_largest(rest, scale);
    diversity_is_least(apart, results[m].id, sel);
    diversity_is_least(apart, c.id, sel);
    one_diversity(diversity, diversity_of(apart, results[m].id, sel), apart, results[m].id, sel);
    one_diversity(other_diversity, diversity_of(apart, c.id, sel), apart, c.id, sel);
    assert(rest.contains(c));
    let at = choose|at: int| 0 <= at < rest.len() && rest[at] == c;
    assert(score_of(apart, blend, rest, sel, at) == blend.blended(c.bits, scale, other_diversity));
    assert(score_of(apart, blend, rest, sel, best) == blend.blended(
        results[m].bits,
        scale,
        diversity,
    ));
    if comes_before(c, results[m], pool) {
        assert(at < best) by {
            let (a, b) = choose|a: int, b: int|
                0 <= a < b < pool.len() && #[trigger] pool[a] == c && #[trigger] pool[b]
                    == results[m];
            if best < at {
                assert(comes_before(rest[best], rest[at], pool));
                let (d, e) = choose|d: int, e: int|
                    0 <= d < e < pool.len() && #[trigger] pool[d] == rest[best]
                        && #[trigger] pool[e] == rest[at];
                if d < b {
                    assert(pool[d].id != pool[b].id);
                } else if b < d {
                    assert(pool[b].id != pool[d].id);
                }
                if a < e {
                    assert(pool[a].id != pool[e].id);
                } else if e < a {
                    assert(pool[e].id != pool[a].id);
                }
            } else if best == at {
                assert(pool[a].id != pool[b].id);
            }
        }
    }
}

/// Whether nearness alone decides: a nearer candidate never scores lower, however diverse the
/// other is.
pub open spec fn prefers_nearer<B: Blend>(blend: &B) -> bool {
    forall|near: u32, far: u32, scale: u32, a: u32, b: u32|
        #![trigger blend.blended(near, scale, a), blend.blended(far, scale, b)]
        near <= far <= float_order::INFINITY ==> float_order::at_most(
            blend.blended(far, scale, b),
            blend.blended(near, scale, a),
        )
}

/// Relevance alone prefers the nearer.
pub proof fn relevance_prefers_nearer()
    ensures
        prefers_nearer(&RelevanceOnly),
{
}

/// Where nearness alone decides, the selection is the front of the pool: plain top-`k` by
/// distance.
pub proof fn nearness_alone_is_top_k<A: Metric, B: Blend>(
    apart: &A,
    blend: &B,
    pool: Seq<Scored>,
    selected: Seq<Scored>,
    k: nat,
)
    requires
        prefers_nearer(blend),
        ranking::in_order(pool),
        forall|i: int| 0 <= i < pool.len() ==> (#[trigger] pool[i]).bits <= float_order::INFINITY,
        selected.len() <= k,
    ensures
        selection(apart, blend, pool, selected, k) == selected + ranking::first_k(
            pool,
            (k - selected.len()) as nat,
        ),
    decreases pool.len(),
{
    if selected.len() < k && pool.len() > 0 {
        first_is_best(apart, blend, pool, selected, pool.len());
        let rest = pool.remove(0);
        let grown = selected.push(pool[0]);
        assert forall|i: int, j: int| 0 <= i < j < rest.len() implies (#[trigger] rest[i]).leads(
            #[trigger] rest[j],
        ) by {
            assert(pool[i + 1].leads(pool[j + 1]));
        }
        assert forall|i: int| 0 <= i < rest.len() implies (#[trigger] rest[i]).bits
            <= float_order::INFINITY by {
            assert(pool[i + 1].bits <= float_order::INFINITY);
        }
        nearness_alone_is_top_k(apart, blend, rest, grown, k);
        let left = (k - selected.len()) as nat;
        assert(grown + ranking::first_k(rest, (left - 1) as nat) =~= selected + ranking::first_k(
            pool,
            left,
        ));
    } else {
        assert(selected + ranking::first_k(pool, (k - selected.len()) as nat) =~= selected);
    }
}

proof fn first_is_best<A: Metric, B: Blend>(
    apart: &A,
    blend: &B,
    pool: Seq<Scored>,
    selected: Seq<Scored>,
    n: nat,
)
    requires
        prefers_nearer(blend),
        ranking::in_order(pool),
        0 < n <= pool.len(),
        forall|i: int| 0 <= i < pool.len() ==> (#[trigger] pool[i]).bits <= float_order::INFINITY,
    ensures
        best_of(apart, blend, pool, selected, n).0 == 0,
        float_order::at_most(
            score_of(apart, blend, pool, selected, 0),
            best_of(apart, blend, pool, selected, n).1,
        ),
    decreases n,
{
    let first = score_of(apart, blend, pool, selected, 0);
    let last = score_of(apart, blend, pool, selected, n - 1);
    if n == 1 {
        assert(best_of(apart, blend, pool, selected, 0) == (0int, float_order::NEG_INFINITY));
        assert(float_order::at_most(first, first));
    } else {
        first_is_best(apart, blend, pool, selected, (n - 1) as nat);
        assert(pool[0].leads(pool[n - 1]));
        assert(float_order::at_most(last, first));
    }
}

/// Greedy search for a wide pool, then a selection from it by marginal relevance.
pub struct MMRRerank<'a> {
    /// The graph searched.
    pub graph: &'a FlatGraph,
    /// Number of entry points.
    pub n_entry: usize,
}

/// Size of the pool for `k` results.
pub open spec fn pool_size(k: usize, beam_width: usize) -> int {
    if beam_width < k * 4 {
        k * 4
    } else {
        beam_width as int
    }
}

/// The pool is wide enough to choose from: it holds four candidates for each result, or as many
/// as the beam where that is more, or every node that can be reached.
pub proof fn pool_is_wide<M: Metric>(
    pool: Seq<Scored>,
    graph: &FlatGraph,
    metric: &M,
    query: u32,
    k: usize,
    beam_width: usize,
    n_entry: usize,
    entries: Seq<u32>,
)
    requires
        graph.wf(),
        graph.size() > 0,
        k > 0,
        k * 4 <= usize::MAX,
        n_entry > 0,
        is_found(
            pool,
            graph,
            metric,
            query,
            pool_size(k, beam_width) as usize,
            pool_size(k, beam_width) as usize,
            n_entry,
            None::<Gate<'_, M>>,
        ),
        is_entry_list(entries, graph.size(), n_entry as nat),
    ensures
        ({
            let all = beam::reached(beam::links_of(graph.neighbors@), entries).len();
            let wanted = if beam_width < 4 * k {
                4 * k
            } else {
                beam_width as int
            };
            pool.len() == (if wanted < all {
                wanted
            } else {
                all as int
            })
        }),
{
    let size = pool_size(k, beam_width) as usize;
    greedy_leaves_nothing_nearer(pool, graph, metric, query, size, size, n_entry, entries);
}

impl<'a> MMRRerank<'a> {
    /// Name of the method.
    pub fn name(&self) -> (name: &str)
        ensures
            name@ == "MMRRerank"@,
    {
        "MMRRerank"
    }

    /// Picks from a greedy pool, one by one, the candidate with the highest blend of
    /// relevance and diversity. `apart` measures how dissimilar two nodes are.
    pub fn search<M: Metric, A: Metric, B: Blend>(
        &self,
        metric: &M,
        apart: &A,
        blend: &B,
        query: u32,
        k: usize,
        beam_width: usize,
    ) -> (results: Vec<SearchResult>)
        requires
            k * 4 <= usize::MAX,
            blend.defined(),
            pool_size(k, beam_width) > 0 ==> {
                &&& self.graph.wf()
                &&& self.graph.size() > 0
                &&& self.n_entry > 0
                &&& query < metric.sources()
                &&& self.graph.size() <= metric.targets()
                &&& self.graph.size() <= apart.sources()
                &&& self.graph.size() <= apart.targets()
            },
        ensures
            exists|pool: Seq<Scored>|
                #![trigger selection(apart, blend, pool, Seq::<Scored>::empty(), k as nat)]
                is_found(
                    pool,
                    self.graph,
                    metric,
                    query,
                    pool_size(k, beam_width) as usize,
                    pool_size(k, beam_width) as usize,
                    self.n_entry,
                    None::<Gate<'_, M>>,
                ) && results@ == selection(apart, blend, pool, Seq::empty(), k as nat),
            ranking::distinct_ids(results@),
            results@.len() <= k,
            k > 0 ==> results@.len() > 0,
            forall|i: int|
                0 <= i < results@.len() ==> (#[trigger] results@[i]).id < self.graph.size()
                    && results@[i].bits == metric.measured(query as int, results@[i].id as int),
    {
        let wanted: usize = if beam_width < k * 4 {
            k * 4
        } else {
            beam_width
        };
        let greedy = GreedyBeam { graph: self.graph, n_entry: self.n_entry };
        let mut pool = greedy.search(metric, query, wanted, wanted);
        let ghost whole = pool@;
        let mut selected: Vec<Scored> = Vec::new();
        proof {
            assert(selected@ + whole =~= whole);
            selection_holds(apart, blend, whole, selected@, k as nat);
        }
        while selected.len() < k && pool.len() > 0
            invariant
                blend.defined(),
                selected@.len() <= k,
                selection(apart, blend, whole, Seq::empty(), k as nat) == selection(
                    apart,
                    blend,
                    pool@,
                    selected@,
                    k as nat,
                ),
                pool@.len() > 0 ==> self.graph.size() <= apart.sources() && self.graph.size()
                    <= apart.targets(),
                forall|i: int| 0 <= i < pool@.len() ==> (#[trigger] pool@[i]).id < self.graph.size(),
                forall|i: int|
                    0 <= i < selected@.len() ==> (#[trigger] selected@[i]).id < self.graph.size(),
            decreases pool@.len(),
        {
            let best: usize = self.mmr_pick(apart, blend, &pool, &selected);
            proof {
                best_is_in_pool(apart, blend, pool@, selected@, pool@.len());
            }
            let item = pool.remove(best);
            selected.push(item);
        }
        selected
    }

    fn mmr_pick<A: Metric, B: Blend>(
        &self,
        apart: &A,
        blend: &B,
        pool: &Vec<Scored>,
        selected: &Vec<Scored>,
    ) -> (best: usize)
        requires
            pool@.len() > 0,
            blend.defined(),
            forall|i: int| 0 <= i < pool@.len() ==> (#[trigger] pool@[i]).id < apart.sources(),
            forall|i: int|
                0 <= i < selected@.len() ==> (#[trigger] selected@[i]).id < apart.targets(),
        ensures
            best == best_of(apart, blend, pool@, selected@, pool@.len()).0,
            best < pool@.len(),
    {
        let mut largest: u32 = 0;
        let mut i: usize = 0;
        while i < pool.len()
            invariant
                i <= pool@.len(),
                largest == largest_dist(pool@, i as nat),
            decreases pool@.len() - i,
        {
            largest = float_order::max(largest, pool[i].bits);
            i += 1;
        }
        let scale: u32 = float_order::max(largest, MIN_SCALE);
        let mut best: usize = 0;
        let mut best_score: u32 = float_order::NEG_INFINITY;
        let mut c: usize = 0;
        while c < pool.len()
            invariant
                blend.defined(),
                c <= pool@.len(),
                pool@.len() > 0,
                best < pool@.len(),
                scale == scale_of(pool@),
                forall|i: int| 0 <= i < pool@.len() ==> (#[trigger] pool@[i]).id < apart.sources(),
                forall|i: int|
                    0 <= i < selected@.len() ==> (#[trigger] selected@[i]).id < apart.targets(),
                (best as int, best_score) == best_of(apart, blend, pool@, selected@, c as nat),
            decreases pool@.len() - c,
        {
            let x = pool[c];
            let diversity: u32 = if selected.len() == 0 {
                float_order::ONE
            } else {
                let mut least: u32 = float_order::INFINITY;
                let mut s: usize = 0;
                while s < selected.len()
                    invariant
                        s <= selected@.len(),
                        x.id < apart.sources(),
                        forall|i: int|
                            0 <= i < selected@.len() ==> (#[trigger] selected@[i]).id
                                < apart.targets(),
                        least == least_apart(apart, x.id, selected@, s as nat),
                    decreases selected@.len() - s,
                {
                    let other = selected[s];
                    let distance: u32 = apart.measure(x.id, other.id);
                    least = float_order::min(least, distance);
                    s += 1;
                }
                least
            };
            let score: u32 = blend.blend(x.bits, scale, diversity);
            if float_order::less(best_score, score) {
                best_score = score;
                best = c;
            }
            c += 1;
        }
        best
    }
}

} // verus!
