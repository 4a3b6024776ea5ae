//! Proximity graph of bounded degree, built by searching for each node and pruning what is
//! found, and repaired when nodes are deleted.
//!
//! Distances are measured by two metrics: the distance itself, and the distance stretched by
//! the pruning factor. A candidate is pruned when a neighbour already selected is nearer to it,
//! stretched, than the node itself.
use crate::adaptive::graph;
use crate::beam;
use crate::diskann::error::DiskAnnError;
use crate::float_order;
use crate::metric::Metric;
use crate::ranking;
use crate::ranking::Scored;
use crate::rng;
use crate::visited::VisitedSet;
use vstd::prelude::*;

verus! {

/// Whether bit `at` of a word is set.
pub open spec fn bit_set(word: u64, at: u64) -> bool {
    word & (1u64 << at) != 0
}

/// Whether a node is marked as deleted. Nodes past the marks are not.
pub open spec fn tombstoned(tombstones: Seq<u64>, node: int) -> bool {
    node / 64 < tombstones.len() && bit_set(tombstones[node / 64], (node % 64) as u64)
}

/// Whether a node is marked as deleted.
pub fn is_tombstoned(tombstones: &[u64], node: usize) -> (r: bool)
    ensures
        r == tombstoned(tombstones@, node as int),
{
    if node / 64 < tombstones.len() {
        let word: u64 = tombstones[node / 64];
        let at: u64 = (node % 64) as u64;
        word & (1u64 << at) != 0
    } else {
        false
    }
}

/// The marks with one more node marked as deleted.
pub open spec fn marked(tombstones: Seq<u64>, node: int) -> Seq<u64> {
    tombstones.update(node / 64, tombstones[node / 64] | (1u64 << ((node % 64) as u64)))
}

/// Marking a node leaves the marks of the others.
pub proof fn mark_holds(tombstones: Seq<u64>, node: int, other: int)
    requires
        0 <= node,
        0 <= other,
        node / 64 < tombstones.len(),
    ensures
        tombstoned(marked(tombstones, node), other) <==> other == node || tombstoned(
            tombstones,
            other,
        ),
{
    if node / 64 == other / 64 {
        let word = tombstones[node / 64];
        let a = (node % 64) as u64;
        let b = (other % 64) as u64;
        assert((word | (1u64 << a)) & (1u64 << b) != 0 <==> a == b || word & (1u64 << b) != 0)
            by (bit_vector)
            requires
                a < 64,
                b < 64,
        ;
    }
}

/// Marks a node as deleted.
pub fn mark(tombstones: &mut Vec<u64>, node: usize)
    requires
        node / 64 < old(tombstones)@.len(),
    ensures
        final(tombstones)@ == marked(old(tombstones)@, node as int),
{
    let at: u64 = (node % 64) as u64;
    let word: u64 = tombstones[node / 64] | (1u64 << at);
    tombstones.set(node / 64, word);
}

/// The rules of a graph search: a node as far as the worst of enough results is dropped.
pub open spec fn search_rules<M: Metric>(
    links: Seq<Seq<u32>>,
    metric: &M,
    query: int,
    beam_width: usize,
) -> beam::Rules {
    beam::Rules {
        links,
        dist: |v: int| metric.measured(query, v),
        blocked: beam::open_gate(),
        cap: if beam_width == 0 {
            1
        } else {
            beam_width as nat
        },
        explore_all: false,
        strict: false,
    }
}

/// The nodes that a search from `medoid` finds, nearest first.
pub open spec fn searched<M: Metric>(
    links: Seq<Seq<u32>>,
    medoid: u32,
    metric: &M,
    query: int,
    beam_width: usize,
) -> Seq<u32> {
    ranking::ids_of(search_rules(links, metric, query, beam_width).outcome(seq![medoid]).best)
}

/// Candidates other than `node`, with their distances from it.
pub open spec fn others<M: Metric>(metric: &M, node: u32, candidates: Seq<u32>) -> Seq<Scored>
    decreases candidates.len(),
{
    if candidates.len() == 0 {
        Seq::empty()
    } else {
        let before = others(metric, node, candidates.drop_last());
        let c = candidates.last();
        if c == node {
            before
        } else {
            before.push(Scored { id: c, bits: metric.measured(node as int, c as int) })
        }
    }
}

/// Whether a selected node is nearer to a candidate, stretched, than `bits`.
pub open spec fn occluded<A: Metric>(stretched: &A, selected: Seq<u32>, x: Scored) -> bool {
    exists|i: int|
        0 <= i < selected.len() && float_order::at_most(
            stretched.measured(#[trigger] selected[i] as int, x.id as int),
            x.bits,
        )
}

/// The candidates that survive pruning, looked at in order, at most `most` of them.
pub open spec fn survivors<A: Metric>(stretched: &A, sorted: Seq<Scored>, most: nat) -> Seq<u32>
    decreases sorted.len(),
{
    if sorted.len() == 0 {
        Seq::empty()
    } else {
        let before = survivors(stretched, sorted.drop_last(), most);
        if before.len() < most && !occluded(stretched, before, sorted.last()) {
            before.push(sorted.last().id)
        } else {
            before
        }
    }
}

/// The neighbours that `node` keeps out of `candidates`: nearest first, each unless it is
/// occluded by one kept before it.
pub open spec fn pruned<M: Metric, A: Metric>(
    metric: &M,
    stretched: &A,
    node: u32,
    candidates: Seq<u32>,
    most: nat,
) -> Seq<u32> {
    survivors(stretched, ranking::ranked(others(metric, node, candidates)), most)
}

/// The graph after `node` was added to the list of one neighbour, which is pruned where it is
/// full.
pub open spec fn back_link<M: Metric, A: Metric>(
    links: Seq<Seq<u32>>,
    metric: &M,
    stretched: &A,
    node: u32,
    to: u32,
    most: nat,
) -> Seq<Seq<u32>> {
    let list = links[to as int];
    if list.contains(node) {
        links
    } else if list.len() < most {
        links.update(to as int, list.push(node))
    } else {
        links.update(to as int, pruned(metric, stretched, to, list.push(node), most))
    }
}

/// The graph after `node` was added to the lists of several neighbours.
pub open spec fn back_links<M: Metric, A: Metric>(
    links: Seq<Seq<u32>>,
    metric: &M,
    stretched: &A,
    node: u32,
    tos: Seq<u32>,
    most: nat,
) -> Seq<Seq<u32>>
    decreases tos.len(),
{
    if tos.len() == 0 {
        links
    } else {
        back_link(
            back_links(links, metric, stretched, node, tos.drop_last(), most),
            metric,
            stretched,
            node,
            tos.last(),
            most,
        )
    }
}

/// What the graph is built with.
pub struct Building {
    /// Where searches start.
    pub medoid: u32,
    /// Most neighbours of a node.
    pub most: nat,
    /// Width of a search.
    pub beam: usize,
}

/// The graph after `node` searched for its neighbours, kept the pruned ones and was added to
/// their lists.
pub open spec fn relinked<M: Metric, A: Metric>(
    links: Seq<Seq<u32>>,
    b: Building,
    metric: &M,
    stretched: &A,
    node: u32,
) -> Seq<Seq<u32>> {
    let kept = pruned(
        metric,
        stretched,
        node,
        searched(links, b.medoid, metric, node as int, b.beam),
        b.most,
    );
    back_links(links.update(node as int, kept), metric, stretched, node, kept, b.most)
}

/// The graph after all these nodes, in order.
pub open spec fn passed<M: Metric, A: Metric>(
    links: Seq<Seq<u32>>,
    b: Building,
    metric: &M,
    stretched: &A,
    order: Seq<u32>,
) -> Seq<Seq<u32>>
    decreases order.len(),
{
    if order.len() == 0 {
        links
    } else {
        relinked(
            passed(links, b, metric, stretched, order.drop_last()),
            b,
            metric,
            stretched,
            order.last(),
        )
    }
}

/// Lists of bounded length that name other nodes, none twice.
pub open spec fn bounded(links: Seq<Seq<u32>>, most: nat) -> bool {
    forall|i: int|
        0 <= i < links.len() ==> graph::proper_list(#[trigger] links[i], i, links.len())
            && links[i].len() <= most
}

/// Every node once, in some order.
pub open spec fn is_order(order: Seq<u32>, n: nat) -> bool {
    order.to_multiset() == Seq::new(n, |i: int| i as u32).to_multiset()
}

/// A random graph to start from: for each node up to `degree` others, drawn at most three times
/// that often.
pub open spec fn is_random_start(links: Seq<Seq<u32>>, degree: int) -> bool {
    forall|i: int|
        0 <= i < links.len() ==> graph::with_jumps(
            Seq::empty(),
            #[trigger] links[i],
            i,
            links.len() as int,
            degree,
            3 * degree,
        )
}

/// The first of the nodes nearest to the centre.
pub open spec fn is_medoid(dists: Seq<u32>, m: int) -> bool {
    &&& 0 <= m < dists.len()
    &&& forall|i: int|
        0 <= i < dists.len() ==> float_order::total_rank(dists[m]) <= float_order::total_rank(
            #[trigger] dists[i],
        )
    &&& forall|i: int|
        0 <= i < m ==> float_order::total_rank(dists[m]) < float_order::total_rank(
            #[trigger] dists[i],
        )
}

proof fn others_hold<M: Metric>(metric: &M, node: u32, candidates: Seq<u32>)
    requires
        candidates.no_duplicates(),
    ensures
        ranking::distinct_ids(others(metric, node, candidates)),
        forall|i: int|
            0 <= i < others(metric, node, candidates).len() ==> candidates.contains(
                (#[trigger] others(metric, node, candidates)[i]).id,
            ) && others(metric, node, candidates)[i].id != node,
    decreases candidates.len(),
{
    if candidates.len() > 0 {
        let front = candidates.drop_last();
        assert(front.no_duplicates());
        others_hold(metric, node, front);
        let before = others(metric, node, front);
        let after = others(metric, node, candidates);
        assert forall|i: int| 0 <= i < after.len() implies candidates.contains(
            (#[trigger] after[i]).id,
        ) && after[i].id != node by {
            if i < before.len() {
                assert(front.contains(before[i].id));
                let j = choose|j: int| 0 <= j < front.len() && front[j] == before[i].id;
                assert(candidates[j] == before[i].id);
            } else {
                assert(candidates[candidates.len() - 1] == after[i].id);
            }
        }
        assert forall|i: int, j: int| 0 <= i < j < after.len() implies (#[trigger] after[i]).id != (
        #[trigger] after[j]).id by {
            if j == before.len() {
                assert(front.contains(before[i].id));
                let a = choose|a: int| 0 <= a < front.len() && front[a] == before[i].id;
                assert(candidates[a] != candidates[candidates.len() - 1]);
            } else {
                assert(before[i].id != before[j].id);
            }
        }
    }
}

proof fn survivors_hold<A: Metric>(stretched: &A, sorted: Seq<Scored>, most: nat)
    requires
        ranking::distinct_ids(sorted),
    ensures
        survivors(stretched, sorted, most).len() <= most,
        survivors(stretched, sorted, most).no_duplicates(),
        forall|i: int|
            0 <= i < survivors(stretched, sorted, most).len() ==> exists|j: int|
                0 <= j < sorted.len() && (#[trigger] sorted[j]).id == #[trigger] survivors(
                    stretched,
                    sorted,
                    most,
                )[i],
    decreases sorted.len(),
{
    if sorted.len() > 0 {
        let front = sorted.drop_last();
        assert(ranking::distinct_ids(front)) by {
            assert forall|i: int, j: int| 0 <= i < j < front.len() implies (#[trigger] front[i]).id
                != (#[trigger] front[j]).id by {
                assert(sorted[i].id != sorted[j].id);
            }
        }
        survivors_hold(stretched, front, most);
        let before = survivors(stretched, front, most);
        let after = survivors(stretched, sorted, most);
        assert forall|i: int| 0 <= i < after.len() implies exists|j: int|
            0 <= j < sorted.len() && (#[trigger] sorted[j]).id == #[trigger] after[i] by {
            if i < before.len() {
                let j = choose|j: int| 0 <= j < front.len() && (#[trigger] front[j]).id == before[i];
                assert(sorted[j].id == after[i]);
            } else {
                assert(sorted[sorted.len() - 1].id == after[i]);
            }
        }
        assert forall|i: int, j: int|
            0 <= i < after.len() && 0 <= j < after.len() && i != j implies after[i] != after[j] by {
            let a = if i < j { i } else { j };
            let b = if i < j { j } else { i };
            if b == before.len() {
                let k = choose|k: int| 0 <= k < front.len() && (#[trigger] front[k]).id == before[a];
                assert(sorted[k].id != sorted[sorted.len() - 1].id);
            } else {
                assert(before[a] != before[b]);
            }
        }
    }
}

/// A candidate with its distance from `node`.
pub open spec fn at_distance<M: Metric>(metric: &M, node: u32, c: u32) -> Scored {
    Scored { id: c, bits: metric.measured(node as int, c as int) }
}

/// Why a candidate was left out: the list was full, or a kept node occludes it.
pub open spec fn has_no_room<M: Metric, A: Metric>(
    metric: &M,
    stretched: &A,
    node: u32,
    kept: Seq<u32>,
    most: nat,
    c: u32,
) -> bool {
    kept.len() == most || occluded(stretched, kept, at_distance(metric, node, c))
}

proof fn others_are_complete<M: Metric>(metric: &M, node: u32, candidates: Seq<u32>)
    ensures
        forall|i: int|
            0 <= i < others(metric, node, candidates).len() ==> {
                let x = #[trigger] others(metric, node, candidates)[i];
                x == at_distance(metric, node, x.id)
            },
        forall|c: u32| #[trigger]
            candidates.contains(c) && c != node ==> others(metric, node, candidates).contains(
                at_distance(metric, node, c),
            ),
    decreases candidates.len(),
{
    if candidates.len() > 0 {
        let front = candidates.drop_last();
        others_are_complete(metric, node, front);
        let before = others(metric, node, front);
        let after = others(metric, node, candidates);
        assert forall|c: u32| #[trigger] candidates.contains(c) && c != node implies after.contains(
            at_distance(metric, node, c),
        ) by {
            let x = at_distance(metric, node, c);
            let i = choose|i: int| 0 <= i < candidates.len() && candidates[i] == c;
            if i < front.len() {
                assert(front[i] == c);
                assert(front.contains(c));
                let j = choose|j: int| 0 <= j < before.len() && before[j] == x;
                assert(after[j] == x);
            } else {
                assert(after[after.len() - 1] == x);
            }
        }
    }
}

proof fn survivors_stand_apart<M: Metric, A: Metric>(
    metric: &M,
    stretched: &A,
    node: u32,
    sorted: Seq<Scored>,
    most: nat,
)
    requires
        forall|i: int|
            0 <= i < sorted.len() ==> {
                let x = #[trigger] sorted[i];
                x == at_distance(metric, node, x.id)
            },
    ensures
        ({
            let kept = survivors(stretched, sorted, most);
            &&& kept.len() <= most
            &&& forall|i: int|
                0 <= i < kept.len() ==> !occluded(
                    stretched,
                    kept.take(i),
                    at_distance(metric, node, #[trigger] kept[i]),
                )
            &&& forall|j: int|
                0 <= j < sorted.len() ==> kept.contains((#[trigger] sorted[j]).id) || has_no_room(
                    metric,
                    stretched,
                    node,
                    kept,
                    most,
                    sorted[j].id,
                )
        }),
    decreases sorted.len(),
{
    if sorted.len() > 0 {
        let front = sorted.drop_last();
        survivors_stand_apart(metric, stretched, node, front, most);
        let before = survivors(stretched, front, most);
        let kept = survivors(stretched, sorted, most);
        assert forall|i: int| 0 <= i < kept.len() implies !occluded(
            stretched,
            kept.take(i),
            at_distance(metric, node, #[trigger] kept[i]),
        ) by {
            if i < before.len() {
                assert(kept.take(i) =~= before.take(i));
                assert(kept[i] == before[i]);
            } else {
                assert(kept.take(i) =~= before);
                assert(sorted[sorted.len() - 1] == at_distance(metric, node, kept[i]));
            }
        }
        assert forall|j: int| 0 <= j < sorted.len() implies kept.contains((#[trigger] sorted[j]).id)
            || has_no_room(metric, stretched, node, kept, most, sorted[j].id) by {
            let x = sorted[j];
            assert(x == at_distance(metric, node, x.id));
            if j < front.len() {
                assert(front[j] == x);
                if before.contains(x.id) {
                    let a = choose|a: int| 0 <= a < before.len() && before[a] == x.id;
                    assert(kept[a] == x.id);
                } else if occluded(stretched, before, x) {
                    let a = choose|a: int|
                        0 <= a < before.len() && float_order::at_most(
                            stretched.measured(#[trigger] before[a] as int, x.id as int),
                            x.bits,
                        );
                    assert(kept[a] == before[a]);
                }
            } else if kept.len() > before.len() {
                assert(kept[kept.len() - 1] == x.id);
            }
        }
    }
}

/// What pruning keeps: at most `most` of the candidates, none twice, never the node itself. No
/// kept node is occluded by one kept before it, and every candidate left out is occluded by a
/// kept one, or else the list is full.
pub proof fn pruned_holds<M: Metric, A: Metric>(
    metric: &M,
    stretched: &A,
    node: u32,
    candidates: Seq<u32>,
    most: nat,
)
    requires
        candidates.no_duplicates(),
    ensures
        pruned(metric, stretched, node, candidates, most).len() <= most,
        pruned(metric, stretched, node, candidates, most).no_duplicates(),
        forall|i: int|
            0 <= i < pruned(metric, stretched, node, candidates, most).len() ==> candidates.contains(
                #[trigger] pruned(metric, stretched, node, candidates, most)[i],
            ) && pruned(metric, stretched, node, candidates, most)[i] != node,
        forall|i: int|
            0 <= i < pruned(metric, stretched, node, candidates, most).len() ==> !occluded(
                stretched,
                pruned(metric, stretched, node, candidates, most).take(i),
                at_distance(
                    metric,
                    node,
                    #[trigger] pruned(metric, stretched, node, candidates, most)[i],
                ),
            ),
        forall|c: u32| #[trigger]
            candidates.contains(c) && c != node ==> pruned(
                metric,
                stretched,
                node,
                candidates,
                most,
            ).contains(c) || has_no_room(
                metric,
                stretched,
                node,
                pruned(metric, stretched, node, candidates, most),
                most,
                c,
            ),
{
    let list = others(metric, node, candidates);
    others_hold(metric, node, candidates);
    ranking::ranked_properties(list);
    let sorted = ranking::ranked(list);
    survivors_hold(stretched, sorted, most);
    others_are_complete(metric, node, candidates);
    assert forall|i: int| 0 <= i < sorted.len() implies {
        let x = #[trigger] sorted[i];
        x == at_distance(metric, node, x.id)
    } by {
        assert(sorted.contains(sorted[i]));
        assert(list.contains(sorted[i]));
    }
    survivors_stand_apart(metric, stretched, node, sorted, most);
    let kept = pruned(metric, stretched, node, candidates, most);
    assert forall|i: int| 0 <= i < kept.len() implies candidates.contains(#[trigger] kept[i])
        && kept[i] != node by {
        let j = choose|j: int| 0 <= j < sorted.len() && (#[trigger] sorted[j]).id == kept[i];
        assert(sorted.contains(sorted[j]));
        assert(list.contains(sorted[j]));
        let a = choose|a: int| 0 <= a < list.len() && list[a] == sorted[j];
        assert(candidates.contains(list[a].id));
    }
    assert forall|c: u32| #[trigger] candidates.contains(c) && c != node implies kept.contains(c)
        || has_no_room(metric, stretched, node, kept, most, c) by {
        let x = at_distance(metric, node, c);
        assert(list.contains(x));
        assert(sorted.contains(x));
        let j = choose|j: int| 0 <= j < sorted.len() && sorted[j] == x;
        assert(sorted[j].id == c);
    }
}

/// A candidate with its distance from `node` goes before another: it is nearer, or as near and
/// has the lower number.
pub open spec fn is_nearer<M: Metric>(metric: &M, node: u32, a: u32, b: u32) -> bool {
    let x = float_order::total_rank(metric.measured(node as int, a as int));
    let y = float_order::total_rank(metric.measured(node as int, b as int));
    x < y || (x == y && a <= b)
}

/// A candidate lies behind another: the way to it from there, stretched, is no longer than that
/// from `node`.
pub open spec fn lies_behind<M: Metric, A: Metric>(
    metric: &M,
    stretched: &A,
    node: u32,
    c: u32,
    other: u32,
) -> bool {
    float_order::at_most(
        stretched.measured(other as int, c as int),
        metric.measured(node as int, c as int),
    )
}

/// `kept` is what robust pruning keeps of the candidates: they are taken nearest first, each
/// unless it lies behind one taken before or as many as allowed were taken. So no kept one lies
/// behind an earlier one, and each that is left out lies behind a nearer one that is kept, or
/// the list is full of nearer ones.
pub open spec fn is_robust_choice<M: Metric, A: Metric>(
    kept: Seq<u32>,
    metric: &M,
    stretched: &A,
    node: u32,
    candidates: Seq<u32>,
    most: nat,
) -> bool {
    &&& kept.len() <= most
    &&& kept.no_duplicates()
    &&& forall|i: int|
        0 <= i < kept.len() ==> candidates.contains(#[trigger] kept[i]) && kept[i] != node
    &&& forall|i: int, j: int|
        0 <= i < j < kept.len() ==> is_nearer(metric, node, #[trigger] kept[i], #[trigger] kept[j])
            && !lies_behind(metric, stretched, node, kept[j], kept[i])
    &&& forall|c: u32| #[trigger]
        candidates.contains(c) && c != node && !kept.contains(c) ==> is_left_out(
            kept,
            metric,
            stretched,
            node,
            most,
            c,
        )
}

/// Why a candidate was left out.
pub open spec fn is_left_out<M: Metric, A: Metric>(
    kept: Seq<u32>,
    metric: &M,
    stretched: &A,
    node: u32,
    most: nat,
    c: u32,
) -> bool {
    ||| exists|i: int|
        0 <= i < kept.len() && is_nearer(metric, node, #[trigger] kept[i], c) && lies_behind(
            metric,
            stretched,
            node,
            c,
            kept[i],
        )
    ||| kept.len() == most && forall|i: int|
        0 <= i < kept.len() ==> is_nearer(metric, node, #[trigger] kept[i], c)
}

proof fn survivors_are_chosen<M: Metric, A: Metric>(
    metric: &M,
    stretched: &A,
    node: u32,
    sorted: Seq<Scored>,
    most: nat,
)
    requires
        ranking::in_order(sorted),
        forall|i: int|
            0 <= i < sorted.len() ==> {
                let x = #[trigger] sorted[i];
                x == at_distance(metric, node, x.id)
            },
    ensures
        ({
            let kept = survivors(stretched, sorted, most);
            &&& forall|i: int|
                0 <= i < kept.len() ==> sorted.contains(
                    at_distance(metric, node, #[trigger] kept[i]),
                )
            &&& forall|i: int, j: int|
                0 <= i < j < kept.len() ==> is_nearer(
                    metric,
                    node,
                    #[trigger] kept[i],
                    #[trigger] kept[j],
                ) && !lies_behind(metric, stretched, node, kept[j], kept[i])
            &&& forall|j: int|
                0 <= j < sorted.len() ==> kept.contains((#[trigger] sorted[j]).id) || is_left_out(
                    kept,
                    metric,
                    stretched,
                    node,
                    most,
                    sorted[j].id,
                )
        }),
    decreases sorted.len(),
{
    if sorted.len() > 0 {
        let front = sorted.drop_last();
        let last = sorted.last();
        assert(ranking::in_order(front)) by {
            assert forall|i: int, j: int| 0 <= i < j < front.len() implies (
            #[trigger] front[i]).leads(#[trigger] front[j]) by {
                assert(sorted[i].leads(sorted[j]));
            }
        }
        survivors_are_chosen(metric, stretched, node, front, most);
        survivors_stand_apart(metric, stretched, node, front, most);
        let before = survivors(stretched, front, most);
        let kept = survivors(stretched, sorted, most);
        assert(sorted[sorted.len() - 1] == last);
        assert(last == at_distance(metric, node, last.id));
        assert forall|i: int| 0 <= i < before.len() implies is_nearer(
            metric,
            node,
            #[trigger] before[i],
            last.id,
        ) && sorted.contains(at_distance(metric, node, before[i])) by {
            let x = at_distance(metric, node, before[i]);
            assert(front.contains(x));
            let a = choose|a: int| 0 <= a < front.len() && front[a] == x;
            assert(sorted[a] == x);
            assert(sorted[a].leads(sorted[sorted.len() - 1]));
        }
        assert forall|i: int| 0 <= i < kept.len() implies sorted.contains(
            at_distance(metric, node, #[trigger] kept[i]),
        ) by {
            if i < before.len() {
                assert(kept[i] == before[i]);
            }
        }
        assert forall|i: int, j: int| 0 <= i < j < kept.len() implies is_nearer(
            metric,
            node,
            #[trigger] kept[i],
            #[trigger] kept[j],
        ) && !lies_behind(metric, stretched, node, kept[j], kept[i]) by {
            assert(kept[i] == before[i]);
            if j < before.len() {
                assert(kept[j] == before[j]);
            } else {
                assert(!occluded(stretched, before, last));
                assert(kept[j] == last.id);
            }
        }
        assert forall|j: int| 0 <= j < sorted.len() implies kept.contains((#[trigger] sorted[j]).id)
            || is_left_out(kept, metric, stretched, node, most, sorted[j].id) by {
            let x = sorted[j];
            assert(x == at_distance(metric, node, x.id));
            if j < front.len() {
                assert(front[j] == x);
                if before.contains(x.id) {
                    let a = choose|a: int| 0 <= a < before.len() && before[a] == x.id;
                    assert(kept[a] == x.id);
                } else if exists|i: int|
                    0 <= i < before.len() && is_nearer(metric, node, #[trigger] before[i], x.id)
                        && lies_behind(metric, stretched, node, x.id, before[i]) {
                    let i = choose|i: int|
                        0 <= i < before.len() && is_nearer(metric, node, #[trigger] before[i], x.id)
                            && lies_behind(metric, stretched, node, x.id, before[i]);
                    assert(kept[i] == before[i]);
                } else {
                    assert(kept == before);
                }
            } else if kept.len() > before.len() {
                assert(kept[kept.len() - 1] == x.id);
            } else if occluded(stretched, before, x) {
                let a = choose|a: int|
                    0 <= a < before.len() && float_order::at_most(
                        stretched.measured(#[trigger] before[a] as int, x.id as int),
                        x.bits,
                    );
                assert(is_nearer(metric, node, before[a], x.id));
                assert(lies_behind(metric, stretched, node, x.id, before[a]));
            } else {
                assert(before.len() == most);
            }
        }
    }
}

/// Robust pruning takes the nearest candidates that do not lie behind one taken before.
pub proof fn pruning_is_robust<M: Metric, A: Metric>(
    metric: &M,
    stretched: &A,
    node: u32,
    candidates: Seq<u32>,
    most: nat,
)
    requires
        candidates.no_duplicates(),
    ensures
        is_robust_choice(
            pruned(metric, stretched, node, candidates, most),
            metric,
            stretched,
            node,
            candidates,
            most,
        ),
{
    let list = others(metric, node, candidates);
    let sorted = ranking::ranked(list);
    let kept = pruned(metric, stretched, node, candidates, most);
    pruned_holds(metric, stretched, node, candidates, most);
    ranking::ranked_properties(list);
    others_are_complete(metric, node, candidates);
    assert forall|i: int| 0 <= i < sorted.len() implies {
        let x = #[trigger] sorted[i];
        x == at_distance(metric, node, x.id)
    } by {
        assert(sorted.contains(sorted[i]));
        assert(list.contains(sorted[i]));
    }
    survivors_are_chosen(metric, stretched, node, sorted, most);
    assert forall|c: u32| #[trigger]
        candidates.contains(c) && c != node && !kept.contains(c) implies is_left_out(
        kept,
        metric,
        stretched,
        node,
        most,
        c,
    ) by {
        let x = at_distance(metric, node, c);
        assert(list.contains(x));
        assert(sorted.contains(x));
        let j = choose|j: int| 0 <= j < sorted.len() && sorted[j] == x;
        assert(sorted[j].id == c);
    }
}

/// A neighbour list after `node` joined it: one that names it already stays, one with room gets
/// it at the end, and a full one is pruned together with it.
pub open spec fn is_joined<M: Metric, A: Metric>(
    after: Seq<u32>,
    before: Seq<u32>,
    metric: &M,
    stretched: &A,
    to: u32,
    node: u32,
    most: nat,
) -> bool {
    if before.contains(node) {
        after == before
    } else if before.len() < most {
        after == before.push(node)
    } else {
        is_robust_choice(after, metric, stretched, to, before.push(node), most)
    }
}

/// One step of building: `node` searches the graph for neighbours, keeps a robust choice of
/// what it finds, and joins the list of each of them. No other list changes.
pub open spec fn is_relinking<M: Metric, A: Metric>(
    after: Seq<Seq<u32>>,
    before: Seq<Seq<u32>>,
    b: Building,
    metric: &M,
    stretched: &A,
    node: u32,
) -> bool {
    let own = after[node as int];
    &&& after.len() == before.len()
    &&& is_robust_choice(
        own,
        metric,
        stretched,
        node,
        searched(before, b.medoid, metric, node as int, b.beam),
        b.most,
    )
    &&& forall|i: int|
        0 <= i < own.len() ==> is_joined(
            after[own[i] as int],
            before[own[i] as int],
            metric,
            stretched,
            #[trigger] own[i],
            node,
            b.most,
        )
    &&& forall|v: u32|
        v < before.len() && v != node && !#[trigger] own.contains(v) ==> after[v as int]
            == before[v as int]
}

proof fn back_links_join<M: Metric, A: Metric>(
    links: Seq<Seq<u32>>,
    metric: &M,
    stretched: &A,
    node: u32,
    tos: Seq<u32>,
    most: nat,
)
    requires
        tos.no_duplicates(),
        forall|i: int|
            0 <= i < tos.len() ==> #[trigger] tos[i] < links.len()
                && links[tos[i] as int].no_duplicates(),
    ensures
        ({
            let after = back_links(links, metric, stretched, node, tos, most);
            &&& after.len() == links.len()
            &&& forall|v: u32|
                v < links.len() && !#[trigger] tos.contains(v) ==> after[v as int]
                    == links[v as int]
            &&& forall|i: int|
                0 <= i < tos.len() ==> is_joined(
                    after[tos[i] as int],
                    links[tos[i] as int],
                    metric,
                    stretched,
                    #[trigger] tos[i],
                    node,
                    most,
                )
        }),
    decreases tos.len(),
{
    if tos.len() > 0 {
        let front = tos.drop_last();
        let to = tos.last();
        assert forall|i: int| 0 <= i < front.len() implies #[trigger] front[i] < links.len()
            && links[front[i] as int].no_duplicates() by {
            assert(tos[i] == front[i]);
        }
        back_links_join(links, metric, stretched, node, front, most);
        let mid = back_links(links, metric, stretched, node, front, most);
        let after = back_links(links, metric, stretched, node, tos, most);
        assert(tos[tos.len() - 1] == to);
        assert(!front.contains(to)) by {
            if front.contains(to) {
                let a = choose|a: int| 0 <= a < front.len() && front[a] == to;
                assert(tos[a] != tos[tos.len() - 1]);
            }
        }
        let list = links[to as int];
        assert(mid[to as int] == list);
        if !list.contains(node) && list.len() >= most {
            let grown = list.push(node);
            assert(grown.no_duplicates()) by {
                assert forall|i: int, j: int|
                    0 <= i < grown.len() && 0 <= j < grown.len() && i != j implies grown[i]
                    != grown[j] by {
                    if i == list.len() {
                        assert(list[j] != node);
                    } else if j == list.len() {
                        assert(list[i] != node);
                    }
                }
            }
            pruning_is_robust(metric, stretched, to, grown, most);
        }
        assert forall|v: u32| v < links.len() && !#[trigger] tos.contains(v) implies after[v as int]
            == links[v as int] by {
            assert(v != to);
            assert(!front.contains(v)) by {
                if front.contains(v) {
                    let a = choose|a: int| 0 <= a < front.len() && front[a] == v;
                    assert(tos[a] == v);
                }
            }
        }
        assert forall|i: int| 0 <= i < tos.len() implies is_joined(
            after[tos[i] as int],
            links[tos[i] as int],
            metric,
            stretched,
            #[trigger] tos[i],
            node,
            most,
        ) by {
            if i < front.len() {
                assert(front[i] == tos[i]);
                assert(tos[i] != to);
            }
        }
    }
}

/// Relinking a node links it both ways.
pub proof fn relinked_is_relinking<M: Metric, A: Metric>(
    links: Seq<Seq<u32>>,
    b: Building,
    metric: &M,
    stretched: &A,
    node: u32,
)
    requires
        bounded(links, b.most),
        links.len() <= u32::MAX,
        node < links.len(),
        b.medoid < links.len(),
    ensures
        is_relinking(relinked(links, b, metric, stretched, node), links, b, metric, stretched, node),
{
    bounded_is_closed(links, b.most);
    search_stays_inside(links, b.medoid, metric, node as int, b.beam);
    let found = searched(links, b.medoid, metric, node as int, b.beam);
    let kept = pruned(metric, stretched, node, found, b.most);
    let mid = links.update(node as int, kept);
    let after = relinked(links, b, metric, stretched, node);
    pruning_is_robust(metric, stretched, node, found, b.most);
    assert forall|i: int| 0 <= i < kept.len() implies #[trigger] kept[i] < mid.len() && kept[i]
        != node && mid[kept[i] as int].no_duplicates() by {
        assert(found.contains(kept[i]));
        let j = choose|j: int| 0 <= j < found.len() && found[j] == kept[i];
        assert(found[j] < links.len());
        assert(graph::proper_list(links[kept[i] as int], kept[i] as int, links.len()));
    }
    back_links_join(mid, metric, stretched, node, kept, b.most);
    assert(!kept.contains(node)) by {
        if kept.contains(node) {
            let a = choose|a: int| 0 <= a < kept.len() && kept[a] == node;
            assert(kept[a] != node);
        }
    }
    assert(after[node as int] == kept);
    assert forall|i: int| 0 <= i < kept.len() implies is_joined(
        after[kept[i] as int],
        links[kept[i] as int],
        metric,
        stretched,
        #[trigger] kept[i],
        node,
        b.most,
    ) by {
        assert(mid[kept[i] as int] == links[kept[i] as int]);
    }
}

/// The graphs that a pass goes through, one for each node in order.
pub open spec fn is_pass<M: Metric, A: Metric>(
    graphs: Seq<Seq<Seq<u32>>>,
    b: Building,
    metric: &M,
    stretched: &A,
    order: Seq<u32>,
) -> bool {
    &&& graphs.len() == order.len() + 1
    &&& forall|i: int|
        0 <= i < order.len() ==> is_relinking(
            graphs[i + 1],
            graphs[i],
            b,
            metric,
            stretched,
            #[trigger] order[i],
        )
}

/// A pass relinks each of the nodes in its turn.
pub proof fn pass_relinks_each<M: Metric, A: Metric>(
    links: Seq<Seq<u32>>,
    b: Building,
    metric: &M,
    stretched: &A,
    order: Seq<u32>,
) -> (graphs: Seq<Seq<Seq<u32>>>)
    requires
        bounded(links, b.most),
        links.len() <= u32::MAX,
        b.medoid < links.len(),
        forall|i: int| 0 <= i < order.len() ==> #[trigger] order[i] < links.len(),
    ensures
        is_pass(graphs, b, metric, stretched, order),
        graphs[0] == links,
        graphs.last() == passed(links, b, metric, stretched, order),
    decreases order.len(),
{
    if order.len() == 0 {
        seq![links]
    } else {
        let front = order.drop_last();
        assert forall|i: int| 0 <= i < front.len() implies #[trigger] front[i] < links.len() by {
            assert(order[i] < links.len());
        }
        passed_is_bounded(links, b, metric, stretched, front);
        let before = pass_relinks_each(links, b, metric, stretched, front);
        let mid = passed(links, b, metric, stretched, front);
        assert(order[order.len() - 1] < links.len());
        relinked_is_relinking(mid, b, metric, stretched, order.last());
        let graphs = before.push(passed(links, b, metric, stretched, order));
        assert forall|i: int| 0 <= i < order.len() implies is_relinking(
            graphs[i + 1],
            graphs[i],
            b,
            metric,
            stretched,
            #[trigger] order[i],
        ) by {
            if i < front.len() {
                assert(front[i] == order[i]);
                assert(graphs[i] == before[i] && graphs[i + 1] == before[i + 1]);
            } else {
                assert(graphs[i] == before.last());
            }
        }
        assert(graphs[0] == before[0]);
        graphs
    }
}

/// Search of a graph finds as many nodes as the beam holds, or all that can be reached from the
/// medoid where those are fewer. Where distances are plain numbers nothing nearer is left within
/// reach: the medoid, and every neighbour of a node found, is found itself, or the beam is full
/// and none found is farther.
pub proof fn search_leaves_nothing_nearer<M: Metric>(
    links: Seq<Seq<u32>>,
    medoid: u32,
    metric: &M,
    query: int,
    beam_width: usize,
)
    requires
        beam::closed_graph(links),
        links.len() <= u32::MAX,
        medoid < links.len(),
        beam_width > 0,
    ensures
        ({
            let found = searched(links, medoid, metric, query, beam_width);
            let all = beam::reached(links, seq![medoid]).len();
            &&& found.len() == (if beam_width < all {
                beam_width as nat
            } else {
                all
            })
            &&& forall|i: int, j: int|
                0 <= i < j < found.len() ==> is_nearer_to(
                    metric,
                    query,
                    #[trigger] found[i],
                    #[trigger] found[j],
                )
            &&& (forall|v: int|
                0 <= v < links.len() ==> #[trigger] metric.measured(query, v)
                    <= float_order::INFINITY) ==> {
                &&& is_no_nearer(found, metric, query, beam_width, medoid)
                &&& forall|i: int, j: int|
                    0 <= i < found.len() && 0 <= j < links[found[i] as int].len() ==> is_no_nearer(
                        found,
                        metric,
                        query,
                        beam_width,
                        #[trigger] links[found[i] as int][j],
                    )
            }
        }),
{
    let rules = search_rules(links, metric, query, beam_width);
    let entries = seq![medoid];
    let best = rules.outcome(entries).best;
    let found = searched(links, medoid, metric, query, beam_width);
    rules.result_count(entries);
    rules.outcome_is_sound(entries);
    assert forall|i: int, j: int| 0 <= i < j < found.len() implies is_nearer_to(
        metric,
        query,
        #[trigger] found[i],
        #[trigger] found[j],
    ) by {
        assert(best[i].leads(best[j]));
    }
    if forall|v: int|
        0 <= v < links.len() ==> #[trigger] metric.measured(query, v) <= float_order::INFINITY {
        assert forall|v: int| 0 <= v < rules.links.len() implies #[trigger] (rules.dist)(v)
            <= float_order::INFINITY by {
            assert(metric.measured(query, v) <= float_order::INFINITY);
        }
        assert forall|v: u32| #[trigger] rules.is_covered(best, v) implies is_no_nearer(
            found,
            metric,
            query,
            beam_width,
            v,
        ) by {
            if best.contains(rules.scored(v)) {
                let a = choose|a: int| 0 <= a < best.len() && best[a] == rules.scored(v);
                assert(found[a] == v);
            } else {
                assert forall|i: int| 0 <= i < found.len() implies metric.measured(
                    query,
                    #[trigger] found[i] as int,
                ) <= metric.measured(query, v as int) by {
                    assert(best[i] == rules.scored(best[i].id));
                }
            }
        }
        assert(entries[0] == medoid);
        rules.no_better_neighbour(entries, medoid);
        assert forall|i: int, j: int|
            0 <= i < found.len() && 0 <= j < links[found[i] as int].len() implies is_no_nearer(
            found,
            metric,
            query,
            beam_width,
            #[trigger] links[found[i] as int][j],
        ) by {
            let v = links[found[i] as int][j];
            assert(best[i].id == found[i]);
            assert(rules.links[best[i].id as int].contains(v));
            rules.no_better_neighbour(entries, v);
        }
    }
}

/// One node is nearer to the query, or as near and has the lower number.
pub open spec fn is_nearer_to<M: Metric>(metric: &M, query: int, a: u32, b: u32) -> bool {
    let x = float_order::total_rank(metric.measured(query, a as int));
    let y = float_order::total_rank(metric.measured(query, b as int));
    x < y || (x == y && a <= b)
}

/// A node was found, or as many as the beam holds were and none of them is farther.
pub open spec fn is_no_nearer<M: Metric>(
    found: Seq<u32>,
    metric: &M,
    query: int,
    beam_width: usize,
    v: u32,
) -> bool {
    found.contains(v) || (found.len() == beam_width && forall|i: int|
        0 <= i < found.len() ==> metric.measured(query, #[trigger] found[i] as int)
            <= metric.measured(query, v as int))
}

proof fn bounded_is_closed(links: Seq<Seq<u32>>, most: nat)
    requires
        bounded(links, most),
    ensures
        beam::closed_graph(links),
{
    assert forall|i: int, j: int| 0 <= i < links.len() && 0 <= j < links[i].len() implies #[trigger] links[i][j]
        < links.len() by {
        assert(graph::proper_list(links[i], i, links.len()));
    }
}

/// A search finds nodes, none twice.
pub proof fn search_stays_inside<M: Metric>(
    links: Seq<Seq<u32>>,
    medoid: u32,
    metric: &M,
    query: int,
    beam_width: usize,
)
    requires
        beam::closed_graph(links),
        medoid < links.len(),
    ensures
        searched(links, medoid, metric, query, beam_width).no_duplicates(),
        forall|i: int|
            0 <= i < searched(links, medoid, metric, query, beam_width).len() ==> #[trigger] searched(
                links,
                medoid,
                metric,
                query,
                beam_width,
            )[i] < links.len(),
{
    let rules = search_rules(links, metric, query, beam_width);
    rules.outcome_is_sound(seq![medoid]);
    let best = rules.outcome(seq![medoid]).best;
    let found = searched(links, medoid, metric, query, beam_width);
    assert forall|i: int, j: int|
        0 <= i < found.len() && 0 <= j < found.len() && i != j implies found[i] != found[j] by {
        if i < j {
            assert(best[i].id != best[j].id);
        } else {
            assert(best[j].id != best[i].id);
        }
    }
    assert forall|i: int| 0 <= i < found.len() implies #[trigger] found[i] < links.len() by {
        assert(best[i].id < links.len());
    }
}

proof fn back_link_holds<M: Metric, A: Metric>(
    links: Seq<Seq<u32>>,
    metric: &M,
    stretched: &A,
    node: u32,
    to: u32,
    most: nat,
)
    requires
        bounded(links, most),
        node < links.len(),
        to < links.len(),
        to != node,
    ensures
        bounded(back_link(links, metric, stretched, node, to, most), most),
        back_link(links, metric, stretched, node, to, most).len() == links.len(),
{
    let list = links[to as int];
    let after = back_link(links, metric, stretched, node, to, most);
    assert(graph::proper_list(list, to as int, links.len()));
    if !list.contains(node) {
        let grown = list.push(node);
        assert(grown.no_duplicates()) by {
            assert forall|i: int, j: int|
                0 <= i < grown.len() && 0 <= j < grown.len() && i != j implies grown[i] != grown[j] by {
                if i == list.len() {
                    assert(list[j] != node);
                } else if j == list.len() {
                    assert(list[i] != node);
                }
            }
        }
        pruned_holds(metric, stretched, to, grown, most);
        assert forall|i: int| 0 <= i < after.len() implies graph::proper_list(
            #[trigger] after[i],
            i,
            after.len(),
        ) && after[i].len() <= most by {
            if i != to {
                assert(after[i] == links[i]);
                assert(graph::proper_list(links[i], i, links.len()));
            } else if list.len() >= most {
                let kept = after[i];
                assert forall|j: int| 0 <= j < kept.len() implies #[trigger] kept[j] < links.len()
                    && kept[j] != i by {
                    assert(grown.contains(kept[j]));
                    let a = choose|a: int| 0 <= a < grown.len() && grown[a] == kept[j];
                    if a < list.len() {
                        assert(list[a] < links.len());
                    }
                }
            } else {
                assert forall|j: int| 0 <= j < grown.len() implies #[trigger] grown[j] < links.len()
                    && grown[j] != i by {
                    if j < list.len() {
                        assert(list[j] < links.len());
                    }
                }
            }
        }
    }
}

proof fn back_links_hold<M: Metric, A: Metric>(
    links: Seq<Seq<u32>>,
    metric: &M,
    stretched: &A,
    node: u32,
    tos: Seq<u32>,
    most: nat,
)
    requires
        bounded(links, most),
        node < links.len(),
        forall|i: int| 0 <= i < tos.len() ==> #[trigger] tos[i] < links.len() && tos[i] != node,
    ensures
        bounded(back_links(links, metric, stretched, node, tos, most), most),
        back_links(links, metric, stretched, node, tos, most).len() == links.len(),
    decreases tos.len(),
{
    if tos.len() > 0 {
        let front = tos.drop_last();
        assert forall|i: int| 0 <= i < front.len() implies #[trigger] front[i] < links.len()
            && front[i] != node by {
            assert(tos[i] < links.len());
        }
        back_links_hold(links, metric, stretched, node, front, most);
        assert(tos[tos.len() - 1] < links.len());
        back_link_holds(
            back_links(links, metric, stretched, node, front, most),
            metric,
            stretched,
            node,
            tos.last(),
            most,
        );
    }
}

proof fn update_is_bounded(links: Seq<Seq<u32>>, node: u32, kept: Seq<u32>, most: nat)
    requires
        bounded(links, most),
        node < links.len(),
        graph::proper_list(kept, node as int, links.len()),
        kept.len() <= most,
    ensures
        bounded(links.update(node as int, kept), most),
{
    let after = links.update(node as int, kept);
    assert forall|i: int| 0 <= i < after.len() implies graph::proper_list(
        #[trigger] after[i],
        i,
        after.len(),
    ) && after[i].len() <= most by {
        if i != node {
            assert(after[i] == links[i]);
            assert(graph::proper_list(links[i], i, links.len()));
        }
    }
}

/// Relinking a node keeps the graph bounded.
pub proof fn relinked_is_bounded<M: Metric, A: Metric>(
    links: Seq<Seq<u32>>,
    b: Building,
    metric: &M,
    stretched: &A,
    node: u32,
)
    requires
        bounded(links, b.most),
        node < links.len(),
        b.medoid < links.len(),
    ensures
        bounded(relinked(links, b, metric, stretched, node), b.most),
        relinked(links, b, metric, stretched, node).len() == links.len(),
{
    bounded_is_closed(links, b.most);
    search_stays_inside(links, b.medoid, metric, node as int, b.beam);
    let found = searched(links, b.medoid, metric, node as int, b.beam);
    pruned_holds(metric, stretched, node, found, b.most);
    let kept = pruned(metric, stretched, node, found, b.most);
    assert forall|i: int| 0 <= i < kept.len() implies #[trigger] kept[i] < links.len() && kept[i]
        != node by {
        assert(found.contains(kept[i]));
        let j = choose|j: int| 0 <= j < found.len() && found[j] == kept[i];
        assert(found[j] < links.len());
    }
    assert(graph::proper_list(kept, node as int, links.len()));
    update_is_bounded(links, node, kept, b.most);
    back_links_hold(links.update(node as int, kept), metric, stretched, node, kept, b.most);
}

/// A pass over nodes keeps the graph bounded.
pub proof fn passed_is_bounded<M: Metric, A: Metric>(
    links: Seq<Seq<u32>>,
    b: Building,
    metric: &M,
    stretched: &A,
    order: Seq<u32>,
)
    requires
        bounded(links, b.most),
        b.medoid < links.len(),
        forall|i: int| 0 <= i < order.len() ==> #[trigger] order[i] < links.len(),
    ensures
        bounded(passed(links, b, metric, stretched, order), b.most),
        passed(links, b, metric, stretched, order).len() == links.len(),
    decreases order.len(),
{
    if order.len() > 0 {
        let front = order.drop_last();
        assert forall|i: int| 0 <= i < front.len() implies #[trigger] front[i] < links.len() by {
            assert(order[i] < links.len());
        }
        passed_is_bounded(links, b, metric, stretched, front);
        assert(order[order.len() - 1] < links.len());
        relinked_is_bounded(
            passed(links, b, metric, stretched, front),
            b,
            metric,
            stretched,
            order.last(),
        );
    }
}

/// A graph with bounded degree.
pub struct VamanaGraph {
    /// The neighbours of each node.
    pub neighbors: Vec<Vec<u32>>,
    /// Where searches start.
    pub medoid: u32,
    /// Most neighbours of a node.
    pub max_degree: usize,
    /// Width of the searches that build the graph.
    pub build_beam: usize,
    /// The bits of the pruning factor.
    pub alpha: u32,
}

impl VamanaGraph {
    /// The neighbour lists.
    pub open spec fn links(&self) -> Seq<Seq<u32>> {
        beam::links_of(self.neighbors@)
    }

    /// Searches start at a node, and neighbours are nodes.
    pub open spec fn searchable(&self) -> bool {
        &&& self.medoid < self.neighbors@.len()
        &&& self.neighbors@.len() <= u32::MAX
        &&& beam::closed_graph(self.links())
    }

    /// What building goes by.
    pub open spec fn building(&self) -> Building {
        Building { medoid: self.medoid, most: self.max_degree as nat, beam: self.build_beam }
    }

    /// The same graph but for its lists and its medoid.
    pub open spec fn same_shape(&self, other: &VamanaGraph) -> bool {
        &&& self.max_degree == other.max_degree
        &&& self.build_beam == other.build_beam
        &&& self.alpha == other.alpha
    }

    /// A graph of `n` nodes without edges.
    pub fn new(n: usize, max_degree: usize, build_beam: usize, alpha: u32) -> (graph: Self)
        ensures
            graph.neighbors@.len() == n,
            forall|i: int| 0 <= i < n ==> (#[trigger] graph.neighbors@[i])@.len() == 0,
            graph.medoid == 0,
            graph.max_degree == max_degree,
            graph.build_beam == build_beam,
            graph.alpha == alpha,
    {
        let mut neighbors: Vec<Vec<u32>> = Vec::new();
        while neighbors.len() < n
            invariant
                neighbors@.len() <= n,
                forall|i: int| 0 <= i < neighbors@.len() ==> (#[trigger] neighbors@[i])@.len() == 0,
            decreases n - neighbors@.len(),
        {
            neighbors.push(Vec::new());
        }
        VamanaGraph { neighbors, medoid: 0, max_degree, build_beam, alpha }
    }

    /// Searches for the nodes nearest to a query, starting at the medoid and keeping
    /// `beam_width`. Gives their ids, nearest first, and the number of nodes met.
    pub fn greedy_search_fast<M: Metric>(
        &self,
        metric: &M,
        query: u32,
        beam_width: usize,
        visited: &mut VisitedSet,
    ) -> (r: (Vec<u32>, usize))
        requires
            self.searchable(),
            query < metric.sources(),
            self.neighbors@.len() <= metric.targets(),
            old(visited).wf(),
            old(visited).capacity() >= self.neighbors@.len(),
            old(visited).clears_left() > 0,
        ensures
            r.0@ == searched(self.links(), self.medoid, metric, query as int, beam_width),
            r.1 == search_rules(self.links(), metric, query as int, beam_width).outcome(
                seq![self.medoid],
            ).seen.len(),
            final(visited).wf(),
            final(visited).capacity() == old(visited).capacity(),
            final(visited).clears_left() == old(visited).clears_left() - 1,
    {
        let cap: usize = if beam_width == 0 {
            1
        } else {
            beam_width
        };
        let mut entries: Vec<u32> = Vec::new();
        entries.push(self.medoid);
        assert(entries@ =~= seq![self.medoid]);
        assert(beam::rules_for(
            self.neighbors@,
            metric,
            query,
            cap,
            false,
            false,
            None::<beam::Gate<'_, M>>,
        ) == search_rules(self.links(), metric, query as int, beam_width));
        let found = beam::search_from(
            &self.neighbors,
            metric,
            query,
            cap,
            false,
            false,
            None::<beam::Gate<'_, M>>,
            &entries,
            visited,
        );
        (ranking::ids(&found.best), found.met)
    }

    /// The same search with a visited set of its own.
    pub fn greedy_search<M: Metric>(&self, metric: &M, query: u32, beam_width: usize) -> (r: (
        Vec<u32>,
        usize,
    ))
        requires
            self.searchable(),
            query < metric.sources(),
            self.neighbors@.len() <= metric.targets(),
        ensures
            r.0@ == searched(self.links(), self.medoid, metric, query as int, beam_width),
            r.1 == search_rules(self.links(), metric, query as int, beam_width).outcome(
                seq![self.medoid],
            ).seen.len(),
    {
        let mut visited = VisitedSet::new(self.neighbors.len());
        self.greedy_search_fast(metric, query, beam_width, &mut visited)
    }

    /// The neighbours that `node` keeps out of `candidates`.
    pub fn robust_prune<M: Metric, A: Metric>(
        &self,
        metric: &M,
        stretched: &A,
        node: u32,
        candidates: &Vec<u32>,
    ) -> (kept: Vec<u32>)
        requires
            node < metric.sources(),
            forall|i: int|
                0 <= i < candidates@.len() ==> #[trigger] candidates@[i] < metric.targets()
                    && candidates@[i] < stretched.sources() && candidates@[i] < stretched.targets(),
        ensures
            kept@ == pruned(metric, stretched, node, candidates@, self.max_degree as nat),
    {
        let mut list: Vec<Scored> = Vec::new();
        let mut i: usize = 0;
        while i < candidates.len()
            invariant
                i <= candidates@.len(),
                node < metric.sources(),
                forall|j: int|
                    0 <= j < candidates@.len() ==> #[trigger] candidates@[j] < metric.targets()
                        && candidates@[j] < stretched.sources() && candidates@[j]
                        < stretched.targets(),
                list@ == others(metric, node, candidates@.take(i as int)),
                forall|j: int|
                    0 <= j < list@.len() ==> (#[trigger] list@[j]).id < stretched.sources()
                        && list@[j].id < stretched.targets(),
            decreases candidates@.len() - i,
        {
            let c: u32 = candidates[i];
            assert(candidates@.take(i + 1).drop_last() =~= candidates@.take(i as int));
            if c != node {
                let bits: u32 = metric.measure(node, c);
                list.push(Scored { id: c, bits });
            }
            i += 1;
        }
        assert(candidates@.take(i as int) =~= candidates@);
        let sorted = ranking::rank(list.as_slice());
        proof {
            ranking::ranked_properties(list@);
            assert forall|j: int| 0 <= j < sorted@.len() implies (#[trigger] sorted@[j]).id
                < stretched.sources() && sorted@[j].id < stretched.targets() by {
                assert(sorted@.contains(sorted@[j]));
                assert(list@.contains(sorted@[j]));
                let a = choose|a: int| 0 <= a < list@.len() && list@[a] == sorted@[j];
                assert(list@[a].id < stretched.sources());
            }
        }
        let mut kept: Vec<u32> = Vec::new();
        let mut s: usize = 0;
        while s < sorted.len()
            invariant
                s <= sorted@.len(),
                kept@ == survivors(stretched, sorted@.take(s as int), self.max_degree as nat),
                forall|j: int|
                    0 <= j < sorted@.len() ==> (#[trigger] sorted@[j]).id < stretched.sources()
                        && sorted@[j].id < stretched.targets(),
                forall|j: int| 0 <= j < kept@.len() ==> #[trigger] kept@[j] < stretched.sources(),
            decreases sorted@.len() - s,
        {
            let x = sorted[s];
            assert(sorted@.take(s + 1).drop_last() =~= sorted@.take(s as int));
            if kept.len() < self.max_degree && !is_occluded(stretched, &kept, x) {
                kept.push(x.id);
            }
            s += 1;
        }
        assert(sorted@.take(s as int) =~= sorted@);
        kept
    }

    /// Searches for the neighbours of `node`, keeps the pruned ones and adds the node to their
    /// lists.
    pub fn relink<M: Metric, A: Metric>(
        &mut self,
        metric: &M,
        stretched: &A,
        node: u32,
        visited: &mut VisitedSet,
    )
        requires
            bounded(old(self).links(), old(self).max_degree as nat),
            old(self).searchable(),
            node < old(self).neighbors@.len(),
            old(self).neighbors@.len() <= metric.sources(),
            old(self).neighbors@.len() <= metric.targets(),
            old(self).neighbors@.len() <= stretched.sources(),
            old(self).neighbors@.len() <= stretched.targets(),
            old(visited).wf(),
            old(visited).capacity() >= old(self).neighbors@.len(),
            old(visited).clears_left() > 0,
        ensures
            final(self).links() == relinked(
                old(self).links(),
                old(self).building(),
                metric,
                stretched,
                node,
            ),
            bounded(final(self).links(), old(self).max_degree as nat),
            final(self).searchable(),
            final(self).medoid == old(self).medoid,
            final(self).same_shape(&*old(self)),
            final(self).neighbors@.len() == old(self).neighbors@.len(),
            final(visited).wf(),
            final(visited).capacity() == old(visited).capacity(),
            final(visited).clears_left() == old(visited).clears_left() - 1,
    {
        let ghost n = self.neighbors@.len();
        let ghost most = self.max_degree as nat;
        let ghost before = self.links();
        let ghost b = self.building();
        let found = self.greedy_search_fast(metric, node, self.build_beam, visited).0;
        proof {
            search_stays_inside(before, b.medoid, metric, node as int, b.beam);
        }
        let kept = self.robust_prune(metric, stretched, node, &found);
        proof {
            pruned_holds(metric, stretched, node, found@, most);
            assert forall|i: int| 0 <= i < kept@.len() implies #[trigger] kept@[i] < n && kept@[i]
                != node by {
                assert(found@.contains(kept@[i]));
                let j = choose|j: int| 0 <= j < found@.len() && found@[j] == kept@[i];
                assert(found@[j] < n);
            }
            assert(graph::proper_list(kept@, node as int, n));
            update_is_bounded(before, node, kept@, most);
        }
        let own = vstd::slice::slice_to_vec(kept.as_slice());
        self.neighbors.set(node as usize, own);
        let ghost updated = before.update(node as int, kept@);
        assert(self.links() =~= updated);
        let mut i: usize = 0;
        while i < kept.len()
            invariant
                i <= kept@.len(),
                n == self.neighbors@.len(),
                n <= u32::MAX,
                node < n,
                self.medoid == old(self).medoid,
                self.medoid < n,
                self.same_shape(&*old(self)),
                most == self.max_degree,
                n <= metric.sources(),
                n <= metric.targets(),
                n <= stretched.sources(),
                n <= stretched.targets(),
                updated.len() == n,
                bounded(updated, most),
                forall|j: int| 0 <= j < kept@.len() ==> #[trigger] kept@[j] < n && kept@[j] != node,
                self.links() == back_links(
                    updated,
                    metric,
                    stretched,
                    node,
                    kept@.take(i as int),
                    most,
                ),
            decreases kept@.len() - i,
        {
            let to: u32 = kept[i];
            let ghost links = self.links();
            proof {
                let done = kept@.take(i as int);
                assert(kept@.take(i + 1).drop_last() =~= done);
                back_links_hold(updated, metric, stretched, node, done, most);
                back_link_holds(links, metric, stretched, node, to, most);
                assert(graph::proper_list(links[to as int], to as int, n));
                assert(links[to as int] == self.neighbors@[to as int]@);
            }
            if !graph::has(&self.neighbors[to as usize], node) {
                let mut list = vstd::slice::slice_to_vec(self.neighbors[to as usize].as_slice());
                let room = list.len() < self.max_degree;
                list.push(node);
                if room {
                    self.neighbors.set(to as usize, list);
                } else {
                    assert forall|j: int| 0 <= j < list@.len() implies #[trigger] list@[j] < n by {
                        if j < links[to as int].len() {
                            assert(links[to as int][j] < n);
                        }
                    }
                    let again = self.robust_prune(metric, stretched, to, &list);
                    self.neighbors.set(to as usize, again);
                }
                assert(self.links() =~= back_link(links, metric, stretched, node, to, most));
            }
            i += 1;
        }
        proof {
            assert(kept@.take(i as int) =~= kept@);
            relinked_is_bounded(before, b, metric, stretched, node);
            bounded_is_closed(self.links(), most);
        }
    }

    /// Relinks the nodes in the given order.
    pub fn run_pass<M: Metric, A: Metric>(&mut self, metric: &M, stretched: &A, order: &Vec<u32>)
        requires
            bounded(old(self).links(), old(self).max_degree as nat),
            old(self).searchable(),
            forall|i: int|
                0 <= i < order@.len() ==> #[trigger] order@[i] < old(self).neighbors@.len(),
            order@.len() < u64::MAX - 1,
            old(self).neighbors@.len() <= metric.sources(),
            old(self).neighbors@.len() <= metric.targets(),
            old(self).neighbors@.len() <= stretched.sources(),
            old(self).neighbors@.len() <= stretched.targets(),
        ensures
            final(self).links() == passed(
                old(self).links(),
                old(self).building(),
                metric,
                stretched,
                order@,
            ),
            bounded(final(self).links(), old(self).max_degree as nat),
            final(self).searchable(),
            final(self).medoid == old(self).medoid,
            final(self).same_shape(&*old(self)),
            final(self).neighbors@.len() == old(self).neighbors@.len(),
    {
        let mut visited = VisitedSet::new(self.neighbors.len());
        let mut i: usize = 0;
        while i < order.len()
            invariant
                i <= order@.len(),
                order@.len() < u64::MAX - 1,
                bounded(self.links(), self.max_degree as nat),
                self.searchable(),
                self.medoid == old(self).medoid,
                self.same_shape(&*old(self)),
                self.neighbors@.len() == old(self).neighbors@.len(),
                forall|j: int|
                    0 <= j < order@.len() ==> #[trigger] order@[j] < old(self).neighbors@.len(),
                self.neighbors@.len() <= metric.sources(),
                self.neighbors@.len() <= metric.targets(),
                self.neighbors@.len() <= stretched.sources(),
                self.neighbors@.len() <= stretched.targets(),
                visited.wf(),
                visited.capacity() == self.neighbors@.len(),
                visited.clears_left() == u64::MAX - 1 - i,
                self.links() == passed(
                    old(self).links(),
                    old(self).building(),
                    metric,
                    stretched,
                    order@.take(i as int),
                ),
            decreases order@.len() - i,
        {
            let node: u32 = order[i];
            assert(order@.take(i + 1).drop_last() =~= order@.take(i as int));
            assert(self.building() == old(self).building());
            self.relink(metric, stretched, node, &mut visited);
            i += 1;
        }
        assert(order@.take(i as int) =~= order@);
    }

    /// The first of the nodes nearest to the centre.
    pub fn find_medoid(from_centroid: &[u32]) -> (m: u32)
        requires
            0 < from_centroid@.len() <= u32::MAX,
        ensures
            is_medoid(from_centroid@, m as int),
    {
        let mut m: usize = 0;
        let mut i: usize = 1;
        while i < from_centroid.len()
            invariant
                0 < i <= from_centroid@.len() <= u32::MAX,
                m < i,
                forall|j: int|
                    0 <= j < i ==> float_order::total_rank(from_centroid@[m as int])
                        <= float_order::total_rank(#[trigger] from_centroid@[j]),
                forall|j: int|
                    0 <= j < m ==> float_order::total_rank(from_centroid@[m as int])
                        < float_order::total_rank(#[trigger] from_centroid@[j]),
            decreases from_centroid@.len() - i,
        {
            if float_order::total_key(from_centroid[i]) < float_order::total_key(from_centroid[m]) {
                m = i;
            }
            i += 1;
        }
        m as u32
    }

    /// Gives every node random neighbours to start from.
    fn init_random_graph(&mut self)
        requires
            0 < old(self).neighbors@.len() <= u32::MAX,
        ensures
            final(self).neighbors@.len() == old(self).neighbors@.len(),
            final(self).medoid == old(self).medoid,
            final(self).same_shape(&*old(self)),
            bounded(final(self).links(), old(self).max_degree as nat),
            is_random_start(
                final(self).links(),
                if old(self).max_degree < old(self).neighbors@.len() - 1 {
                    old(self).max_degree as int
                } else {
                    old(self).neighbors@.len() - 1
                },
            ),
    {
        let n: usize = self.neighbors.len();
        let degree: usize = if self.max_degree < n - 1 {
            self.max_degree
        } else {
            n - 1
        };
        let limit: u64 = 3 * degree as u64;
        let mut neighbors: Vec<Vec<u32>> = Vec::new();
        let mut i: usize = 0;
        while i < n
            invariant
                0 < n <= u32::MAX,
                i <= n,
                degree <= self.max_degree,
                degree < n,
                limit == 3 * degree,
                neighbors@.len() == i,
                forall|v: int|
                    0 <= v < i ==> graph::with_jumps(
                        Seq::empty(),
                        (#[trigger] neighbors@[v])@,
                        v,
                        n as int,
                        degree as int,
                        3 * degree,
                    ) && graph::proper_list(neighbors@[v]@, v, n as nat) && neighbors@[v]@.len()
                        <= degree,
            decreases n - i,
        {
            let mut list: Vec<u32> = Vec::new();
            let ghost mut draws: Seq<int> = Seq::empty();
            let ghost none = Seq::<u32>::empty();
            let mut attempts: u64 = 0;
            assert(list@ =~= none);
            while list.len() < degree && attempts < limit
                invariant
                    0 < n <= u32::MAX,
                    i < n,
                    attempts <= limit,
                    list@.len() <= degree,
                    none == Seq::<u32>::empty(),
                    draws.len() == attempts,
                    list@ == graph::all_jumped(none, i as int, draws),
                    forall|d: int| 0 <= d < draws.len() ==> 0 <= #[trigger] draws[d] < n,
                    draws.len() > 0 ==> graph::all_jumped(none, i as int, draws.drop_last()).len()
                        < degree,
                decreases limit - attempts,
            {
                let j: usize = rng::thread_draw(n);
                attempts += 1;
                proof {
                    let grown = draws.push(j as int);
                    assert(grown.drop_last() =~= draws);
                    draws = grown;
                }
                let _taken = graph::take_jump(&mut list, i as u32, j as u32);
            }
            proof {
                assert(graph::jumps_drawn(
                    none,
                    list@,
                    i as int,
                    n as int,
                    degree as int,
                    3 * degree,
                    draws,
                ));
                graph::all_jumped_is_proper(none, i as int, draws, n as nat);
            }
            neighbors.push(list);
            i += 1;
        }
        self.neighbors = neighbors;
        proof {
            let links = self.links();
            assert forall|v: int| 0 <= v < links.len() implies graph::proper_list(
                #[trigger] links[v],
                v,
                links.len(),
            ) && links[v].len() <= self.max_degree by {
                assert(graph::proper_list(neighbors@[v]@, v, n as nat));
            }
            assert forall|v: int| 0 <= v < links.len() implies graph::with_jumps(
                Seq::empty(),
                #[trigger] links[v],
                v,
                links.len() as int,
                degree as int,
                3 * degree,
            ) by {
                assert(links[v] == neighbors@[v]@);
            }
        }
    }

    /// `self` is what building makes of some random start and some orders of the nodes: one
    /// pass without stretching, and a second with it where the factor is above one.
    pub open spec fn built_from<M: Metric, A: Metric>(
        &self,
        metric: &M,
        stretched: &A,
        start: Seq<Seq<u32>>,
        first: Seq<u32>,
        second: Seq<u32>,
    ) -> bool {
        let n = self.neighbors@.len();
        let degree = if self.max_degree < n - 1 {
            self.max_degree as int
        } else {
            n - 1
        };
        let once = passed(start, self.building(), metric, metric, first);
        &&& start.len() == n
        &&& is_random_start(start, degree)
        &&& is_order(first, n)
        &&& is_order(second, n)
        &&& self.links() == (if float_order::below(float_order::ONE, self.alpha) {
            passed(once, self.building(), metric, stretched, second)
        } else {
            once
        })
    }

    /// Builds the graph. `metric` measures between the nodes, `stretched` the same times the
    /// pruning factor, and `from_centroid` are the distances of the nodes from their mean.
    pub fn build<M: Metric, A: Metric>(
        &mut self,
        metric: &M,
        stretched: &A,
        from_centroid: &[u32],
    ) -> (r: Result<(), DiskAnnError>)
        requires
            old(self).neighbors@.len() <= u32::MAX,
            from_centroid@.len() == old(self).neighbors@.len(),
            old(self).neighbors@.len() <= metric.sources(),
            old(self).neighbors@.len() <= metric.targets(),
            old(self).neighbors@.len() <= stretched.sources(),
            old(self).neighbors@.len() <= stretched.targets(),
        ensures
            r is Err <==> old(self).neighbors@.len() == 0,
            r matches Err(e) ==> e is Empty && *final(self) == *old(self),
            final(self).neighbors@.len() == old(self).neighbors@.len(),
            final(self).same_shape(&*old(self)),
            r is Ok ==> {
                &&& final(self).searchable()
                &&& bounded(final(self).links(), final(self).max_degree as nat)
                &&& is_medoid(from_centroid@, final(self).medoid as int)
                &&& exists|start: Seq<Seq<u32>>, first: Seq<u32>, second: Seq<u32>| #[trigger]
                    final(self).built_from(metric, stretched, start, first, second)
            },
    {
        let n: usize = self.neighbors.len();
        if n == 0 {
            return Err(DiskAnnError::Empty);
        }
        self.medoid = Self::find_medoid(from_centroid);
        self.init_random_graph();
        let ghost start = self.links();
        let ghost b = self.building();
        proof {
            bounded_is_closed(self.links(), self.max_degree as nat);
        }
        let first = shuffled(n);
        self.run_pass(metric, metric, &first);
        let second = shuffled(n);
        if float_order::less(float_order::ONE, self.alpha) {
            self.run_pass(metric, stretched, &second);
        }
        proof {
            assert(self.building() == b);
            assert(self.built_from(metric, stretched, start, first@, second@));
        }
        Ok(())
    }

    /// The live candidates of a list: not the deleted node, not marked as deleted.
    pub open spec fn live(list: Seq<u32>, deleted: u32, tombstones: Seq<u64>) -> Seq<u32>
        decreases list.len(),
    {
        if list.len() == 0 {
            Seq::empty()
        } else {
            let before = Self::live(list.drop_last(), deleted, tombstones);
            let c = list.last();
            if c != deleted && !tombstoned(tombstones, c as int) {
                before.push(c)
            } else {
                before
            }
        }
    }

    /// A list without one node.
    pub open spec fn without(list: Seq<u32>, deleted: u32) -> Seq<u32>
        decreases list.len(),
    {
        if list.len() == 0 {
            Seq::empty()
        } else {
            let before = Self::without(list.drop_last(), deleted);
            if list.last() != deleted {
                before.push(list.last())
            } else {
                before
            }
        }
    }

    /// A list with each element once, at its first place.
    pub open spec fn distinct(list: Seq<u32>) -> Seq<u32>
        decreases list.len(),
    {
        if list.len() == 0 {
            Seq::empty()
        } else {
            let before = Self::distinct(list.drop_last());
            if before.contains(list.last()) {
                before
            } else {
                before.push(list.last())
            }
        }
    }

    /// The list of `source` after `deleted` is gone: one that did not name it stays; a deleted
    /// source only drops it; a live one is pruned out of what it had and what the deleted node
    /// had, as far as that is live.
    pub open spec fn repaired<M: Metric, A: Metric>(
        links: Seq<Seq<u32>>,
        metric: &M,
        stretched: &A,
        deleted: u32,
        tombstones: Seq<u64>,
        source: int,
        most: nat,
    ) -> Seq<u32> {
        let list = links[source];
        if source == deleted {
            Seq::empty()
        } else if !list.contains(deleted) {
            list
        } else if tombstoned(tombstones, source) {
            Self::without(list, deleted)
        } else {
            pruned(
                metric,
                stretched,
                source as u32,
                Self::distinct(
                    Self::live(list + links[deleted as int], deleted, tombstones),
                ),
                most,
            )
        }
    }

    /// The first node from `from` on that is not marked as deleted, or `n` where there is none.
    pub open spec fn next_live(tombstones: Seq<u64>, from: int, n: int) -> int
        decreases n - from,
    {
        if from < n && tombstoned(tombstones, from) {
            Self::next_live(tombstones, from + 1, n)
        } else {
            from
        }
    }

    /// The medoid after `deleted` is gone: another live node where it was the medoid, its first
    /// live neighbour if it has one, else the first live node, if there is one.
    pub open spec fn new_medoid(
        links: Seq<Seq<u32>>,
        medoid: u32,
        deleted: u32,
        tombstones: Seq<u64>,
    ) -> u32 {
        let out = Self::live(links[deleted as int], deleted, tombstones);
        let first = Self::next_live(tombstones, 0, links.len() as int);
        if medoid != deleted {
            medoid
        } else if out.len() > 0 {
            out[0]
        } else if first < links.len() {
            first as u32
        } else {
            medoid
        }
    }

    /// Takes a deleted node out of the graph and repairs the lists that named it. Nothing
    /// happens where there is no such node or it is not marked as deleted.
    pub fn repair_deleted<M: Metric, A: Metric>(
        &mut self,
        metric: &M,
        stretched: &A,
        deleted: u32,
        tombstones: &[u64],
    )
        requires
            old(self).neighbors@.len() <= u32::MAX,
            beam::closed_graph(old(self).links()),
            old(self).neighbors@.len() <= metric.sources(),
            old(self).neighbors@.len() <= metric.targets(),
            old(self).neighbors@.len() <= stretched.sources(),
            old(self).neighbors@.len() <= stretched.targets(),
        ensures
            final(self).neighbors@.len() == old(self).neighbors@.len(),
            final(self).same_shape(&*old(self)),
            (deleted >= old(self).neighbors@.len() || !tombstoned(tombstones@, deleted as int))
                ==> *final(self) == *old(self),
            (deleted < old(self).neighbors@.len() && tombstoned(tombstones@, deleted as int)) ==> {
                &&& final(self).medoid == Self::new_medoid(
                    old(self).links(),
                    old(self).medoid,
                    deleted,
                    tombstones@,
                )
                &&& forall|i: int|
                    0 <= i < old(self).neighbors@.len() ==> (#[trigger] final(self).neighbors@[i])@
                        == Self::repaired(
                        old(self).links(),
                        metric,
                        stretched,
                        deleted,
                        tombstones@,
                        i,
                        old(self).max_degree as nat,
                    )
            },
    {
        let n: usize = self.neighbors.len();
        let at: usize = deleted as usize;
        if at >= n || !is_tombstoned(tombstones, at) {
            return;
        }
        let ghost links = self.links();
        let ghost most = self.max_degree as nat;
        let had = vstd::slice::slice_to_vec(self.neighbors[at].as_slice());
        assert(had@ == links[at as int]);
        let out = live_of(&had, deleted, tombstones);
        let mut medoid: u32 = self.medoid;
        if medoid == deleted {
            if out.len() > 0 {
                medoid = out[0];
            } else {
                let mut i: usize = 0;
                while i < n && is_tombstoned(tombstones, i)
                    invariant
                        i <= n,
                        Self::next_live(tombstones@, 0, n as int) == Self::next_live(
                            tombstones@,
                            i as int,
                            n as int,
                        ),
                    decreases n - i,
                {
                    i += 1;
                }
                if i < n {
                    medoid = i as u32;
                }
            }
        }
        self.medoid = medoid;
        let mut source: usize = 0;
        while source < n
            invariant
                n == self.neighbors@.len(),
                n <= u32::MAX,
                links.len() == n,
                at < n,
                at == deleted,
                source <= n,
                beam::closed_graph(links),
                had@ == links[at as int],
                self.medoid == medoid,
                self.same_shape(&*old(self)),
                most == self.max_degree,
                n <= metric.sources(),
                n <= metric.targets(),
                n <= stretched.sources(),
                n <= stretched.targets(),
                forall|i: int|
                    source <= i < n ==> (#[trigger] self.neighbors@[i])@ == links[i],
                forall|i: int|
                    0 <= i < source && i != at ==> (#[trigger] self.neighbors@[i])@
                        == Self::repaired(
                        links,
                        metric,
                        stretched,
                        deleted,
                        tombstones@,
                        i,
                        most,
                    ),
            decreases n - source,
        {
            if source != at && graph::has(&self.neighbors[source], deleted) {
                let list = vstd::slice::slice_to_vec(self.neighbors[source].as_slice());
                assert(list@ == links[source as int]);
                if is_tombstoned(tombstones, source) {
                    let rest = without_of(&list, deleted);
                    self.neighbors.set(source, rest);
                } else {
                    let mut both = list;
                    let mut j: usize = 0;
                    while j < had.len()
                        invariant
                            j <= had@.len(),
                            both@ == links[source as int] + had@.take(j as int),
                        decreases had@.len() - j,
                    {
                        both.push(had[j]);
                        j += 1;
                        assert(both@ =~= links[source as int] + had@.take(j as int));
                    }
                    assert(had@.take(j as int) =~= had@);
                    assert forall|a: int| 0 <= a < both@.len() implies #[trigger] both@[a] < n by {
                        if a < links[source as int].len() {
                            assert(links[source as int][a] < n);
                        } else {
                            assert(links[at as int][a - links[source as int].len()] < n);
                        }
                    }
                    let alive = live_of(&both, deleted, tombstones);
                    let candidates = distinct_of(&alive);
                    proof {
                        live_holds(both@, deleted, tombstones@);
                        distinct_holds(alive@);
                        assert forall|a: int| 0 <= a < candidates@.len() implies #[trigger] candidates@[a]
                            < n by {
                            assert(alive@.contains(candidates@[a]));
                            let c = choose|c: int| 0 <= c < alive@.len() && alive@[c] == candidates@[a];
                            assert(both@.contains(alive@[c]));
                            let d = choose|d: int| 0 <= d < both@.len() && both@[d] == alive@[c];
                            assert(both@[d] < n);
                        }
                    }
                    let kept = self.robust_prune(metric, stretched, source as u32, &candidates);
                    self.neighbors.set(source, kept);
                }
            }
            source += 1;
        }
        self.neighbors.set(at, Vec::new());
    }

    /// The graph after nodes that are not live were taken out, one after another, of the first
    /// `n`.
    pub open spec fn swept<M: Metric, A: Metric>(
        links: Seq<Seq<u32>>,
        medoid: u32,
        metric: &M,
        stretched: &A,
        live: Seq<bool>,
        most: nat,
        n: nat,
    ) -> Sweep
        decreases n,
    {
        if n == 0 {
            Sweep { links, medoid, tombstones: Seq::new((links.len() / 64 + 1) as nat, |i: int| 0u64) }
        } else {
            let s = Self::swept(links, medoid, metric, stretched, live, most, (n - 1) as nat);
            if live[n - 1] {
                s
            } else {
                let tombstones = marked(s.tombstones, n - 1);
                let gone = (n - 1) as u32;
                Sweep {
                    links: Seq::new(
                        s.links.len(),
                        |i: int|
                            Self::repaired(s.links, metric, stretched, gone, tombstones, i, most),
                    ),
                    medoid: Self::new_medoid(s.links, s.medoid, gone, tombstones),
                    tombstones,
                }
            }
        }
    }

    /// Takes every node that is not live out of the graph.
    pub fn sweep<M: Metric, A: Metric>(&mut self, metric: &M, stretched: &A, live: &Vec<bool>)
        requires
            old(self).searchable(),
            bounded(old(self).links(), old(self).max_degree as nat),
            live@.len() == old(self).neighbors@.len(),
            old(self).neighbors@.len() <= metric.sources(),
            old(self).neighbors@.len() <= metric.targets(),
            old(self).neighbors@.len() <= stretched.sources(),
            old(self).neighbors@.len() <= stretched.targets(),
        ensures
            ({
                let s = Self::swept(
                    old(self).links(),
                    old(self).medoid,
                    metric,
                    stretched,
                    live@,
                    old(self).max_degree as nat,
                    live@.len(),
                );
                &&& final(self).links() == s.links
                &&& final(self).medoid == s.medoid
            }),
            final(self).neighbors@.len() == old(self).neighbors@.len(),
            final(self).same_shape(&*old(self)),
            final(self).searchable(),
            bounded(final(self).links(), old(self).max_degree as nat),
            avoids_dead(final(self).links(), live@),
            live@.contains(true) ==> live@[final(self).medoid as int],
    {
        let n: usize = self.neighbors.len();
        let ghost links = self.links();
        let ghost medoid = self.medoid;
        let ghost most = self.max_degree as nat;
        let mut tombstones: Vec<u64> = Vec::new();
        let mut w: usize = 0;
        while w < n / 64 + 1
            invariant
                w <= n / 64 + 1,
                tombstones@ == Seq::new(w as nat, |i: int| 0u64),
            decreases n / 64 + 1 - w,
        {
            tombstones.push(0);
            w += 1;
            assert(tombstones@ =~= Seq::new(w as nat, |i: int| 0u64));
        }
        let mut i: usize = 0;
        proof {
            swept_holds(links, medoid, metric, stretched, live@, most, 0);
        }
        while i < n
            invariant
                i <= n,
                n == self.neighbors@.len(),
                n == links.len(),
                n == live@.len(),
                n <= u32::MAX,
                medoid < n,
                bounded(links, most),
                most == self.max_degree,
                self.same_shape(&*old(self)),
                n <= metric.sources(),
                n <= metric.targets(),
                n <= stretched.sources(),
                n <= stretched.targets(),
                self.links() == Self::swept(
                    links,
                    medoid,
                    metric,
                    stretched,
                    live@,
                    most,
                    i as nat,
                ).links,
                self.medoid == Self::swept(
                    links,
                    medoid,
                    metric,
                    stretched,
                    live@,
                    most,
                    i as nat,
                ).medoid,
                tombstones@ == Self::swept(
                    links,
                    medoid,
                    metric,
                    stretched,
                    live@,
                    most,
                    i as nat,
                ).tombstones,
            decreases n - i,
        {
            proof {
                swept_holds(links, medoid, metric, stretched, live@, most, i as nat);
            }
            if !live[i] {
                let ghost before = tombstones@;
                mark(&mut tombstones, i);
                proof {
                    mark_holds(before, i as int, i as int);
                    bounded_is_closed(self.links(), most);
                }
                self.repair_deleted(metric, stretched, i as u32, tombstones.as_slice());
                assert(self.links() =~= Self::swept(
                    links,
                    medoid,
                    metric,
                    stretched,
                    live@,
                    most,
                    (i + 1) as nat,
                ).links);
            }
            i += 1;
        }
        proof {
            swept_holds(links, medoid, metric, stretched, live@, most, n as nat);
            bounded_is_closed(self.links(), most);
            if live@.contains(true) {
                let l = choose|l: int| 0 <= l < live@.len() && live@[l] == true;
                assert(live@[l]);
            }
        }
    }
}

/// A graph on the way to one without deleted nodes.
pub struct Sweep {
    /// The neighbour lists.
    pub links: Seq<Seq<u32>>,
    /// Where searches start.
    pub medoid: u32,
    /// Marks of the nodes taken out.
    pub tombstones: Seq<u64>,
}

/// No list names a node that is not live.
pub open spec fn avoids_dead(links: Seq<Seq<u32>>, live: Seq<bool>) -> bool {
    forall|i: int, j: int|
        0 <= i < links.len() && 0 <= j < links[i].len() ==> live[#[trigger] links[i][j] as int]
}

proof fn next_live_holds(tombstones: Seq<u64>, from: int, n: int)
    requires
        0 <= from <= n,
    ensures
        ({
            let i = VamanaGraph::next_live(tombstones, from, n);
            &&& from <= i <= n
            &&& i < n ==> !tombstoned(tombstones, i)
            &&& forall|j: int| from <= j < i ==> #[trigger] tombstoned(tombstones, j)
        }),
    decreases n - from,
{
    if from < n && tombstoned(tombstones, from) {
        next_live_holds(tombstones, from + 1, n);
    }
}

/// What holds on the way: the marked nodes are those that are not live, no list names one, and
/// searches start at a live node if there is one.
proof fn swept_holds<M: Metric, A: Metric>(
    links: Seq<Seq<u32>>,
    medoid: u32,
    metric: &M,
    stretched: &A,
    live: Seq<bool>,
    most: nat,
    n: nat,
)
    requires
        bounded(links, most),
        links.len() <= u32::MAX,
        medoid < links.len(),
        live.len() == links.len(),
        n <= links.len(),
    ensures
        ({
            let s = VamanaGraph::swept(links, medoid, metric, stretched, live, most, n);
            &&& s.links.len() == links.len()
            &&& bounded(s.links, most)
            &&& s.tombstones.len() == links.len() / 64 + 1
            &&& forall|j: int|
                0 <= j < links.len() ==> (#[trigger] tombstoned(s.tombstones, j) <==> j < n
                    && !live[j])
            &&& forall|i: int, j: int|
                0 <= i < s.links.len() && 0 <= j < s.links[i].len() ==> (#[trigger] s.links[i][j]
                    < n ==> live[s.links[i][j] as int])
            &&& s.medoid < links.len()
            &&& forall|l: int|
                0 <= l < live.len() && #[trigger] live[l] ==> (s.medoid < n ==> live[s.medoid as int])
        }),
    decreases n,
{
    let s = VamanaGraph::swept(links, medoid, metric, stretched, live, most, n);
    if n == 0 {
        assert forall|j: int| 0 <= j < links.len() implies !#[trigger] tombstoned(
            s.tombstones,
            j,
        ) by {
            let at = (j % 64) as u64;
            assert(0u64 & (1u64 << at) == 0) by (bit_vector);
        }
    } else {
        let m = (n - 1) as nat;
        let t = VamanaGraph::swept(links, medoid, metric, stretched, live, most, m);
        swept_holds(links, medoid, metric, stretched, live, most, m);
        if !live[n - 1] {
            let gone = m as u32;
            assert forall|j: int| 0 <= j < links.len() implies (#[trigger] tombstoned(
                s.tombstones,
                j,
            ) <==> j < n && !live[j]) by {
                mark_holds(t.tombstones, m as int, j);
                assert(tombstoned(t.tombstones, j) <==> j < m && !live[j]);
            }
            assert forall|i: int| 0 <= i < s.links.len() implies graph::proper_list(
                #[trigger] s.links[i],
                i,
                s.links.len(),
            ) && s.links[i].len() <= most by {
                repair_removes_node(t.links, metric, stretched, gone, s.tombstones, most, i);
            }
            assert forall|i: int, j: int|
                0 <= i < s.links.len() && 0 <= j < s.links[i].len() && (#[trigger] s.links[i][j])
                    < n implies live[s.links[i][j] as int] by {
                let list = s.links[i];
                let had = t.links[i];
                repair_removes_node(t.links, metric, stretched, gone, s.tombstones, most, i);
                assert(list.contains(list[j]));
                assert(graph::proper_list(list, i, s.links.len()));
                if i != gone && had.contains(gone) && !tombstoned(s.tombstones, i) {
                    assert(!tombstoned(s.tombstones, list[j] as int));
                } else {
                    without_holds(had, gone);
                    assert(had.contains(list[j]));
                    let k = choose|k: int| 0 <= k < had.len() && had[k] == list[j];
                    assert(t.links[i][k] < m ==> live[t.links[i][k] as int]);
                }
            }
            let out = VamanaGraph::live(t.links[gone as int], gone, s.tombstones);
            live_holds(t.links[gone as int], gone, s.tombstones);
            next_live_holds(s.tombstones, 0, links.len() as int);
            if t.medoid == gone && out.len() > 0 {
                let c = out[0];
                assert(t.links[gone as int].contains(c));
                let k = choose|k: int|
                    0 <= k < t.links[gone as int].len() && t.links[gone as int][k] == c;
                assert(graph::proper_list(t.links[gone as int], gone as int, t.links.len()));
                assert(t.links[gone as int][k] < t.links.len());
            }
            assert forall|l: int|
                0 <= l < live.len() && #[trigger] live[l] && s.medoid < n implies live[s.medoid as int] by {
                assert(!tombstoned(s.tombstones, l));
                assert(tombstoned(s.tombstones, s.medoid as int) <==> s.medoid < n
                    && !live[s.medoid as int]);
            }
        }
    }
}

fn is_occluded<A: Metric>(stretched: &A, selected: &Vec<u32>, x: Scored) -> (r: bool)
    requires
        x.id < stretched.targets(),
        forall|i: int| 0 <= i < selected@.len() ==> #[trigger] selected@[i] < stretched.sources(),
    ensures
        r == occluded(stretched, selected@, x),
{
    let mut i: usize = 0;
    while i < selected.len()
        invariant
            i <= selected@.len(),
            x.id < stretched.targets(),
            forall|j: int| 0 <= j < selected@.len() ==> #[trigger] selected@[j] < stretched.sources(),
            forall|j: int|
                0 <= j < i ==> !float_order::at_most(
                    stretched.measured(#[trigger] selected@[j] as int, x.id as int),
                    x.bits,
                ),
        decreases selected@.len() - i,
    {
        let s: u32 = selected[i];
        let apart: u32 = stretched.measure(s, x.id);
        if float_order::less_or_equal(apart, x.bits) {
            assert(selected@[i as int] == s);
            return true;
        }
        i += 1;
    }
    false
}

fn live_of(list: &Vec<u32>, deleted: u32, tombstones: &[u64]) -> (out: Vec<u32>)
    ensures
        out@ == VamanaGraph::live(list@, deleted, tombstones@),
{
    let mut out: Vec<u32> = Vec::new();
    let mut i: usize = 0;
    while i < list.len()
        invariant
            i <= list@.len(),
            out@ == VamanaGraph::live(list@.take(i as int), deleted, tombstones@),
        decreases list@.len() - i,
    {
        let c: u32 = list[i];
        assert(list@.take(i + 1).drop_last() =~= list@.take(i as int));
        if c != deleted && !is_tombstoned(tombstones, c as usize) {
            out.push(c);
        }
        i += 1;
    }
    assert(list@.take(i as int) =~= list@);
    out
}

fn without_of(list: &Vec<u32>, deleted: u32) -> (out: Vec<u32>)
    ensures
        out@ == VamanaGraph::without(list@, deleted),
{
    let mut out: Vec<u32> = Vec::new();
    let mut i: usize = 0;
    while i < list.len()
        invariant
            i <= list@.len(),
            out@ == VamanaGraph::without(list@.take(i as int), deleted),
        decreases list@.len() - i,
    {
        assert(list@.take(i + 1).drop_last() =~= list@.take(i as int));
        if list[i] != deleted {
            out.push(list[i]);
        }
        i += 1;
    }
    assert(list@.take(i as int) =~= list@);
    out
}

fn distinct_of(list: &Vec<u32>) -> (out: Vec<u32>)
    ensures
        out@ == VamanaGraph::distinct(list@),
{
    let mut out: Vec<u32> = Vec::new();
    let mut i: usize = 0;
    while i < list.len()
        invariant
            i <= list@.len(),
            out@ == VamanaGraph::distinct(list@.take(i as int)),
        decreases list@.len() - i,
    {
        assert(list@.take(i + 1).drop_last() =~= list@.take(i as int));
        if !graph::has(&out, list[i]) {
            out.push(list[i]);
        }
        i += 1;
    }
    assert(list@.take(i as int) =~= list@);
    out
}

proof fn live_holds(list: Seq<u32>, deleted: u32, tombstones: Seq<u64>)
    ensures
        forall|i: int|
            0 <= i < VamanaGraph::live(list, deleted, tombstones).len() ==> {
                let c = #[trigger] VamanaGraph::live(list, deleted, tombstones)[i];
                list.contains(c) && c != deleted && !tombstoned(tombstones, c as int)
            },
    decreases list.len(),
{
    if list.len() > 0 {
        let front = list.drop_last();
        live_holds(front, deleted, tombstones);
        let before = VamanaGraph::live(front, deleted, tombstones);
        let after = VamanaGraph::live(list, deleted, tombstones);
        assert forall|i: int| 0 <= i < after.len() implies {
            let c = #[trigger] after[i];
            list.contains(c) && c != deleted && !tombstoned(tombstones, c as int)
        } by {
            if i < before.len() {
                assert(front.contains(before[i]));
                let j = choose|j: int| 0 <= j < front.len() && front[j] == before[i];
                assert(list[j] == before[i]);
            } else {
                assert(list[list.len() - 1] == after[i]);
            }
        }
    }
}

proof fn without_holds(list: Seq<u32>, deleted: u32)
    ensures
        VamanaGraph::without(list, deleted).len() <= list.len(),
        forall|i: int|
            0 <= i < VamanaGraph::without(list, deleted).len() ==> {
                let c = #[trigger] VamanaGraph::without(list, deleted)[i];
                list.contains(c) && c != deleted
            },
        list.no_duplicates() ==> VamanaGraph::without(list, deleted).no_duplicates(),
    decreases list.len(),
{
    if list.len() > 0 {
        let front = list.drop_last();
        without_holds(front, deleted);
        let before = VamanaGraph::without(front, deleted);
        let after = VamanaGraph::without(list, deleted);
        assert forall|i: int| 0 <= i < after.len() implies {
            let c = #[trigger] after[i];
            list.contains(c) && c != deleted
        } by {
            if i < before.len() {
                assert(front.contains(before[i]));
                let j = choose|j: int| 0 <= j < front.len() && front[j] == before[i];
                assert(list[j] == before[i]);
            } else {
                assert(list[list.len() - 1] == after[i]);
            }
        }
        if list.no_duplicates() {
            assert(front.no_duplicates());
            assert forall|i: int, j: int|
                0 <= i < after.len() && 0 <= j < after.len() && i != j implies after[i] != after[j] by {
                let a = if i < j { i } else { j };
                let b = if i < j { j } else { i };
                if b == before.len() {
                    assert(front.contains(before[a]));
                    let k = choose|k: int| 0 <= k < front.len() && front[k] == before[a];
                    assert(list[k] != list[list.len() - 1]);
                } else {
                    assert(before[a] != before[b]);
                }
            }
        }
    }
}

proof fn distinct_holds(list: Seq<u32>)
    ensures
        VamanaGraph::distinct(list).no_duplicates(),
        forall|i: int|
            0 <= i < VamanaGraph::distinct(list).len() ==> list.contains(
                #[trigger] VamanaGraph::distinct(list)[i],
            ),
    decreases list.len(),
{
    if list.len() > 0 {
        let front = list.drop_last();
        distinct_holds(front);
        let before = VamanaGraph::distinct(front);
        let after = VamanaGraph::distinct(list);
        assert forall|i: int| 0 <= i < after.len() implies list.contains(#[trigger] after[i]) by {
            if i < before.len() {
                assert(front.contains(before[i]));
                let j = choose|j: int| 0 <= j < front.len() && front[j] == before[i];
                assert(list[j] == before[i]);
            } else {
                assert(list[list.len() - 1] == after[i]);
            }
        }
        assert forall|i: int, j: int|
            0 <= i < after.len() && 0 <= j < after.len() && i != j implies after[i] != after[j] by {
            let a = if i < j { i } else { j };
            let b = if i < j { j } else { i };
            if b == before.len() {
                assert(before[a] != list.last());
            }
        }
    }
}

/// After a repair no list names the deleted node, and a bounded graph is still bounded.
pub proof fn repair_removes_node<M: Metric, A: Metric>(
    links: Seq<Seq<u32>>,
    metric: &M,
    stretched: &A,
    deleted: u32,
    tombstones: Seq<u64>,
    most: nat,
    source: int,
)
    requires
        bounded(links, most),
        links.len() <= u32::MAX,
        deleted < links.len(),
        0 <= source < links.len(),
    ensures
        ({
            let list = VamanaGraph::repaired(
                links,
                metric,
                stretched,
                deleted,
                tombstones,
                source,
                most,
            );
            &&& !list.contains(deleted)
            &&& graph::proper_list(list, source, links.len())
            &&& list.len() <= most
            &&& source == deleted ==> list.len() == 0
            &&& source != deleted && links[source].contains(deleted) && !tombstoned(
                tombstones,
                source,
            ) ==> forall|i: int|
                0 <= i < list.len() ==> !tombstoned(tombstones, #[trigger] list[i] as int)
        }),
{
    let had = links[source];
    let list = VamanaGraph::repaired(links, metric, stretched, deleted, tombstones, source, most);
    assert(graph::proper_list(had, source, links.len()));
    assert(graph::proper_list(links[deleted as int], deleted as int, links.len()));
    if source != deleted && had.contains(deleted) {
        if tombstoned(tombstones, source) {
            without_holds(had, deleted);
            assert forall|i: int| 0 <= i < list.len() implies #[trigger] list[i] < links.len()
                && list[i] != source by {
                assert(had.contains(list[i]));
                let j = choose|j: int| 0 <= j < had.len() && had[j] == list[i];
                assert(had[j] < links.len());
            }
            if list.contains(deleted) {
                let i = choose|i: int| 0 <= i < list.len() && list[i] == deleted;
                assert(list[i] != deleted);
            }
        } else {
            let both = had + links[deleted as int];
            let alive = VamanaGraph::live(both, deleted, tombstones);
            let candidates = VamanaGraph::distinct(alive);
            live_holds(both, deleted, tombstones);
            distinct_holds(alive);
            pruned_holds(metric, stretched, source as u32, candidates, most);
            assert forall|i: int| 0 <= i < list.len() implies #[trigger] list[i] < links.len()
                && list[i] != source && list[i] != deleted && !tombstoned(
                tombstones,
                list[i] as int,
            ) by {
                assert(candidates.contains(list[i]));
                let a = choose|a: int| 0 <= a < candidates.len() && candidates[a] == list[i];
                assert(alive.contains(candidates[a]));
                let c = choose|c: int| 0 <= c < alive.len() && alive[c] == list[i];
                assert(both.contains(alive[c]));
                let d = choose|d: int| 0 <= d < both.len() && both[d] == list[i];
                if d < had.len() {
                    assert(had[d] < links.len());
                } else {
                    assert(links[deleted as int][d - had.len()] < links.len());
                }
            }
            if list.contains(deleted) {
                let i = choose|i: int| 0 <= i < list.len() && list[i] == deleted;
                assert(list[i] != deleted);
            }
        }
    }
}

proof fn live_is_complete(list: Seq<u32>, deleted: u32, tombstones: Seq<u64>, c: u32)
    ensures
        VamanaGraph::live(list, deleted, tombstones).contains(c) <==> list.contains(c) && c
            != deleted && !tombstoned(tombstones, c as int),
    decreases list.len(),
{
    live_holds(list, deleted, tombstones);
    let after = VamanaGraph::live(list, deleted, tombstones);
    if after.contains(c) {
        let i = choose|i: int| 0 <= i < after.len() && after[i] == c;
        assert(list.contains(after[i]));
    }
    if list.contains(c) && c != deleted && !tombstoned(tombstones, c as int) {
        let front = list.drop_last();
        let before = VamanaGraph::live(front, deleted, tombstones);
        live_is_complete(front, deleted, tombstones, c);
        let i = choose|i: int| 0 <= i < list.len() && list[i] == c;
        if i < front.len() {
            assert(front[i] == c);
            let j = choose|j: int| 0 <= j < before.len() && before[j] == c;
            assert(after[j] == c);
        } else {
            assert(after[after.len() - 1] == c);
        }
    }
}

proof fn distinct_is_complete(list: Seq<u32>, c: u32)
    ensures
        VamanaGraph::distinct(list).contains(c) <==> list.contains(c),
    decreases list.len(),
{
    distinct_holds(list);
    let after = VamanaGraph::distinct(list);
    if after.contains(c) {
        let i = choose|i: int| 0 <= i < after.len() && after[i] == c;
        assert(list.contains(after[i]));
    }
    if list.contains(c) {
        let front = list.drop_last();
        let before = VamanaGraph::distinct(front);
        distinct_is_complete(front, c);
        let i = choose|i: int| 0 <= i < list.len() && list[i] == c;
        if i < front.len() {
            assert(front[i] == c);
        }
        if before.contains(c) {
            let j = choose|j: int| 0 <= j < before.len() && before[j] == c;
            assert(after[j] == c);
        } else {
            assert(after[after.len() - 1] == c);
        }
    }
}

/// A repair bridges the gap that a deleted node leaves: a live node that named it chooses anew,
/// robustly, from all that are live of its own neighbours and those of the deleted node. A node
/// that did not name it keeps its list, and a deleted one only drops it.
pub proof fn repair_bridges_gap<M: Metric, A: Metric>(
    links: Seq<Seq<u32>>,
    metric: &M,
    stretched: &A,
    deleted: u32,
    tombstones: Seq<u64>,
    most: nat,
    source: int,
    candidates: Seq<u32>,
)
    requires
        deleted < links.len() <= u32::MAX,
        0 <= source < links.len(),
        candidates.no_duplicates(),
        forall|c: u32| #[trigger]
            candidates.contains(c) <==> (links[source].contains(c) || links[deleted as int].contains(
                c,
            )) && c != deleted && !tombstoned(tombstones, c as int),
    ensures
        ({
            let list = VamanaGraph::repaired(
                links,
                metric,
                stretched,
                deleted,
                tombstones,
                source,
                most,
            );
            if source == deleted {
                list == Seq::<u32>::empty()
            } else if !links[source].contains(deleted) {
                list == links[source]
            } else if tombstoned(tombstones, source) {
                forall|c: u32| #[trigger]
                    list.contains(c) <==> links[source].contains(c) && c != deleted
            } else {
                is_robust_choice(list, metric, stretched, source as u32, candidates, most)
            }
        }),
{
    let had = links[source];
    let list = VamanaGraph::repaired(links, metric, stretched, deleted, tombstones, source, most);
    if source != deleted && had.contains(deleted) {
        if tombstoned(tombstones, source) {
            assert forall|c: u32| #[trigger] list.contains(c) <==> had.contains(c) && c != deleted by {
                without_is_complete(had, deleted, c);
            }
        } else {
            let both = had + links[deleted as int];
            let alive = VamanaGraph::live(both, deleted, tombstones);
            let own = VamanaGraph::distinct(alive);
            distinct_holds(alive);
            pruning_is_robust(metric, stretched, source as u32, own, most);
            assert forall|c: u32| own.contains(c) <==> #[trigger] candidates.contains(c) by {
                distinct_is_complete(alive, c);
                live_is_complete(both, deleted, tombstones, c);
                if had.contains(c) {
                    let a = choose|a: int| 0 <= a < had.len() && had[a] == c;
                    assert(both[a] == c);
                }
                if links[deleted as int].contains(c) {
                    let a = choose|a: int|
                        0 <= a < links[deleted as int].len() && links[deleted as int][a] == c;
                    assert(both[had.len() + a] == c);
                }
                if both.contains(c) {
                    let a = choose|a: int| 0 <= a < both.len() && both[a] == c;
                    if a < had.len() {
                        assert(had[a] == c);
                    } else {
                        assert(links[deleted as int][a - had.len()] == c);
                    }
                }
            }
            assert forall|i: int| 0 <= i < list.len() implies candidates.contains(
                #[trigger] list[i],
            ) && list[i] != source as u32 by {
                assert(own.contains(list[i]));
            }
        }
    }
}

proof fn without_is_complete(list: Seq<u32>, deleted: u32, c: u32)
    ensures
        VamanaGraph::without(list, deleted).contains(c) <==> list.contains(c) && c != deleted,
    decreases list.len(),
{
    without_holds(list, deleted);
    let after = VamanaGraph::without(list, deleted);
    if after.contains(c) {
        let i = choose|i: int| 0 <= i < after.len() && after[i] == c;
        assert(list.contains(after[i]));
    }
    if list.contains(c) && c != deleted {
        let front = list.drop_last();
        let before = VamanaGraph::without(front, deleted);
        without_is_complete(front, deleted, c);
        let i = choose|i: int| 0 <= i < list.len() && list[i] == c;
        if i < front.len() {
            assert(front[i] == c);
            let j = choose|j: int| 0 <= j < before.len() && before[j] == c;
            assert(after[j] == c);
        } else {
            assert(after[after.len() - 1] == c);
        }
    }
}

/// Searches start at a live node after a repair: another medoid is taken only where it was the
/// node deleted. It is then a live neighbour of that node, or the first live node where there is
/// no such neighbour.
pub proof fn repair_moves_medoid(
    links: Seq<Seq<u32>>,
    medoid: u32,
    deleted: u32,
    tombstones: Seq<u64>,
)
    requires
        deleted < links.len() <= u32::MAX,
    ensures
        ({
            let m = VamanaGraph::new_medoid(links, medoid, deleted, tombstones);
            let had = links[deleted as int];
            &&& medoid != deleted ==> m == medoid
            &&& medoid == deleted && (exists|c: u32| #[trigger]
                had.contains(c) && c != deleted && !tombstoned(tombstones, c as int)) ==> {
                &&& had.contains(m)
                &&& m != deleted
                &&& !tombstoned(tombstones, m as int)
            }
            &&& medoid == deleted && !(exists|c: u32| #[trigger]
                had.contains(c) && c != deleted && !tombstoned(tombstones, c as int)) && (exists|
                v: int,
            |
                0 <= v < links.len() && !#[trigger] tombstoned(tombstones, v)) ==> {
                &&& m < links.len()
                &&& !tombstoned(tombstones, m as int)
                &&& forall|v: int| 0 <= v < m ==> #[trigger] tombstoned(tombstones, v)
            }
        }),
{
    let had = links[deleted as int];
    let out = VamanaGraph::live(had, deleted, tombstones);
    live_holds(had, deleted, tombstones);
    next_live_holds(tombstones, 0, links.len() as int);
    if exists|c: u32| #[trigger]
        had.contains(c) && c != deleted && !tombstoned(tombstones, c as int) {
        let c = choose|c: u32| #[trigger]
            had.contains(c) && c != deleted && !tombstoned(tombstones, c as int);
        live_is_complete(had, deleted, tombstones, c);
        let i = choose|i: int| 0 <= i < out.len() && out[i] == c;
        assert(had.contains(out[0]));
    } else if out.len() > 0 {
        assert(had.contains(out[0]));
    }
}

proof fn random_start_is_bounded(links: Seq<Seq<u32>>, degree: int, most: nat)
    requires
        is_random_start(links, degree),
        0 <= degree <= most,
        links.len() <= u32::MAX,
    ensures
        bounded(links, most),
{
    assert forall|i: int| 0 <= i < links.len() implies graph::proper_list(
        #[trigger] links[i],
        i,
        links.len(),
    ) && links[i].len() <= most by {
        let none = Seq::<u32>::empty();
        let n = links.len() as int;
        assert(graph::with_jumps(none, links[i], i, n, degree, 3 * degree));
        let draws = choose|draws: Seq<int>| #[trigger]
            graph::jumps_drawn(none, links[i], i, n, degree, 3 * degree, draws);
        graph::all_jumped_is_proper(none, i, draws, links.len());
    }
}

/// Every node once.
pub open spec fn names_each_once(order: Seq<u32>, n: nat) -> bool {
    &&& order.len() == n
    &&& order.no_duplicates()
    &&& forall|i: int| 0 <= i < n ==> #[trigger] order[i] < n
    &&& forall|v: u32| v < n ==> #[trigger] order.contains(v)
}

proof fn order_names_each_once(order: Seq<u32>, n: nat)
    requires
        is_order(order, n),
        n <= u32::MAX,
    ensures
        names_each_once(order, n),
{
    broadcast use vstd::seq_lib::group_to_multiset_ensures;

    let plain = Seq::new(n, |i: int| i as u32);
    assert(order.len() == order.to_multiset().len());
    assert(plain.len() == plain.to_multiset().len());
    assert(plain.no_duplicates());
    plain.lemma_multiset_has_no_duplicates();
    assert forall|x: u32| order.to_multiset().contains(x) implies order.to_multiset().count(x) == 1 by {
        assert(plain.to_multiset().contains(x));
    }
    order.lemma_multiset_has_no_duplicates_conv();
    assert forall|i: int| 0 <= i < n implies #[trigger] order[i] < n by {
        assert(order.contains(order[i]));
        assert(order.to_multiset().count(order[i]) > 0);
        assert(plain.contains(order[i]));
    }
    assert forall|v: u32| v < n implies #[trigger] order.contains(v) by {
        assert(plain[v as int] == v);
        assert(plain.contains(v));
        assert(plain.to_multiset().count(v) > 0);
    }
}

/// Building relinks every node: once, choosing by plain distances, and where the pruning factor
/// is above one a second time, choosing by stretched ones. It starts from a random graph in
/// which every node has at most as many neighbours as allowed.
pub proof fn building_relinks_every_node<M: Metric, A: Metric>(
    g: &VamanaGraph,
    metric: &M,
    stretched: &A,
    start: Seq<Seq<u32>>,
    first: Seq<u32>,
    second: Seq<u32>,
) -> (graphs: (Seq<Seq<Seq<u32>>>, Seq<Seq<Seq<u32>>>))
    requires
        g.built_from(metric, stretched, start, first, second),
        0 < g.neighbors@.len() <= u32::MAX,
        g.medoid < g.neighbors@.len(),
    ensures
        bounded(start, g.max_degree as nat),
        names_each_once(first, g.neighbors@.len()),
        names_each_once(second, g.neighbors@.len()),
        is_pass(graphs.0, g.building(), metric, metric, first),
        graphs.0[0] == start,
        float_order::below(float_order::ONE, g.alpha) ==> {
            &&& is_pass(graphs.1, g.building(), metric, stretched, second)
            &&& graphs.1[0] == graphs.0.last()
            &&& graphs.1.last() == g.links()
        },
        !float_order::below(float_order::ONE, g.alpha) ==> graphs.0.last() == g.links(),
{
    let n = g.neighbors@.len();
    let b = g.building();
    let degree = if g.max_degree < n - 1 {
        g.max_degree as int
    } else {
        n - 1
    };
    random_start_is_bounded(start, degree, g.max_degree as nat);
    order_names_each_once(first, n);
    order_names_each_once(second, n);
    let once = passed(start, b, metric, metric, first);
    let one = pass_relinks_each(start, b, metric, metric, first);
    passed_is_bounded(start, b, metric, metric, first);
    let two = pass_relinks_each(once, b, metric, stretched, second);
    (one, two)
}

fn shuffled(n: usize) -> (order: Vec<u32>)
    requires
        n <= u32::MAX,
    ensures
        is_order(order@, n as nat),
        order@.len() == n,
        forall|i: int| 0 <= i < n ==> #[trigger] order@[i] < n,
{
    let mut order: Vec<u32> = Vec::new();
    let mut i: usize = 0;
    while i < n
        invariant
            i <= n <= u32::MAX,
            order@ == Seq::new(i as nat, |j: int| j as u32),
        decreases n - i,
    {
        order.push(i as u32);
        i += 1;
        assert(order@ =~= Seq::new(i as nat, |j: int| j as u32));
    }
    let ghost plain = order@;
    rng::thread_shuffle(&mut order);
    proof {
        broadcast use vstd::seq_lib::group_to_multiset_ensures;

        assert(order@.len() == order@.to_multiset().len());
        assert(plain.len() == plain.to_multiset().len());
        assert forall|j: int| 0 <= j < n implies #[trigger] order@[j] < n by {
            assert(order@.contains(order@[j]));
            assert(order@.to_multiset().count(order@[j]) > 0);
            assert(plain.contains(order@[j]));
            let a = choose|a: int| 0 <= a < plain.len() && plain[a] == order@[j];
        }
    }
    order
}

} // verus!
