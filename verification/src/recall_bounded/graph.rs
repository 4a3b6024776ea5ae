//! Proximity graph that grows entry by entry, and its budgeted walk.
use crate::adaptive::graph as lists;
use crate::beam;
use crate::float_order;
use crate::knn;
use crate::metric::Metric;
use crate::ranking;
use crate::ranking::Scored;
use crate::recall_bounded::millionths;
use crate::recall_bounded::scan;
use crate::recall_bounded::scan::Entry;
use crate::recall_bounded::scan::Hit;
use crate::visited::VisitedSet;
use vstd::prelude::*;

verus! {

/// The first `n` nodes with the rank of their similarity to `from` in millionths.
pub open spec fn graded_row<M: Metric>(metric: &M, from: int, n: nat) -> Seq<Scored> {
    Seq::new(
        n,
        |j: int|
            Scored {
                id: j as u32,
                bits: millionths::bits_of_rank(
                    millionths::millionths_of(metric.measured(from, j)) as i32,
                ),
            },
    )
}

/// The `m` nodes before node `id` that are most similar to it in millionths, most similar
/// first and of equal ones the earlier first.
pub open spec fn closest<M: Metric>(metric: &M, id: int, m: nat) -> Seq<u32> {
    ranking::ids_of(ranking::first_k(ranking::ranked_high(graded_row(metric, id, id as nat)), m))
}

/// Nodes with their similarity to `from`.
pub open spec fn by_similarity<M: Metric>(metric: &M, from: int, ids: Seq<u32>) -> Seq<Scored> {
    Seq::new(
        ids.len(),
        |i: int| Scored { id: ids[i], bits: metric.measured(from, ids[i] as int) },
    )
}

/// The list of `to` after `id` was added: one longer than `2 * m` is cut to the `m` most
/// similar.
pub open spec fn back_list<M: Metric>(list: Seq<u32>, metric: &M, to: u32, id: u32, m: nat) -> Seq<u32> {
    if list.contains(id) {
        list
    } else if list.len() + 1 > 2 * m {
        ranking::ids_of(
            ranking::first_k(
                ranking::ranked_high(by_similarity(metric, to as int, list.push(id))),
                m,
            ),
        )
    } else {
        list.push(id)
    }
}

/// The graph after `id` was added to the lists of several nodes.
pub open spec fn back_lists<M: Metric>(
    links: Seq<Seq<u32>>,
    metric: &M,
    id: u32,
    tos: Seq<u32>,
    m: nat,
) -> Seq<Seq<u32>>
    decreases tos.len(),
{
    if tos.len() == 0 {
        links
    } else {
        let before = back_lists(links, metric, id, tos.drop_last(), m);
        let to = tos.last();
        before.update(to as int, back_list(before[to as int], metric, to, id, m))
    }
}

/// The graph after one more node.
pub open spec fn grown<M: Metric>(links: Seq<Seq<u32>>, metric: &M, m: nat) -> Seq<Seq<u32>> {
    let id = links.len() as int;
    let near = closest(metric, id, m);
    back_lists(links.push(near), metric, id as u32, near, m)
}

/// Every list names other nodes, none twice, and is at most `2 * m` long.
pub open spec fn tidy(links: Seq<Seq<u32>>, m: nat) -> bool {
    forall|i: int|
        0 <= i < links.len() ==> lists::proper_list(#[trigger] links[i], i, links.len())
            && links[i].len() <= 2 * m
}

proof fn closest_holds<M: Metric>(metric: &M, id: int, m: nat)
    requires
        0 <= id <= u32::MAX,
    ensures
        closest(metric, id, m).len() <= m,
        closest(metric, id, m).no_duplicates(),
        forall|i: int|
            0 <= i < closest(metric, id, m).len() ==> #[trigger] closest(metric, id, m)[i] < id,
{
    let row = graded_row(metric, id, id as nat);
    assert(ranking::distinct_ids(row));
    ranking::ranked_high_properties(row);
    let all = ranking::ranked_high(row);
    let found = closest(metric, id, m);
    assert forall|i: int| 0 <= i < found.len() implies #[trigger] found[i] < id by {
        assert(all.contains(all[i]));
        assert(row.contains(all[i]));
        let j = choose|j: int| 0 <= j < row.len() && row[j] == all[i];
        assert(row[j].id == j);
    }
    assert forall|i: int, j: int|
        0 <= i < found.len() && 0 <= j < found.len() && i != j implies found[i] != found[j] by {
        if i < j {
            assert(all[i].id != all[j].id);
        } else {
            assert(all[j].id != all[i].id);
        }
    }
}

proof fn back_list_holds<M: Metric>(list: Seq<u32>, metric: &M, to: u32, id: u32, m: nat, n: nat)
    requires
        lists::proper_list(list, to as int, n),
        list.len() <= 2 * m,
        m > 0,
        id < n,
        id != to,
    ensures
        lists::proper_list(back_list(list, metric, to, id, m), to as int, n),
        back_list(list, metric, to, id, m).len() <= 2 * m,
{
    if !list.contains(id) {
        let longer = list.push(id);
        let scored = by_similarity(metric, to as int, longer);
        assert(ranking::distinct_ids(scored)) by {
            assert forall|i: int, j: int| 0 <= i < j < scored.len() implies (#[trigger] scored[i]).id
                != (#[trigger] scored[j]).id by {
                if j == list.len() {
                    assert(list[i] != id);
                }
            }
        }
        ranking::ranked_high_properties(scored);
        let all = ranking::ranked_high(scored);
        let after = back_list(list, metric, to, id, m);
        if list.len() + 1 > 2 * m {
            assert forall|i: int| 0 <= i < after.len() implies #[trigger] after[i] < n && after[i]
                != to by {
                assert(all.contains(all[i]));
                assert(scored.contains(all[i]));
                let j = choose|j: int| 0 <= j < scored.len() && scored[j] == all[i];
                if j < list.len() {
                    assert(list[j] < n);
                }
            }
            assert forall|i: int, j: int|
                0 <= i < after.len() && 0 <= j < after.len() && i != j implies after[i] != after[j] by {
                if i < j {
                    assert(all[i].id != all[j].id);
                } else {
                    assert(all[j].id != all[i].id);
                }
            }
        } else {
            assert forall|i: int, j: int|
                0 <= i < longer.len() && 0 <= j < longer.len() && i != j implies longer[i]
                != longer[j] by {
                if i == list.len() {
                    assert(list[j] != id);
                } else if j == list.len() {
                    assert(list[i] != id);
                }
            }
            assert forall|i: int| 0 <= i < longer.len() implies #[trigger] longer[i] < n
                && longer[i] != to by {
                if i < list.len() {
                    assert(list[i] < n);
                }
            }
        }
    }
}

proof fn back_lists_hold<M: Metric>(links: Seq<Seq<u32>>, metric: &M, id: u32, tos: Seq<u32>, m: nat)
    requires
        tidy(links, m),
        m > 0,
        id < links.len(),
        forall|i: int| 0 <= i < tos.len() ==> #[trigger] tos[i] < links.len() && tos[i] != id,
    ensures
        tidy(back_lists(links, metric, id, tos, m), m),
        back_lists(links, metric, id, tos, m).len() == links.len(),
    decreases tos.len(),
{
    if tos.len() > 0 {
        let front = tos.drop_last();
        assert forall|i: int| 0 <= i < front.len() implies #[trigger] front[i] < links.len()
            && front[i] != id by {
            assert(tos[i] < links.len());
        }
        back_lists_hold(links, metric, id, front, m);
        let before = back_lists(links, metric, id, front, m);
        let to = tos.last();
        assert(tos[tos.len() - 1] < links.len());
        assert(lists::proper_list(before[to as int], to as int, before.len()));
        back_list_holds(before[to as int], metric, to, id, m, links.len());
        let after = back_lists(links, metric, id, tos, m);
        assert forall|i: int| 0 <= i < after.len() implies lists::proper_list(
            #[trigger] after[i],
            i,
            after.len(),
        ) && after[i].len() <= 2 * m by {
            if i != to {
                assert(after[i] == before[i]);
                assert(lists::proper_list(before[i], i, before.len()));
            }
        }
    }
}

/// One more node keeps the graph tidy: no list grows past `2 * m`.
pub proof fn grown_is_tidy<M: Metric>(links: Seq<Seq<u32>>, metric: &M, m: nat)
    requires
        tidy(links, m),
        m > 0,
        links.len() < u32::MAX,
    ensures
        tidy(grown(links, metric, m), m),
        grown(links, metric, m).len() == links.len() + 1,
{
    let id = links.len() as int;
    let near = closest(metric, id, m);
    closest_holds(metric, id, m);
    let longer = links.push(near);
    assert forall|i: int| 0 <= i < longer.len() implies lists::proper_list(
        #[trigger] longer[i],
        i,
        longer.len(),
    ) && longer[i].len() <= 2 * m by {
        if i < id {
            assert(longer[i] == links[i]);
            assert(lists::proper_list(links[i], i, links.len()));
            assert forall|j: int| 0 <= j < longer[i].len() implies #[trigger] longer[i][j]
                < longer.len() && longer[i][j] != i by {
                assert(links[i][j] < links.len());
            }
        } else {
            assert forall|j: int| 0 <= j < near.len() implies #[trigger] near[j] < longer.len()
                && near[j] != i by {
                assert(near[j] < id);
            }
        }
    }
    assert forall|i: int| 0 <= i < near.len() implies #[trigger] near[i] < longer.len() && near[i]
        != id as u32 by {
        assert(near[i] < id);
    }
    back_lists_hold(longer, metric, id as u32, near, m);
}

/// The similarity of two nodes in whole millionths.
pub open spec fn whole<M: Metric>(metric: &M, a: int, b: int) -> int {
    millionths::millionths_of(metric.measured(a, b))
}

proof fn closest_are_closest<M: Metric>(metric: &M, id: int, m: nat)
    requires
        0 <= id <= u32::MAX,
    ensures
        closest(metric, id, m).len() == (if m < id {
            m
        } else {
            id as nat
        }),
        forall|i: int, v: u32|
            0 <= i < closest(metric, id, m).len() && v < id && !#[trigger] closest(
                metric,
                id,
                m,
            ).contains(v) ==> whole(metric, id, v as int) <= whole(
                metric,
                id,
                #[trigger] closest(metric, id, m)[i] as int,
            ),
{
    let row = graded_row(metric, id, id as nat);
    let top = ranking::first_k(ranking::ranked_high(row), m);
    let near = closest(metric, id, m);
    ranking::first_k_are_highest(row, m);
    assert forall|i: int, v: u32|
        0 <= i < near.len() && v < id && !#[trigger] near.contains(v) implies whole(
        metric,
        id,
        v as int,
    ) <= whole(metric, id, #[trigger] near[i] as int) by {
        let x = row[v as int];
        assert(row.contains(x));
        assert(!top.contains(x)) by {
            if top.contains(x) {
                let a = choose|a: int| 0 <= a < top.len() && top[a] == x;
                assert(near[a] == v);
            }
        }
        assert(ranking::leads_high(top[i], x));
        assert(row.contains(top[i]));
        let j = choose|j: int| 0 <= j < row.len() && row[j] == top[i];
        millionths::rank_round_trip(whole(metric, id, v as int) as i32);
        millionths::rank_round_trip(whole(metric, id, j) as i32);
    }
}

/// One neighbour list after another node joined it: the node is appended where there is room
/// for `2 * m`. Otherwise the `m` most similar of all stay.
pub open spec fn joins<M: Metric>(
    after: Seq<u32>,
    before: Seq<u32>,
    metric: &M,
    to: u32,
    id: u32,
    m: nat,
) -> bool {
    if before.len() < 2 * m {
        after == before.push(id)
    } else {
        &&& after.len() == m
        &&& forall|i: int|
            0 <= i < after.len() ==> before.contains(#[trigger] after[i]) || after[i] == id
        &&& forall|i: int, v: u32|
            0 <= i < after.len() && (before.contains(v) || v == id) && !#[trigger] after.contains(v)
                ==> float_order::total_rank(metric.measured(to as int, v as int))
                <= float_order::total_rank(
                metric.measured(to as int, #[trigger] after[i] as int),
            )
    }
}

proof fn back_list_joins<M: Metric>(list: Seq<u32>, metric: &M, to: u32, id: u32, m: nat)
    requires
        !list.contains(id),
        list.len() <= 2 * m,
        m > 0,
    ensures
        joins(back_list(list, metric, to, id, m), list, metric, to, id, m),
{
    if list.len() + 1 > 2 * m {
        let longer = list.push(id);
        let scored = by_similarity(metric, to as int, longer);
        let top = ranking::first_k(ranking::ranked_high(scored), m);
        let after = back_list(list, metric, to, id, m);
        ranking::first_k_are_highest(scored, m);
        assert forall|i: int| 0 <= i < after.len() implies list.contains(#[trigger] after[i])
            || after[i] == id by {
            assert(scored.contains(top[i]));
            let j = choose|j: int| 0 <= j < scored.len() && scored[j] == top[i];
            if j < list.len() {
                assert(list[j] == after[i]);
            }
        }
        assert forall|i: int, v: u32|
            0 <= i < after.len() && (list.contains(v) || v == id) && !#[trigger] after.contains(
                v,
            ) implies float_order::total_rank(metric.measured(to as int, v as int))
            <= float_order::total_rank(metric.measured(to as int, #[trigger] after[i] as int)) by {
            let j = if v == id {
                list.len() as int
            } else {
                choose|j: int| 0 <= j < list.len() && list[j] == v
            };
            let x = scored[j];
            assert(x.id == v);
            assert(scored.contains(x));
            assert(!top.contains(x)) by {
                if top.contains(x) {
                    let a = choose|a: int| 0 <= a < top.len() && top[a] == x;
                    assert(after[a] == v);
                }
            }
            assert(ranking::leads_high(top[i], x));
            assert(scored.contains(top[i]));
        }
    }
}

proof fn back_lists_join<M: Metric>(
    links: Seq<Seq<u32>>,
    metric: &M,
    id: u32,
    tos: Seq<u32>,
    m: nat,
)
    requires
        m > 0,
        tos.no_duplicates(),
        forall|i: int|
            0 <= i < tos.len() ==> #[trigger] tos[i] < links.len() && links[tos[i] as int].len() <= 2
                * m && !links[tos[i] as int].contains(id),
    ensures
        back_lists(links, metric, id, tos, m).len() == links.len(),
        forall|v: u32|
            v < links.len() && !#[trigger] tos.contains(v) ==> back_lists(
                links,
                metric,
                id,
                tos,
                m,
            )[v as int] == links[v as int],
        forall|i: int|
            0 <= i < tos.len() ==> joins(
                back_lists(links, metric, id, tos, m)[tos[i] as int],
                links[tos[i] as int],
                metric,
                #[trigger] tos[i],
                id,
                m,
            ),
    decreases tos.len(),
{
    if tos.len() > 0 {
        let front = tos.drop_last();
        let to = tos.last();
        assert forall|i: int| 0 <= i < front.len() implies #[trigger] front[i] < links.len()
            && links[front[i] as int].len() <= 2 * m && !links[front[i] as int].contains(id) by {
            assert(tos[i] == front[i]);
        }
        back_lists_join(links, metric, id, front, m);
        let before = back_lists(links, metric, id, front, m);
        let after = back_lists(links, metric, id, tos, m);
        assert(tos[tos.len() - 1] == to);
        assert(!front.contains(to)) by {
            if front.contains(to) {
                let a = choose|a: int| 0 <= a < front.len() && front[a] == to;
                assert(tos[a] != tos[tos.len() - 1]);
            }
        }
        assert(before[to as int] == links[to as int]);
        back_list_joins(links[to as int], metric, to, id, m);
        assert forall|v: u32| v < links.len() && !#[trigger] tos.contains(v) implies after[v as int]
            == links[v as int] by {
            assert(v != to);
            assert(!front.contains(v)) by {
                if front.contains(v) {
                    let a = choose|a: int| 0 <= a < front.len() && front[a] == v;
                    assert(tos[a] == v);
                }
            }
        }
        assert forall|i: int| 0 <= i < tos.len() implies joins(
            after[tos[i] as int],
            links[tos[i] as int],
            metric,
            #[trigger] tos[i],
            id,
            m,
        ) by {
            if i < front.len() {
                assert(front[i] == tos[i]);
                assert(tos[i] != to);
            }
        }
    }
}

/// A new node is linked both ways: it gets the `m` earlier nodes that are most similar to it,
/// or all where there are fewer, and joins the list of each of them. No other list changes.
pub proof fn new_node_is_linked<M: Metric>(links: Seq<Seq<u32>>, metric: &M, m: nat)
    requires
        tidy(links, m),
        m > 0,
        links.len() < u32::MAX,
    ensures
        ({
            let id = links.len();
            let after = grown(links, metric, m);
            let own = after[id as int];
            &&& after.len() == id + 1
            &&& own.len() == (if m < id {
                m
            } else {
                id
            })
            &&& own.no_duplicates()
            &&& forall|i: int| 0 <= i < own.len() ==> #[trigger] own[i] < id
            &&& forall|i: int, v: u32|
                0 <= i < own.len() && v < id && !#[trigger] own.contains(v) ==> whole(
                    metric,
                    id as int,
                    v as int,
                ) <= whole(metric, id as int, #[trigger] own[i] as int)
            &&& forall|v: u32|
                v < id && !#[trigger] own.contains(v) ==> after[v as int] == links[v as int]
            &&& forall|i: int|
                0 <= i < own.len() ==> joins(
                    after[own[i] as int],
                    links[own[i] as int],
                    metric,
                    #[trigger] own[i],
                    id as u32,
                    m,
                )
        }),
{
    let id = links.len() as int;
    let near = closest(metric, id, m);
    closest_holds(metric, id, m);
    closest_are_closest(metric, id, m);
    let longer = links.push(near);
    assert forall|i: int| 0 <= i < near.len() implies #[trigger] near[i] < longer.len()
        && longer[near[i] as int].len() <= 2 * m && !longer[near[i] as int].contains(id as u32) by {
        let v = near[i] as int;
        assert(near[i] < id);
        assert(longer[v] == links[v]);
        assert(lists::proper_list(links[v], v, links.len()));
        if links[v].contains(id as u32) {
            let a = choose|a: int| 0 <= a < links[v].len() && links[v][a] == id as u32;
            assert(links[v][a] < links.len());
        }
    }
    back_lists_join(longer, metric, id as u32, near, m);
    let after = grown(links, metric, m);
    assert(!near.contains(id as u32)) by {
        if near.contains(id as u32) {
            let a = choose|a: int| 0 <= a < near.len() && near[a] == id as u32;
            assert(near[a] < id);
        }
    }
    assert(after[id] == near);
    assert forall|v: u32| v < id && !#[trigger] after[id].contains(v) implies after[v as int]
        == links[v as int] by {
        assert(longer[v as int] == links[v as int]);
    }
    assert forall|i: int| 0 <= i < near.len() implies joins(
        after[near[i] as int],
        links[near[i] as int],
        metric,
        #[trigger] near[i],
        id as u32,
        m,
    ) by {
        assert(near[i] < id);
        assert(longer[near[i] as int] == links[near[i] as int]);
    }
}

/// State of a walk.
pub struct Walk {
    /// Nodes to expand, best first; see [`queued`].
    pub frontier: Seq<Scored>,
    /// Nodes met.
    pub seen: Set<int>,
    /// Nodes expanded, in order, with their similarity in millionths.
    pub expanded: Seq<(u32, i32)>,
}

/// How a node waits in the frontier: the more similar first, of equally similar ones the one
/// with the higher number. Rank order puts small numbers and small ids first, so both are
/// turned round.
pub open spec fn queued(id: u32, similarity: i32) -> Scored {
    Scored {
        id: (u32::MAX - id) as u32,
        bits: float_order::negated(millionths::bits_of_rank(similarity)),
    }
}

/// The node that waits as `x`.
pub open spec fn waiting_id(x: Scored) -> u32 {
    (u32::MAX - x.id) as u32
}

/// The similarity of the node that waits as `x`.
pub open spec fn waiting_similarity(x: Scored) -> i32 {
    float_order::total_rank(float_order::negated(x.bits)) as i32
}

/// The state after meeting a node.
pub open spec fn met(w: Walk, grade: spec_fn(int) -> i32, id: u32) -> Walk {
    if w.seen.contains(id as int) {
        w
    } else {
        Walk {
            frontier: ranking::ranked(w.frontier.push(queued(id, grade(id as int)))),
            seen: w.seen.insert(id as int),
            expanded: w.expanded,
        }
    }
}

/// The state after meeting several nodes.
pub open spec fn met_all(w: Walk, grade: spec_fn(int) -> i32, ids: Seq<u32>) -> Walk
    decreases ids.len(),
{
    if ids.len() == 0 {
        w
    } else {
        met(met_all(w, grade, ids.drop_last()), grade, ids.last())
    }
}

/// The state after expanding the best node.
pub open spec fn stepped(w: Walk, grade: spec_fn(int) -> i32, links: Seq<Seq<u32>>) -> Walk {
    let x = w.frontier[0];
    let id = waiting_id(x);
    met_all(
        Walk {
            frontier: w.frontier.drop_first(),
            seen: w.seen,
            expanded: w.expanded.push((id, waiting_similarity(x))),
        },
        grade,
        links[id as int],
    )
}

/// The state after at most `budget` expansions.
pub open spec fn walked(w: Walk, grade: spec_fn(int) -> i32, links: Seq<Seq<u32>>, budget: nat) -> Walk
    decreases budget,
{
    if budget == 0 || w.frontier.len() == 0 {
        w
    } else {
        walked(stepped(w, grade, links), grade, links, (budget - 1) as nat)
    }
}

/// The state at the beginning: the first node waits.
pub open spec fn begun(grade: spec_fn(int) -> i32) -> Walk {
    met(
        Walk { frontier: Seq::empty(), seen: Set::empty(), expanded: Seq::empty() },
        grade,
        0,
    )
}

/// The nodes expanded by a walk of at most `budget` expansions, in order.
pub open spec fn expansion(grade: spec_fn(int) -> i32, links: Seq<Seq<u32>>, budget: nat) -> Seq<(u32, i32)> {
    walked(begun(grade), grade, links, budget).expanded
}

/// The expanded nodes whose similarity `sims` reaches the threshold, with that similarity cut
/// to whole millionths.
pub open spec fn reaching(
    entries: Seq<Entry>,
    sims: spec_fn(int) -> u32,
    expanded: Seq<(u32, i32)>,
    threshold: u32,
) -> Seq<Hit>
    decreases expanded.len(),
{
    if expanded.len() == 0 {
        Seq::empty()
    } else {
        let before = reaching(entries, sims, expanded.drop_last(), threshold);
        let x = expanded.last();
        let similarity = sims(x.0 as int);
        if float_order::at_most(threshold, similarity) {
            before.push(
                Hit {
                    id: entries[x.0 as int].id,
                    similarity: millionths::shortened(similarity),
                },
            )
        } else {
            before
        }
    }
}

/// Whether a hit shows a similarity that reaches the threshold, cut to whole millionths.
pub open spec fn is_shown(h: Hit, similarity: u32, threshold: u32) -> bool {
    float_order::at_most(threshold, similarity) && h.similarity == millionths::shortened(similarity)
}

/// Whether a hit shows one of the entries, whose similarity reaches the threshold.
pub open spec fn shows_an_entry<M: Metric>(
    h: Hit,
    entries: Seq<Entry>,
    metric: &M,
    query: int,
    threshold: u32,
) -> bool {
    exists|v: int|
        0 <= v < entries.len() && (#[trigger] entries[v]).id == h.id && is_shown(
            h,
            metric.measured(query, v),
            threshold,
        )
}

/// A hit with its similarity cut to whole millionths.
pub open spec fn cut_hit(h: Hit) -> Hit {
    Hit { id: h.id, similarity: millionths::shortened(h.similarity) }
}

/// Hits by place.
pub open spec fn by_place(hits: Seq<Hit>) -> Seq<Scored> {
    Seq::new(
        hits.len(),
        |i: int| Scored { id: i as u32, bits: hits[i].similarity },
    )
}

/// Hits, most similar first; of equally similar ones the one found first comes first.
pub open spec fn sorted_hits(hits: Seq<Hit>) -> Seq<Hit> {
    let order = ranking::ranked_high(by_place(hits));
    Seq::new(hits.len(), |i: int| hits[order[i].id as int])
}

/// The similarity to a query in millionths.
pub open spec fn grade_of<M: Metric>(metric: &M, query: int) -> spec_fn(int) -> i32 {
    |v: int| millionths::millionths_of(metric.measured(query, v)) as i32
}

/// What a walk finds.
pub open spec fn found<M: Metric>(
    entries: Seq<Entry>,
    links: Seq<Seq<u32>>,
    metric: &M,
    query: int,
    threshold: u32,
    budget: nat,
) -> Seq<Hit> {
    sorted_hits(
        reaching(
            entries,
            knn::measures_from(metric, query),
            expansion(grade_of(metric, query), links, budget),
            threshold,
        ),
    )
}

/// What every state of a walk satisfies.
pub open spec fn is_walk(w: Walk, grade: spec_fn(int) -> i32, n: nat) -> bool {
    &&& ranking::in_order(w.frontier)
    &&& w.seen.finite()
    &&& forall|v: int| #[trigger] w.seen.contains(v) ==> 0 <= v < n
    &&& forall|i: int|
        0 <= i < w.frontier.len() ==> {
            let x = #[trigger] w.frontier[i];
            &&& w.seen.contains(waiting_id(x) as int)
            &&& waiting_similarity(x) == grade(waiting_id(x) as int)
        }
    &&& forall|i: int|
        0 <= i < w.expanded.len() ==> {
            let x = #[trigger] w.expanded[i];
            &&& w.seen.contains(x.0 as int)
            &&& x.1 == grade(x.0 as int)
        }
    &&& w.frontier.len() + w.expanded.len() == w.seen.len()
}

proof fn queued_waits(id: u32, similarity: i32)
    ensures
        waiting_id(queued(id, similarity)) == id,
        waiting_similarity(queued(id, similarity)) == similarity,
{
    float_order::negated_ranks(millionths::bits_of_rank(similarity));
    millionths::rank_round_trip(similarity);
}

proof fn met_holds(w: Walk, grade: spec_fn(int) -> i32, id: u32, n: nat)
    requires
        is_walk(w, grade, n),
        id < n,
    ensures
        is_walk(met(w, grade, id), grade, n),
        met(w, grade, id).expanded == w.expanded,
        w.seen.subset_of(met(w, grade, id).seen),
{
    if !w.seen.contains(id as int) {
        let x = queued(id, grade(id as int));
        let longer = w.frontier.push(x);
        queued_waits(id, grade(id as int));
        ranking::ranked_properties(longer);
        let t = met(w, grade, id);
        assert forall|i: int| 0 <= i < t.frontier.len() implies {
            let y = #[trigger] t.frontier[i];
            &&& t.seen.contains(waiting_id(y) as int)
            &&& waiting_similarity(y) == grade(waiting_id(y) as int)
        } by {
            let y = t.frontier[i];
            assert(t.frontier.contains(y));
            assert(longer.contains(y));
            let j = choose|j: int| 0 <= j < longer.len() && longer[j] == y;
            if j < w.frontier.len() {
                assert(w.frontier[j] == y);
            }
        }
    }
}

proof fn met_all_holds(w: Walk, grade: spec_fn(int) -> i32, ids: Seq<u32>, n: nat)
    requires
        is_walk(w, grade, n),
        forall|i: int| 0 <= i < ids.len() ==> #[trigger] ids[i] < n,
    ensures
        is_walk(met_all(w, grade, ids), grade, n),
        met_all(w, grade, ids).expanded == w.expanded,
    decreases ids.len(),
{
    if ids.len() > 0 {
        let front = ids.drop_last();
        assert forall|i: int| 0 <= i < front.len() implies #[trigger] front[i] < n by {
            assert(ids[i] < n);
        }
        met_all_holds(w, grade, front, n);
        assert(ids[ids.len() - 1] < n);
        met_holds(met_all(w, grade, front), grade, ids.last(), n);
    }
}

proof fn popped_holds(w: Walk, grade: spec_fn(int) -> i32, n: nat)
    requires
        is_walk(w, grade, n),
        w.frontier.len() > 0,
    ensures
        ({
            let x = w.frontier[0];
            let p = Walk {
                frontier: w.frontier.drop_first(),
                seen: w.seen,
                expanded: w.expanded.push((waiting_id(x), waiting_similarity(x))),
            };
            is_walk(p, grade, n) && waiting_id(x) < n
        }),
{
    let x = w.frontier[0];
    let rest = w.frontier.drop_first();
    let expanded = w.expanded.push((waiting_id(x), waiting_similarity(x)));
    assert(w.seen.contains(waiting_id(x) as int));
    assert forall|i: int| 0 <= i < rest.len() implies {
        let y = #[trigger] rest[i];
        &&& w.seen.contains(waiting_id(y) as int)
        &&& waiting_similarity(y) == grade(waiting_id(y) as int)
    } by {
        assert(rest[i] == w.frontier[i + 1]);
    }
    assert forall|i: int| 0 <= i < expanded.len() implies {
        let y = #[trigger] expanded[i];
        &&& w.seen.contains(y.0 as int)
        &&& y.1 == grade(y.0 as int)
    } by {
        if i < w.expanded.len() {
            assert(expanded[i] == w.expanded[i]);
        }
    }
}

proof fn walked_holds(w: Walk, grade: spec_fn(int) -> i32, links: Seq<Seq<u32>>, budget: nat)
    requires
        is_walk(w, grade, links.len()),
        beam::closed_graph(links),
    ensures
        is_walk(walked(w, grade, links, budget), grade, links.len()),
        walked(w, grade, links, budget).expanded.len() <= w.expanded.len() + budget,
    decreases budget,
{
    if budget > 0 && w.frontier.len() > 0 {
        popped_holds(w, grade, links.len());
        let x = w.frontier[0];
        let p = Walk {
            frontier: w.frontier.drop_first(),
            seen: w.seen,
            expanded: w.expanded.push((waiting_id(x), waiting_similarity(x))),
        };
        met_all_holds(p, grade, links[waiting_id(x) as int], links.len());
        walked_holds(stepped(w, grade, links), grade, links, (budget - 1) as nat);
    }
}

proof fn begun_holds(grade: spec_fn(int) -> i32, n: nat)
    requires
        n > 0,
    ensures
        is_walk(begun(grade), grade, n),
{
    met_holds(
        Walk { frontier: Seq::empty(), seen: Set::empty(), expanded: Seq::empty() },
        grade,
        0,
        n,
    );
}

/// What a walk expands: at most `budget` nodes, each with its own similarity.
pub proof fn expansion_holds(grade: spec_fn(int) -> i32, links: Seq<Seq<u32>>, budget: nat)
    requires
        links.len() > 0,
        beam::closed_graph(links),
    ensures
        expansion(grade, links, budget).len() <= budget,
        expansion(grade, links, budget).len() <= links.len(),
        forall|i: int|
            0 <= i < expansion(grade, links, budget).len() ==> {
                let x = #[trigger] expansion(grade, links, budget)[i];
                x.0 < links.len() && x.1 == grade(x.0 as int)
            },
{
    begun_holds(grade, links.len());
    walked_holds(begun(grade), grade, links, budget);
    let w = walked(begun(grade), grade, links, budget);
    let all = vstd::set_lib::set_int_range(0, links.len() as int);
    vstd::set_lib::lemma_int_range(0, links.len() as int);
    assert(w.seen.subset_of(all));
    vstd::set_lib::lemma_len_subset(w.seen, all);
    assert forall|i: int| 0 <= i < w.expanded.len() implies {
        let x = #[trigger] w.expanded[i];
        x.0 < links.len() && x.1 == grade(x.0 as int)
    } by {
        assert(w.seen.contains(w.expanded[i].0 as int));
    }
}

proof fn reaching_holds(
    entries: Seq<Entry>,
    sims: spec_fn(int) -> u32,
    expanded: Seq<(u32, i32)>,
    threshold: u32,
)
    ensures
        reaching(entries, sims, expanded, threshold).len() <= expanded.len(),
        forall|i: int|
            0 <= i < reaching(entries, sims, expanded, threshold).len() ==> {
                let h = #[trigger] reaching(entries, sims, expanded, threshold)[i];
                exists|j: int|
                    0 <= j < expanded.len() && entries[(#[trigger] expanded[j]).0 as int].id == h.id
                        && is_shown(h, sims(expanded[j].0 as int), threshold)
            },
    decreases expanded.len(),
{
    if expanded.len() > 0 {
        let front = expanded.drop_last();
        reaching_holds(entries, sims, front, threshold);
        let before = reaching(entries, sims, front, threshold);
        let after = reaching(entries, sims, expanded, threshold);
        assert forall|i: int| 0 <= i < after.len() implies {
            let h = #[trigger] after[i];
            exists|j: int|
                0 <= j < expanded.len() && entries[(#[trigger] expanded[j]).0 as int].id == h.id
                    && is_shown(h, sims(expanded[j].0 as int), threshold)
        } by {
            let h = after[i];
            if i < before.len() {
                assert(before[i] == h);
                let j = choose|j: int|
                    0 <= j < front.len() && entries[(#[trigger] front[j]).0 as int].id == h.id
                        && is_shown(h, sims(front[j].0 as int), threshold);
                assert(expanded[j] == front[j]);
            } else {
                assert(is_shown(h, sims(expanded[expanded.len() - 1].0 as int), threshold));
            }
        }
    }
}

proof fn sorted_hits_hold(hits: Seq<Hit>)
    requires
        hits.len() <= u32::MAX,
    ensures
        sorted_hits(hits).len() == hits.len(),
        forall|i: int|
            0 <= i < hits.len() ==> (#[trigger] ranking::ranked_high(by_place(hits))[i]).id
                < hits.len(),
        forall|i: int| 0 <= i < hits.len() ==> hits.contains(#[trigger] sorted_hits(hits)[i]),
        forall|i: int| 0 <= i < hits.len() ==> sorted_hits(hits).contains(#[trigger] hits[i]),
        forall|i: int, j: int|
            0 <= i < j < hits.len() ==> float_order::total_rank(
                (#[trigger] sorted_hits(hits)[i]).similarity,
            ) >= float_order::total_rank((#[trigger] sorted_hits(hits)[j]).similarity),
{
    let places = by_place(hits);
    let order = ranking::ranked_high(places);
    let sorted = sorted_hits(hits);
    ranking::ranked_high_properties(places);
    assert forall|i: int| 0 <= i < hits.len() implies (#[trigger] order[i]).id < hits.len()
        && order[i] == places[order[i].id as int] by {
        assert(order.contains(order[i]));
        assert(places.contains(order[i]));
        let j = choose|j: int| 0 <= j < places.len() && places[j] == order[i];
        assert(places[j].id == j);
    }
    assert forall|i: int| 0 <= i < hits.len() implies hits.contains(#[trigger] sorted[i]) by {
        assert(order[i].id < hits.len());
        assert(hits[order[i].id as int] == sorted[i]);
    }
    assert forall|i: int| 0 <= i < hits.len() implies sorted.contains(#[trigger] hits[i]) by {
        let x = places[i];
        assert(places.contains(x));
        assert(order.contains(x));
        let j = choose|j: int| 0 <= j < order.len() && order[j] == x;
        assert(sorted[j] == hits[i]);
    }
    assert forall|i: int, j: int| 0 <= i < j < hits.len() implies float_order::total_rank(
        (#[trigger] sorted[i]).similarity,
    ) >= float_order::total_rank((#[trigger] sorted[j]).similarity) by {
        assert(ranking::leads_high(order[i], order[j]));
        assert(order[i] == places[order[i].id as int]);
        assert(order[j] == places[order[j].id as int]);
    }
}

/// What a walk finds: entries that reach the threshold, under their own ids and with their own
/// similarity cut to whole millionths, most similar first, no more than were expanded.
pub proof fn found_holds<M: Metric>(
    entries: Seq<Entry>,
    links: Seq<Seq<u32>>,
    metric: &M,
    query: int,
    threshold: u32,
    budget: nat,
)
    requires
        0 < links.len() <= u32::MAX,
        entries.len() == links.len(),
        beam::closed_graph(links),
    ensures
        ({
            let hits = found(entries, links, metric, query, threshold, budget);
            &&& hits.len() <= budget
            &&& forall|i: int|
                0 <= i < hits.len() ==> shows_an_entry(
                    #[trigger] hits[i],
                    entries,
                    metric,
                    query,
                    threshold,
                )
            &&& forall|i: int, j: int|
                0 <= i < j < hits.len() ==> float_order::total_rank((#[trigger] hits[i]).similarity)
                    >= float_order::total_rank((#[trigger] hits[j]).similarity)
        }),
{
    let grade = grade_of(metric, query);
    let sims = knn::measures_from(metric, query);
    let expanded = expansion(grade, links, budget);
    expansion_holds(grade, links, budget);
    reaching_holds(entries, sims, expanded, threshold);
    let plain = reaching(entries, sims, expanded, threshold);
    sorted_hits_hold(plain);
    let hits = found(entries, links, metric, query, threshold, budget);
    assert forall|i: int| 0 <= i < hits.len() implies shows_an_entry(
        #[trigger] hits[i],
        entries,
        metric,
        query,
        threshold,
    ) by {
        let h = hits[i];
        assert(plain.contains(h));
        let a = choose|a: int| 0 <= a < plain.len() && plain[a] == h;
        let j = choose|j: int|
            0 <= j < expanded.len() && entries[(#[trigger] expanded[j]).0 as int].id == h.id
                && is_shown(h, sims(expanded[j].0 as int), threshold);
        let v = expanded[j].0 as int;
        assert(entries[v].id == h.id);
    }
}

/// Whether a node was expanded.
pub open spec fn is_expanded(expanded: Seq<(u32, i32)>, v: int) -> bool {
    exists|i: int| 0 <= i < expanded.len() && (#[trigger] expanded[i]).0 == v
}

/// Whether a node waits to be expanded.
pub open spec fn is_waiting(frontier: Seq<Scored>, v: int) -> bool {
    exists|i: int| 0 <= i < frontier.len() && waiting_id(#[trigger] frontier[i]) == v
}

/// Nothing was overlooked: every node met was expanded or waits, and so does every neighbour
/// of an expanded one.
pub open spec fn is_thorough(w: Walk, links: Seq<Seq<u32>>) -> bool {
    &&& forall|v: int| #[trigger]
        w.seen.contains(v) ==> is_expanded(w.expanded, v) || is_waiting(w.frontier, v)
    &&& forall|i: int, j: int|
        0 <= i < w.expanded.len() && 0 <= j < links[w.expanded[i].0 as int].len()
            ==> w.seen.contains(#[trigger] links[w.expanded[i].0 as int][j] as int)
    &&& w.seen.contains(0)
}

/// No node is expanded twice.
pub open spec fn expands_once(w: Walk) -> bool {
    &&& ranking::distinct_ids(w.frontier)
    &&& forall|i: int, j: int|
        0 <= i < j < w.expanded.len() ==> (#[trigger] w.expanded[i]).0 != (#[trigger] w.expanded[j]).0
    &&& forall|i: int|
        0 <= i < w.frontier.len() ==> !is_expanded(
            w.expanded,
            waiting_id(#[trigger] w.frontier[i]) as int,
        )
}

proof fn met_is_thorough(w: Walk, grade: spec_fn(int) -> i32, id: u32, n: nat)
    requires
        is_walk(w, grade, n),
        id < n,
    ensures
        ({
            let t = met(w, grade, id);
            &&& t.seen == w.seen.insert(id as int)
            &&& (forall|v: int| #[trigger]
                w.seen.contains(v) ==> is_expanded(w.expanded, v) || is_waiting(w.frontier, v))
                ==> (forall|v: int| #[trigger]
                t.seen.contains(v) ==> is_expanded(t.expanded, v) || is_waiting(t.frontier, v))
            &&& expands_once(w) ==> expands_once(t)
        }),
{
    let t = met(w, grade, id);
    if w.seen.contains(id as int) {
        assert(w.seen.insert(id as int) =~= w.seen);
    } else {
        let x = queued(id, grade(id as int));
        let grown = w.frontier.push(x);
        queued_waits(id, grade(id as int));
        ranking::ranked_properties(grown);
        assert(grown[grown.len() - 1] == x);
        assert(grown.contains(x));
        assert(t.frontier.contains(x));
        assert forall|v: int| is_waiting(w.frontier, v) implies #[trigger] is_waiting(
            t.frontier,
            v,
        ) by {
            let i = choose|i: int|
                0 <= i < w.frontier.len() && waiting_id(#[trigger] w.frontier[i]) == v;
            assert(grown[i] == w.frontier[i]);
            assert(grown.contains(w.frontier[i]));
            assert(t.frontier.contains(w.frontier[i]));
            let j = choose|j: int| 0 <= j < t.frontier.len() && t.frontier[j] == w.frontier[i];
            assert(waiting_id(t.frontier[j]) == v);
        }
        let at = choose|at: int| 0 <= at < t.frontier.len() && t.frontier[at] == x;
        assert(waiting_id(t.frontier[at]) == id);
        assert(is_waiting(t.frontier, id as int));
        if expands_once(w) {
            assert forall|i: int| 0 <= i < w.frontier.len() implies (#[trigger] w.frontier[i]).id
                != x.id by {
                assert(w.seen.contains(waiting_id(w.frontier[i]) as int));
            }
            assert(ranking::distinct_ids(grown));
            assert forall|i: int| 0 <= i < t.frontier.len() implies !is_expanded(
                t.expanded,
                waiting_id(#[trigger] t.frontier[i]) as int,
            ) by {
                let y = t.frontier[i];
                assert(t.frontier.contains(y));
                let j = choose|j: int| 0 <= j < grown.len() && grown[j] == y;
                if j < w.frontier.len() {
                    assert(w.frontier[j] == y);
                } else if is_expanded(t.expanded, id as int) {
                    let k = choose|k: int|
                        0 <= k < w.expanded.len() && (#[trigger] w.expanded[k]).0 == id;
                    assert(w.seen.contains(w.expanded[k].0 as int));
                }
            }
        }
    }
}

proof fn met_all_is_thorough(w: Walk, grade: spec_fn(int) -> i32, ids: Seq<u32>, n: nat)
    requires
        is_walk(w, grade, n),
        forall|i: int| 0 <= i < ids.len() ==> #[trigger] ids[i] < n,
        forall|v: int| #[trigger]
            w.seen.contains(v) ==> is_expanded(w.expanded, v) || is_waiting(w.frontier, v),
        expands_once(w),
    ensures
        ({
            let t = met_all(w, grade, ids);
            &&& t.expanded == w.expanded
            &&& w.seen.subset_of(t.seen)
            &&& forall|i: int| 0 <= i < ids.len() ==> t.seen.contains(#[trigger] ids[i] as int)
            &&& forall|v: int| #[trigger]
                t.seen.contains(v) ==> is_expanded(t.expanded, v) || is_waiting(t.frontier, v)
            &&& expands_once(t)
        }),
    decreases ids.len(),
{
    if ids.len() > 0 {
        let front = ids.drop_last();
        met_all_is_thorough(w, grade, front, n);
        met_all_holds(w, grade, front, n);
        met_is_thorough(met_all(w, grade, front), grade, ids.last(), n);
        assert forall|i: int| 0 <= i < ids.len() implies met_all(w, grade, ids).seen.contains(
            #[trigger] ids[i] as int,
        ) by {
            if i < front.len() {
                assert(front[i] == ids[i]);
            }
        }
    }
}

proof fn stepped_is_thorough(w: Walk, grade: spec_fn(int) -> i32, links: Seq<Seq<u32>>)
    requires
        is_walk(w, grade, links.len()),
        beam::closed_graph(links),
        is_thorough(w, links),
        expands_once(w),
        w.frontier.len() > 0,
    ensures
        ({
            let t = stepped(w, grade, links);
            &&& is_walk(t, grade, links.len())
            &&& is_thorough(t, links)
            &&& expands_once(t)
            &&& t.expanded.len() == w.expanded.len() + 1
            &&& w.expanded.is_prefix_of(t.expanded)
        }),
{
    let x = w.frontier[0];
    let id = waiting_id(x);
    let p = Walk {
        frontier: w.frontier.drop_first(),
        seen: w.seen,
        expanded: w.expanded.push((id, waiting_similarity(x))),
    };
    popped_holds(w, grade, links.len());
    let last = w.expanded.len() as int;
    assert forall|v: int| #[trigger] p.seen.contains(v) implies is_expanded(p.expanded, v)
        || is_waiting(p.frontier, v) by {
        if is_expanded(w.expanded, v) {
            let i = choose|i: int| 0 <= i < w.expanded.len() && (#[trigger] w.expanded[i]).0 == v;
            assert(p.expanded[i].0 == v);
        } else {
            let i = choose|i: int|
                0 <= i < w.frontier.len() && waiting_id(#[trigger] w.frontier[i]) == v;
            if i == 0 {
                assert(p.expanded[last].0 == v);
            } else {
                assert(p.frontier[i - 1] == w.frontier[i]);
            }
        }
    }
    assert(expands_once(p)) by {
        assert forall|i: int, j: int| 0 <= i < j < p.frontier.len() implies (#[trigger] p.frontier[i]).id
            != (#[trigger] p.frontier[j]).id by {
            assert(w.frontier[i + 1].id != w.frontier[j + 1].id);
        }
        assert(!is_expanded(w.expanded, waiting_id(w.frontier[0]) as int));
        assert forall|i: int, j: int|
            0 <= i < j < p.expanded.len() implies (#[trigger] p.expanded[i]).0 != (
        #[trigger] p.expanded[j]).0 by {
            assert(p.expanded[i] == w.expanded[i]);
        }
        assert forall|i: int| 0 <= i < p.frontier.len() implies !is_expanded(
            p.expanded,
            waiting_id(#[trigger] p.frontier[i]) as int,
        ) by {
            let y = w.frontier[i + 1];
            assert(p.frontier[i] == y);
            assert(w.frontier[0].id != y.id);
            if is_expanded(p.expanded, waiting_id(y) as int) {
                let k = choose|k: int|
                    0 <= k < p.expanded.len() && (#[trigger] p.expanded[k]).0 == waiting_id(y);
                if k < last {
                    assert(w.expanded[k].0 == waiting_id(y));
                }
            }
        }
    }
    let ids = links[id as int];
    met_all_is_thorough(p, grade, ids, links.len());
    met_all_holds(p, grade, ids, links.len());
    let t = stepped(w, grade, links);
    assert forall|i: int, j: int|
        0 <= i < t.expanded.len() && 0 <= j < links[t.expanded[i].0 as int].len() implies t.seen.contains(
        #[trigger] links[t.expanded[i].0 as int][j] as int,
    ) by {
        if i < last {
            assert(w.expanded[i] == t.expanded[i]);
            assert(w.seen.contains(links[w.expanded[i].0 as int][j] as int));
        } else {
            assert(ids[j] == links[t.expanded[i].0 as int][j]);
        }
    }
}

proof fn walked_is_thorough(w: Walk, grade: spec_fn(int) -> i32, links: Seq<Seq<u32>>, budget: nat)
    requires
        is_walk(w, grade, links.len()),
        beam::closed_graph(links),
        is_thorough(w, links),
        expands_once(w),
    ensures
        ({
            let t = walked(w, grade, links, budget);
            &&& is_walk(t, grade, links.len())
            &&& is_thorough(t, links)
            &&& expands_once(t)
            &&& w.expanded.is_prefix_of(t.expanded)
            &&& w.expanded.len() + budget >= links.len() ==> t.frontier.len() == 0
        }),
    decreases budget,
{
    if budget > 0 && w.frontier.len() > 0 {
        stepped_is_thorough(w, grade, links);
        walked_is_thorough(stepped(w, grade, links), grade, links, (budget - 1) as nat);
    } else {
        let all = vstd::set_lib::set_int_range(0, links.len() as int);
        vstd::set_lib::lemma_int_range(0, links.len() as int);
        assert(w.seen.subset_of(all));
        vstd::set_lib::lemma_len_subset(w.seen, all);
    }
}

proof fn begun_is_thorough(grade: spec_fn(int) -> i32, links: Seq<Seq<u32>>)
    requires
        links.len() > 0,
    ensures
        is_walk(begun(grade), grade, links.len()),
        is_thorough(begun(grade), links),
        expands_once(begun(grade)),
        begun(grade).expanded.len() == 0,
{
    let none = Walk { frontier: Seq::empty(), seen: Set::empty(), expanded: Seq::empty() };
    begun_holds(grade, links.len());
    met_is_thorough(none, grade, 0, links.len());
}

proof fn walked_in_two(
    w: Walk,
    grade: spec_fn(int) -> i32,
    links: Seq<Seq<u32>>,
    first: nat,
    second: nat,
)
    ensures
        walked(w, grade, links, first + second) == walked(
            walked(w, grade, links, first),
            grade,
            links,
            second,
        ),
    decreases first,
{
    if first > 0 && w.frontier.len() > 0 {
        walked_in_two(stepped(w, grade, links), grade, links, (first - 1) as nat, second);
    }
}

/// A walk expands no node twice, and a larger budget only goes on from where a smaller one
/// ends.
pub proof fn larger_budget_goes_on(
    grade: spec_fn(int) -> i32,
    links: Seq<Seq<u32>>,
    smaller: nat,
    larger: nat,
)
    requires
        links.len() > 0,
        beam::closed_graph(links),
        smaller <= larger,
    ensures
        expansion(grade, links, smaller).is_prefix_of(expansion(grade, links, larger)),
        forall|i: int, j: int|
            0 <= i < j < expansion(grade, links, larger).len() ==> (#[trigger] expansion(
                grade,
                links,
                larger,
            )[i]).0 != (#[trigger] expansion(grade, links, larger)[j]).0,
{
    let w = begun(grade);
    begun_is_thorough(grade, links);
    walked_is_thorough(w, grade, links, smaller);
    walked_is_thorough(w, grade, links, larger);
    walked_in_two(w, grade, links, smaller, (larger - smaller) as nat);
    walked_is_thorough(
        walked(w, grade, links, smaller),
        grade,
        links,
        (larger - smaller) as nat,
    );
}

proof fn reaching_contains(
    entries: Seq<Entry>,
    sims: spec_fn(int) -> u32,
    expanded: Seq<(u32, i32)>,
    threshold: u32,
    i: int,
)
    requires
        0 <= i < expanded.len(),
        float_order::at_most(threshold, sims(expanded[i].0 as int)),
    ensures
        reaching(entries, sims, expanded, threshold).contains(
            Hit {
                id: entries[expanded[i].0 as int].id,
                similarity: millionths::shortened(sims(expanded[i].0 as int)),
            },
        ),
    decreases expanded.len(),
{
    let front = expanded.drop_last();
    let before = reaching(entries, sims, front, threshold);
    let after = reaching(entries, sims, expanded, threshold);
    let h = Hit {
        id: entries[expanded[i].0 as int].id,
        similarity: millionths::shortened(sims(expanded[i].0 as int)),
    };
    if i < front.len() {
        reaching_contains(entries, sims, front, threshold, i);
        let k = choose|k: int| 0 <= k < before.len() && before[k] == h;
        assert(after[k] == h);
    } else {
        assert(after[after.len() - 1] == h);
    }
}

/// A larger budget loses no hit.
pub proof fn larger_budget_keeps_hits<M: Metric>(
    entries: Seq<Entry>,
    links: Seq<Seq<u32>>,
    metric: &M,
    query: int,
    threshold: u32,
    smaller: nat,
    larger: nat,
    h: Hit,
)
    requires
        0 < links.len() <= u32::MAX,
        entries.len() == links.len(),
        beam::closed_graph(links),
        smaller <= larger,
        found(entries, links, metric, query, threshold, smaller).contains(h),
    ensures
        found(entries, links, metric, query, threshold, larger).contains(h),
{
    let grade = grade_of(metric, query);
    let sims = knn::measures_from(metric, query);
    let a = expansion(grade, links, smaller);
    let b = expansion(grade, links, larger);
    larger_budget_goes_on(grade, links, smaller, larger);
    expansion_holds(grade, links, smaller);
    expansion_holds(grade, links, larger);
    reaching_holds(entries, sims, a, threshold);
    reaching_holds(entries, sims, b, threshold);
    let plain_a = reaching(entries, sims, a, threshold);
    let plain_b = reaching(entries, sims, b, threshold);
    sorted_hits_hold(plain_a);
    sorted_hits_hold(plain_b);
    let i = choose|i: int| 0 <= i < sorted_hits(plain_a).len() && sorted_hits(plain_a)[i] == h;
    assert(plain_a.contains(sorted_hits(plain_a)[i]));
    let k = choose|k: int| 0 <= k < plain_a.len() && plain_a[k] == h;
    let j = choose|j: int|
        0 <= j < a.len() && entries[(#[trigger] a[j]).0 as int].id == plain_a[k].id
            && is_shown(plain_a[k], sims(a[j].0 as int), threshold);
    assert(b[j] == a[j]);
    reaching_contains(entries, sims, b, threshold, j);
    let l = choose|l: int| 0 <= l < plain_b.len() && plain_b[l] == h;
    assert(sorted_hits(plain_b).contains(plain_b[l]));
}

/// A walk with a budget for all nodes is exact as far as the graph leads: it finds every entry
/// that can be reached from the first one and whose similarity reaches the threshold.
pub proof fn full_walk_is_exact<M: Metric>(
    entries: Seq<Entry>,
    links: Seq<Seq<u32>>,
    metric: &M,
    query: int,
    threshold: u32,
    budget: nat,
    v: u32,
)
    requires
        0 < links.len() <= u32::MAX,
        entries.len() == links.len(),
        beam::closed_graph(links),
        budget >= links.len(),
        beam::reachable(links, seq![0u32], v),
        float_order::at_most(
            threshold,
            metric.measured(query, v as int),
        ),
    ensures
        found(entries, links, metric, query, threshold, budget).contains(
            Hit {
                id: entries[v as int].id,
                similarity: millionths::shortened(metric.measured(query, v as int)),
            },
        ),
{
    let grade = grade_of(metric, query);
    let sims = knn::measures_from(metric, query);
    let w = begun(grade);
    begun_is_thorough(grade, links);
    walked_is_thorough(w, grade, links, budget);
    let t = walked(w, grade, links, budget);
    let entry = seq![0u32];
    let path = choose|path: Seq<u32>| #[trigger]
        beam::is_path(links, path) && entry.contains(path[0]) && path.last() == v;
    let e = choose|e: int| 0 <= e < entry.len() && entry[e] == path[0];
    path_is_met(t, grade, links, path, path.len() - 1);
    let i = choose|i: int| 0 <= i < t.expanded.len() && (#[trigger] t.expanded[i]).0 == v;
    let plain = reaching(entries, sims, t.expanded, threshold);
    expansion_holds(grade, links, budget);
    reaching_holds(entries, sims, t.expanded, threshold);
    reaching_contains(entries, sims, t.expanded, threshold, i);
    sorted_hits_hold(plain);
    let h = Hit {
        id: entries[v as int].id,
        similarity: millionths::shortened(metric.measured(query, v as int)),
    };
    let l = choose|l: int| 0 <= l < plain.len() && plain[l] == h;
    assert(sorted_hits(plain).contains(plain[l]));
}

/// The ids that a walk finds an exact scan finds; and where every entry can be reached, a walk
/// with a budget for all nodes finds what the scan finds. The walk shows each similarity cut to
/// whole millionths, the scan shows it as it was measured.
pub proof fn walk_agrees_with_scan<M: Metric>(
    entries: Seq<Entry>,
    links: Seq<Seq<u32>>,
    metric: &M,
    query: int,
    sims: Seq<u32>,
    threshold: u32,
    budget: nat,
)
    requires
        0 < links.len() <= u32::MAX,
        entries.len() == links.len(),
        beam::closed_graph(links),
        sims == Seq::new(entries.len(), |v: int| metric.measured(query, v)),
    ensures
        ({
            let walked = found(entries, links, metric, query, threshold, budget);
            let scanned = scan::passing(entries, sims, threshold, entries.len());
            &&& forall|h: Hit| #[trigger]
                walked.contains(h) ==> exists|s: Hit| #[trigger]
                    scanned.contains(s) && h == cut_hit(s)
            &&& budget >= links.len() && (forall|v: u32|
                v < links.len() ==> #[trigger] beam::reachable(links, seq![0u32], v)) ==> (forall|
                s: Hit,
            | #[trigger] scanned.contains(s) ==> walked.contains(cut_hit(s)))
        }),
{
    let walked = found(entries, links, metric, query, threshold, budget);
    let scanned = scan::passing(entries, sims, threshold, entries.len());
    found_holds(entries, links, metric, query, threshold, budget);
    scan::scan_is_exact(entries, sims, threshold, entries.len());
    assert forall|h: Hit| #[trigger] walked.contains(h) implies exists|s: Hit| #[trigger]
        scanned.contains(s) && h == cut_hit(s) by {
        let i = choose|i: int| 0 <= i < walked.len() && walked[i] == h;
        assert(shows_an_entry(walked[i], entries, metric, query, threshold));
        let v = choose|v: int|
            0 <= v < entries.len() && (#[trigger] entries[v]).id == h.id && is_shown(
                h,
                metric.measured(query, v),
                threshold,
            );
        let s = Hit { id: h.id, similarity: sims[v] };
        assert(entries[v].id == s.id);
        assert(scanned.contains(s));
    }
    if budget >= links.len() && (forall|v: u32|
        v < links.len() ==> #[trigger] beam::reachable(links, seq![0u32], v)) {
        assert forall|s: Hit| #[trigger] scanned.contains(s) implies walked.contains(cut_hit(s)) by {
            let v = choose|v: int|
                0 <= v < entries.len() && (#[trigger] entries[v]).id == s.id && sims[v]
                    == s.similarity;
            assert(beam::reachable(links, seq![0u32], v as u32));
            full_walk_is_exact(entries, links, metric, query, threshold, budget, v as u32);
        }
    }
}

/// A node that a walk may go to next: the first, or a neighbour of one visited before.
pub open spec fn is_in_sight(links: Seq<Seq<u32>>, before: Seq<u32>, v: u32) -> bool {
    v == 0 || exists|j: int|
        0 <= j < before.len() && links[(#[trigger] before[j]) as int].contains(v)
}

/// A walk from the first node that always goes to the most similar node in sight, compared in
/// whole millionths, of equals to the one with the highest number, and visits none twice. It
/// ends with the budget, or when no node is in sight that was not visited.
pub open spec fn is_best_first<M: Metric>(
    order: Seq<u32>,
    links: Seq<Seq<u32>>,
    metric: &M,
    query: int,
    budget: nat,
) -> bool {
    &&& order.len() <= budget
    &&& order.no_duplicates()
    &&& forall|i: int|
        0 <= i < order.len() ==> #[trigger] order[i] < links.len() && is_in_sight(
            links,
            order.take(i),
            order[i],
        )
    &&& forall|i: int, v: u32|
        #![trigger is_in_sight(links, order.take(i), v)]
        0 <= i < order.len() && v < links.len() && is_in_sight(links, order.take(i), v)
            && !order.take(i).contains(v) ==> {
            let there = millionths::millionths_of(metric.measured(query, v as int));
            let here = millionths::millionths_of(metric.measured(query, order[i] as int));
            there < here || (there == here && v <= order[i])
        }
    &&& order.len() < budget ==> forall|v: u32|
        v < links.len() && #[trigger] is_in_sight(links, order, v) ==> order.contains(v)
}

/// The nodes that were expanded, in order.
spec fn visited_ids(expanded: Seq<(u32, i32)>) -> Seq<u32> {
    Seq::new(expanded.len(), |i: int| expanded[i].0)
}

spec fn goes_best_first(
    expanded: Seq<(u32, i32)>,
    grade: spec_fn(int) -> i32,
    links: Seq<Seq<u32>>,
) -> bool {
    let order = visited_ids(expanded);
    &&& forall|i: int|
        0 <= i < order.len() ==> is_in_sight(links, order.take(i), #[trigger] order[i])
    &&& forall|i: int, v: u32|
        #![trigger is_in_sight(links, order.take(i), v)]
        0 <= i < order.len() && v < links.len() && is_in_sight(links, order.take(i), v)
            && !order.take(i).contains(v) ==> grade(v as int) < grade(order[i] as int) || (grade(
            v as int,
        ) == grade(order[i] as int) && v <= order[i])
}

/// What was met is what is in sight.
spec fn sees_neighbours(w: Walk, links: Seq<Seq<u32>>) -> bool {
    forall|v: u32| #[trigger]
        w.seen.contains(v as int) <==> v < links.len() && is_in_sight(
            links,
            visited_ids(w.expanded),
            v,
        )
}

proof fn met_all_sees(w: Walk, grade: spec_fn(int) -> i32, ids: Seq<u32>, v: int)
    ensures
        met_all(w, grade, ids).seen.contains(v) <==> w.seen.contains(v) || exists|i: int|
            0 <= i < ids.len() && #[trigger] ids[i] == v,
    decreases ids.len(),
{
    if ids.len() > 0 {
        let front = ids.drop_last();
        met_all_sees(w, grade, front, v);
        if exists|i: int| 0 <= i < ids.len() && #[trigger] ids[i] == v {
            let i = choose|i: int| 0 <= i < ids.len() && #[trigger] ids[i] == v;
            if i < front.len() {
                assert(front[i] == v);
            }
        }
        if exists|i: int| 0 <= i < front.len() && #[trigger] front[i] == v {
            let i = choose|i: int| 0 <= i < front.len() && #[trigger] front[i] == v;
            assert(ids[i] == v);
        }
        assert(ids[ids.len() - 1] == ids.last());
    }
}

proof fn step_sees_neighbours(w: Walk, grade: spec_fn(int) -> i32, links: Seq<Seq<u32>>)
    requires
        is_walk(w, grade, links.len()),
        beam::closed_graph(links),
        sees_neighbours(w, links),
        w.frontier.len() > 0,
    ensures
        sees_neighbours(stepped(w, grade, links), links),
        visited_ids(stepped(w, grade, links).expanded) == visited_ids(w.expanded).push(
            waiting_id(w.frontier[0]),
        ),
{
    let x = w.frontier[0];
    let id = waiting_id(x);
    let p = Walk {
        frontier: w.frontier.drop_first(),
        seen: w.seen,
        expanded: w.expanded.push((id, waiting_similarity(x))),
    };
    let t = stepped(w, grade, links);
    let ids = links[id as int];
    popped_holds(w, grade, links.len());
    assert forall|i: int| 0 <= i < ids.len() implies #[trigger] ids[i] < links.len() by {
        assert(links[id as int][i] < links.len());
    }
    met_all_holds(p, grade, ids, links.len());
    let before = visited_ids(w.expanded);
    let order = visited_ids(t.expanded);
    let last = before.len() as int;
    assert(order =~= before.push(id));
    assert forall|v: u32| #[trigger] t.seen.contains(v as int) <==> v < links.len() && is_in_sight(
        links,
        order,
        v,
    ) by {
        met_all_sees(p, grade, ids, v as int);
        assert(w.seen.contains(v as int) <==> v < links.len() && is_in_sight(links, before, v));
        if exists|i: int| 0 <= i < ids.len() && #[trigger] ids[i] == v as int {
            let i = choose|i: int| 0 <= i < ids.len() && #[trigger] ids[i] == v as int;
            assert(ids.contains(v));
            assert(order[last] == id);
        }
        if exists|j: int| 0 <= j < before.len() && links[(#[trigger] before[j]) as int].contains(v) {
            let j = choose|j: int|
                0 <= j < before.len() && links[(#[trigger] before[j]) as int].contains(v);
            assert(order[j] == before[j]);
        }
        if exists|j: int| 0 <= j < order.len() && links[(#[trigger] order[j]) as int].contains(v) {
            let j = choose|j: int|
                0 <= j < order.len() && links[(#[trigger] order[j]) as int].contains(v);
            if j < last {
                assert(order[j] == before[j]);
            } else {
                assert(ids.contains(v));
                let i = choose|i: int| 0 <= i < ids.len() && ids[i] == v;
                assert(ids[i] == v as int);
            }
        }
    }
}

proof fn first_waits_best(w: Walk, grade: spec_fn(int) -> i32, links: Seq<Seq<u32>>, v: u32)
    requires
        is_walk(w, grade, links.len()),
        is_thorough(w, links),
        w.frontier.len() > 0,
        w.seen.contains(v as int),
        !visited_ids(w.expanded).contains(v),
    ensures
        ({
            let id = waiting_id(w.frontier[0]);
            grade(v as int) < grade(id as int) || (grade(v as int) == grade(id as int) && v <= id)
        }),
{
    let x = w.frontier[0];
    let id = waiting_id(x);
    if is_expanded(w.expanded, v as int) {
        let k = choose|k: int| 0 <= k < w.expanded.len() && (#[trigger] w.expanded[k]).0 == v as int;
        assert(visited_ids(w.expanded)[k] == v);
    }
    assert(is_waiting(w.frontier, v as int));
    let a = choose|a: int|
        0 <= a < w.frontier.len() && waiting_id(#[trigger] w.frontier[a]) == v as int;
    let y = w.frontier[a];
    assert(waiting_similarity(y) == grade(waiting_id(y) as int));
    assert(waiting_similarity(x) == grade(id as int));
    float_order::negated_ranks(x.bits);
    float_order::negated_ranks(y.bits);
    if a > 0 {
        assert(w.frontier[0].leads(w.frontier[a]));
    }
}

proof fn step_goes_best_first(w: Walk, grade: spec_fn(int) -> i32, links: Seq<Seq<u32>>)
    requires
        is_walk(w, grade, links.len()),
        beam::closed_graph(links),
        is_thorough(w, links),
        sees_neighbours(w, links),
        goes_best_first(w.expanded, grade, links),
        w.frontier.len() > 0,
    ensures
        sees_neighbours(stepped(w, grade, links), links),
        goes_best_first(stepped(w, grade, links).expanded, grade, links),
{
    let id = waiting_id(w.frontier[0]);
    let t = stepped(w, grade, links);
    step_sees_neighbours(w, grade, links);
    let before = visited_ids(w.expanded);
    let order = visited_ids(t.expanded);
    let last = before.len() as int;
    assert(order.take(last) =~= before);
    assert(w.seen.contains(waiting_id(w.frontier[0]) as int));
    assert forall|i: int| 0 <= i < order.len() implies is_in_sight(
        links,
        order.take(i),
        #[trigger] order[i],
    ) by {
        if i < last {
            assert(order.take(i) =~= before.take(i));
            assert(order[i] == before[i]);
        } else {
            assert(w.seen.contains(id as int));
        }
    }
    assert forall|i: int, v: u32|
        #![trigger is_in_sight(links, order.take(i), v)]
        0 <= i < order.len() && v < links.len() && is_in_sight(links, order.take(i), v)
            && !order.take(i).contains(v) implies grade(v as int) < grade(order[i] as int) || (grade(
        v as int,
    ) == grade(order[i] as int) && v <= order[i]) by {
        if i < last {
            assert(order.take(i) =~= before.take(i));
            assert(order[i] == before[i]);
        } else {
            assert(w.seen.contains(v as int));
            first_waits_best(w, grade, links, v);
        }
    }
}

proof fn walk_goes_best_first(
    w: Walk,
    grade: spec_fn(int) -> i32,
    links: Seq<Seq<u32>>,
    budget: nat,
)
    requires
        is_walk(w, grade, links.len()),
        beam::closed_graph(links),
        is_thorough(w, links),
        expands_once(w),
        sees_neighbours(w, links),
        goes_best_first(w.expanded, grade, links),
    ensures
        ({
            let t = walked(w, grade, links, budget);
            &&& sees_neighbours(t, links)
            &&& goes_best_first(t.expanded, grade, links)
            &&& t.expanded.len() == w.expanded.len() + budget || t.frontier.len() == 0
        }),
    decreases budget,
{
    if budget > 0 && w.frontier.len() > 0 {
        stepped_is_thorough(w, grade, links);
        step_goes_best_first(w, grade, links);
        walk_goes_best_first(stepped(w, grade, links), grade, links, (budget - 1) as nat);
    }
}

/// `hits` show those of the visited entries whose similarity reaches the threshold: hit `i`
/// shows the entry visited as number `places[i]`, each such entry has one hit, and the hits come
/// by falling similarity, equal ones in the order in which they were visited. A similarity is
/// shown, and compared, in whole millionths.
pub open spec fn are_hits_at<M: Metric>(
    hits: Seq<Hit>,
    places: Seq<int>,
    order: Seq<u32>,
    entries: Seq<Entry>,
    metric: &M,
    query: int,
    threshold: u32,
) -> bool {
    &&& places.len() == hits.len()
    &&& places.no_duplicates()
    &&& forall|i: int|
        0 <= i < hits.len() ==> {
            let similarity = metric.measured(query, order[places[i]] as int);
            &&& 0 <= places[i] < order.len()
            &&& float_order::at_most(threshold, similarity)
            &&& (#[trigger] hits[i]).id == entries[order[places[i]] as int].id
            &&& hits[i].similarity == millionths::shortened(similarity)
        }
    &&& forall|a: int|
        0 <= a < order.len() && float_order::at_most(
            threshold,
            metric.measured(query, #[trigger] order[a] as int),
        ) ==> places.contains(a)
    &&& forall|i: int, j: int|
        0 <= i < j < hits.len() ==> {
            let x = float_order::total_rank((#[trigger] hits[i]).similarity);
            let y = float_order::total_rank((#[trigger] hits[j]).similarity);
            x > y || (x == y && places[i] < places[j])
        }
}

/// The hits show the visited entries that reach the threshold.
pub open spec fn are_hits<M: Metric>(
    hits: Seq<Hit>,
    order: Seq<u32>,
    entries: Seq<Entry>,
    metric: &M,
    query: int,
    threshold: u32,
) -> bool {
    exists|places: Seq<int>| #[trigger]
        are_hits_at(hits, places, order, entries, metric, query, threshold)
}

/// The places of the expanded nodes that reach the threshold.
proof fn reaching_places(
    entries: Seq<Entry>,
    sims: spec_fn(int) -> u32,
    expanded: Seq<(u32, i32)>,
    threshold: u32,
) -> (places: Seq<int>)
    ensures
        places.len() == reaching(entries, sims, expanded, threshold).len(),
        forall|i: int, j: int| 0 <= i < j < places.len() ==> places[i] < places[j],
        forall|i: int|
            0 <= i < places.len() ==> {
                let h = reaching(entries, sims, expanded, threshold)[i];
                let v = expanded[places[i]].0 as int;
                &&& 0 <= #[trigger] places[i] < expanded.len()
                &&& float_order::at_most(threshold, sims(v))
                &&& h.id == entries[v].id
                &&& h.similarity == millionths::shortened(sims(v))
            },
        forall|a: int|
            0 <= a < expanded.len() && float_order::at_most(
                threshold,
                sims((#[trigger] expanded[a]).0 as int),
            ) ==> places.contains(a),
    decreases expanded.len(),
{
    if expanded.len() == 0 {
        Seq::empty()
    } else {
        let front = expanded.drop_last();
        let before = reaching_places(entries, sims, front, threshold);
        let last = expanded.len() - 1;
        let places = if float_order::at_most(threshold, sims(expanded[last].0 as int)) {
            before.push(last)
        } else {
            before
        };
        assert forall|a: int|
            0 <= a < expanded.len() && float_order::at_most(
                threshold,
                sims((#[trigger] expanded[a]).0 as int),
            ) implies places.contains(a) by {
            if a < last {
                assert(front[a] == expanded[a]);
                let b = choose|b: int| 0 <= b < before.len() && before[b] == a;
                assert(places[b] == a);
            } else {
                assert(places[before.len() as int] == a);
            }
        }
        assert forall|i: int| 0 <= i < places.len() implies {
            let h = reaching(entries, sims, expanded, threshold)[i];
            let v = expanded[places[i]].0 as int;
            &&& 0 <= #[trigger] places[i] < expanded.len()
            &&& float_order::at_most(threshold, sims(v))
            &&& h.id == entries[v].id
            &&& h.similarity == millionths::shortened(sims(v))
        } by {
            if i < before.len() {
                assert(places[i] == before[i]);
                assert(front[before[i]] == expanded[before[i]]);
            }
        }
        places
    }
}

/// A walk goes best first.
proof fn expansion_is_best_first<M: Metric>(
    links: Seq<Seq<u32>>,
    metric: &M,
    query: int,
    budget: nat,
)
    requires
        0 < links.len() <= u32::MAX,
        beam::closed_graph(links),
    ensures
        is_best_first(
            visited_ids(expansion(grade_of(metric, query), links, budget)),
            links,
            metric,
            query,
            budget,
        ),
{
    let grade = grade_of(metric, query);
    let w = begun(grade);
    let t = walked(w, grade, links, budget);
    let order = visited_ids(t.expanded);
    begun_is_thorough(grade, links);
    walked_is_thorough(w, grade, links, budget);
    assert(visited_ids(w.expanded) =~= Seq::<u32>::empty());
    walk_goes_best_first(w, grade, links, budget);
    expansion_holds(grade, links, budget);
    assert forall|v: u32| #[trigger] millionths::millionths_of(
        metric.measured(query, v as int),
    ) == grade(v as int) by {}
    assert forall|i: int, j: int| 0 <= i < order.len() && 0 <= j < order.len() && i != j implies order[i]
        != order[j] by {
        if i < j {
            assert(t.expanded[i].0 != t.expanded[j].0);
        } else {
            assert(t.expanded[j].0 != t.expanded[i].0);
        }
    }
    assert forall|i: int| 0 <= i < order.len() implies #[trigger] order[i] < links.len()
        && is_in_sight(links, order.take(i), order[i]) by {
        assert(t.expanded[i].0 < links.len());
    }
    if order.len() < budget {
        assert forall|v: u32|
            v < links.len() && #[trigger] is_in_sight(links, order, v) implies order.contains(v) by {
            assert(t.seen.contains(v as int));
            assert(is_expanded(t.expanded, v as int));
            let k = choose|k: int|
                0 <= k < t.expanded.len() && (#[trigger] t.expanded[k]).0 == v as int;
            assert(order[k] == v);
        }
    }
}

/// Sorting puts hits by falling similarity, equal ones in the order in which they came.
proof fn sorting_is_stable(plain: Seq<Hit>) -> (from: Seq<int>)
    requires
        plain.len() <= u32::MAX,
    ensures
        from.len() == plain.len(),
        from.no_duplicates(),
        forall|i: int|
            0 <= i < from.len() ==> 0 <= #[trigger] from[i] < plain.len() && sorted_hits(plain)[i]
                == plain[from[i]],
        forall|p: int| 0 <= p < plain.len() ==> #[trigger] from.contains(p),
        forall|i: int, j: int|
            0 <= i < j < from.len() ==> {
                let x = float_order::total_rank(plain[#[trigger] from[i]].similarity);
                let y = float_order::total_rank(plain[#[trigger] from[j]].similarity);
                x > y || (x == y && from[i] < from[j])
            },
{
    let row = by_place(plain);
    let ranks = ranking::ranked_high(row);
    ranking::ranked_high_properties(row);
    assert(ranking::distinct_ids(row));
    let from = Seq::new(plain.len(), |i: int| ranks[i].id as int);
    assert forall|i: int| 0 <= i < ranks.len() implies (#[trigger] ranks[i]).id < plain.len()
        && ranks[i] == row[ranks[i].id as int] by {
        assert(ranks.contains(ranks[i]));
        assert(row.contains(ranks[i]));
        let c = choose|c: int| 0 <= c < row.len() && row[c] == ranks[i];
        assert(row[c].id == c);
    }
    assert forall|i: int, j: int|
        0 <= i < from.len() && 0 <= j < from.len() && i != j implies from[i] != from[j] by {
        if i < j {
            assert(ranks[i].id != ranks[j].id);
        } else {
            assert(ranks[j].id != ranks[i].id);
        }
    }
    assert forall|i: int| 0 <= i < from.len() implies 0 <= #[trigger] from[i] < plain.len()
        && sorted_hits(plain)[i] == plain[from[i]] by {
        assert(ranks[i].id < plain.len());
    }
    assert forall|p: int| 0 <= p < plain.len() implies #[trigger] from.contains(p) by {
        let x = row[p];
        assert(row.contains(x));
        assert(ranks.contains(x));
        let i = choose|i: int| 0 <= i < ranks.len() && ranks[i] == x;
        assert(from[i] == p);
    }
    assert forall|i: int, j: int| 0 <= i < j < from.len() implies {
        let x = float_order::total_rank(plain[#[trigger] from[i]].similarity);
        let y = float_order::total_rank(plain[#[trigger] from[j]].similarity);
        x > y || (x == y && from[i] < from[j])
    } by {
        assert(ranking::leads_high(ranks[i], ranks[j]));
        assert(ranks[i].id != ranks[j].id);
        assert(ranks[i] == row[ranks[i].id as int] && ranks[j] == row[ranks[j].id as int]);
    }
    from
}

/// What is found is what a best-first walk meets: there is a walk that always goes to the most
/// similar node in sight, and the hits are those of its entries that reach the threshold.
pub proof fn found_is_best_first<M: Metric>(
    entries: Seq<Entry>,
    links: Seq<Seq<u32>>,
    metric: &M,
    query: int,
    threshold: u32,
    budget: nat,
) -> (order: Seq<u32>)
    requires
        0 < links.len() <= u32::MAX,
        entries.len() == links.len(),
        beam::closed_graph(links),
    ensures
        is_best_first(order, links, metric, query, budget),
        are_hits(
            found(entries, links, metric, query, threshold, budget),
            order,
            entries,
            metric,
            query,
            threshold,
        ),
{
    let grade = grade_of(metric, query);
    let sims = knn::measures_from(metric, query);
    let expanded = expansion(grade, links, budget);
    let order = visited_ids(expanded);
    expansion_holds(grade, links, budget);
    expansion_is_best_first(links, metric, query, budget);
    let plain = reaching(entries, sims, expanded, threshold);
    let hits = found(entries, links, metric, query, threshold, budget);
    let at = reaching_places(entries, sims, expanded, threshold);
    reaching_holds(entries, sims, expanded, threshold);
    let from = sorting_is_stable(plain);
    let places = Seq::new(hits.len(), |i: int| at[from[i]]);
    assert(hits.len() == plain.len());
    assert forall|i: int| 0 <= i < hits.len() implies {
        let similarity = metric.measured(query, order[places[i]] as int);
        &&& 0 <= places[i] < order.len()
        &&& float_order::at_most(threshold, similarity)
        &&& (#[trigger] hits[i]).id == entries[order[places[i]] as int].id
        &&& hits[i].similarity == millionths::shortened(similarity)
    } by {
        let p = from[i];
        assert(hits[i] == plain[p]);
        assert(0 <= at[p] < expanded.len());
        assert(order[at[p]] == expanded[at[p]].0);
    }
    assert forall|i: int, j: int|
        0 <= i < places.len() && 0 <= j < places.len() && i != j implies places[i] != places[j] by {
        let a = from[i];
        let b = from[j];
        assert(a != b);
        if a < b {
            assert(at[a] < at[b]);
        } else {
            assert(at[b] < at[a]);
        }
    }
    assert forall|a: int|
        0 <= a < order.len() && float_order::at_most(
            threshold,
            metric.measured(query, #[trigger] order[a] as int),
        ) implies places.contains(a) by {
        assert(expanded[a].0 == order[a]);
        assert(at.contains(a));
        let p = choose|p: int| 0 <= p < at.len() && at[p] == a;
        assert(from.contains(p));
        let i = choose|i: int| 0 <= i < from.len() && from[i] == p;
        assert(places[i] == a);
    }
    assert forall|i: int, j: int| 0 <= i < j < hits.len() implies {
        let x = float_order::total_rank((#[trigger] hits[i]).similarity);
        let y = float_order::total_rank((#[trigger] hits[j]).similarity);
        x > y || (x == y && places[i] < places[j])
    } by {
        let a = from[i];
        let b = from[j];
        assert(hits[i] == plain[a] && hits[j] == plain[b]);
        if a < b {
            assert(at[a] < at[b]);
        }
    }
    assert(are_hits_at(hits, places, order, entries, metric, query, threshold));
    order
}

proof fn path_is_met(
    t: Walk,
    grade: spec_fn(int) -> i32,
    links: Seq<Seq<u32>>,
    path: Seq<u32>,
    i: int,
)
    requires
        is_walk(t, grade, links.len()),
        is_thorough(t, links),
        t.frontier.len() == 0,
        beam::closed_graph(links),
        beam::is_path(links, path),
        path[0] == 0,
        0 <= i < path.len(),
    ensures
        is_expanded(t.expanded, path[i] as int),
    decreases i,
{
    if i > 0 {
        path_is_met(t, grade, links, path, i - 1);
        let from = path[i - 1];
        let k = choose|k: int| 0 <= k < t.expanded.len() && (#[trigger] t.expanded[k]).0 == from;
        let list = links[from as int];
        assert(list.contains(path[i - 1 + 1]));
        let j = choose|j: int| 0 <= j < list.len() && list[j] == path[i];
        assert(t.seen.contains(links[t.expanded[k].0 as int][j] as int));
    }
    assert(t.seen.contains(path[i] as int));
    assert(!is_waiting(t.frontier, path[i] as int));
}

/// Entries and the graph over them.
pub struct ProximityIndex {
    entries: Vec<Entry>,
    graph: Vec<Vec<u32>>,
    m: usize,
}

impl ProximityIndex {
    /// The entries, in order of insertion.
    pub closed spec fn entries(&self) -> Seq<Entry> {
        self.entries@
    }

    /// The neighbour lists.
    pub closed spec fn links(&self) -> Seq<Seq<u32>> {
        beam::links_of(self.graph@)
    }

    /// Neighbours that a new entry is linked to.
    pub closed spec fn degree(&self) -> nat {
        self.m as nat
    }

    /// A list per entry, all of them tidy, and embeddings of one length.
    pub closed spec fn wf(&self) -> bool {
        &&& 0 < self.m
        &&& 2 * self.m < usize::MAX
        &&& self.entries@.len() <= u32::MAX
        &&& self.graph@.len() == self.entries@.len()
        &&& tidy(beam::links_of(self.graph@), self.m as nat)
        &&& scan::uniform(self.entries@)
    }

    /// What holds of every index in use.
    pub proof fn index_laws(&self)
        requires
            self.wf(),
        ensures
            self.links().len() == self.entries().len(),
            self.entries().len() <= u32::MAX,
            0 < self.degree(),
            tidy(self.links(), self.degree()),
            beam::closed_graph(self.links()),
            scan::uniform(self.entries()),
    {
        assert forall|i: int, j: int|
            0 <= i < self.links().len() && 0 <= j < self.links()[i].len() implies #[trigger] self.links()[i][j]
            < self.links().len() by {
            assert(lists::proper_list(self.links()[i], i, self.links().len()));
        }
    }

    /// No entries.
    pub fn new(m: usize) -> (index: Self)
        requires
            0 < m,
            2 * m < usize::MAX,
        ensures
            index.wf(),
            index.entries().len() == 0,
            index.degree() == m,
    {
        ProximityIndex { entries: Vec::new(), graph: Vec::new(), m }
    }

    /// Number of entries.
    pub fn len(&self) -> (n: usize)
        ensures
            n == self.entries().len(),
    {
        self.entries.len()
    }

    fn build_neighbours<M: Metric>(&self, metric: &M, id: u32) -> (near: Vec<u32>)
        requires
            id < metric.sources(),
            id <= metric.targets(),
        ensures
            near@ == closest(metric, id as int, self.degree()),
    {
        let mut row: Vec<Scored> = Vec::new();
        let mut j: u32 = 0;
        while j < id
            invariant
                j <= id,
                id < metric.sources(),
                id <= metric.targets(),
                row@ == graded_row(metric, id as int, j as nat),
            decreases id - j,
        {
            let bits: u32 = metric.measure(id, j);
            row.push(Scored { id: j, bits: millionths::rank_bits(millionths::millionths(bits)) });
            j += 1;
            assert(row@ =~= graded_row(metric, id as int, j as nat));
        }
        let mut top = ranking::rank_high(row.as_slice());
        let ghost whole = top@;
        if self.m < top.len() {
            top.truncate(self.m);
            assert(top@ =~= whole.take(self.m as int));
        }
        ranking::ids(&top)
    }

    /// Adds an entry: links it to the most similar ones and them to it. `metric` measures the
    /// similarity between entries, the new one last.
    pub fn insert<M: Metric>(&mut self, entry: Entry, metric: &M)
        requires
            old(self).wf(),
            old(self).entries().len() < u32::MAX,
            old(self).entries().len() > 0 ==> entry.vec@.len() == old(self).entries()[0].vec@.len(),
            old(self).entries().len() < metric.sources(),
            old(self).entries().len() < metric.targets(),
        ensures
            final(self).wf(),
            final(self).degree() == old(self).degree(),
            final(self).entries() == old(self).entries().push(entry),
            final(self).links() == grown(old(self).links(), metric, old(self).degree()),
    {
        let ghost before = self.links();
        let ghost m = self.m as nat;
        let id: u32 = self.entries.len() as u32;
        self.entries.push(entry);
        assert(self.entries() =~= old(self).entries().push(entry));
        let near = self.build_neighbours(metric, id);
        proof {
            closest_holds(metric, id as int, m);
            grown_is_tidy(before, metric, m);
        }
        let own = vstd::slice::slice_to_vec(near.as_slice());
        self.graph.push(own);
        let ghost longer = before.push(near@);
        proof {
            assert(beam::links_of(self.graph@) =~= longer);
            assert(tidy(longer, m)) by {
                assert forall|i: int| 0 <= i < longer.len() implies lists::proper_list(
                    #[trigger] longer[i],
                    i,
                    longer.len(),
                ) && longer[i].len() <= 2 * m by {
                    if i < id {
                        assert(longer[i] == before[i]);
                        assert(lists::proper_list(before[i], i, before.len()));
                        assert forall|j: int| 0 <= j < longer[i].len() implies #[trigger] longer[i][j]
                            < longer.len() && longer[i][j] != i by {
                            assert(before[i][j] < before.len());
                        }
                    } else {
                        assert forall|j: int| 0 <= j < near@.len() implies #[trigger] near@[j]
                            < longer.len() && near@[j] != i by {
                            assert(near@[j] < id);
                        }
                    }
                }
            }
        }
        let mut i: usize = 0;
        while i < near.len()
            invariant
                i <= near@.len(),
                self.m == m,
                0 < m,
                2 * m < usize::MAX,
                self.entries@ == old(self).entries().push(entry),
                self.entries@.len() == id + 1,
                self.graph@.len() == id + 1,
                longer.len() == id + 1,
                id < u32::MAX,
                id < metric.sources(),
                id < metric.targets(),
                tidy(longer, m),
                scan::uniform(self.entries@),
                forall|j: int| 0 <= j < near@.len() ==> #[trigger] near@[j] < id,
                beam::links_of(self.graph@) == back_lists(
                    longer,
                    metric,
                    id,
                    near@.take(i as int),
                    m,
                ),
            decreases near@.len() - i,
        {
            let to: u32 = near[i];
            let ghost links = beam::links_of(self.graph@);
            proof {
                let done = near@.take(i as int);
                assert(near@.take(i + 1).drop_last() =~= done);
                assert forall|j: int| 0 <= j < done.len() implies #[trigger] done[j] < longer.len()
                    && done[j] != id by {
                    assert(near@[j] < id);
                }
                back_lists_hold(longer, metric, id, done, m);
                assert(lists::proper_list(links[to as int], to as int, links.len()));
                assert(links[to as int] == self.graph@[to as int]@);
            }
            if !lists::has(&self.graph[to as usize], id) {
                let mut list = vstd::slice::slice_to_vec(self.graph[to as usize].as_slice());
                list.push(id);
                if list.len() > self.m * 2 {
                    let cut = self.most_similar(metric, to, &list);
                    self.graph.set(to as usize, cut);
                } else {
                    self.graph.set(to as usize, list);
                }
            }
            proof {
                let after = back_lists(longer, metric, id, near@.take(i + 1), m);
                assert(beam::links_of(self.graph@) =~= after);
            }
            i += 1;
        }
        proof {
            assert(near@.take(i as int) =~= near@);
        }
    }

    fn most_similar<M: Metric>(&self, metric: &M, to: u32, list: &Vec<u32>) -> (cut: Vec<u32>)
        requires
            to < metric.sources(),
            forall|i: int| 0 <= i < list@.len() ==> #[trigger] list@[i] < metric.targets(),
        ensures
            cut@ == ranking::ids_of(
                ranking::first_k(
                    ranking::ranked_high(by_similarity(metric, to as int, list@)),
                    self.degree(),
                ),
            ),
    {
        let mut scored: Vec<Scored> = Vec::new();
        let mut i: usize = 0;
        while i < list.len()
            invariant
                i <= list@.len(),
                to < metric.sources(),
                forall|j: int| 0 <= j < list@.len() ==> #[trigger] list@[j] < metric.targets(),
                scored@.len() == i,
                forall|j: int|
                    0 <= j < i ==> #[trigger] scored@[j] == by_similarity(metric, to as int, list@)[j],
            decreases list@.len() - i,
        {
            let id: u32 = list[i];
            let bits: u32 = metric.measure(to, id);
            scored.push(Scored { id, bits });
            i += 1;
        }
        assert(scored@ =~= by_similarity(metric, to as int, list@));
        let mut top = ranking::rank_high(scored.as_slice());
        let ghost whole = top@;
        if self.m < top.len() {
            top.truncate(self.m);
            assert(top@ =~= whole.take(self.m as int));
        }
        ranking::ids(&top)
    }

    /// Walks the graph from the first entry, always to the most similar node that waits, for at
    /// most `budget` expansions. Gives the expanded entries whose similarity reaches the
    /// threshold, with their similarity cut to whole millionths, most similar first.
    pub fn walk<M: Metric>(&self, metric: &M, query: u32, threshold: u32, budget: usize) -> (hits: Vec<
        Hit,
    >)
        requires
            self.wf(),
            self.entries().len() > 0,
            query < metric.sources(),
            self.entries().len() <= metric.targets(),
        ensures
            hits@ == found(
                self.entries(),
                self.links(),
                metric,
                query as int,
                threshold,
                budget as nat,
            ),
    {
        let n: usize = self.entries.len();
        let ghost grade = grade_of(metric, query as int);
        let ghost sims = knn::measures_from(metric, query as int);
        let ghost links = self.links();
        let ghost mut walk = begun(grade);
        let ghost mut left: nat = budget as nat;
        proof {
            self.index_laws();
            begun_holds(grade, n as nat);
        }
        let mut visited = VisitedSet::new(n);
        let mut frontier: Vec<Scored> = Vec::new();
        let mut hits: Vec<Hit> = Vec::new();
        let first: u32 = metric.measure(query, 0);
        ranking::insert_ranked(&mut frontier, queue_entry(0, millionths::millionths(first)));
        visited.insert(0);
        let mut expanded: usize = 0;
        while frontier.len() > 0 && expanded < budget
            invariant
                self.wf(),
                n == self.entries@.len(),
                0 < n <= u32::MAX,
                links == beam::links_of(self.graph@),
                links.len() == n,
                beam::closed_graph(links),
                query < metric.sources(),
                n <= metric.targets(),
                grade == grade_of(metric, query as int),
                sims == knn::measures_from(metric, query as int),
                is_walk(walk, grade, n as nat),
                frontier@ == walk.frontier,
                visited.wf(),
                visited.capacity() == n,
                visited@ == walk.seen,
                hits@ == reaching(self.entries@, sims, walk.expanded, threshold),
                expanded + left == budget,
                walked(walk, grade, links, left).expanded == expansion(grade, links, budget as nat),
            decreases left,
        {
            let x = frontier.remove(0);
            expanded += 1;
            let id: u32 = u32::MAX - x.id;
            let ghost similarity = waiting_similarity(x);
            let ghost before = walk;
            proof {
                popped_holds(walk, grade, n as nat);
                walk = Walk {
                    frontier: before.frontier.drop_first(),
                    seen: before.seen,
                    expanded: before.expanded.push((id, similarity)),
                };
                assert(frontier@ =~= walk.frontier);
                assert(walk.expanded.drop_last() =~= before.expanded);
            }
            let measured: u32 = metric.measure(query, id);
            if float_order::less_or_equal(threshold, measured) {
                hits.push(
                    Hit {
                        id: self.entries[id as usize].id,
                        similarity: millionths::shorten(measured),
                    },
                );
            }
            let ghost popped = walk;
            let list = &self.graph[id as usize];
            assert(list@ == links[id as int]);
            let mut j: usize = 0;
            while j < list.len()
                invariant
                    j <= list@.len(),
                    0 < n <= u32::MAX,
                    links.len() == n,
                    query < metric.sources(),
                    n <= metric.targets(),
                    grade == grade_of(metric, query as int),
                    forall|a: int| 0 <= a < list@.len() ==> #[trigger] list@[a] < n,
                    is_walk(walk, grade, n as nat),
                    walk == met_all(popped, grade, list@.take(j as int)),
                    walk.expanded == popped.expanded,
                    frontier@ == walk.frontier,
                    visited.wf(),
                    visited.capacity() == n,
                    visited@ == walk.seen,
                decreases list@.len() - j,
            {
                let nb: u32 = list[j];
                proof {
                    assert(list@.take(j + 1).drop_last() =~= list@.take(j as int));
                    met_holds(walk, grade, nb, n as nat);
                }
                if !visited.contains(nb) {
                    visited.insert(nb);
                    let bits: u32 = metric.measure(query, nb);
                    ranking::insert_ranked(
                        &mut frontier,
                        queue_entry(nb, millionths::millionths(bits)),
                    );
                }
                proof {
                    walk = met(walk, grade, nb);
                }
                j += 1;
            }
            proof {
                assert(list@.take(j as int) =~= list@);
                assert(walk == stepped(before, grade, links));
                left = (left - 1) as nat;
            }
        }
        proof {
            assert(walk.expanded == expansion(grade, links, budget as nat));
            expansion_holds(grade, links, budget as nat);
            reaching_holds(self.entries@, sims, walk.expanded, threshold);
        }
        sort_hits(&hits)
    }

    /// Bytes taken by entries and neighbour lists.
    pub fn memory_bytes(&self) -> (bytes: usize)
        requires
            self.wf(),
            scan::entry_bytes(self.entries(), self.entries().len()) + list_bytes(
                self.links(),
                self.links().len(),
            ) <= usize::MAX,
        ensures
            bytes == scan::entry_bytes(self.entries(), self.entries().len()) + list_bytes(
                self.links(),
                self.links().len(),
            ),
    {
        let vec_mem: usize = scan::count_entry_bytes(&self.entries);
        let ghost links = self.links();
        let mut graph_mem: usize = 0;
        let mut i: usize = 0;
        while i < self.graph.len()
            invariant
                i <= self.graph@.len(),
                links == beam::links_of(self.graph@),
                graph_mem == list_bytes(links, i as nat),
                vec_mem + list_bytes(links, links.len()) <= usize::MAX,
            decreases self.graph@.len() - i,
        {
            proof {
                list_bytes_grow(links, (i + 1) as nat, links.len());
                assert(links[i as int] == self.graph@[i as int]@);
            }
            graph_mem = graph_mem + self.graph[i].len() * 4;
            i += 1;
        }
        vec_mem + graph_mem
    }
}

/// Bytes of the first `n` lists.
pub open spec fn list_bytes(links: Seq<Seq<u32>>, n: nat) -> nat
    decreases n,
{
    if n == 0 {
        0
    } else {
        list_bytes(links, (n - 1) as nat) + 4 * links[n - 1].len()
    }
}

proof fn list_bytes_grow(links: Seq<Seq<u32>>, a: nat, b: nat)
    requires
        a <= b,
    ensures
        list_bytes(links, a) <= list_bytes(links, b),
    decreases b,
{
    if a < b {
        list_bytes_grow(links, a, (b - 1) as nat);
    }
}

fn queue_entry(id: u32, similarity: i32) -> (x: Scored)
    ensures
        x == queued(id, similarity),
{
    Scored {
        id: u32::MAX - id,
        bits: float_order::negate(millionths::rank_bits(similarity)),
    }
}

fn sort_hits(hits: &Vec<Hit>) -> (sorted: Vec<Hit>)
    requires
        hits@.len() <= u32::MAX,
    ensures
        sorted@ == sorted_hits(hits@),
{
    let mut places: Vec<Scored> = Vec::new();
    let mut i: usize = 0;
    while i < hits.len()
        invariant
            i <= hits@.len() <= u32::MAX,
            places@.len() == i,
            forall|j: int| 0 <= j < i ==> #[trigger] places@[j] == by_place(hits@)[j],
        decreases hits@.len() - i,
    {
        places.push(Scored { id: i as u32, bits: hits[i].similarity });
        i += 1;
    }
    assert(places@ =~= by_place(hits@));
    let order = ranking::rank_high(places.as_slice());
    proof {
        sorted_hits_hold(hits@);
        ranking::ranked_high_properties(places@);
    }
    let mut sorted: Vec<Hit> = Vec::new();
    let mut j: usize = 0;
    while j < order.len()
        invariant
            j <= order@.len(),
            order@.len() == hits@.len(),
            order@ == ranking::ranked_high(by_place(hits@)),
            forall|a: int| 0 <= a < hits@.len() ==> (#[trigger] order@[a]).id < hits@.len(),
            sorted@.len() == j,
            forall|a: int| 0 <= a < j ==> #[trigger] sorted@[a] == sorted_hits(hits@)[a],
        decreases order@.len() - j,
    {
        sorted.push(hits[order[j].id as usize]);
        j += 1;
    }
    assert(sorted@ =~= sorted_hits(hits@));
    sorted
}

} // verus!
