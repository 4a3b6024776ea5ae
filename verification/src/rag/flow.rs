//! Maximum flow by shortest augmenting paths, and the minimum cut that it leaves behind.
//!
//! The search for paths ignores edges with at most `slack` residual capacity. The nodes that
//! can still be reached from the source in the end form the source side of the cut.
use crate::rag::sums;
use vstd::prelude::*;

verus! {

/// Mark of a node that no path has reached.
pub const UNREACHED: usize = usize::MAX;

/// Capacities between `n` nodes.
pub open spec fn square(m: Seq<Vec<u64>>, n: nat) -> bool {
    m.len() == n && forall|u: int| 0 <= u < n ==> (#[trigger] m[u])@.len() == n
}

/// The entry for the edge from `u` to `v`.
pub open spec fn at(m: Seq<Vec<u64>>, u: int, v: int) -> int {
    m[u]@[v] as int
}

/// The flow from `u` to `v`: what is gone from the capacity. What flows one way counts
/// negative the other way.
pub open spec fn flow(cap: Seq<Vec<u64>>, res: Seq<Vec<u64>>, u: int, v: int) -> int {
    at(cap, u, v) - at(res, u, v)
}

/// The flow that leaves `u`.
pub open spec fn outflow(cap: Seq<Vec<u64>>, res: Seq<Vec<u64>>, n: nat, u: int) -> int {
    sums::total(|v: int| flow(cap, res, u, v), n)
}

/// `res` are residual capacities of a flow from `source` to `sink`: nothing is lost on an edge
/// or in a node between.
pub open spec fn is_residual(
    cap: Seq<Vec<u64>>,
    res: Seq<Vec<u64>>,
    n: nat,
    source: int,
    sink: int,
) -> bool {
    &&& square(cap, n)
    &&& square(res, n)
    &&& forall|u: int, v: int|
        0 <= u < n && 0 <= v < n ==> #[trigger] flow(cap, res, u, v) == -flow(cap, res, v, u)
    &&& forall|u: int|
        0 <= u < n && u != source && u != sink ==> #[trigger] outflow(cap, res, n, u) == 0
}

/// Nothing outside `side` can be reached from it over an edge with more than `slack` left.
pub open spec fn closed_under(res: Seq<Vec<u64>>, n: nat, slack: u64, side: Set<int>) -> bool {
    forall|u: int, v: int|
        0 <= u < n && 0 <= v < n && side.contains(u) && #[trigger] at(res, u, v) > slack
            ==> side.contains(v)
}

/// `side` is what can be reached from `source`: the least set that holds it and is closed.
pub open spec fn is_reach(
    res: Seq<Vec<u64>>,
    n: nat,
    slack: u64,
    source: int,
    side: Set<int>,
) -> bool {
    &&& side.contains(source)
    &&& forall|x: int| #[trigger] side.contains(x) ==> 0 <= x < n
    &&& closed_under(res, n, slack, side)
    &&& forall|other: Set<int>|
        other.contains(source) && #[trigger] closed_under(res, n, slack, other) ==> side.subset_of(
            other,
        )
}

/// The capacity of the edges that lead out of `side`.
pub open spec fn cut_capacity(cap: Seq<Vec<u64>>, n: nat, side: Set<int>) -> int {
    sums::total_pairs(
        |u: int, v: int|
            if side.contains(u) && !side.contains(v) {
                at(cap, u, v)
            } else {
                0
            },
        n,
    )
}

/// The number of pairs that a cut separates.
pub open spec fn cut_pairs(n: nat, side: Set<int>) -> int {
    sums::total_pairs(
        |u: int, v: int|
            if side.contains(u) && !side.contains(v) {
                1int
            } else {
                0int
            },
        n,
    )
}

/// The set of marked nodes.
pub open spec fn marked(side: Seq<bool>) -> Set<int> {
    Set::new(|x: int| 0 <= x < side.len() && side[x])
}

/// What flows from source to sink flows across every cut between them.
pub proof fn flow_crosses_cut(
    cap: Seq<Vec<u64>>,
    res: Seq<Vec<u64>>,
    n: nat,
    source: int,
    sink: int,
    side: Set<int>,
)
    requires
        is_residual(cap, res, n, source, sink),
        0 <= source < n,
        0 <= sink < n,
        side.contains(source),
        !side.contains(sink),
    ensures
        outflow(cap, res, n, source) == sums::total_pairs(
            |u: int, v: int|
                if side.contains(u) && !side.contains(v) {
                    flow(cap, res, u, v)
                } else {
                    0
                },
            n,
        ),
{
    let leaving = |u: int, v: int|
        if side.contains(u) {
            flow(cap, res, u, v)
        } else {
            0
        };
    let across = |u: int, v: int|
        if side.contains(u) && !side.contains(v) {
            flow(cap, res, u, v)
        } else {
            0
        };
    let inside = |u: int, v: int|
        if side.contains(u) && side.contains(v) {
            flow(cap, res, u, v)
        } else {
            0
        };
    sums::pairs_plus(across, inside, leaving, n);
    assert forall|u: int, v: int| 0 <= u < n && 0 <= v < n implies #[trigger] inside(u, v)
        == -inside(v, u) by {
        assert(flow(cap, res, u, v) == -flow(cap, res, v, u));
    }
    sums::pairs_cancel(inside, n);
    let rows = |u: int| sums::total(|v: int| leaving(u, v), n);
    assert forall|u: int| 0 <= u < n implies #[trigger] rows(u) == (if side.contains(u) {
        outflow(cap, res, n, u)
    } else {
        0
    }) by {
        if side.contains(u) {
            sums::total_same(|v: int| leaving(u, v), |v: int| flow(cap, res, u, v), n);
        } else {
            sums::total_zero(|v: int| leaving(u, v), n);
        }
    }
    assert forall|u: int| 0 <= u < n && u != source implies #[trigger] rows(u) == 0 by {
        if side.contains(u) {
            assert(outflow(cap, res, n, u) == 0);
        }
    }
    sums::total_single(rows, source, n);
}

/// No flow exceeds the capacity of a cut.
pub proof fn flow_fits_cut(
    cap: Seq<Vec<u64>>,
    res: Seq<Vec<u64>>,
    n: nat,
    source: int,
    sink: int,
    side: Set<int>,
)
    requires
        is_residual(cap, res, n, source, sink),
        0 <= source < n,
        0 <= sink < n,
        side.contains(source),
        !side.contains(sink),
    ensures
        outflow(cap, res, n, source) <= cut_capacity(cap, n, side),
{
    flow_crosses_cut(cap, res, n, source, sink, side);
    sums::pairs_monotone(
        |u: int, v: int|
            if side.contains(u) && !side.contains(v) {
                flow(cap, res, u, v)
            } else {
                0
            },
        |u: int, v: int|
            if side.contains(u) && !side.contains(v) {
                at(cap, u, v)
            } else {
                0
            },
        n,
    );
}

/// A closed side is all but full: its cut holds no more than the flow and the slack of every
/// pair it separates.
pub proof fn closed_side_is_tight(
    cap: Seq<Vec<u64>>,
    res: Seq<Vec<u64>>,
    n: nat,
    source: int,
    sink: int,
    slack: u64,
    side: Set<int>,
)
    requires
        is_residual(cap, res, n, source, sink),
        0 <= source < n,
        0 <= sink < n,
        side.contains(source),
        !side.contains(sink),
        closed_under(res, n, slack, side),
    ensures
        cut_capacity(cap, n, side) <= outflow(cap, res, n, source) + slack * cut_pairs(n, side),
{
    flow_crosses_cut(cap, res, n, source, sink, side);
    let across = |u: int, v: int|
        if side.contains(u) && !side.contains(v) {
            flow(cap, res, u, v)
        } else {
            0
        };
    let one = |u: int, v: int|
        if side.contains(u) && !side.contains(v) {
            1int
        } else {
            0int
        };
    let spare = |u: int, v: int|
        if side.contains(u) && !side.contains(v) {
            slack as int
        } else {
            0int
        };
    let filled = |u: int, v: int| across(u, v) + spare(u, v);
    let full = |u: int, v: int|
        if side.contains(u) && !side.contains(v) {
            at(cap, u, v)
        } else {
            0
        };
    assert forall|u: int, v: int| 0 <= u < n && 0 <= v < n implies #[trigger] spare(u, v) == slack
        * one(u, v) by {
        if one(u, v) == 1 {
            assert(slack * 1 == slack) by (nonlinear_arith);
        } else {
            assert(slack * 0 == 0) by (nonlinear_arith);
        }
    }
    sums::pairs_times(one, spare, slack as int, n);
    sums::pairs_plus(across, spare, filled, n);
    assert forall|u: int, v: int| 0 <= u < n && 0 <= v < n implies #[trigger] full(u, v) <= filled(
        u,
        v,
    ) by {
        if side.contains(u) && !side.contains(v) {
            assert(at(res, u, v) <= slack);
        }
    }
    sums::pairs_monotone(full, filled, n);
}

/// The side reached from the source is that of a minimum cut: no cut between source and sink
/// is smaller by more than the slack of the pairs it separates. Where there is no slack it is
/// a minimum cut.
pub proof fn reach_is_minimum_cut(
    cap: Seq<Vec<u64>>,
    res: Seq<Vec<u64>>,
    n: nat,
    source: int,
    sink: int,
    slack: u64,
    side: Set<int>,
    other: Set<int>,
)
    requires
        is_residual(cap, res, n, source, sink),
        0 <= source < n,
        0 <= sink < n,
        is_reach(res, n, slack, source, side),
        !side.contains(sink),
        other.contains(source),
        !other.contains(sink),
    ensures
        cut_capacity(cap, n, side) <= cut_capacity(cap, n, other) + slack * cut_pairs(n, side),
        slack == 0 ==> cut_capacity(cap, n, side) <= cut_capacity(cap, n, other),
{
    closed_side_is_tight(cap, res, n, source, sink, slack, side);
    flow_fits_cut(cap, res, n, source, sink, other);
    let pairs = cut_pairs(n, side);
    assert(0 * pairs == 0) by (nonlinear_arith);
}

/// Without slack the side reached from the source lies within the source side of every
/// minimum cut. So it does not depend on which paths were found first.
pub proof fn reach_is_least_minimum_cut(
    cap: Seq<Vec<u64>>,
    res: Seq<Vec<u64>>,
    n: nat,
    source: int,
    sink: int,
    side: Set<int>,
    other: Set<int>,
)
    requires
        is_residual(cap, res, n, source, sink),
        0 <= source < n,
        0 <= sink < n,
        is_reach(res, n, 0, source, side),
        !side.contains(sink),
        other.contains(source),
        !other.contains(sink),
        cut_capacity(cap, n, other) <= cut_capacity(cap, n, side),
    ensures
        side.subset_of(other),
{
    closed_side_is_tight(cap, res, n, source, sink, 0, side);
    let pairs = cut_pairs(n, side);
    assert(0 * pairs == 0) by (nonlinear_arith);
    flow_crosses_cut(cap, res, n, source, sink, other);
    let across = |u: int, v: int|
        if other.contains(u) && !other.contains(v) {
            flow(cap, res, u, v)
        } else {
            0
        };
    let full = |u: int, v: int|
        if other.contains(u) && !other.contains(v) {
            at(cap, u, v)
        } else {
            0
        };
    let left = |u: int, v: int|
        if other.contains(u) && !other.contains(v) {
            at(res, u, v)
        } else {
            0
        };
    sums::pairs_plus(across, left, full, n);
    sums::pairs_of_none(left, n);
    assert(closed_under(res, n, 0, other)) by {
        assert forall|u: int, v: int|
            0 <= u < n && 0 <= v < n && other.contains(u) && #[trigger] at(res, u, v) > 0u64 implies other.contains(
            v,
        ) by {
            assert(left(u, v) == 0);
        }
    }
}

/// A search tree from the source: every reached node but the source has a parent one level
/// up, over an edge with more than `slack` left.
pub open spec fn is_tree(
    res: Seq<Vec<u64>>,
    n: nat,
    slack: u64,
    source: int,
    prev: Seq<usize>,
    level: Seq<int>,
) -> bool {
    &&& prev.len() == n
    &&& level.len() == n
    &&& prev[source] == source
    &&& level[source] == 0
    &&& forall|x: int|
        0 <= x < n && x != source && #[trigger] prev[x] != UNREACHED ==> {
            &&& prev[x] < n
            &&& prev[prev[x] as int] != UNREACHED
            &&& level[x] == level[prev[x] as int] + 1
            &&& level[prev[x] as int] >= 0
            &&& at(res, prev[x] as int, x) > slack
        }
}

/// The set of reached nodes.
pub open spec fn reached(prev: Seq<usize>) -> Set<int> {
    Set::new(|x: int| 0 <= x < prev.len() && prev[x] != UNREACHED)
}

/// Every closed set that holds the source holds the tree.
proof fn tree_is_least(
    res: Seq<Vec<u64>>,
    n: nat,
    slack: u64,
    source: int,
    prev: Seq<usize>,
    level: Seq<int>,
    other: Set<int>,
    x: int,
)
    requires
        is_tree(res, n, slack, source, prev, level),
        0 <= source < n,
        0 <= x < n,
        prev[x] != UNREACHED,
        other.contains(source),
        closed_under(res, n, slack, other),
    ensures
        other.contains(x),
    decreases level[x],
{
    if x != source {
        let up = prev[x] as int;
        tree_is_least(res, n, slack, source, prev, level, other, up);
        assert(at(res, up, x) > slack);
    }
}

proof fn distinct_fits(ids: Seq<usize>, n: nat)
    requires
        ids.no_duplicates(),
        forall|i: int| 0 <= i < ids.len() ==> #[trigger] ids[i] < n,
    ensures
        ids.len() <= n,
{
    let wide = ids.map_values(|x: usize| x as int);
    assert(wide.no_duplicates());
    wide.unique_seq_to_set();
    let all = vstd::set_lib::set_int_range(0, n as int);
    vstd::set_lib::lemma_int_range(0, n as int);
    assert forall|v: int| wide.to_set().contains(v) implies all.contains(v) by {
        let i = choose|i: int| 0 <= i < wide.len() && wide[i] == v;
        assert(ids[i] < n);
    }
    vstd::set_lib::lemma_len_subset(wide.to_set(), all);
}

/// Grows a search tree from the source, level by level, until the sink is in it or nothing
/// more can be reached. Gives each node's parent, and the levels.
fn search_tree(res: &Vec<Vec<u64>>, source: usize, sink: usize, slack: u64) -> (r: (
    Vec<usize>,
    Ghost<Seq<int>>,
))
    requires
        square(res@, res@.len()),
        source < res@.len(),
        sink < res@.len(),
    ensures
        is_tree(res@, res@.len(), slack, source as int, r.0@, r.1@),
        r.0@[sink as int] == UNREACHED ==> closed_under(
            res@,
            res@.len(),
            slack,
            reached(r.0@),
        ),
{
    let n: usize = res.len();
    let mut prev: Vec<usize> = Vec::new();
    while prev.len() < n
        invariant
            prev@.len() <= n,
            forall|i: int| 0 <= i < prev@.len() ==> prev@[i] == UNREACHED,
        decreases n - prev@.len(),
    {
        prev.push(UNREACHED);
    }
    let ghost mut level: Seq<int> = Seq::new(n as nat, |i: int| 0int);
    prev.set(source, source);
    let mut queue: Vec<usize> = Vec::new();
    queue.push(source);
    let mut head: usize = 0;
    proof {
        assert(queue@[0] == source);
    }
    while head < queue.len() && prev[sink] == UNREACHED
        invariant
            n == res@.len(),
            square(res@, n as nat),
            source < n,
            sink < n,
            head <= queue@.len(),
            is_tree(res@, n as nat, slack, source as int, prev@, level),
            queue@.no_duplicates(),
            forall|i: int|
                0 <= i < queue@.len() ==> #[trigger] queue@[i] < n && prev@[queue@[i] as int] != UNREACHED,
            forall|x: int|
                0 <= x < n && #[trigger] prev@[x] != UNREACHED ==> queue@.contains(x as usize),
            forall|i: int, v: int|
                0 <= i < head && 0 <= v < n && #[trigger] at(res@, queue@[i] as int, v) > slack
                    ==> prev@[v] != UNREACHED,
        decreases n - head,
    {
        proof {
            distinct_fits(queue@, n as nat);
        }
        let u: usize = queue[head];
        let mut v: usize = 0;
        while v < n
            invariant
                n == res@.len(),
                square(res@, n as nat),
                source < n,
                v <= n,
                head < queue@.len(),
                u == queue@[head as int],
                u < n,
                prev@[u as int] != UNREACHED,
                is_tree(res@, n as nat, slack, source as int, prev@, level),
                queue@.no_duplicates(),
                forall|i: int|
                    0 <= i < queue@.len() ==> #[trigger] queue@[i] < n && prev@[queue@[i] as int]
                        != UNREACHED,
                forall|x: int|
                    0 <= x < n && #[trigger] prev@[x] != UNREACHED ==> queue@.contains(x as usize),
                forall|i: int, w: int|
                    0 <= i < head && 0 <= w < n && #[trigger] at(res@, queue@[i] as int, w) > slack
                        ==> prev@[w] != UNREACHED,
                forall|w: int|
                    0 <= w < v && #[trigger] at(res@, u as int, w) > slack ==> prev@[w] != UNREACHED,
            decreases n - v,
        {
            if prev[v] == UNREACHED && res[u][v] > slack {
                let ghost prev0 = prev@;
                let ghost queue0 = queue@;
                proof {
                    if queue@.contains(v) {
                        let i = choose|i: int| 0 <= i < queue@.len() && queue@[i] == v;
                        assert(prev@[queue@[i] as int] != UNREACHED);
                    }
                    let ghost depth = level[u as int] + 1;
                    if u != source {
                        assert(prev@[u as int] < n);
                    }
                    level = level.update(v as int, depth);
                }
                prev.set(v, u);
                queue.push(v);
                proof {
                    assert forall|x: int|
                        0 <= x < n && #[trigger] prev@[x] != UNREACHED implies queue@.contains(
                        x as usize,
                    ) by {
                        if x == v {
                            assert(queue@[queue@.len() - 1] == v);
                        } else {
                            assert(prev0[x] != UNREACHED);
                            let i = choose|i: int| 0 <= i < queue0.len() && queue0[i] == x as usize;
                            assert(queue@[i] == x as usize);
                        }
                    }
                    assert forall|x: int|
                        0 <= x < n && x != source && #[trigger] prev@[x] != UNREACHED implies {
                        &&& prev@[x] < n
                        &&& prev@[prev@[x] as int] != UNREACHED
                        &&& level[x] == level[prev@[x] as int] + 1
                        &&& level[prev@[x] as int] >= 0
                        &&& at(res@, prev@[x] as int, x) > slack
                    } by {
                        if x != v {
                            assert(prev0[x] != UNREACHED);
                        }
                    }
                }
            }
            v += 1;
        }
        head += 1;
    }
    proof {
        if prev@[sink as int] == UNREACHED {
            assert forall|u: int, v: int|
                0 <= u < n && 0 <= v < n && reached(prev@).contains(u) && #[trigger] at(res@, u, v)
                    > slack implies reached(prev@).contains(v) by {
                assert(prev@[u] != UNREACHED);
                let i = choose|i: int| 0 <= i < queue@.len() && queue@[i] == u as usize;
                assert(at(res@, queue@[i] as int, v) > slack);
            }
        }
    }
    (prev, Ghost(level))
}

/// The node `k` steps up from `v`.
pub open spec fn ancestor(prev: Seq<usize>, v: int, k: nat) -> int
    decreases k,
{
    if k == 0 {
        v
    } else {
        prev[ancestor(prev, v, (k - 1) as nat)] as int
    }
}

/// One edge carries `amount` more: the residual moves to the other direction.
proof fn edge_moves(
    cap: Seq<Vec<u64>>,
    before: Seq<Vec<u64>>,
    after: Seq<Vec<u64>>,
    n: nat,
    u: int,
    v: int,
    amount: int,
)
    requires
        square(cap, n),
        square(before, n),
        square(after, n),
        0 <= u < n,
        0 <= v < n,
        u != v,
        at(after, u, v) == at(before, u, v) - amount,
        at(after, v, u) == at(before, v, u) + amount,
        forall|x: int, y: int|
            0 <= x < n && 0 <= y < n && !(x == u && y == v) && !(x == v && y == u)
                ==> #[trigger] at(after, x, y) == at(before, x, y),
    ensures
        outflow(cap, after, n, u) == outflow(cap, before, n, u) + amount,
        outflow(cap, after, n, v) == outflow(cap, before, n, v) - amount,
        forall|x: int|
            0 <= x < n && x != u && x != v ==> #[trigger] outflow(cap, after, n, x) == outflow(
                cap,
                before,
                n,
                x,
            ),
{
    sums::total_changed(
        |y: int| flow(cap, before, u, y),
        |y: int| flow(cap, after, u, y),
        v,
        n,
    );
    sums::total_changed(
        |y: int| flow(cap, before, v, y),
        |y: int| flow(cap, after, v, y),
        u,
        n,
    );
    assert forall|x: int| 0 <= x < n && x != u && x != v implies #[trigger] outflow(cap, after, n, x)
        == outflow(cap, before, n, x) by {
        sums::total_same(|y: int| flow(cap, after, x, y), |y: int| flow(cap, before, x, y), n);
    }
}

/// Sends as much as fits along the tree's path from the source to the sink. Gives the amount.
fn augment(
    cap: &Vec<Vec<u64>>,
    res: &mut Vec<Vec<u64>>,
    source: usize,
    sink: usize,
    slack: u64,
    prev: &Vec<usize>,
    level: Ghost<Seq<int>>,
) -> (amount: u64)
    requires
        is_residual(cap@, old(res)@, cap@.len(), source as int, sink as int),
        forall|u: int, v: int|
            0 <= u < cap@.len() && 0 <= v < cap@.len() ==> #[trigger] at(cap@, u, v) + at(cap@, v, u)
                <= u64::MAX,
        source < cap@.len(),
        sink < cap@.len(),
        source != sink,
        is_tree(old(res)@, cap@.len(), slack, source as int, prev@, level@),
        prev@[sink as int] != UNREACHED,
    ensures
        amount > slack,
        is_residual(cap@, final(res)@, cap@.len(), source as int, sink as int),
        outflow(cap@, final(res)@, cap@.len(), source as int) == outflow(
            cap@,
            old(res)@,
            cap@.len(),
            source as int,
        ) + amount,
{
    let ghost n = cap@.len();
    let ghost res0 = res@;
    let ghost depth = level@[sink as int];
    assert(prev@[sink as int] < n);
    let mut amount: u64 = u64::MAX;
    let mut v: usize = sink;
    let ghost mut k: nat = 0;
    while v != source
        invariant
            n == cap@.len(),
            res@ == res0,
            square(res0, n),
            source < n,
            sink < n,
            is_tree(res0, n, slack, source as int, prev@, level@),
            prev@[sink as int] != UNREACHED,
            depth == level@[sink as int],
            0 <= k <= depth,
            v == ancestor(prev@, sink as int, k),
            v < n,
            prev@[v as int] != UNREACHED,
            level@[v as int] == depth - k,
            amount > slack || k == 0,
            k == 0 ==> amount == u64::MAX,
            forall|i: nat|
                i < k ==> amount <= at(
                    res0,
                    ancestor(prev@, sink as int, i + 1),
                    #[trigger] ancestor(prev@, sink as int, i),
                ),
        decreases level@[v as int],
    {
        let u: usize = prev[v];
        proof {
            assert(level@[v as int] == level@[u as int] + 1);
            assert(ancestor(prev@, sink as int, k + 1) == u);
        }
        let left: u64 = res[u][v];
        if left < amount {
            amount = left;
        }
        v = u;
        proof {
            k = k + 1;
        }
    }
    proof {
        if k == 0 {
            assert(v == sink);
        }
        if depth > k {
            assert(level@[source as int] == depth - k);
        }
        assert(k == depth);
    }
    let mut v: usize = sink;
    let ghost mut k: nat = 0;
    while v != source
        invariant
            n == cap@.len(),
            square(cap@, n),
            square(res0, n),
            square(res@, n),
            source < n,
            sink < n,
            is_tree(res0, n, slack, source as int, prev@, level@),
            prev@[sink as int] != UNREACHED,
            depth == level@[sink as int],
            0 <= k <= depth,
            v == ancestor(prev@, sink as int, k),
            v < n,
            prev@[v as int] != UNREACHED,
            level@[v as int] == depth - k,
            forall|i: nat|
                i < depth ==> amount <= at(
                    res0,
                    ancestor(prev@, sink as int, i + 1),
                    #[trigger] ancestor(prev@, sink as int, i),
                ),
            forall|x: int, y: int|
                0 <= x < n && 0 <= y < n ==> #[trigger] at(cap@, x, y) + at(cap@, y, x) <= u64::MAX,
            forall|x: int, y: int|
                0 <= x < n && 0 <= y < n ==> #[trigger] flow(cap@, res@, x, y) == -flow(
                    cap@,
                    res@,
                    y,
                    x,
                ),
            forall|x: int, y: int|
                0 <= x < n && 0 <= y < n && prev@[x] != UNREACHED && prev@[y] != UNREACHED
                    && level@[x] <= level@[v as int] && level@[y] <= level@[v as int]
                    ==> #[trigger] at(res@, x, y) == at(res0, x, y),
            forall|x: int|
                0 <= x < n ==> #[trigger] outflow(cap@, res@, n, x) == outflow(cap@, res0, n, x) + (
                if x == v {
                    amount as int
                } else {
                    0
                }) - (if x == sink {
                    amount as int
                } else {
                    0
                }),
        decreases level@[v as int],
    {
        let u: usize = prev[v];
        proof {
            assert(level@[v as int] == level@[u as int] + 1);
            assert(ancestor(prev@, sink as int, k + 1) == u);
            assert(at(res@, u as int, v as int) == at(res0, u as int, v as int));
            assert(amount <= at(res@, u as int, v as int));
            assert(flow(cap@, res@, u as int, v as int) == -flow(cap@, res@, v as int, u as int));
            assert(at(cap@, u as int, v as int) + at(cap@, v as int, u as int) <= u64::MAX);
        }
        let ghost before = res@;
        let forward: u64 = res[u][v];
        let backward: u64 = res[v][u];
        set_entry(res, u, v, forward - amount);
        set_entry(res, v, u, backward + amount);
        proof {
            edge_moves(cap@, before, res@, n, u as int, v as int, amount as int);
            assert forall|x: int, y: int|
                0 <= x < n && 0 <= y < n implies #[trigger] flow(cap@, res@, x, y) == -flow(
                cap@,
                res@,
                y,
                x,
            ) by {
                assert(flow(cap@, before, x, y) == -flow(cap@, before, y, x));
            }
        }
        v = u;
        proof {
            k = k + 1;
        }
    }
    proof {
        assert forall|x: int|
            0 <= x < n && x != source && x != sink implies #[trigger] outflow(cap@, res@, n, x)
            == 0 by {
            assert(outflow(cap@, res0, n, x) == 0);
        }
    }
    amount
}

fn set_entry(m: &mut Vec<Vec<u64>>, u: usize, v: usize, x: u64)
    requires
        square(old(m)@, old(m)@.len()),
        u < old(m)@.len(),
        v < old(m)@.len(),
    ensures
        square(final(m)@, old(m)@.len()),
        at(final(m)@, u as int, v as int) == x,
        forall|a: int, b: int|
            0 <= a < old(m)@.len() && 0 <= b < old(m)@.len() && !(a == u && b == v)
                ==> #[trigger] at(final(m)@, a, b) == at(old(m)@, a, b),
{
    let mut row: Vec<u64> = Vec::new();
    std::mem::swap(&mut row, &mut m[u]);
    row.set(v, x);
    m.set(u, row);
}

/// A cut between source and sink.
pub struct Cut {
    /// Which nodes are on the source side.
    pub side: Vec<bool>,
    /// Residual capacities of the flow that shows the cut is small.
    pub residual: Vec<Vec<u64>>,
}

impl Cut {
    /// The cut comes from a flow that cannot be increased over edges with more than `slack`
    /// left: its source side is what can still be reached.
    pub open spec fn separates(
        &self,
        cap: Seq<Vec<u64>>,
        source: int,
        sink: int,
        slack: u64,
    ) -> bool {
        &&& self.side@.len() == cap.len()
        &&& is_residual(cap, self.residual@, cap.len(), source, sink)
        &&& is_reach(self.residual@, cap.len(), slack, source, marked(self.side@))
        &&& !self.side@[sink]
        &&& self.side@[source]
    }
}

fn copy_matrix(m: &Vec<Vec<u64>>) -> (out: Vec<Vec<u64>>)
    requires
        square(m@, m@.len()),
    ensures
        square(out@, m@.len()),
        forall|u: int, v: int|
            0 <= u < m@.len() && 0 <= v < m@.len() ==> #[trigger] at(out@, u, v) == at(m@, u, v),
{
    let mut out: Vec<Vec<u64>> = Vec::new();
    let mut u: usize = 0;
    while u < m.len()
        invariant
            square(m@, m@.len()),
            u <= m@.len(),
            out@.len() == u,
            forall|a: int| 0 <= a < u ==> (#[trigger] out@[a])@ == m@[a]@,
        decreases m@.len() - u,
    {
        let row = vstd::slice::slice_to_vec(m[u].as_slice());
        out.push(row);
        u += 1;
    }
    out
}

/// Finds a maximum flow and the cut that it leaves. Capacities of the two directions of an
/// edge together must fit a machine word.
pub fn minimum_cut(cap: &Vec<Vec<u64>>, source: usize, sink: usize, slack: u64) -> (cut: Cut)
    requires
        square(cap@, cap@.len()),
        source < cap@.len(),
        sink < cap@.len(),
        source != sink,
        forall|u: int, v: int|
            0 <= u < cap@.len() && 0 <= v < cap@.len() ==> #[trigger] at(cap@, u, v) + at(cap@, v, u)
                <= u64::MAX,
    ensures
        cut.separates(cap@, source as int, sink as int, slack),
{
    let n: usize = cap.len();
    let ghost most = sums::total(|v: int| at(cap@, source as int, v), n as nat);
    let mut res = copy_matrix(cap);
    proof {
        assert forall|u: int|
            0 <= u < n && u != source && u != sink implies #[trigger] outflow(
            cap@,
            res@,
            n as nat,
            u,
        ) == 0 by {
            sums::total_zero(|v: int| flow(cap@, res@, u, v), n as nat);
        }
    }
    loop
        invariant
            n == cap@.len(),
            source < n,
            sink < n,
            source != sink,
            forall|u: int, v: int|
                0 <= u < n && 0 <= v < n ==> #[trigger] at(cap@, u, v) + at(cap@, v, u) <= u64::MAX,
            is_residual(cap@, res@, n as nat, source as int, sink as int),
            most == sums::total(|v: int| at(cap@, source as int, v), n as nat),
        decreases most - outflow(cap@, res@, n as nat, source as int),
    {
        let (prev, level) = search_tree(&res, source, sink, slack);
        if prev[sink] == UNREACHED {
            let mut side: Vec<bool> = Vec::new();
            let mut i: usize = 0;
            while i < n
                invariant
                    i <= n,
                    n == prev@.len(),
                    side@.len() == i,
                    forall|x: int| 0 <= x < i ==> side@[x] == (prev@[x] != UNREACHED),
                decreases n - i,
            {
                side.push(prev[i] != UNREACHED);
                i += 1;
            }
            proof {
                let m = marked(side@);
                assert(m =~= reached(prev@));
                assert forall|other: Set<int>|
                    other.contains(source as int) && #[trigger] closed_under(
                        res@,
                        n as nat,
                        slack,
                        other,
                    ) implies m.subset_of(other) by {
                    assert forall|x: int| m.contains(x) implies other.contains(x) by {
                        tree_is_least(
                            res@,
                            n as nat,
                            slack,
                            source as int,
                            prev@,
                            level@,
                            other,
                            x,
                        );
                    }
                }
            }
            return Cut { side, residual: res };
        }
        let _amount: u64 = augment(cap, &mut res, source, sink, slack, &prev, level);
        proof {
            sums::total_monotone(
                |v: int| flow(cap@, res@, source as int, v),
                |v: int| at(cap@, source as int, v),
                n as nat,
            );
        }
    }
}

} // verus!
