//! Flat navigable small-world graph: exact nearest neighbours and a few random long jumps.
use crate::beam;
use crate::knn;
use crate::metric::Metric;
use crate::ranking;
use crate::rng;
use vstd::prelude::*;

verus! {

/// Shape of the graph.
#[derive(Clone, Copy, Debug)]
pub struct GraphConfig {
    /// Nearest neighbours per node.
    pub m: usize,
    /// Random long-jump neighbours per node.
    pub m_longjump: usize,
    /// Dimensions of a vector.
    pub dims: usize,
}

impl Default for GraphConfig {
    fn default() -> (config: Self)
        ensures
            config.m == 16,
            config.m_longjump == 4,
            config.dims == 64,
    {
        GraphConfig { m: 16, m_longjump: 4, dims: 64 }
    }
}

/// A graph over stored vectors.
pub struct FlatGraph {
    /// The vectors, row by row, as the bits of single-precision numbers.
    pub vectors: Vec<u32>,
    /// The neighbours of each node.
    pub neighbors: Vec<Vec<u32>>,
    /// Shape of the graph.
    pub config: GraphConfig,
    /// Number of nodes.
    pub n: usize,
}

/// A neighbour list after drawing `j` as a long jump for node `i`: the node itself and
/// neighbours it already has are not taken.
pub open spec fn jumped(list: Seq<u32>, i: int, j: int) -> Seq<u32> {
    if j == i || list.contains(j as u32) {
        list
    } else {
        list.push(j as u32)
    }
}

/// A neighbour list after all these draws.
pub open spec fn all_jumped(list: Seq<u32>, i: int, draws: Seq<int>) -> Seq<u32>
    decreases draws.len(),
{
    if draws.len() == 0 {
        list
    } else {
        jumped(all_jumped(list, i, draws.drop_last()), i, draws.last())
    }
}

/// `list` comes from `near` by random jumps: nodes below `n` are drawn until `m` were added,
/// and at most `limit` times.
pub open spec fn with_jumps(near: Seq<u32>, list: Seq<u32>, i: int, n: int, m: int, limit: int) -> bool {
    exists|draws: Seq<int>| #[trigger] jumps_drawn(near, list, i, n, m, limit, draws)
}

/// `list` comes from `near` by these draws.
pub open spec fn jumps_drawn(
    near: Seq<u32>,
    list: Seq<u32>,
    i: int,
    n: int,
    m: int,
    limit: int,
    draws: Seq<int>,
) -> bool {
    &&& list == all_jumped(near, i, draws)
    &&& forall|d: int| 0 <= d < draws.len() ==> 0 <= #[trigger] draws[d] < n
    &&& draws.len() <= limit
    &&& list.len() <= near.len() + m
    &&& list.len() < near.len() + m ==> draws.len() == limit
    &&& draws.len() > 0 ==> all_jumped(near, i, draws.drop_last()).len() < near.len() + m
}

/// Draws one long jump for node `i`; whether it was taken.
pub fn take_jump(list: &mut Vec<u32>, i: u32, j: u32) -> (taken: bool)
    ensures
        final(list)@ == jumped(old(list)@, i as int, j as int),
        taken == (final(list)@.len() > old(list)@.len()),
        final(list)@.len() <= old(list)@.len() + 1,
{
    if j == i || has(list, j) {
        return false;
    }
    list.push(j);
    true
}

/// Whether `x` is in the list.
pub fn has(list: &Vec<u32>, x: u32) -> (r: bool)
    ensures
        r == list@.contains(x),
{
    let mut i: usize = 0;
    while i < list.len()
        invariant
            i <= list@.len(),
            forall|j: int| 0 <= j < i ==> list@[j] != x,
        decreases list@.len() - i,
    {
        if list[i] == x {
            assert(list@[i as int] == x);
            return true;
        }
        i += 1;
    }
    false
}

/// Node `i` keeps only other nodes, none twice.
pub open spec fn proper_list(list: Seq<u32>, i: int, n: nat) -> bool {
    &&& list.no_duplicates()
    &&& forall|j: int| 0 <= j < list.len() ==> #[trigger] list[j] < n && list[j] != i
}

/// Jumps keep a list proper and its front as it was.
pub proof fn all_jumped_is_proper(list: Seq<u32>, i: int, draws: Seq<int>, n: nat)
    requires
        proper_list(list, i, n),
        n <= u32::MAX,
        forall|d: int| 0 <= d < draws.len() ==> 0 <= #[trigger] draws[d] < n,
    ensures
        proper_list(all_jumped(list, i, draws), i, n),
        all_jumped(list, i, draws).len() >= list.len(),
        all_jumped(list, i, draws).take(list.len() as int) == list,
    decreases draws.len(),
{
    if draws.len() > 0 {
        let front = draws.drop_last();
        all_jumped_is_proper(list, i, front, n);
        let mid = all_jumped(list, i, front);
        assert(0 <= draws[draws.len() - 1] < n);
        let after = all_jumped(list, i, draws);
        assert(after.take(list.len() as int) =~= mid.take(list.len() as int));
    } else {
        assert(list.take(list.len() as int) =~= list);
    }
}

impl FlatGraph {
    /// The nearest neighbours that node `i` starts from.
    pub open spec fn near<M: Metric>(&self, metric: &M, i: int) -> Seq<u32> {
        ranking::ids_of(knn::nearest_others(metric, i, self.n as nat, self.config.m as nat))
    }

    /// Lists for all nodes, neighbours within the graph, vectors of one length.
    pub open spec fn wf(&self) -> bool {
        &&& 0 < self.n <= u32::MAX
        &&& 0 < self.config.dims
        &&& self.neighbors@.len() == self.n
        &&& self.vectors@.len() == self.n * self.config.dims
        &&& beam::closed_graph(beam::links_of(self.neighbors@))
    }

    /// Builds the graph over the given vectors. `metric` measures between the nodes.
    pub fn build<M: Metric>(vectors: Vec<u32>, config: GraphConfig, metric: &M) -> (graph: Self)
        requires
            0 < config.dims,
            0 < vectors@.len(),
            vectors@.len() % config.dims as nat == 0,
            vectors@.len() / config.dims as nat <= u32::MAX,
            vectors@.len() / config.dims as nat <= metric.sources(),
            vectors@.len() / config.dims as nat <= metric.targets(),
        ensures
            graph.wf(),
            graph.vectors@ == vectors@,
            graph.config == config,
            graph.n == vectors@.len() / config.dims as nat,
            forall|i: int|
                0 <= i < graph.n ==> {
                    let list = (#[trigger] graph.neighbors@[i])@;
                    &&& with_jumps(
                        graph.near(metric, i),
                        list,
                        i,
                        graph.n as int,
                        config.m_longjump as int,
                        2 * graph.n,
                    )
                    &&& proper_list(list, i, graph.n as nat)
                    &&& list.take(graph.near(metric, i).len() as int) == graph.near(metric, i)
                },
    {
        let n: usize = vectors.len() / config.dims;
        proof {
            vstd::arithmetic::div_mod::lemma_fundamental_div_mod(
                vectors@.len() as int,
                config.dims as int,
            );
            assert(n * config.dims == config.dims * n) by (nonlinear_arith);
            assert(n > 0) by (nonlinear_arith)
                requires
                    vectors@.len() == config.dims * n,
                    vectors@.len() > 0,
                    n >= 0,
            ;
        }
        let mut rng = rng::seeded(0xFEED_DEAD);
        let mut neighbors: Vec<Vec<u32>> = Vec::new();
        let mut i: usize = 0;
        while i < n
            invariant
                i <= n,
                0 < n <= u32::MAX,
                n <= metric.sources(),
                n <= metric.targets(),
                neighbors@.len() == i,
                forall|v: int|
                    0 <= v < i ==> {
                        let near = ranking::ids_of(
                            knn::nearest_others(metric, v, n as nat, config.m as nat),
                        );
                        let list = (#[trigger] neighbors@[v])@;
                        &&& with_jumps(near, list, v, n as int, config.m_longjump as int, 2 * n)
                        &&& proper_list(list, v, n as nat)
                        &&& list.take(near.len() as int) == near
                    },
            decreases n - i,
        {
            let mut list = knn::find_nearest_others(metric, i as u32, n, config.m);
            let ghost near = list@;
            let ghost mut draws: Seq<int> = Seq::empty();
            proof {
                knn::others_are_others(metric, i as int, n as nat, config.m as nat);
                let found = knn::nearest_others(metric, i as int, n as nat, config.m as nat);
                assert forall|a: int, b: int|
                    0 <= a < near.len() && 0 <= b < near.len() && a != b implies near[a] != near[b] by {
                    if a < b {
                        assert(found[a].id != found[b].id);
                    } else {
                        assert(found[b].id != found[a].id);
                    }
                }
                assert forall|j: int| 0 <= j < near.len() implies #[trigger] near[j] < n && near[j] != i by {
                    assert(near[j] == found[j].id);
                }
                assert(proper_list(near, i as int, n as nat));
            }
            let limit: u64 = 2 * n as u64;
            let mut added: usize = 0;
            let mut attempts: u64 = 0;
            while added < config.m_longjump && attempts < limit
                invariant
                    0 < n <= u32::MAX,
                    i < n,
                    limit == 2 * n,
                    attempts <= limit,
                    added <= config.m_longjump,
                    list@.len() == near.len() + added,
                    draws.len() == attempts,
                    list@ == all_jumped(near, i as int, draws),
                    forall|d: int| 0 <= d < draws.len() ==> 0 <= #[trigger] draws[d] < n,
                    draws.len() > 0 ==> all_jumped(near, i as int, draws.drop_last()).len()
                        < near.len() + config.m_longjump,
                decreases limit - attempts,
            {
                let j: usize = rng::draw(&mut rng, n);
                attempts += 1;
                proof {
                    let grown = draws.push(j as int);
                    assert(grown.drop_last() =~= draws);
                    draws = grown;
                }
                if take_jump(&mut list, i as u32, j as u32) {
                    added += 1;
                }
            }
            proof {
                assert(jumps_drawn(
                    near,
                    list@,
                    i as int,
                    n as int,
                    config.m_longjump as int,
                    2 * n,
                    draws,
                ));
                all_jumped_is_proper(near, i as int, draws, n as nat);
            }
            neighbors.push(list);
            i += 1;
        }
        let graph = FlatGraph { vectors, neighbors, config, n };
        proof {
            let links = beam::links_of(graph.neighbors@);
            assert forall|a: int, b: int|
                0 <= a < links.len() && 0 <= b < links[a].len() implies #[trigger] links[a][b]
                < links.len() by {
                assert(proper_list(graph.neighbors@[a]@, a, n as nat));
            }
        }
        graph
    }

    /// The bits of the vector of node `id`.
    pub fn vec(&self, id: usize) -> (row: &[u32])
        requires
            self.wf(),
            id < self.n,
        ensures
            row@ == self.vectors@.subrange(
                id * self.config.dims as int,
                (id + 1) * self.config.dims as int,
            ),
    {
        let d: usize = self.config.dims;
        proof {
            assert((id + 1) * d <= self.n * d) by (nonlinear_arith)
                requires
                    id + 1 <= self.n,
            ;
            assert((id + 1) * d == id * d + d) by (nonlinear_arith);
            assert(0 <= id * d) by (nonlinear_arith);
        }
        let len: usize = self.vectors.len();
        vstd::slice::slice_subrange(self.vectors.as_slice(), id * d, id * d + d)
    }
}

} // verus!
