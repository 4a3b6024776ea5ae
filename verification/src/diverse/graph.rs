//! Exact nearest-neighbour graph.
use crate::beam;
use crate::knn;
use crate::metric::Metric;
use crate::ranking;
use crate::ranking::Scored;
use vstd::prelude::*;

verus! {

/// A graph in which every node is linked to its nearest neighbours.
pub struct FlatGraph {
    /// The vectors, as the bits of single-precision numbers.
    pub vectors: Vec<Vec<u32>>,
    /// The neighbours of each node, nearest first.
    pub neighbors: Vec<Vec<u32>>,
    /// Dimensions of a vector.
    pub dim: usize,
    /// Neighbours per node.
    pub k_nn: usize,
}

impl FlatGraph {
    /// Number of nodes.
    pub open spec fn size(&self) -> nat {
        self.vectors@.len()
    }

    /// Lists for all nodes, neighbours within the graph, vectors of one length.
    pub open spec fn wf(&self) -> bool {
        &&& self.size() < u32::MAX
        &&& self.neighbors@.len() == self.size()
        &&& beam::closed_graph(beam::links_of(self.neighbors@))
        &&& forall|i: int| 0 <= i < self.size() ==> (#[trigger] self.vectors@[i])@.len() == self.dim
    }

    /// Links each vector to the `k_nn` nearest others. `metric` measures between them.
    pub fn build<M: Metric>(vectors: Vec<Vec<u32>>, k_nn: usize, metric: &M) -> (graph: Self)
        requires
            vectors@.len() > k_nn,
            vectors@.len() < u32::MAX,
            vectors@[0]@.len() > 0,
            forall|i: int|
                0 <= i < vectors@.len() ==> (#[trigger] vectors@[i])@.len() == vectors@[0]@.len(),
            vectors@.len() <= metric.sources(),
            vectors@.len() <= metric.targets(),
        ensures
            graph.wf(),
            graph.vectors == vectors,
            graph.dim == vectors@[0]@.len(),
            graph.k_nn == k_nn,
            forall|i: int|
                0 <= i < graph.size() ==> (#[trigger] graph.neighbors@[i])@ == ranking::ids_of(
                    knn::nearest_others(metric, i, vectors@.len(), k_nn as nat),
                ) && graph.neighbors@[i]@.len() == k_nn,
    {
        let n: usize = vectors.len();
        let dim: usize = vectors[0].len();
        let mut neighbors: Vec<Vec<u32>> = Vec::new();
        let mut i: usize = 0;
        while i < n
            invariant
                i <= n,
                k_nn < n < u32::MAX,
                n <= metric.sources(),
                n <= metric.targets(),
                neighbors@.len() == i,
                forall|v: int|
                    0 <= v < i ==> (#[trigger] neighbors@[v])@ == ranking::ids_of(
                        knn::nearest_others(metric, v, n as nat, k_nn as nat),
                    ) && neighbors@[v]@.len() == k_nn && forall|j: int|
                        0 <= j < k_nn ==> #[trigger] neighbors@[v]@[j] < n,
            decreases n - i,
        {
            let list = knn::find_nearest_others(metric, i as u32, n, k_nn);
            proof {
                knn::others_are_others(metric, i as int, n as nat, k_nn as nat);
            }
            neighbors.push(list);
            i += 1;
        }
        let graph = FlatGraph { vectors, neighbors, dim, k_nn };
        proof {
            let links = beam::links_of(graph.neighbors@);
            assert forall|a: int, b: int|
                0 <= a < links.len() && 0 <= b < links[a].len() implies #[trigger] links[a][b]
                < links.len() by {
                assert(graph.neighbors@[a]@[b] < n);
            }
        }
        graph
    }

    /// The bits of the vector of node `id`.
    pub fn vec(&self, id: u32) -> (row: &[u32])
        requires
            id < self.size(),
        ensures
            row@ == self.vectors@[id as int]@,
    {
        self.vectors[id as usize].as_slice()
    }

    /// Number of nodes.
    pub fn len(&self) -> (n: usize)
        ensures
            n == self.size(),
    {
        self.vectors.len()
    }

    /// Whether there is no node.
    pub fn is_empty(&self) -> (r: bool)
        ensures
            r == (self.size() == 0),
    {
        self.vectors.len() == 0
    }

    /// The exact `k` nearest nodes of a query.
    pub fn brute_force<M: Metric>(&self, metric: &M, query: u32, k: usize) -> (found: Vec<Scored>)
        requires
            self.wf(),
            query < metric.sources(),
            self.size() <= metric.targets(),
        ensures
            found@ == knn::nearest(metric, query as int, self.size(), k as nat),
    {
        knn::find_nearest(metric, query, self.vectors.len(), k)
    }

    /// Bytes taken by vectors and neighbour lists.
    pub fn memory_bytes(&self) -> (bytes: usize)
        requires
            self.size() * self.dim * 4 + self.size() * self.k_nn * 8 <= usize::MAX,
        ensures
            bytes == self.size() * self.dim * 4 + self.size() * self.k_nn * 8,
    {
        let n: usize = self.vectors.len();
        assert(0 <= n * self.dim) by (nonlinear_arith);
        assert(0 <= n * self.k_nn) by (nonlinear_arith);
        let vec_bytes: usize = n * self.dim * 4;
        let nb_bytes: usize = n * self.k_nn * 8;
        vec_bytes + nb_bytes
    }
}

} // verus!
