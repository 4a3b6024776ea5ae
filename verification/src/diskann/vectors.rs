//! Vectors in one contiguous slab, and batch distances.
use crate::float_order;
use crate::knn;
use crate::metric::Metric;
use crate::ranking::Scored;
use vstd::prelude::*;

verus! {

/// Vectors one after another, as the bits of single-precision numbers.
pub struct FlatVectors {
    /// The slab.
    pub data: Vec<u32>,
    /// Dimensions of a vector.
    pub dim: usize,
    /// Number of vectors.
    pub count: usize,
}

impl FlatVectors {
    /// The slab holds whole vectors.
    pub open spec fn wf(&self) -> bool {
        self.data@.len() == self.count * self.dim
    }

    /// The bits of vector `i`.
    pub open spec fn row(&self, i: int) -> Seq<u32> {
        self.data@.subrange(i * self.dim, (i + 1) * self.dim)
    }

    /// No vectors.
    pub fn new(dim: usize) -> (v: Self)
        ensures
            v.wf(),
            v.dim == dim,
            v.count == 0,
    {
        assert(0 * dim == 0) by (nonlinear_arith);
        FlatVectors { data: Vec::new(), dim, count: 0 }
    }

    /// No vectors, with room for `n`.
    pub fn with_capacity(dim: usize, n: usize) -> (v: Self)
        requires
            n * dim <= usize::MAX,
        ensures
            v.wf(),
            v.dim == dim,
            v.count == 0,
    {
        assert(0 * dim == 0) by (nonlinear_arith);
        FlatVectors { data: Vec::with_capacity(n * dim), dim, count: 0 }
    }

    /// Adds a vector at the end.
    pub fn push(&mut self, vector: &[u32])
        requires
            old(self).wf(),
            vector@.len() == old(self).dim,
            old(self).count < usize::MAX,
        ensures
            final(self).wf(),
            final(self).dim == old(self).dim,
            final(self).count == old(self).count + 1,
            final(self).data@ == old(self).data@ + vector@,
            final(self).row(old(self).count as int) == vector@,
            forall|i: int|
                0 <= i < old(self).count ==> #[trigger] final(self).row(i) == old(self).row(i),
    {
        let ghost before = self.data@;
        let mut i: usize = 0;
        while i < vector.len()
            invariant
                i <= vector@.len(),
                self.dim == old(self).dim,
                self.count == old(self).count,
                before == old(self).data@,
                self.data@ == before + vector@.take(i as int),
            decreases vector@.len() - i,
        {
            self.data.push(vector[i]);
            i += 1;
            assert(self.data@ =~= before + vector@.take(i as int));
        }
        assert(vector@.take(i as int) =~= vector@);
        self.count = self.count + 1;
        proof {
            let c = old(self).count as int;
            let d = self.dim as int;
            assert((c + 1) * d == c * d + d) by (nonlinear_arith);
            assert(self.row(c) =~= vector@);
            assert forall|i: int| 0 <= i < c implies #[trigger] self.row(i) == old(self).row(i) by {
                row_bounds(i, c, d);
                assert(self.row(i) =~= old(self).row(i));
            }
        }
    }

    /// The bits of vector `idx`.
    pub fn get(&self, idx: usize) -> (row: &[u32])
        requires
            self.wf(),
            idx < self.count,
        ensures
            row@ == self.row(idx as int),
    {
        let len: usize = self.data.len();
        proof {
            row_bounds(idx as int, self.count as int, self.dim as int);
        }
        vstd::slice::slice_subrange(
            self.data.as_slice(),
            idx * self.dim,
            idx * self.dim + self.dim,
        )
    }

    /// Overwrites a vector with NaNs, so that it is near nothing.
    pub fn zero_out(&mut self, idx: usize)
        requires
            old(self).wf(),
            idx < old(self).count,
        ensures
            final(self).wf(),
            final(self).dim == old(self).dim,
            final(self).count == old(self).count,
            final(self).row(idx as int) == Seq::new(old(self).dim as nat, |j: int| float_order::NAN),
            forall|i: int|
                0 <= i < old(self).count && i != idx ==> #[trigger] final(self).row(i) == old(
                    self,
                ).row(i),
    {
        let len: usize = self.data.len();
        let ghost c = self.count as int;
        let ghost d = self.dim as int;
        proof {
            row_bounds(idx as int, c, d);
        }
        let start: usize = idx * self.dim;
        let mut j: usize = 0;
        while j < self.dim
            invariant
                j <= self.dim,
                self.dim == old(self).dim,
                self.count == old(self).count,
                self.data@.len() == old(self).data@.len() == len,
                start + self.dim <= len,
                forall|k: int| start <= k < start + j ==> self.data@[k] == float_order::NAN,
                forall|k: int|
                    0 <= k < len && !(start <= k < start + j) ==> self.data@[k] == old(self).data@[k],
            decreases self.dim - j,
        {
            self.data.set(start + j, float_order::NAN);
            j += 1;
        }
        proof {
            assert(self.row(idx as int) =~= Seq::new(d as nat, |j: int| float_order::NAN));
            assert forall|i: int| 0 <= i < c && i != idx implies #[trigger] self.row(i) == old(
                self,
            ).row(i) by {
                row_bounds(i, c, d);
                if i < idx {
                    row_bounds(i, idx as int, d);
                } else {
                    row_bounds(idx as int, i, d);
                }
                assert(self.row(i) =~= old(self).row(i));
            }
        }
    }

    /// Number of vectors.
    pub fn len(&self) -> (n: usize)
        ensures
            n == self.count,
    {
        self.count
    }

    /// Whether there is no vector.
    pub fn is_empty(&self) -> (r: bool)
        ensures
            r == (self.count == 0),
    {
        self.count == 0
    }
}

proof fn row_bounds(i: int, count: int, dim: int)
    requires
        0 <= i < count,
        0 <= dim,
    ensures
        0 <= i * dim,
        i * dim + dim == (i + 1) * dim,
        (i + 1) * dim <= count * dim,
{
    assert(0 <= i * dim) by (nonlinear_arith)
        requires
            0 <= i,
            0 <= dim,
    ;
    assert(i * dim + dim == (i + 1) * dim) by (nonlinear_arith);
    assert((i + 1) * dim <= count * dim) by (nonlinear_arith)
        requires
            i + 1 <= count,
            0 <= dim,
    ;
}

/// Kinds of accelerator.
#[derive(Debug, Clone, Copy, PartialEq, Eq, Structural)]
pub enum GpuBackend {
    /// Apple Metal.
    Metal,
    /// NVIDIA CUDA.
    Cuda,
    /// Vulkan compute.
    Vulkan,
}

/// Context for batch distances.
pub struct GpuDistanceContext {
    backend: GpuBackend,
    batch_size: usize,
}

impl GpuDistanceContext {
    /// The backend in use.
    pub closed spec fn chosen(&self) -> GpuBackend {
        self.backend
    }

    /// Vectors per batch.
    pub closed spec fn batch(&self) -> usize {
        self.batch_size
    }

    /// A context with the backend that suits the platform: Metal on macOS, else CUDA.
    pub fn new(macos: bool) -> (context: Option<Self>)
        ensures
            context matches Some(c) && c.batch() == 4096 && c.chosen() == (if macos {
                GpuBackend::Metal
            } else {
                GpuBackend::Cuda
            }),
    {
        let backend = if macos {
            GpuBackend::Metal
        } else {
            GpuBackend::Cuda
        };
        Some(GpuDistanceContext { backend, batch_size: 4096 })
    }

    /// The `k` of `n` vectors nearest to a query, nearest first. No distance may be a NaN.
    pub fn batch_l2_squared<M: Metric>(&self, metric: &M, query: u32, n: usize, k: usize) -> (found: Vec<Scored>)
        requires
            query < metric.sources(),
            n <= metric.targets(),
            n <= u32::MAX,
            forall|i: int|
                0 <= i < n ==> !float_order::not_a_number(
                    #[trigger] metric.measured(query as int, i),
                ),
        ensures
            found@ == knn::nearest(metric, query as int, n as nat, k as nat),
    {
        knn::find_nearest(metric, query, n, k)
    }

    /// The backend in use.
    pub fn backend(&self) -> (backend: GpuBackend)
        ensures
            backend == self.chosen(),
    {
        self.backend
    }
}

} // verus!
