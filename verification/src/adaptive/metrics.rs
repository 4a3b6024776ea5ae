//! Recall, latency samples and memory estimates.
use crate::float_order;
use crate::single;
use vstd::prelude::*;

verus! {

/// The entries of `retrieved` that occur in `truth`.
pub open spec fn common(retrieved: Seq<u32>, truth: Seq<u32>) -> Seq<u32> {
    retrieved.filter(|x: u32| truth.contains(x))
}

/// Number of entries of `retrieved` that occur in `truth`.
pub open spec fn hits_in(retrieved: Seq<u32>, truth: Seq<u32>) -> nat {
    common(retrieved, truth).len()
}

/// The bits of the share of true neighbours that were found; where there are none, recall is
/// complete.
pub open spec fn recall_of(hits: nat, total: nat) -> u32 {
    if total == 0 {
        float_order::ONE
    } else {
        single::ratio_bits(hits, total)
    }
}

proof fn hits_once(retrieved: Seq<u32>, truth: Seq<u32>)
    requires
        retrieved.no_duplicates(),
    ensures
        common(retrieved, truth).no_duplicates(),
        forall|x: u32| #[trigger]
            common(retrieved, truth).contains(x) <==> retrieved.contains(x)
                && truth.contains(x),
    decreases retrieved.len(),
{
    reveal(Seq::filter);
    if retrieved.len() > 0 {
        let front = retrieved.drop_last();
        let last = retrieved.last();
        assert(front.no_duplicates());
        hits_once(front, truth);
        let before = common(front, truth);
        let hits = common(retrieved, truth);
        assert(!front.contains(last)) by {
            if front.contains(last) {
                let i = choose|i: int| 0 <= i < front.len() && front[i] == last;
                assert(retrieved[i] == retrieved[retrieved.len() - 1]);
            }
        }
        assert(!before.contains(last));
        assert forall|x: u32| #[trigger] hits.contains(x) <==> retrieved.contains(x)
            && truth.contains(x) by {
            if retrieved.contains(x) && x != last {
                let i = choose|i: int| 0 <= i < retrieved.len() && retrieved[i] == x;
                assert(front[i] == x);
            }
            if front.contains(x) {
                let i = choose|i: int| 0 <= i < front.len() && front[i] == x;
                assert(retrieved[i] == x);
            }
            if truth.contains(last) {
                assert(hits == before.push(last));
                assert(hits[hits.len() - 1] == last);
                if before.contains(x) {
                    let i = choose|i: int| 0 <= i < before.len() && before[i] == x;
                    assert(hits[i] == x);
                }
                if hits.contains(x) && x != last {
                    let i = choose|i: int| 0 <= i < hits.len() && hits[i] == x;
                    assert(before[i] == x);
                }
            }
            if x == last {
                assert(retrieved[retrieved.len() - 1] == x);
            }
        }
    }
}

/// Where nothing is retrieved twice, there are no more hits than true neighbours, and recall
/// lies between nought and one.
pub proof fn recall_is_at_most_one(retrieved: Seq<u32>, truth: Seq<u32>)
    requires
        retrieved.no_duplicates(),
        truth.len() <= usize::MAX,
    ensures
        hits_in(retrieved, truth) <= truth.len(),
        float_order::at_most(0, recall_of(hits_in(retrieved, truth), truth.len())),
        float_order::at_most(recall_of(hits_in(retrieved, truth), truth.len()), float_order::ONE),
{
    let hits = common(retrieved, truth);
    hits_once(retrieved, truth);
    assert forall|x: u32| hits.to_set().contains(x) implies truth.to_set().contains(x) by {
        assert(hits.contains(x));
    }
    hits.unique_seq_to_set();
    truth.lemma_cardinality_of_set();
    vstd::set_lib::lemma_len_subset(hits.to_set(), truth.to_set());
    if truth.len() > 0 {
        single::ratio_grows(0, hits.len() as u64, truth.len() as u64);
    }
}

/// Recall is complete exactly where every true neighbour was retrieved, and nought exactly where
/// there are some and none of them was.
pub proof fn recall_tells_what_is_missing(retrieved: Seq<u32>, truth: Seq<u32>)
    requires
        retrieved.no_duplicates(),
        truth.no_duplicates(),
        truth.len() < 0x100_0000,
    ensures
        recall_of(hits_in(retrieved, truth), truth.len()) == float_order::ONE <==> forall|x: u32|
            #[trigger] truth.contains(x) ==> retrieved.contains(x),
        recall_of(hits_in(retrieved, truth), truth.len()) == 0 <==> truth.len() > 0 && forall|x: u32|
            #[trigger] truth.contains(x) ==> !retrieved.contains(x),
{
    let hits = common(retrieved, truth);
    let total = truth.len();
    hits_once(retrieved, truth);
    recall_is_at_most_one(retrieved, truth);
    hits.unique_seq_to_set();
    truth.unique_seq_to_set();
    assert forall|x: u32| hits.to_set().contains(x) implies truth.to_set().contains(x) by {
        assert(hits.contains(x));
    }
    if total > 0 {
        single::ratio_grows(0, hits.len() as u64, total as u64);
        if hits.len() < total {
            single::partial_share_is_below_one(hits.len(), total);
        } else {
            vstd::set_lib::lemma_subset_equality(hits.to_set(), truth.to_set());
            assert forall|x: u32| #[trigger] truth.contains(x) implies retrieved.contains(x) by {
                assert(hits.to_set().contains(x));
            }
        }
        if forall|x: u32| #[trigger] truth.contains(x) ==> retrieved.contains(x) {
            assert(hits.to_set() =~= truth.to_set());
        }
        if hits.len() > 0 {
            assert(hits.contains(hits[0]));
            single::positive_share(hits.len(), total);
        } else {
            assert forall|x: u32| #[trigger] truth.contains(x) implies !retrieved.contains(x) by {
                assert(!hits.contains(x));
            }
        }
    } else {
        assert forall|x: u32| #[trigger] truth.contains(x) implies retrieved.contains(x) by {}
    }
}

/// The same of distinct ids: recall is complete exactly where all that is wanted was found.
pub proof fn set_recall_tells_what_is_missing(wanted: Set<u32>, found: Set<u32>)
    requires
        wanted.finite(),
        wanted.len() < 0x100_0000,
    ensures
        recall_of(wanted.intersect(found).len(), wanted.len()) == float_order::ONE
            <==> wanted.subset_of(found),
        recall_of(wanted.intersect(found).len(), wanted.len()) == 0 <==> wanted.len() > 0
            && wanted.disjoint(found),
{
    let both = wanted.intersect(found);
    let total = wanted.len();
    vstd::set_lib::lemma_len_subset(both, wanted);
    if total > 0 {
        single::ratio_grows(0, both.len() as u64, total as u64);
        if both.len() < total {
            single::partial_share_is_below_one(both.len(), total);
            if wanted.subset_of(found) {
                assert(both =~= wanted);
            }
        } else {
            vstd::set_lib::lemma_subset_equality(both, wanted);
            assert forall|x: u32| wanted.contains(x) implies found.contains(x) by {
                assert(both.contains(x));
            }
        }
        if both.len() > 0 {
            single::positive_share(both.len(), total);
            let x = both.choose();
            assert(both.contains(x));
        } else {
            assert forall|x: u32| wanted.contains(x) implies !found.contains(x) by {
                assert(!both.contains(x));
            }
        }
    } else {
        assert(wanted =~= Set::<u32>::empty());
    }
}

/// Recall grows with the hits.
pub proof fn recall_grows(fewer: nat, more: nat, total: nat)
    requires
        fewer <= more <= usize::MAX,
        total <= usize::MAX,
    ensures
        float_order::at_most(recall_of(fewer, total), recall_of(more, total)),
{
    if total > 0 {
        single::ratio_grows(fewer as u64, more as u64, total as u64);
    }
}

/// Whoever retrieves all hits of another has at least as many.
pub proof fn more_hits(fewer: Seq<u32>, more: Seq<u32>, truth: Seq<u32>)
    requires
        fewer.no_duplicates(),
        more.no_duplicates(),
        forall|x: u32| #[trigger] fewer.contains(x) && truth.contains(x) ==> more.contains(x),
    ensures
        hits_in(fewer, truth) <= hits_in(more, truth),
{
    let a = common(fewer, truth);
    let b = common(more, truth);
    hits_once(fewer, truth);
    hits_once(more, truth);
    assert forall|x: u32| a.to_set().contains(x) implies b.to_set().contains(x) by {
        assert(a.contains(x));
        assert(fewer.contains(x) && truth.contains(x));
        assert(b.contains(x));
    }
    a.unique_seq_to_set();
    b.unique_seq_to_set();
    vstd::set_lib::lemma_len_subset(a.to_set(), b.to_set());
}

/// The bits of `hits` over `total`, or of one where the total is nought.
pub fn share(hits: usize, total: usize) -> (recall: u32)
    ensures
        recall == recall_of(hits as nat, total as nat),
{
    if total == 0 {
        float_order::ONE
    } else {
        single::ratio(hits, total)
    }
}

/// The bits of the number of entries of `retrieved` that occur in `ground_truth` over the
/// number of true neighbours, or of one where there are none.
pub fn recall_at_k(retrieved: &[u32], ground_truth: &[u32]) -> (recall: u32)
    ensures
        recall == recall_of(hits_in(retrieved@, ground_truth@), ground_truth@.len()),
{
    let hits = count_hits(retrieved, ground_truth);
    share(hits, ground_truth.len())
}

/// Counts the entries of `retrieved` that occur in `ground_truth`.
pub fn count_hits(retrieved: &[u32], ground_truth: &[u32]) -> (hits: usize)
    ensures
        hits == hits_in(retrieved@, ground_truth@),
        hits <= retrieved@.len(),
{
    let ghost in_truth = |x: u32| ground_truth@.contains(x);
    let mut hits: usize = 0;
    let mut i: usize = 0;
    assert(retrieved@.take(0).filter(in_truth) =~= Seq::<u32>::empty()) by {
        reveal(Seq::filter);
    }
    while i < retrieved.len()
        invariant
            i <= retrieved@.len(),
            in_truth == (|x: u32| ground_truth@.contains(x)),
            hits == retrieved@.take(i as int).filter(in_truth).len(),
            hits <= i,
        decreases retrieved@.len() - i,
    {
        let x: u32 = retrieved[i];
        let found = occurs(ground_truth, x);
        proof {
            assert(retrieved@.take(i + 1) =~= retrieved@.take(i as int).push(x));
            retrieved@.take(i as int).lemma_filter_len_push(in_truth, x);
        }
        if found {
            hits += 1;
        }
        i += 1;
    }
    assert(retrieved@.take(i as int) =~= retrieved@);
    hits
}

fn occurs(list: &[u32], x: u32) -> (r: bool)
    ensures
        r == list@.contains(x),
{
    let mut i: usize = 0;
    while i < list.len()
        invariant
            i <= list@.len(),
            forall|j: int| 0 <= j < i ==> list@[j] != x,
        decreases list@.len() - i,
    {
        if list[i] == x {
            assert(list@[i as int] == x);
            return true;
        }
        i += 1;
    }
    false
}

/// The order of latency samples.
pub open spec fn ascending() -> spec_fn(u64, u64) -> bool {
    |a: u64, b: u64| a <= b
}

/// The sum of all samples.
pub open spec fn sum_of(samples: Seq<u64>) -> nat
    decreases samples.len(),
{
    if samples.len() == 0 {
        0
    } else {
        sum_of(samples.drop_last()) + samples.last() as nat
    }
}

/// Latency samples in nanoseconds.
pub struct LatencyStats {
    samples: Vec<u64>,
}

impl Default for LatencyStats {
    fn default() -> (stats: Self)
        ensures
            stats@ == Seq::<u64>::empty(),
    {
        LatencyStats { samples: Vec::new() }
    }
}

impl View for LatencyStats {
    type V = Seq<u64>;

    closed spec fn view(&self) -> Seq<u64> {
        self.samples@
    }
}

impl LatencyStats {
    /// Adds a sample.
    pub fn push(&mut self, nanos: u64)
        ensures
            final(self)@ == old(self)@.push(nanos),
    {
        self.samples.push(nanos);
    }

    /// Number of samples.
    pub fn count(&self) -> (n: usize)
        ensures
            n == self@.len(),
    {
        self.samples.len()
    }

    /// Sum of the samples, from which the mean is taken.
    pub fn total_ns(&self) -> (total: u64)
        requires
            sum_of(self@) <= u64::MAX,
        ensures
            total == sum_of(self@),
    {
        let mut total: u64 = 0;
        let mut i: usize = 0;
        assert(self@.take(0).len() == 0);
        while i < self.samples.len()
            invariant
                i <= self.samples@.len(),
                sum_of(self.samples@) <= u64::MAX,
                total == sum_of(self.samples@.take(i as int)),
            decreases self.samples@.len() - i,
        {
            proof {
                let next = self.samples@.take(i + 1);
                assert(next.drop_last() =~= self.samples@.take(i as int));
                sum_of_prefix(self.samples@, i + 1);
            }
            total = total + self.samples[i];
            i += 1;
        }
        assert(self.samples@.take(i as int) =~= self.samples@);
        total
    }

    /// The sample at or above `pct` percent of the samples; `None` where there is none.
    pub fn percentile_ns(&self, pct: usize) -> (sample: Option<u64>)
        requires
            pct * self@.len() <= usize::MAX,
        ensures
            sample is None <==> self@.len() == 0,
            sample matches Some(x) ==> {
                let sorted = self@.sort_by(ascending());
                let at = pct * self@.len() / 100;
                x == (if at < self@.len() {
                    sorted[at]
                } else {
                    sorted[self@.len() - 1]
                })
            },
    {
        if self.samples.len() == 0 {
            return None;
        }
        let mut sorted: Vec<u64> = Vec::new();
        let mut i: usize = 0;
        proof {
            assert(self.samples@.take(0) =~= sorted@);
        }
        while i < self.samples.len()
            invariant
                i <= self.samples@.len(),
                vstd::relations::sorted_by(sorted@, ascending()),
                sorted@.to_multiset() == self.samples@.take(i as int).to_multiset(),
            decreases self.samples@.len() - i,
        {
            proof {
                broadcast use vstd::seq_lib::group_to_multiset_ensures;

                assert(self.samples@.take(i + 1) =~= self.samples@.take(i as int).push(
                    self.samples@[i as int],
                ));
            }
            insert_ascending(&mut sorted, self.samples[i]);
            i += 1;
        }
        proof {
            broadcast use vstd::seq_lib::group_to_multiset_ensures;

            assert(self.samples@.take(i as int) =~= self.samples@);
            assert(sorted@.len() == sorted@.to_multiset().len());
            assert(self@.len() == self@.to_multiset().len());
            assert(vstd::relations::total_ordering(ascending()));
            self.samples@.lemma_sort_by_ensures(ascending());
            vstd::seq_lib::lemma_sorted_unique(sorted@, self@.sort_by(ascending()), ascending());
        }
        let at: usize = (pct * self.samples.len()) / 100;
        if at < sorted.len() {
            Some(sorted[at])
        } else {
            Some(sorted[sorted.len() - 1])
        }
    }
}

fn insert_ascending(list: &mut Vec<u64>, x: u64)
    requires
        vstd::relations::sorted_by(old(list)@, ascending()),
    ensures
        vstd::relations::sorted_by(final(list)@, ascending()),
        final(list)@.to_multiset() == old(list)@.to_multiset().insert(x),
{
    let ghost before = list@;
    let mut low: usize = 0;
    let mut high: usize = list.len();
    while low < high
        invariant
            low <= high <= list@.len(),
            list@ == before,
            vstd::relations::sorted_by(before, ascending()),
            forall|i: int| 0 <= i < low ==> before[i] <= x,
            forall|i: int| high <= i < before.len() ==> before[i] > x,
        decreases high - low,
    {
        let mid: usize = low + (high - low) / 2;
        if list[mid] <= x {
            assert forall|i: int| 0 <= i <= mid implies before[i] <= x by {
                if i < mid {
                    assert(ascending()(before[i], before[mid as int]));
                }
            }
            low = mid + 1;
        } else {
            assert forall|i: int| mid <= i < before.len() implies before[i] > x by {
                if i > mid {
                    assert(ascending()(before[mid as int], before[i]));
                }
            }
            high = mid;
        }
    }
    list.insert(low, x);
    proof {
        broadcast use vstd::seq_lib::group_to_multiset_ensures;

        let after = list@;
        assert(after =~= before.insert(low as int, x));
        assert forall|i: int, j: int| 0 <= i < j < after.len() implies #[trigger] ascending()(
            after[i],
            after[j],
        ) by {
            let bi = if i < low { i } else { i - 1 };
            let bj = if j < low { j } else { j - 1 };
            if i != low && j != low {
                assert(ascending()(before[bi], before[bj]));
            }
        }
        assert(after.to_multiset() =~= before.to_multiset().insert(x));
    }
}

proof fn sum_of_prefix(samples: Seq<u64>, i: int)
    requires
        0 <= i <= samples.len(),
    ensures
        sum_of(samples.take(i)) <= sum_of(samples),
    decreases samples.len(),
{
    if i < samples.len() {
        assert(samples.drop_last().take(i) =~= samples.take(i));
        sum_of_prefix(samples.drop_last(), i);
    } else {
        assert(samples.take(i) =~= samples);
    }
}

/// Bytes taken by `n` vectors of single-precision numbers and their neighbour lists.
pub fn memory_estimate_bytes(n: usize, dims: usize, avg_neighbors: usize) -> (bytes: usize)
    requires
        n * dims * 4 + n * avg_neighbors * 4 <= usize::MAX,
    ensures
        bytes == n * dims * 4 + n * avg_neighbors * 4,
{
    assert(0 <= n * dims) by (nonlinear_arith);
    assert(0 <= n * avg_neighbors) by (nonlinear_arith);
    let vector_bytes: usize = n * dims * 4;
    let adj_bytes: usize = n * avg_neighbors * 4;
    vector_bytes + adj_bytes
}

} // verus!
