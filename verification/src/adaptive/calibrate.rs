//! Measuring recall by beam width, and choosing a width for a target.
use crate::adaptive::graph::FlatGraph;
use crate::adaptive::metrics;
use crate::adaptive::search;
use crate::float_order;
use crate::knn;
use crate::metric::Metric;
use crate::ranking;
use vstd::prelude::*;

verus! {

/// A beam width and the mean recall measured with it.
#[derive(Clone, Copy, Debug, PartialEq, Eq, Structural)]
pub struct CalibrationEntry {
    /// The beam width.
    pub ef: usize,
    /// The bits of the mean recall, or of a higher one measured with a narrower beam.
    pub recall: u32,
}

/// Mean recall by beam width.
#[derive(Debug)]
pub struct CalibrationTable {
    /// Widths and recalls, narrowest beam first.
    pub entries: Vec<CalibrationEntry>,
    /// The width used where no measured one reaches the target.
    pub max_ef: usize,
    /// Number of results that the table was measured for.
    pub k: usize,
}

/// The highest of nought and the first `n` recalls.
pub open spec fn running_best(means: Seq<u32>, n: nat) -> u32
    decreases n,
{
    if n == 0 {
        0
    } else {
        float_order::larger(running_best(means, (n - 1) as nat), means[n - 1])
    }
}

/// The first width that has the recall and is at least `k`.
pub open spec fn first_reaching(entries: Seq<CalibrationEntry>, target: u32, k: usize, fallback: usize) -> usize
    decreases entries.len(),
{
    if entries.len() == 0 {
        fallback
    } else if float_order::at_most(target, entries[0].recall) && entries[0].ef >= k {
        entries[0].ef
    } else {
        first_reaching(entries.drop_first(), target, k, fallback)
    }
}

/// Best recall so far is a number and never falls.
pub proof fn running_best_grows(means: Seq<u32>, a: nat, b: nat)
    requires
        a <= b,
    ensures
        float_order::at_most(running_best(means, a), running_best(means, b)),
        float_order::at_most(0, running_best(means, a)),
    decreases b,
{
    if a < b {
        running_best_grows(means, a, (b - 1) as nat);
    } else if a > 0 {
        running_best_grows(means, (a - 1) as nat, (a - 1) as nat);
    }
}

impl View for CalibrationTable {
    type V = Seq<CalibrationEntry>;

    open spec fn view(&self) -> Seq<CalibrationEntry> {
        self.entries@
    }
}

impl CalibrationTable {
    /// The width that the table has for a target.
    pub open spec fn chosen(&self, recall_target: u32) -> usize {
        first_reaching(
            self@,
            float_order::clamped(recall_target, 0, float_order::ONE),
            self.k,
            search::wider(self.max_ef, self.k),
        )
    }

    /// The table lists these widths with the mean recalls measured with them: no width is
    /// less than `k`, and no recall less than that of a narrower beam.
    pub open spec fn lists(&self, k: usize, widths: Seq<usize>, means: Seq<u32>) -> bool {
        &&& self.k == k
        &&& self@.len() == widths.len()
        &&& forall|i: int|
            0 <= i < widths.len() ==> (#[trigger] self@[i]).ef == search::wider(widths[i], k)
                && self@[i].recall == running_best(means, (i + 1) as nat)
        &&& self.max_ef == (if widths.len() == 0 {
            64
        } else {
            search::wider(widths.last(), k)
        })
    }

    /// The table of the mean recalls measured with these widths.
    pub fn from_means(k: usize, widths: &[usize], means: &[u32]) -> (table: Self)
        requires
            widths@.len() == means@.len(),
        ensures
            table.lists(k, widths@, means@),
    {
        let mut entries: Vec<CalibrationEntry> = Vec::new();
        let mut running: u32 = 0;
        let mut i: usize = 0;
        while i < widths.len()
            invariant
                i <= widths@.len(),
                widths@.len() == means@.len(),
                entries@.len() == i,
                running == running_best(means@, i as nat),
                forall|j: int|
                    0 <= j < i ==> (#[trigger] entries@[j]).ef == search::wider(widths@[j], k)
                        && entries@[j].recall == running_best(means@, (j + 1) as nat),
            decreases widths@.len() - i,
        {
            let ef: usize = if widths[i] < k {
                k
            } else {
                widths[i]
            };
            running = float_order::max(running, means[i]);
            entries.push(CalibrationEntry { ef, recall: running });
            i += 1;
        }
        let max_ef: usize = if entries.len() == 0 {
            64
        } else {
            entries[entries.len() - 1].ef
        };
        CalibrationTable { entries, max_ef, k }
    }

    /// The narrowest measured beam whose recall reaches the target, for searches of size `k`.
    pub fn min_ef_for_target(&self, recall_target: u32, k: usize) -> (ef: usize)
        requires
            k == self.k,
        ensures
            ef == self.chosen(recall_target),
            ef >= k,
    {
        let target: u32 = float_order::clamp(recall_target, 0, float_order::ONE);
        let ghost fallback = search::wider(self.max_ef, self.k);
        let mut i: usize = 0;
        assert(self.entries@.skip(0) =~= self.entries@);
        while i < self.entries.len()
            invariant
                k == self.k,
                i <= self.entries@.len(),
                target == float_order::clamped(recall_target, 0, float_order::ONE),
                fallback == search::wider(self.max_ef, self.k),
                self.chosen(recall_target) == first_reaching(
                    self.entries@.skip(i as int),
                    target,
                    k,
                    fallback,
                ),
            decreases self.entries@.len() - i,
        {
            let entry = self.entries[i];
            if float_order::less_or_equal(target, entry.recall) && entry.ef >= k {
                return entry.ef;
            }
            assert(self.entries@.skip(i as int).drop_first() =~= self.entries@.skip(i + 1));
            i += 1;
        }
        if self.max_ef < k {
            k
        } else {
            self.max_ef
        }
    }

    /// The measured widths and recalls, narrowest beam first.
    pub fn entries(&self) -> (entries: &[CalibrationEntry])
        ensures
            entries@ == self@,
    {
        self.entries.as_slice()
    }

    /// In a table made from measurements the recall never falls from one entry to the next.
    pub proof fn recall_is_monotone(&self, widths: Seq<usize>, means: Seq<u32>, i: int, j: int)
        requires
            self.lists(self.k, widths, means),
            0 <= i <= j < self@.len(),
        ensures
            float_order::at_most(self@[i].recall, self@[j].recall),
    {
        running_best_grows(means, (i + 1) as nat, (j + 1) as nat);
    }

    /// The width chosen is the narrowest at which the recall was measured to reach the target,
    /// with it or with a narrower beam. Where no measurement reaches it, the widest is chosen.
    pub proof fn choice_is_narrowest(&self, widths: Seq<usize>, means: Seq<u32>, recall_target: u32)
        requires
            self.lists(self.k, widths, means),
            widths.len() == means.len(),
            increasing(widths),
            !float_order::not_a_number(recall_target),
        ensures
            ({
                let target = float_order::clamped(recall_target, 0, float_order::ONE);
                let e = self.chosen(recall_target);
                &&& e >= self.k
                &&& forall|i: int|
                    0 <= i < widths.len() && #[trigger] was_reached(means, target, i) ==> e <= (
                    if widths[i] < self.k {
                        self.k
                    } else {
                        widths[i]
                    })
                &&& {
                    ||| exists|i: int|
                        0 <= i < widths.len() && #[trigger] was_reached(means, target, i) && e == (
                        if widths[i] < self.k {
                            self.k
                        } else {
                            widths[i]
                        })
                    ||| {
                        &&& forall|i: int|
                            0 <= i < widths.len() ==> !#[trigger] was_reached(means, target, i)
                        &&& widths.len() > 0 ==> e == (if widths.last() < self.k {
                            self.k
                        } else {
                            widths.last()
                        })
                        &&& widths.len() == 0 ==> e == (if 64 < self.k {
                            self.k
                        } else {
                            64
                        })
                    }
                }
            }),
    {
        let target = float_order::clamped(recall_target, 0, float_order::ONE);
        let fallback = search::wider(self.max_ef, self.k);
        let e = self.chosen(recall_target);
        first_reaching_holds(self@, target, self.k, fallback);
        assert forall|i: int| 0 <= i < widths.len() implies #[trigger] was_reached(
            means,
            target,
            i,
        ) == float_order::at_most(target, self@[i].recall) by {
            best_was_measured(means, target, i + 1);
        }
        assert forall|i: int|
            0 <= i < widths.len() && #[trigger] was_reached(means, target, i) implies e
            <= search::wider(widths[i], self.k) by {
            assert forall|a: int, b: int| 0 <= a < b < self@.len() implies (#[trigger] self@[a]).ef
                <= (#[trigger] self@[b]).ef by {
                assert(widths[a] < widths[b]);
            }
            first_reaching_is_least(self@, target, self.k, fallback, i);
        }
        if exists|i: int|
            0 <= i < self@.len() && (#[trigger] self@[i]).ef == e && e >= self.k
                && float_order::at_most(target, self@[i].recall) {
            let i = choose|i: int|
                0 <= i < self@.len() && (#[trigger] self@[i]).ef == e && e >= self.k
                    && float_order::at_most(target, self@[i].recall);
            assert(was_reached(means, target, i));
        } else {
            assert forall|i: int| 0 <= i < widths.len() implies !#[trigger] was_reached(
                means,
                target,
                i,
            ) by {
                assert(self@[i].ef >= self.k);
            }
        }
    }

    /// The chosen width reaches the target, or no measured width that is wide enough does
    /// and the widest was chosen.
    pub proof fn choice_reaches_target(&self, recall_target: u32)
        ensures
            ({
                let target = float_order::clamped(recall_target, 0, float_order::ONE);
                let e = self.chosen(recall_target);
                ||| exists|i: int|
                    0 <= i < self@.len() && (#[trigger] self@[i]).ef == e && e >= self.k
                        && float_order::at_most(target, self@[i].recall)
                ||| e == search::wider(self.max_ef, self.k) && forall|i: int|
                    0 <= i < self@.len() ==> !(float_order::at_most(target, (#[trigger] self@[i]).recall)
                        && self@[i].ef >= self.k)
            }),
    {
        first_reaching_holds(
            self@,
            float_order::clamped(recall_target, 0, float_order::ONE),
            self.k,
            search::wider(self.max_ef, self.k),
        );
    }
}

proof fn first_reaching_holds(entries: Seq<CalibrationEntry>, target: u32, k: usize, fallback: usize)
    ensures
        ({
            let e = first_reaching(entries, target, k, fallback);
            ||| exists|i: int|
                0 <= i < entries.len() && (#[trigger] entries[i]).ef == e && e >= k
                    && float_order::at_most(target, entries[i].recall)
            ||| e == fallback && forall|i: int|
                0 <= i < entries.len() ==> !(float_order::at_most(target, (#[trigger] entries[i]).recall)
                    && entries[i].ef >= k)
        }),
    decreases entries.len(),
{
    if entries.len() > 0 {
        let x = entries[0];
        if !(float_order::at_most(target, x.recall) && x.ef >= k) {
            let rest = entries.drop_first();
            first_reaching_holds(rest, target, k, fallback);
            let e = first_reaching(rest, target, k, fallback);
            if exists|i: int|
                0 <= i < rest.len() && (#[trigger] rest[i]).ef == e && e >= k
                    && float_order::at_most(target, rest[i].recall) {
                let i = choose|i: int|
                    0 <= i < rest.len() && (#[trigger] rest[i]).ef == e && e >= k
                        && float_order::at_most(target, rest[i].recall);
                assert(entries[i + 1] == rest[i]);
            } else {
                assert forall|i: int| 0 <= i < entries.len() implies !(float_order::at_most(
                    target,
                    (#[trigger] entries[i]).recall,
                ) && entries[i].ef >= k) by {
                    if i > 0 {
                        assert(rest[i - 1] == entries[i]);
                    }
                }
            }
        }
    }
}

/// One of the recalls measured up to width number `i` is at least the target, or the target is
/// nought.
pub open spec fn was_reached(means: Seq<u32>, target: u32, i: int) -> bool {
    float_order::at_most(target, 0) || exists|j: int|
        0 <= j <= i && float_order::at_most(target, #[trigger] means[j])
}

proof fn best_was_measured(means: Seq<u32>, target: u32, n: int)
    requires
        0 <= n <= means.len(),
        !float_order::not_a_number(target),
    ensures
        float_order::at_most(target, running_best(means, n as nat)) <==> was_reached(
            means,
            target,
            n - 1,
        ),
    decreases n,
{
    if n > 0 {
        best_was_measured(means, target, n - 1);
        running_best_grows(means, (n - 1) as nat, n as nat);
        if exists|j: int| 0 <= j <= n - 2 && float_order::at_most(target, #[trigger] means[j]) {
            let j = choose|j: int| 0 <= j <= n - 2 && float_order::at_most(target, #[trigger] means[j]);
            assert(float_order::at_most(target, means[j]));
        }
    }
}

proof fn first_reaching_is_least(
    entries: Seq<CalibrationEntry>,
    target: u32,
    k: usize,
    fallback: usize,
    i: int,
)
    requires
        0 <= i < entries.len(),
        float_order::at_most(target, entries[i].recall),
        entries[i].ef >= k,
        forall|a: int, b: int|
            0 <= a < b < entries.len() ==> (#[trigger] entries[a]).ef <= (#[trigger] entries[b]).ef,
    ensures
        first_reaching(entries, target, k, fallback) <= entries[i].ef,
    decreases entries.len(),
{
    if float_order::at_most(target, entries[0].recall) && entries[0].ef >= k {
        if i > 0 {
            assert(entries[0].ef <= entries[i].ef);
        }
    } else {
        let rest = entries.drop_first();
        assert forall|a: int, b: int| 0 <= a < b < rest.len() implies (#[trigger] rest[a]).ef <= (
        #[trigger] rest[b]).ef by {
            assert(entries[a + 1].ef <= entries[b + 1].ef);
        }
        first_reaching_is_least(rest, target, k, fallback, i - 1);
    }
}

/// Measures recall by beam width with sample queries.
pub struct Calibrator<'g> {
    /// The graph searched.
    pub graph: &'g FlatGraph,
    /// Where searches start.
    pub entry: usize,
    /// Beam widths to try.
    pub ef_candidates: Vec<usize>,
    /// How many of the sample queries to use.
    pub n_sample: usize,
    /// Seed of whoever picks the sample queries.
    pub seed: u64,
}

/// Each element is larger than the one before.
pub open spec fn increasing(list: Seq<usize>) -> bool {
    forall|i: int, j: int| 0 <= i < j < list.len() ==> list[i] < list[j]
}

/// The elements of a list in order, each once.
pub fn sorted_distinct(list: &Vec<usize>) -> (out: Vec<usize>)
    ensures
        increasing(out@),
        forall|x: usize| out@.contains(x) == list@.contains(x),
{
    let mut out: Vec<usize> = Vec::new();
    let mut i: usize = 0;
    while i < list.len()
        invariant
            i <= list@.len(),
            increasing(out@),
            forall|x: usize| out@.contains(x) == list@.take(i as int).contains(x),
        decreases list@.len() - i,
    {
        let x: usize = list[i];
        let ghost before = out@;
        let mut low: usize = 0;
        let mut high: usize = out.len();
        while low < high
            invariant
                low <= high <= out@.len(),
                increasing(out@),
                forall|j: int| 0 <= j < low ==> out@[j] < x,
                forall|j: int| high <= j < out@.len() ==> out@[j] >= x,
            decreases high - low,
        {
            let mid: usize = low + (high - low) / 2;
            if out[mid] < x {
                low = mid + 1;
            } else {
                high = mid;
            }
        }
        proof {
            assert(list@.take(i + 1) =~= list@.take(i as int).push(x));
        }
        if low < out.len() && out[low] == x {
            assert(out@[low as int] == x);
            assert forall|y: usize| out@.contains(y) == list@.take(i + 1).contains(y) by {
                if list@.take(i as int).contains(y) {
                    let a = choose|a: int| 0 <= a < i && list@.take(i as int)[a] == y;
                    assert(list@.take(i + 1)[a] == y);
                }
                assert(list@.take(i + 1)[i as int] == x);
                assert(out@.contains(x));
            }
        } else {
            out.insert(low, x);
            proof {
                assert(out@ =~= before.insert(low as int, x));
                assert forall|y: usize| out@.contains(y) == list@.take(i + 1).contains(y) by {
                    assert(out@[low as int] == x);
                    assert(list@.take(i + 1)[i as int] == x);
                    if before.contains(y) {
                        let a = choose|a: int| 0 <= a < before.len() && before[a] == y;
                        let b = if a < low { a } else { a + 1 };
                        assert(out@[b] == y);
                    }
                    if list@.take(i as int).contains(y) {
                        let a = choose|a: int| 0 <= a < i && list@.take(i as int)[a] == y;
                        assert(list@.take(i + 1)[a] == y);
                    }
                    if out@.contains(y) && y != x {
                        let b = choose|b: int| 0 <= b < out@.len() && out@[b] == y;
                        let a = if b < low { b } else { b - 1 };
                        assert(before[a] == y);
                    }
                    if list@.take(i + 1).contains(y) && y != x {
                        let grown = list@.take(i + 1);
                        let a = choose|a: int| 0 <= a < grown.len() && grown[a] == y;
                        assert(list@.take(i as int)[a] == y);
                    }
                }
            }
        }
        i += 1;
    }
    assert(list@.take(i as int) =~= list@);
    out
}

/// The smallest of three numbers.
pub open spec fn least(a: int, b: int, c: int) -> int {
    if a <= b && a <= c {
        a
    } else if b <= c {
        b
    } else {
        c
    }
}

impl<'g> Calibrator<'g> {
    /// The recall of a beam of width `ef` for sample query `q`.
    pub open spec fn sample_recall<M: Metric>(&self, metric: &M, k: usize, ef: usize, truth: Seq<Vec<u32>>, q: int) -> u32 {
        let found = search::beam_results(self.graph, metric, q as u32, k, ef, self.entry);
        metrics::recall_of(
            metrics::hits_in(ranking::ids_of(found), truth[q]@),
            truth[q]@.len(),
        )
    }

    /// The recalls of a beam of width `ef` for the first `n` sample queries.
    pub open spec fn sample_recalls<M: Metric>(&self, metric: &M, k: usize, ef: usize, truth: Seq<Vec<u32>>, n: nat) -> Seq<u32> {
        Seq::new(n, |q: int| self.sample_recall(metric, k, ef, truth, q))
    }

    /// Whether `mean` is the mean of those recalls as `mean_of` takes it, or nought where
    /// there are none.
    pub open spec fn is_mean<M: Metric, F: Fn(Vec<u32>) -> u32>(
        &self,
        metric: &M,
        k: usize,
        ef: usize,
        truth: Seq<Vec<u32>>,
        n: nat,
        mean_of: &F,
        mean: u32,
    ) -> bool {
        if n == 0 {
            mean == 0
        } else {
            exists|recalls: Vec<u32>|
                recalls@ == self.sample_recalls(metric, k, ef, truth, n) && #[trigger] call_ensures(
                    *mean_of,
                    (recalls,),
                    mean,
                )
        }
    }

    /// Measures the recall of a beam of width `ef` for the first `n` sample queries.
    pub fn probe<M: Metric>(&self, metric: &M, k: usize, ef: usize, sample_gt: &Vec<Vec<u32>>, n: usize) -> (recalls: Vec<u32>)
        requires
            self.graph.wf(),
            n > 0 ==> self.entry < self.graph.n,
            n <= sample_gt@.len(),
            n <= metric.sources(),
            n <= u32::MAX,
            self.graph.n <= metric.targets(),
        ensures
            recalls@ == self.sample_recalls(metric, k, ef, sample_gt@, n as nat),
    {
        let mut recalls: Vec<u32> = Vec::new();
        let mut q: usize = 0;
        while q < n
            invariant
                q <= n <= sample_gt@.len(),
                n <= metric.sources(),
                n <= u32::MAX,
                self.graph.wf(),
                n > 0 ==> self.entry < self.graph.n,
                self.graph.n <= metric.targets(),
                recalls@.len() == q,
                forall|a: int|
                    0 <= a < q ==> #[trigger] recalls@[a] == self.sample_recall(
                        metric,
                        k,
                        ef,
                        sample_gt@,
                        a,
                    ),
            decreases n - q,
        {
            let results = search::beam_search(self.graph, metric, q as u32, k, ef, self.entry);
            let ids = ranking::ids(&results);
            let recall = metrics::recall_at_k(ids.as_slice(), sample_gt[q].as_slice());
            recalls.push(recall);
            q += 1;
        }
        recalls
    }

    /// Sorts the beam widths, drops those that come twice, and measures for each the mean
    /// recall of the sample queries. `metric` measures from the `n_queries` samples to the
    /// nodes, and `mean_of` takes the mean of recalls.
    pub fn calibrate<M: Metric, F: Fn(Vec<u32>) -> u32>(
        &mut self,
        k: usize,
        metric: &M,
        n_queries: usize,
        sample_gt: &Vec<Vec<u32>>,
        mean_of: &F,
    ) -> (table: CalibrationTable)
        requires
            0 < k,
            old(self).graph.wf(),
            n_queries > 0 && sample_gt@.len() > 0 ==> old(self).entry < old(self).graph.n,
            n_queries <= metric.sources(),
            n_queries <= u32::MAX,
            old(self).graph.n <= metric.targets(),
            forall|recalls: Vec<u32>| #[trigger] call_requires(*mean_of, (recalls,)),
        ensures
            final(self).graph == old(self).graph,
            final(self).entry == old(self).entry,
            final(self).n_sample == old(self).n_sample,
            final(self).seed == old(self).seed,
            increasing(final(self).ef_candidates@),
            forall|x: usize|
                final(self).ef_candidates@.contains(x) == old(self).ef_candidates@.contains(x),
            exists|means: Seq<u32>|
                {
                    &&& #[trigger] table.lists(k, final(self).ef_candidates@, means)
                    &&& means.len() == final(self).ef_candidates@.len()
                    &&& forall|i: int|
                        0 <= i < means.len() ==> old(self).is_mean(
                            metric,
                            k,
                            search::wider(final(self).ef_candidates@[i], k),
                            sample_gt@,
                            least(
                                old(self).n_sample as int,
                                n_queries as int,
                                sample_gt@.len() as int,
                            ) as nat,
                            mean_of,
                            #[trigger] means[i],
                        )
                },
    {
        let widths = sorted_distinct(&self.ef_candidates);
        self.ef_candidates = widths;
        let mut n_sample: usize = self.n_sample;
        if n_queries < n_sample {
            n_sample = n_queries;
        }
        if sample_gt.len() < n_sample {
            n_sample = sample_gt.len();
        }
        let mut means: Vec<u32> = Vec::new();
        let mut i: usize = 0;
        while i < self.ef_candidates.len()
            invariant
                i <= self.ef_candidates@.len(),
                self.graph == old(self).graph,
                self.entry == old(self).entry,
                self.graph.wf(),
                n_sample > 0 ==> self.entry < self.graph.n,
                n_sample <= n_queries <= metric.sources(),
                n_queries <= u32::MAX,
                n_sample <= sample_gt@.len(),
                self.graph.n <= metric.targets(),
                forall|recalls: Vec<u32>| #[trigger] call_requires(*mean_of, (recalls,)),
                means@.len() == i,
                forall|a: int|
                    0 <= a < i ==> old(self).is_mean(
                        metric,
                        k,
                        search::wider(self.ef_candidates@[a], k),
                        sample_gt@,
                        n_sample as nat,
                        mean_of,
                        #[trigger] means@[a],
                    ),
            decreases self.ef_candidates@.len() - i,
        {
            let ef: usize = if self.ef_candidates[i] < k {
                k
            } else {
                self.ef_candidates[i]
            };
            let recalls = self.probe(metric, k, ef, sample_gt, n_sample);
            let ghost measured = recalls;
            let mean: u32 = if n_sample > 0 {
                mean_of(recalls)
            } else {
                0
            };
            proof {
                assert(self.sample_recalls(metric, k, ef, sample_gt@, n_sample as nat)
                    =~= old(self).sample_recalls(metric, k, ef, sample_gt@, n_sample as nat));
                assert(n_sample > 0 ==> call_ensures(*mean_of, (measured,), mean));
            }
            means.push(mean);
            i += 1;
        }
        let table = CalibrationTable::from_means(
            k,
            self.ef_candidates.as_slice(),
            means.as_slice(),
        );
        assert(table.lists(k, self.ef_candidates@, means@));
        table
    }

    /// The first vectors of the graph as sample queries, with their true `k` neighbours.
    /// `metric` measures between the nodes.
    pub fn build_ground_truth<M: Metric>(&self, metric: &M, k: usize, n_sample: usize) -> (r: (
        Vec<u32>,
        Vec<Vec<u32>>,
    ))
        requires
            self.graph.wf(),
            self.graph.n <= metric.sources(),
            self.graph.n <= metric.targets(),
        ensures
            ({
                let n = if n_sample < self.graph.n {
                    n_sample
                } else {
                    self.graph.n
                };
                &&& r.0@ == self.graph.vectors@.take(n * self.graph.config.dims)
                &&& r.1@.len() == n
                &&& forall|q: int|
                    0 <= q < n ==> (#[trigger] r.1@[q])@ == ranking::ids_of(
                        knn::nearest(metric, q, self.graph.n as nat, k as nat),
                    )
            }),
    {
        let n: usize = if n_sample < self.graph.n {
            n_sample
        } else {
            self.graph.n
        };
        let dims: usize = self.graph.config.dims;
        proof {
            assert(0 <= n * dims <= self.graph.n * dims) by (nonlinear_arith)
                requires
                    n <= self.graph.n,
            ;
        }
        let stored: usize = self.graph.vectors.len();
        let front = vstd::slice::slice_subrange(self.graph.vectors.as_slice(), 0, n * dims);
        let queries = vstd::slice::slice_to_vec(front);
        assert(queries@ =~= self.graph.vectors@.take(n * dims));
        let truth = knn::ground_truth(metric, n, self.graph.n, k);
        (queries, truth)
    }
}

} // verus!
