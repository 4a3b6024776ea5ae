//! Two searches on the graph: with a growing budget, and with a fixed one.
use crate::metric::Metric;
use crate::rag::corpus;
use crate::recall_bounded::graph;
use crate::recall_bounded::graph::ProximityIndex;
use crate::recall_bounded::scan::Entry;
use crate::recall_bounded::scan::Hit;
use vstd::arithmetic::power2::pow2;
use vstd::prelude::*;

verus! {

/// The ids of some hits.
pub open spec fn hit_ids(hits: Seq<Hit>) -> Set<u32> {
    Set::new(|id: u32| exists|i: int| 0 <= i < hits.len() && (#[trigger] hits[i]).id == id)
}

/// Whether two lists of hits name the same entries.
pub fn same_ids(a: &Vec<Hit>, b: &Vec<Hit>) -> (r: bool)
    ensures
        r == (hit_ids(a@) == hit_ids(b@)),
{
    let r = all_named(a, b) && all_named(b, a);
    proof {
        if r {
            assert(hit_ids(a@) =~= hit_ids(b@));
        }
    }
    r
}

fn all_named(a: &Vec<Hit>, b: &Vec<Hit>) -> (r: bool)
    ensures
        r == hit_ids(a@).subset_of(hit_ids(b@)),
{
    let mut i: usize = 0;
    while i < a.len()
        invariant
            i <= a@.len(),
            forall|j: int| 0 <= j < i ==> hit_ids(b@).contains((#[trigger] a@[j]).id),
        decreases a@.len() - i,
    {
        let mut j: usize = 0;
        while j < b.len() && b[j].id != a[i].id
            invariant
                i < a@.len(),
                j <= b@.len(),
                forall|k: int| 0 <= k < j ==> (#[trigger] b@[k]).id != a@[i as int].id,
            decreases b@.len() - j,
        {
            j += 1;
        }
        if j == b.len() {
            assert(hit_ids(a@).contains(a@[i as int].id));
            assert(!hit_ids(b@).contains(a@[i as int].id));
            return false;
        }
        assert(b@[j as int].id == a@[i as int].id);
        i += 1;
    }
    true
}

/// Whether a hit has this id.
pub open spec fn names(hits: Seq<Hit>, id: u32) -> bool {
    exists|i: int| 0 <= i < hits.len() && (#[trigger] hits[i]).id == id
}

/// Each hit of either list has one with the same id in the other.
pub open spec fn names_same(a: Seq<Hit>, b: Seq<Hit>) -> bool {
    &&& forall|i: int| 0 <= i < a.len() ==> names(b, (#[trigger] a[i]).id)
    &&& forall|i: int| 0 <= i < b.len() ==> names(a, (#[trigger] b[i]).id)
}

proof fn same_names_same_ids(a: Seq<Hit>, b: Seq<Hit>)
    ensures
        names_same(a, b) <==> hit_ids(a) == hit_ids(b),
{
    if hit_ids(a) == hit_ids(b) {
        assert forall|i: int| 0 <= i < a.len() implies names(b, (#[trigger] a[i]).id) by {
            assert(hit_ids(a).contains(a[i].id));
        }
        assert forall|i: int| 0 <= i < b.len() implies names(a, (#[trigger] b[i]).id) by {
            assert(hit_ids(b).contains(b[i].id));
        }
    }
    if names_same(a, b) {
        assert(hit_ids(a) =~= hit_ids(b));
    }
}

/// Walk of the graph whose budget doubles until the entries found no longer change.
pub struct HnswBeamSearch {
    index: ProximityIndex,
    ef_search_base: usize,
    ef_search_max: usize,
}

impl HnswBeamSearch {
    /// The entries and the graph.
    pub closed spec fn index(&self) -> ProximityIndex {
        self.index
    }

    /// The first budget.
    pub closed spec fn base(&self) -> usize {
        self.ef_search_base
    }

    /// The last budget.
    pub closed spec fn most(&self) -> usize {
        self.ef_search_max
    }

    /// The graph is sound and there is a budget.
    pub open spec fn wf(&self) -> bool {
        self.index().wf() && 0 < self.base() <= self.most()
    }

    /// No entries; new ones will be linked to `m` others, and the budget starts at
    /// `ef_search_base` and goes up to eight times that.
    pub fn new(m: usize, ef_search_base: usize) -> (search: Self)
        requires
            0 < m,
            2 * m < usize::MAX,
            0 < ef_search_base,
            ef_search_base * 8 <= usize::MAX,
        ensures
            search.wf(),
            search.index().entries().len() == 0,
            search.index().degree() == m,
            search.base() == ef_search_base,
            search.most() == 8 * ef_search_base,
    {
        HnswBeamSearch {
            index: ProximityIndex::new(m),
            ef_search_base,
            ef_search_max: ef_search_base * 8,
        }
    }

    /// Adds an entry. `metric` measures the similarity between entries, the new one last.
    pub fn insert<M: Metric>(&mut self, entry: Entry, metric: &M)
        requires
            old(self).wf(),
            old(self).index().entries().len() < u32::MAX,
            old(self).index().entries().len() > 0 ==> entry.vec@.len() == old(
                self,
            ).index().entries()[0].vec@.len(),
            old(self).index().entries().len() < metric.sources(),
            old(self).index().entries().len() < metric.targets(),
        ensures
            final(self).wf(),
            final(self).base() == old(self).base(),
            final(self).most() == old(self).most(),
            final(self).index().degree() == old(self).index().degree(),
            final(self).index().entries() == old(self).index().entries().push(entry),
            final(self).index().links() == graph::grown(
                old(self).index().links(),
                metric,
                old(self).index().degree(),
            ),
    {
        self.index.insert(entry, metric);
    }

    /// The hits of a walk with this budget.
    pub open spec fn hits_at<M: Metric>(&self, metric: &M, query: int, threshold: u32, ef: int) -> Seq<
        Hit,
    > {
        graph::found(
            self.index().entries(),
            self.index().links(),
            metric,
            query,
            threshold,
            ef as nat,
        )
    }

    /// The budget at which the search ends: the last one, or the first at which the same
    /// entries are found as with the budget before.
    pub open spec fn settled<M: Metric>(
        &self,
        metric: &M,
        query: int,
        threshold: u32,
        previous: Option<int>,
        ef: int,
    ) -> int
        decreases self.most() - ef,
    {
        let same = previous matches Some(p) && hit_ids(
            self.hits_at(metric, query, threshold, p),
        ) == hit_ids(self.hits_at(metric, query, threshold, ef));
        if ef <= 0 || ef >= self.most() || same {
            ef
        } else {
            self.settled(
                metric,
                query,
                threshold,
                Some(ef),
                if 2 * ef < self.most() {
                    2 * ef
                } else {
                    self.most() as int
                },
            )
        }
    }

    /// The budget of round `j`, the first being round nought: the first budget doubled that
    /// often, but no more than the last budget.
    pub open spec fn budget_of(&self, j: nat) -> int {
        if self.base() * pow2(j) < self.most() {
            self.base() * pow2(j)
        } else {
            self.most() as int
        }
    }

    proof fn settles_from<M: Metric>(
        &self,
        metric: &M,
        query: int,
        threshold: u32,
        previous: Option<int>,
        j: nat,
    ) -> (last: nat)
        requires
            self.wf(),
            previous == (if j == 0 {
                None::<int>
            } else {
                Some(self.budget_of((j - 1) as nat))
            }),
        ensures
            j <= last,
            self.settled(metric, query, threshold, previous, self.budget_of(j)) == self.budget_of(
                last,
            ),
            self.budget_of(last) == self.most() || (last > 0 && names_same(
                self.hits_at(metric, query, threshold, self.budget_of((last - 1) as nat)),
                self.hits_at(metric, query, threshold, self.budget_of(last)),
            )),
            forall|i: nat|
                j <= i < last ==> self.budget_of(i) < self.most() && (i > 0 ==> !names_same(
                    self.hits_at(metric, query, threshold, self.budget_of((i - 1) as nat)),
                    self.hits_at(metric, query, threshold, #[trigger] self.budget_of(i)),
                )),
        decreases self.most() - self.budget_of(j),
    {
        let ef = self.budget_of(j);
        let here = self.hits_at(metric, query, threshold, ef);
        let b = self.base() as int;
        vstd::arithmetic::power2::lemma_pow2_pos(j);
        vstd::arithmetic::power2::lemma_pow2_unfold(j + 1);
        let p = pow2(j) as int;
        assert(b * p >= b && b * (2 * p) == 2 * (b * p)) by (nonlinear_arith)
            requires
                b > 0,
                p >= 1,
        ;
        if j > 0 {
            same_names_same_ids(
                self.hits_at(metric, query, threshold, self.budget_of((j - 1) as nat)),
                here,
            );
        }
        let same = previous matches Some(q) && hit_ids(
            self.hits_at(metric, query, threshold, q),
        ) == hit_ids(here);
        if ef >= self.most() || same {
            j
        } else {
            assert(self.budget_of(j + 1) == (if 2 * ef < self.most() {
                2 * ef
            } else {
                self.most() as int
            }));
            self.settles_from(metric, query, threshold, Some(ef), j + 1)
        }
    }

    /// The budget doubles, up to the last one, until a round finds the entries that the round
    /// before it found: the search ends in such a round or with the last budget, and in every
    /// earlier round the entries found had changed.
    pub proof fn search_ends_when_nothing_changes<M: Metric>(
        &self,
        metric: &M,
        query: int,
        threshold: u32,
        hits: Seq<Hit>,
    )
        requires
            self.wf(),
            hits == self.hits_at(
                metric,
                query,
                threshold,
                self.settled(metric, query, threshold, None, self.base() as int),
            ),
        ensures
            exists|last: nat|
                {
                    &&& hits == graph::found(
                        self.index().entries(),
                        self.index().links(),
                        metric,
                        query,
                        threshold,
                        #[trigger] self.budget_of(last) as nat,
                    )
                    &&& self.budget_of(last) == self.most() || (last > 0 && names_same(
                        graph::found(
                            self.index().entries(),
                            self.index().links(),
                            metric,
                            query,
                            threshold,
                            self.budget_of((last - 1) as nat) as nat,
                        ),
                        hits,
                    ))
                    &&& forall|i: nat|
                        i < last ==> #[trigger] self.budget_of(i) < self.most() && (i > 0
                            ==> !names_same(
                            graph::found(
                                self.index().entries(),
                                self.index().links(),
                                metric,
                                query,
                                threshold,
                                self.budget_of((i - 1) as nat) as nat,
                            ),
                            graph::found(
                                self.index().entries(),
                                self.index().links(),
                                metric,
                                query,
                                threshold,
                                self.budget_of(i) as nat,
                            ),
                        ))
                },
    {
        vstd::arithmetic::power2::lemma2_to64();
        let b = self.base() as int;
        assert(b * 1 == b) by (nonlinear_arith);
        assert(self.budget_of(0) == self.base());
        let last = self.settles_from(metric, query, threshold, None, 0);
        assert(self.budget_of(last) <= self.most());
    }

    /// Entries whose similarity to a query reaches the threshold, most similar first.
    pub fn search<M: Metric>(&self, metric: &M, query: u32, threshold: u32) -> (hits: Vec<Hit>)
        requires
            self.wf(),
            corpus::is_cosine(threshold),
            self.index().entries().len() > 0 ==> query < metric.sources()
                && self.index().entries().len() <= metric.targets(),
        ensures
            self.index().entries().len() == 0 ==> hits@.len() == 0,
            self.index().entries().len() > 0 ==> hits@ == self.hits_at(
                metric,
                query as int,
                threshold,
                self.settled(metric, query as int, threshold, None, self.base() as int),
            ),
    {
        if self.index.len() == 0 {
            return Vec::new();
        }
        let most: usize = self.ef_search_max;
        let mut ef: usize = self.ef_search_base;
        let mut hits = self.index.walk(metric, query, threshold, ef);
        let ghost mut previous: Option<int> = None;
        let mut same = false;
        while ef < most && !same
            invariant
                self.wf(),
                self.index().entries().len() > 0,
                query < metric.sources(),
                self.index().entries().len() <= metric.targets(),
                most == self.most(),
                0 < ef <= most,
                hits@ == self.hits_at(metric, query as int, threshold, ef as int),
                self.settled(metric, query as int, threshold, previous, ef as int) == self.settled(
                    metric,
                    query as int,
                    threshold,
                    None,
                    self.base() as int,
                ),
                same == (previous matches Some(p) && hit_ids(
                    self.hits_at(metric, query as int, threshold, p),
                ) == hit_ids(hits@)),
            decreases most - ef,
        {
            let next: usize = if ef > most / 2 {
                most
            } else {
                ef * 2
            };
            let more = self.index.walk(metric, query, threshold, next);
            same = same_ids(&hits, &more);
            proof {
                previous = Some(ef as int);
            }
            hits = more;
            ef = next;
        }
        hits
    }

    /// Bytes taken by entries and neighbour lists.
    pub fn memory_bytes(&self) -> (bytes: usize)
        requires
            self.wf(),
            crate::recall_bounded::scan::entry_bytes(
                self.index().entries(),
                self.index().entries().len(),
            ) + graph::list_bytes(self.index().links(), self.index().links().len()) <= usize::MAX,
        ensures
            bytes == crate::recall_bounded::scan::entry_bytes(
                self.index().entries(),
                self.index().entries().len(),
            ) + graph::list_bytes(self.index().links(), self.index().links().len()),
    {
        self.index.memory_bytes()
    }
}

/// Walk of the graph with a fixed budget.
pub struct ThresholdBeam {
    index: ProximityIndex,
    beam_width: usize,
}

impl ThresholdBeam {
    /// The entries and the graph.
    pub closed spec fn index(&self) -> ProximityIndex {
        self.index
    }

    /// A quarter of the budget.
    pub closed spec fn width(&self) -> usize {
        self.beam_width
    }

    /// The graph is sound.
    pub open spec fn wf(&self) -> bool {
        self.index().wf()
    }

    /// The budget, four times the width, or the most a machine word holds.
    pub open spec fn budget(&self) -> nat {
        if 4 * self.width() > usize::MAX {
            usize::MAX as nat
        } else {
            (4 * self.width()) as nat
        }
    }

    /// No entries; new ones will be linked to `m` others.
    pub fn new(m: usize, beam_width: usize) -> (search: Self)
        requires
            0 < m,
            2 * m < usize::MAX,
            0 < beam_width,
        ensures
            search.wf(),
            search.index().entries().len() == 0,
            search.index().degree() == m,
            search.width() == beam_width,
    {
        ThresholdBeam { index: ProximityIndex::new(m), beam_width }
    }

    /// Adds an entry. `metric` measures the similarity between entries, the new one last.
    pub fn insert<M: Metric>(&mut self, entry: Entry, metric: &M)
        requires
            old(self).wf(),
            old(self).index().entries().len() < u32::MAX,
            old(self).index().entries().len() > 0 ==> entry.vec@.len() == old(
                self,
            ).index().entries()[0].vec@.len(),
            old(self).index().entries().len() < metric.sources(),
            old(self).index().entries().len() < metric.targets(),
        ensures
            final(self).wf(),
            final(self).width() == old(self).width(),
            final(self).index().degree() == old(self).index().degree(),
            final(self).index().entries() == old(self).index().entries().push(entry),
            final(self).index().links() == graph::grown(
                old(self).index().links(),
                metric,
                old(self).index().degree(),
            ),
    {
        self.index.insert(entry, metric);
    }

    /// A search visits four entries for each of the beam's width, most similar first, and shows
    /// those that reach the threshold. One that does not use up this budget has visited all
    /// that can be reached from the first entry.
    pub proof fn search_visits_four_widths<M: Metric>(
        &self,
        metric: &M,
        query: int,
        threshold: u32,
        hits: Seq<Hit>,
    ) -> (order: Seq<u32>)
        requires
            self.wf(),
            self.index().entries().len() > 0,
            4 * self.width() <= usize::MAX,
            hits == graph::found(
                self.index().entries(),
                self.index().links(),
                metric,
                query,
                threshold,
                self.budget(),
            ),
        ensures
            graph::is_best_first(
                order,
                self.index().links(),
                metric,
                query,
                (4 * self.width()) as nat,
            ),
            graph::are_hits(hits, order, self.index().entries(), metric, query, threshold),
    {
        self.index().index_laws();
        graph::found_is_best_first(
            self.index().entries(),
            self.index().links(),
            metric,
            query,
            threshold,
            self.budget(),
        )
    }

    /// Entries whose similarity to a query reaches the threshold, most similar first.
    pub fn search<M: Metric>(&self, metric: &M, query: u32, threshold: u32) -> (hits: Vec<Hit>)
        requires
            self.wf(),
            corpus::is_cosine(threshold),
            self.index().entries().len() > 0 ==> query < metric.sources()
                && self.index().entries().len() <= metric.targets(),
        ensures
            self.index().entries().len() == 0 ==> hits@.len() == 0,
            self.index().entries().len() > 0 ==> hits@ == graph::found(
                self.index().entries(),
                self.index().links(),
                metric,
                query as int,
                threshold,
                self.budget(),
            ),
    {
        if self.index.len() == 0 {
            return Vec::new();
        }
        let budget: usize = if self.beam_width > usize::MAX / 4 {
            usize::MAX
        } else {
            4 * self.beam_width
        };
        self.index.walk(metric, query, threshold, budget)
    }

    /// Bytes taken by entries and neighbour lists.
    pub fn memory_bytes(&self) -> (bytes: usize)
        requires
            self.wf(),
            crate::recall_bounded::scan::entry_bytes(
                self.index().entries(),
                self.index().entries().len(),
            ) + graph::list_bytes(self.index().links(), self.index().links().len()) <= usize::MAX,
        ensures
            bytes == crate::recall_bounded::scan::entry_bytes(
                self.index().entries(),
                self.index().entries().len(),
            ) + graph::list_bytes(self.index().links(), self.index().links().len()),
    {
        self.index.memory_bytes()
    }
}

} // verus!
