//! Exact scan, speculative search, and the controller of the draft's size.
use crate::adaptive::metrics;
use crate::float_order;
use crate::knn;
use crate::metric::Metric;
use crate::ranking;
use crate::ranking::Scored;
use crate::recall_bounded::scan;
use crate::ring;
use crate::speculative::draft;
use crate::speculative::draft::QuantizedDraft;
use vstd::prelude::*;

verus! {

/// A vector and the bits of its squared distance from the query.
pub type Hit = Scored;

/// The ids of the first `k` of a list.
pub open spec fn first_ids(list: Seq<Scored>, k: nat) -> Seq<u32> {
    ranking::ids_of(ranking::first_k(list, k))
}

/// The recall among the first `k`: the share of the distinct first `k` true ids that are among
/// the first `k` results, complete where there are none.
pub open spec fn recall_among(results: Seq<Scored>, truth: Seq<Scored>, k: nat) -> u32 {
    let wanted = first_ids(truth, k).to_set();
    metrics::recall_of(
        wanted.intersect(first_ids(results, k).to_set()).len(),
        wanted.len(),
    )
}

/// Recall among the first `k` is complete exactly where each of the first `k` true ids is among
/// the first `k` results, and nought exactly where there are some and none of them is.
pub proof fn recall_tells_what_is_missing(results: Seq<Scored>, truth: Seq<Scored>, k: nat)
    requires
        k < 0x100_0000,
    ensures
        recall_among(results, truth, k) == float_order::ONE <==> forall|i: int|
            0 <= i < truth.len() && i < k ==> is_among_first(
                results,
                k,
                (#[trigger] truth[i]).id,
            ),
        recall_among(results, truth, k) == 0 <==> truth.len() > 0 && k > 0 && forall|i: int|
            0 <= i < truth.len() && i < k ==> !is_among_first(
                results,
                k,
                (#[trigger] truth[i]).id,
            ),
{
    let list = first_ids(truth, k);
    let own = first_ids(results, k);
    let wanted = list.to_set();
    let found = own.to_set();
    list.lemma_cardinality_of_set();
    metrics::set_recall_tells_what_is_missing(wanted, found);
    assert forall|id: u32| #[trigger] found.contains(id) <==> is_among_first(results, k, id) by {
        if found.contains(id) {
            let i = choose|i: int| 0 <= i < own.len() && own[i] == id;
            assert(results[i].id == id);
        }
        if is_among_first(results, k, id) {
            let i = choose|i: int|
                0 <= i < results.len() && i < k && (#[trigger] results[i]).id == id;
            assert(own[i] == id);
        }
    }
    assert forall|i: int| 0 <= i < truth.len() && i < k implies wanted.contains(
        (#[trigger] truth[i]).id,
    ) by {
        assert(list[i] == truth[i].id);
    }
    assert forall|id: u32| wanted.contains(id) implies exists|i: int|
        0 <= i < truth.len() && i < k && (#[trigger] truth[i]).id == id by {
        let i = choose|i: int| 0 <= i < list.len() && list[i] == id;
        assert(truth[i].id == id);
    }
    if truth.len() > 0 && k > 0 {
        assert(wanted.contains(truth[0].id));
        vstd::set_lib::lemma_set_empty_equivalency_len(wanted);
    } else {
        assert(wanted =~= Set::<u32>::empty());
    }
}

/// Whether one of the first `k` of a list has this id.
pub open spec fn is_among_first(list: Seq<Scored>, k: nat, id: u32) -> bool {
    exists|i: int| 0 <= i < list.len() && i < k && (#[trigger] list[i]).id == id
}

/// The bits of the recall among the first `k`.
pub fn recall_at_k(results: &Vec<Hit>, ground_truth: &Vec<Hit>, k: usize) -> (recall: u32)
    ensures
        recall == recall_among(results@, ground_truth@, k as nat),
{
    let found = take_ids(results, k);
    let truth = take_ids(ground_truth, k);
    scan::recall_of_ids(&found, &truth)
}

fn take_ids(list: &Vec<Hit>, k: usize) -> (ids: Vec<u32>)
    ensures
        ids@ == first_ids(list@, k as nat),
{
    let n: usize = if k < list.len() {
        k
    } else {
        list.len()
    };
    let mut ids: Vec<u32> = Vec::new();
    let mut i: usize = 0;
    while i < n
        invariant
            i <= n <= list@.len(),
            ids@.len() == i,
            forall|j: int| 0 <= j < i ==> #[trigger] ids@[j] == list@[j].id,
        decreases n - i,
    {
        ids.push(list[i].id);
        i += 1;
    }
    assert(ids@ =~= first_ids(list@, k as nat));
    ids
}

/// Exact scan of all vectors.
pub struct LinearFull {
    count: usize,
    dims: usize,
}

impl LinearFull {
    /// Number of vectors.
    pub closed spec fn count(&self) -> nat {
        self.count as nat
    }

    /// Dimensions of a vector.
    pub closed spec fn dims(&self) -> nat {
        self.dims as nat
    }

    /// An index of `count` vectors.
    pub fn build(count: usize, dims: usize) -> (index: Self)
        ensures
            index.count() == count,
            index.dims() == dims,
    {
        LinearFull { count, dims }
    }

    /// Name of the method.
    pub fn name(&self) -> (name: &str)
        ensures
            name@ == "LinearFull"@,
    {
        "LinearFull"
    }

    /// Bytes taken by the vectors.
    pub fn memory_bytes(&self) -> (bytes: usize)
        requires
            self.count() * self.dims() * 4 <= usize::MAX,
        ensures
            bytes == self.count() * self.dims() * 4,
    {
        assert(0 <= self.count * self.dims) by (nonlinear_arith);
        self.count * self.dims * 4
    }

    /// The `k` vectors nearest to a query, nearest first. Where there is more than one vector
    /// no distance may be a NaN.
    pub fn search<M: Metric>(&self, exact: &M, query: u32, k: usize) -> (hits: Vec<Hit>)
        requires
            query < exact.sources(),
            self.count() <= exact.targets(),
            self.count() <= u32::MAX,
            self.count() > 1 ==> forall|i: int|
                0 <= i < self.count() ==> !float_order::not_a_number(
                    #[trigger] exact.measured(query as int, i),
                ),
        ensures
            hits@ == knn::nearest(exact, query as int, self.count(), k as nat),
    {
        knn::find_nearest(exact, query, self.count, k)
    }
}

/// Settings of the controller.
#[derive(Debug, Clone, Copy)]
pub struct SpecConfig {
    /// Candidates per result at the beginning.
    pub initial_mult: usize,
    /// Fewest candidates per result.
    pub min_mult: usize,
    /// Most candidates per result.
    pub max_mult: usize,
    /// Number of recalls that the controller looks back on.
    pub window: usize,
    /// The bits of the recall aimed at.
    pub target_recall: u32,
}

impl Default for SpecConfig {
    fn default() -> (cfg: Self)
        ensures
            cfg.initial_mult == 3,
            cfg.min_mult == 1,
            cfg.max_mult == 20,
            cfg.window == 50,
            cfg.target_recall == 0x3f73_3333,
    {
        SpecConfig {
            initial_mult: 3,
            min_mult: 1,
            max_mult: 20,
            window: 50,
            target_recall: 0x3f73_3333,
        }
    }
}

/// The last recalls, in a ring.
pub struct RollingRecall {
    buf: Vec<u32>,
    head: usize,
    filled: bool,
    history: Ghost<Seq<u32>>,
}

impl View for RollingRecall {
    type V = Seq<u32>;

    /// All recalls so far, oldest first.
    closed spec fn view(&self) -> Seq<u32> {
        self.history@
    }
}

impl RollingRecall {
    /// Number of recalls kept.
    pub closed spec fn window(&self) -> nat {
        self.buf@.len()
    }

    /// The ring holds the last recalls, each in its slot.
    pub closed spec fn wf(&self) -> bool {
        let n = self.buf@.len() as int;
        let total = self.history@.len() as int;
        &&& 0 < n
        &&& self.head == total % n
        &&& self.filled == (total >= n)
        &&& forall|j: int|
            0 <= j < total && total - n <= j ==> self.buf@[j % n] == #[trigger] self.history@[j]
        &&& forall|i: int| total <= i < n ==> self.buf@[i] == 0
    }

    /// No recalls yet.
    pub fn new(window: usize) -> (r: Self)
        requires
            window > 0,
        ensures
            r.wf(),
            r.window() == window,
            r@.len() == 0,
    {
        let mut buf: Vec<u32> = Vec::new();
        while buf.len() < window
            invariant
                buf@.len() <= window,
                forall|i: int| 0 <= i < buf@.len() ==> buf@[i] == 0,
            decreases window - buf@.len(),
        {
            buf.push(0);
        }
        proof {
            ring::start(0, window as int);
        }
        RollingRecall { buf, head: 0, filled: false, history: Ghost(Seq::empty()) }
    }

    /// Adds a recall; the oldest kept one makes room.
    pub fn push(&mut self, recall: u32)
        requires
            old(self).wf(),
        ensures
            final(self).wf(),
            final(self).window() == old(self).window(),
            final(self)@ == old(self)@.push(recall),
    {
        let ghost before = self.history@;
        let ghost n = self.buf@.len() as int;
        let ghost total = before.len() as int;
        let window: usize = self.buf.len();
        let at: usize = self.head;
        self.buf.set(at, recall);
        self.head = if at + 1 == window {
            0
        } else {
            at + 1
        };
        if self.head == 0 {
            self.filled = true;
        }
        self.history = Ghost(before.push(recall));
        proof {
            ring::step(total, n);
            vstd::arithmetic::div_mod::lemma_mod_bound(total, n);
            if at + 1 == n {
                vstd::arithmetic::div_mod::lemma_mod_self_0(n);
            } else {
                vstd::arithmetic::div_mod::lemma_small_mod((at + 1) as nat, n as nat);
            }
            if total < n {
                vstd::arithmetic::div_mod::lemma_small_mod(total as nat, n as nat);
            }
            assert forall|j: int|
                0 <= j < total + 1 && total + 1 - n <= j implies self.buf@[j % n]
                == #[trigger] self.history@[j] by {
                if j < total {
                    ring::apart(j, total, n);
                    assert(before[j] == self.history@[j]);
                }
            }
        }
    }

    /// What the mean is taken of: the recalls kept, in the order of their slots, or a single
    /// nought where there is none.
    pub open spec fn are_samples(&self, samples: Seq<u32>) -> bool {
        &&& self@.len() == 0 ==> samples == seq![0u32]
        &&& 0 < self@.len() < self.window() ==> samples == self@
        &&& self@.len() >= self.window() ==> samples.len() == self.window() && forall|j: int|
            0 <= j < self@.len() && self@.len() - self.window() <= j ==> samples[j
                % self.window() as int] == #[trigger] self@[j]
    }

    /// The mean is taken of the last recalls, as many as the window holds or as there are: each
    /// of them is among the samples, and each sample is one of them.
    pub proof fn samples_are_the_last(&self, samples: Seq<u32>)
        requires
            self.window() > 0,
            self@.len() > 0,
            self.are_samples(samples),
        ensures
            samples.len() == (if self@.len() < self.window() {
                self@.len()
            } else {
                self.window()
            }),
            forall|j: int|
                0 <= j < self@.len() && self@.len() - self.window() <= j ==> samples.contains(
                    #[trigger] self@[j],
                ),
            forall|i: int|
                0 <= i < samples.len() ==> self@.skip(self@.len() - samples.len()).contains(
                    #[trigger] samples[i],
                ),
    {
        let total = self@.len() as int;
        let w = self.window() as int;
        let tail = self@.skip(total - samples.len());
        if total < w {
            assert(tail =~= self@);
            assert forall|j: int| 0 <= j < total implies samples.contains(#[trigger] self@[j]) by {
                assert(samples[j] == self@[j]);
            }
        } else {
            assert forall|j: int| 0 <= j < total && total - w <= j implies samples.contains(
                #[trigger] self@[j],
            ) by {
                vstd::arithmetic::div_mod::lemma_mod_bound(j, w);
                assert(samples[j % w] == self@[j]);
            }
            assert forall|i: int| 0 <= i < samples.len() implies tail.contains(
                #[trigger] samples[i],
            ) by {
                let r = (total - 1 - i) % w;
                let q = (total - 1 - i) / w;
                let j = total - 1 - r;
                vstd::arithmetic::div_mod::lemma_mod_bound(total - 1 - i, w);
                vstd::arithmetic::div_mod::lemma_fundamental_div_mod(total - 1 - i, w);
                assert(w * q == q * w) by (nonlinear_arith);
                assert(j == q * w + i);
                vstd::arithmetic::div_mod::lemma_fundamental_div_mod_converse(j, w, q, i);
                assert(samples[j % w] == self@[j]);
                assert(tail[j - (total - w)] == samples[i]);
            }
        }
    }

    /// What the mean is taken of.
    pub fn samples(&self) -> (samples: Vec<u32>)
        requires
            self.wf(),
        ensures
            self.are_samples(samples@),
    {
        let ghost n = self.buf@.len() as int;
        let ghost total = self.history@.len() as int;
        proof {
            if total < n {
                vstd::arithmetic::div_mod::lemma_small_mod(total as nat, n as nat);
            }
        }
        let len: usize = if self.filled {
            self.buf.len()
        } else if self.head == 0 {
            1
        } else {
            self.head
        };
        let samples = vstd::slice::slice_to_vec(
            vstd::slice::slice_subrange(self.buf.as_slice(), 0, len),
        );
        proof {
            if 0 < total < n {
                assert forall|j: int| 0 <= j < total implies samples@[j] == self@[j] by {
                    vstd::arithmetic::div_mod::lemma_small_mod(j as nat, n as nat);
                    assert(self.history@[j] == self.buf@[j % n]);
                }
                assert(samples@ =~= self@);
            }
            if total == 0 {
                assert(samples@ =~= seq![0u32]);
            }
        }
        samples
    }
}

/// The number of candidates for `k` results.
pub open spec fn draft_size(k: usize, mult: usize) -> nat {
    if k * mult > usize::MAX {
        usize::MAX as nat
    } else if k * mult < k {
        k as nat
    } else {
        (k * mult) as nat
    }
}

/// What a speculative search finds: the `k` best by exact distance of a draft of that size.
pub open spec fn verified<M: Metric>(
    codes: Seq<Vec<u8>>,
    query_code: Seq<u8>,
    exact: &M,
    query: int,
    k: usize,
    mult: usize,
) -> Seq<Scored> {
    ranking::first_k(
        ranking::ranked(
            knn::rescored(exact, query, drafted(codes, query_code, draft_size(k, mult))),
        ),
        k as nat,
    )
}

/// The draft: the ids nearest between codes.
pub open spec fn drafted(codes: Seq<Vec<u8>>, query_code: Seq<u8>, size: nat) -> Seq<u32> {
    draft::drafted_ids(draft::first_drafted(draft::all_drafted(codes, query_code), size))
}

/// The next number of candidates per result: two more when the mean recall is below target,
/// one fewer when it is clearly above, within the bounds.
pub open spec fn adapted(mult: usize, cfg: SpecConfig, mean: u32, clear: u32) -> usize {
    if float_order::below(mean, cfg.target_recall) {
        if mult + 2 < cfg.max_mult {
            (mult + 2) as usize
        } else {
            cfg.max_mult
        }
    } else if float_order::below(clear, mean) {
        let less = if mult > 0 {
            (mult - 1) as usize
        } else {
            0
        };
        if less < cfg.min_mult {
            cfg.min_mult
        } else {
            less
        }
    } else {
        mult
    }
}

/// The controller answers the recall: too low a recall adds candidates, two more per result as
/// far as the bound allows; one with room to spare takes one away unless the fewest are in use;
/// any other leaves the number as it is. A lower recall never leads to fewer candidates.
pub proof fn controller_answers_recall(
    mult: usize,
    cfg: SpecConfig,
    mean: u32,
    higher: u32,
    clear: u32,
)
    requires
        cfg.min_mult <= mult <= cfg.max_mult,
        float_order::at_most(cfg.target_recall, clear),
        float_order::at_most(mean, higher),
    ensures
        ({
            let next = adapted(mult, cfg, mean, clear);
            &&& float_order::below(mean, cfg.target_recall) ==> next >= mult && (next == mult + 2
                || next == cfg.max_mult) && next <= mult + 2
            &&& float_order::below(clear, mean) ==> next == (if mult > cfg.min_mult {
                mult - 1
            } else {
                mult as int
            })
            &&& !float_order::below(mean, cfg.target_recall) && !float_order::below(clear, mean)
                ==> next == mult
            &&& adapted(mult, cfg, higher, clear) <= next
        }),
{
}

/// Within the bounds the controller stays within them.
pub proof fn adapted_stays_in_bounds(mult: usize, cfg: SpecConfig, mean: u32, clear: u32)
    requires
        cfg.min_mult <= mult <= cfg.max_mult,
    ensures
        cfg.min_mult <= adapted(mult, cfg, mean, clear) <= cfg.max_mult,
{
}

/// Index with a draft of codes, an exact check and a controller.
pub struct SpeculativeANN {
    draft: QuantizedDraft,
    cfg: SpecConfig,
    mult: usize,
    rolling: RollingRecall,
    /// Number of searches with feedback.
    pub queries_run: usize,
    /// Number of those that reached the target.
    pub accepted: usize,
}

impl SpeculativeANN {
    /// The draft index.
    pub closed spec fn draft(&self) -> QuantizedDraft {
        self.draft
    }

    /// The settings.
    pub closed spec fn cfg(&self) -> SpecConfig {
        self.cfg
    }

    /// Candidates per result.
    pub closed spec fn mult(&self) -> usize {
        self.mult
    }

    /// The recalls so far.
    pub closed spec fn rolling(&self) -> RollingRecall {
        self.rolling
    }

    /// Number of searches with feedback.
    pub closed spec fn runs(&self) -> nat {
        self.queries_run as nat
    }

    /// Number of those that reached the target.
    pub closed spec fn successes(&self) -> nat {
        self.accepted as nat
    }

    /// The parts are sound, and no more searches succeeded than were run.
    pub open spec fn wf(&self) -> bool {
        &&& self.draft().wf()
        &&& self.rolling().wf()
        &&& self.successes() <= self.runs()
        &&& self.runs() == self.rolling()@.len()
    }

    /// An index over a draft.
    pub fn build(draft: QuantizedDraft, cfg: SpecConfig) -> (index: Self)
        requires
            draft.wf(),
            cfg.window > 0,
        ensures
            index.wf(),
            index.draft() == draft,
            index.cfg() == cfg,
            index.mult() == cfg.initial_mult,
            index.rolling()@.len() == 0,
            index.rolling().window() == cfg.window,
            index.runs() == 0,
            index.successes() == 0,
    {
        SpeculativeANN {
            draft,
            cfg,
            mult: cfg.initial_mult,
            rolling: RollingRecall::new(cfg.window),
            queries_run: 0,
            accepted: 0,
        }
    }

    /// Name of the method.
    pub fn name(&self) -> (name: &str)
        ensures
            name@ == "SpeculativeANN"@,
    {
        "SpeculativeANN"
    }

    /// Candidates per result.
    pub fn current_mult(&self) -> (mult: usize)
        ensures
            mult == self.mult(),
    {
        self.mult
    }

    /// The recalls that the acceptance rate is the mean of.
    pub fn recent_recalls(&self) -> (samples: Vec<u32>)
        requires
            self.wf(),
        ensures
            self.rolling().are_samples(samples@),
    {
        self.rolling.samples()
    }

    /// The `k` best of a draft of `mult` candidates per result.
    pub fn search_fixed<M: Metric>(
        &self,
        query_code: &[u8],
        exact: &M,
        query: u32,
        k: usize,
        mult: usize,
    ) -> (hits: Vec<Hit>)
        requires
            k > 0 ==> {
                &&& self.wf()
                &&& query_code@.len() == self.draft().dims()
                &&& query < exact.sources()
                &&& self.draft().codes().len() <= exact.targets()
            },
        ensures
            hits@ == (if k == 0 {
                Seq::empty()
            } else {
                verified(self.draft().codes(), query_code@, exact, query as int, k, mult)
            }),
    {
        if k == 0 {
            return Vec::new();
        }
        let size: usize = if mult > usize::MAX / k {
            proof {
                let most = usize::MAX as int;
                assert(k * mult > most) by (nonlinear_arith)
                    requires
                        mult > most / k as int,
                        k > 0,
                ;
            }
            usize::MAX
        } else {
            proof {
                let most = usize::MAX as int;
                assert(0 <= k * mult <= most) by (nonlinear_arith)
                    requires
                        0 <= mult <= most / k as int,
                        k > 0,
                ;
            }
            if k * mult < k {
                k
            } else {
                k * mult
            }
        };
        let ids = self.draft.draft_ids(query_code, size);
        proof {
            draft::all_drafted_holds(self.draft().codes(), query_code@);
        }
        self.verify_and_rerank(exact, query, &ids, k)
    }

    fn verify_and_rerank<M: Metric>(&self, exact: &M, query: u32, ids: &Vec<u32>, k: usize) -> (hits: Vec<Hit>)
        requires
            query < exact.sources(),
            forall|i: int| 0 <= i < ids@.len() ==> #[trigger] ids@[i] < exact.targets(),
        ensures
            hits@ == ranking::first_k(
                ranking::ranked(knn::rescored(exact, query as int, ids@)),
                k as nat,
            ),
    {
        let list = knn::rescore(exact, query, ids);
        ranking::rank_first(list.as_slice(), k)
    }

    /// The `k` best of a draft with the current number of candidates per result.
    pub fn search<M: Metric>(&self, query_code: &[u8], exact: &M, query: u32, k: usize) -> (hits: Vec<Hit>)
        requires
            k > 0 ==> {
                &&& self.wf()
                &&& query_code@.len() == self.draft().dims()
                &&& query < exact.sources()
                &&& self.draft().codes().len() <= exact.targets()
            },
        ensures
            hits@ == (if k == 0 {
                Seq::empty()
            } else {
                verified(self.draft().codes(), query_code@, exact, query as int, k, self.mult())
            }),
    {
        self.search_fixed(query_code, exact, query, k, self.mult)
    }

    /// Takes in the recall of a search.
    pub fn record(&mut self, recall: u32)
        requires
            old(self).wf(),
            old(self).runs() < usize::MAX,
        ensures
            final(self).wf(),
            final(self).draft() == old(self).draft(),
            final(self).cfg() == old(self).cfg(),
            final(self).mult() == old(self).mult(),
            final(self).rolling()@ == old(self).rolling()@.push(recall),
            final(self).rolling().window() == old(self).rolling().window(),
            final(self).runs() == old(self).runs() + 1,
            final(self).successes() == old(self).successes() + (if float_order::at_most(
                old(self).cfg().target_recall,
                recall,
            ) {
                1int
            } else {
                0int
            }),
    {
        self.rolling.push(recall);
        self.queries_run = self.queries_run + 1;
        if float_order::less_or_equal(self.cfg.target_recall, recall) {
            self.accepted = self.accepted + 1;
        }
    }

    /// Sets the number of candidates per result after a mean recall; `clear` is the recall
    /// from which on there is room to spare.
    pub fn adapt(&mut self, mean: u32, clear: u32)
        requires
            old(self).wf(),
            old(self).mult() + 2 <= usize::MAX,
        ensures
            final(self).wf(),
            final(self).mult() == adapted(old(self).mult(), old(self).cfg(), mean, clear),
            final(self).draft() == old(self).draft(),
            final(self).cfg() == old(self).cfg(),
            final(self).rolling() == old(self).rolling(),
            final(self).runs() == old(self).runs(),
            final(self).successes() == old(self).successes(),
    {
        if float_order::less(mean, self.cfg.target_recall) {
            self.mult = if self.mult + 2 < self.cfg.max_mult {
                self.mult + 2
            } else {
                self.cfg.max_mult
            };
        } else if float_order::less(clear, mean) {
            let less: usize = if self.mult > 0 {
                self.mult - 1
            } else {
                0
            };
            self.mult = if less < self.cfg.min_mult {
                self.cfg.min_mult
            } else {
                less
            };
        }
    }

    /// The state after a search whose recall was `recall`, the mean of the recalls kept being
    /// `mean`.
    pub open spec fn follows(&self, before: &Self, recall: u32, mean: u32, clear: u32) -> bool {
        &&& self.wf()
        &&& self.draft() == before.draft()
        &&& self.cfg() == before.cfg()
        &&& self.rolling().window() == before.rolling().window()
        &&& self.rolling()@ == before.rolling()@.push(recall)
        &&& self.runs() == before.runs() + 1
        &&& self.successes() == before.successes() + (if float_order::at_most(
            before.cfg().target_recall,
            recall,
        ) {
            1int
        } else {
            0int
        })
        &&& self.mult() == adapted(before.mult(), before.cfg(), mean, clear)
    }

    /// A search with the current number of candidates per result. Where the true neighbours
    /// are given, its recall is taken in and the number of candidates set anew; without them
    /// there is nothing for the controller to go by, and nothing changes. `mean_of` takes the
    /// mean of recalls, and `clear` is the recall from which on there is room to spare.
    pub fn search_adaptive<M: Metric, F: Fn(Vec<u32>) -> u32>(
        &mut self,
        query_code: &[u8],
        exact: &M,
        query: u32,
        k: usize,
        ground_truth: Option<&Vec<Hit>>,
        mean_of: &F,
        clear: u32,
    ) -> (hits: Vec<Hit>)
        requires
            k > 0 ==> {
                &&& old(self).wf()
                &&& query_code@.len() == old(self).draft().dims()
                &&& query < exact.sources()
                &&& old(self).draft().codes().len() <= exact.targets()
            },
            k > 0 && ground_truth is Some ==> {
                &&& old(self).runs() < usize::MAX
                &&& old(self).mult() + 2 <= usize::MAX
                &&& forall|samples: Vec<u32>| #[trigger] call_requires(*mean_of, (samples,))
            },
        ensures
            hits@ == (if k == 0 {
                Seq::empty()
            } else {
                verified(
                    old(self).draft().codes(),
                    query_code@,
                    exact,
                    query as int,
                    k,
                    old(self).mult(),
                )
            }),
            k == 0 || ground_truth is None ==> *final(self) == *old(self),
            k > 0 ==> (ground_truth matches Some(truth) ==> exists|samples: Vec<u32>, mean: u32|
                {
                    &&& #[trigger] call_ensures(*mean_of, (samples,), mean)
                    &&& final(self).rolling().are_samples(samples@)
                    &&& final(self).follows(
                        old(self),
                        recall_among(hits@, truth@, k as nat),
                        mean,
                        clear,
                    )
                }),
    {
        let hits = self.search(query_code, exact, query, k);
        if k == 0 {
            return hits;
        }
        if let Some(truth) = ground_truth {
            let recall = recall_at_k(&hits, truth, k);
            self.record(recall);
            let samples = self.recent_recalls();
            let ghost kept = samples;
            let mean = mean_of(samples);
            self.adapt(mean, clear);
            assert(call_ensures(*mean_of, (kept,), mean));
        }
        hits
    }

    /// Bytes taken by the vectors and their codes.
    pub fn memory_bytes(&self) -> (bytes: usize)
        requires
            self.draft().codes().len() * self.draft().dims() * 4 + self.draft().codes().len()
                * self.draft().dims() + self.draft().dims() * 2 * 4 <= usize::MAX,
        ensures
            bytes == self.draft().codes().len() * self.draft().dims() * 4
                + self.draft().codes().len() * self.draft().dims() + self.draft().dims() * 2 * 4,
    {
        let (n, dims) = self.draft.shape();
        assert(0 <= n * dims) by (nonlinear_arith);
        let full: usize = n * dims * 4;
        let codes: usize = self.draft.memory_bytes();
        full + codes
    }
}

/// What a speculative search finds: `k` vectors or as many as there are, none twice, each with
/// its exact distance, nearest first.
pub proof fn verified_holds<M: Metric>(
    codes: Seq<Vec<u8>>,
    query_code: Seq<u8>,
    exact: &M,
    query: int,
    k: usize,
    mult: usize,
)
    requires
        codes.len() <= u32::MAX,
        0 < k,
    ensures
        ({
            let hits = verified(codes, query_code, exact, query, k, mult);
            &&& hits.len() == (if k < codes.len() {
                k as nat
            } else {
                codes.len()
            })
            &&& ranking::in_order(hits)
            &&& ranking::distinct_ids(hits)
            &&& forall|i: int|
                0 <= i < hits.len() ==> (#[trigger] hits[i]).id < codes.len() && hits[i].bits
                    == exact.measured(query, hits[i].id as int)
        }),
{
    let size = draft_size(k, mult);
    let ids = drafted(codes, query_code, size);
    let all = draft::all_drafted(codes, query_code);
    draft::all_drafted_holds(codes, query_code);
    let list = knn::rescored(exact, query, ids);
    assert(k <= size) by {
        assert(k * mult >= 0) by (nonlinear_arith);
    }
    assert forall|i: int, j: int| 0 <= i < j < list.len() implies (#[trigger] list[i]).id != (
    #[trigger] list[j]).id by {
        assert(draft::drafted_ids(all)[i] != draft::drafted_ids(all)[j]);
    }
    ranking::ranked_properties(list);
    let whole = ranking::ranked(list);
    let hits = verified(codes, query_code, exact, query, k, mult);
    assert forall|i: int| 0 <= i < hits.len() implies (#[trigger] hits[i]).id < codes.len()
        && hits[i].bits == exact.measured(query, hits[i].id as int) by {
        assert(whole.contains(whole[i]));
        assert(list.contains(whole[i]));
        let a = choose|a: int| 0 <= a < list.len() && list[a] == whole[i];
        assert(all[a].id < codes.len());
    }
}

/// Draft and check: the draft holds the vectors whose codes are nearest to that of the query,
/// `mult` of them for each result and at least one, and the hits are the `k` of the draft that
/// are nearest by exact distance.
pub proof fn hits_are_nearest_of_draft<M: Metric>(
    codes: Seq<Vec<u8>>,
    query_code: Seq<u8>,
    exact: &M,
    query: int,
    k: usize,
    mult: usize,
) -> (draft: Seq<draft::Drafted>)
    requires
        codes.len() <= u32::MAX,
        0 < k,
        65025 * query_code.len() <= u64::MAX,
        forall|i: int| 0 <= i < codes.len() ==> (#[trigger] codes[i])@.len() == query_code.len(),
    ensures
        draft::are_nearest_codes(
            draft,
            codes,
            query_code,
            if mult == 0 {
                k as nat
            } else if k * mult <= usize::MAX {
                (k * mult) as nat
            } else {
                usize::MAX as nat
            },
        ),
        ({
            let hits = verified(codes, query_code, exact, query, k, mult);
            &&& hits.len() == (if k < draft.len() {
                k as nat
            } else {
                draft.len()
            })
            &&& forall|i: int|
                0 <= i < hits.len() ==> draft::is_drafted(draft, (#[trigger] hits[i]).id)
                    && hits[i].bits == exact.measured(query, hits[i].id as int)
            &&& forall|i: int, j: int|
                0 <= i < j < hits.len() ==> (#[trigger] hits[i]).id != (#[trigger] hits[j]).id
                    && knn::comes_first(hits[i], hits[j])
            &&& forall|v: u32, i: int|
                0 <= i < hits.len() && #[trigger] draft::is_drafted(draft, v) && !knn::is_listed(
                    hits,
                    v,
                ) ==> knn::comes_first(
                    #[trigger] hits[i],
                    Scored { id: v, bits: exact.measured(query, v as int) },
                )
        }),
{
    let size = draft_size(k, mult);
    let list = draft::first_drafted(draft::all_drafted(codes, query_code), size);
    let ids = drafted(codes, query_code, size);
    let row = knn::rescored(exact, query, ids);
    let hits = verified(codes, query_code, exact, query, k, mult);
    draft::draft_is_nearest(codes, query_code, size);
    ranking::first_k_are_lowest(row, k as nat);
    if mult > 0 {
        assert(k * mult >= k) by (nonlinear_arith)
            requires
                mult >= 1,
                k >= 0,
        ;
    } else {
        assert(k * 0 == 0) by (nonlinear_arith);
    }
    assert(ranking::distinct_ids(row)) by {
        assert forall|i: int, j: int| 0 <= i < j < row.len() implies (#[trigger] row[i]).id != (
        #[trigger] row[j]).id by {
            assert(list[i].id != list[j].id);
        }
    }
    assert forall|i: int| 0 <= i < hits.len() implies draft::is_drafted(
        list,
        (#[trigger] hits[i]).id,
    ) && hits[i].bits == exact.measured(query, hits[i].id as int) by {
        assert(row.contains(hits[i]));
        let j = choose|j: int| 0 <= j < row.len() && row[j] == hits[i];
        assert(list[j].id == hits[i].id);
    }
    assert forall|i: int, j: int| 0 <= i < j < hits.len() implies (#[trigger] hits[i]).id != (
    #[trigger] hits[j]).id && knn::comes_first(hits[i], hits[j]) by {
        assert(hits[i].leads(hits[j]));
        float_order::below_is_lower_rank(hits[i].bits, hits[j].bits);
    }
    assert forall|v: u32, i: int|
        0 <= i < hits.len() && #[trigger] draft::is_drafted(list, v) && !knn::is_listed(
            hits,
            v,
        ) implies knn::comes_first(
        #[trigger] hits[i],
        Scored { id: v, bits: exact.measured(query, v as int) },
    ) by {
        let x = Scored { id: v, bits: exact.measured(query, v as int) };
        let j = choose|j: int| 0 <= j < list.len() && (#[trigger] list[j]).id == v;
        assert(row[j] == x);
        assert(row.contains(x));
        assert(!hits.contains(x)) by {
            if hits.contains(x) {
                let a = choose|a: int| 0 <= a < hits.len() && hits[a] == x;
                assert(hits[a].id == v);
            }
        }
        assert(hits[i].leads(x));
        float_order::below_is_lower_rank(hits[i].bits, x.bits);
    }
    list
}

/// A true neighbour is found exactly when it is drafted.
pub proof fn found_iff_drafted<M: Metric>(
    codes: Seq<Vec<u8>>,
    query_code: Seq<u8>,
    exact: &M,
    query: int,
    k: usize,
    mult: usize,
    x: Scored,
)
    requires
        codes.len() <= u32::MAX,
        0 < k,
        knn::nearest(exact, query, codes.len(), k as nat).contains(x),
    ensures
        verified(codes, query_code, exact, query, k, mult).contains(x) <==> drafted(
            codes,
            query_code,
            draft_size(k, mult),
        ).contains(x.id),
{
    let n = codes.len();
    let ids = drafted(codes, query_code, draft_size(k, mult));
    let list = knn::rescored(exact, query, ids);
    let hits = verified(codes, query_code, exact, query, k, mult);
    let row = knn::scored_row(knn::measures_from(exact, query), n);
    let full = ranking::ranked(row);
    let top = knn::nearest(exact, query, n, k as nat);
    draft::all_drafted_holds(codes, query_code);
    ranking::ranked_properties(row);
    ranking::ranked_properties(list);
    knn::row_entries(knn::measures_from(exact, query), n, x);
    let p = choose|p: int| 0 <= p < top.len() && top[p] == x;
    assert(full[p] == x);
    assert(full.contains(x));
    assert(row.contains(x));
    if hits.contains(x) {
        let i = choose|i: int| 0 <= i < hits.len() && hits[i] == x;
        let whole = ranking::ranked(list);
        assert(whole[i] == x);
        assert(whole.contains(x));
        assert(list.contains(x));
        let a = choose|a: int| 0 <= a < list.len() && list[a] == x;
        assert(ids[a] == x.id);
    }
    if ids.contains(x.id) {
        let a = choose|a: int| 0 <= a < ids.len() && ids[a] == x.id;
        assert(list[a] == x);
        assert(list.contains(x));
        if !hits.contains(x) {
            ranking::first_k_are_best(list, k as nat, x);
            verified_holds(codes, query_code, exact, query, k, mult);
            let front = full.take(p);
            assert forall|y: Scored| hits.to_set().contains(y) implies front.to_set().contains(y) by {
                let i = choose|i: int| 0 <= i < hits.len() && hits[i] == y;
                assert(hits[i].leads(x));
                assert(y != x);
                knn::row_entries(knn::measures_from(exact, query), n, y);
                assert(row.contains(y));
                assert(full.contains(y));
                let q = choose|q: int| 0 <= q < full.len() && full[q] == y;
                if q > p {
                    assert(full[p].leads(full[q]));
                    ranking::rank_order_is_total();
                    assert(ranking::rank_order()(x, y) && ranking::rank_order()(y, x));
                }
                assert(q < p);
                assert(front[q] == y);
            }
            assert(hits.no_duplicates()) by {
                assert forall|i: int, j: int|
                    0 <= i < hits.len() && 0 <= j < hits.len() && i != j implies hits[i] != hits[j] by {
                    if i < j {
                        assert(hits[i].id != hits[j].id);
                    } else {
                        assert(hits[j].id != hits[i].id);
                    }
                }
            }
            hits.unique_seq_to_set();
            front.lemma_cardinality_of_set();
            vstd::seq_lib::seq_to_set_is_finite(front);
            vstd::set_lib::lemma_len_subset(hits.to_set(), front.to_set());
        }
    }
}

proof fn draft_size_grows(k: usize, fewer: usize, more: usize)
    requires
        fewer <= more,
    ensures
        draft_size(k, fewer) <= draft_size(k, more),
{
    assert(k * fewer <= k * more) by (nonlinear_arith)
        requires
            fewer <= more,
            0 <= k,
    ;
}

/// More candidates lose no true neighbour: one of the `k` nearest vectors that a search finds
/// is found by every search with more candidates.
pub proof fn larger_draft_keeps_neighbours<M: Metric>(
    codes: Seq<Vec<u8>>,
    query_code: Seq<u8>,
    exact: &M,
    query: int,
    k: usize,
    fewer: usize,
    more: usize,
    x: Scored,
)
    requires
        codes.len() <= u32::MAX,
        0 < k,
        fewer <= more,
        knn::nearest(exact, query, codes.len(), k as nat).contains(x),
        verified(codes, query_code, exact, query, k, fewer).contains(x),
    ensures
        verified(codes, query_code, exact, query, k, more).contains(x),
{
    let all = draft::all_drafted(codes, query_code);
    let small = drafted(codes, query_code, draft_size(k, fewer));
    let large = drafted(codes, query_code, draft_size(k, more));
    draft_size_grows(k, fewer, more);
    found_iff_drafted(codes, query_code, exact, query, k, fewer, x);
    found_iff_drafted(codes, query_code, exact, query, k, more, x);
    let i = choose|i: int| 0 <= i < small.len() && small[i] == x.id;
    assert(small[i] == draft::drafted_ids(all)[i]);
    assert(large[i] == draft::drafted_ids(all)[i]);
}

/// Recall never falls as candidates are added.
pub proof fn recall_grows_with_draft<M: Metric>(
    codes: Seq<Vec<u8>>,
    query_code: Seq<u8>,
    exact: &M,
    query: int,
    k: usize,
    fewer: usize,
    more: usize,
)
    requires
        codes.len() <= u32::MAX,
        0 < k,
        fewer <= more,
    ensures
        ({
            let truth = knn::nearest(exact, query, codes.len(), k as nat);
            float_order::at_most(
                recall_among(
                    verified(codes, query_code, exact, query, k, fewer),
                    truth,
                    k as nat,
                ),
                recall_among(verified(codes, query_code, exact, query, k, more), truth, k as nat),
            )
        }),
{
    let n = codes.len();
    let truth = knn::nearest(exact, query, n, k as nat);
    let a = verified(codes, query_code, exact, query, k, fewer);
    let b = verified(codes, query_code, exact, query, k, more);
    verified_holds(codes, query_code, exact, query, k, fewer);
    verified_holds(codes, query_code, exact, query, k, more);
    let row = knn::scored_row(knn::measures_from(exact, query), n);
    ranking::ranked_properties(row);
    let wanted = first_ids(truth, k as nat).to_set();
    let found_a = first_ids(a, k as nat).to_set();
    let found_b = first_ids(b, k as nat).to_set();
    assert forall|id: u32| wanted.intersect(found_a).contains(id) implies wanted.intersect(
        found_b,
    ).contains(id) by {
        let t = first_ids(truth, k as nat);
        let f = first_ids(a, k as nat);
        assert(t.contains(id) && f.contains(id));
        let i = choose|i: int| 0 <= i < t.len() && t[i] == id;
        let j = choose|j: int| 0 <= j < f.len() && f[j] == id;
        let x = truth[i];
        assert(x == ranking::ranked(row)[i]);
        assert(ranking::ranked(row).contains(x));
        assert(row.contains(x));
        knn::row_entries(knn::measures_from(exact, query), n, x);
        assert(a[j] == x);
        assert(truth.contains(x) && a.contains(x));
        larger_draft_keeps_neighbours(codes, query_code, exact, query, k, fewer, more, x);
        let l = choose|l: int| 0 <= l < b.len() && b[l] == x;
        assert(first_ids(b, k as nat)[l] == id);
    }
    vstd::seq_lib::seq_to_set_is_finite(first_ids(truth, k as nat));
    vstd::set_lib::lemma_len_subset(wanted.intersect(found_a), wanted.intersect(found_b));
    vstd::set_lib::lemma_len_subset(wanted.intersect(found_b), wanted);
    first_ids(truth, k as nat).lemma_cardinality_of_set();
    metrics::recall_grows(
        wanted.intersect(found_a).len(),
        wanted.intersect(found_b).len(),
        wanted.len(),
    );
}

/// A draft of everything makes the search exact.
pub proof fn full_draft_is_exact<M: Metric>(
    codes: Seq<Vec<u8>>,
    query_code: Seq<u8>,
    exact: &M,
    query: int,
    k: usize,
    mult: usize,
    x: Scored,
)
    requires
        codes.len() <= u32::MAX,
        0 < k,
        draft_size(k, mult) >= codes.len(),
        knn::nearest(exact, query, codes.len(), k as nat).contains(x),
    ensures
        verified(codes, query_code, exact, query, k, mult).contains(x),
{
    draft::all_drafted_holds(codes, query_code);
    found_iff_drafted(codes, query_code, exact, query, k, mult, x);
    let row = knn::scored_row(knn::measures_from(exact, query), codes.len());
    ranking::ranked_properties(row);
    let top = knn::nearest(exact, query, codes.len(), k as nat);
    let p = choose|p: int| 0 <= p < top.len() && top[p] == x;
    assert(ranking::ranked(row)[p] == x);
    assert(ranking::ranked(row).contains(x));
    assert(row.contains(x));
    knn::row_entries(knn::measures_from(exact, query), codes.len(), x);
    assert(draft::drafted_ids(draft::all_drafted(codes, query_code)).contains(x.id));
}

} // verus!
