//! Retrieval by a minimum cut between the query and its opposite.
use crate::float_order;
use crate::metric::Metric;
use crate::rag::corpus::Corpus;
use crate::rag::corpus::Query;
use crate::rag::corpus::RetrievalResult;
use crate::rag::corpus::RetrieverConfig;
use crate::rag::fixed;
use crate::rag::flow;
use crate::rag::sums;
use crate::rag::topk;
use crate::ranking;
use crate::ranking::Scored;
use vstd::prelude::*;

verus! {

/// Residual capacity that counts as none, one millionth in units.
pub const SLACK: u64 = 1_099_511;

/// One half.
pub const HALF: u32 = 0x3f00_0000;

/// The similarity of two chunks, measured from the one with the lower number.
pub open spec fn pair_sim<M: Metric>(pairs: &M, i: int, j: int) -> u32 {
    if i < j {
        pairs.measured(i, j)
    } else {
        pairs.measured(j, i)
    }
}

/// The capacity of an edge of the network: chunks are nodes `0..n`, the source is `n` and the
/// sink `n + 1`. The source is tied to each chunk by its similarity to the query, each chunk
/// to the sink by its dissimilarity, and chunks that are similar enough to each other.
pub open spec fn capacity<M: Metric>(
    sims: Seq<u32>,
    pairs: &M,
    threshold: u32,
    scale: u32,
    u: int,
    v: int,
) -> int {
    let n = sims.len() as int;
    if u == n && v < n {
        fixed::attraction_of(sims[v])
    } else if u < n && v == n + 1 {
        fixed::repulsion_of(sims[u])
    } else if u < n && v < n && u != v && float_order::at_most(threshold, pair_sim(pairs, u, v)) {
        fixed::bond_of(pair_sim(pairs, u, v), scale)
    } else {
        0
    }
}

/// A matrix holds the capacities of the network.
pub open spec fn is_network<M: Metric>(
    cap: Seq<Vec<u64>>,
    sims: Seq<u32>,
    pairs: &M,
    threshold: u32,
    scale: u32,
) -> bool {
    &&& flow::square(cap, sims.len() + 2)
    &&& forall|u: int, v: int|
        0 <= u < sims.len() + 2 && 0 <= v < sims.len() + 2 ==> #[trigger] flow::at(cap, u, v)
            == capacity(sims, pairs, threshold, scale, u, v)
}

/// The chunks on the source side with their similarities, in order.
pub open spec fn on_side(side: Seq<bool>, sims: Seq<u32>, n: nat) -> Seq<Scored>
    decreases n,
{
    if n == 0 {
        Seq::empty()
    } else {
        let before = on_side(side, sims, (n - 1) as nat);
        if side[n - 1] {
            before.push(Scored { id: (n - 1) as u32, bits: sims[n - 1] })
        } else {
            before
        }
    }
}

/// A number in units, with its sign.
pub open spec fn signed_units(bits: u32) -> int {
    if bits < float_order::SIGN_BIT {
        fixed::units_of(bits)
    } else {
        -fixed::units_of(bits)
    }
}

/// What it costs to keep a chunk of this similarity to the query: what the similarity lacks to
/// one, but at least one thousandth.
pub open spec fn cost_of_keeping(sim: u32) -> int {
    if !float_order::not_a_number(sim) && fixed::UNIT - signed_units(sim) >= fixed::MILLI_UNITS {
        fixed::UNIT - signed_units(sim)
    } else {
        fixed::MILLI_UNITS as int
    }
}

/// What it costs to leave out a chunk of this similarity to the query: the similarity, but at
/// least one thousandth.
pub open spec fn cost_of_leaving(sim: u32) -> int {
    if !float_order::not_a_number(sim) && signed_units(sim) >= fixed::MILLI_UNITS {
        signed_units(sim)
    } else {
        fixed::MILLI_UNITS as int
    }
}

/// What it costs to keep one of two chunks of this similarity and leave out the other: the
/// similarity times the factor where it reaches the threshold, nothing where it does not.
pub open spec fn cost_of_parting(sim: u32, threshold: u32, scale: u32) -> int {
    let product = signed_units(sim) * fixed::units_of(scale) / fixed::UNIT as int;
    if float_order::at_most(threshold, sim) && sim < float_order::SIGN_BIT {
        if product <= fixed::LIMIT {
            product
        } else {
            fixed::LIMIT as int
        }
    } else {
        0
    }
}

/// What it costs to keep some chunks and leave out the others. A pair that is parted counts
/// whichever of the two is kept.
pub open spec fn cost_of_split<M: Metric>(
    sims: Seq<u32>,
    pairs: &M,
    threshold: u32,
    scale: u32,
    kept: Set<int>,
) -> int {
    sums::total(
        |i: int|
            if kept.contains(i) {
                cost_of_keeping(sims[i])
            } else {
                cost_of_leaving(sims[i])
            },
        sims.len(),
    ) + sums::total_pairs(
        |i: int, j: int|
            if kept.contains(i) && !kept.contains(j) {
                cost_of_parting(
                    if i < j {
                        pairs.measured(i, j)
                    } else {
                        pairs.measured(j, i)
                    },
                    threshold,
                    scale,
                )
            } else {
                0
            },
        sims.len(),
    )
}

/// The network puts a price on every split of the chunks: the capacity of the cut that keeps
/// these chunks on the query's side is what the split costs.
pub proof fn cut_costs_what_it_splits<M: Metric>(
    cap: Seq<Vec<u64>>,
    sims: Seq<u32>,
    pairs: &M,
    threshold: u32,
    scale: u32,
    side: Set<int>,
)
    requires
        is_network(cap, sims, pairs, threshold, scale),
        side.contains(sims.len() as int),
        !side.contains(sims.len() as int + 1),
    ensures
        flow::cut_capacity(cap, sims.len() + 2, side) == cost_of_split(
            sims,
            pairs,
            threshold,
            scale,
            side,
        ),
{
    let n = sims.len();
    let k = n as int;
    let f = |u: int, v: int|
        if side.contains(u) && !side.contains(v) {
            flow::at(cap, u, v)
        } else {
            0
        };
    let tie = |i: int, j: int|
        if side.contains(i) && !side.contains(j) {
            cost_of_parting(
                if i < j {
                    pairs.measured(i, j)
                } else {
                    pairs.measured(j, i)
                },
                threshold,
                scale,
            )
        } else {
            0
        };
    let own = |i: int|
        if side.contains(i) {
            cost_of_keeping(sims[i])
        } else {
            cost_of_leaving(sims[i])
        };
    let row = |u: int| sums::total(|v: int| f(u, v), n + 2);
    let ties = |u: int| sums::total(|v: int| tie(u, v), n);
    let keep = |u: int|
        if side.contains(u) {
            cost_of_keeping(sims[u])
        } else {
            0
        };
    let leave = |u: int|
        if side.contains(u) {
            0
        } else {
            cost_of_leaving(sims[u])
        };
    assert forall|u: int| 0 <= u < n implies #[trigger] row(u) == ties(u) + keep(u) by {
        let line = |v: int| f(u, v);
        let end = |v: int| tie(u, v);
        assert(sums::total(line, n + 2) == sums::total(line, n) + line(k) + line(k + 1)) by {
            assert(sums::total(line, n + 1) == sums::total(line, n) + line(k));
        }
        assert forall|v: int| 0 <= v < n implies #[trigger] line(v) == end(v) by {
            if side.contains(u) && !side.contains(v) {
                assert(flow::at(cap, u, v) == capacity(sims, pairs, threshold, scale, u, v));
            }
        }
        sums::total_same(line, end, n);
        assert(line(k) == 0);
        if side.contains(u) {
            assert(flow::at(cap, u, k + 1) == capacity(sims, pairs, threshold, scale, u, k + 1));
            keeping_is_repulsion(sims[u]);
        }
    }
    sums::total_plus(ties, keep, row, n);
    assert(row(k) == sums::total(leave, n)) by {
        let line = |v: int| f(k, v);
        assert(sums::total(line, n + 2) == sums::total(line, n) + line(k) + line(k + 1)) by {
            assert(sums::total(line, n + 1) == sums::total(line, n) + line(k));
        }
        assert forall|v: int| 0 <= v < n implies #[trigger] line(v) == leave(v) by {
            if !side.contains(v) {
                assert(flow::at(cap, k, v) == capacity(sims, pairs, threshold, scale, k, v));
                leaving_is_attraction(sims[v]);
            }
        }
        sums::total_same(line, leave, n);
        assert(line(k) == 0);
        assert(flow::at(cap, k, k + 1) == capacity(sims, pairs, threshold, scale, k, k + 1));
    }
    assert(row(k + 1) == 0) by {
        sums::total_zero(|v: int| f(k + 1, v), n + 2);
    }
    assert(sums::total(row, n + 2) == sums::total(row, n) + row(k) + row(k + 1)) by {
        assert(sums::total(row, n + 1) == sums::total(row, n) + row(k));
    }
    sums::total_plus(keep, leave, own, n);
}

proof fn keeping_is_repulsion(sim: u32)
    ensures
        cost_of_keeping(sim) == fixed::repulsion_of(sim),
{
}

proof fn leaving_is_attraction(sim: u32)
    ensures
        cost_of_leaving(sim) == fixed::attraction_of(sim),
{
    fixed::milli_is_exact();
    fixed::units_are_bounded(sim);
    if sim < float_order::SIGN_BIT && !float_order::not_a_number(sim) {
        if sim < fixed::MILLI {
            fixed::units_grow(sim, fixed::MILLI);
        } else {
            fixed::units_grow(fixed::MILLI, sim);
        }
    }
}

/// Gives chunks on the query's side of a minimum cut.
pub struct MinCutRetriever {
    cfg: RetrieverConfig,
    edge_scale: u32,
}

impl MinCutRetriever {
    /// The configuration.
    pub closed spec fn cfg(&self) -> RetrieverConfig {
        self.cfg
    }

    /// The bits of the factor on capacities between chunks.
    pub closed spec fn scale(&self) -> u32 {
        self.edge_scale
    }

    /// A retriever with this configuration and a factor of one half.
    pub fn new(cfg: RetrieverConfig) -> (r: Self)
        requires
            cfg.valid(),
        ensures
            r.cfg() == cfg,
            r.scale() == HALF,
    {
        MinCutRetriever { cfg, edge_scale: HALF }
    }

    /// The retriever with another factor, which is finite and not negative.
    pub fn with_edge_scale(self, scale: u32) -> (r: Self)
        requires
            float_order::magnitude(scale) < float_order::INFINITY,
            float_order::at_most(0, scale),
        ensures
            r.cfg() == self.cfg(),
            r.scale() == scale,
    {
        MinCutRetriever { cfg: self.cfg, edge_scale: scale }
    }

    /// Name of the method.
    pub fn name(&self) -> (name: &'static str)
        ensures
            name@ == "MinCutBounded"@,
    {
        "MinCutBounded"
    }

    /// `result` lists the best chunks of the source side of a minimum cut of the network: some
    /// cut that separates query and opposite up to the slack, its chunks ranked by similarity
    /// and cut to the budget.
    pub open spec fn is_cut_listing<M: Metric>(
        &self,
        result: &RetrievalResult,
        sims: Seq<u32>,
        pairs: &M,
        cap: Seq<Vec<u64>>,
        cut: flow::Cut,
    ) -> bool {
        let n = sims.len() as int;
        &&& is_network(cap, sims, pairs, self.cfg().edge_threshold, self.scale())
        &&& cut.separates(cap, n, n + 1, SLACK)
        &&& topk::is_listing(
            result,
            ranking::first_k(
                ranking::ranked_high(on_side(cut.side@, sims, sims.len())),
                self.cfg().budget as nat,
            ),
        )
    }

    /// The chunks on the query's side of a minimum cut, most similar first, as many as the
    /// budget allows. `sims` are the similarities of query and chunks, `pairs` those between
    /// chunks.
    pub fn retrieve<M: Metric>(
        &self,
        corpus: &Corpus,
        query: &Query,
        sims: &Vec<u32>,
        pairs: &M,
    ) -> (result: RetrievalResult)
        requires
            corpus.wf(),
            self.cfg().valid(),
            corpus.chunks@.len() > 0 ==> query.vector@.len() == corpus.dim,
            corpus.chunks@.len() + 2 <= u32::MAX,
            sims@.len() == corpus.chunks@.len(),
            corpus.chunks@.len() <= pairs.sources(),
            corpus.chunks@.len() <= pairs.targets(),
        ensures
            sims@.len() == 0 ==> result.chunks@.len() == 0 && result.scores@.len() == 0,
            sims@.len() > 0 ==> exists|cap: Seq<Vec<u64>>, cut: flow::Cut| #[trigger]
                self.is_cut_listing(&result, sims@, pairs, cap, cut),
            result.keeps_to(self.cfg().budget as nat),
            result.chunks@.no_duplicates(),
            forall|i: int| 0 <= i < result.chunks@.len() ==> #[trigger] result.chunks@[i] < sims@.len(),
    {
        if corpus.chunks.len() == 0 {
            return RetrievalResult::nothing(self.cfg.budget);
        }
        let n: usize = sims.len();
        let cap = self.network(sims, pairs);
        proof {
            assert forall|u: int, v: int|
                0 <= u < cap@.len() && 0 <= v < cap@.len() implies #[trigger] flow::at(cap@, u, v)
                + flow::at(cap@, v, u) <= u64::MAX by {
                capacity_is_bounded(sims@, pairs, self.cfg().edge_threshold, self.scale(), u, v);
                capacity_is_bounded(sims@, pairs, self.cfg().edge_threshold, self.scale(), v, u);
                assert(flow::at(cap@, v, u) == capacity(
                    sims@,
                    pairs,
                    self.cfg().edge_threshold,
                    self.scale(),
                    v,
                    u,
                ));
            }
        }
        let cut = flow::minimum_cut(&cap, n, n + 1, SLACK);
        let mut list: Vec<Scored> = Vec::new();
        let mut i: usize = 0;
        while i < n
            invariant
                i <= n,
                n == sims@.len(),
                n <= u32::MAX,
                cut.side@.len() == n + 2,
                list@ == on_side(cut.side@, sims@, i as nat),
            decreases n - i,
        {
            if cut.side[i] {
                list.push(Scored { id: i as u32, bits: sims[i] });
            }
            i += 1;
        }
        let mut top = ranking::rank_high(list.as_slice());
        let ghost whole = top@;
        if self.cfg.budget < top.len() {
            top.truncate(self.cfg.budget);
            assert(top@ =~= whole.take(self.cfg.budget as int));
        }
        let result = topk::listing(&top, self.cfg.budget);
        proof {
            side_entries(cut.side@, sims@, n as nat);
            ranking::ranked_high_properties(list@);
            assert(self.is_cut_listing(&result, sims@, pairs, cap@, cut));
            assert forall|a: int| 0 <= a < top@.len() implies (#[trigger] top@[a]).id < sims@.len() by {
                assert(whole.contains(whole[a]));
                assert(list@.contains(whole[a]));
            }
            topk::listed_once(&result, top@, sims@.len());
        }
        result
    }

    fn network<M: Metric>(&self, sims: &Vec<u32>, pairs: &M) -> (cap: Vec<Vec<u64>>)
        requires
            sims@.len() + 2 <= u32::MAX,
            sims@.len() <= pairs.sources(),
            sims@.len() <= pairs.targets(),
        ensures
            is_network(cap@, sims@, pairs, self.cfg().edge_threshold, self.scale()),
    {
        let n: usize = sims.len();
        let ghost threshold = self.cfg().edge_threshold;
        let ghost scale = self.scale();
        let mut cap: Vec<Vec<u64>> = Vec::new();
        let mut u: usize = 0;
        while u < n + 2
            invariant
                n == sims@.len(),
                n + 2 <= u32::MAX,
                n <= pairs.sources(),
                n <= pairs.targets(),
                threshold == self.cfg.edge_threshold,
                scale == self.edge_scale,
                u <= n + 2,
                cap@.len() == u,
                forall|a: int| 0 <= a < u ==> (#[trigger] cap@[a])@.len() == n + 2,
                forall|a: int, b: int|
                    0 <= a < u && 0 <= b < n + 2 ==> #[trigger] flow::at(cap@, a, b) == capacity(
                        sims@,
                        pairs,
                        threshold,
                        scale,
                        a,
                        b,
                    ),
            decreases n + 2 - u,
        {
            let mut row: Vec<u64> = Vec::new();
            let mut v: usize = 0;
            while v < n + 2
                invariant
                    n == sims@.len(),
                    n + 2 <= u32::MAX,
                    n <= pairs.sources(),
                    n <= pairs.targets(),
                    threshold == self.cfg.edge_threshold,
                    scale == self.edge_scale,
                    u < n + 2,
                    v <= n + 2,
                    row@.len() == v,
                    forall|b: int|
                        0 <= b < v ==> #[trigger] row@[b] == capacity(
                            sims@,
                            pairs,
                            threshold,
                            scale,
                            u as int,
                            b,
                        ),
                decreases n + 2 - v,
            {
                let amount: u64 = if u == n && v < n {
                    fixed::attraction(sims[v])
                } else if u < n && v == n + 1 {
                    fixed::repulsion(sims[u])
                } else if u < n && v < n && u != v {
                    let sim: u32 = if u < v {
                        pairs.measure(u as u32, v as u32)
                    } else {
                        pairs.measure(v as u32, u as u32)
                    };
                    if float_order::less_or_equal(self.cfg.edge_threshold, sim) {
                        fixed::bond(sim, self.edge_scale)
                    } else {
                        0
                    }
                } else {
                    0
                };
                row.push(amount);
                v += 1;
            }
            let ghost before = cap@;
            cap.push(row);
            proof {
                assert forall|a: int, b: int|
                    0 <= a < u + 1 && 0 <= b < n + 2 implies #[trigger] flow::at(cap@, a, b)
                    == capacity(sims@, pairs, threshold, scale, a, b) by {
                    if a < u {
                        assert(flow::at(before, a, b) == capacity(
                            sims@,
                            pairs,
                            threshold,
                            scale,
                            a,
                            b,
                        ));
                    } else {
                        assert(row@[b] == capacity(sims@, pairs, threshold, scale, a, b));
                    }
                }
            }
            u += 1;
        }
        cap
    }

    /// The chunks retrieved are the best of a split of all chunks that costs least: no other
    /// split is cheaper by more than a millionth for each pair of nodes. All chunks that the
    /// split keeps are retrieved unless the budget is used up, and then those left out are no
    /// more similar to the query than those retrieved.
    pub proof fn result_is_cheapest_split<M: Metric>(
        &self,
        result: &RetrievalResult,
        sims: Seq<u32>,
        pairs: &M,
        cap: Seq<Vec<u64>>,
        cut: flow::Cut,
        other: Set<int>,
    )
        requires
            self.is_cut_listing(result, sims, pairs, cap, cut),
            sims.len() <= u32::MAX,
        ensures
            ({
                let n = sims.len();
                let threshold = self.cfg().edge_threshold;
                let kept = Set::new(|i: int| 0 <= i < n && cut.side@[i]);
                &&& cost_of_split(sims, pairs, threshold, self.scale(), kept) <= cost_of_split(
                    sims,
                    pairs,
                    threshold,
                    self.scale(),
                    other,
                ) + 1_099_511 * ((n + 2) * (n + 2))
                &&& forall|a: int|
                    0 <= a < result.chunks@.len() ==> kept.contains(#[trigger] result.chunks@[a] as int)
                        && result.scores@[a] == sims[result.chunks@[a] as int]
                &&& forall|a: int, b: int|
                    0 <= a < b < result.chunks@.len() ==> result.chunks@[a] != result.chunks@[b]
                        && (float_order::total_rank(#[trigger] result.scores@[a])
                        > float_order::total_rank(#[trigger] result.scores@[b]) || (
                    result.scores@[a] == result.scores@[b] && result.chunks@[a]
                        < result.chunks@[b]))
                &&& forall|i: u32|
                    kept.contains(i as int) ==> #[trigger] result.chunks@.contains(i) || (
                    result.chunks@.len() == self.cfg().budget && forall|a: int|
                        0 <= a < result.chunks@.len() ==> float_order::total_rank(sims[i as int])
                            <= float_order::total_rank(#[trigger] result.scores@[a]))
            }),
    {
        let n = sims.len();
        let k = n as int;
        let threshold = self.cfg().edge_threshold;
        let scale = self.scale();
        let kept = Set::new(|i: int| 0 <= i < n && cut.side@[i]);
        let side = flow::marked(cut.side@);
        let rival = Set::new(|i: int| i == k || (0 <= i < n && other.contains(i)));
        self.listing_is_minimum_cut(result, sims, pairs, cap, cut, rival);
        cut_costs_what_it_splits(cap, sims, pairs, threshold, scale, side);
        cut_costs_what_it_splits(cap, sims, pairs, threshold, scale, rival);
        same_split(sims, pairs, threshold, scale, side, kept);
        same_split(sims, pairs, threshold, scale, rival, other);
        separated_pairs(n + 2, side);
        let p = flow::cut_pairs(n + 2, side);
        assert(SLACK * p <= 1_099_511 * ((n + 2) * (n + 2))) by (nonlinear_arith)
            requires
                p <= (n + 2) * (n + 2),
                SLACK == 1_099_511,
        ;
        let list = on_side(cut.side@, sims, n);
        let whole = ranking::ranked_high(list);
        let budget = self.cfg().budget as nat;
        let top = ranking::first_k(whole, budget);
        side_entries(cut.side@, sims, n);
        ranking::ranked_high_properties(list);
        assert forall|a: int| 0 <= a < result.chunks@.len() implies kept.contains(
            #[trigger] result.chunks@[a] as int,
        ) && result.scores@[a] == sims[result.chunks@[a] as int] by {
            assert(top[a] == whole[a]);
            assert(whole.contains(whole[a]));
            assert(list.contains(whole[a]));
        }
        assert forall|a: int, b: int| 0 <= a < b < result.chunks@.len() implies result.chunks@[a]
            != result.chunks@[b] && (float_order::total_rank(#[trigger] result.scores@[a])
            > float_order::total_rank(#[trigger] result.scores@[b]) || (result.scores@[a]
            == result.scores@[b] && result.chunks@[a] < result.chunks@[b])) by {
            assert(top[a] == whole[a] && top[b] == whole[b]);
            assert(ranking::leads_high(whole[a], whole[b]));
            assert(whole[a].id != whole[b].id);
            float_order::below_is_lower_rank(whole[a].bits, whole[b].bits);
        }
        assert forall|i: u32| kept.contains(i as int) implies #[trigger] result.chunks@.contains(i)
            || (result.chunks@.len() == self.cfg().budget && forall|a: int|
            0 <= a < result.chunks@.len() ==> float_order::total_rank(sims[i as int])
                <= float_order::total_rank(#[trigger] result.scores@[a])) by {
            let x = Scored { id: i, bits: sims[i as int] };
            side_is_listed(cut.side@, sims, n, i);
            assert(whole.contains(x));
            let at = choose|at: int| 0 <= at < whole.len() && whole[at] == x;
            if at < top.len() {
                assert(result.chunks@[at] == i);
            } else {
                assert forall|a: int| 0 <= a < result.chunks@.len() implies float_order::total_rank(
                    sims[i as int],
                ) <= float_order::total_rank(#[trigger] result.scores@[a]) by {
                    assert(top[a] == whole[a]);
                    assert(ranking::leads_high(whole[a], whole[at]));
                }
            }
        }
    }

    /// Of several cheapest splits the one that keeps fewest is taken: where the flow left every
    /// edge either empty or with more than the slack, all that is kept is kept by every split
    /// that costs no more.
    pub proof fn cheapest_split_is_least<M: Metric>(
        &self,
        result: &RetrievalResult,
        sims: Seq<u32>,
        pairs: &M,
        cap: Seq<Vec<u64>>,
        cut: flow::Cut,
        other: Set<int>,
        i: int,
    )
        requires
            self.is_cut_listing(result, sims, pairs, cap, cut),
            sims.len() <= u32::MAX,
            forall|u: int, v: int|
                0 <= u < sims.len() + 2 && 0 <= v < sims.len() + 2 ==> #[trigger] flow::at(
                    cut.residual@,
                    u,
                    v,
                ) == 0 || flow::at(cut.residual@, u, v) > 1_099_511,
            cost_of_split(sims, pairs, self.cfg().edge_threshold, self.scale(), other)
                <= cost_of_split(
                sims,
                pairs,
                self.cfg().edge_threshold,
                self.scale(),
                Set::new(|j: int| 0 <= j < sims.len() && cut.side@[j]),
            ),
            0 <= i < sims.len(),
            cut.side@[i],
        ensures
            other.contains(i),
    {
        let n = sims.len();
        let k = n as int;
        let threshold = self.cfg().edge_threshold;
        let scale = self.scale();
        let res = cut.residual@;
        let kept = Set::new(|j: int| 0 <= j < n && cut.side@[j]);
        let side = flow::marked(cut.side@);
        let rival = Set::new(|j: int| j == k || (0 <= j < n && other.contains(j)));
        cut_costs_what_it_splits(cap, sims, pairs, threshold, scale, side);
        cut_costs_what_it_splits(cap, sims, pairs, threshold, scale, rival);
        same_split(sims, pairs, threshold, scale, side, kept);
        same_split(sims, pairs, threshold, scale, rival, other);
        assert(flow::is_reach(res, n + 2, 0, k, side)) by {
            assert(flow::is_reach(res, n + 2, SLACK, k, side));
            assert forall|u: int, v: int|
                0 <= u < n + 2 && 0 <= v < n + 2 && side.contains(u) && #[trigger] flow::at(res, u, v)
                    > 0u64 implies side.contains(v) by {
                assert(flow::at(res, u, v) > SLACK);
            }
            assert forall|s: Set<int>|
                s.contains(k) && #[trigger] flow::closed_under(res, n + 2, 0, s) implies side.subset_of(
                s,
            ) by {
                assert(flow::closed_under(res, n + 2, SLACK, s)) by {
                    assert forall|u: int, v: int|
                        0 <= u < n + 2 && 0 <= v < n + 2 && s.contains(u) && #[trigger] flow::at(
                            res,
                            u,
                            v,
                        ) > SLACK implies s.contains(v) by {
                        assert(flow::at(res, u, v) > 0u64);
                    }
                }
            }
        }
        flow::reach_is_least_minimum_cut(cap, res, n + 2, k, k + 1, side, rival);
        assert(side.contains(i));
        assert(rival.contains(i));
    }

    /// The cut behind a result is a minimum cut of the network up to the slack: no other cut
    /// between the query and its opposite is smaller by more than the slack of the pairs that
    /// it separates.
    pub proof fn listing_is_minimum_cut<M: Metric>(
        &self,
        result: &RetrievalResult,
        sims: Seq<u32>,
        pairs: &M,
        cap: Seq<Vec<u64>>,
        cut: flow::Cut,
        other: Set<int>,
    )
        requires
            self.is_cut_listing(result, sims, pairs, cap, cut),
            other.contains(sims.len() as int),
            !other.contains(sims.len() as int + 1),
        ensures
            flow::cut_capacity(cap, sims.len() + 2, flow::marked(cut.side@)) <= flow::cut_capacity(
                cap,
                sims.len() + 2,
                other,
            ) + SLACK * flow::cut_pairs(sims.len() + 2, flow::marked(cut.side@)),
    {
        let n = sims.len() as int;
        flow::reach_is_minimum_cut(
            cap,
            cut.residual@,
            sims.len() + 2,
            n,
            n + 1,
            SLACK,
            flow::marked(cut.side@),
            other,
        );
    }
}

proof fn separated_pairs(n: nat, side: Set<int>)
    ensures
        0 <= flow::cut_pairs(n, side) <= n * n,
{
    let f = |u: int, v: int|
        if side.contains(u) && !side.contains(v) {
            1int
        } else {
            0int
        };
    let one = |u: int, v: int| 1int;
    let none = |u: int, v: int| 0int;
    sums::pairs_monotone(f, one, n);
    sums::pairs_monotone(none, f, n);
    sums::pairs_count(n);
    let zero = |u: int| sums::total(|v: int| none(u, v), n);
    assert forall|u: int| 0 <= u < n implies #[trigger] zero(u) == 0 by {
        sums::total_zero(|v: int| none(u, v), n);
    }
    sums::total_zero(zero, n);
}

proof fn units_are_bounded(bits: u32)
    ensures
        0 <= fixed::units_of(bits) <= fixed::LIMIT,
{
    fixed::units_are_bounded(bits);
}

proof fn capacity_is_bounded<M: Metric>(
    sims: Seq<u32>,
    pairs: &M,
    threshold: u32,
    scale: u32,
    u: int,
    v: int,
)
    ensures
        capacity(sims, pairs, threshold, scale, u, v) <= fixed::LIMIT + fixed::UNIT,
{
    let n = sims.len() as int;
    if u == n && v < n {
        units_are_bounded(float_order::larger(sims[v], fixed::MILLI));
    } else if u < n && v == n + 1 {
        units_are_bounded(sims[u]);
    } else {
        units_are_bounded(pair_sim(pairs, u, v));
        units_are_bounded(scale);
    }
}

proof fn same_split<M: Metric>(
    sims: Seq<u32>,
    pairs: &M,
    threshold: u32,
    scale: u32,
    a: Set<int>,
    b: Set<int>,
)
    requires
        forall|i: int| 0 <= i < sims.len() ==> #[trigger] a.contains(i) == b.contains(i),
    ensures
        cost_of_split(sims, pairs, threshold, scale, a) == cost_of_split(
            sims,
            pairs,
            threshold,
            scale,
            b,
        ),
{
    let n = sims.len();
    let own = |s: Set<int>|
        |i: int|
            if s.contains(i) {
                cost_of_keeping(sims[i])
            } else {
                cost_of_leaving(sims[i])
            };
    let tie = |s: Set<int>|
        |i: int, j: int|
            if s.contains(i) && !s.contains(j) {
                cost_of_parting(
                    if i < j {
                        pairs.measured(i, j)
                    } else {
                        pairs.measured(j, i)
                    },
                    threshold,
                    scale,
                )
            } else {
                0
            };
    assert forall|i: int| 0 <= i < n implies #[trigger] own(a)(i) == own(b)(i) by {
        assert(a.contains(i) == b.contains(i));
    }
    sums::total_same(own(a), own(b), n);
    assert forall|i: int, j: int| 0 <= i < n && 0 <= j < n implies #[trigger] tie(a)(i, j) == tie(b)(
        i,
        j,
    ) by {
        assert(a.contains(i) == b.contains(i));
        assert(a.contains(j) == b.contains(j));
    }
    sums::pairs_monotone(tie(a), tie(b), n);
    assert forall|i: int, j: int| 0 <= i < n && 0 <= j < n implies #[trigger] tie(b)(i, j) <= tie(a)(
        i,
        j,
    ) by {
        assert(tie(a)(i, j) == tie(b)(i, j));
    }
    sums::pairs_monotone(tie(b), tie(a), n);
}

proof fn side_is_listed(side: Seq<bool>, sims: Seq<u32>, n: nat, i: u32)
    requires
        n <= u32::MAX,
        i < n,
        side[i as int],
    ensures
        on_side(side, sims, n).contains(Scored { id: i, bits: sims[i as int] }),
    decreases n,
{
    let before = on_side(side, sims, (n - 1) as nat);
    let after = on_side(side, sims, n);
    let x = Scored { id: i, bits: sims[i as int] };
    if i == n - 1 {
        assert(after[after.len() - 1] == x);
    } else {
        side_is_listed(side, sims, (n - 1) as nat, i);
        let at = choose|at: int| 0 <= at < before.len() && before[at] == x;
        assert(after[at] == x);
    }
}

proof fn side_entries(side: Seq<bool>, sims: Seq<u32>, n: nat)
    requires
        n <= u32::MAX,
    ensures
        ranking::distinct_ids(on_side(side, sims, n)),
        forall|i: int|
            0 <= i < on_side(side, sims, n).len() ==> (#[trigger] on_side(side, sims, n)[i]).id < n,
        forall|x: Scored| #[trigger]
            on_side(side, sims, n).contains(x) ==> x.id < n && side[x.id as int] && x.bits
                == sims[x.id as int],
    decreases n,
{
    if n > 0 {
        side_entries(side, sims, (n - 1) as nat);
        let before = on_side(side, sims, (n - 1) as nat);
        let after = on_side(side, sims, n);
        assert forall|x: Scored| #[trigger] after.contains(x) implies x.id < n && side[x.id as int]
            && x.bits == sims[x.id as int] by {
            let i = choose|i: int| 0 <= i < after.len() && after[i] == x;
            if i < before.len() {
                assert(before.contains(before[i]));
            }
        }
    }
}

} // verus!
