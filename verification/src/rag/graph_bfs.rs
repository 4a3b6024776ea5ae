//! Retrieval by best-first expansion of a similarity graph.
use crate::float_order;
use crate::metric::Metric;
use crate::rag::corpus::Corpus;
use crate::rag::corpus::Query;
use crate::rag::corpus::RetrievalResult;
use crate::rag::corpus::RetrieverConfig;
use crate::rag::mincut;
use crate::rag::topk;
use crate::ranking;
use crate::ranking::Scored;
use vstd::prelude::*;

verus! {

/// State of an expansion.
pub struct Walk {
    /// Offers not looked at yet, best first, with negated scores.
    pub heap: Seq<Scored>,
    /// Chunks taken, in order.
    pub taken: Seq<Scored>,
}

/// Whether a chunk was taken.
pub open spec fn is_taken(taken: Seq<Scored>, id: u32) -> bool {
    exists|i: int| 0 <= i < taken.len() && (#[trigger] taken[i]).id == id
}

/// The chunks below `n` that are linked to `id`, each with the score it is offered with: the
/// lower of the edge's similarity and its own.
pub open spec fn offers<M: Metric>(sims: Seq<u32>, pairs: &M, threshold: u32, id: u32, n: nat) -> Seq<Scored>
    decreases n,
{
    if n == 0 {
        Seq::empty()
    } else {
        let before = offers(sims, pairs, threshold, id, (n - 1) as nat);
        let edge = mincut::pair_sim(pairs, id as int, n - 1);
        if n - 1 != id && float_order::at_most(threshold, edge) {
            before.push(
                Scored { id: (n - 1) as u32, bits: float_order::smaller(edge, sims[n - 1]) },
            )
        } else {
            before
        }
    }
}

/// The heap after an offer.
pub open spec fn offered(heap: Seq<Scored>, taken: Seq<Scored>, x: Scored) -> Seq<Scored> {
    if is_taken(taken, x.id) {
        heap
    } else {
        ranking::ranked(heap.push(ranking::flipped(x)))
    }
}

/// The heap after several offers.
pub open spec fn all_offered(heap: Seq<Scored>, taken: Seq<Scored>, xs: Seq<Scored>) -> Seq<Scored>
    decreases xs.len(),
{
    if xs.len() == 0 {
        heap
    } else {
        offered(all_offered(heap, taken, xs.drop_last()), taken, xs.last())
    }
}

/// The chunks that are similar enough to the query to start from.
pub open spec fn seeds(sims: Seq<u32>, threshold: u32, n: nat) -> Seq<Scored>
    decreases n,
{
    if n == 0 {
        Seq::empty()
    } else {
        let before = seeds(sims, threshold, (n - 1) as nat);
        if float_order::at_most(threshold, sims[n - 1]) {
            before.push(Scored { id: (n - 1) as u32, bits: sims[n - 1] })
        } else {
            before
        }
    }
}

/// The last of the first `n` chunks that no other of them exceeds.
pub open spec fn last_best(sims: Seq<u32>, n: nat) -> int
    decreases n,
{
    if n <= 1 {
        0
    } else {
        let before = last_best(sims, (n - 1) as nat);
        if float_order::total_rank(sims[before]) <= float_order::total_rank(sims[n - 1]) {
            n - 1
        } else {
            before
        }
    }
}

/// Where an expansion starts: the seeds, or the single best chunk where there is none.
pub open spec fn starts(sims: Seq<u32>, threshold: u32) -> Seq<Scored> {
    let s = seeds(sims, threshold, sims.len());
    if s.len() == 0 {
        let best = last_best(sims, sims.len());
        seq![Scored { id: best as u32, bits: sims[best] }]
    } else {
        s
    }
}

/// Whether the expansion is over: nothing is offered, or the budget is used up and the best
/// offer is new.
pub open spec fn finished(w: Walk, budget: nat) -> bool {
    w.heap.len() == 0 || (!is_taken(w.taken, w.heap[0].id) && w.taken.len() >= budget)
}

/// The state after looking at the best offer: a chunk taken before is passed over, another is
/// taken and the chunks linked to it are offered.
pub open spec fn stepped<M: Metric>(w: Walk, sims: Seq<u32>, pairs: &M, threshold: u32) -> Walk {
    let x = ranking::flipped(w.heap[0]);
    let rest = w.heap.drop_first();
    if is_taken(w.taken, x.id) {
        Walk { heap: rest, taken: w.taken }
    } else {
        let taken = w.taken.push(x);
        Walk {
            heap: all_offered(rest, taken, offers(sims, pairs, threshold, x.id, sims.len())),
            taken,
        }
    }
}

/// The state after at most `steps` looks.
pub open spec fn walked<M: Metric>(
    w: Walk,
    sims: Seq<u32>,
    pairs: &M,
    threshold: u32,
    budget: nat,
    steps: nat,
) -> Walk
    decreases steps,
{
    if steps == 0 || finished(w, budget) {
        w
    } else {
        walked(stepped(w, sims, pairs, threshold), sims, pairs, threshold, budget, (steps - 1) as nat)
    }
}

/// The state at the beginning.
pub open spec fn begun(sims: Seq<u32>, threshold: u32) -> Walk {
    Walk {
        heap: all_offered(Seq::empty(), Seq::empty(), starts(sims, threshold)),
        taken: Seq::empty(),
    }
}

/// The chunks that an expansion takes. Each chunk is taken once and offers each other chunk at
/// most once, so there are no more looks than starts and pairs.
pub open spec fn expansion<M: Metric>(cfg: RetrieverConfig, sims: Seq<u32>, pairs: &M) -> Seq<Scored> {
    walked(
        begun(sims, cfg.seed_threshold),
        sims,
        pairs,
        cfg.edge_threshold,
        cfg.budget as nat,
        sims.len() * (sims.len() + 1),
    ).taken
}

/// A chunk that was taken is a start, or is linked to one taken before it.
pub open spec fn is_linked<M: Metric>(
    taken: Seq<Scored>,
    sims: Seq<u32>,
    pairs: &M,
    cfg: RetrieverConfig,
    i: int,
) -> bool {
    ||| exists|s: int|
        0 <= s < starts(sims, cfg.seed_threshold).len() && (#[trigger] starts(
            sims,
            cfg.seed_threshold,
        )[s]).id == taken[i].id
    ||| exists|j: int|
        0 <= j < i && float_order::at_most(
            cfg.edge_threshold,
            mincut::pair_sim(pairs, (#[trigger] taken[j]).id as int, taken[i].id as int),
        )
}

/// An offer names a chunk that may be taken: a start, or one linked to a taken one.
pub open spec fn is_due<M: Metric>(
    taken: Seq<Scored>,
    sims: Seq<u32>,
    pairs: &M,
    cfg: RetrieverConfig,
    id: u32,
) -> bool {
    ||| exists|s: int|
        0 <= s < starts(sims, cfg.seed_threshold).len() && (#[trigger] starts(
            sims,
            cfg.seed_threshold,
        )[s]).id == id
    ||| exists|j: int|
        0 <= j < taken.len() && float_order::at_most(
            cfg.edge_threshold,
            mincut::pair_sim(pairs, (#[trigger] taken[j]).id as int, id as int),
        )
}

/// What every state of an expansion satisfies.
pub open spec fn is_walk<M: Metric>(w: Walk, sims: Seq<u32>, pairs: &M, cfg: RetrieverConfig) -> bool {
    &&& ranking::in_order(w.heap)
    &&& ranking::distinct_ids(w.taken)
    &&& w.taken.len() <= cfg.budget
    &&& forall|i: int| 0 <= i < w.heap.len() ==> (#[trigger] w.heap[i]).id < sims.len()
    &&& forall|i: int| 0 <= i < w.taken.len() ==> (#[trigger] w.taken[i]).id < sims.len()
    &&& forall|i: int|
        0 <= i < w.heap.len() ==> is_due(w.taken, sims, pairs, cfg, (#[trigger] w.heap[i]).id)
    &&& forall|i: int| 0 <= i < w.taken.len() ==> #[trigger] is_linked(w.taken, sims, pairs, cfg, i)
}

proof fn offers_hold<M: Metric>(sims: Seq<u32>, pairs: &M, threshold: u32, id: u32, n: nat)
    requires
        id < sims.len() <= u32::MAX,
        n <= sims.len(),
    ensures
        offers(sims, pairs, threshold, id, n).len() <= n,
        id < n ==> offers(sims, pairs, threshold, id, n).len() < n,
        forall|i: int|
            0 <= i < offers(sims, pairs, threshold, id, n).len() ==> {
                let x = #[trigger] offers(sims, pairs, threshold, id, n)[i];
                &&& x.id < n
                &&& float_order::at_most(
                    threshold,
                    mincut::pair_sim(pairs, id as int, x.id as int),
                )
            },
    decreases n,
{
    if n > 0 {
        offers_hold(sims, pairs, threshold, id, (n - 1) as nat);
    }
}

proof fn all_offered_holds(heap: Seq<Scored>, taken: Seq<Scored>, xs: Seq<Scored>)
    requires
        ranking::in_order(heap),
    ensures
        ranking::in_order(all_offered(heap, taken, xs)),
        heap.len() <= all_offered(heap, taken, xs).len() <= heap.len() + xs.len(),
        forall|i: int|
            0 <= i < all_offered(heap, taken, xs).len() ==> {
                let y = #[trigger] all_offered(heap, taken, xs)[i];
                heap.contains(y) || exists|j: int| 0 <= j < xs.len() && (#[trigger] xs[j]).id == y.id
            },
    decreases xs.len(),
{
    if xs.len() > 0 {
        let front = xs.drop_last();
        all_offered_holds(heap, taken, front);
        let mid = all_offered(heap, taken, front);
        let x = ranking::flipped(xs.last());
        let end = all_offered(heap, taken, xs);
        ranking::ranked_properties(mid.push(x));
        assert forall|i: int| 0 <= i < end.len() implies {
            let y = #[trigger] end[i];
            heap.contains(y) || exists|j: int| 0 <= j < xs.len() && (#[trigger] xs[j]).id == y.id
        } by {
            let y = end[i];
            if is_taken(taken, x.id) {
                assert(mid[i] == y);
            } else {
                assert(end.contains(y));
                assert(mid.push(x).contains(y));
                let a = choose|a: int| 0 <= a < mid.push(x).len() && mid.push(x)[a] == y;
                if a < mid.len() {
                    assert(mid[a] == y);
                } else {
                    assert(xs[xs.len() - 1].id == y.id);
                }
            }
            if !heap.contains(y) && !(exists|j: int|
                0 <= j < xs.len() && (#[trigger] xs[j]).id == y.id) {
                let a = choose|a: int| 0 <= a < mid.len() && mid[a] == y;
                assert(mid[a] == y);
                let j = choose|j: int| 0 <= j < front.len() && (#[trigger] front[j]).id == y.id;
                assert(xs[j].id == y.id);
            }
        }
    } else {
        assert forall|i: int| 0 <= i < heap.len() implies heap.contains(#[trigger] heap[i]) by {}
    }
}

/// A look keeps the state sound.
proof fn stepped_holds<M: Metric>(w: Walk, sims: Seq<u32>, pairs: &M, cfg: RetrieverConfig)
    requires
        is_walk(w, sims, pairs, cfg),
        sims.len() <= u32::MAX,
        !finished(w, cfg.budget as nat),
    ensures
        is_walk(stepped(w, sims, pairs, cfg.edge_threshold), sims, pairs, cfg),
        measure(stepped(w, sims, pairs, cfg.edge_threshold), sims.len()) < measure(w, sims.len()),
        w.taken.len() <= sims.len(),
{
    let threshold = cfg.edge_threshold;
    let x = ranking::flipped(w.heap[0]);
    let rest = w.heap.drop_first();
    let t = stepped(w, sims, pairs, threshold);
    taken_fits(w.taken, sims.len());
    assert(ranking::in_order(rest));
    assert forall|i: int| 0 <= i < rest.len() implies (#[trigger] rest[i]).id < sims.len()
        && is_due(w.taken, sims, pairs, cfg, rest[i].id) by {
        assert(rest[i] == w.heap[i + 1]);
    }
    if !is_taken(w.taken, x.id) {
        let taken = w.taken.push(x);
        let list = offers(sims, pairs, threshold, x.id, sims.len());
        assert(w.heap[0].id < sims.len());
        offers_hold(sims, pairs, threshold, x.id, sims.len());
        all_offered_holds(rest, taken, list);
        assert(ranking::distinct_ids(taken)) by {
            assert forall|i: int, j: int| 0 <= i < j < taken.len() implies (#[trigger] taken[i]).id
                != (#[trigger] taken[j]).id by {
                if j == w.taken.len() {
                    assert(w.taken[i].id != x.id);
                } else {
                    assert(w.taken[i].id != w.taken[j].id);
                }
            }
        }
        assert forall|i: int| 0 <= i < t.heap.len() implies (#[trigger] t.heap[i]).id < sims.len()
            && is_due(taken, sims, pairs, cfg, t.heap[i].id) by {
            let y = t.heap[i];
            if rest.contains(y) {
                let a = choose|a: int| 0 <= a < rest.len() && rest[a] == y;
                assert(is_due(w.taken, sims, pairs, cfg, rest[a].id));
                due_stays(w.taken, x, sims, pairs, cfg, y.id);
            } else {
                let j = choose|j: int| 0 <= j < list.len() && (#[trigger] list[j]).id == y.id;
                assert(list[j].id < sims.len());
                assert(taken[taken.len() - 1] == x);
                assert(float_order::at_most(
                    threshold,
                    mincut::pair_sim(pairs, taken[taken.len() - 1].id as int, y.id as int),
                ));
            }
        }
        assert forall|i: int| 0 <= i < taken.len() implies #[trigger] is_linked(
            taken,
            sims,
            pairs,
            cfg,
            i,
        ) by {
            if i < w.taken.len() {
                assert(is_linked(w.taken, sims, pairs, cfg, i));
                assert(taken[i] == w.taken[i]);
                if exists|j: int|
                    0 <= j < i && float_order::at_most(
                        threshold,
                        mincut::pair_sim(
                            pairs,
                            (#[trigger] w.taken[j]).id as int,
                            w.taken[i].id as int,
                        ),
                    ) {
                    let j = choose|j: int|
                        0 <= j < i && float_order::at_most(
                            threshold,
                            mincut::pair_sim(
                                pairs,
                                (#[trigger] w.taken[j]).id as int,
                                w.taken[i].id as int,
                            ),
                        );
                    assert(taken[j] == w.taken[j]);
                }
            } else {
                assert(is_due(w.taken, sims, pairs, cfg, w.heap[0].id));
                if exists|j: int|
                    0 <= j < w.taken.len() && float_order::at_most(
                        threshold,
                        mincut::pair_sim(pairs, (#[trigger] w.taken[j]).id as int, x.id as int),
                    ) {
                    let j = choose|j: int|
                        0 <= j < w.taken.len() && float_order::at_most(
                            threshold,
                            mincut::pair_sim(pairs, (#[trigger] w.taken[j]).id as int, x.id as int),
                        );
                    assert(taken[j] == w.taken[j]);
                }
            }
        }
        assert forall|i: int| 0 <= i < taken.len() implies (#[trigger] taken[i]).id
            < sims.len() by {
            if i < w.taken.len() {
                assert(w.taken[i].id < sims.len());
            }
        }
        taken_fits(taken, sims.len());
        let n = sims.len() as int;
        let a = n - w.taken.len();
        assert((a - 1) * n == a * n - n) by (nonlinear_arith);
    }
}

proof fn due_stays<M: Metric>(
    taken: Seq<Scored>,
    x: Scored,
    sims: Seq<u32>,
    pairs: &M,
    cfg: RetrieverConfig,
    id: u32,
)
    requires
        is_due(taken, sims, pairs, cfg, id),
    ensures
        is_due(taken.push(x), sims, pairs, cfg, id),
{
    if exists|j: int|
        0 <= j < taken.len() && float_order::at_most(
            cfg.edge_threshold,
            mincut::pair_sim(pairs, (#[trigger] taken[j]).id as int, id as int),
        ) {
        let j = choose|j: int|
            0 <= j < taken.len() && float_order::at_most(
                cfg.edge_threshold,
                mincut::pair_sim(pairs, (#[trigger] taken[j]).id as int, id as int),
            );
        assert(taken.push(x)[j] == taken[j]);
    }
}

/// Looks that can still come.
pub open spec fn measure(w: Walk, n: nat) -> int {
    w.heap.len() + (n - w.taken.len()) * n
}

proof fn taken_fits(taken: Seq<Scored>, n: nat)
    requires
        ranking::distinct_ids(taken),
        forall|i: int| 0 <= i < taken.len() ==> (#[trigger] taken[i]).id < n,
    ensures
        taken.len() <= n,
{
    let wide = taken.map_values(|x: Scored| x.id as int);
    assert forall|i: int, j: int| 0 <= i < wide.len() && 0 <= j < wide.len() && i != j implies wide[i]
        != wide[j] by {
        if i < j {
            assert(taken[i].id != taken[j].id);
        } else {
            assert(taken[j].id != taken[i].id);
        }
    }
    wide.unique_seq_to_set();
    let all = vstd::set_lib::set_int_range(0, n as int);
    vstd::set_lib::lemma_int_range(0, n as int);
    assert forall|v: int| wide.to_set().contains(v) implies all.contains(v) by {
        let i = choose|i: int| 0 <= i < wide.len() && wide[i] == v;
        assert(taken[i].id < n);
    }
    vstd::set_lib::lemma_len_subset(wide.to_set(), all);
}

proof fn starts_hold(sims: Seq<u32>, threshold: u32, n: nat)
    requires
        n <= sims.len() <= u32::MAX,
    ensures
        seeds(sims, threshold, n).len() <= n,
        forall|i: int|
            0 <= i < seeds(sims, threshold, n).len() ==> (#[trigger] seeds(sims, threshold, n)[i]).id
                < n,
        n > 0 ==> 0 <= last_best(sims, n) < n,
    decreases n,
{
    if n > 0 {
        starts_hold(sims, threshold, (n - 1) as nat);
    }
}

proof fn begun_holds<M: Metric>(sims: Seq<u32>, pairs: &M, cfg: RetrieverConfig)
    requires
        0 < sims.len() <= u32::MAX,
    ensures
        is_walk(begun(sims, cfg.seed_threshold), sims, pairs, cfg),
        begun(sims, cfg.seed_threshold).heap.len() <= sims.len(),
        measure(begun(sims, cfg.seed_threshold), sims.len()) <= sims.len() * (sims.len() + 1),
        forall|i: int|
            0 <= i < starts(sims, cfg.seed_threshold).len() ==> (#[trigger] starts(
                sims,
                cfg.seed_threshold,
            )[i]).id < sims.len(),
{
    starts_hold(sims, cfg.seed_threshold, sims.len());
    let s = starts(sims, cfg.seed_threshold);
    let w = begun(sims, cfg.seed_threshold);
    all_offered_holds(Seq::empty(), Seq::empty(), s);
    assert forall|i: int| 0 <= i < w.heap.len() implies (#[trigger] w.heap[i]).id < sims.len()
        && is_due(w.taken, sims, pairs, cfg, w.heap[i].id) by {
        let y = w.heap[i];
        let j = choose|j: int| 0 <= j < s.len() && (#[trigger] s[j]).id == y.id;
        assert(s[j].id < sims.len());
    }
    let n = sims.len() as int;
    assert(n * (n + 1) == n * n + n) by (nonlinear_arith);
}

proof fn walked_holds<M: Metric>(
    w: Walk,
    sims: Seq<u32>,
    pairs: &M,
    cfg: RetrieverConfig,
    steps: nat,
)
    requires
        is_walk(w, sims, pairs, cfg),
        sims.len() <= u32::MAX,
        measure(w, sims.len()) <= steps,
    ensures
        is_walk(
            walked(w, sims, pairs, cfg.edge_threshold, cfg.budget as nat, steps),
            sims,
            pairs,
            cfg,
        ),
        finished(
            walked(w, sims, pairs, cfg.edge_threshold, cfg.budget as nat, steps),
            cfg.budget as nat,
        ),
    decreases steps,
{
    taken_fits(w.taken, sims.len());
    let n = sims.len() as int;
    let a = n - w.taken.len();
    assert(0 <= a * n) by (nonlinear_arith)
        requires
            0 <= a,
            0 <= n,
    ;
    if steps > 0 && !finished(w, cfg.budget as nat) {
        stepped_holds(w, sims, pairs, cfg);
        walked_holds(
            stepped(w, sims, pairs, cfg.edge_threshold),
            sims,
            pairs,
            cfg,
            (steps - 1) as nat,
        );
    }
}

/// An expansion stays within the budget, takes no chunk twice, and takes only starts and chunks
/// linked to one it took before.
pub proof fn expansion_holds<M: Metric>(cfg: RetrieverConfig, sims: Seq<u32>, pairs: &M)
    requires
        0 < sims.len() <= u32::MAX,
    ensures
        ({
            let taken = expansion(cfg, sims, pairs);
            &&& taken.len() <= cfg.budget
            &&& ranking::distinct_ids(taken)
            &&& forall|i: int| 0 <= i < taken.len() ==> (#[trigger] taken[i]).id < sims.len()
            &&& forall|i: int|
                0 <= i < taken.len() ==> #[trigger] is_linked(taken, sims, pairs, cfg, i)
        }),
{
    begun_holds(sims, pairs, cfg);
    walked_holds(
        begun(sims, cfg.seed_threshold),
        sims,
        pairs,
        cfg,
        sims.len() * (sims.len() + 1),
    );
}

/// Whether a chunk is on offer.
pub open spec fn waits(heap: Seq<Scored>, id: u32) -> bool {
    exists|i: int| 0 <= i < heap.len() && (#[trigger] heap[i]).id == id
}

/// Whether two chunks are similar enough to be linked.
pub open spec fn linked<M: Metric>(pairs: &M, cfg: RetrieverConfig, a: u32, b: u32) -> bool {
    a != b && float_order::at_most(cfg.edge_threshold, mincut::pair_sim(pairs, a as int, b as int))
}

/// Nothing was overlooked: every start, and every chunk linked to a taken one, was taken or is
/// on offer.
pub open spec fn is_thorough<M: Metric>(w: Walk, sims: Seq<u32>, pairs: &M, cfg: RetrieverConfig) -> bool {
    &&& forall|s: int|
        0 <= s < starts(sims, cfg.seed_threshold).len() ==> {
            let id = (#[trigger] starts(sims, cfg.seed_threshold)[s]).id;
            is_taken(w.taken, id) || waits(w.heap, id)
        }
    &&& forall|i: int, v: u32|
        0 <= i < w.taken.len() && v < sims.len() && #[trigger] linked(
            pairs,
            cfg,
            w.taken[i].id,
            v,
        ) ==> is_taken(w.taken, v) || waits(w.heap, v)
}

proof fn offers_are_all<M: Metric>(
    sims: Seq<u32>,
    pairs: &M,
    cfg: RetrieverConfig,
    id: u32,
    n: nat,
    v: u32,
)
    requires
        v < n <= sims.len() <= u32::MAX,
        linked(pairs, cfg, id, v),
    ensures
        waits(offers(sims, pairs, cfg.edge_threshold, id, n), v),
    decreases n,
{
    let list = offers(sims, pairs, cfg.edge_threshold, id, n);
    if v == n - 1 {
        assert(list.last().id == v);
    } else {
        offers_are_all(sims, pairs, cfg, id, (n - 1) as nat, v);
        let before = offers(sims, pairs, cfg.edge_threshold, id, (n - 1) as nat);
        let i = choose|i: int| 0 <= i < before.len() && (#[trigger] before[i]).id == v;
        assert(list[i] == before[i]);
    }
}

proof fn offers_wait(heap: Seq<Scored>, taken: Seq<Scored>, xs: Seq<Scored>, id: u32)
    requires
        ranking::in_order(heap),
        waits(heap, id) || waits(xs, id),
    ensures
        is_taken(taken, id) || waits(all_offered(heap, taken, xs), id),
    decreases xs.len(),
{
    if xs.len() > 0 {
        let front = xs.drop_last();
        let mid = all_offered(heap, taken, front);
        let x = ranking::flipped(xs.last());
        all_offered_holds(heap, taken, front);
        ranking::ranked_properties(mid.push(x));
        let end = all_offered(heap, taken, xs);
        if xs.last().id == id && !waits(heap, id) {
            if !is_taken(taken, id) {
                assert(mid.push(x)[mid.len() as int] == x);
                assert(mid.push(x).contains(x));
                assert(end.contains(x));
                let i = choose|i: int| 0 <= i < end.len() && end[i] == x;
                assert(end[i].id == id);
            }
        } else {
            if !waits(heap, id) {
                let j = choose|j: int| 0 <= j < xs.len() && (#[trigger] xs[j]).id == id;
                assert(front[j] == xs[j]);
            }
            offers_wait(heap, taken, front, id);
            if !is_taken(taken, id) && !is_taken(taken, x.id) {
                let i = choose|i: int| 0 <= i < mid.len() && (#[trigger] mid[i]).id == id;
                assert(mid.push(x)[i] == mid[i]);
                assert(mid.push(x).contains(mid[i]));
                assert(end.contains(mid[i]));
                let e = choose|e: int| 0 <= e < end.len() && end[e] == mid[i];
                assert(end[e].id == id);
            }
        }
    }
}

proof fn stepped_is_thorough<M: Metric>(w: Walk, sims: Seq<u32>, pairs: &M, cfg: RetrieverConfig)
    requires
        is_walk(w, sims, pairs, cfg),
        is_thorough(w, sims, pairs, cfg),
        sims.len() <= u32::MAX,
        w.heap.len() > 0,
    ensures
        is_thorough(stepped(w, sims, pairs, cfg.edge_threshold), sims, pairs, cfg),
{
    let x = ranking::flipped(w.heap[0]);
    let rest = w.heap.drop_first();
    let t = stepped(w, sims, pairs, cfg.edge_threshold);
    let list = offers(sims, pairs, cfg.edge_threshold, x.id, sims.len());
    assert(ranking::in_order(rest));
    assert(is_taken(w.taken, x.id) || is_taken(t.taken, x.id)) by {
        if !is_taken(w.taken, x.id) {
            assert(t.taken[w.taken.len() as int].id == x.id);
        }
    }
    assert forall|id: u32| is_taken(w.taken, id) || waits(w.heap, id) implies is_taken(t.taken, id)
        || waits(t.heap, id) by {
        if is_taken(w.taken, id) {
            let i = choose|i: int| 0 <= i < w.taken.len() && (#[trigger] w.taken[i]).id == id;
            assert(t.taken[i].id == id);
        } else if id != x.id {
            let i = choose|i: int| 0 <= i < w.heap.len() && (#[trigger] w.heap[i]).id == id;
            assert(rest[i - 1].id == id);
            if !is_taken(w.taken, x.id) {
                offers_wait(rest, t.taken, list, id);
            }
        }
    }
    assert forall|i: int, v: u32|
        0 <= i < t.taken.len() && v < sims.len() && #[trigger] linked(
            pairs,
            cfg,
            t.taken[i].id,
            v,
        ) implies is_taken(t.taken, v) || waits(t.heap, v) by {
        if i < w.taken.len() {
            assert(t.taken[i] == w.taken[i]);
            assert(linked(pairs, cfg, w.taken[i].id, v));
        } else {
            offers_are_all(sims, pairs, cfg, x.id, sims.len(), v);
            offers_wait(rest, t.taken, list, v);
        }
    }
}

proof fn walked_is_thorough<M: Metric>(
    w: Walk,
    sims: Seq<u32>,
    pairs: &M,
    cfg: RetrieverConfig,
    steps: nat,
)
    requires
        is_walk(w, sims, pairs, cfg),
        is_thorough(w, sims, pairs, cfg),
        sims.len() <= u32::MAX,
    ensures
        is_thorough(
            walked(w, sims, pairs, cfg.edge_threshold, cfg.budget as nat, steps),
            sims,
            pairs,
            cfg,
        ),
    decreases steps,
{
    if steps > 0 && !finished(w, cfg.budget as nat) {
        stepped_holds(w, sims, pairs, cfg);
        stepped_is_thorough(w, sims, pairs, cfg);
        walked_is_thorough(
            stepped(w, sims, pairs, cfg.edge_threshold),
            sims,
            pairs,
            cfg,
            (steps - 1) as nat,
        );
    }
}

/// An expansion stops short of the budget only when nothing is left: it has taken every start,
/// and with each chunk every chunk linked to it. In particular it finds something in every
/// corpus that is not empty.
pub proof fn expansion_is_complete<M: Metric>(cfg: RetrieverConfig, sims: Seq<u32>, pairs: &M)
    requires
        0 < sims.len() <= u32::MAX,
        expansion(cfg, sims, pairs).len() < cfg.budget,
    ensures
        ({
            let taken = expansion(cfg, sims, pairs);
            &&& taken.len() > 0
            &&& forall|s: int|
                0 <= s < starts(sims, cfg.seed_threshold).len() ==> is_taken(
                    taken,
                    (#[trigger] starts(sims, cfg.seed_threshold)[s]).id,
                )
            &&& forall|i: int, v: u32|
                0 <= i < taken.len() && v < sims.len() && #[trigger] linked(
                    pairs,
                    cfg,
                    taken[i].id,
                    v,
                ) ==> is_taken(taken, v)
        }),
{
    let first = begun(sims, cfg.seed_threshold);
    let s = starts(sims, cfg.seed_threshold);
    let steps = sims.len() * (sims.len() + 1);
    begun_holds(sims, pairs, cfg);
    assert forall|i: int| 0 <= i < s.len() implies is_taken(first.taken, (#[trigger] s[i]).id)
        || waits(first.heap, s[i].id) by {
        offers_wait(Seq::empty(), Seq::empty(), s, s[i].id);
    }
    walked_holds(first, sims, pairs, cfg, steps);
    walked_is_thorough(first, sims, pairs, cfg, steps);
    let end = walked(first, sims, pairs, cfg.edge_threshold, cfg.budget as nat, steps);
    assert(end.heap.len() == 0);
    assert(is_taken(end.taken, s[0].id));
}

/// Whether a list names a chunk.
pub open spec fn names(list: Seq<Scored>, id: u32) -> bool {
    exists|i: int| 0 <= i < list.len() && (#[trigger] list[i]).id == id
}

/// The similarity of two chunks reaches the threshold, and `bits` is the lower one of it and
/// the similarity of the second to the query.
pub open spec fn leads_on<M: Metric>(
    from: u32,
    to: Scored,
    sims: Seq<u32>,
    pairs: &M,
    threshold: u32,
) -> bool {
    let edge = if from < to.id {
        pairs.measured(from as int, to.id as int)
    } else {
        pairs.measured(to.id as int, from as int)
    };
    let own = sims[to.id as int];
    &&& from != to.id
    &&& float_order::at_most(threshold, edge)
    &&& to.bits == edge || to.bits == own
    &&& !float_order::not_a_number(own) ==> float_order::at_most(to.bits, edge)
        && float_order::at_most(to.bits, own)
    &&& float_order::not_a_number(own) ==> to.bits == edge
    &&& float_order::number_rank(edge) == float_order::number_rank(own) ==> to.bits == edge
}

/// A chunk and a score that it can be taken with once those before it are: its similarity to
/// the query where that reaches the threshold for seeds, or where none does and it is the last
/// of the most similar; or the lower one of its similarity to the query and to a chunk taken
/// before, where the latter reaches the threshold for edges.
pub open spec fn is_open<M: Metric>(
    x: Scored,
    before: Seq<Scored>,
    sims: Seq<u32>,
    pairs: &M,
    cfg: RetrieverConfig,
) -> bool {
    &&& x.id < sims.len()
    &&& {
        ||| float_order::at_most(cfg.seed_threshold, sims[x.id as int]) && x.bits
            == sims[x.id as int]
        ||| {
            &&& x.bits == sims[x.id as int]
            &&& forall|i: int|
                0 <= i < sims.len() ==> !float_order::at_most(
                    cfg.seed_threshold,
                    #[trigger] sims[i],
                )
            &&& forall|i: int|
                0 <= i < sims.len() ==> float_order::total_rank(#[trigger] sims[i])
                    <= float_order::total_rank(sims[x.id as int])
            &&& forall|i: int|
                x.id < i < sims.len() ==> float_order::total_rank(#[trigger] sims[i])
                    < float_order::total_rank(sims[x.id as int])
        }
        ||| exists|j: int|
            0 <= j < before.len() && leads_on(
                (#[trigger] before[j]).id,
                x,
                sims,
                pairs,
                cfg.edge_threshold,
            )
    }
}

proof fn smaller_leads_on<M: Metric>(
    from: u32,
    to: Scored,
    sims: Seq<u32>,
    pairs: &M,
    threshold: u32,
)
    ensures
        leads_on(from, to, sims, pairs, threshold) <==> (from != to.id && float_order::at_most(
            threshold,
            mincut::pair_sim(pairs, from as int, to.id as int),
        ) && to.bits == float_order::smaller(
            mincut::pair_sim(pairs, from as int, to.id as int),
            sims[to.id as int],
        )),
{
}

proof fn offers_are_exact<M: Metric>(
    sims: Seq<u32>,
    pairs: &M,
    threshold: u32,
    id: u32,
    n: nat,
    x: Scored,
)
    requires
        n <= sims.len() <= u32::MAX,
    ensures
        offers(sims, pairs, threshold, id, n).contains(x) <==> x.id < n && leads_on(
            id,
            x,
            sims,
            pairs,
            threshold,
        ),
    decreases n,
{
    let list = offers(sims, pairs, threshold, id, n);
    smaller_leads_on(id, x, sims, pairs, threshold);
    if n > 0 {
        let before = offers(sims, pairs, threshold, id, (n - 1) as nat);
        offers_are_exact(sims, pairs, threshold, id, (n - 1) as nat, x);
        if before.contains(x) {
            let i = choose|i: int| 0 <= i < before.len() && before[i] == x;
            assert(list[i] == x);
        }
        if x.id == n - 1 && leads_on(id, x, sims, pairs, threshold) {
            assert(list[list.len() - 1] == x);
        }
        if list.contains(x) {
            let i = choose|i: int| 0 <= i < list.len() && list[i] == x;
            if i < before.len() {
                assert(before[i] == x);
            }
        }
    }
}

proof fn seeds_are_exact(sims: Seq<u32>, threshold: u32, n: nat, x: Scored)
    requires
        n <= sims.len() <= u32::MAX,
    ensures
        seeds(sims, threshold, n).contains(x) <==> x.id < n && x.bits == sims[x.id as int]
            && float_order::at_most(threshold, x.bits),
    decreases n,
{
    let list = seeds(sims, threshold, n);
    if n > 0 {
        let before = seeds(sims, threshold, (n - 1) as nat);
        seeds_are_exact(sims, threshold, (n - 1) as nat, x);
        if before.contains(x) {
            let i = choose|i: int| 0 <= i < before.len() && before[i] == x;
            assert(list[i] == x);
        }
        if x.id == n - 1 && x.bits == sims[n - 1] && float_order::at_most(threshold, x.bits) {
            assert(list[list.len() - 1] == x);
        }
        if list.contains(x) {
            let i = choose|i: int| 0 <= i < list.len() && list[i] == x;
            if i < before.len() {
                assert(before[i] == x);
            }
        }
    }
}

proof fn last_best_is_best(sims: Seq<u32>, n: nat)
    requires
        0 < n <= sims.len(),
    ensures
        0 <= last_best(sims, n) < n,
        forall|i: int|
            0 <= i < n ==> float_order::total_rank(#[trigger] sims[i]) <= float_order::total_rank(
                sims[last_best(sims, n)],
            ),
        forall|i: int|
            last_best(sims, n) < i < n ==> float_order::total_rank(#[trigger] sims[i])
                < float_order::total_rank(sims[last_best(sims, n)]),
    decreases n,
{
    if n > 1 {
        last_best_is_best(sims, (n - 1) as nat);
    }
}

proof fn starts_are_exact<M: Metric>(sims: Seq<u32>, pairs: &M, cfg: RetrieverConfig, x: Scored)
    requires
        0 < sims.len() <= u32::MAX,
    ensures
        starts(sims, cfg.seed_threshold).contains(x) <==> is_open(
            x,
            Seq::empty(),
            sims,
            pairs,
            cfg,
        ),
{
    let n = sims.len();
    let s = seeds(sims, cfg.seed_threshold, n);
    let list = starts(sims, cfg.seed_threshold);
    seeds_are_exact(sims, cfg.seed_threshold, n, x);
    last_best_is_best(sims, n);
    if s.len() == 0 {
        let best = last_best(sims, n);
        let y = Scored { id: best as u32, bits: sims[best] };
        assert(list[0] == y);
        assert forall|i: int| 0 <= i < n implies !float_order::at_most(
            cfg.seed_threshold,
            #[trigger] sims[i],
        ) by {
            let z = Scored { id: i as u32, bits: sims[i] };
            seeds_are_exact(sims, cfg.seed_threshold, n, z);
            assert(!s.contains(z));
        }
        if is_open(x, Seq::empty(), sims, pairs, cfg) {
            assert(x.id == best) by {
                assert(float_order::total_rank(sims[best]) <= float_order::total_rank(
                    sims[x.id as int],
                ));
            }
        }
    } else {
        seeds_are_exact(sims, cfg.seed_threshold, n, s[0]);
        assert(s.contains(s[0]));
        assert(float_order::at_most(cfg.seed_threshold, sims[s[0].id as int]));
    }
}

proof fn offered_is_exact(heap: Seq<Scored>, taken: Seq<Scored>, xs: Seq<Scored>, x: Scored)
    requires
        ranking::in_order(heap),
    ensures
        all_offered(heap, taken, xs).contains(ranking::flipped(x)) <==> heap.contains(
            ranking::flipped(x),
        ) || (xs.contains(x) && !is_taken(taken, x.id)),
    decreases xs.len(),
{
    if xs.len() > 0 {
        let front = xs.drop_last();
        let mid = all_offered(heap, taken, front);
        let end = all_offered(heap, taken, xs);
        let last = xs.last();
        let y = ranking::flipped(x);
        let z = ranking::flipped(last);
        let grown = mid.push(z);
        offered_is_exact(heap, taken, front, x);
        all_offered_holds(heap, taken, front);
        ranking::ranked_properties(grown);
        float_order::negated_ranks(x.bits);
        float_order::negated_ranks(last.bits);
        assert(xs.contains(x) <==> front.contains(x) || last == x) by {
            if front.contains(x) {
                let i = choose|i: int| 0 <= i < front.len() && front[i] == x;
                assert(xs[i] == x);
            }
            if last == x {
                assert(xs[xs.len() - 1] == x);
            }
            if xs.contains(x) {
                let i = choose|i: int| 0 <= i < xs.len() && xs[i] == x;
                if i < front.len() {
                    assert(front[i] == x);
                }
            }
        }
        assert(grown.contains(y) <==> mid.contains(y) || z == y) by {
            if mid.contains(y) {
                let i = choose|i: int| 0 <= i < mid.len() && mid[i] == y;
                assert(grown[i] == y);
            }
            if z == y {
                assert(grown[grown.len() - 1] == y);
            }
            if grown.contains(y) {
                let i = choose|i: int| 0 <= i < grown.len() && grown[i] == y;
                if i < mid.len() {
                    assert(mid[i] == y);
                }
            }
        }
        assert(z == y <==> last == x);
    }
}

proof fn open_stays<M: Metric>(
    x: Scored,
    before: Seq<Scored>,
    next: Scored,
    sims: Seq<u32>,
    pairs: &M,
    cfg: RetrieverConfig,
)
    ensures
        is_open(x, before.push(next), sims, pairs, cfg) <==> is_open(x, before, sims, pairs, cfg)
            || (x.id < sims.len() && leads_on(next.id, x, sims, pairs, cfg.edge_threshold)),
{
    let after = before.push(next);
    assert(after[before.len() as int] == next);
    if exists|j: int|
        0 <= j < before.len() && leads_on(
            (#[trigger] before[j]).id,
            x,
            sims,
            pairs,
            cfg.edge_threshold,
        ) {
        let j = choose|j: int|
            0 <= j < before.len() && leads_on(
                (#[trigger] before[j]).id,
                x,
                sims,
                pairs,
                cfg.edge_threshold,
            );
        assert(after[j] == before[j]);
    }
    if exists|j: int|
        0 <= j < after.len() && leads_on(
            (#[trigger] after[j]).id,
            x,
            sims,
            pairs,
            cfg.edge_threshold,
        ) {
        let j = choose|j: int|
            0 <= j < after.len() && leads_on(
                (#[trigger] after[j]).id,
                x,
                sims,
                pairs,
                cfg.edge_threshold,
            );
        if j < before.len() {
            assert(after[j] == before[j]);
        }
    }
}

/// Each chunk was open when it was taken, and none that was open then has a better score.
spec fn takes_best<M: Metric>(
    taken: Seq<Scored>,
    sims: Seq<u32>,
    pairs: &M,
    cfg: RetrieverConfig,
) -> bool {
    &&& forall|i: int|
        0 <= i < taken.len() ==> is_open(#[trigger] taken[i], taken.take(i), sims, pairs, cfg)
    &&& forall|i: int, y: Scored|
        #![trigger is_open(y, taken.take(i), sims, pairs, cfg)]
        0 <= i < taken.len() && is_open(y, taken.take(i), sims, pairs, cfg) && !names(
            taken.take(i),
            y.id,
        ) ==> ranking::leads_high(taken[i], y)
}

/// What is on offer is what is open.
spec fn offers_open<M: Metric>(w: Walk, sims: Seq<u32>, pairs: &M, cfg: RetrieverConfig) -> bool {
    &&& forall|y: Scored| #[trigger]
        w.heap.contains(ranking::flipped(y)) ==> is_open(y, w.taken, sims, pairs, cfg)
    &&& forall|y: Scored|
        #![trigger is_open(y, w.taken, sims, pairs, cfg)]
        is_open(y, w.taken, sims, pairs, cfg) && !names(w.taken, y.id) ==> w.heap.contains(
            ranking::flipped(y),
        )
}

proof fn step_takes_best<M: Metric>(w: Walk, sims: Seq<u32>, pairs: &M, cfg: RetrieverConfig)
    requires
        is_walk(w, sims, pairs, cfg),
        offers_open(w, sims, pairs, cfg),
        takes_best(w.taken, sims, pairs, cfg),
        sims.len() <= u32::MAX,
        w.heap.len() > 0,
    ensures
        offers_open(stepped(w, sims, pairs, cfg.edge_threshold), sims, pairs, cfg),
        takes_best(stepped(w, sims, pairs, cfg.edge_threshold).taken, sims, pairs, cfg),
{
    let x = ranking::flipped(w.heap[0]);
    let rest = w.heap.drop_first();
    let t = stepped(w, sims, pairs, cfg.edge_threshold);
    float_order::negated_ranks(w.heap[0].bits);
    assert(ranking::flipped(x) == w.heap[0]);
    assert(w.heap.contains(w.heap[0]));
    assert(is_open(x, w.taken, sims, pairs, cfg));
    assert(ranking::in_order(rest));
    assert forall|z: Scored| #[trigger] rest.contains(z) implies w.heap.contains(z) by {
        let i = choose|i: int| 0 <= i < rest.len() && rest[i] == z;
        assert(w.heap[i + 1] == z);
    }
    assert forall|z: Scored| #[trigger] w.heap.contains(z) && z != w.heap[0] implies rest.contains(
        z,
    ) by {
        let i = choose|i: int| 0 <= i < w.heap.len() && w.heap[i] == z;
        assert(rest[i - 1] == z);
    }
    if is_taken(w.taken, x.id) {
        assert forall|y: Scored|
            #![trigger is_open(y, t.taken, sims, pairs, cfg)]
            is_open(y, t.taken, sims, pairs, cfg) && !names(t.taken, y.id) implies t.heap.contains(
            ranking::flipped(y),
        ) by {
            assert(w.heap.contains(ranking::flipped(y)));
            assert(y.id != x.id);
        }
    } else {
        let list = offers(sims, pairs, cfg.edge_threshold, x.id, sims.len());
        let taken = t.taken;
        assert(taken.take(w.taken.len() as int) =~= w.taken);
        assert forall|i: int| 0 <= i < taken.len() implies is_open(
            #[trigger] taken[i],
            taken.take(i),
            sims,
            pairs,
            cfg,
        ) by {
            if i < w.taken.len() {
                assert(taken.take(i) =~= w.taken.take(i));
                assert(taken[i] == w.taken[i]);
            }
        }
        assert forall|i: int, y: Scored|
            #![trigger is_open(y, taken.take(i), sims, pairs, cfg)]
            0 <= i < taken.len() && is_open(y, taken.take(i), sims, pairs, cfg) && !names(
                taken.take(i),
                y.id,
            ) implies ranking::leads_high(taken[i], y) by {
            if i < w.taken.len() {
                assert(taken.take(i) =~= w.taken.take(i));
                assert(taken[i] == w.taken[i]);
            } else {
                let z = ranking::flipped(y);
                assert(w.heap.contains(z));
                let a = choose|a: int| 0 <= a < w.heap.len() && w.heap[a] == z;
                float_order::negated_ranks(y.bits);
                if a > 0 {
                    assert(w.heap[0].leads(w.heap[a]));
                }
            }
        }
        assert forall|y: Scored| #[trigger] t.heap.contains(ranking::flipped(y)) implies is_open(
            y,
            t.taken,
            sims,
            pairs,
            cfg,
        ) by {
            offered_is_exact(rest, taken, list, y);
            open_stays(y, w.taken, x, sims, pairs, cfg);
            offers_are_exact(sims, pairs, cfg.edge_threshold, x.id, sims.len(), y);
        }
        assert forall|y: Scored|
            #![trigger is_open(y, t.taken, sims, pairs, cfg)]
            is_open(y, t.taken, sims, pairs, cfg) && !names(t.taken, y.id) implies t.heap.contains(
            ranking::flipped(y),
        ) by {
            offered_is_exact(rest, taken, list, y);
            open_stays(y, w.taken, x, sims, pairs, cfg);
            offers_are_exact(sims, pairs, cfg.edge_threshold, x.id, sims.len(), y);
            assert(taken[w.taken.len() as int] == x);
            assert(y.id != x.id);
            assert(!names(w.taken, y.id)) by {
                if names(w.taken, y.id) {
                    let i = choose|i: int|
                        0 <= i < w.taken.len() && (#[trigger] w.taken[i]).id == y.id;
                    assert(taken[i].id == y.id);
                }
            }
            if is_open(y, w.taken, sims, pairs, cfg) {
                assert(w.heap.contains(ranking::flipped(y)));
            }
        }
    }
}

proof fn walk_takes_best<M: Metric>(
    w: Walk,
    sims: Seq<u32>,
    pairs: &M,
    cfg: RetrieverConfig,
    steps: nat,
)
    requires
        is_walk(w, sims, pairs, cfg),
        offers_open(w, sims, pairs, cfg),
        takes_best(w.taken, sims, pairs, cfg),
        sims.len() <= u32::MAX,
    ensures
        ({
            let end = walked(w, sims, pairs, cfg.edge_threshold, cfg.budget as nat, steps);
            offers_open(end, sims, pairs, cfg) && takes_best(end.taken, sims, pairs, cfg)
        }),
    decreases steps,
{
    if steps > 0 && !finished(w, cfg.budget as nat) {
        stepped_holds(w, sims, pairs, cfg);
        step_takes_best(w, sims, pairs, cfg);
        walk_takes_best(
            stepped(w, sims, pairs, cfg.edge_threshold),
            sims,
            pairs,
            cfg,
            (steps - 1) as nat,
        );
    }
}

/// The chunks of a result with their scores.
pub open spec fn scored_chunks(result: &RetrievalResult) -> Seq<Scored> {
    Seq::new(
        result.chunks@.len(),
        |i: int| Scored { id: result.chunks@[i], bits: result.scores@[i] },
    )
}

fn has_taken(taken: &Vec<Scored>, id: u32) -> (r: bool)
    ensures
        r == is_taken(taken@, id),
{
    let mut i: usize = 0;
    while i < taken.len()
        invariant
            i <= taken@.len(),
            forall|j: int| 0 <= j < i ==> (#[trigger] taken@[j]).id != id,
        decreases taken@.len() - i,
    {
        if taken[i].id == id {
            assert(taken@[i as int].id == id);
            return true;
        }
        i += 1;
    }
    false
}

fn offer(heap: &mut Vec<Scored>, taken: &Vec<Scored>, x: Scored)
    requires
        ranking::in_order(old(heap)@),
    ensures
        final(heap)@ == offered(old(heap)@, taken@, x),
        ranking::in_order(final(heap)@),
{
    if !has_taken(taken, x.id) {
        ranking::insert_ranked(heap, Scored { id: x.id, bits: float_order::negate(x.bits) });
    }
}

/// Expands from chunks similar to the query to chunks similar to those, best first, within the
/// budget.
pub struct GraphBfsRetriever {
    cfg: RetrieverConfig,
}

impl GraphBfsRetriever {
    /// The configuration.
    pub closed spec fn cfg(&self) -> RetrieverConfig {
        self.cfg
    }

    /// A retriever with this configuration.
    pub fn new(cfg: RetrieverConfig) -> (r: Self)
        requires
            cfg.valid(),
        ensures
            r.cfg() == cfg,
    {
        GraphBfsRetriever { cfg }
    }

    /// Name of the method.
    pub fn name(&self) -> (name: &'static str)
        ensures
            name@ == "GraphBFS"@,
    {
        "GraphBFS"
    }

    /// The chunks are taken best first: each has a score that it can be taken with at its
    /// turn, and no chunk that could be taken then has a higher one. Fewer than the budget are
    /// taken only where no other chunk can be taken: all seeds are, and with each chunk all
    /// that are similar enough to it.
    pub proof fn retrieval_is_best_first<M: Metric>(
        &self,
        result: &RetrievalResult,
        sims: Seq<u32>,
        pairs: &M,
    )
        requires
            0 < sims.len() <= u32::MAX,
            topk::is_listing(result, expansion(self.cfg(), sims, pairs)),
        ensures
            ({
                let taken = scored_chunks(result);
                &&& taken.len() <= self.cfg().budget
                &&& forall|i: int|
                    0 <= i < taken.len() ==> is_open(
                        #[trigger] taken[i],
                        taken.take(i),
                        sims,
                        pairs,
                        self.cfg(),
                    ) && !names(taken.take(i), taken[i].id)
                &&& forall|i: int, y: Scored|
                    #![trigger is_open(y, taken.take(i), sims, pairs, self.cfg())]
                    0 <= i < taken.len() && is_open(y, taken.take(i), sims, pairs, self.cfg())
                        && !names(taken.take(i), y.id) ==> ranking::leads_high(taken[i], y)
                &&& taken.len() < self.cfg().budget ==> forall|y: Scored| #[trigger]
                    is_open(y, taken, sims, pairs, self.cfg()) ==> names(taken, y.id)
                &&& taken.len() < self.cfg().budget ==> forall|v: u32|
                    v < sims.len() && #[trigger] float_order::at_most(
                        self.cfg().seed_threshold,
                        sims[v as int],
                    ) ==> names(taken, v)
            }),
    {
        let cfg = self.cfg();
        let first = begun(sims, cfg.seed_threshold);
        let steps = sims.len() * (sims.len() + 1);
        let s = starts(sims, cfg.seed_threshold);
        begun_holds(sims, pairs, cfg);
        assert forall|y: Scored| #[trigger] first.heap.contains(
            ranking::flipped(y),
        ) implies is_open(y, first.taken, sims, pairs, cfg) by {
            offered_is_exact(Seq::empty(), Seq::empty(), s, y);
            starts_are_exact(sims, pairs, cfg, y);
        }
        assert forall|y: Scored|
            #![trigger is_open(y, first.taken, sims, pairs, cfg)]
            is_open(y, first.taken, sims, pairs, cfg) && !names(
                first.taken,
                y.id,
            ) implies first.heap.contains(ranking::flipped(y)) by {
            offered_is_exact(Seq::empty(), Seq::empty(), s, y);
            starts_are_exact(sims, pairs, cfg, y);
        }
        walked_holds(first, sims, pairs, cfg, steps);
        walk_takes_best(first, sims, pairs, cfg, steps);
        let end = walked(first, sims, pairs, cfg.edge_threshold, cfg.budget as nat, steps);
        let taken = scored_chunks(result);
        assert(taken =~= end.taken);
        assert forall|i: int| 0 <= i < taken.len() implies !names(
            taken.take(i),
            (#[trigger] taken[i]).id,
        ) by {
            if names(taken.take(i), taken[i].id) {
                let j = choose|j: int|
                    0 <= j < i && (#[trigger] taken.take(i)[j]).id == taken[i].id;
                assert(end.taken[j].id != end.taken[i].id);
            }
        }
        assert forall|i: int, y: Scored|
            #![trigger is_open(y, taken.take(i), sims, pairs, self.cfg())]
            0 <= i < taken.len() && is_open(y, taken.take(i), sims, pairs, self.cfg()) && !names(
                taken.take(i),
                y.id,
            ) implies ranking::leads_high(taken[i], y) by {
            assert(taken[i] == end.taken[i]);
        }
        if taken.len() < self.cfg().budget {
            assert(end.heap.len() == 0);
            assert forall|y: Scored| #[trigger]
                is_open(y, taken, sims, pairs, self.cfg()) implies names(taken, y.id) by {
                assert(!end.heap.contains(ranking::flipped(y)));
            }
            assert forall|v: u32|
                v < sims.len() && #[trigger] float_order::at_most(
                    self.cfg().seed_threshold,
                    sims[v as int],
                ) implies names(taken, v) by {
                let y = Scored { id: v, bits: sims[v as int] };
                assert(is_open(y, taken, sims, pairs, self.cfg()));
            }
        }
    }

    fn start_list(&self, sims: &Vec<u32>) -> (list: Vec<Scored>)
        requires
            0 < sims@.len() <= u32::MAX,
        ensures
            list@ == starts(sims@, self.cfg().seed_threshold),
    {
        let threshold: u32 = self.cfg.seed_threshold;
        let mut list: Vec<Scored> = Vec::new();
        let mut best: usize = 0;
        let mut i: usize = 0;
        while i < sims.len()
            invariant
                i <= sims@.len() <= u32::MAX,
                list@ == seeds(sims@, threshold, i as nat),
                best < sims@.len(),
                best == last_best(sims@, i as nat),
            decreases sims@.len() - i,
        {
            if float_order::less_or_equal(threshold, sims[i]) {
                list.push(Scored { id: i as u32, bits: sims[i] });
            }
            if i > 0 && float_order::total_key(sims[best]) <= float_order::total_key(sims[i]) {
                best = i;
            }
            i += 1;
        }
        if list.len() == 0 {
            list.push(Scored { id: best as u32, bits: sims[best] });
            assert(list@ =~= starts(sims@, threshold));
        }
        list
    }

    /// Chunks reached by expansion, in the order taken. `sims` are the similarities of query
    /// and chunks, `pairs` those between chunks.
    pub fn retrieve<M: Metric>(
        &self,
        corpus: &Corpus,
        query: &Query,
        sims: &Vec<u32>,
        pairs: &M,
    ) -> (result: RetrievalResult)
        requires
            corpus.wf(),
            self.cfg().valid(),
            corpus.chunks@.len() > 0 ==> query.vector@.len() == corpus.dim,
            sims@.len() == corpus.chunks@.len(),
            corpus.chunks@.len() <= pairs.sources(),
            corpus.chunks@.len() <= pairs.targets(),
        ensures
            sims@.len() == 0 ==> result.chunks@.len() == 0 && result.scores@.len() == 0,
            sims@.len() > 0 ==> topk::is_listing(&result, expansion(self.cfg(), sims@, pairs)),
            result.keeps_to(self.cfg().budget as nat),
            result.chunks@.no_duplicates(),
            forall|i: int| 0 <= i < result.chunks@.len() ==> #[trigger] result.chunks@[i] < sims@.len(),
    {
        if corpus.chunks.len() == 0 {
            return RetrievalResult::nothing(self.cfg.budget);
        }
        let n: usize = sims.len();
        let ghost cfg = self.cfg;
        let ghost mut walk = begun(sims@, cfg.seed_threshold);
        let ghost mut steps: nat = (n * (n + 1)) as nat;
        proof {
            begun_holds(sims@, pairs, cfg);
            assert(steps == sims@.len() * (sims@.len() + 1));
        }
        let first = self.start_list(sims);
        let mut heap: Vec<Scored> = Vec::new();
        let mut taken: Vec<Scored> = Vec::new();
        let mut i: usize = 0;
        while i < first.len()
            invariant
                i <= first@.len(),
                ranking::in_order(heap@),
                taken@.len() == 0,
                heap@ == all_offered(Seq::empty(), taken@, first@.take(i as int)),
            decreases first@.len() - i,
        {
            offer(&mut heap, &taken, first[i]);
            i += 1;
            assert(first@.take(i as int).drop_last() =~= first@.take(i - 1));
        }
        proof {
            assert(first@.take(i as int) =~= first@);
            assert(taken@ =~= Seq::<Scored>::empty());
        }
        while heap.len() > 0
            invariant_except_break
                walked(walk, sims@, pairs, cfg.edge_threshold, cfg.budget as nat, steps).taken
                    == expansion(cfg, sims@, pairs),
                measure(walk, sims@.len()) <= steps,
            invariant
                cfg == self.cfg,
                n == sims@.len(),
                0 < n <= u32::MAX,
                n <= pairs.sources(),
                n <= pairs.targets(),
                is_walk(walk, sims@, pairs, cfg),
                heap@ == walk.heap,
                taken@ == walk.taken,
            ensures
                taken@ == expansion(cfg, sims@, pairs),
            decreases steps,
        {
            let front = heap[0];
            let known = has_taken(&taken, front.id);
            if !known && taken.len() >= self.cfg.budget {
                break;
            }
            proof {
                stepped_holds(walk, sims@, pairs, cfg);
                assert(steps > 0) by {
                    let k = n as int;
                    let a = k - walk.taken.len();
                    assert(0 <= a * k) by (nonlinear_arith)
                        requires
                            0 <= a,
                            0 <= k,
                    ;
                }
            }
            let ghost before = walk;
            let _ = heap.remove(0);
            assert(heap@ =~= before.heap.drop_first());
            if !known {
                let id: u32 = front.id;
                assert(before.heap[0].id < sims@.len());
                taken.push(Scored { id, bits: float_order::negate(front.bits) });
                let ghost rest = heap@;
                let ghost list = offers(sims@, pairs, cfg.edge_threshold, id, n as nat);
                let mut j: usize = 0;
                while j < n
                    invariant
                        cfg == self.cfg,
                        n == sims@.len(),
                        0 < n <= u32::MAX,
                        n <= pairs.sources(),
                        n <= pairs.targets(),
                        id < n,
                        j <= n,
                        ranking::in_order(heap@),
                        heap@ == all_offered(
                            rest,
                            taken@,
                            offers(sims@, pairs, cfg.edge_threshold, id, j as nat),
                        ),
                    decreases n - j,
                {
                    if j as u32 != id {
                        let edge: u32 = if id < j as u32 {
                            pairs.measure(id, j as u32)
                        } else {
                            pairs.measure(j as u32, id)
                        };
                        if float_order::less_or_equal(self.cfg.edge_threshold, edge) {
                            let x = Scored {
                                id: j as u32,
                                bits: float_order::min(edge, sims[j]),
                            };
                            let ghost done = offers(
                                sims@,
                                pairs,
                                cfg.edge_threshold,
                                id,
                                j as nat,
                            );
                            assert(done.push(x).drop_last() =~= done);
                            offer(&mut heap, &taken, x);
                        }
                    }
                    j += 1;
                }
            }
            proof {
                walk = stepped(walk, sims@, pairs, cfg.edge_threshold);
                steps = (steps - 1) as nat;
            }
        }
        let result = topk::listing(&taken, self.cfg.budget);
        proof {
            expansion_holds(cfg, sims@, pairs);
            topk::listed_once(&result, taken@, sims@.len());
        }
        result
    }
}

} // verus!
