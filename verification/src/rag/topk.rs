//! Retrieval by similarity alone.
use crate::float_order;
use crate::knn;
use crate::rag::corpus::Chunk;
use crate::rag::corpus::Corpus;
use crate::rag::corpus::Query;
use crate::rag::corpus::RetrievalResult;
use crate::rag::corpus::RetrieverConfig;
use crate::ranking;
use crate::ranking::Scored;
use crate::single;
use vstd::prelude::*;

verus! {

/// The chunks of a corpus with their similarities to the query.
pub open spec fn chunk_scores(sims: Seq<u32>) -> Seq<Scored> {
    knn::scored_row(|i: int| sims[i], sims.len())
}

/// A list of places in a corpus as a list of the chunks there, under their own numbers.
pub open spec fn under_ids(chunks: Seq<Chunk>, list: Seq<Scored>) -> Seq<Scored> {
    Seq::new(list.len(), |i: int| Scored { id: chunks[list[i].id as int].id, bits: list[i].bits })
}

/// The ids and the scores of a list.
pub open spec fn is_listing(result: &RetrievalResult, list: Seq<Scored>) -> bool {
    &&& result.chunks@ == ranking::ids_of(list)
    &&& result.scores@.len() == list.len()
    &&& forall|i: int| 0 <= i < list.len() ==> #[trigger] result.scores@[i] == list[i].bits
}

/// A result that lists distinct chunks below `n` names no chunk twice and none that is not
/// there.
pub proof fn listed_once(result: &RetrievalResult, list: Seq<Scored>, n: nat)
    requires
        is_listing(result, list),
        ranking::distinct_ids(list),
        forall|i: int| 0 <= i < list.len() ==> (#[trigger] list[i]).id < n,
    ensures
        result.chunks@.no_duplicates(),
        forall|i: int| 0 <= i < result.chunks@.len() ==> #[trigger] result.chunks@[i] < n,
{
    assert forall|a: int, b: int|
        0 <= a < result.chunks@.len() && 0 <= b < result.chunks@.len() && a != b implies result.chunks@[a]
        != result.chunks@[b] by {
        if a < b {
            assert(list[a].id != list[b].id);
        } else {
            assert(list[b].id != list[a].id);
        }
    }
    assert forall|i: int| 0 <= i < result.chunks@.len() implies #[trigger] result.chunks@[i] < n by {
        assert(list[i].id < n);
    }
}

/// A list as a result.
pub fn listing(list: &Vec<Scored>, budget: usize) -> (result: RetrievalResult)
    requires
        0 < budget,
        list@.len() <= budget,
    ensures
        is_listing(&result, list@),
        result.keeps_to(budget as nat),
{
    let chunks = ranking::ids(list);
    let mut scores: Vec<u32> = Vec::new();
    let mut i: usize = 0;
    while i < list.len()
        invariant
            i <= list@.len(),
            scores@.len() == i,
            forall|j: int| 0 <= j < i ==> #[trigger] scores@[j] == list@[j].bits,
        decreases list@.len() - i,
    {
        scores.push(list[i].bits);
        i += 1;
    }
    let budget_utilisation = single::ratio(chunks.len(), budget);
    proof {
        single::ratio_grows(chunks@.len() as u64, chunks@.len() as u64, budget as u64);
    }
    RetrievalResult { chunks, scores, budget_utilisation }
}

/// Scores every chunk.
pub fn score_chunks(sims: &Vec<u32>) -> (list: Vec<Scored>)
    requires
        sims@.len() <= u32::MAX,
    ensures
        list@ == chunk_scores(sims@),
{
    let mut list: Vec<Scored> = Vec::new();
    let mut i: usize = 0;
    while i < sims.len()
        invariant
            i <= sims@.len() <= u32::MAX,
            list@.len() == i,
            forall|j: int| 0 <= j < i ==> #[trigger] list@[j] == chunk_scores(sims@)[j],
        decreases sims@.len() - i,
    {
        list.push(Scored { id: i as u32, bits: sims[i] });
        i += 1;
    }
    assert(list@ =~= chunk_scores(sims@));
    list
}

/// Lists the chunks at some places under their own numbers.
pub fn name_chunks(chunks: &Vec<Chunk>, list: &Vec<Scored>) -> (named: Vec<Scored>)
    requires
        forall|i: int| 0 <= i < list@.len() ==> (#[trigger] list@[i]).id < chunks@.len(),
    ensures
        named@ == under_ids(chunks@, list@),
{
    let mut named: Vec<Scored> = Vec::new();
    let mut i: usize = 0;
    while i < list.len()
        invariant
            i <= list@.len(),
            forall|j: int| 0 <= j < list@.len() ==> (#[trigger] list@[j]).id < chunks@.len(),
            named@.len() == i,
            forall|j: int| 0 <= j < i ==> #[trigger] named@[j] == under_ids(chunks@, list@)[j],
        decreases list@.len() - i,
    {
        let x = list[i];
        assert(list@[i as int].id < chunks@.len());
        named.push(Scored { id: chunks[x.id as usize].id, bits: x.bits });
        i += 1;
    }
    assert(named@ =~= under_ids(chunks@, list@));
    named
}

/// One chunk goes before another: it is more similar, or as similar and earlier.
pub open spec fn is_preferred(sims: Seq<u32>, a: int, b: int) -> bool {
    let x = float_order::total_rank(sims[a]);
    let y = float_order::total_rank(sims[b]);
    x > y || (x == y && a < b)
}

/// Gives the chunks most similar to the query.
pub struct TopKRetriever {
    cfg: RetrieverConfig,
}

impl TopKRetriever {
    /// The configuration.
    pub closed spec fn cfg(&self) -> RetrieverConfig {
        self.cfg
    }

    /// A retriever with this configuration.
    pub fn new(cfg: RetrieverConfig) -> (r: Self)
        requires
            cfg.valid(),
        ensures
            r.cfg() == cfg,
    {
        TopKRetriever { cfg }
    }

    /// Name of the method.
    pub fn name(&self) -> (name: &'static str)
        ensures
            name@ == "TopK"@,
    {
        "TopK"
    }

    /// The chunks retrieved are the most similar: as many as the budget allows, each under its
    /// own number and with its own similarity, most similar first, and no chunk that is left
    /// out is more similar than one of them. Of equally similar chunks the earlier comes first.
    pub proof fn retrieval_is_most_similar(
        &self,
        result: &RetrievalResult,
        chunks: Seq<Chunk>,
        sims: Seq<u32>,
    ) -> (places: Seq<int>)
        requires
            chunks.len() == sims.len(),
            sims.len() <= u32::MAX,
            is_listing(
                result,
                under_ids(
                    chunks,
                    ranking::first_k(
                        ranking::ranked_high(chunk_scores(sims)),
                        self.cfg().budget as nat,
                    ),
                ),
            ),
        ensures
            places.len() == (if self.cfg().budget < sims.len() {
                self.cfg().budget as nat
            } else {
                sims.len()
            }),
            places.no_duplicates(),
            result.chunks@.len() == places.len(),
            result.scores@.len() == places.len(),
            forall|i: int|
                0 <= i < places.len() ==> 0 <= #[trigger] places[i] < sims.len()
                    && result.chunks@[i] == chunks[places[i]].id && result.scores@[i]
                    == sims[places[i]],
            forall|i: int, j: int|
                0 <= i < j < places.len() ==> is_preferred(
                    sims,
                    #[trigger] places[i],
                    #[trigger] places[j],
                ),
            forall|i: int, c: int|
                0 <= i < places.len() && 0 <= c < sims.len() && !#[trigger] places.contains(c)
                    ==> is_preferred(sims, #[trigger] places[i], c),
    {
        let row = chunk_scores(sims);
        let budget = self.cfg().budget as nat;
        let top = ranking::first_k(ranking::ranked_high(row), budget);
        ranking::first_k_are_highest(row, budget);
        assert(ranking::distinct_ids(row));
        let places = Seq::new(top.len(), |i: int| top[i].id as int);
        assert forall|i: int| 0 <= i < places.len() implies 0 <= #[trigger] places[i] < sims.len()
            && result.chunks@[i] == chunks[places[i]].id && result.scores@[i] == sims[places[i]] by {
            assert(row.contains(top[i]));
            let j = choose|j: int| 0 <= j < row.len() && row[j] == top[i];
            assert(top[i].id == j);
            assert(under_ids(chunks, top)[i].id == chunks[places[i]].id);
            assert(result.scores@[i] == under_ids(chunks, top)[i].bits);
        }
        assert forall|i: int, j: int| 0 <= i < j < places.len() implies is_preferred(
            sims,
            #[trigger] places[i],
            #[trigger] places[j],
        ) by {
            assert(row.contains(top[i]) && row.contains(top[j]));
            assert(ranking::leads_high(top[i], top[j]));
            assert(top[i].id != top[j].id);
        }
        assert forall|i: int, c: int|
            0 <= i < places.len() && 0 <= c < sims.len() && !#[trigger] places.contains(
                c,
            ) implies is_preferred(sims, #[trigger] places[i], c) by {
            let x = row[c];
            assert(row.contains(x) && row.contains(top[i]));
            assert(!top.contains(x)) by {
                if top.contains(x) {
                    let a = choose|a: int| 0 <= a < top.len() && top[a] == x;
                    assert(places[a] == c);
                }
            }
            assert(ranking::leads_high(top[i], x));
            assert(places[i] != c);
        }
        places
    }

    /// The chunks most similar to the query, as many as the budget allows, most similar first
    /// and of equally similar ones the earlier first, under their own numbers. `sims` are the
    /// cosine similarities.
    pub fn retrieve(&self, corpus: &Corpus, query: &Query, sims: &Vec<u32>) -> (result: RetrievalResult)
        requires
            corpus.wf(),
            self.cfg().valid(),
            corpus.chunks@.len() > 0 ==> query.vector@.len() == corpus.dim,
            sims@.len() == corpus.chunks@.len(),
        ensures
            is_listing(
                &result,
                under_ids(
                    corpus.chunks@,
                    ranking::first_k(
                        ranking::ranked_high(chunk_scores(sims@)),
                        self.cfg().budget as nat,
                    ),
                ),
            ),
            result.chunks@.len() == (if self.cfg().budget < sims@.len() {
                self.cfg().budget as nat
            } else {
                sims@.len()
            }),
            result.keeps_to(self.cfg().budget as nat),
            corpus.has_distinct_ids() ==> result.chunks@.no_duplicates(),
            forall|i: int|
                0 <= i < result.chunks@.len() ==> corpus.has_chunk(#[trigger] result.chunks@[i]),
    {
        let list = score_chunks(sims);
        let mut top = ranking::rank_high(list.as_slice());
        let ghost whole = top@;
        if self.cfg.budget < top.len() {
            top.truncate(self.cfg.budget);
            assert(top@ =~= whole.take(self.cfg.budget as int));
        }
        proof {
            ranking::ranked_high_properties(list@);
            assert forall|i: int| 0 <= i < top@.len() implies (#[trigger] top@[i]).id < sims@.len() by {
                assert(whole.contains(whole[i]));
                assert(list@.contains(whole[i]));
            }
        }
        let named = name_chunks(&corpus.chunks, &top);
        let result = listing(&named, self.cfg.budget);
        proof {
            assert forall|i: int| 0 <= i < result.chunks@.len() implies corpus.has_chunk(
                #[trigger] result.chunks@[i],
            ) by {
                assert(corpus.chunks@[top@[i].id as int].id == named@[i].id);
            }
            if corpus.has_distinct_ids() {
                assert forall|a: int, b: int|
                    0 <= a < result.chunks@.len() && 0 <= b < result.chunks@.len() && a
                        != b implies result.chunks@[a] != result.chunks@[b] by {
                    assert(top@[a].id != top@[b].id);
                    assert(corpus.chunks@[top@[a].id as int].id == named@[a].id);
                    assert(corpus.chunks@[top@[b].id as int].id == named@[b].id);
                }
            }
        }
        result
    }
}

} // verus!
