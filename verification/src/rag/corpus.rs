//! Chunks, queries and what retrieval gives back.
use crate::float_order;
use crate::single;
use vstd::prelude::*;

verus! {

/// Why a retrieval request is refused.
#[derive(Debug, Clone, Copy, PartialEq, Eq, Structural)]
pub enum RagError {
    /// There are no chunks.
    EmptyCorpus,
    /// Dimensions of the corpus and of the query.
    DimMismatch(usize, usize),
    /// The budget is nought.
    InvalidBudget,
}

/// A stored chunk.
#[derive(Debug)]
pub struct Chunk {
    /// Its number: its place in the corpus, unless it was given another.
    pub id: u32,
    /// Its embedding, as the bits of single-precision numbers.
    pub vector: Vec<u32>,
    /// Its label, where it has one.
    pub label: Option<u32>,
}

/// The stored chunks.
pub struct Corpus {
    /// The chunks, in order.
    pub chunks: Vec<Chunk>,
    /// Dimensions of an embedding.
    pub dim: usize,
}

impl Corpus {
    /// The embeddings have one length.
    pub open spec fn wf(&self) -> bool {
        &&& self.chunks@.len() <= u32::MAX
        &&& forall|i: int|
            0 <= i < self.chunks@.len() ==> (#[trigger] self.chunks@[i]).vector@.len() == self.dim
    }

    /// Chunks are numbered in order.
    pub open spec fn is_numbered(&self) -> bool {
        forall|i: int| 0 <= i < self.chunks@.len() ==> (#[trigger] self.chunks@[i]).id == i
    }

    /// Whether a chunk has this number.
    pub open spec fn has_chunk(&self, id: u32) -> bool {
        exists|i: int| 0 <= i < self.chunks@.len() && (#[trigger] self.chunks@[i]).id == id
    }

    /// No two chunks have one number.
    pub open spec fn has_distinct_ids(&self) -> bool {
        forall|i: int, j: int|
            0 <= i < j < self.chunks@.len() ==> (#[trigger] self.chunks@[i]).id != (
            #[trigger] self.chunks@[j]).id
    }

    /// A corpus of unlabelled chunks.
    pub fn from_vecs(vecs: Vec<Vec<u32>>) -> (corpus: Self)
        requires
            vecs@.len() <= u32::MAX,
            forall|i: int|
                0 <= i < vecs@.len() ==> (#[trigger] vecs@[i])@.len() == vecs@[0]@.len(),
        ensures
            corpus.wf(),
            corpus.is_numbered(),
            corpus.dim == (if vecs@.len() == 0 {
                0
            } else {
                vecs@[0]@.len()
            }),
            corpus.chunks@.len() == vecs@.len(),
            forall|i: int|
                0 <= i < vecs@.len() ==> (#[trigger] corpus.chunks@[i]).vector@ == vecs@[i]@
                    && corpus.chunks@[i].label is None,
    {
        let dim: usize = if vecs.len() == 0 {
            0
        } else {
            vecs[0].len()
        };
        let mut chunks: Vec<Chunk> = Vec::new();
        let mut i: usize = 0;
        while i < vecs.len()
            invariant
                i <= vecs@.len() <= u32::MAX,
                chunks@.len() == i,
                forall|j: int|
                    0 <= j < i ==> (#[trigger] chunks@[j]).vector@ == vecs@[j]@ && chunks@[j].label
                        is None && chunks@[j].id == j,
            decreases vecs@.len() - i,
        {
            let vector = vstd::slice::slice_to_vec(vecs[i].as_slice());
            chunks.push(Chunk { id: i as u32, vector, label: None });
            i += 1;
        }
        Corpus { chunks, dim }
    }

    /// The corpus with a label on each chunk.
    pub fn with_labels(self, labels: Vec<u32>) -> (corpus: Self)
        requires
            labels@.len() == self.chunks@.len(),
        ensures
            corpus.wf() == self.wf(),
            corpus.is_numbered() == self.is_numbered(),
            corpus.dim == self.dim,
            corpus.chunks@.len() == self.chunks@.len(),
            forall|i: int|
                0 <= i < labels@.len() ==> (#[trigger] corpus.chunks@[i]).label == Some(labels@[i])
                    && corpus.chunks@[i].id == self.chunks@[i].id && corpus.chunks@[i].vector@
                    == self.chunks@[i].vector@,
    {
        let mut chunks: Vec<Chunk> = Vec::new();
        let mut i: usize = 0;
        while i < labels.len()
            invariant
                labels@.len() == self.chunks@.len(),
                i <= labels@.len(),
                chunks@.len() == i,
                forall|j: int|
                    0 <= j < i ==> (#[trigger] chunks@[j]).label == Some(labels@[j]) && chunks@[j].id
                        == self.chunks@[j].id && chunks@[j].vector@ == self.chunks@[j].vector@,
            decreases labels@.len() - i,
        {
            let vector = vstd::slice::slice_to_vec(self.chunks[i].vector.as_slice());
            chunks.push(Chunk { id: self.chunks[i].id, vector, label: Some(labels[i]) });
            i += 1;
        }
        let corpus = Corpus { chunks, dim: self.dim };
        proof {
            assert forall|j: int| 0 <= j < labels@.len() implies (#[trigger] self.chunks@[j]).id
                == corpus.chunks@[j].id && self.chunks@[j].vector@ == corpus.chunks@[j].vector@ by {}
        }
        corpus
    }

    /// Number of chunks.
    pub fn len(&self) -> (n: usize)
        ensures
            n == self.chunks@.len(),
    {
        self.chunks.len()
    }

    /// Whether there is no chunk.
    pub fn is_empty(&self) -> (r: bool)
        ensures
            r == (self.chunks@.len() == 0),
    {
        self.chunks.len() == 0
    }
}

/// A query.
pub struct Query {
    /// Its embedding, as the bits of single-precision numbers.
    pub vector: Vec<u32>,
    /// Labels of the chunks that answer it, where they are known.
    pub relevant_labels: Vec<u32>,
}

impl Query {
    /// A query with no known answer.
    pub fn new(vector: Vec<u32>) -> (query: Self)
        ensures
            query.vector == vector,
            query.relevant_labels@.len() == 0,
    {
        Query { vector, relevant_labels: Vec::new() }
    }

    /// The query with more labels of chunks that answer it.
    pub fn with_relevant(self, labels: &[u32]) -> (query: Self)
        ensures
            query.vector == self.vector,
            query.relevant_labels@ == self.relevant_labels@ + labels@,
    {
        let mut query = self;
        let ghost before = query.relevant_labels@;
        let mut i: usize = 0;
        while i < labels.len()
            invariant
                i <= labels@.len(),
                query.vector == self.vector,
                before == self.relevant_labels@,
                query.relevant_labels@ == before + labels@.take(i as int),
            decreases labels@.len() - i,
        {
            query.relevant_labels.push(labels[i]);
            i += 1;
            assert(query.relevant_labels@ =~= before + labels@.take(i as int));
        }
        assert(labels@.take(i as int) =~= labels@);
        query
    }
}

/// What all retrievers go by.
#[derive(Clone, Copy, Debug)]
pub struct RetrieverConfig {
    /// Most chunks to give.
    pub budget: usize,
    /// The bits of the least cosine similarity of linked chunks.
    pub edge_threshold: u32,
    /// The bits of the least cosine similarity of query and seed.
    pub seed_threshold: u32,
}

impl Default for RetrieverConfig {
    /// Ten chunks, edges from 0.70, seeds from 0.50.
    fn default() -> (cfg: Self)
        ensures
            cfg.budget == 10,
            cfg.edge_threshold == 0x3f33_3333,
            cfg.seed_threshold == 0x3f00_0000,
    {
        RetrieverConfig { budget: 10, edge_threshold: 0x3f33_3333, seed_threshold: 0x3f00_0000 }
    }
}

/// Minus one.
pub const MINUS_ONE: u32 = 0xbf80_0000;

/// A cosine similarity lies between minus one and one.
pub open spec fn is_cosine(bits: u32) -> bool {
    float_order::at_most(MINUS_ONE, bits) && float_order::at_most(bits, float_order::ONE)
}

impl RetrieverConfig {
    /// There is a budget, and the thresholds are cosines.
    pub open spec fn valid(&self) -> bool {
        self.budget > 0 && is_cosine(self.edge_threshold) && is_cosine(self.seed_threshold)
    }

    /// Whether the configuration can be used.
    pub fn is_valid(&self) -> (r: bool)
        ensures
            r == self.valid(),
    {
        self.budget > 0 && float_order::less_or_equal(MINUS_ONE, self.edge_threshold)
            && float_order::less_or_equal(self.edge_threshold, float_order::ONE)
            && float_order::less_or_equal(MINUS_ONE, self.seed_threshold)
            && float_order::less_or_equal(self.seed_threshold, float_order::ONE)
    }
}

/// Chunks found, with their scores.
#[derive(Debug)]
pub struct RetrievalResult {
    /// The chunks, best first.
    pub chunks: Vec<u32>,
    /// Their scores, as the bits of single-precision numbers.
    pub scores: Vec<u32>,
    /// The bits of the share of the budget used.
    pub budget_utilisation: u32,
}

impl RetrievalResult {
    /// The result keeps to the budget and says how much of it was used.
    pub open spec fn keeps_to(&self, budget: nat) -> bool {
        &&& self.chunks@.len() <= budget
        &&& self.budget_utilisation == single::ratio_bits(self.chunks@.len(), budget)
        &&& float_order::at_most(self.budget_utilisation, float_order::ONE)
    }

    /// Nothing found.
    pub fn nothing(budget: usize) -> (result: Self)
        requires
            budget > 0,
        ensures
            result.chunks@.len() == 0,
            result.scores@.len() == 0,
            result.keeps_to(budget as nat),
    {
        proof {
            single::ratio_grows(0, 0, budget as u64);
        }
        RetrievalResult { chunks: Vec::new(), scores: Vec::new(), budget_utilisation: 0 }
    }

    /// Whether a chunk answers the query.
    pub open spec fn answers(corpus: &Corpus, query: &Query, id: u32) -> bool {
        corpus.chunks@[id as int].label matches Some(label) && query.relevant_labels@.contains(label)
    }

    /// The bits of the share of the chunks found that answer the query; nought where nothing
    /// was found or nothing answers it.
    pub fn precision(&self, corpus: &Corpus, query: &Query) -> (share: u32)
        requires
            query.relevant_labels@.len() > 0 ==> forall|i: int|
                0 <= i < self.chunks@.len() ==> #[trigger] self.chunks@[i] < corpus.chunks@.len(),
        ensures
            share == (if self.chunks@.len() == 0 || query.relevant_labels@.len() == 0 {
                0
            } else {
                single::ratio_bits(
                    self.chunks@.filter(|id: u32| Self::answers(corpus, query, id)).len(),
                    self.chunks@.len(),
                )
            }),
    {
        if self.chunks.len() == 0 || query.relevant_labels.len() == 0 {
            return 0;
        }
        let ghost good = |id: u32| Self::answers(corpus, query, id);
        let mut hits: usize = 0;
        let mut i: usize = 0;
        assert(self.chunks@.take(0).filter(good) =~= Seq::<u32>::empty()) by {
            reveal(Seq::filter);
        }
        while i < self.chunks.len()
            invariant
                i <= self.chunks@.len(),
                forall|j: int|
                    0 <= j < self.chunks@.len() ==> #[trigger] self.chunks@[j]
                        < corpus.chunks@.len(),
                good == (|id: u32| Self::answers(corpus, query, id)),
                hits == self.chunks@.take(i as int).filter(good).len(),
                hits <= i,
            decreases self.chunks@.len() - i,
        {
            let id: u32 = self.chunks[i];
            let hit = match corpus.chunks[id as usize].label {
                Some(label) => is_among(&query.relevant_labels, label),
                None => false,
            };
            proof {
                assert(self.chunks@.take(i + 1) =~= self.chunks@.take(i as int).push(id));
                self.chunks@.take(i as int).lemma_filter_len_push(good, id);
            }
            if hit {
                hits += 1;
            }
            i += 1;
        }
        assert(self.chunks@.take(i as int) =~= self.chunks@);
        single::ratio(hits, self.chunks.len())
    }
}

fn is_among(labels: &Vec<u32>, label: u32) -> (r: bool)
    ensures
        r == labels@.contains(label),
{
    let mut i: usize = 0;
    while i < labels.len()
        invariant
            i <= labels@.len(),
            forall|j: int| 0 <= j < i ==> labels@[j] != label,
        decreases labels@.len() - i,
    {
        if labels[i] == label {
            assert(labels@[i as int] == label);
            return true;
        }
        i += 1;
    }
    false
}

} // verus!
