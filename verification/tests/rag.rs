//! Retrieval within a context budget.
use rand::rngs::StdRng;
use rand::SeedableRng;
use rand_distr::{Distribution, Normal};
use ruvector::metric::{Computed, DistanceTable};
use ruvector::rag::corpus::{Corpus, Query, RagError, RetrievalResult, RetrieverConfig};
use ruvector::rag::fixed::{attraction, bond, repulsion, units, MILLI_UNITS, UNIT};
use ruvector::rag::flow::minimum_cut;
use ruvector::rag::graph_bfs::GraphBfsRetriever;
use ruvector::rag::mincut::MinCutRetriever;
use ruvector::rag::topk::TopKRetriever;

fn normalise(v: &[f32]) -> Vec<f32> {
    let norm: f32 = v.iter().map(|x| x * x).sum::<f32>().sqrt();
    if norm < 1e-10 {
        v.to_vec()
    } else {
        v.iter().map(|x| x / norm).collect()
    }
}

fn cosine(a: &[f32], b: &[f32]) -> f32 {
    assert_eq!(a.len(), b.len(), "vector dimension mismatch");
    a.iter().zip(b).map(|(x, y)| x * y).sum::<f32>().clamp(-1.0, 1.0)
}

fn floats(bits: &[u32]) -> Vec<f32> {
    bits.iter().map(|b| f32::from_bits(*b)).collect()
}

fn bits_of(values: &[f32]) -> Vec<u32> {
    values.iter().map(|x| x.to_bits()).collect()
}

fn corpus_of(vecs: &[Vec<f32>]) -> Corpus {
    Corpus::from_vecs(vecs.iter().map(|v| bits_of(v)).collect())
}

/// Similarities of the query and the chunks.
fn sims(corpus: &Corpus, query: &Query) -> Vec<u32> {
    let qn = normalise(&floats(&query.vector));
    corpus
        .chunks
        .iter()
        .map(|c| cosine(&qn, &normalise(&floats(&c.vector))).to_bits())
        .collect()
}

/// Similarities between chunks.
fn pairs(corpus: &Corpus) -> Computed<impl Fn(u32, u32) -> u32> {
    let normed: Vec<Vec<f32>> =
        corpus.chunks.iter().map(|c| normalise(&floats(&c.vector))).collect();
    let n = normed.len();
    Computed {
        f: move |i: u32, j: u32| cosine(&normed[i as usize], &normed[j as usize]).to_bits(),
        sources: n,
        targets: n,
    }
}

fn topk(cfg: RetrieverConfig, corpus: &Corpus, query: &Query) -> RetrievalResult {
    TopKRetriever::new(cfg).retrieve(corpus, query, &sims(corpus, query))
}

fn bfs(cfg: RetrieverConfig, corpus: &Corpus, query: &Query) -> RetrievalResult {
    GraphBfsRetriever::new(cfg).retrieve(corpus, query, &sims(corpus, query), &pairs(corpus))
}

fn mincut(cfg: RetrieverConfig, corpus: &Corpus, query: &Query) -> RetrievalResult {
    MinCutRetriever::new(cfg).retrieve(corpus, query, &sims(corpus, query), &pairs(corpus))
}

fn config(budget: usize, edge: f32, seed: f32) -> RetrieverConfig {
    RetrieverConfig { budget, edge_threshold: edge.to_bits(), seed_threshold: seed.to_bits() }
}

fn toy_corpus() -> Corpus {
    let vecs = vec![
        vec![1.0_f32, 0.0, 0.0],
        vec![0.95, 0.05, 0.0],
        vec![0.90, 0.10, 0.0],
        vec![0.85, 0.15, 0.05],
        vec![0.0, 0.0, 1.0],
        vec![0.05, 0.05, 0.95],
        vec![0.0, 0.1, 0.9],
        vec![0.5, 0.5, 0.5],
    ];
    corpus_of(&vecs).with_labels(vec![0, 0, 0, 0, 1, 1, 1, 2])
}

fn cluster0_query() -> Query {
    Query::new(bits_of(&[1.0, 0.0, 0.0])).with_relevant(&[0u32])
}

#[test]
fn topk_returns_budget_chunks() {
    let cfg = RetrieverConfig { budget: 3, ..Default::default() };
    let r = topk(cfg, &toy_corpus(), &cluster0_query());
    assert_eq!(r.chunks.len(), 3);
}

#[test]
fn topk_highest_similarity_first() {
    let cfg = RetrieverConfig { budget: 4, ..Default::default() };
    let r = topk(cfg, &toy_corpus(), &cluster0_query());
    assert_eq!(r.chunks[0], 0);
    let scores = floats(&r.scores);
    for w in scores.windows(2) {
        assert!(w[0] >= w[1] - 1e-6, "scores not sorted: {scores:?}");
    }
}

#[test]
fn topk_precision_cluster0() {
    let corpus = toy_corpus();
    let cfg = RetrieverConfig { budget: 4, ..Default::default() };
    let q = cluster0_query();
    let p = f32::from_bits(topk(cfg, &corpus, &q).precision(&corpus, &q));
    assert!(p >= 0.75, "TopK precision={p} too low");
}

#[test]
fn graphbfs_respects_budget() {
    let r = bfs(config(3, 0.8, 0.7), &toy_corpus(), &cluster0_query());
    assert!(r.chunks.len() <= 3);
}

#[test]
fn graphbfs_retrieves_cluster0() {
    let corpus = toy_corpus();
    let q = cluster0_query();
    let p = f32::from_bits(bfs(config(5, 0.75, 0.60), &corpus, &q).precision(&corpus, &q));
    assert!(p >= 0.60, "GraphBFS precision={p} too low");
}

#[test]
fn mincut_respects_budget() {
    let cfg = RetrieverConfig {
        budget: 3,
        edge_threshold: 0.75f32.to_bits(),
        ..Default::default()
    };
    let r = mincut(cfg, &toy_corpus(), &cluster0_query());
    assert!(r.chunks.len() <= 3);
}

#[test]
fn mincut_precision_cluster0() {
    let corpus = toy_corpus();
    let q = cluster0_query();
    let p = f32::from_bits(mincut(config(6, 0.75, 0.50), &corpus, &q).precision(&corpus, &q));
    assert!(p >= 0.60, "MinCut precision={p} too low");
}

#[test]
fn mincut_no_cross_cluster_bleed() {
    let q = Query::new(bits_of(&[1.0, 0.0, 0.0]));
    let r = mincut(config(4, 0.85, 0.70), &toy_corpus(), &q);
    for &id in &r.chunks {
        assert!(id < 4 || id == 7, "MinCut bled into cluster 1: chunk={id}");
    }
}

#[test]
fn acceptance_precision_threshold() {
    let mut rng = StdRng::seed_from_u64(42);
    let dim = 30_usize;
    let n_per_cluster = 100_usize;
    let normal = Normal::new(0.0_f32, 0.1).unwrap();
    let mut vecs: Vec<Vec<f32>> = Vec::new();
    let mut labels: Vec<u32> = Vec::new();
    for cluster in 0..2usize {
        for _ in 0..n_per_cluster {
            let mut v = vec![0.0_f32; dim];
            v[cluster] = 1.0;
            for x in v.iter_mut() {
                *x += normal.sample(&mut rng);
            }
            vecs.push(v);
            labels.push(cluster as u32);
        }
    }
    let corpus = corpus_of(&vecs).with_labels(labels);
    let mut qv = vec![0.0_f32; dim];
    qv[0] = 1.0;
    let query = Query::new(bits_of(&qv)).with_relevant(&[0u32]);
    let cfg = config(30, 0.70, 0.40);
    let p_topk = f32::from_bits(topk(cfg, &corpus, &query).precision(&corpus, &query));
    let p_bfs = f32::from_bits(bfs(cfg, &corpus, &query).precision(&corpus, &query));
    let p_mc = f32::from_bits(mincut(cfg, &corpus, &query).precision(&corpus, &query));
    assert!(p_topk >= 0.70, "TopK precision={p_topk:.3} below threshold");
    assert!(p_bfs >= 0.70, "BFS precision={p_bfs:.3} below threshold");
    assert!(p_mc >= 0.70, "MinCut precision={p_mc:.3} below threshold");
}

#[test]
fn empty_corpus_gives_nothing() {
    let corpus = corpus_of(&[]);
    assert!(corpus.is_empty());
    let q = Query::new(vec![]);
    let cfg = RetrieverConfig::default();
    assert!(topk(cfg, &corpus, &q).chunks.is_empty());
    assert!(bfs(cfg, &corpus, &q).chunks.is_empty());
    assert!(mincut(cfg, &corpus, &q).chunks.is_empty());
}

#[test]
fn default_settings_are_valid() {
    let cfg = RetrieverConfig::default();
    assert!(cfg.is_valid());
    assert_eq!(cfg.budget, 10);
    assert_eq!(cfg.edge_threshold, 0.70f32.to_bits());
    assert_eq!(cfg.seed_threshold, 0.50f32.to_bits());
    assert!(!config(0, 0.5, 0.5).is_valid());
    assert!(!config(1, 1.5, 0.5).is_valid());
    assert!(!config(1, 0.5, f32::NAN).is_valid());
    assert!(config(1, -1.0, 1.0).is_valid());
}

#[test]
fn labels_and_relevance() {
    let corpus = corpus_of(&[vec![1.0], vec![2.0]]).with_labels(vec![7, 8]);
    assert_eq!(corpus.len(), 2);
    assert_eq!(corpus.chunks[1].label, Some(8));
    let q = Query::new(bits_of(&[1.0])).with_relevant(&[8, 9]);
    let result = RetrievalResult { chunks: vec![0, 1, 1], scores: vec![0, 0, 0], budget_utilisation: 0 };
    assert_eq!(result.precision(&corpus, &q), (2.0f32 / 3.0).to_bits());
    assert_ne!(RagError::EmptyCorpus, RagError::InvalidBudget);
    assert_ne!(RagError::DimMismatch(1, 2), RagError::DimMismatch(2, 1));
}

#[test]
fn expansion_falls_back_to_the_best_chunk() {
    let corpus = corpus_of(&[vec![0.0, 1.0], vec![0.2, 1.0], vec![-1.0, 0.0]]);
    let q = Query::new(bits_of(&[1.0, 0.0]));
    let r = bfs(config(5, 1.0, 0.9), &corpus, &q);
    assert_eq!(r.chunks, vec![1]);
}

#[test]
fn expansion_scores_with_the_weaker_link() {
    let corpus = corpus_of(&[vec![1.0], vec![1.0], vec![1.0]]);
    let q = Query::new(bits_of(&[1.0]));
    let sims = bits_of(&[0.9, 0.3, 0.8]);
    let table = DistanceTable {
        cells: bits_of(&[1.0, 0.6, 0.4, 0.0, 1.0, 0.9, 0.0, 0.0, 1.0]),
        width: 3,
    };
    let r = GraphBfsRetriever::new(config(3, 0.5, 0.85)).retrieve(&corpus, &q, &sims, &table);
    assert_eq!(r.chunks, vec![0, 1, 2]);
    assert_eq!(floats(&r.scores), vec![0.9, 0.3, 0.8]);
}

#[test]
fn capacities_in_units() {
    assert_eq!(units(1.0f32.to_bits()), UNIT);
    assert_eq!(units(0.5f32.to_bits()), UNIT / 2);
    assert_eq!(units((-2.0f32).to_bits()), 2 * UNIT);
    assert_eq!(units(0), 0);
    assert_eq!(attraction((-1.0f32).to_bits()), MILLI_UNITS);
    assert_eq!(attraction(0.25f32.to_bits()), UNIT / 4);
    assert_eq!(repulsion(0.25f32.to_bits()), UNIT / 4 * 3);
    assert_eq!(repulsion((-1.0f32).to_bits()), 2 * UNIT);
    assert_eq!(repulsion(1.0f32.to_bits()), MILLI_UNITS);
    assert_eq!(bond(0.5f32.to_bits(), 0.5f32.to_bits()), UNIT / 4);
    assert_eq!(bond((-0.5f32).to_bits(), 0.5f32.to_bits()), 0);
}

#[test]
fn cut_falls_on_the_bottleneck() {
    let cap = vec![
        vec![0, 3, 9, 0],
        vec![0, 0, 0, 9],
        vec![0, 0, 0, 2],
        vec![0, 0, 0, 0],
    ];
    let cut = minimum_cut(&cap, 0, 3, 0);
    assert_eq!(cut.side, vec![true, false, true, false]);
}

#[test]
fn strong_bonds_pull_a_chunk_along() {
    let corpus = corpus_of(&[vec![1.0], vec![1.0]]);
    let q = Query::new(bits_of(&[1.0]));
    let sims = bits_of(&[0.9, 0.4]);
    let table = DistanceTable { cells: bits_of(&[1.0, 1.0, 1.0, 1.0]), width: 2 };
    let cfg = config(5, 0.5, 0.5);
    let free = MinCutRetriever::new(cfg)
        .with_edge_scale(0.0f32.to_bits())
        .retrieve(&corpus, &q, &sims, &table);
    assert_eq!(free.chunks, vec![0]);
    let tied = MinCutRetriever::new(cfg)
        .with_edge_scale(1.0f32.to_bits())
        .retrieve(&corpus, &q, &sims, &table);
    assert_eq!(tied.chunks, vec![0, 1]);
}

#[test]
fn retrievers_have_names() {
    let cfg = RetrieverConfig::default();
    assert_eq!(TopKRetriever::new(cfg).name(), "TopK");
    assert_eq!(GraphBfsRetriever::new(cfg).name(), "GraphBFS");
    assert_eq!(MinCutRetriever::new(cfg).name(), "MinCutBounded");
}

#[test]
fn expansion_below_budget_takes_the_whole_component() {
    let vecs = vec![
        vec![1.0f32, 0.0, 0.0],
        vec![0.8, 0.6, 0.0],
        vec![0.28, 0.96, 0.0],
        vec![0.0, 0.0, 1.0],
    ];
    let corpus = corpus_of(&vecs);
    let query = Query::new(bits_of(&[1.0, 0.0, 0.0]));
    let all = bfs(config(10, 0.75, 0.9), &corpus, &query);
    assert_eq!(all.chunks, vec![0, 1, 2]);
    let two = bfs(config(2, 0.75, 0.9), &corpus, &query);
    assert_eq!(two.chunks, vec![0, 1]);
    let alone = bfs(config(10, 0.99, 0.9), &corpus, &query);
    assert_eq!(alone.chunks, vec![0]);
}

#[test]
fn budget_utilisation_is_the_share_used() {
    let corpus = corpus_of(&[vec![1.0, 0.0], vec![0.0, 1.0], vec![1.0, 1.0]]);
    let q = Query::new(bits_of(&[1.0, 0.0]));
    let found = topk(config(7, 0.5, 0.5), &corpus, &q);
    assert_eq!(found.budget_utilisation, (3.0f32 / 7.0).to_bits());
    let full = topk(config(2, 0.5, 0.5), &corpus, &q);
    assert_eq!(full.budget_utilisation, 1.0f32.to_bits());
    assert_eq!(RetrievalResult::nothing(5).budget_utilisation, 0);
    assert_eq!(full.precision(&corpus, &q), 0);
}

#[test]
fn topk_lists_chunks_under_their_own_numbers() {
    let mut corpus = toy_corpus();
    for (i, chunk) in corpus.chunks.iter_mut().enumerate() {
        chunk.id = 100 - 10 * i as u32;
    }
    let q = Query::new(bits_of(&[1.0, 0.0, 0.0]));
    let cfg = RetrieverConfig { budget: 3, ..Default::default() };
    let r = topk(cfg, &corpus, &q);
    assert_eq!(r.chunks, vec![100, 90, 80]);
    assert_eq!(bfs(config(3, 0.8, 0.7), &corpus, &q).chunks, vec![0, 1, 2]);
    let relabelled = corpus.with_labels(vec![7; 8]);
    assert_eq!(relabelled.chunks[3].id, 70);
    assert_eq!(topk(cfg, &relabelled, &q).chunks, vec![100, 90, 80]);
}
