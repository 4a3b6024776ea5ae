//! Beam search with diverse results.
use rand::rngs::StdRng;
use rand::{Rng, SeedableRng};
use rand_distr::{Distribution, Normal};
use ruvector::diverse::coprime::gcd;
use ruvector::diverse::graph::FlatGraph;
use ruvector::diverse::search::{
    entry_points, recall_at_k, BlendWith, CoherenceBeam, GreedyBeam, MMRRerank, RelevanceOnly,
};
use ruvector::metric::{Computed, DistanceTable};
use ruvector::ranking::{ids, Scored};

const N: usize = 300;
const DIM: usize = 32;
const K: usize = 5;
const BEAM: usize = 30;
const K_NN: usize = 12;
const N_Q: usize = 30;
const SEED: u64 = 0xc0_ffee;

fn l2_sq(a: &[f32], b: &[f32]) -> f32 {
    a.iter().zip(b).map(|(x, y)| (x - y) * (x - y)).sum()
}

fn cosine_sim(a: &[f32], b: &[f32]) -> f32 {
    let dot: f32 = a.iter().zip(b.iter()).map(|(x, y)| x * y).sum();
    let na: f32 = a.iter().map(|x| x * x).sum::<f32>().sqrt();
    let nb: f32 = b.iter().map(|x| x * x).sum::<f32>().sqrt();
    if na < 1e-9 || nb < 1e-9 {
        0.0
    } else {
        (dot / (na * nb)).clamp(-1.0, 1.0)
    }
}

fn uniform(n: usize, dim: usize, seed: u64) -> Vec<Vec<f32>> {
    let mut rng = StdRng::seed_from_u64(seed);
    (0..n)
        .map(|_| (0..dim).map(|_| rng.gen_range(-1.0_f32..1.0_f32)).collect())
        .collect()
}

fn clustered(n: usize, dim: usize, k: usize, std_dev: f32, seed: u64) -> Vec<Vec<f32>> {
    let mut rng = StdRng::seed_from_u64(seed);
    let normal = Normal::new(0.0_f32, std_dev).expect("valid std_dev");
    let centers: Vec<Vec<f32>> = (0..k)
        .map(|_| (0..dim).map(|_| rng.gen_range(-0.8_f32..0.8_f32)).collect())
        .collect();
    (0..n)
        .map(|i| {
            let c = &centers[i % k];
            c.iter().map(|&ci| ci + normal.sample(&mut rng)).collect()
        })
        .collect()
}

fn queries_uniform(n_q: usize, dim: usize, seed: u64) -> Vec<Vec<f32>> {
    uniform(n_q, dim, seed.wrapping_add(0x1a2b_3c4d))
}

fn queries_clustered(n: usize, dim: usize, k: usize, std_dev: f32, seed: u64) -> Vec<Vec<f32>> {
    clustered(n, dim, k, std_dev, seed.wrapping_add(0x1a2b_3c4d))
}

fn distances<'a>(
    from: &'a [Vec<f32>],
    to: &'a [Vec<f32>],
) -> Computed<impl Fn(u32, u32) -> u32 + 'a> {
    Computed {
        f: move |i: u32, j: u32| l2_sq(&from[i as usize], &to[j as usize]).to_bits(),
        sources: from.len(),
        targets: to.len(),
    }
}

fn similarities(v: &[Vec<f32>]) -> Computed<impl Fn(u32, u32) -> u32 + '_> {
    Computed {
        f: move |i: u32, j: u32| cosine_sim(&v[i as usize], &v[j as usize]).to_bits(),
        sources: v.len(),
        targets: v.len(),
    }
}

fn angles(v: &[Vec<f32>]) -> Computed<impl Fn(u32, u32) -> u32 + '_> {
    Computed {
        f: move |i: u32, j: u32| {
            let sim = cosine_sim(&v[i as usize], &v[j as usize]);
            ((1.0 - sim) * 0.5).clamp(0.0, 1.0).to_bits()
        },
        sources: v.len(),
        targets: v.len(),
    }
}

fn weighted(lambda: f32) -> BlendWith<impl Fn(u32, u32, u32) -> u32> {
    BlendWith {
        f: move |dist: u32, scale: u32, diversity: u32| {
            let relevance = 1.0 - f32::from_bits(dist) / f32::from_bits(scale);
            (lambda * relevance + (1.0 - lambda) * f32::from_bits(diversity)).to_bits()
        },
    }
}

fn graph_of(vectors: &[Vec<f32>]) -> FlatGraph {
    let rows = vectors.iter().map(|v| v.iter().map(|x| x.to_bits()).collect()).collect();
    FlatGraph::build(rows, K_NN, &distances(vectors, vectors))
}

fn mean_recall<F: Fn(u32) -> Vec<Scored>>(
    search: F,
    graph: &FlatGraph,
    vectors: &[Vec<f32>],
    queries: &[Vec<f32>],
) -> f32 {
    let metric = distances(queries, vectors);
    let mut total = 0.0_f32;
    for q in 0..queries.len() as u32 {
        let gt = ids(&graph.brute_force(&metric, q, K));
        total += f32::from_bits(recall_at_k(&gt, &search(q), K));
    }
    total / queries.len() as f32
}

fn mean_pairwise_dist(results: &[Scored], vectors: &[Vec<f32>]) -> f32 {
    if results.len() < 2 {
        return 0.0;
    }
    let mut total = 0.0_f32;
    let mut count = 0usize;
    for i in 0..results.len() {
        for j in (i + 1)..results.len() {
            let a = &vectors[results[i].id as usize];
            let b = &vectors[results[j].id as usize];
            total += l2_sq(a, b).sqrt();
            count += 1;
        }
    }
    total / count as f32
}

#[test]
fn greedy_recall_uniform() {
    let v = uniform(N, DIM, SEED);
    let g = graph_of(&v);
    let qs = queries_uniform(N_Q, DIM, SEED);
    let metric = distances(&qs, &v);
    let beam = GreedyBeam { graph: &g, n_entry: 6 };
    let r = mean_recall(|q| beam.search(&metric, q, K, BEAM), &g, &v, &qs);
    assert!(r >= 0.65, "GreedyBeam recall@{K} = {r:.3}, expected >= 0.65");
}

#[test]
fn mmr_rerank_recall_uniform() {
    let v = uniform(N, DIM, SEED);
    let g = graph_of(&v);
    let qs = queries_uniform(N_Q, DIM, SEED);
    let metric = distances(&qs, &v);
    let mmr = MMRRerank { graph: &g, n_entry: 6 };
    let apart = angles(&v);
    let blend = weighted(0.75);
    let r = mean_recall(|q| mmr.search(&metric, &apart, &blend, q, K, BEAM), &g, &v, &qs);
    assert!(r >= 0.50, "MMRRerank recall@{K} = {r:.3}, expected >= 0.50");
}

#[test]
fn mmr_rerank_diversity_gt_greedy() {
    let v = uniform(N, DIM, SEED);
    let g = graph_of(&v);
    let qs = queries_uniform(1, DIM, SEED);
    let metric = distances(&qs, &v);
    let greedy = GreedyBeam { graph: &g, n_entry: 6 }.search(&metric, 0, K, BEAM);
    let mmr =
        MMRRerank { graph: &g, n_entry: 6 }.search(&metric, &angles(&v), &weighted(0.75), 0, K, BEAM);
    let d_greedy = mean_pairwise_dist(&greedy, &v);
    let d_mmr = mean_pairwise_dist(&mmr, &v);
    assert!(
        d_mmr >= d_greedy * 0.90,
        "MMRRerank diversity {d_mmr:.3} should be >= Greedy {d_greedy:.3}"
    );
}

#[test]
fn coherence_recall_uniform() {
    let v = uniform(N, DIM, SEED);
    let g = graph_of(&v);
    let qs = queries_uniform(N_Q, DIM, SEED);
    let metric = distances(&qs, &v);
    let sims = similarities(&v);
    let beam =
        CoherenceBeam { graph: &g, n_entry: 6, coherence_threshold: 0.92f32.to_bits() };
    let r = mean_recall(|q| beam.search(&metric, &sims, q, K, BEAM), &g, &v, &qs);
    assert!(r >= 0.55, "CoherenceBeam recall@{K} = {r:.3}, expected >= 0.55");
}

#[test]
fn greedy_recall_clustered() {
    let n_clusters = 8usize;
    let n_entry = n_clusters + 2;
    let v = clustered(N, DIM, n_clusters, 0.12, SEED);
    let g = graph_of(&v);
    let qs = queries_clustered(N_Q, DIM, n_clusters, 0.12, SEED);
    let metric = distances(&qs, &v);
    let beam = GreedyBeam { graph: &g, n_entry };
    let r = mean_recall(|q| beam.search(&metric, q, K, BEAM), &g, &v, &qs);
    assert!(r >= 0.60, "GreedyBeam clustered recall@{K} = {r:.3}, expected >= 0.60");
}

#[test]
fn results_length_correct() {
    let v = uniform(N, DIM, SEED);
    let g = graph_of(&v);
    let res = GreedyBeam { graph: &g, n_entry: 4 }.search(&distances(&v, &v), 0, K, BEAM);
    assert_eq!(res.len(), K, "expected exactly {K} results");
}

#[test]
fn results_sorted_ascending() {
    let v = uniform(N, DIM, SEED);
    let g = graph_of(&v);
    let res = GreedyBeam { graph: &g, n_entry: 4 }.search(&distances(&v, &v), 0, K, BEAM);
    for w in res.windows(2) {
        let (a, b) = (f32::from_bits(w[0].bits), f32::from_bits(w[1].bits));
        assert!(a <= b, "results not sorted by distance");
    }
}

#[test]
fn recall_helper_perfect() {
    let gt = vec![0u32, 1, 2, 3, 4];
    let res: Vec<Scored> =
        gt.iter().map(|&id| Scored { id, bits: (id as f32).to_bits() }).collect();
    assert_eq!(f32::from_bits(recall_at_k(&gt, &res, 5)), 1.0);
}

#[test]
fn recall_helper_zero() {
    let gt = vec![0u32, 1, 2];
    let res = vec![
        Scored { id: 10, bits: 0.1f32.to_bits() },
        Scored { id: 11, bits: 0.2f32.to_bits() },
        Scored { id: 12, bits: 0.3f32.to_bits() },
    ];
    assert_eq!(f32::from_bits(recall_at_k(&gt, &res, 3)), 0.0);
}

#[test]
fn zero_k_returns_empty_even_with_zero_beam() {
    let v = uniform(N, DIM, SEED);
    let g = graph_of(&v);
    let result = GreedyBeam { graph: &g, n_entry: 4 }.search(&distances(&v, &v), 0, 0, 0);
    assert!(result.is_empty());
}

#[test]
fn beam_smaller_than_k_still_returns_k() {
    let v = uniform(N, DIM, SEED);
    let g = graph_of(&v);
    let result = GreedyBeam { graph: &g, n_entry: 4 }.search(&distances(&v, &v), 0, K, 1);
    assert_eq!(result.len(), K);
}

#[test]
fn entry_points_are_spread_and_distinct() {
    assert_eq!(entry_points(10, 4), vec![0, 3, 6, 9]);
    assert_eq!(entry_points(7, 9), vec![0, 1, 2, 3, 4, 5, 6]);
    assert_eq!(entry_points(1, 3), vec![0]);
    assert_eq!(entry_points(12, 2), vec![0, 7]);
    assert_eq!(gcd(12, 18), 6);
    assert_eq!(gcd(0, 5), 5);
}

/// Four nodes on a line, and a query at its start.
fn line() -> (FlatGraph, DistanceTable) {
    let at = [0.0f32, 1.0, 2.0, 4.0];
    let cells: Vec<u32> =
        at.iter().flat_map(|x| at.iter().map(move |y| ((x - y) * (x - y)).to_bits())).collect();
    let table = DistanceTable { cells, width: 4 };
    let rows = at.iter().map(|x| vec![x.to_bits()]).collect();
    (FlatGraph::build(rows, 2, &table), table)
}

#[test]
fn graph_links_the_nearest() {
    let (g, table) = line();
    assert_eq!(g.neighbors, vec![vec![1, 2], vec![0, 2], vec![1, 0], vec![2, 1]]);
    assert_eq!(g.vec(3), &[4.0f32.to_bits()]);
    assert_eq!(g.len(), 4);
    assert!(!g.is_empty());
    assert_eq!(ids(&g.brute_force(&table, 3, 3)), vec![3, 2, 1]);
    assert_eq!(g.memory_bytes(), 4 * 4 + 8 * 8);
}

#[test]
fn relevance_alone_keeps_the_order() {
    let (g, table) = line();
    let mmr = MMRRerank { graph: &g, n_entry: 1 };
    let found = mmr.search(&table, &table, &RelevanceOnly, 0, 3, 8);
    assert_eq!(ids(&found), vec![0, 1, 2]);
    assert_eq!(mmr.name(), "MMRRerank");
}

#[test]
fn diversity_alone_picks_the_farthest() {
    let (g, table) = line();
    let mmr = MMRRerank { graph: &g, n_entry: 4 };
    let only_diversity = BlendWith { f: |_: u32, _: u32, diversity: u32| diversity };
    let found = mmr.search(&table, &table, &only_diversity, 0, 3, 8);
    assert_eq!(ids(&found), vec![0, 3, 2]);
}

#[test]
fn coherent_neighbours_are_skipped() {
    let (g, table) = line();
    let alike = DistanceTable { cells: vec![1.0f32.to_bits(); 16], width: 4 };
    let strict =
        CoherenceBeam { graph: &g, n_entry: 1, coherence_threshold: 0.5f32.to_bits() };
    assert_eq!(ids(&strict.search(&table, &alike, 0, 3, 8)), vec![0]);
    let open = CoherenceBeam { graph: &g, n_entry: 1, coherence_threshold: 1.0f32.to_bits() };
    assert_eq!(ids(&open.search(&table, &alike, 0, 3, 8)), vec![0, 1, 2]);
    assert_eq!(open.name(), "CoherenceBeam");
    assert_eq!(GreedyBeam { graph: &g, n_entry: 1 }.name(), "GreedyBeam");
}

#[test]
fn idle_gate_leaves_the_search_greedy() {
    let v = uniform(N, DIM, SEED);
    let g = graph_of(&v);
    let qs = queries_uniform(5, DIM, SEED);
    let metric = distances(&qs, &v);
    let greedy = GreedyBeam { graph: &g, n_entry: 4 };
    let gated = CoherenceBeam { graph: &g, n_entry: 4, coherence_threshold: 1.0f32.to_bits() };
    for q in 0..5 {
        let found = gated.search(&metric, &similarities(&v), q, K, BEAM);
        assert_eq!(found, greedy.search(&metric, q, K, BEAM));
    }
}

#[test]
fn full_weight_on_relevance_keeps_the_nearest() {
    let v = uniform(N, DIM, SEED);
    let g = graph_of(&v);
    let qs = queries_uniform(5, DIM, SEED);
    let metric = distances(&qs, &v);
    let mmr = MMRRerank { graph: &g, n_entry: 4 };
    let greedy = GreedyBeam { graph: &g, n_entry: 4 };
    for q in 0..5 {
        let pool = greedy.search(&metric, q, BEAM, BEAM);
        let found = mmr.search(&metric, &angles(&v), &weighted(1.0), q, K, BEAM);
        assert_eq!(&found[..], &pool[..K]);
    }
}

#[test]
fn entries_everywhere_find_the_nearest() {
    let v = uniform(60, 8, SEED);
    let g = graph_of(&v);
    let qs = queries_uniform(5, 8, SEED);
    let metric = distances(&qs, &v);
    let mut all = entry_points(60, 60);
    all.sort();
    assert_eq!(all, (0..60).collect::<Vec<u32>>());
    for q in 0..5 {
        let found = GreedyBeam { graph: &g, n_entry: 60 }.search(&metric, q, K, 60);
        assert_eq!(found, g.brute_force(&metric, q, K));
    }
}

#[test]
fn recall_counts_neighbours_that_were_not_found() {
    let gt = vec![0u32, 1, 2, 3, 4];
    let one = vec![Scored { id: 0, bits: 0 }];
    assert_eq!(recall_at_k(&gt, &one, 5), 0.2f32.to_bits());
    assert_eq!(recall_at_k(&gt, &one, 1), 1.0f32.to_bits());
    assert_eq!(recall_at_k(&gt, &one, 9), 0.2f32.to_bits());
    assert_eq!(recall_at_k(&gt, &vec![], 5), 0);
    let many: Vec<Scored> = (0..8).rev().map(|id| Scored { id, bits: 0 }).collect();
    assert_eq!(recall_at_k(&gt, &many, 5), 0.4f32.to_bits());
    assert_eq!(recall_at_k(&vec![7, 9], &many, 5), 0.5f32.to_bits());
    assert_eq!(recall_at_k(&vec![], &many, 5), 0);
    assert_eq!(recall_at_k(&gt, &many, 0), 0);
}
