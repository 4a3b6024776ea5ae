//! Beam search with a recall target.
use rand::rngs::StdRng;
use rand::SeedableRng;
use rand_distr::{Distribution, Normal, Uniform};
use ruvector::adaptive::calibrate::{sorted_distinct, CalibrationTable, Calibrator};
use ruvector::adaptive::graph::{take_jump, FlatGraph, GraphConfig};
use ruvector::adaptive::metrics::{count_hits, memory_estimate_bytes, recall_at_k, LatencyStats};
use ruvector::adaptive::search::{
    beam_search, BinarySearchCalibrated, FixedEfSearch, TableCalibratedSearch,
};
use ruvector::knn::{find_nearest, ground_truth};
use ruvector::metric::{Computed, DistanceTable};
use ruvector::ranking::ids;

const DIMS: usize = 32;
const N_CLUSTERS: usize = 4;
const PER_CLUSTER: usize = 100;
const M: usize = 12;
const M_LONGJUMP: usize = 4;
const K: usize = 10;
const ENTRY: usize = 0;

/// Squared distance from one set of rows to another.
fn squared_l2(from: Vec<f32>, to: Vec<f32>, dims: usize) -> Computed<impl Fn(u32, u32) -> u32> {
    let (sources, targets) = (from.len() / dims, to.len() / dims);
    let f = move |i: u32, j: u32| {
        let a = &from[i as usize * dims..(i as usize + 1) * dims];
        let b = &to[j as usize * dims..(j as usize + 1) * dims];
        let sum: f32 = a.iter().zip(b).map(|(x, y)| (x - y) * (x - y)).sum();
        sum.to_bits()
    };
    Computed { f, sources, targets }
}

fn bits_of(values: &[f32]) -> Vec<u32> {
    values.iter().map(|x| x.to_bits()).collect()
}

fn random_unit_vectors(n: usize, dims: usize, seed: u64) -> Vec<f32> {
    let mut rng = StdRng::seed_from_u64(seed);
    let normal = Normal::new(0.0f32, 1.0).unwrap();
    let mut out = vec![0.0f32; n * dims];
    for i in 0..n {
        let row = &mut out[i * dims..(i + 1) * dims];
        let mut norm_sq = 0.0f32;
        for v in row.iter_mut() {
            *v = normal.sample(&mut rng);
            norm_sq += *v * *v;
        }
        let norm = norm_sq.sqrt().max(1e-9);
        for v in row.iter_mut() {
            *v /= norm;
        }
    }
    out
}

fn clustered_unit_vectors(
    n_clusters: usize,
    per_cluster: usize,
    dims: usize,
    std: f32,
    seed: u64,
) -> Vec<f32> {
    let mut rng = StdRng::seed_from_u64(seed);
    let uni = Uniform::new(-1.0f32, 1.0);
    let normal = Normal::new(0.0f32, std).unwrap();
    let centers: Vec<Vec<f32>> = (0..n_clusters)
        .map(|_| {
            let mut c: Vec<f32> = (0..dims).map(|_| uni.sample(&mut rng)).collect();
            let norm: f32 = c.iter().map(|x| x * x).sum::<f32>().sqrt().max(1e-9);
            c.iter_mut().for_each(|v| *v /= norm);
            c
        })
        .collect();
    let mut vectors = vec![0.0f32; n_clusters * per_cluster * dims];
    for (c, center) in centers.iter().enumerate() {
        for p in 0..per_cluster {
            let idx = c * per_cluster + p;
            let row = &mut vectors[idx * dims..(idx + 1) * dims];
            for (d, v) in row.iter_mut().enumerate() {
                *v = center[d] + normal.sample(&mut rng);
            }
            let norm: f32 = row.iter().map(|x| x * x).sum::<f32>().sqrt().max(1e-9);
            row.iter_mut().for_each(|v| *v /= norm);
        }
    }
    vectors
}

fn build_graph() -> (FlatGraph, Vec<f32>) {
    let data = clustered_unit_vectors(N_CLUSTERS, PER_CLUSTER, DIMS, 0.20, 0xDEAD_1234);
    let metric = squared_l2(data.clone(), data.clone(), DIMS);
    let config = GraphConfig { m: M, m_longjump: M_LONGJUMP, dims: DIMS };
    (FlatGraph::build(bits_of(&data), config, &metric), data)
}

fn queries_to(data: &[f32], n: usize, seed: u64) -> Computed<impl Fn(u32, u32) -> u32> {
    squared_l2(random_unit_vectors(n, DIMS, seed), data.to_vec(), DIMS)
}

fn calibrated(calibrator: &mut Calibrator, data: &[f32], n: usize, keep: usize) -> CalibrationTable {
    let between = squared_l2(data.to_vec(), data.to_vec(), DIMS);
    let (sample, mut gt) = calibrator.build_ground_truth(&between, K, n);
    gt.truncate(keep);
    let rows: Vec<f32> = sample.iter().map(|b| f32::from_bits(*b)).collect();
    let n_queries = rows.len() / DIMS;
    let metric = squared_l2(rows, data.to_vec(), DIMS);
    calibrator.calibrate(K, &metric, n_queries, &gt, &mean_of)
}

/// The mean of recalls.
fn mean_of(recalls: Vec<u32>) -> u32 {
    let total: f32 = recalls.iter().map(|b| f32::from_bits(*b)).sum();
    (total / recalls.len() as f32).to_bits()
}

#[test]
fn test_beam_search_high_ef_achieves_near_perfect_recall() {
    let (graph, data) = build_graph();
    let n = N_CLUSTERS * PER_CLUSTER;
    let metric = queries_to(&data, 20, 0xAAAA_BBBB);
    let gt = ground_truth(&metric, 20, n, K);
    let mut total_recall = 0.0f32;
    for qi in 0..20 {
        let results = beam_search(&graph, &metric, qi as u32, K, n, ENTRY);
        total_recall += f32::from_bits(recall_at_k(&ids(&results), &gt[qi]));
    }
    let mean_recall = total_recall / 20.0;
    assert!(mean_recall >= 0.90, "ef=N should achieve near-perfect recall, got {mean_recall:.3}");
}

#[test]
fn test_recall_is_monotone_in_ef() {
    let (graph, data) = build_graph();
    let metric = queries_to(&data, 10, 0x1111_2222);
    let gt = ground_truth(&metric, 10, graph.n, K);
    let ef_values = [8usize, 16, 32, 64, 128];
    let mut prev_mean = 0.0f32;
    for &ef in &ef_values {
        let mut total_recall = 0.0f32;
        for qi in 0..10 {
            let results = beam_search(&graph, &metric, qi as u32, K, ef, ENTRY);
            total_recall += f32::from_bits(recall_at_k(&ids(&results), &gt[qi]));
        }
        let mean = total_recall / 10.0;
        assert!(
            mean >= prev_mean - 0.05,
            "recall not monotone: ef={ef} recall={mean:.3} < prev={prev_mean:.3}"
        );
        prev_mean = mean;
    }
}

#[test]
fn test_fixed_ef_search_achieves_minimum_recall() {
    let (graph, data) = build_graph();
    let metric = queries_to(&data, 30, 0xCCCC_DDDD);
    let gt = ground_truth(&metric, 30, graph.n, K);
    let searcher = FixedEfSearch { graph: &graph, ef: 128, entry: ENTRY };
    let mut total_recall = 0.0f32;
    for qi in 0..30 {
        let res = searcher.search_with_target(&metric, qi as u32, K, 0.90f32.to_bits());
        total_recall += f32::from_bits(recall_at_k(&ids(&res), &gt[qi]));
    }
    let mean = total_recall / 30.0;
    assert!(mean >= 0.70, "FixedEf(128) recall {mean:.3} < 0.70");
}

#[test]
fn test_calibration_table_returns_valid_ef() {
    let (graph, data) = build_graph();
    let mut calibrator = Calibrator {
        graph: &graph,
        entry: ENTRY,
        ef_candidates: vec![16, 32, 64, 128],
        n_sample: 30,
        seed: 0xFEED_CAFE,
    };
    let table = calibrated(&mut calibrator, &data, 30, 30);
    let ef = table.min_ef_for_target(0.90f32.to_bits(), K);
    assert!(ef >= K, "ef={ef} must be >= k={K}");
    assert!(ef <= 256, "ef={ef} must be <= 256 for this table");
}

#[test]
fn test_table_calibrated_achieves_recall_target() {
    let (graph, data) = build_graph();
    let mut calibrator = Calibrator {
        graph: &graph,
        entry: ENTRY,
        ef_candidates: vec![16, 32, 48, 64, 96, 128, 192],
        n_sample: 50,
        seed: 0x9999_AAAA,
    };
    let table = calibrated(&mut calibrator, &data, 50, 50);
    let metric = queries_to(&data, 40, 0x5555_6666);
    let gt = ground_truth(&metric, 40, graph.n, K);
    let searcher = TableCalibratedSearch { graph: &graph, entry: ENTRY, table: &table };
    let target = 0.85f32;
    let mut total_recall = 0.0f32;
    for qi in 0..40 {
        let res = searcher.search_with_target(&metric, qi as u32, K, target.to_bits());
        total_recall += f32::from_bits(recall_at_k(&ids(&res), &gt[qi]));
    }
    let mean = total_recall / 40.0;
    assert!(
        mean >= target - 0.12,
        "TableCalibrated mean recall {mean:.3} more than 12% below target {target}"
    );
}

#[test]
fn test_binary_search_calibrated_achieves_per_query_target() {
    let (graph, data) = build_graph();
    let metric = queries_to(&data, 15, 0x7777_8888);
    let gt = ground_truth(&metric, 15, graph.n, K);
    let target = 0.80f32;
    let mut pass_count = 0usize;
    for qi in 0..15 {
        let bsc = BinarySearchCalibrated {
            graph: &graph,
            entry: ENTRY,
            ef_min: 8,
            ef_max: 200,
            ground_truth: &gt,
            query_index: qi,
        };
        let res = bsc.search_with_target(&metric, qi as u32, K, target.to_bits());
        let recall = f32::from_bits(recall_at_k(&ids(&res), &gt[qi]));
        if recall >= target {
            pass_count += 1;
        }
    }
    assert!(pass_count >= 12, "BinarySearch only achieved target on {pass_count}/15 queries");
}

#[test]
fn test_effective_ef_for_target() {
    let (graph, data) = build_graph();
    let fixed = FixedEfSearch { graph: &graph, ef: 64, entry: ENTRY };
    assert_eq!(fixed.effective_ef_for_target(0.90f32.to_bits(), K), None);
    let mut calibrator = Calibrator {
        graph: &graph,
        entry: ENTRY,
        ef_candidates: vec![32, 64, 128],
        n_sample: 20,
        seed: 0xABCD_EF01,
    };
    let table = calibrated(&mut calibrator, &data, 20, 20);
    let tcs = TableCalibratedSearch { graph: &graph, entry: ENTRY, table: &table };
    let ef = tcs.effective_ef_for_target(0.90f32.to_bits(), K);
    assert!(ef.is_some(), "TableCalibrated must return Some(ef)");
    assert!(ef.unwrap() >= K);
    let gt = vec![vec![0; K]];
    let binary = BinarySearchCalibrated {
        graph: &graph,
        entry: ENTRY,
        ef_min: K,
        ef_max: 128,
        ground_truth: &gt,
        query_index: 0,
    };
    assert_eq!(
        binary.effective_ef_for_target(0.90f32.to_bits(), K),
        None,
        "query-dependent ef must not be estimated from an unrelated dummy query"
    );
}

#[test]
fn test_calibration_clamps_to_available_ground_truth() {
    let (graph, data) = build_graph();
    let mut calibrator = Calibrator {
        graph: &graph,
        entry: ENTRY,
        ef_candidates: vec![32, 64],
        n_sample: 10,
        seed: 1,
    };
    let table = calibrated(&mut calibrator, &data, 10, 3);
    assert!(!table.entries().is_empty());
}

#[test]
fn neighbour_lists_start_with_the_nearest() {
    let (graph, data) = build_graph();
    let metric = squared_l2(data.clone(), data.clone(), DIMS);
    for i in [0usize, 57, 399] {
        let near = find_nearest(&metric, i as u32, graph.n, M + 1);
        let expected: Vec<u32> = ids(&near).into_iter().filter(|j| *j != i as u32).take(M).collect();
        assert_eq!(&graph.neighbors[i][..M], &expected[..]);
        assert!(graph.neighbors[i].len() > M, "some long jump is taken");
        assert!(graph.neighbors[i].len() <= M + M_LONGJUMP);
        assert!(!graph.neighbors[i].contains(&(i as u32)));
        assert_eq!(graph.vec(i), &bits_of(&data[i * DIMS..(i + 1) * DIMS])[..]);
    }
}

#[test]
fn jump_to_self_or_neighbour_is_not_taken() {
    let mut list = vec![3, 5];
    assert!(!take_jump(&mut list, 1, 1));
    assert!(!take_jump(&mut list, 1, 5));
    assert!(take_jump(&mut list, 1, 2));
    assert_eq!(list, vec![3, 5, 2]);
}

#[test]
fn single_node_graph_gets_no_jumps() {
    let metric = DistanceTable { cells: vec![0], width: 1 };
    let config = GraphConfig { m: 4, m_longjump: 4, dims: 2 };
    let graph = FlatGraph::build(vec![0, 0], config, &metric);
    assert_eq!(graph.n, 1);
    assert!(graph.neighbors[0].is_empty());
    let results = beam_search(&graph, &metric, 0, 5, 8, 0);
    assert_eq!(ids(&results), vec![0]);
    assert!(beam_search(&graph, &metric, 0, 0, 8, 0).is_empty());
}

#[test]
fn beam_search_gives_nearest_first() {
    let (graph, data) = build_graph();
    let metric = queries_to(&data, 3, 5);
    for q in 0..3 {
        let all = beam_search(&graph, &metric, q, graph.n, graph.n, ENTRY);
        let exact = find_nearest(&metric, q, graph.n, graph.n);
        for pair in all.windows(2) {
            assert!(f32::from_bits(pair[0].bits) <= f32::from_bits(pair[1].bits));
        }
        if all.len() == graph.n {
            assert_eq!(ids(&all), ids(&exact));
        }
    }
}

#[test]
fn table_takes_running_best_and_clamps_target() {
    let half = 0.5f32.to_bits();
    let low = 0.25f32.to_bits();
    let high = 0.75f32.to_bits();
    let table = CalibrationTable::from_means(4, &[2, 8, 16], &[half, low, high]);
    let recalls: Vec<u32> = table.entries().iter().map(|e| e.recall).collect();
    let widths: Vec<usize> = table.entries().iter().map(|e| e.ef).collect();
    assert_eq!(recalls, vec![half, half, high]);
    assert_eq!(widths, vec![4, 8, 16]);
    assert_eq!(table.min_ef_for_target(0.6f32.to_bits(), 4), 16);
    assert_eq!(table.min_ef_for_target((-3.0f32).to_bits(), 4), 4);
    assert_eq!(table.min_ef_for_target(7.0f32.to_bits(), 4), 16);
    assert_eq!(table.min_ef_for_target(f32::NAN.to_bits(), 4), 16);
    let empty = CalibrationTable::from_means(4, &[], &[]);
    assert_eq!(empty.min_ef_for_target(half, 4), 64);
}

#[test]
fn widths_are_sorted_and_distinct() {
    assert_eq!(sorted_distinct(&vec![64, 16, 64, 32, 16]), vec![16, 32, 64]);
    assert!(sorted_distinct(&vec![]).is_empty());
}

#[test]
fn recall_counts_hits() {
    assert_eq!(recall_at_k(&[1, 2, 3], &[3, 4, 1, 9]), 0.5f32.to_bits());
    assert_eq!(recall_at_k(&[1], &[]), 1.0f32.to_bits());
    assert_eq!(recall_at_k(&[8], &[1, 2, 3]), 0.0f32.to_bits());
    assert_eq!(recall_at_k(&[3, 8], &[1, 2, 3]), (1.0f32 / 3.0).to_bits());
    assert_eq!(count_hits(&[1, 2, 3], &[3, 4, 1, 9]), 2);
}

#[test]
fn latency_percentiles() {
    let mut stats = LatencyStats::default();
    assert_eq!(stats.percentile_ns(50), None);
    for x in [40u64, 10, 30, 20, 50] {
        stats.push(x);
    }
    assert_eq!(stats.count(), 5);
    assert_eq!(stats.total_ns(), 150);
    assert_eq!(stats.percentile_ns(50), Some(30));
    assert_eq!(stats.percentile_ns(95), Some(50));
    assert_eq!(stats.percentile_ns(0), Some(10));
}

#[test]
fn memory_estimate_counts_rows_and_links() {
    assert_eq!(memory_estimate_bytes(100, 32, 16), 100 * 32 * 4 + 100 * 16 * 4);
}

#[test]
fn default_graph_shape() {
    let config = GraphConfig::default();
    assert_eq!((config.m, config.m_longjump, config.dims), (16, 4, 64));
}

#[test]
fn wider_beam_keeps_every_true_neighbour() {
    let (graph, data) = build_graph();
    let metric = queries_to(&data, 6, 0x0BEA_4444);
    let gt = ground_truth(&metric, 6, graph.n, K);
    for q in 0..6 {
        let mut before: Vec<u32> = Vec::new();
        for ef in [1usize, 10, 11, 13, 20, 40, 80, 400] {
            let found = ids(&beam_search(&graph, &metric, q as u32, K, ef, ENTRY));
            let hits: Vec<u32> = found.into_iter().filter(|id| gt[q].contains(id)).collect();
            assert!(before.iter().all(|id| hits.contains(id)), "ef={ef}");
            before = hits;
        }
    }
}

#[test]
fn bisection_ends_at_the_narrowest_beam() {
    let (graph, data) = build_graph();
    let metric = queries_to(&data, 5, 0x0BEA_5555);
    let gt = ground_truth(&metric, 5, graph.n, K);
    for q in 0..5 {
        let oracle = BinarySearchCalibrated {
            graph: &graph,
            entry: ENTRY,
            ef_min: 4,
            ef_max: 120,
            ground_truth: &gt,
            query_index: q,
        };
        let recall = |ef: usize| {
            let found = beam_search(&graph, &metric, q as u32, K, ef, ENTRY);
            recall_at_k(&ids(&found), &gt[q])
        };
        let target = recall(60);
        let narrowest = (4..=120).find(|ef| recall(*ef) >= target).unwrap();
        assert_eq!(oracle.find_binary_ef(&metric, q as u32, K, target), narrowest);
        let found = oracle.search_with_target(&metric, q as u32, K, target);
        assert_eq!(found, beam_search(&graph, &metric, q as u32, K, narrowest, ENTRY));
        assert_eq!(oracle.find_binary_ef(&metric, q as u32, K, 1.5f32.to_bits()), 120);
    }
}

#[test]
fn calibration_without_samples_promises_nothing() {
    let (graph, data) = build_graph();
    let mut calibrator = Calibrator {
        graph: &graph,
        entry: ENTRY,
        ef_candidates: vec![64, 4, 64],
        n_sample: 10,
        seed: 1,
    };
    let metric = queries_to(&data, 3, 1);
    let table = calibrator.calibrate(K, &metric, 3, &vec![], &mean_of);
    assert_eq!(calibrator.ef_candidates, vec![4, 64]);
    assert_eq!(table.entries()[0].ef, K);
    assert!(table.entries().iter().all(|e| e.recall == 0));
    assert_eq!(table.min_ef_for_target(0.5f32.to_bits(), K), 64);
}

#[test]
fn calibration_lists_the_mean_recall_of_each_width() {
    let (graph, data) = build_graph();
    let metric = queries_to(&data, 6, 0x0A11);
    let gt = ground_truth(&metric, 6, graph.n, K);
    let mut calibrator = Calibrator {
        graph: &graph,
        entry: ENTRY,
        ef_candidates: vec![80, 16],
        n_sample: 4,
        seed: 1,
    };
    let table = calibrator.calibrate(K, &metric, 6, &gt, &mean_of);
    assert_eq!(table.entries().len(), 2);
    let mut best = 0.0f32;
    for (entry, ef) in table.entries().iter().zip([16usize, 80]) {
        let recalls: Vec<u32> = (0..4)
            .map(|q| recall_at_k(&ids(&beam_search(&graph, &metric, q as u32, K, ef, ENTRY)), &gt[q]))
            .collect();
        assert_eq!(calibrator.probe(&metric, K, ef, &gt, 4), recalls);
        best = best.max(f32::from_bits(mean_of(recalls)));
        assert_eq!(entry.ef, ef);
        assert_eq!(entry.recall, best.to_bits());
    }
}

#[test]
fn as_many_results_as_asked_for_or_reachable() {
    let graph = FlatGraph {
        vectors: vec![0; 6],
        neighbors: vec![vec![2], vec![0], vec![1, 3], vec![], vec![0, 5], vec![4]],
        config: GraphConfig { m: 2, m_longjump: 0, dims: 1 },
        n: 6,
    };
    let cells: Vec<u32> = [5.0f32, 1.0, 4.0, 2.0, 0.0, 3.0].iter().map(|d| d.to_bits()).collect();
    let metric = DistanceTable { cells, width: 6 };
    for ef in [0, 1, 3, 10] {
        for (entry, reachable) in [(0, 4), (3, 1), (4, 6)] {
            for k in 0..8 {
                let results = beam_search(&graph, &metric, 0, k, ef, entry);
                assert_eq!(results.len(), k.min(reachable), "ef {ef}, entry {entry}, k {k}");
            }
        }
    }
}
