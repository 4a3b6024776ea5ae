//! Draft search on codes, exact check, and the controller of the draft's size.
use ruvector::metric::{Computed, DistanceTable};
use ruvector::ranking::{ids, Scored};
use ruvector::speculative::dataset::{DatasetConfig, Lcg};
use ruvector::speculative::draft::{sq_l2_u8, Drafted, QuantizedDraft, ScalarQuantizer};
use ruvector::speculative::search::{
    recall_at_k, Hit, LinearFull, RollingRecall, SpecConfig, SpeculativeANN,
};

fn next_f64(rng: &mut Lcg) -> f64 {
    (rng.next_u64() >> 11) as f64 / (1u64 << 53) as f64
}

fn next_normal(rng: &mut Lcg) -> f32 {
    let u1 = (next_f64(rng) + 1e-12).ln();
    let u2 = next_f64(rng) * std::f64::consts::TAU;
    ((-2.0 * u1).sqrt() * u2.cos()) as f32
}

struct Dataset {
    vectors: Vec<Vec<f32>>,
    queries: Vec<Vec<f32>>,
}

fn generate(config: DatasetConfig) -> Dataset {
    let mut rng = Lcg::new(config.seed);
    let vectors: Vec<Vec<f32>> = (0..config.n_vectors)
        .map(|_| (0..config.dims).map(|_| next_normal(&mut rng)).collect())
        .collect();
    let mut qrng = Lcg::new(config.seed.wrapping_add(0x1111_1111));
    let queries: Vec<Vec<f32>> = (0..config.n_queries)
        .map(|_| (0..config.dims).map(|_| next_normal(&mut qrng)).collect())
        .collect();
    Dataset { vectors, queries }
}

/// Squared distance from queries to stored vectors.
fn squared_l2<'a>(
    queries: &'a [Vec<f32>],
    vectors: &'a [Vec<f32>],
) -> Computed<impl Fn(u32, u32) -> u32 + 'a> {
    let f = move |from: u32, to: u32| {
        let a = &queries[from as usize];
        let b = &vectors[to as usize];
        let sum: f32 = a.iter().zip(b).map(|(x, y)| (x - y) * (x - y)).sum();
        sum.to_bits()
    };
    Computed { f, sources: queries.len(), targets: vectors.len() }
}

fn bits(vectors: &[Vec<f32>]) -> Vec<Vec<u32>> {
    vectors.iter().map(|v| v.iter().map(|x| x.to_bits()).collect()).collect()
}

/// Ranges of a quantiser as numbers: least value and steps per unit.
fn scales(sq: &ScalarQuantizer) -> (Vec<f32>, Vec<f32>) {
    let min: Vec<f32> = sq.min_vals.iter().map(|b| f32::from_bits(*b)).collect();
    let scale = sq
        .max_vals
        .iter()
        .zip(&min)
        .map(|(mx, mn)| {
            let range = f32::from_bits(*mx) - mn;
            if range > 1e-9 {
                255.0 / range
            } else {
                0.0
            }
        })
        .collect();
    (min, scale)
}

fn quantize(sq: &ScalarQuantizer, v: &[f32]) -> Vec<u8> {
    let (min, scale) = scales(sq);
    v.iter()
        .enumerate()
        .map(|(d, &x)| {
            if scale[d] == 0.0 {
                return 0u8;
            }
            let q = (x - min[d]) * scale[d];
            q.clamp(0.0, 255.0).round() as u8
        })
        .collect()
}

fn draft_of(vectors: &[Vec<f32>]) -> (QuantizedDraft, ScalarQuantizer) {
    let sq = ScalarQuantizer::train(&bits(vectors));
    let codes: Vec<Vec<u8>> = vectors.iter().map(|v| quantize(&sq, v)).collect();
    (QuantizedDraft::build(codes, vectors[0].len()), sq)
}

#[test]
fn test_sq_l2_u8_self_zero() {
    let v = vec![10u8, 20, 30];
    assert_eq!(sq_l2_u8(&v, &v), 0);
}

#[test]
fn test_scalar_quantizer_range() {
    let vecs = vec![
        vec![0.0f32, 0.0, 0.0, 0.0],
        vec![1.0, 1.0, 1.0, 1.0],
        vec![2.0, 2.0, 2.0, 2.0],
        vec![10.0, 10.0, 10.0, 10.0],
    ];
    let sq = ScalarQuantizer::train(&bits(&vecs));
    let (min_vals, scale) = scales(&sq);
    for &m in &min_vals {
        assert_eq!(m, 0.0);
    }
    for &s in &scale {
        assert!((s - 25.5).abs() < 0.01, "scale {s}");
    }
    for &b in &quantize(&sq, &vecs[3]) {
        assert_eq!(b, 255);
    }
    for &b in &quantize(&sq, &vecs[0]) {
        assert_eq!(b, 0);
    }
}

fn hit(id: u32, dist: f32) -> Hit {
    Scored { id, bits: dist.to_bits() }
}

#[test]
fn test_recall_at_k_perfect() {
    let gt = vec![hit(0, 0.1), hit(1, 0.2), hit(2, 0.3)];
    let res = gt.clone();
    assert_eq!(f32::from_bits(recall_at_k(&res, &gt, 3)), 1.0);
}

#[test]
fn test_recall_at_k_partial() {
    let gt = vec![hit(0, 0.1), hit(1, 0.2), hit(2, 0.3), hit(3, 0.4)];
    let res = vec![hit(0, 0.1), hit(1, 0.2), hit(99, 99.0), hit(100, 99.0)];
    assert_eq!(f32::from_bits(recall_at_k(&res, &gt, 4)), 0.5);
}

#[test]
fn test_dataset_deterministic() {
    let cfg = DatasetConfig { n_vectors: 100, dims: 8, n_queries: 10, seed: 42 };
    let d1 = generate(cfg);
    let d2 = generate(cfg);
    assert_eq!(d1.vectors[0], d2.vectors[0]);
    assert_eq!(d1.queries[0], d2.queries[0]);
}

#[test]
fn test_dataset_shape() {
    let cfg = DatasetConfig { n_vectors: 50, dims: 16, n_queries: 5, seed: 1 };
    let d = generate(cfg);
    assert_eq!(d.vectors.len(), 50);
    assert_eq!(d.vectors[0].len(), 16);
    assert_eq!(d.queries.len(), 5);
}

#[test]
fn test_lcg_not_all_same() {
    let mut rng = Lcg::new(0);
    let a = next_normal(&mut rng);
    let b = next_normal(&mut rng);
    assert_ne!(a.to_bits(), b.to_bits());
}

#[test]
fn test_linear_full_self_nearest() {
    let cfg = DatasetConfig { n_vectors: 20, dims: 4, n_queries: 0, seed: 7 };
    let ds = generate(cfg);
    let idx = LinearFull::build(20, 4);
    let metric = squared_l2(&ds.vectors, &ds.vectors);
    for i in 0..20u32 {
        let hits = idx.search(&metric, i, 1);
        assert_eq!(hits[0].id, i, "vector {i} is not its own NN");
        let dist = f32::from_bits(hits[0].bits);
        assert!(dist < 1e-6, "self-distance nonzero: {dist}");
    }
}

#[test]
fn test_linear_full_k_results() {
    let vecs: Vec<Vec<f32>> = (0..100).map(|i| vec![i as f32, 0.0, 0.0, 0.0]).collect();
    let idx = LinearFull::build(100, 4);
    let query = vec![vec![50.0f32, 0.0, 0.0, 0.0]];
    let hits = idx.search(&squared_l2(&query, &vecs), 0, 5);
    assert_eq!(hits.len(), 5);
    assert_eq!(hits[0].id, 50);
    assert!(f32::from_bits(hits[0].bits) < 1e-6);
}

#[test]
fn test_linear_full_sorted_results() {
    let vecs: Vec<Vec<f32>> = (0..50).map(|i| vec![i as f32]).collect();
    let idx = LinearFull::build(50, 1);
    let query = vec![vec![25.0f32]];
    let hits = idx.search(&squared_l2(&query, &vecs), 0, 10);
    for w in hits.windows(2) {
        assert!(f32::from_bits(w[0].bits) <= f32::from_bits(w[1].bits), "results not sorted");
    }
}

#[test]
fn test_quantized_draft_returns_k() {
    let cfg = DatasetConfig { n_vectors: 100, dims: 16, n_queries: 5, seed: 99 };
    let ds = generate(cfg);
    let (idx, sq) = draft_of(&ds.vectors);
    for q in &ds.queries {
        let hits = idx.search(&quantize(&sq, q), 10);
        assert_eq!(hits.len(), 10);
    }
}

#[test]
fn test_draft_ids_count() {
    let vecs: Vec<Vec<f32>> = (0..50).map(|i| vec![i as f32, 0.0]).collect();
    let (idx, sq) = draft_of(&vecs);
    let ids = idx.draft_ids(&quantize(&sq, &[25.0, 0.0]), 15);
    assert_eq!(ids.len(), 15);
}

#[test]
fn test_quantized_self_nearest() {
    let cfg = DatasetConfig { n_vectors: 100, dims: 32, n_queries: 0, seed: 42 };
    let ds = generate(cfg);
    let (idx, sq) = draft_of(&ds.vectors);
    let mut correct = 0usize;
    for (i, v) in ds.vectors.iter().enumerate() {
        let hits = idx.search(&quantize(&sq, v), 1);
        if hits[0].id == i as u32 {
            correct += 1;
        }
    }
    assert!(correct >= 75, "only {correct}/100 self-nearest under SQ (expected >=75)");
}

fn small_dataset() -> Dataset {
    generate(DatasetConfig { n_vectors: 500, dims: 32, n_queries: 50, seed: 0xBEEF })
}

#[test]
fn test_speculative_returns_k_results() {
    let ds = small_dataset();
    let (draft, sq) = draft_of(&ds.vectors);
    let spec = SpeculativeANN::build(draft, SpecConfig::default());
    let metric = squared_l2(&ds.queries, &ds.vectors);
    for (i, q) in ds.queries.iter().enumerate() {
        let hits = spec.search(&quantize(&sq, q), &metric, i as u32, 10);
        assert_eq!(hits.len(), 10, "expected 10 results");
    }
}

#[test]
fn test_speculative_recall_above_threshold() {
    let ds = small_dataset();
    let baseline = LinearFull::build(500, 32);
    let (draft, sq) = draft_of(&ds.vectors);
    let spec = SpeculativeANN::build(draft, SpecConfig { initial_mult: 5, ..Default::default() });
    let metric = squared_l2(&ds.queries, &ds.vectors);
    let mut total_recall = 0.0f32;
    for (i, q) in ds.queries.iter().enumerate() {
        let gt = baseline.search(&metric, i as u32, 10);
        let res = spec.search(&quantize(&sq, q), &metric, i as u32, 10);
        total_recall += f32::from_bits(recall_at_k(&res, &gt, 10));
    }
    let mean_recall = total_recall / ds.queries.len() as f32;
    assert!(mean_recall >= 0.90, "mean recall {mean_recall:.3} below 0.90 with mult=5");
}

/// The mean of recalls.
fn mean_of(recalls: Vec<u32>) -> u32 {
    let sum: f32 = recalls.iter().map(|b| f32::from_bits(*b)).sum();
    (sum / recalls.len() as f32).to_bits()
}

/// The recall from which on there is room to spare.
fn clear_of(cfg: &SpecConfig) -> u32 {
    (f32::from_bits(cfg.target_recall) + 0.03).to_bits()
}

#[test]
fn test_adaptive_acceptance_rate() {
    let ds = small_dataset();
    let baseline = LinearFull::build(500, 32);
    let (draft, sq) = draft_of(&ds.vectors);
    let cfg = SpecConfig::default();
    let mut spec = SpeculativeANN::build(draft, cfg);
    let metric = squared_l2(&ds.queries, &ds.vectors);
    for (i, q) in ds.queries.iter().enumerate() {
        let gt = baseline.search(&metric, i as u32, 10);
        let code = quantize(&sq, q);
        spec.search_adaptive(&code, &metric, i as u32, 10, Some(&gt), &mean_of, clear_of(&cfg));
    }
    let rate = spec.accepted as f32 / spec.queries_run as f32;
    assert!(
        rate >= 0.70,
        "acceptance rate {rate:.3} too low; adaptive controller not working"
    );
}

#[test]
fn test_no_feedback_does_not_change_controller() {
    let ds = small_dataset();
    let (draft, sq) = draft_of(&ds.vectors);
    let cfg = SpecConfig::default();
    let mut spec = SpeculativeANN::build(draft, cfg);
    let metric = squared_l2(&ds.queries, &ds.vectors);
    let initial = spec.current_mult();
    let code = quantize(&sq, &ds.queries[0]);
    spec.search_adaptive(&code, &metric, 0, 10, None, &mean_of, clear_of(&cfg));
    assert_eq!(spec.current_mult(), initial);
    assert_eq!(spec.queries_run, 0);
}

#[test]
fn test_fixed_mult_higher_mult_better_recall() {
    let ds = small_dataset();
    let baseline = LinearFull::build(500, 32);
    let (draft, sq) = draft_of(&ds.vectors);
    let spec = SpeculativeANN::build(draft, SpecConfig::default());
    let metric = squared_l2(&ds.queries, &ds.vectors);
    let recall_for_mult = |mult: usize| -> f32 {
        let mut total = 0.0f32;
        for (i, q) in ds.queries.iter().enumerate() {
            let gt = baseline.search(&metric, i as u32, 10);
            let res = spec.search_fixed(&quantize(&sq, q), &metric, i as u32, 10, mult);
            total += f32::from_bits(recall_at_k(&res, &gt, 10));
        }
        total / ds.queries.len() as f32
    };
    let r1 = recall_for_mult(1);
    let r5 = recall_for_mult(5);
    assert!(r5 > r1, "mult=5 recall {r5:.3} not better than mult=1 {r1:.3}");
}

#[test]
fn generator_follows_the_recurrence() {
    let mut rng = Lcg::new(0xcafe_babe_dead_beef);
    assert_eq!(rng.next_u64(), 1442695040888963407);
    let second =
        1442695040888963407u64.wrapping_mul(6364136223846793005).wrapping_add(1442695040888963407);
    assert_eq!(rng.next_u64(), second);
}

#[test]
fn code_distance_stops_at_the_shorter() {
    assert_eq!(sq_l2_u8(&[0, 255, 7], &[3, 0]), 9 + 65025);
    assert_eq!(sq_l2_u8(&[], &[1]), 0);
}

#[test]
fn draft_orders_by_distance_and_number() {
    let draft = QuantizedDraft::build(vec![vec![5], vec![1], vec![3], vec![3]], 1);
    let found = draft.search(&[3], 9);
    assert_eq!(
        found,
        vec![
            Hit { id: 2, bits: 0 },
            Hit { id: 3, bits: 0 },
            Hit { id: 0, bits: 4.0f32.to_bits() },
            Hit { id: 1, bits: 4.0f32.to_bits() },
        ]
    );
    assert_eq!(draft.draft(&[3], 3)[2], Drafted { id: 0, dist: 4 });
    assert_eq!(draft.draft_ids(&[3], 1), vec![2]);
    assert_eq!(draft.memory_bytes(), 4 + 8);
    assert_eq!(draft.shape(), (4, 1));
    assert_eq!(draft.name(), "QuantizedDraft");
}

#[test]
fn training_skips_what_is_not_a_number() {
    let sq = ScalarQuantizer::train(&bits(&[vec![f32::NAN, 2.0], vec![-1.0, 2.0]]));
    assert_eq!(sq.min_vals, vec![(-1.0f32).to_bits(), 2.0f32.to_bits()]);
    assert_eq!(sq.max_vals, vec![(-1.0f32).to_bits(), 2.0f32.to_bits()]);
    let none = ScalarQuantizer::train(&bits(&[vec![f32::NAN]]));
    assert_eq!(none.min_vals, vec![f32::MAX.to_bits()]);
    assert_eq!(none.max_vals, vec![f32::MIN.to_bits()]);
}

#[test]
fn rolling_window_forgets() {
    let mut rolling = RollingRecall::new(3);
    assert_eq!(rolling.samples(), vec![0]);
    rolling.push(11);
    rolling.push(12);
    assert_eq!(rolling.samples(), vec![11, 12]);
    rolling.push(13);
    rolling.push(14);
    assert_eq!(rolling.samples(), vec![14, 12, 13]);
}

#[test]
fn controller_moves_within_its_bounds() {
    let cfg = SpecConfig {
        initial_mult: 3,
        min_mult: 2,
        max_mult: 6,
        window: 4,
        target_recall: 0.5f32.to_bits(),
    };
    let mut spec = SpeculativeANN::build(QuantizedDraft::build(vec![vec![0]], 1), cfg);
    let clear = 0.53f32.to_bits();
    spec.adapt(0.4f32.to_bits(), clear);
    assert_eq!(spec.current_mult(), 5);
    spec.adapt(0.4f32.to_bits(), clear);
    assert_eq!(spec.current_mult(), 6);
    spec.adapt(0.52f32.to_bits(), clear);
    assert_eq!(spec.current_mult(), 6);
    for _ in 0..9 {
        spec.adapt(0.9f32.to_bits(), clear);
    }
    assert_eq!(spec.current_mult(), 2);
    spec.record(0.5f32.to_bits());
    spec.record(0.49f32.to_bits());
    assert_eq!((spec.queries_run, spec.accepted), (2, 1));
    assert_eq!(spec.recent_recalls(), vec![0.5f32.to_bits(), 0.49f32.to_bits()]);
}

#[test]
fn full_draft_gives_the_exact_answer() {
    let codes = vec![vec![0u8], vec![200], vec![100], vec![50]];
    let spec = SpeculativeANN::build(QuantizedDraft::build(codes, 1), SpecConfig::default());
    let exact = DistanceTable {
        cells: [4.0f32, 1.0, 3.0, 2.0].iter().map(|x| x.to_bits()).collect(),
        width: 4,
    };
    assert_eq!(ids(&spec.search_fixed(&[0], &exact, 0, 2, 2)), vec![1, 3]);
    assert_eq!(ids(&spec.search_fixed(&[0], &exact, 0, 2, 1)), vec![3, 0]);
    assert_eq!(ids(&spec.search_fixed(&[0], &exact, 0, 2, 0)), vec![3, 0]);
    assert_eq!(ids(&spec.search_fixed(&[0], &exact, 0, 2, usize::MAX)), vec![1, 3]);
    assert!(spec.search_fixed(&[0], &exact, 0, 0, 3).is_empty());
    assert_eq!(spec.memory_bytes(), 16 + 4 + 8);
    assert_eq!(spec.name(), "SpeculativeANN");
}

#[test]
fn defaults_of_search_and_data() {
    let cfg = SpecConfig::default();
    assert_eq!((cfg.initial_mult, cfg.min_mult, cfg.max_mult, cfg.window), (3, 1, 20, 50));
    assert_eq!(cfg.target_recall, 0.95f32.to_bits());
    let data = DatasetConfig::default();
    assert_eq!((data.n_vectors, data.dims, data.n_queries), (10_000, 128, 500));
    assert_eq!(data.seed, 0x5EED_0000_7777_0000);
    assert_eq!(LinearFull::build(10, 3).memory_bytes(), 120);
    assert_eq!(LinearFull::build(10, 3).name(), "LinearFull");
}

#[test]
fn poor_recall_widens_the_draft() {
    let ds = small_dataset();
    let (draft, sq) = draft_of(&ds.vectors);
    let cfg = SpecConfig::default();
    let mut spec = SpeculativeANN::build(draft, cfg);
    let metric = squared_l2(&ds.queries, &ds.vectors);
    let code = quantize(&sq, &ds.queries[0]);
    let plain = spec.search(&code, &metric, 0, 10);
    let others: Vec<Hit> = (0..10).map(|i| Hit { id: 1000 + i, bits: 0 }).collect();
    let hits =
        spec.search_adaptive(&code, &metric, 0, 10, Some(&others), &mean_of, clear_of(&cfg));
    assert_eq!(hits, plain);
    assert_eq!(spec.current_mult(), cfg.initial_mult + 2);
    assert_eq!((spec.queries_run, spec.accepted), (1, 0));
    assert_eq!(spec.recent_recalls(), vec![0.0f32.to_bits()]);
    let wider = spec.search(&code, &metric, 0, 10);
    spec.search_adaptive(&code, &metric, 0, 10, Some(&wider), &mean_of, clear_of(&cfg));
    assert_eq!(spec.recent_recalls(), vec![0.0f32.to_bits(), 1.0f32.to_bits()]);
    assert_eq!((spec.queries_run, spec.accepted), (2, 1));
    assert_eq!(spec.current_mult(), cfg.initial_mult + 4);
}

#[test]
fn more_candidates_keep_every_true_neighbour() {
    let ds = small_dataset();
    let baseline = LinearFull::build(500, 32);
    let (draft, sq) = draft_of(&ds.vectors);
    let spec = SpeculativeANN::build(draft, SpecConfig::default());
    let metric = squared_l2(&ds.queries, &ds.vectors);
    for (i, q) in ds.queries.iter().enumerate() {
        let gt = baseline.search(&metric, i as u32, 10);
        let code = quantize(&sq, q);
        let mut before = 0u32;
        for mult in [0usize, 1, 2, 3, 8, 50] {
            let found = spec.search_fixed(&code, &metric, i as u32, 10, mult);
            let recall = recall_at_k(&found, &gt, 10);
            assert!(before <= recall);
            before = recall;
        }
        assert_eq!(before, 1.0f32.to_bits());
    }
}

#[test]
fn a_lone_vector_is_found_whatever_its_distance() {
    let idx = LinearFull::build(1, 4);
    let metric = DistanceTable { cells: vec![f32::NAN.to_bits()], width: 1 };
    let hits = idx.search(&metric, 0, 5);
    assert_eq!(hits.len(), 1);
    assert_eq!((hits[0].id, hits[0].bits), (0, f32::NAN.to_bits()));
    assert!(idx.search(&metric, 0, 0).is_empty());
}
