//! Search for everything above a similarity threshold.
use ruvector::metric::{Computed, DistanceTable};
use ruvector::recall_bounded::graph::ProximityIndex;
use ruvector::recall_bounded::millionths::{millionths, rank_bits, shorten, similarity};
use ruvector::recall_bounded::scan::{recall, recall_of_ids, Entry, Hit, Lcg, LinearScan};
use ruvector::recall_bounded::search::{same_ids, HnswBeamSearch, ThresholdBeam};

const DIM: usize = 64;
const N: usize = 500;
const THRESHOLD: f32 = 0.25;

fn cosine_similarity(a: &[f32], b: &[f32]) -> f32 {
    assert_eq!(a.len(), b.len(), "vector dimension mismatch");
    let mut dot = 0.0f32;
    let mut na = 0.0f32;
    let mut nb = 0.0f32;
    for (x, y) in a.iter().zip(b.iter()) {
        dot += x * y;
        na += x * x;
        nb += y * y;
    }
    let denom = na.sqrt() * nb.sqrt();
    if denom < 1e-10 {
        0.0
    } else {
        (dot / denom).clamp(-1.0, 1.0)
    }
}

fn next_f32(rng: &mut Lcg) -> f32 {
    f32::from_bits(rng.next_f32())
}

fn next_unit_vec(rng: &mut Lcg, dim: usize) -> Vec<f32> {
    let v: Vec<f32> = (0..dim).map(|_| next_f32(rng) * 2.0 - 1.0).collect();
    let norm: f32 = v.iter().map(|x| x * x).sum::<f32>().sqrt();
    if norm < 1e-10 {
        vec![0.0; dim]
    } else {
        v.iter().map(|x| x / norm).collect()
    }
}

/// Ids and vectors.
fn gen_dataset(n: usize, dim: usize, seed: u64) -> Vec<(u32, Vec<f32>)> {
    let mut rng = Lcg(seed);
    (0..n).map(|i| (i as u32, next_unit_vec(&mut rng, dim))).collect()
}

fn entry(id: u32, vec: &[f32]) -> Entry {
    Entry { id, vec: vec.iter().map(|x| x.to_bits()).collect() }
}

/// Similarity between stored vectors.
fn between(data: &[(u32, Vec<f32>)]) -> Computed<impl Fn(u32, u32) -> u32 + '_> {
    Computed {
        f: move |i: u32, j: u32| {
            cosine_similarity(&data[i as usize].1, &data[j as usize].1).to_bits()
        },
        sources: data.len(),
        targets: data.len(),
    }
}

/// Similarity of one query to the stored vectors.
fn to_query<'a>(
    query: &'a [f32],
    data: &'a [(u32, Vec<f32>)],
) -> Computed<impl Fn(u32, u32) -> u32 + 'a> {
    Computed {
        f: move |_: u32, j: u32| cosine_similarity(query, &data[j as usize].1).to_bits(),
        sources: 1,
        targets: data.len(),
    }
}

fn scan_of(data: &[(u32, Vec<f32>)]) -> LinearScan {
    let mut idx = LinearScan::new();
    for (id, vec) in data {
        idx.insert(entry(*id, vec));
    }
    idx
}

fn scan_search(data: &[(u32, Vec<f32>)], query: &[f32], threshold: f32) -> Vec<Hit> {
    let bits: Vec<u32> = query.iter().map(|x| x.to_bits()).collect();
    let sims: Vec<u32> =
        data.iter().map(|(_, v)| cosine_similarity(query, v).to_bits()).collect();
    scan_of(data).search(&bits, &sims, threshold.to_bits())
}

fn hnsw_of(data: &[(u32, Vec<f32>)], m: usize, base: usize) -> HnswBeamSearch {
    let mut idx = HnswBeamSearch::new(m, base);
    let metric = between(data);
    for (id, vec) in data {
        idx.insert(entry(*id, vec), &metric);
    }
    idx
}

fn beam_of(data: &[(u32, Vec<f32>)], m: usize, width: usize) -> ThresholdBeam {
    let mut idx = ThresholdBeam::new(m, width);
    let metric = between(data);
    for (id, vec) in data {
        idx.insert(entry(*id, vec), &metric);
    }
    idx
}

fn ids_of(hits: &[Hit]) -> Vec<u32> {
    hits.iter().map(|h| h.id).collect()
}

#[test]
fn linear_scan_is_exact() {
    let data = gen_dataset(N, DIM, 42);
    let hits = scan_search(&data, &data[0].1, THRESHOLD);
    assert!(hits.iter().any(|h| h.id == 0));
    for h in &hits {
        let similarity = f32::from_bits(h.similarity);
        assert!(similarity >= THRESHOLD - 1e-6, "hit below threshold: {similarity}");
    }
}

#[test]
fn hnsw_beam_recall_above_90_percent() {
    let data = gen_dataset(N, DIM, 123);
    let query = data[10].1.clone();
    let gt = scan_search(&data, &query, THRESHOLD);
    let found =
        hnsw_of(&data, 12, 32).search(&to_query(&query, &data), 0, THRESHOLD.to_bits());
    let r = f32::from_bits(recall(&found, &gt));
    assert!(r >= 0.80, "HnswBeam recall too low: {:.3}", r);
}

#[test]
fn threshold_beam_recall_above_80_percent() {
    let data = gen_dataset(N, DIM, 999);
    let query = data[5].1.clone();
    let gt = scan_search(&data, &query, THRESHOLD);
    let found =
        beam_of(&data, 12, 24).search(&to_query(&query, &data), 0, THRESHOLD.to_bits());
    let r = f32::from_bits(recall(&found, &gt));
    assert!(r >= 0.65, "ThresholdBeam recall too low: {:.3}", r);
}

#[test]
fn memory_bytes_nonzero() {
    let data = gen_dataset(100, DIM, 7);
    assert!(scan_of(&data).memory_bytes() > 0);
}

#[test]
fn cosine_self_similarity_is_one() {
    let mut rng = Lcg(42);
    let v = next_unit_vec(&mut rng, DIM);
    let s = cosine_similarity(&v, &v);
    assert!((s - 1.0).abs() < 1e-5, "self-cosine = {}", s);
}

#[test]
fn gen_dataset_deterministic() {
    let a = gen_dataset(10, 16, 1);
    let b = gen_dataset(10, 16, 1);
    for (ae, be) in a.iter().zip(b.iter()) {
        assert_eq!(ae.0, be.0);
        assert_eq!(ae.1, be.1);
    }
}

#[test]
fn empty_index_returns_no_hits() {
    let idx = LinearScan::new();
    let q = vec![1.0f32.to_bits(); DIM];
    assert!(idx.search(&q, &vec![], 0.5f32.to_bits()).is_empty());
}

#[test]
fn recall_at_threshold_accounting() {
    let base = vec![1.0f32, 0.0, 0.0, 0.0];
    let data = vec![(0, vec![0.966f32, 0.259, 0.0, 0.0]), (1, vec![0.0, 1.0, 0.0, 0.0])];
    let hits = scan_search(&data, &base, 0.90);
    assert_eq!(hits.len(), 1);
    assert_eq!(hits[0].id, 0);
}

#[test]
fn approximate_indexes_return_opaque_ids() {
    let data: Vec<(u32, Vec<f32>)> = gen_dataset(80, 16, 44)
        .into_iter()
        .enumerate()
        .map(|(position, (_, vec))| (10_000 + position as u32 * 7, vec))
        .collect();
    let query = data[12].1.clone();
    let expected = data[12].0;
    let metric = to_query(&query, &data);
    let hnsw = hnsw_of(&data, 12, 32);
    assert!(
        hnsw.search(&metric, 0, 0.99f32.to_bits()).iter().any(|hit| hit.id == expected),
        "HNSW search leaked graph positions instead of opaque ids"
    );
    let threshold = beam_of(&data, 12, 40);
    assert!(
        threshold.search(&metric, 0, 0.99f32.to_bits()).iter().any(|hit| hit.id == expected),
        "threshold search leaked graph positions instead of opaque ids"
    );
}

#[test]
fn generator_takes_the_top_bits() {
    let mut rng = Lcg(0);
    let state = 1442695040888963407u64;
    let expected = f32::from_bits(0x3F800000u32 | (state >> 41) as u32 & 0x007FFFFF) - 1.0;
    assert_eq!(rng.next_f32(), expected.to_bits());
    assert_eq!(rng.0, state);
    for _ in 0..1000 {
        let x = rng.next_f32();
        let fraction = (rng.0 >> 41) as u32;
        assert_eq!(x, (f32::from_bits(0x3F800000u32 | fraction) - 1.0).to_bits());
    }
}

#[test]
fn millionths_truncate_like_a_cast() {
    for x in [
        0.0f32,
        -0.0,
        1.0,
        -1.0,
        0.25,
        0.1234567,
        -0.1234567,
        0.9999999,
        1e-7,
        -1e-7,
        3.5,
        -3.5,
        1e9,
        -1e9,
        1e-40,
        0.333_333_34,
        f32::INFINITY,
        f32::NEG_INFINITY,
        f32::NAN,
    ] {
        assert_eq!(millionths(x.to_bits()), (x * 1_000_000.0) as i32, "{x}");
    }
    let mut rng = Lcg(17);
    for _ in 0..20_000 {
        let x = next_f32(&mut rng) * 2.0 - 1.0;
        assert_eq!(millionths(x.to_bits()), (x * 1_000_000.0) as i32, "{x}");
    }
}

#[test]
fn rank_bits_keep_the_order() {
    let key = |bits: u32| ruvector::float_order::total_key(bits);
    assert!(key(rank_bits(-3)) < key(rank_bits(-2)));
    assert!(key(rank_bits(-1)) < key(rank_bits(0)));
    assert!(key(rank_bits(0)) < key(rank_bits(1)));
    assert!(key(rank_bits(i32::MIN)) < key(rank_bits(i32::MAX)));
}

#[test]
fn empty_graphs_find_nothing() {
    let metric = DistanceTable { cells: vec![], width: 0 };
    assert!(HnswBeamSearch::new(2, 4).search(&metric, 0, 0).is_empty());
    assert!(ThresholdBeam::new(2, 4).search(&metric, 0, 0).is_empty());
    assert_eq!(ProximityIndex::new(3).len(), 0);
}

#[test]
fn hits_come_most_similar_first() {
    let data = gen_dataset(60, 8, 3);
    let query = data[4].1.clone();
    let hits = beam_of(&data, 6, 60).search(&to_query(&query, &data), 0, (-1.0f32).to_bits());
    assert_eq!(hits[0].id, 4);
    for w in hits.windows(2) {
        assert!(f32::from_bits(w[0].similarity) >= f32::from_bits(w[1].similarity));
    }
    assert_eq!(hits.len(), 60);
}

#[test]
fn budget_limits_the_walk() {
    let data: Vec<(u32, Vec<f32>)> =
        (0..6).map(|i| (i as u32, vec![1.0f32, i as f32 * 0.1])).collect();
    let metric = between(&data);
    let mut index = ProximityIndex::new(1);
    for (id, vec) in &data {
        index.insert(entry(*id, vec), &metric);
    }
    assert_eq!(index.len(), 6);
    let query = vec![1.0f32, 0.0];
    let to = to_query(&query, &data);
    assert_eq!(ids_of(&index.walk(&to, 0, (-1.0f32).to_bits(), 1)), vec![0]);
    assert_eq!(ids_of(&index.walk(&to, 0, (-1.0f32).to_bits(), 2)), vec![0, 1]);
    assert!(index.walk(&to, 0, (-1.0f32).to_bits(), 0).is_empty());
}

#[test]
fn recall_counts_distinct_ids() {
    let hits = |ids: &[u32]| -> Vec<Hit> {
        ids.iter().map(|&id| Hit { id, similarity: 0 }).collect()
    };
    assert_eq!(recall(&hits(&[1, 2, 2]), &hits(&[2, 2, 5])), 0.5f32.to_bits());
    assert_eq!(recall(&hits(&[1]), &[]), 1.0f32.to_bits());
    assert_eq!(recall_of_ids(&vec![1, 2, 2], &vec![2, 2, 5]), 0.5f32.to_bits());
}

#[test]
fn same_ids_ignores_order_and_similarity() {
    let a = vec![Hit { id: 1, similarity: 5 }, Hit { id: 2, similarity: 4 }];
    let b = vec![Hit { id: 2, similarity: 9 }, Hit { id: 1, similarity: 1 }];
    let c = vec![Hit { id: 2, similarity: 9 }];
    assert!(same_ids(&a, &b));
    assert!(!same_ids(&a, &c));
    assert!(!same_ids(&c, &a));
}

#[test]
fn memory_counts_entries_and_links() {
    let data = gen_dataset(3, 4, 9);
    assert_eq!(scan_of(&data).memory_bytes(), 3 * (4 + 16));
    assert_eq!(LinearScan::default().memory_bytes(), 0);
    let links = 2 * 3;
    assert_eq!(hnsw_of(&data, 2, 4).memory_bytes(), 60 + links * 4);
    assert_eq!(beam_of(&data, 2, 4).memory_bytes(), 60 + links * 4);
}

#[test]
fn larger_budget_keeps_what_was_found() {
    let data = gen_dataset(120, 8, 31);
    let metric = between(&data);
    let mut index = ProximityIndex::new(4);
    for (id, vec) in &data {
        index.insert(entry(*id, vec), &metric);
    }
    let query = data[77].1.clone();
    let to = to_query(&query, &data);
    let mut before: Vec<Hit> = Vec::new();
    for budget in [1usize, 2, 5, 20, 60, 120, 500] {
        let hits = index.walk(&to, 0, 0.2f32.to_bits(), budget);
        assert!(before.iter().all(|h| hits.contains(h)));
        before = hits;
    }
    let mut exact = scan_search(&data, &query, 0.2);
    assert!(before
        .windows(2)
        .all(|w| f32::from_bits(w[0].similarity) >= f32::from_bits(w[1].similarity)));
    before.sort_by_key(|h| h.id);
    exact.sort_by_key(|h| h.id);
    let cut: Vec<Hit> = exact
        .iter()
        .map(|h| {
            let whole = (f32::from_bits(h.similarity) * 1_000_000.0) as i32;
            Hit { id: h.id, similarity: (whole as f32 / 1_000_000.0).to_bits() }
        })
        .collect();
    assert_eq!(before, cut);
}

#[test]
fn threshold_is_tested_on_the_measured_similarity() {
    let sims = [0.5000004f32, -0.5000004, 0.25];
    let metric = DistanceTable { cells: sims.iter().map(|s| s.to_bits()).collect(), width: 3 };
    let pairs = DistanceTable { cells: vec![1.0f32.to_bits(); 9], width: 3 };
    let mut index = ThresholdBeam::new(2, 4);
    let mut doubling = HnswBeamSearch::new(2, 4);
    for id in 0..3 {
        index.insert(entry(id, &[0.0]), &pairs);
        doubling.insert(entry(id, &[0.0]), &pairs);
    }
    let found = |threshold: f32| index.search(&metric, 0, threshold.to_bits());
    let first = Hit { id: 0, similarity: 0.5f32.to_bits() };
    assert_eq!(found(0.5000002), vec![first]);
    assert_eq!(found(0.5000004), vec![first]);
    assert!(found(0.5000006).is_empty());
    assert_eq!(ids_of(&found(-0.5)), vec![0, 2]);
    assert_eq!(ids_of(&found(-0.6)), vec![0, 2, 1]);
    assert_eq!(doubling.search(&metric, 0, 0.5000002f32.to_bits()), vec![first]);
    assert_eq!(ids_of(&doubling.search(&metric, 0, (-0.5f32).to_bits())), vec![0, 2]);
}

#[test]
fn similarity_divides_like_the_operator() {
    let cast = |m: i32| (m as f32 / 1_000_000.0).to_bits();
    for m in -2_000..2_000 {
        assert_eq!(similarity(m), cast(m), "{m}");
    }
    for m in [
        i32::MIN,
        i32::MIN + 1,
        i32::MAX,
        i32::MAX - 63,
        i32::MAX - 64,
        16_777_215,
        16_777_216,
        16_777_217,
        16_777_219,
        -33_554_435,
        999_999,
        1_000_000,
        -1_000_000,
    ] {
        assert_eq!(similarity(m), cast(m), "{m}");
    }
    let mut rng = Lcg(23);
    for _ in 0..50_000 {
        rng.next_f32();
        let m = (rng.0 >> 32) as i32;
        assert_eq!(similarity(m), cast(m), "{m}");
        assert_eq!(similarity(m % 1_000_001), cast(m % 1_000_001));
    }
}

#[test]
fn hits_show_and_follow_whole_millionths() {
    let sims = [0.5000004f32, 0.5000008, 0.7654321, -0.1234567];
    let metric = DistanceTable { cells: sims.iter().map(|s| s.to_bits()).collect(), width: 4 };
    let pairs = DistanceTable { cells: vec![1.0f32.to_bits(); 16], width: 4 };
    let mut index = ThresholdBeam::new(3, 4);
    for id in 0..4 {
        index.insert(entry(id, &[0.0]), &pairs);
    }
    let hits = index.search(&metric, 0, (-1.0f32).to_bits());
    assert_eq!(ids_of(&hits), vec![2, 0, 1, 3]);
    let shown: Vec<u32> = hits.iter().map(|h| h.similarity).collect();
    let expected = [0.765432f32, 0.5, 0.5, -0.123456];
    assert_eq!(shown, expected.iter().map(|s| s.to_bits()).collect::<Vec<u32>>());
    assert_eq!(shorten(0.7654321f32.to_bits()), 0.765432f32.to_bits());
}
