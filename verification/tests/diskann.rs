//! The disk-friendly index: vectors, graph, names and stored form.
use rand::rngs::StdRng;
use rand::{Rng, SeedableRng};
use ruvector::diskann::codec::{
    decode_codes, decode_graph, decode_vectors, encode_codes, encode_graph, encode_vectors,
    is_searchable, tidy,
};
use ruvector::diskann::error::DiskAnnError;
use ruvector::diskann::ids::{decode_ids, encode_ids};
use ruvector::diskann::index::{DiskAnnConfig, DiskAnnIndex, SearchResult, Stored};
use ruvector::diskann::settings::{read_settings, settings_from};
use ruvector::diskann::vamana::{is_tombstoned, mark, VamanaGraph};
use ruvector::diskann::vectors::{FlatVectors, GpuBackend, GpuDistanceContext};
use ruvector::metric::{Computed, DistanceTable};
use ruvector::visited::VisitedSet;
use std::collections::HashSet;
use std::time::Instant;

fn l2_squared(a: &[f32], b: &[f32]) -> f32 {
    let mut lanes = [0.0f32; 8];
    let (ca, cb) = (a.chunks_exact(8), b.chunks_exact(8));
    let rest: f32 =
        ca.remainder().iter().zip(cb.remainder()).map(|(x, y)| (x - y) * (x - y)).sum();
    for (x, y) in ca.zip(cb) {
        for i in 0..8 {
            let d = x[i] - y[i];
            lanes[i] += d * d;
        }
    }
    lanes.iter().sum::<f32>() + rest
}

fn bits_of(v: &[f32]) -> Vec<u32> {
    v.iter().map(|x| x.to_bits()).collect()
}

type Named = Vec<(String, Vec<f32>)>;

/// Distances between stored vectors, times a factor.
fn between(data: &Named, factor: f32) -> Computed<impl Fn(u32, u32) -> u32 + '_> {
    Computed {
        f: move |i: u32, j: u32| {
            (factor * l2_squared(&data[i as usize].1, &data[j as usize].1)).to_bits()
        },
        sources: data.len(),
        targets: data.len(),
    }
}

/// Distances from one query.
fn to_query<'a>(query: &'a [f32], data: &'a Named) -> Computed<impl Fn(u32, u32) -> u32 + 'a> {
    Computed {
        f: move |_: u32, j: u32| l2_squared(query, &data[j as usize].1).to_bits(),
        sources: 1,
        targets: data.len(),
    }
}

fn from_centroid(data: &Named) -> Vec<u32> {
    let dim = data[0].1.len();
    let mean: Vec<f32> = (0..dim)
        .map(|d| data.iter().map(|(_, v)| v[d]).sum::<f32>() / data.len() as f32)
        .collect();
    data.iter().map(|(_, v)| l2_squared(v, &mean).to_bits()).collect()
}

fn entries(data: &Named) -> Vec<(String, Vec<u32>)> {
    data.iter().map(|(id, v)| (id.clone(), bits_of(v))).collect()
}

fn build(index: &mut DiskAnnIndex, data: &Named) -> Result<(), DiskAnnError> {
    let alpha = f32::from_bits(index.settings().alpha);
    index.build(&between(data, 1.0), &between(data, alpha), &from_centroid(data))
}

fn built(config: DiskAnnConfig, data: &Named) -> DiskAnnIndex {
    let mut index = DiskAnnIndex::new(config);
    index.insert_batch(entries(data)).unwrap();
    build(&mut index, data).unwrap();
    index
}

fn search(
    index: &DiskAnnIndex,
    data: &Named,
    query: &[f32],
    k: usize,
) -> Result<Vec<SearchResult>, DiskAnnError> {
    let metric = to_query(query, data);
    index.search(&metric, &metric, &bits_of(query), 0, k)
}

fn config(dim: usize, degree: usize, build_beam: usize, search_beam: usize) -> DiskAnnConfig {
    DiskAnnConfig {
        dim,
        max_degree: degree,
        build_beam,
        search_beam,
        alpha: 1.2f32.to_bits(),
        ..Default::default()
    }
}

fn named(n: usize, dim: usize, prefix: &str, rng: &mut StdRng) -> Named {
    (0..n)
        .map(|i| (format!("{prefix}{i}"), (0..dim).map(|_| rng.gen()).collect()))
        .collect()
}

fn random_vectors(n: usize, dim: usize) -> Named {
    named(n, dim, "vec-", &mut StdRng::seed_from_u64(0xD15CA77))
}

/// A product quantiser: each subspace has its own centroids.
struct ProductQuantizer {
    m: usize,
    sub: usize,
    centroids: Vec<Vec<Vec<f32>>>,
}

impl ProductQuantizer {
    fn train(vecs: &[&Vec<f32>], m: usize, rounds: usize) -> Self {
        let sub = vecs[0].len() / m;
        let k = vecs.len().min(256);
        let mut centroids = Vec::new();
        for s in 0..m {
            let part: Vec<&[f32]> = vecs.iter().map(|v| &v[s * sub..(s + 1) * sub]).collect();
            let mut means: Vec<Vec<f32>> = (0..k).map(|i| part[i].to_vec()).collect();
            for _ in 0..rounds {
                let mut sums = vec![vec![0.0f32; sub]; k];
                let mut counts = vec![0usize; k];
                for p in &part {
                    let c = nearest(&means, p);
                    counts[c] += 1;
                    for d in 0..sub {
                        sums[c][d] += p[d];
                    }
                }
                for c in 0..k {
                    if counts[c] > 0 {
                        means[c] = sums[c].iter().map(|x| x / counts[c] as f32).collect();
                    }
                }
            }
            centroids.push(means);
        }
        ProductQuantizer { m, sub, centroids }
    }

    fn encode(&self, v: &[f32]) -> Vec<u8> {
        (0..self.m)
            .map(|s| nearest(&self.centroids[s], &v[s * self.sub..(s + 1) * self.sub]) as u8)
            .collect()
    }

    fn build_distance_table(&self, q: &[f32]) -> Vec<f32> {
        let mut table = vec![f32::MAX; self.m * 256];
        for s in 0..self.m {
            for (c, mean) in self.centroids[s].iter().enumerate() {
                table[s * 256 + c] = l2_squared(&q[s * self.sub..(s + 1) * self.sub], mean);
            }
        }
        table
    }
}

fn nearest(means: &[Vec<f32>], p: &[f32]) -> usize {
    let mut best = 0;
    let mut best_dist = f32::INFINITY;
    for (c, mean) in means.iter().enumerate() {
        let d = l2_squared(mean, p);
        if d < best_dist {
            best = c;
            best_dist = d;
        }
    }
    best
}

/// Estimated distances from codes and a table.
fn estimated<'a>(
    codes: &'a [Vec<u8>],
    table: &'a [f32],
) -> Computed<impl Fn(u32, u32) -> u32 + 'a> {
    Computed {
        f: move |_: u32, j: u32| {
            let sum: f32 = codes[j as usize]
                .iter()
                .enumerate()
                .map(|(i, c)| table[i * 256 + *c as usize])
                .sum();
            sum.to_bits()
        },
        sources: 1,
        targets: codes.len(),
    }
}

fn quantised(data: &Named, m: usize, rounds: usize) -> (ProductQuantizer, Vec<Vec<u8>>) {
    let vecs: Vec<&Vec<f32>> = data.iter().map(|(_, v)| v).collect();
    let pq = ProductQuantizer::train(&vecs, m, rounds);
    let codes = vecs.iter().map(|v| pq.encode(v)).collect();
    (pq, codes)
}

fn true_neighbours(data: &Named, query: &[f32], k: usize) -> Vec<usize> {
    let mut brute: Vec<(usize, f32)> =
        data.iter().enumerate().map(|(i, (_, v))| (i, l2_squared(v, query))).collect();
    brute.sort_by(|a, b| a.1.partial_cmp(&b.1).unwrap());
    brute[..k].iter().map(|(i, _)| *i).collect()
}

#[test]
fn test_flat_vectors() {
    let mut fv = FlatVectors::new(3);
    fv.push(&bits_of(&[1.0, 2.0, 3.0]));
    fv.push(&bits_of(&[4.0, 5.0, 6.0]));
    assert_eq!(fv.len(), 2);
    assert_eq!(fv.get(0), &bits_of(&[1.0, 2.0, 3.0])[..]);
    assert_eq!(fv.get(1), &bits_of(&[4.0, 5.0, 6.0])[..]);
}

#[test]
fn test_visited_set() {
    let mut vs = VisitedSet::new(100);
    vs.insert(42);
    assert!(vs.contains(42));
    assert!(!vs.contains(43));
    vs.clear();
    assert!(!vs.contains(42));
    vs.insert(43);
    assert!(vs.contains(43));
}

fn vamana(data: &Named, degree: usize, beam: usize) -> VamanaGraph {
    let mut graph = VamanaGraph::new(data.len(), degree, beam, 1.2f32.to_bits());
    graph.build(&between(data, 1.0), &between(data, 1.2), &from_centroid(data)).unwrap();
    graph
}

#[test]
fn test_vamana_build_and_search() {
    let data = named(200, 32, "", &mut StdRng::from_entropy());
    let graph = vamana(&data, 32, 64);
    let (results, _) = graph.greedy_search(&to_query(&data[42].1, &data), 0, 10);
    assert!(!results.is_empty());
    assert!(results.contains(&42));
}

#[test]
fn test_vamana_bounded_degree() {
    let data = named(100, 16, "", &mut StdRng::from_entropy());
    let graph = vamana(&data, 8, 32);
    for neighbors in &graph.neighbors {
        assert!(neighbors.len() <= 8);
    }
}

#[test]
fn test_diskann_basic() {
    let data = random_vectors(500, 32);
    let query = data[42].1.clone();
    let index = built(config(32, 16, 32, 32), &data);
    let results = search(&index, &data, &query, 5).unwrap();
    assert!(!results.is_empty());
    assert_eq!(results[0].id, "vec-42");
    assert!(f32::from_bits(results[0].distance) < 1e-6);
}

#[test]
fn test_diskann_with_pq() {
    let data = random_vectors(200, 32);
    let query = data[10].1.clone();
    let mut settings = config(32, 16, 32, 32);
    settings.pq_subspaces = 4;
    settings.pq_iterations = 5;
    let index = built(settings, &data);
    let (pq, codes) = quantised(&data, 4, 5);
    let table = pq.build_distance_table(&query);
    let results = index
        .search(&estimated(&codes, &table), &to_query(&query, &data), &bits_of(&query), 0, 5)
        .unwrap();
    assert_eq!(results[0].id, "vec-10");
}

#[test]
fn test_diskann_save_load() {
    let data = random_vectors(100, 16);
    let query = data[7].1.clone();
    let settings = config(16, 8, 16, 16);
    let stored = built(settings, &data).save().unwrap();
    let loaded = DiskAnnIndex::load(settings, &stored).unwrap().unwrap();
    let results = search(&loaded, &data, &query, 3).unwrap();
    assert_eq!(results[0].id, "vec-7");
}

#[test]
fn test_recall_at_10() {
    let mut rng = StdRng::seed_from_u64(0xD15CA77);
    let (n, dim, k) = (2000, 64, 10);
    let data = named(n, dim, "v", &mut rng);
    let index = built(config(dim, 32, 64, 64), &data);
    let num_queries = 50;
    let mut total_recall = 0.0;
    for _ in 0..num_queries {
        let qi = rng.gen_range(0..n);
        let query = &data[qi].1;
        let gt: HashSet<String> =
            true_neighbours(&data, query, k).iter().map(|i| data[*i].0.clone()).collect();
        let results = search(&index, &data, query, k).unwrap();
        let found: HashSet<String> = results.iter().map(|r| r.id.clone()).collect();
        total_recall += gt.intersection(&found).count() as f64 / k as f64;
    }
    let avg_recall = total_recall / num_queries as f64;
    assert!(avg_recall >= 0.85, "Recall@{k} = {avg_recall:.3}, expected >= 0.85");
}

#[test]
fn test_recall_at_10_with_pq_guided_search() {
    let mut rng = StdRng::seed_from_u64(0xD15CA77);
    let (n, dim, k) = (2000, 64, 10);
    let data = named(n, dim, "v", &mut rng);
    let mut settings = config(dim, 32, 64, 64);
    settings.pq_subspaces = 8;
    settings.pq_iterations = 10;
    let index = built(settings, &data);
    let (pq, codes) = quantised(&data, 8, 10);
    let num_queries = 50;
    let mut total_recall = 0.0;
    for _ in 0..num_queries {
        let qi = rng.gen_range(0..n);
        let query = &data[qi].1;
        let gt: HashSet<String> =
            true_neighbours(&data, query, k).iter().map(|i| data[*i].0.clone()).collect();
        let table = pq.build_distance_table(query);
        let results = index
            .search(&estimated(&codes, &table), &to_query(query, &data), &bits_of(query), 0, k)
            .unwrap();
        let found: HashSet<String> = results.iter().map(|r| r.id.clone()).collect();
        total_recall += gt.intersection(&found).count() as f64 / k as f64;
    }
    let avg_recall = total_recall / num_queries as f64;
    assert!(avg_recall >= 0.85, "PQ-guided Recall@{k} = {avg_recall:.3}, expected >= 0.85");
}

#[test]
fn test_search_without_pq_matches_exact_reference_path() {
    let mut rng = StdRng::seed_from_u64(0xD15CA77);
    let (n, dim, k) = (500, 32, 10);
    let data = named(n, dim, "v", &mut rng);
    let index = built(config(dim, 16, 32, 32), &data);
    assert_eq!(index.settings().pq_subspaces, 0);
    let query = &data[3].1;
    let via_search = search(&index, &data, query, k).unwrap();

    let graph = index.stored_graph().unwrap();
    let beam = index.settings().search_beam.max(k);
    let (candidates, _) = graph.greedy_search(&to_query(query, &data), 0, beam);
    let mut scored: Vec<(u32, f32)> = candidates
        .into_iter()
        .map(|id| (id, l2_squared(&data[id as usize].1, query)))
        .collect();
    scored.sort_unstable_by(|a, b| a.1.partial_cmp(&b.1).unwrap_or(std::cmp::Ordering::Equal));
    let reference: Vec<(String, f32)> = scored
        .into_iter()
        .take(k)
        .map(|(id, dist)| (index.names()[id as usize].clone(), dist))
        .collect();

    assert_eq!(via_search.len(), reference.len());
    for (a, (rid, rdist)) in via_search.iter().zip(reference.iter()) {
        assert_eq!(&a.id, rid, "id order must match the exact path");
        assert_eq!(f32::from_bits(a.distance), *rdist, "distance must match the exact path");
    }
}

#[test]
fn test_pq_guided_search_degrades_with_corrupted_distance_table() {
    let mut rng = StdRng::seed_from_u64(0xD15CA77);
    let (n, dim, k) = (2000, 64, 10);
    let data = named(n, dim, "v", &mut rng);
    let mut settings = config(dim, 32, 64, 64);
    settings.pq_subspaces = 8;
    settings.pq_iterations = 10;
    let index = built(settings, &data);
    let (pq, codes) = quantised(&data, 8, 10);
    let graph = index.stored_graph().unwrap();
    let beam = index.settings().search_beam.max(k);

    let num_queries = 30;
    let mut recall_correct = 0.0;
    let mut recall_corrupted = 0.0;
    let mut qrng = StdRng::seed_from_u64(0xBEEF);
    for _ in 0..num_queries {
        let qi = qrng.gen_range(0..n);
        let query = &data[qi].1;
        let gt: HashSet<u32> =
            true_neighbours(&data, query, k).iter().map(|i| *i as u32).collect();
        let rerank = |cands: Vec<u32>| -> HashSet<u32> {
            let mut scored: Vec<(u32, f32)> = cands
                .into_iter()
                .map(|id| (id, l2_squared(&data[id as usize].1, query)))
                .collect();
            scored
                .sort_unstable_by(|a, b| a.1.partial_cmp(&b.1).unwrap_or(std::cmp::Ordering::Equal));
            scored.into_iter().take(k).map(|(id, _)| id).collect()
        };
        let table = pq.build_distance_table(query);
        let (cands, _) = graph.greedy_search(&estimated(&codes, &table), 0, beam);
        recall_correct += gt.intersection(&rerank(cands)).count() as f64 / k as f64;

        let mut corrupted = table.clone();
        for sub in 0..pq.m {
            let base = sub * 256;
            corrupted[base..base + 256].rotate_left(1);
        }
        let (cands_bad, _) = graph.greedy_search(&estimated(&codes, &corrupted), 0, beam);
        recall_corrupted += gt.intersection(&rerank(cands_bad)).count() as f64 / k as f64;
    }
    let avg_correct = recall_correct / num_queries as f64;
    let avg_corrupted = recall_corrupted / num_queries as f64;
    assert!(
        avg_correct >= 0.85,
        "correct-table recall {avg_correct:.3} should clear the usual 0.85 bar"
    );
    assert!(
        avg_corrupted < avg_correct - 0.2,
        "corrupted-table recall {avg_corrupted:.3} should collapse well below \
         correct-table recall {avg_correct:.3} if traversal genuinely depends on \
         distance-table content"
    );
}

#[test]
fn test_dimension_mismatch() {
    let mut index = DiskAnnIndex::new(DiskAnnConfig { dim: 16, ..Default::default() });
    let result = index.insert("bad".to_string(), bits_of(&[1.0; 32]));
    assert!(result.is_err());
    assert!(matches!(
        result,
        Err(DiskAnnError::DimensionMismatch { expected: 16, actual: 32 })
    ));

    let data = vec![("ok".to_string(), vec![1.0f32; 16])];
    index.insert_batch(entries(&data)).unwrap();
    build(&mut index, &data).unwrap();
    let result = search(&index, &data, &[1.0; 32], 1);
    assert!(result.is_err());
    assert!(matches!(
        result,
        Err(DiskAnnError::DimensionMismatch { expected: 16, actual: 32 })
    ));
}

#[test]
fn test_duplicate_id_rejected() {
    let mut index = DiskAnnIndex::new(DiskAnnConfig { dim: 4, ..Default::default() });
    index.insert("a".to_string(), bits_of(&[1.0; 4])).unwrap();
    let result = index.insert("a".to_string(), bits_of(&[2.0; 4]));
    assert!(result.is_err());
    match result {
        Err(DiskAnnError::InvalidConfig(message)) => assert_eq!(message, "Duplicate ID: a"),
        _ => panic!("wrong error"),
    }
}

#[test]
fn test_search_before_build_fails() {
    let mut index = DiskAnnIndex::new(DiskAnnConfig { dim: 4, ..Default::default() });
    let data = vec![("a".to_string(), vec![1.0f32; 4])];
    index.insert_batch(entries(&data)).unwrap();
    let result = search(&index, &data, &[1.0; 4], 1);
    assert!(matches!(result, Err(DiskAnnError::NotBuilt)));
}

#[test]
fn test_scale_5k() {
    let mut rng = StdRng::seed_from_u64(0xD15CA77);
    let (n, dim) = (5000, 128);
    let data = named(n, dim, "v", &mut rng);
    let t0 = Instant::now();
    let index = built(config(dim, 48, 96, 48), &data);
    let build_ms = t0.elapsed().as_millis();
    println!("Build {n} vectors ({dim}d): {build_ms}ms");
    let query = &data[0].1;
    let t0 = Instant::now();
    let iters = 100;
    for _ in 0..iters {
        let _ = search(&index, &data, query, 10).unwrap();
    }
    let search_us = t0.elapsed().as_micros() / iters;
    println!("Search latency (k=10): {search_us}us avg over {iters} queries");
    assert!(search_us < 10_000, "Search took {search_us}us, expected <10ms");
}

#[test]
fn empty_index_cannot_be_built() {
    let mut index = DiskAnnIndex::new(DiskAnnConfig::default());
    let table = DistanceTable { cells: vec![], width: 0 };
    assert!(matches!(index.build(&table, &table, &[]), Err(DiskAnnError::Empty)));
    assert_eq!(index.count(), 0);
}

#[test]
fn deleted_vector_becomes_nan_and_frees_its_name() {
    let mut index = DiskAnnIndex::new(DiskAnnConfig { dim: 2, ..Default::default() });
    index.insert("a".to_string(), bits_of(&[1.0, 2.0])).unwrap();
    index.insert("b".to_string(), bits_of(&[3.0, 4.0])).unwrap();
    assert_eq!(index.delete("a").unwrap(), true);
    assert_eq!(index.delete("a").unwrap(), false);
    assert!(f32::from_bits(index.stored_vectors().get(0)[0]).is_nan());
    assert_eq!(index.stored_vectors().get(1), &bits_of(&[3.0, 4.0])[..]);
    index.insert("a".to_string(), bits_of(&[5.0, 6.0])).unwrap();
    assert_eq!(index.count(), 3);
    assert_eq!(index.names(), &vec!["a".to_string(), "b".to_string(), "a".to_string()]);
}

#[test]
fn batch_stops_at_the_first_refusal() {
    let mut index = DiskAnnIndex::new(DiskAnnConfig { dim: 1, ..Default::default() });
    let batch = vec![
        ("a".to_string(), vec![1]),
        ("b".to_string(), vec![2]),
        ("a".to_string(), vec![3]),
        ("c".to_string(), vec![4]),
    ];
    assert!(matches!(index.insert_batch(batch), Err(DiskAnnError::InvalidConfig(_))));
    assert_eq!(index.count(), 2);
}

#[test]
fn stored_form_has_a_fixed_layout() {
    let mut v = FlatVectors::with_capacity(2, 1);
    assert!(v.is_empty());
    v.push(&[0x0403_0201, 7]);
    let bytes = encode_vectors(&v);
    let mut expected = vec![1u8, 0, 0, 0, 0, 0, 0, 0, 2, 0, 0, 0, 0, 0, 0, 0];
    expected.extend_from_slice(&[1, 2, 3, 4, 7, 0, 0, 0]);
    assert_eq!(bytes, expected);
    let back = decode_vectors(&bytes, 2).unwrap();
    assert_eq!(back.data, v.data);
    assert_eq!(back.len(), 1);
    assert!(decode_vectors(&bytes, 3).is_none());
    assert!(decode_vectors(&bytes[..23], 2).is_none());
    assert!(decode_vectors(&bytes[..15], 2).is_none());

    let g = VamanaGraph {
        neighbors: vec![vec![1], vec![], vec![0, 1]],
        medoid: 2,
        max_degree: 4,
        build_beam: 8,
        alpha: 0,
    };
    let bytes = encode_graph(&g);
    let mut expected = vec![2u8, 0, 0, 0, 0, 0, 0, 0, 3, 0, 0, 0, 0, 0, 0, 0];
    expected.extend_from_slice(&[1, 0, 0, 0, 1, 0, 0, 0]);
    expected.extend_from_slice(&[0, 0, 0, 0]);
    expected.extend_from_slice(&[2, 0, 0, 0, 0, 0, 0, 0, 1, 0, 0, 0]);
    assert_eq!(bytes, expected);
    let back = decode_graph(&bytes, 4, 8, 0).unwrap();
    assert_eq!(back.neighbors, g.neighbors);
    assert_eq!(back.medoid, 2);
    assert!(is_searchable(&back, 3));
    assert!(!is_searchable(&back, 4));
    assert!(decode_graph(&bytes[..bytes.len() - 1], 4, 8, 0).is_none());
}

#[test]
fn codes_are_stored_one_after_another() {
    let codes = vec![vec![1u8, 2], vec![3, 4], vec![5, 6]];
    let bytes = encode_codes(&codes);
    assert_eq!(bytes, vec![1, 2, 3, 4, 5, 6]);
    assert_eq!(decode_codes(&bytes, 3, 2), Some(codes));
    assert_eq!(decode_codes(&bytes, 4, 2), None);
    assert_eq!(decode_codes(&[], 2, 0), Some(vec![vec![], vec![]]));
}

#[test]
fn names_are_stored_as_json() {
    let names = vec!["plain".to_string(), "quo\"te".to_string(), "".to_string()];
    let json = encode_ids(&names).unwrap();
    assert_eq!(json, "[\"plain\",\"quo\\\"te\",\"\"]");
    assert_eq!(decode_ids(&json).unwrap(), names);
    match decode_ids("[1]") {
        Err(DiskAnnError::Serialization(message)) => assert!(!message.is_empty()),
        _ => panic!("a number is no name"),
    }
}

#[test]
fn parts_that_cannot_be_read_are_not_loaded() {
    let data = random_vectors(5, 3);
    let settings = config(3, 4, 8, 8);
    let index = built(settings, &data);
    let stored = index.save().unwrap();
    let again = DiskAnnIndex::load(settings, &stored).unwrap().unwrap();
    assert_eq!(again.names(), index.names());
    assert_eq!(again.stored_vectors().data, index.stored_vectors().data);
    assert_eq!(
        again.stored_graph().unwrap().neighbors,
        index.stored_graph().unwrap().neighbors
    );

    let short = Stored {
        vectors: stored.vectors[..20].to_vec(),
        graph: stored.graph.clone(),
        ids: stored.ids.clone(),
    };
    assert!(DiskAnnIndex::load(settings, &short).is_none());
    let garbled = Stored {
        vectors: stored.vectors.clone(),
        graph: stored.graph.clone(),
        ids: "[".to_string(),
    };
    assert!(matches!(
        DiskAnnIndex::load(settings, &garbled),
        Some(Err(DiskAnnError::Serialization(_)))
    ));
    let unlinked = Stored { vectors: stored.vectors.clone(), graph: vec![], ids: stored.ids };
    assert!(DiskAnnIndex::load(settings, &unlinked).is_none());
}

#[test]
fn tombstones_are_bits() {
    assert!(is_tombstoned(&[0, 2], 65));
    assert!(!is_tombstoned(&[0, 2], 64));
    assert!(!is_tombstoned(&[0, 2], 200));
}

#[test]
fn repair_routes_around_a_deleted_node() {
    let at = [0.0f32, 1.0, 2.0, 3.0];
    let cells: Vec<u32> =
        at.iter().flat_map(|x| at.iter().map(move |y| ((x - y) * (x - y)).to_bits())).collect();
    let metric = DistanceTable { cells, width: 4 };
    let mut g = VamanaGraph {
        neighbors: vec![vec![1], vec![0, 2], vec![1, 3], vec![2]],
        medoid: 1,
        max_degree: 2,
        build_beam: 4,
        alpha: 1.0f32.to_bits(),
    };
    g.repair_deleted(&metric, &metric, 1, &[0]);
    assert_eq!(g.medoid, 1);
    g.repair_deleted(&metric, &metric, 1, &[2]);
    assert_eq!(g.medoid, 0);
    assert!(g.neighbors[1].is_empty());
    assert_eq!(g.neighbors[0], vec![2]);
    assert_eq!(g.neighbors[2], vec![3, 0]);
    assert!(g.neighbors.iter().all(|list| !list.contains(&1)));
}

#[test]
fn pruning_drops_what_is_nearer_to_a_neighbour() {
    let at = [0.0f32, 1.0, 1.5, -2.0];
    let cells: Vec<u32> =
        at.iter().flat_map(|x| at.iter().map(move |y| ((x - y) * (x - y)).to_bits())).collect();
    let metric = DistanceTable { cells, width: 4 };
    let g = VamanaGraph::new(4, 3, 4, 1.0f32.to_bits());
    assert_eq!(g.robust_prune(&metric, &metric, 0, &vec![3, 2, 1, 0]), vec![1, 3]);
    let narrow = VamanaGraph::new(4, 1, 4, 1.0f32.to_bits());
    assert_eq!(narrow.robust_prune(&metric, &metric, 0, &vec![3, 2, 1]), vec![1]);
    assert!(g.robust_prune(&metric, &metric, 0, &vec![]).is_empty());
}

#[test]
fn medoid_is_nearest_to_the_mean() {
    assert_eq!(VamanaGraph::find_medoid(&bits_of(&[3.0, 0.5, 1.0])), 1);
}

#[test]
fn search_counts_the_nodes_met() {
    let metric = DistanceTable { cells: bits_of(&[4.0, 1.0, 0.0]), width: 3 };
    let g = VamanaGraph {
        neighbors: vec![vec![1], vec![2], vec![]],
        medoid: 0,
        max_degree: 1,
        build_beam: 4,
        alpha: 0,
    };
    assert_eq!(g.greedy_search(&metric, 0, 8), (vec![2, 1, 0], 3));
    assert_eq!(g.greedy_search(&metric, 0, 1), (vec![2], 3));
}

#[test]
fn batch_distances_give_the_nearest() {
    let context = GpuDistanceContext::new(false).unwrap();
    assert!(matches!(context.backend(), GpuBackend::Cuda));
    assert!(matches!(GpuDistanceContext::new(true).unwrap().backend(), GpuBackend::Metal));
    let metric = DistanceTable { cells: bits_of(&[4.0, 1.0, 2.0]), width: 3 };
    let found = context.batch_l2_squared(&metric, 0, 3, 2);
    assert_eq!(found.iter().map(|x| x.id).collect::<Vec<_>>(), vec![1, 2]);
    assert_eq!(found[0].bits, 1.0f32.to_bits());
}

#[test]
fn default_index_settings() {
    let c = DiskAnnConfig::default();
    assert_eq!((c.dim, c.max_degree, c.build_beam, c.search_beam), (128, 64, 128, 64));
    assert_eq!(c.alpha, 1.2f32.to_bits());
    assert_eq!((c.pq_subspaces, c.pq_iterations), (0, 10));
}

#[test]
fn deletion_takes_effect_at_the_next_build() {
    let mut data = random_vectors(60, 8);
    let mut index = built(config(8, 8, 16, 16), &data);
    for i in (0..60).step_by(3) {
        assert!(index.delete(&format!("vec-{i}")).unwrap());
        data[i].1 = vec![f32::NAN; 8];
    }
    build(&mut index, &data).unwrap();
    assert_eq!(index.count(), 60);
    for query in [[0.5f32; 8], [0.0; 8], [1.0; 8]] {
        let found = search(&index, &data, &query, 60).unwrap();
        assert!(!found.is_empty());
        for r in &found {
            let i: usize = r.id[4..].parse().unwrap();
            assert!(i % 3 != 0, "{} was deleted", r.id);
            assert!(!f32::from_bits(r.distance).is_nan());
        }
    }
}

#[test]
fn name_used_again_leads_to_the_new_vector() {
    let mut data: Named = vec![
        ("a".to_string(), vec![0.0]),
        ("b".to_string(), vec![1.0]),
        ("a".to_string(), vec![2.0]),
    ];
    let mut index = DiskAnnIndex::new(config(1, 4, 4, 4));
    index.insert("a".to_string(), bits_of(&[0.0])).unwrap();
    index.insert("b".to_string(), bits_of(&[1.0])).unwrap();
    assert!(index.delete("a").unwrap());
    data[0].1 = vec![f32::NAN];
    index.insert("a".to_string(), bits_of(&[2.0])).unwrap();
    build(&mut index, &data).unwrap();
    let found = search(&index, &data, &[2.0], 3).unwrap();
    let names: Vec<&str> = found.iter().map(|r| r.id.as_str()).collect();
    assert_eq!(names, vec!["a", "b"]);
    assert_eq!(f32::from_bits(found[0].distance), 0.0);
}

#[test]
fn sweep_takes_out_what_is_not_live() {
    let at = [0.0f32, 1.0, 2.0, 3.0];
    let cells: Vec<u32> =
        at.iter().flat_map(|x| at.iter().map(move |y| ((x - y) * (x - y)).to_bits())).collect();
    let metric = DistanceTable { cells, width: 4 };
    let mut g = VamanaGraph {
        neighbors: vec![vec![1], vec![0, 2], vec![1, 3], vec![2]],
        medoid: 1,
        max_degree: 2,
        build_beam: 4,
        alpha: 1.0f32.to_bits(),
    };
    g.sweep(&metric, &metric, &vec![true, false, false, true]);
    assert_eq!(g.neighbors, vec![vec![3], vec![], vec![], vec![0]]);
    assert_eq!(g.medoid, 0);
    g.sweep(&metric, &metric, &vec![false; 4]);
    assert!(g.neighbors.iter().all(|list| list.is_empty()));
    let mut words = vec![0u64, 1];
    mark(&mut words, 65);
    assert_eq!(words, vec![0, 3]);
}

#[test]
fn names_that_do_not_fit_the_vectors_are_loaded_all_the_same() {
    let data = random_vectors(5, 3);
    let settings = config(3, 4, 8, 8);
    let index = built(settings, &data);
    let stored = index.save().unwrap();
    let few = Stored {
        vectors: stored.vectors.clone(),
        graph: stored.graph.clone(),
        ids: "[\"x\"]".to_string(),
    };
    let loaded = DiskAnnIndex::load(settings, &few).unwrap().unwrap();
    assert_eq!(loaded.count(), 5);
    assert_eq!(loaded.names(), &vec!["x".to_string()]);
    assert_eq!((loaded.place("x"), loaded.place("y")), (Some(0), None));
    let results = search(&loaded, &data, &data[0].1, 1).unwrap();
    assert_eq!(results[0].id, "x");
    assert!(search(&loaded, &data, &data[3].1, 1).unwrap().is_empty());
    let many = Stored {
        vectors: stored.vectors,
        graph: stored.graph,
        ids: "[\"a\",\"b\",\"c\",\"d\",\"e\",\"f\"]".to_string(),
    };
    let mut loaded = DiskAnnIndex::load(settings, &many).unwrap().unwrap();
    assert_eq!(loaded.place("f"), Some(5));
    assert_eq!(search(&loaded, &data, &data[3].1, 1).unwrap()[0].id, "d");
    assert!(matches!(
        loaded.insert("f".to_string(), bits_of(&[0.0, 0.0, 0.0])),
        Err(DiskAnnError::InvalidConfig(_))
    ));
    assert!(loaded.delete("a").unwrap());
}

#[test]
fn links_to_vectors_that_are_not_there_are_passed_over() {
    let data: Named = (0..4).map(|i| (format!("v{i}"), vec![i as f32])).collect();
    let settings = config(1, 4, 8, 8);
    let stored = built(settings, &data).save().unwrap();
    let with_graph = |medoid: u32, neighbors: Vec<Vec<u32>>| {
        let g = VamanaGraph { neighbors, medoid, max_degree: 4, build_beam: 8, alpha: 0 };
        let parts = Stored {
            vectors: stored.vectors.clone(),
            graph: encode_graph(&g),
            ids: stored.ids.clone(),
        };
        DiskAnnIndex::load(settings, &parts).unwrap().unwrap()
    };
    let found = |index: &DiskAnnIndex| -> Vec<String> {
        search(index, &data, &[3.0], 4).unwrap().into_iter().map(|r| r.id).collect()
    };
    let strange = with_graph(0, vec![vec![1, 9, 3], vec![2, 4]]);
    assert_eq!(found(&strange), vec!["v3", "v2", "v1", "v0"]);
    assert_eq!(strange.stored_graph().unwrap().neighbors, vec![vec![1, 9, 3], vec![2, 4]]);
    assert!(found(&with_graph(7, vec![vec![1], vec![0]])).is_empty());
    assert!(found(&with_graph(3, vec![vec![1], vec![0]])).is_empty());
    assert_eq!(found(&with_graph(1, vec![vec![1], vec![0]])), vec!["v1", "v0"]);
    let sound = VamanaGraph {
        neighbors: vec![vec![1], vec![0]],
        medoid: 1,
        max_degree: 4,
        build_beam: 8,
        alpha: 0,
    };
    assert!(tidy(&sound, 4).is_none());
    let loose = VamanaGraph {
        neighbors: vec![vec![1, 9, 3], vec![2, 4]],
        medoid: 0,
        max_degree: 4,
        build_beam: 8,
        alpha: 0,
    };
    let tidied = tidy(&loose, 4).unwrap();
    assert_eq!(tidied.neighbors, vec![vec![1, 3], vec![2], vec![], vec![]]);
    assert_eq!(tidied.medoid, 0);
}

#[test]
fn saving_writes_a_loaded_graph_back() {
    let data: Named = (0..4).map(|i| (format!("v{i}"), vec![i as f32])).collect();
    let settings = config(1, 4, 8, 8);
    let stored = built(settings, &data).save().unwrap();
    for (medoid, neighbors) in [
        (0, vec![vec![1, 9, 3], vec![2, 4]]),
        (7, vec![vec![1], vec![0]]),
        (2, vec![vec![5], vec![], vec![0, 1], vec![3], vec![2], vec![6]]),
        (0, vec![]),
    ] {
        let g = VamanaGraph { neighbors, medoid, max_degree: 4, build_beam: 8, alpha: 0 };
        let parts = Stored {
            vectors: stored.vectors.clone(),
            graph: encode_graph(&g),
            ids: stored.ids.clone(),
        };
        let mut loaded = DiskAnnIndex::load(settings, &parts).unwrap().unwrap();
        let again = loaded.save().unwrap();
        assert_eq!(again.graph, parts.graph);
        assert_eq!(again.vectors, parts.vectors);
        assert_eq!(again.ids, parts.ids);
        assert!(loaded.delete("v1").unwrap());
        loaded.insert("w".to_string(), bits_of(&[9.0])).unwrap();
        assert_eq!(loaded.save().unwrap().graph, parts.graph);
    }
}

#[test]
fn nothing_is_found_once_all_is_deleted_and_built() {
    let mut data: Named = vec![("a".to_string(), vec![1.0]), ("b".to_string(), vec![2.0])];
    let mut index = built(config(1, 4, 4, 4), &data);
    assert!(index.delete("a").unwrap());
    assert!(index.delete("b").unwrap());
    data.iter_mut().for_each(|e| e.1 = vec![f32::NAN]);
    build(&mut index, &data).unwrap();
    assert!(index.built());
    assert_eq!(index.count(), 2);
    assert!(search(&index, &data, &[1.0], 1).unwrap().is_empty());
    let loaded = DiskAnnIndex::load(index.settings(), &index.save().unwrap()).unwrap().unwrap();
    assert!(search(&loaded, &data, &[1.0], 1).unwrap().is_empty());
    index.insert("c".to_string(), bits_of(&[3.0])).unwrap();
    assert!(!index.built());
    data.push(("c".to_string(), vec![3.0]));
    build(&mut index, &data).unwrap();
    assert_eq!(search(&index, &data, &[1.0], 3).unwrap()[0].id, "c");
    assert_eq!(search(&index, &data, &[1.0], 3).unwrap().len(), 1);
}

#[test]
fn settings_are_read_from_json() {
    let text = "{\"dim\": 16, \"max_degree\": 8, \"build_beam\": 32, \"search_beam\": 24, \
        \"alpha\": 1.5, \"pq_subspaces\": 4, \"count\": 9, \"built\": true}";
    let read = read_settings(text, 1.5f32.to_bits()).unwrap().unwrap();
    assert_eq!((read.dim, read.max_degree, read.build_beam, read.search_beam), (16, 8, 32, 24));
    assert_eq!((read.alpha, read.pq_subspaces, read.pq_iterations), (1.5f32.to_bits(), 4, 10));
    let plain = "{\"dim\": 1, \"max_degree\": 2, \"build_beam\": 3, \"search_beam\": 4}";
    assert_eq!(read_settings(plain, 0).unwrap().unwrap().pq_subspaces, 0);
    for broken in ["", "{\"dim\": 16", "nonsense"] {
        assert!(matches!(
            read_settings(broken, 0),
            Some(Err(DiskAnnError::Serialization(_)))
        ));
    }
    for lacking in [
        "{\"dim\": 1, \"max_degree\": 2, \"build_beam\": 3}",
        "{\"dim\": -1, \"max_degree\": 2, \"build_beam\": 3, \"search_beam\": 4}",
        "{\"dim\": 1, \"max_degree\": 2.5, \"build_beam\": 3, \"search_beam\": 4}",
        "{\"dim\": 1, \"max_degree\": 2, \"build_beam\": \"3\", \"search_beam\": 4}",
        "[1, 2, 3, 4]",
        "null",
    ] {
        assert!(read_settings(lacking, 0).is_none());
    }
    assert!(settings_from(Some(1), None, Some(3), Some(4), Some(5), 6).is_none());
    let given = settings_from(Some(1), Some(2), Some(3), Some(4), None, 6).unwrap();
    assert_eq!((given.dim, given.search_beam, given.pq_subspaces, given.alpha), (1, 4, 0, 6));
}
