//! Orders, rankings, byte order, beams, and small helpers.
use rand::rngs::StdRng;
use rand::{Rng, SeedableRng};
use ruvector::beam::{search_from, Gate};
use ruvector::float_order::{
    clamp, is_nan, less, less_or_equal, max, min, negate, total_key, INFINITY, NAN, NEG_INFINITY,
    ONE,
};
use ruvector::knn::{find_nearest, find_nearest_others, ground_truth, rescore};
use ruvector::maxsim::{best_match, best_matches};
use ruvector::metric::{Computed, DistanceTable};
use ruvector::ranking::{ids, insert_ranked, rank, rank_first, rank_high, Scored};
use ruvector::router::{check_batch, check_dimensions, DistanceMetric, VectorDbError};
use ruvector::visited::VisitedSet;
use ruvector::wire::{get_u32, get_u64, put_bytes, put_u32, put_u64};

fn bits_of(v: &[f32]) -> Vec<u32> {
    v.iter().map(|x| x.to_bits()).collect()
}

const SAMPLES: [f32; 14] = [
    0.0,
    -0.0,
    1.0,
    -1.0,
    f32::MIN_POSITIVE,
    -1e-40,
    1e-40,
    f32::MAX,
    f32::MIN,
    f32::INFINITY,
    f32::NEG_INFINITY,
    f32::NAN,
    0.5,
    -2.5,
];

#[test]
fn comparisons_agree_with_the_machine() {
    for a in SAMPLES {
        for b in SAMPLES {
            let (x, y) = (a.to_bits(), b.to_bits());
            assert_eq!(less(x, y), a < b, "{a} < {b}");
            assert_eq!(less_or_equal(x, y), a <= b, "{a} <= {b}");
            assert_eq!(total_key(x).cmp(&total_key(y)), a.total_cmp(&b), "{a} {b}");
            let (hi, lo) = (f32::from_bits(max(x, y)), f32::from_bits(min(x, y)));
            assert!(hi == a.max(b) || (hi.is_nan() && a.max(b).is_nan()), "max {a} {b}");
            assert!(lo == a.min(b) || (lo.is_nan() && a.min(b).is_nan()), "min {a} {b}");
        }
        assert_eq!(is_nan(a.to_bits()), a.is_nan());
        assert_eq!(negate(a.to_bits()), (-a).to_bits());
        let held = f32::from_bits(clamp(a.to_bits(), 0, ONE));
        assert!(held == a.clamp(0.0, 1.0) || (held.is_nan() && a.is_nan()));
    }
    assert_eq!(INFINITY, f32::INFINITY.to_bits());
    assert_eq!(NEG_INFINITY, f32::NEG_INFINITY.to_bits());
    assert_eq!(NAN, f32::NAN.to_bits());
}

fn scored(id: u32, x: f32) -> Scored {
    Scored { id, bits: x.to_bits() }
}

#[test]
fn ranking_is_by_value_and_number() {
    let list = [scored(3, 2.0), scored(1, 2.0), scored(7, -1.0), scored(0, f32::NAN)];
    assert_eq!(ids(&rank(&list)), vec![7, 1, 3, 0]);
    assert_eq!(ids(&rank_first(&list, 2)), vec![7, 1]);
    assert_eq!(ids(&rank_first(&list, 9)), vec![7, 1, 3, 0]);
    assert_eq!(ids(&rank_high(&list)), vec![0, 1, 3, 7]);
    let mut sorted = rank(&list);
    insert_ranked(&mut sorted, scored(2, 2.0));
    assert_eq!(ids(&sorted), vec![7, 1, 2, 3, 0]);
    assert!(scored(1, 0.5).precedes(&scored(0, 0.75)));
    assert!(!scored(1, 0.5).precedes(&scored(0, 0.5)));
}

#[test]
fn ranking_agrees_with_a_sort() {
    let mut rng = StdRng::seed_from_u64(7);
    let list: Vec<Scored> =
        (0..200).map(|i| scored(i, rng.gen_range(0..40) as f32 * 0.5)).collect();
    let mut expected = list.clone();
    expected.sort_by(|a, b| f32::from_bits(a.bits).total_cmp(&f32::from_bits(b.bits)));
    assert_eq!(rank(&list), expected);
}

#[test]
fn integers_are_little_endian() {
    let mut buf = Vec::new();
    put_u32(&mut buf, 0x0403_0201);
    put_u64(&mut buf, 0x0c0b_0a09_0807_0605);
    put_bytes(&mut buf, &[13, 14]);
    assert_eq!(buf, (1..=14).collect::<Vec<u8>>());
    assert_eq!(get_u32(&buf, 0), 0x0403_0201);
    assert_eq!(get_u64(&buf, 4), 0x0c0b_0a09_0807_0605);
    assert_eq!(get_u32(&buf, 10), u32::from_le_bytes([11, 12, 13, 14]));
}

#[test]
fn nearest_by_table() {
    let table = DistanceTable { cells: bits_of(&[0.0, 3.0, 1.0, 1.0, 0.0, 2.0]), width: 3 };
    assert_eq!(ids(&find_nearest(&table, 0, 3, 2)), vec![0, 2]);
    assert_eq!(find_nearest_others(&table, 0, 2, 5), vec![1]);
    assert_eq!(ground_truth(&table, 2, 3, 2), vec![vec![0, 2], vec![1, 0]]);
    let again = rescore(&table, 1, &vec![2, 0]);
    assert_eq!(again, vec![scored(2, 2.0), scored(0, 1.0)]);
}

#[test]
fn computed_measures_are_asked_for() {
    let metric = Computed { f: |from: u32, to: u32| 10 * from + to, sources: 3, targets: 4 };
    assert_eq!(find_nearest(&metric, 2, 4, 1), vec![Scored { id: 0, bits: 20 }]);
}

#[test]
fn beam_stops_when_full_and_no_better() {
    let metric = DistanceTable { cells: bits_of(&[1.0, 5.0, 9.0, 0.5]), width: 4 };
    let graph = vec![vec![1], vec![2], vec![3], vec![]];
    let mut visited = VisitedSet::new(4);
    let none: Option<Gate<DistanceTable>> = None;
    let narrow = search_from(&graph, &metric, 0, 1, false, true, none, &vec![0], &mut visited);
    assert_eq!(ids(&narrow.best), vec![0]);
    let none: Option<Gate<DistanceTable>> = None;
    let wide = search_from(&graph, &metric, 0, 4, false, true, none, &vec![0], &mut visited);
    assert_eq!(ids(&wide.best), vec![3, 0, 1, 2]);
    assert_eq!(wide.met, 4);
}

#[test]
fn best_match_takes_the_highest() {
    assert_eq!(best_match(&bits_of(&[-0.5, 0.25, f32::NAN, -1.0])), 0.25f32.to_bits());
    assert_eq!(best_match(&[]), NEG_INFINITY);
    assert_eq!(best_match(&bits_of(&[f32::NAN])), NEG_INFINITY);
    let rows = vec![bits_of(&[1.0, 0.0]), bits_of(&[0.0, 0.5])];
    assert_eq!(best_matches(&rows), bits_of(&[1.0, 0.5]));
}

fn cosine(a: &[f32], b: &[f32]) -> f32 {
    let mut dot = 0.0_f32;
    let mut na = 0.0_f32;
    let mut nb = 0.0_f32;
    for (&ai, &bi) in a.iter().zip(b.iter()) {
        dot += ai * bi;
        na += ai * ai;
        nb += bi * bi;
    }
    let denom = na.sqrt() * nb.sqrt();
    if denom < f32::EPSILON {
        0.0
    } else {
        dot / denom
    }
}

fn maxsim(query: &[Vec<f32>], doc: &[Vec<f32>]) -> f32 {
    let rows: Vec<Vec<u32>> = query
        .iter()
        .map(|q| doc.iter().map(|d| cosine(q, d).to_bits()).collect())
        .collect();
    best_matches(&rows).iter().map(|b| f32::from_bits(*b)).sum()
}

fn maxsim_by_fold(q: &[Vec<f32>], d: &[Vec<f32>]) -> f32 {
    q.iter()
        .map(|qv| d.iter().map(|dv| cosine(qv, dv)).fold(f32::NEG_INFINITY, f32::max))
        .sum()
}

fn vecs(count: usize, dim: usize, seed: u32) -> Vec<Vec<f32>> {
    let mut s = seed.wrapping_mul(2_654_435_761).wrapping_add(1);
    let mut next = || {
        s ^= s << 13;
        s ^= s >> 17;
        s ^= s << 5;
        (s as f32 / u32::MAX as f32) * 2.0 - 1.0
    };
    (0..count).map(|_| (0..dim).map(|_| next()).collect()).collect()
}

#[test]
fn maxsim_single_query_single_doc() {
    let q = vec![vec![1.0_f32, 0.0, 0.0]];
    let d = vec![vec![1.0_f32, 0.0, 0.0]];
    assert!((maxsim(&q, &d) - 1.0).abs() < 1e-6);
}

#[test]
fn maxsim_picks_best_doc_token() {
    let q = vec![vec![1.0_f32, 0.0]];
    let d = vec![vec![1.0_f32, 0.0], vec![0.0_f32, 1.0]];
    let s = maxsim(&q, &d);
    assert!((s - 1.0).abs() < 1e-5, "expected ~1.0, got {s}");
}

#[test]
fn maxsim_multi_query_sums() {
    let q = vec![vec![1.0_f32, 0.0], vec![0.0_f32, 1.0]];
    let d = vec![vec![1.0_f32, 0.0], vec![0.0_f32, 1.0]];
    let s = maxsim(&q, &d);
    assert!((s - 2.0).abs() < 1e-5, "expected ~2.0, got {s}");
}

#[test]
fn zero_query_token_scores_zero() {
    let q = vec![vec![0.0_f32; 8]];
    let d = vecs(4, 8, 3);
    assert_eq!(maxsim(&q, &d), 0.0);
    assert_eq!(maxsim(&q, &d), maxsim_by_fold(&q, &d));
}

#[test]
fn zero_doc_token_does_not_poison_max() {
    let q = vecs(2, 8, 5);
    let mut d = vecs(3, 8, 11);
    d.push(vec![0.0_f32; 8]);
    assert_eq!(maxsim(&q, &d).to_bits(), maxsim_by_fold(&q, &d).to_bits());
}

#[test]
fn calculate_distance_rejects_mismatched_dimensions() {
    let a = vec![1.0f32, 2.0, 3.0];
    let b = vec![1.0f32, 2.0];
    for metric in [
        DistanceMetric::Euclidean,
        DistanceMetric::Cosine,
        DistanceMetric::DotProduct,
        DistanceMetric::Manhattan,
    ] {
        assert!(check_dimensions(a.len(), b.len()).is_err(), "{metric:?}");
    }
}

#[test]
fn batch_reports_the_first_mismatch() {
    assert_eq!(check_dimensions(3, 3), Ok(()));
    assert_eq!(check_batch(3, &[3, 3]), Ok(()));
    assert_eq!(check_batch(3, &[]), Ok(()));
    assert_eq!(
        check_batch(3, &[3, 4, 2]),
        Err(VectorDbError::InvalidDimensions { expected: 3, actual: 4 })
    );
}

#[test]
fn more_document_tokens_never_match_worse() {
    let sims: Vec<u32> =
        [-0.5f32, 0.25, f32::NAN, 0.0, 0.75, 0.5].iter().map(|x| x.to_bits()).collect();
    let mut before = f32::NEG_INFINITY;
    for n in 0..=sims.len() {
        let best = f32::from_bits(best_match(&sims[..n]));
        assert!(before <= best);
        before = best;
    }
    assert_eq!(before, 0.75);
}
