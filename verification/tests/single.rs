//! Quotients of integers in single precision.
use ruvector::single::{quotient, ratio, round_to_single};

#[test]
fn ratio_divides_like_the_operator() {
    let totals = [
        1usize, 2, 3, 7, 10, 97, 1000, 65_537, 16_777_215, 16_777_216, 16_777_217, 16_777_219,
        33_554_435, 4_294_967_295, 4_294_967_297, 9_007_199_254_740_993, usize::MAX - 1, usize::MAX,
    ];
    for total in totals {
        for hits in totals.iter().copied().chain([0, 5, 12_345_678]) {
            assert_eq!(ratio(hits, total), (hits as f32 / total as f32).to_bits());
        }
    }
}

#[test]
fn rounding_goes_to_the_even_neighbour() {
    assert_eq!(round_to_single(16_777_217), 16_777_216);
    assert_eq!(round_to_single(16_777_219), 16_777_220);
    assert_eq!(round_to_single(16_777_221), 16_777_220);
    assert_eq!(round_to_single(u64::MAX), 1 << 64);
    for m in [0u64, 1, 255, 16_777_215, 123_456_789, 987_654_321_987] {
        assert_eq!(round_to_single(m), m as f32 as u128);
    }
}

#[test]
fn quotients_of_exact_numbers() {
    assert_eq!(quotient(0, 3), 0);
    assert_eq!(quotient(1, 1), 1.0f32.to_bits());
    assert_eq!(quotient(1, 3), (1.0f32 / 3.0).to_bits());
    assert_eq!(quotient(5, 2), 2.5f32.to_bits());
    assert_eq!(quotient(1, 1 << 64), (1.0f32 / 18_446_744_073_709_551_616.0).to_bits());
    assert_eq!(quotient(1 << 64, 3), (18_446_744_073_709_551_616.0f32 / 3.0).to_bits());
}

#[test]
fn shares_grow_with_what_is_counted() {
    for total in [1usize, 3, 10, 1000] {
        for hits in 0..total {
            assert!(ratio(hits, total) < ratio(hits + 1, total));
        }
        assert_eq!(ratio(total, total), 1.0f32.to_bits());
    }
}
