use skyalign::alg::{isqrt, mean, mean_stdev, stdev};

/// A small deterministic pseudo-random generator for test data.
fn lcg(state: &mut u64) -> u64 {
    *state = state.wrapping_mul(6364136223846793005).wrapping_add(1442695040888963407);
    *state >> 33
}

/// The single-pass moments must match the two-pass computation exactly:
/// with integer samples both passes are free of rounding, so the scaled sum
/// of squared deviations equals `count * (count * sum_sq - sum^2)` to the
/// last digit.
#[test]
fn test_mean_stdev() {
    let mut state: u64 = 12345;
    for _ in 0..100 {
        let samples: Vec<i64> = (0..100).map(|_| (lcg(&mut state) % 65536) as i64).collect();
        let m = mean(&samples);
        let d = stdev(m, &samples);
        let stats = mean_stdev(&samples);
        let n = stats.count as i128;
        assert_eq!(m.0, stats.sum);
        assert_eq!(m.1, stats.count);
        let var_num = n * stats.sum_sq - stats.sum * stats.sum;
        assert_eq!(d, n * var_num);
        assert!(var_num >= 0);
    }
}

#[test]
fn test_mean_stdev_exact_values() {
    let samples: Vec<i64> = vec![2, 4, 4, 4, 5, 5, 7, 9];
    let stats = mean_stdev(&samples);
    assert_eq!(stats.count, 8);
    assert_eq!(stats.sum, 40);
    assert_eq!(stats.sum_sq, 232);
    // mean = 5, population variance = 4, stdev = 2.
    let var_num = 8 * stats.sum_sq - stats.sum * stats.sum;
    assert_eq!(var_num, 8 * 8 * 4);
    assert_eq!(isqrt((var_num / (8 * 8)) as u128), 2);
}

#[test]
fn test_isqrt() {
    assert_eq!(isqrt(0), 0);
    assert_eq!(isqrt(1), 1);
    assert_eq!(isqrt(3), 1);
    assert_eq!(isqrt(4), 2);
    assert_eq!(isqrt(15), 3);
    assert_eq!(isqrt(16), 4);
    assert_eq!(isqrt(65535 * 65535), 65535);
    assert_eq!(isqrt(u128::MAX), u64::MAX);
    assert_eq!(isqrt((1u128 << 84) - 1), (1u64 << 42) - 1);
}
