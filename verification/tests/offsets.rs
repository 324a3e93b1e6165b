use nalgebra::{DMatrix, DVector};
use skyalign::registration::{all_pairs, build_offset_system};

/// Least-squares solve of the row-major system via the normal-equation
/// pseudo-inverse; `None` when the normal matrix is singular.
fn least_squares(matrix: &[i64], rhs: &[i64], cols: usize) -> Option<Vec<f64>> {
    let rows = rhs.len();
    assert_eq!(matrix.len(), rows * cols);
    let mf: Vec<f64> = matrix.iter().map(|&v| v as f64).collect();
    let a = DMatrix::from_row_slice(rows, cols, &mf);
    let b = DVector::from_vec(rhs.iter().map(|&v| v as f64).collect::<Vec<f64>>());
    let at = a.transpose();
    let normal = &at * &a;
    let inv = normal.try_inverse()?;
    let x = inv * at * b;
    Some(x.iter().cloned().collect())
}

#[test]
fn test_build_offset_system_rows() {
    let obs: Vec<(usize, usize, i64)> = vec![(0, 1, 7), (2, 1, -3)];
    let (matrix, rhs) = build_offset_system(&obs, 3);
    assert_eq!(rhs, vec![0, 7, -3]);
    // Gauge row pinning frame 0, then x0 - x1 = 7, then x2 - x1 = -3.
    let expected: Vec<i64> = vec![1, 0, 0, 1, -1, 0, 0, -1, 1];
    assert_eq!(matrix, expected);
}

/// Consistent observations from a known ground truth with frame 0 at zero
/// are recovered exactly (up to solver round-off) by the least-squares
/// reconciliation.
#[test]
fn test_reconcile_recovers_ground_truth() {
    let truth: Vec<i64> = vec![0, 5, -3, 12, 4];
    let n = truth.len();
    let mut obs: Vec<(usize, usize, i64)> = Vec::new();
    for a in 0..n {
        for b in (a + 1)..n {
            obs.push((a, b, truth[a] - truth[b]));
        }
    }
    let (matrix, rhs) = build_offset_system(&obs, n);
    let x = least_squares(&matrix, &rhs, n).expect("system should be solvable");
    for i in 0..n {
        assert!(
            (x[i] - truth[i] as f64).abs() < 1e-6,
            "frame {}: got {} want {}",
            i,
            x[i],
            truth[i]
        );
    }
}

/// A frame with no incident observation leaves the normal matrix singular.
#[test]
fn test_reconcile_disconnected_is_singular() {
    // Three frames, but frame 2 never appears in an observation.
    let obs: Vec<(usize, usize, i64)> = vec![(0, 1, 4)];
    let (matrix, rhs) = build_offset_system(&obs, 3);
    assert!(least_squares(&matrix, &rhs, 3).is_none());
}

/// Redundant, conflicting observations are averaged by the least-squares
/// solve.
#[test]
fn test_reconcile_averages_conflicts() {
    // Two measurements of the same pair disagree by 2; the solve splits
    // the difference.
    let obs: Vec<(usize, usize, i64)> = vec![(0, 1, 6), (0, 1, 8)];
    let (matrix, rhs) = build_offset_system(&obs, 2);
    let x = least_squares(&matrix, &rhs, 2).expect("solvable");
    assert!(x[0].abs() < 1e-9);
    assert!((x[1] - (-7.0)).abs() < 1e-9);
}

#[test]
fn test_all_pairs() {
    assert_eq!(all_pairs(0), vec![]);
    assert_eq!(all_pairs(1), vec![]);
    assert_eq!(all_pairs(4), vec![(0, 1), (0, 2), (0, 3), (1, 2), (1, 3), (2, 3)]);
}
