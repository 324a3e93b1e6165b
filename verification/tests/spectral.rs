use nalgebra::{DMatrix, DVector};
use rustfft::num_complex::Complex;
use rustfft::FftPlanner;
use skyalign::correlate::peak_offset;
use skyalign::image::Image;
use skyalign::registration::{all_pairs, build_offset_system};

type C64 = Complex<f64>;

/// A small deterministic pseudo-random generator for test data.
fn lcg(state: &mut u64) -> u64 {
    *state = state.wrapping_mul(6364136223846793005).wrapping_add(1442695040888963407);
    *state >> 33
}

/// A synthetic sky frame: randomly placed Gaussian blobs over a flat
/// background, smooth on the torus.  Band-limited frames keep the
/// correlation peak wider than one pixel, which the 3x3 median filter of
/// the correlator assumes; noise that is flat out to the Nyquist frequency
/// would collapse the peak to a single pixel that the filter removes.
fn noise_frame(w: usize, h: usize, seed: u64) -> Image<f64> {
    let mut state = seed;
    let stars: Vec<(f64, f64, f64)> = (0..10)
        .map(|_| {
            let sx = (lcg(&mut state) % (w as u64)) as f64;
            let sy = (lcg(&mut state) % (h as u64)) as f64;
            let amp = 0.1 + (lcg(&mut state) % 100) as f64 / 1000.0;
            (sx, sy, amp)
        })
        .collect();
    let sigma2 = 2.0 * 8.0 * 8.0;
    let mut data = Vec::with_capacity(w * h);
    for y in 0..h {
        for x in 0..w {
            let mut v = 0.05;
            for &(sx, sy, amp) in stars.iter() {
                let dx = (x as f64 - sx).abs().min(w as f64 - (x as f64 - sx).abs());
                let dy = (y as f64 - sy).abs().min(h as f64 - (y as f64 - sy).abs());
                v += amp * (-(dx * dx + dy * dy) / sigma2).exp();
            }
            data.push(v.min(1.0));
        }
    }
    Image::new(data, (w, h))
}

/// The frame shifted circularly by `(sx, sy)`: the copy sits at `+s`
/// relative to the original.
fn shift_frame(img: &Image<f64>, sx: i64, sy: i64) -> Image<f64> {
    let (w, h) = img.size;
    let mut data = Vec::with_capacity(w * h);
    for y in 0..h {
        for x in 0..w {
            let ox = (x as i64 - sx).rem_euclid(w as i64) as usize;
            let oy = (y as i64 - sy).rem_euclid(h as i64) as usize;
            data.push(img.get(ox, oy));
        }
    }
    Image::new(data, (w, h))
}

fn to_complex(img: &Image<f64>) -> Image<C64> {
    Image::new(
        img.data.iter().map(|&v| C64::new(v, 0.0)).collect(),
        img.size,
    )
}

/// Runs a 1D FFT over every row of the grid, in place.
fn fft_rows(img: &mut Image<C64>, inverse: bool) {
    let w = img.size.0;
    let mut planner = FftPlanner::new();
    let plan = if inverse {
        planner.plan_fft_inverse(w)
    } else {
        planner.plan_fft_forward(w)
    };
    for y in 0..img.size.1 {
        plan.process(&mut img.data[y * w..(y + 1) * w]);
    }
}

/// The 2D FFT as row transforms and transposes, as the correlator builds
/// it.
fn fft2d(img: &Image<C64>, inverse: bool) -> Image<C64> {
    let mut res = img.transpose();
    fft_rows(&mut res, inverse);
    let mut res = res.transpose();
    fft_rows(&mut res, inverse);
    res
}

/// The normalized cross-power spectrum, with near-zero magnitudes guarded
/// to zero.
fn cross_power(a: &Image<C64>, b: &Image<C64>) -> Image<C64> {
    assert_eq!(a.size, b.size);
    let data: Vec<C64> = a
        .data
        .iter()
        .zip(b.data.iter())
        .map(|(&x, &y)| {
            let prod = x * y.conj();
            let norm = prod.norm();
            if norm > 1e-8 {
                prod / norm
            } else {
                C64::new(0.0, 0.0)
            }
        })
        .collect();
    Image::new(data, a.size)
}

/// The full phase-correlation estimate: the translation that aligns
/// `b` onto `a`.
fn correlate(a: &Image<f64>, b: &Image<f64>) -> (i64, i64) {
    let fa = fft2d(&to_complex(a), false);
    let fb = fft2d(&to_complex(b), false);
    let cross = cross_power(&fa, &fb);
    let surf = fft2d(&cross, true);
    let scaled: Vec<i64> = surf.data.iter().map(|c| (c.re * 1000.0).round() as i64).collect();
    let surface = Image::new(scaled, surf.size);
    let filtered = surface.median_filter();
    peak_offset(&filtered)
}

/// Least-squares solve via the normal-equation pseudo-inverse.
fn solve(matrix: &[i64], rhs: &[i64], cols: usize) -> Vec<f64> {
    let rows = rhs.len();
    let mf: Vec<f64> = matrix.iter().map(|&v| v as f64).collect();
    let a = DMatrix::from_row_slice(rows, cols, &mf);
    let b = DVector::from_vec(rhs.iter().map(|&v| v as f64).collect::<Vec<f64>>());
    let at = a.transpose();
    let x = (&at * &a).try_inverse().expect("singular system") * at * b;
    x.iter().cloned().collect()
}

/// Correlating a frame against itself returns (0, 0).
#[test]
fn test_correlate_self_is_zero() {
    let frame = noise_frame(64, 64, 99);
    assert_eq!(correlate(&frame, &frame), (0, 0));
}

/// A copy shifted by a known integer offset with wraparound is recovered
/// exactly, with offsets past the half dimension unwrapped to negative
/// values.  Aligning the shifted copy back onto the original takes the
/// opposite translation.
#[test]
fn test_correlate_known_shift() {
    let frame = noise_frame(64, 64, 4242);
    let cases: [(i64, i64); 4] = [(5, -3), (-7, 2), (20, 30), (-30, -10)];
    for &(sx, sy) in cases.iter() {
        let shifted = shift_frame(&frame, sx, sy);
        assert_eq!(correlate(&frame, &shifted), (-sx, -sy), "shift ({}, {})", sx, sy);
    }
}

/// Unwrapping alone: a single spike placed at a wrapped coordinate is
/// reported as the signed offset it encodes.
#[test]
fn test_peak_offset_unwrap() {
    let (w, h) = (16usize, 16usize);
    let mut data = vec![0i64; w * h];
    // A spike at (14, 3): x is past the half width and unwraps to -2.
    data[3 * w + 14] = 50;
    let surface = Image::new(data, (w, h));
    assert_eq!(peak_offset(&surface), (-2, 3));
    // A spike exactly at the half width stays positive.
    let mut data = vec![0i64; w * h];
    data[5 * w + 8] = 50;
    let surface = Image::new(data, (w, h));
    assert_eq!(peak_offset(&surface), (8, 5));
}

/// End to end: three frames, the second equal to the first and the third a
/// shifted copy; pairwise correlation feeds the gauge-fixed least-squares
/// reconciliation, which pins frame 0 at zero and recovers the shift.
#[test]
fn test_end_to_end_three_frames() {
    let f0 = noise_frame(64, 64, 31337);
    let f1 = noise_frame(64, 64, 31337);
    let f2 = shift_frame(&f0, 5, -3);
    let frames = [f0, f1, f2];
    let pairs = all_pairs(frames.len());
    let mut obs_x: Vec<(usize, usize, i64)> = Vec::new();
    let mut obs_y: Vec<(usize, usize, i64)> = Vec::new();
    for &(a, b) in pairs.iter() {
        let (dx, dy) = correlate(&frames[a], &frames[b]);
        obs_x.push((a, b, dx));
        obs_y.push((a, b, dy));
    }
    let (mx, rx) = build_offset_system(&obs_x, frames.len());
    let (my, ry) = build_offset_system(&obs_y, frames.len());
    let gx = solve(&mx, &rx, frames.len());
    let gy = solve(&my, &ry, frames.len());
    let want = [(0.0, 0.0), (0.0, 0.0), (5.0, -3.0)];
    for i in 0..3 {
        assert!((gx[i] - want[i].0).abs() < 1e-6, "frame {} x: {}", i, gx[i]);
        assert!((gy[i] - want[i].1).abs() < 1e-6, "frame {} y: {}", i, gy[i]);
    }
}

/// Among equal maxima the peak search returns the first in row-major
/// order.
#[test]
fn test_find_peak_first_of_equals() {
    let mut data = vec![0i64; 16];
    data[1 * 4 + 2] = 9;
    data[3 * 4 + 1] = 9;
    let surface = Image::new(data, (4, 4));
    assert_eq!(surface.find_peak(), (2, 1));
}
