use skyalign::image::Image;
use skyalign::starfinder::find_stars;

/// A small deterministic pseudo-random generator for test data.
fn lcg(state: &mut u64) -> u64 {
    *state = state.wrapping_mul(6364136223846793005).wrapping_add(1442695040888963407);
    *state >> 33
}

/// Injecting one isolated bright blob with a symmetric profile into a flat
/// noisy frame recovers a single star whose exact rational centroid is the
/// blob centre.
#[test]
fn test_find_star_centroid() {
    let (w, h) = (64usize, 64usize);
    let (cx, cy) = (31usize, 40usize);
    let mut state: u64 = 7;
    // Flat background noise well below the blob.
    let mut data: Vec<i64> = (0..w * h).map(|_| 90 + (lcg(&mut state) % 21) as i64).collect();
    // A symmetric 13-pixel blob: bright centre, two dimmer rings.
    for dy in -2i64..=2 {
        for dx in -2i64..=2 {
            let r = dx.abs() + dy.abs();
            if r <= 2 {
                let v = match r {
                    0 => 60000,
                    1 => 50000,
                    _ => 40000,
                };
                let x = (cx as i64 + dx) as usize;
                let y = (cy as i64 + dy) as usize;
                data[y * w + x] = v;
            }
        }
    }
    // Recompute the detector's exact integer quantities independently:
    // floor = (sum + isqrt(9 * (n * sum_sq - sum^2))) / n, clip the same
    // square root over n, flux = net flux + pixel count * clip.
    let n = (w * h) as i128;
    let sum: i128 = data.iter().map(|&v| v as i128).sum();
    let sum_sq: i128 = data.iter().map(|&v| (v as i128) * (v as i128)).sum();
    let nine_var = 9 * (n * sum_sq - sum * sum);
    let mut rt: i128 = 0;
    while (rt + 1) * (rt + 1) <= nine_var {
        rt += 1;
    }
    let floor = ((sum + rt) / n) as i64;
    let clip = (rt / n) as i64;
    let blob: Vec<(usize, usize, i64)> = (0..w * h)
        .filter(|&i| data[i] > floor)
        .map(|i| (i % w, i / w, data[i] - floor))
        .collect();
    assert_eq!(blob.len(), 13);
    let den: i64 = blob.iter().map(|&(_, _, f)| f).sum();
    let xnum: i64 = blob.iter().map(|&(x, _, f)| x as i64 * f).sum();
    let ynum: i64 = blob.iter().map(|&(_, y, f)| y as i64 * f).sum();

    let img = Image::new(data, (w, h));
    let stars = find_stars(&img);
    assert_eq!(stars.len(), 1);
    let s = &stars[0];
    assert_eq!(s.x.den, den);
    assert_eq!(s.y.den, den);
    assert_eq!(s.x.num, xnum);
    assert_eq!(s.y.num, ynum);
    assert_eq!(s.flux, den + 13 * clip);
    // The exact rational centroid is the blob centre.
    assert_eq!(s.x.num, cx as i64 * s.x.den);
    assert_eq!(s.y.num, cy as i64 * s.y.den);
}

/// Regions outside the 5..=100 pixel size window yield no star.
#[test]
fn test_find_star_size_filter() {
    let (w, h) = (64usize, 64usize);
    let mut data: Vec<i64> = vec![100; w * h];
    // A lone hot pixel: too small to be a star.
    data[5 * w + 5] = 60000;
    // A big saturated block of 11 x 11 = 121 pixels: too large.
    for y in 15..26 {
        for x in 15..26 {
            data[y * w + x] = 60000;
        }
    }
    let img = Image::new(data, (w, h));
    let stars = find_stars(&img);
    assert_eq!(stars.len(), 0);
}
