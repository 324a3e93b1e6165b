use skyalign::alg::{components, floodfind};
use skyalign::image::Image;

fn adjacent(a: (usize, usize), b: (usize, usize)) -> bool {
    (a.0 == b.0 && (a.1 + 1 == b.1 || b.1 + 1 == a.1))
        || (a.1 == b.1 && (a.0 + 1 == b.0 || b.0 + 1 == a.0))
}

/// Checks the partition properties on a concrete mask: every true pixel in
/// exactly one region, only true pixels listed, regions 4-connected.
fn check_partition(mask: &Image<bool>, regions: &[Vec<(usize, usize)>]) {
    let (w, h) = mask.size;
    let mut seen: Vec<usize> = vec![0; w * h];
    for region in regions {
        assert!(!region.is_empty());
        for (i, &p) in region.iter().enumerate() {
            assert!(p.0 < w && p.1 < h);
            assert!(mask.get(p.0, p.1));
            seen[p.1 * w + p.0] += 1;
            if i > 0 {
                assert!(region[..i].iter().any(|&q| adjacent(q, p)));
            }
        }
    }
    for y in 0..h {
        for x in 0..w {
            let expect = if mask.get(x, y) { 1 } else { 0 };
            assert_eq!(seen[y * w + x], expect, "pixel ({}, {})", x, y);
        }
    }
}

#[test]
fn test_components_partition() {
    // Two L-shaped regions and one isolated pixel; diagonal contact does
    // not join regions.
    let rows: [[u8; 5]; 4] = [
        [1, 1, 0, 0, 1],
        [0, 1, 0, 1, 0],
        [0, 1, 0, 1, 1],
        [0, 0, 0, 0, 1],
    ];
    let data: Vec<bool> = rows.iter().flatten().map(|&v| v == 1).collect();
    let mask = Image::new(data, (5, 4));
    let regions = components(&mask);
    assert_eq!(regions.len(), 3);
    check_partition(&mask, &regions);
}

#[test]
fn test_components_empty_and_full() {
    let empty = Image::new(vec![false; 12], (4, 3));
    assert!(components(&empty).is_empty());

    let full = Image::new(vec![true; 12], (4, 3));
    let regions = components(&full);
    assert_eq!(regions.len(), 1);
    assert_eq!(regions[0].len(), 12);
    check_partition(&full, &regions);
}

#[test]
fn test_floodfind_predicate() {
    let img = Image::new(vec![3i64, 9, 1, 9, 9, 1, 1, 9, 2], (3, 3));
    let regions = floodfind(&img, |v| v > 4);
    // Pixels above 4: (1,0), (0,1), (1,1), (1,2): one 4-connected region.
    let mask = Image::new(
        (0..9).map(|i| img.data[i] > 4).collect::<Vec<bool>>(),
        (3, 3),
    );
    check_partition(&mask, &regions);
    assert_eq!(regions.len(), 1);
    assert_eq!(regions[0].len(), 4);
}

#[test]
fn test_floodfind_single_pixels() {
    // A checkerboard has no 4-connected true neighbours at all.
    let data: Vec<i64> = (0..16).map(|i| ((i / 4) + i) % 2).collect();
    let img = Image::new(data, (4, 4));
    let regions = floodfind(&img, |v| v == 1);
    assert_eq!(regions.len(), 8);
    for r in &regions {
        assert_eq!(r.len(), 1);
    }
}
