use skyalign::image::{offset, Image, Range2d};

#[test]
fn test_image_new_get_set() {
    let data: Vec<i64> = vec![1, 2, 3, 4, 5, 6];
    let mut img = Image::new(data, (3, 2));
    assert_eq!(img.get(0, 0), 1);
    assert_eq!(img.get(2, 0), 3);
    assert_eq!(img.get(0, 1), 4);
    assert_eq!(img.get(2, 1), 6);
    img.set(1, 1, 42);
    assert_eq!(img.get(1, 1), 42);
    assert_eq!(img.get(1, 0), 2);
}

#[test]
fn test_new_val_and_zero() {
    let img: Image<i64> = Image::new_val(7, (4, 3));
    for y in 0..3 {
        for x in 0..4 {
            assert_eq!(img.get(x, y), 7);
        }
    }
    let z: Image<i64> = Image::zero((2, 2));
    assert_eq!(z.get(0, 0), z.get(1, 1));
}

#[test]
fn test_get_clamped() {
    let img = Image::new(vec![1i64, 2, 3, 4], (2, 2));
    assert_eq!(img.get_clamped(-5, -5), 1);
    assert_eq!(img.get_clamped(0, 0), 1);
    assert_eq!(img.get_clamped(7, 0), 2);
    assert_eq!(img.get_clamped(0, 9), 3);
    assert_eq!(img.get_clamped(9, 9), 4);
}

#[test]
fn test_get_wrapped() {
    let img = Image::new(vec![1i64, 2, 3, 4, 5, 6], (3, 2));
    assert_eq!(img.get_wrapped(3, 2), 1);
    assert_eq!(img.get_wrapped(-1, 0), 3);
    assert_eq!(img.get_wrapped(-3, -1), 4);
    assert_eq!(img.get_wrapped(4, -1), 5);
}

#[test]
fn test_mid_left_right_up_down() {
    let img = Image::new(vec![1i64, 2, 3, 4, 5, 6, 7, 8, 9], (3, 3));
    let (mid, left, right, up, down) = img.mid_left_right_up_down((1, 1));
    assert_eq!((mid, left, right, up, down), (5, 4, 6, 2, 8));
    // Border positions replicate the centre value.
    let (mid, left, right, up, down) = img.mid_left_right_up_down((0, 0));
    assert_eq!((mid, left, right, up, down), (1, 1, 2, 1, 4));
    let (mid, left, right, up, down) = img.mid_left_right_up_down((2, 2));
    assert_eq!((mid, left, right, up, down), (9, 8, 9, 6, 9));
}

#[test]
fn test_offset() {
    assert_eq!(offset((1, 1), (1, 0), (3, 3)), Some((2, 1)));
    assert_eq!(offset((1, 1), (-1, -1), (3, 3)), Some((0, 0)));
    assert_eq!(offset((0, 0), (-1, 0), (3, 3)), None);
    assert_eq!(offset((2, 2), (1, 0), (3, 3)), None);
    assert_eq!(offset((2, 2), (0, 1), (3, 3)), None);
}

#[test]
fn test_iter_index_row_major() {
    let img: Image<i64> = Image::new_val(0, (3, 2));
    let idx = img.iter_index();
    assert_eq!(idx, vec![(0, 0), (1, 0), (2, 0), (0, 1), (1, 1), (2, 1)]);
}

#[test]
fn test_range2d() {
    let mut r = Range2d::new((2, 2));
    assert_eq!(r.next(), Some((0, 0)));
    assert_eq!(r.next(), Some((1, 0)));
    assert_eq!(r.next(), Some((0, 1)));
    assert_eq!(r.next(), Some((1, 1)));
    assert_eq!(r.next(), None);
}

#[test]
fn test_transpose() {
    let img = Image::new(vec![1i64, 2, 3, 4, 5, 6], (3, 2));
    let t = img.transpose();
    assert_eq!(t.size, (2, 3));
    for y in 0..2 {
        for x in 0..3 {
            assert_eq!(t.get(y, x), img.get(x, y));
        }
    }
}

#[test]
fn test_median_filter_exact() {
    let img = Image::new(vec![1i64, 2, 3, 4, 5, 6, 7, 8, 9], (3, 3));
    let filtered = img.median_filter();
    assert_eq!(filtered.size, (3, 3));
    assert_eq!(filtered.data, vec![2, 3, 3, 4, 5, 6, 7, 7, 8]);
}

#[test]
fn test_median_filter_removes_spike() {
    // A lone hot sample in a flat grid is replaced by the background.
    let mut data = vec![10i64; 25];
    data[12] = 1000;
    let img = Image::new(data, (5, 5));
    let filtered = img.median_filter();
    assert_eq!(filtered.data, vec![10; 25]);
}
