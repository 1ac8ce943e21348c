use painterly::buf::{reflect101, resize_rgb_bilinear, resize_rgb_cubic, RgbBuf};

#[test]
fn reflect101_inside_is_identity() {
    for n in 1..8isize {
        for i in 0..n {
            assert_eq!(reflect101(i, n), i as usize);
        }
    }
}

#[test]
fn reflect101_mirrors_without_repeating_edge() {
    // 0 1 2 3 4 | 3 2 1 0 1 ...
    assert_eq!(reflect101(-1, 5), 1);
    assert_eq!(reflect101(-2, 5), 2);
    assert_eq!(reflect101(5, 5), 3);
    assert_eq!(reflect101(6, 5), 2);
    assert_eq!(reflect101(9, 5), 1);
    assert_eq!(reflect101(-4, 5), 4);
    assert_eq!(reflect101(-5, 5), 3);
}

#[test]
fn reflect101_single_sample() {
    assert_eq!(reflect101(-7, 1), 0);
    assert_eq!(reflect101(0, 1), 0);
    assert_eq!(reflect101(12, 1), 0);
}

#[test]
fn reflect101_far_outside_is_periodic() {
    // period 2n - 2 = 6 for n = 4
    for i in -30..30isize {
        assert_eq!(reflect101(i, 4), reflect101(i + 6, 4));
        assert_eq!(reflect101(-i, 4), reflect101(i, 4));
        assert!(reflect101(i, 4) < 4);
    }
    assert_eq!(reflect101(1001, 2), 1);
    assert_eq!(reflect101(-1001, 3), 1);
}

#[test]
fn rgbbuf_pixels_round_trip() {
    let mut img = RgbBuf::from_pixel(3, 2, [10, 20, 30]);
    assert_eq!(img.data.len(), 18);
    assert_eq!(img.get_pixel(2, 1), [10, 20, 30]);
    img.put_pixel(1, 1, [1, 2, 3]);
    assert_eq!(img.get_pixel(1, 1), [1, 2, 3]);
    assert_eq!(img.get_pixel(0, 1), [10, 20, 30]);
    assert_eq!(&img.data[12..15], &[1, 2, 3]);
    let black = RgbBuf::new(2, 2);
    assert!(black.data.iter().all(|&b| b == 0));
}

#[test]
fn resize_changes_size() {
    let mut img = RgbBuf::new(4, 4);
    img.put_pixel(0, 0, [255, 255, 255]);
    let big = resize_rgb_bilinear(&img, 8, 6);
    assert_eq!((big.width, big.height), (8, 6));
    assert_eq!(big.data.len(), 8 * 6 * 3);
    let small = resize_rgb_cubic(&img, 2, 3);
    assert_eq!((small.width, small.height), (2, 3));
    assert_eq!(small.data.len(), 2 * 3 * 3);
}

#[test]
fn resize_uniform_image_stays_uniform() {
    let img = RgbBuf::from_pixel(5, 3, [100, 150, 200]);
    let out = resize_rgb_bilinear(&img, 9, 7);
    for p in out.data.chunks(3) {
        assert_eq!(p, &[100, 150, 200]);
    }
    let out = resize_rgb_cubic(&img, 9, 7);
    for p in out.data.chunks(3) {
        assert_eq!(p, &[100, 150, 200]);
    }
}
