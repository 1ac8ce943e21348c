use painterly::color::rgb_to_hsv;

#[test]
fn hsv_primaries() {
    assert_eq!(rgb_to_hsv([255, 0, 0]), [0, 255, 255]);
    assert_eq!(rgb_to_hsv([0, 255, 0]), [60, 255, 255]);
    assert_eq!(rgb_to_hsv([0, 0, 255]), [120, 255, 255]);
    assert_eq!(rgb_to_hsv([255, 255, 0]), [30, 255, 255]);
    assert_eq!(rgb_to_hsv([0, 255, 255]), [90, 255, 255]);
    assert_eq!(rgb_to_hsv([255, 0, 255]), [150, 255, 255]);
}

#[test]
fn hsv_greys() {
    assert_eq!(rgb_to_hsv([0, 0, 0]), [0, 0, 0]);
    assert_eq!(rgb_to_hsv([128, 128, 128]), [0, 0, 128]);
    assert_eq!(rgb_to_hsv([255, 255, 255]), [0, 0, 255]);
}

#[test]
fn hsv_rounding() {
    // s = 255 * 50 / 200 = 63.75 -> 64; h = 60 * 50 / 50 / 2 -> 30
    assert_eq!(rgb_to_hsv([200, 200, 150]), [30, 64, 200]);
    // hue wraps: red max with blue above green gives 360 - 60 * (b - g) / c
    // c = 100, h = 360 - 60 * 10 / 100 = 354 -> 177
    assert_eq!(rgb_to_hsv([200, 100, 110]), [177, 128, 200]);
    // exact half rounds up: s = 255 * 1 / 2 = 127.5 -> 128
    assert_eq!(rgb_to_hsv([2, 1, 1]), [0, 128, 2]);
    // hue just under 360 degrees (359.06) halves to 179.53 and rounds to 180
    assert_eq!(rgb_to_hsv([255, 0, 4]), [180, 255, 255]);
}

#[test]
fn hsv_value_is_max_channel_everywhere() {
    for r in (0..=255u16).step_by(15) {
        for g in (0..=255u16).step_by(17) {
            for b in (0..=255u16).step_by(51) {
                let (r, g, b) = (r as u8, g as u8, b as u8);
                let hsv = rgb_to_hsv([r, g, b]);
                assert_eq!(hsv[2], r.max(g).max(b));
                assert!(hsv[0] <= 180);
                assert_eq!(hsv[1] == 0, r == g && g == b);
            }
        }
    }
}
