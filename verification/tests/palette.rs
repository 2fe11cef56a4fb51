use image_to_ascii::rgb_to_ansi256;

#[test]
fn black_maps_to_palette_black() {
    assert_eq!(rgb_to_ansi256(0, 0, 0), 16);
}

#[test]
fn white_maps_to_palette_white() {
    assert_eq!(rgb_to_ansi256(255, 255, 255), 231);
}

#[test]
fn dark_greys_collapse_to_black() {
    assert_eq!(rgb_to_ansi256(8, 8, 8), 16);
    assert_eq!(rgb_to_ansi256(1, 1, 1), 16);
}

#[test]
fn light_greys_collapse_to_white() {
    assert_eq!(rgb_to_ansi256(249, 249, 249), 231);
    assert_eq!(rgb_to_ansi256(254, 254, 254), 231);
}

#[test]
fn grey_ramp_boundaries() {
    // First value past the black cutoff lands on the first ramp entry.
    assert_eq!(rgb_to_ansi256(9, 9, 9), 232);
    // Last value before the white cutoff lands on the last ramp entry.
    assert_eq!(rgb_to_ansi256(248, 248, 248), 255);
}

#[test]
fn grey_ramp_representatives_round_trip() {
    // Representative value of ramp step k is 8 + round(247 k / 24).
    // Step 1: value 18; step 12: value 132; step 23: value 245.
    assert_eq!(rgb_to_ansi256(18, 18, 18), 233);
    assert_eq!(rgb_to_ansi256(132, 132, 132), 244);
    assert_eq!(rgb_to_ansi256(245, 245, 245), 255);
}

#[test]
fn chromatic_colors_use_the_cube() {
    // Pure red: level 5 on red only.
    assert_eq!(rgb_to_ansi256(255, 0, 0), 196);
    // Pure blue: level 5 on blue only.
    assert_eq!(rgb_to_ansi256(0, 0, 255), 21);
    // 128 quantizes to level 3 (128 / 255 * 5 = 2.51).
    assert_eq!(rgb_to_ansi256(128, 128, 0), 142);
}
