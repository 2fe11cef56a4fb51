use image_to_ascii::{
    convert, map_brightness, render, CharacterSet, ConvertError, Bitmap, Grid, Pixel, Rgba,
};

fn white(n: usize) -> Vec<Pixel> {
    vec![Pixel { r: 255, g: 255, b: 255, a: 255 }; n]
}

#[test]
fn empty_charset_is_refused() {
    let bm = Bitmap::from_pixels(4, 4, white(16)).unwrap();
    let set = CharacterSet::from_entries(Vec::new());
    let r = convert(&bm, 2, true, &set);
    assert!(matches!(r, Err(ConvertError::EmptyCharset)));
}

#[test]
fn zero_desired_width_is_refused() {
    let bm = Bitmap::from_pixels(4, 4, white(16)).unwrap();
    let set = CharacterSet::from_entries(vec![(' ', 0), ('#', 100)]);
    let r = convert(&bm, 0, true, &set);
    assert!(matches!(r, Err(ConvertError::InvalidWidth)));
}

#[test]
fn desired_width_with_zero_sized_cell_is_refused() {
    let bm = Bitmap::from_pixels(4, 4, white(16)).unwrap();
    let set = CharacterSet::from_entries(vec![(' ', 0), ('#', 100)]);
    // Cell height 4 / 3 = 1, cell width 0: invalid.
    let r = convert(&bm, 3, true, &set);
    assert!(matches!(r, Err(ConvertError::InvalidWidth)));
}

#[test]
fn grid_dimensions_follow_the_padding_formula() {
    let bm = Bitmap::from_pixels(10, 10, white(100)).unwrap();
    let set = CharacterSet::from_entries(vec![(' ', 0), ('#', 100)]);
    // Cell height 10 / 2 = 5, cell width 2; padded to 12 x 15.
    let g = convert(&bm, 2, true, &set).ok().unwrap();
    assert_eq!(g.columns, 6);
    assert_eq!(g.rows, 3);
    assert_eq!(g.cells.len(), 18);
}

#[test]
fn map_brightness_rescales_into_the_range() {
    let s = Rgba { r: 0, g: 0, b: 0, a: 400, count: 4 };
    // Opacity 400 / 1020 rescaled into [0, 2_550_000] is exactly 1_000_000.
    assert_eq!(map_brightness(&s, true, 0, 2_550_000), 1_000_000);
    // Luminance 0 rescaled into [7, 9] sticks to the low end.
    assert_eq!(map_brightness(&s, false, 7, 9), 7);
    // A fully opaque sample reaches the high end exactly.
    let opaque = Rgba { r: 1020, g: 0, b: 0, a: 1020, count: 4 };
    assert_eq!(map_brightness(&opaque, true, 10, 999), 999);
}

#[test]
fn white_image_maps_to_the_brightest_character() {
    // A 2 x 2 all-white opaque image at desired width 1: cell height 2,
    // cell width 1, padded to 3 x 4, so 3 columns by 2 rows of cells, every
    // cell the brightest character in white.
    let bm = Bitmap::from_pixels(2, 2, white(4)).unwrap();
    let set = CharacterSet::from_entries(vec![(' ', 0), ('\u{2588}', 2_550_000)]);
    let g = convert(&bm, 1, true, &set).ok().unwrap();
    assert_eq!(g.columns, 3);
    assert_eq!(g.rows, 2);
    assert_eq!(g.cells.len(), 6);
    for (c, color) in &g.cells {
        assert_eq!(*c, '\u{2588}');
        assert_eq!(*color, (255, 255, 255));
    }
    let text = render(&g);
    let style = "\u{1b}[38;5;231m\u{1b}[38;2;255;255;255m";
    let line = format!("{style}\u{2588}\u{2588}\u{2588}\u{1b}[0m\n");
    assert_eq!(text, format!("{line}{line}"));
}

#[test]
fn space_only_charset_maps_everything_to_space() {
    let bm = Bitmap::from_pixels(2, 2, white(4)).unwrap();
    let set = CharacterSet::from_entries(vec![(' ', 0)]);
    let g = convert(&bm, 1, true, &set).ok().unwrap();
    assert_eq!(g.cells.len(), 6);
    for (c, _) in &g.cells {
        assert_eq!(*c, ' ');
    }
    // A row that starts blank and never changes color emits no styling.
    let text = render(&g);
    assert_eq!(text, "   \u{1b}[0m\n   \u{1b}[0m\n");
}

#[test]
fn render_styles_only_color_changes() {
    let g = Grid {
        cells: vec![
            ('a', (1, 1, 1)),
            ('b', (1, 1, 1)),
            ('c', (2, 2, 2)),
        ],
        columns: 3,
        rows: 1,
    };
    let text = render(&g);
    assert_eq!(
        text,
        "\u{1b}[38;5;16m\u{1b}[38;2;1;1;1mab\u{1b}[38;5;16m\u{1b}[38;2;2;2;2mc\u{1b}[0m\n",
    );
}

#[test]
fn render_leaves_a_leading_blank_unstyled() {
    let g = Grid {
        cells: vec![(' ', (5, 5, 5)), ('x', (5, 5, 5))],
        columns: 2,
        rows: 1,
    };
    assert_eq!(render(&g), " x\u{1b}[0m\n");
}
