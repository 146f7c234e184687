use rustdirstat::palette::{bright_color_from_channels, distribute_first, normalize_color, DEFAULT_CUSHION_COLORS, FALLBACK_COLOR};

#[test]
fn normalize_spreads_blue_excess() {
    let (mut r, mut g, mut b) = (0, 0, 459);
    normalize_color(&mut r, &mut g, &mut b);
    assert_eq!((r, g, b), (102, 102, 255));
}

#[test]
fn normalize_spreads_red_excess() {
    let (mut r, mut g, mut b) = (300, 10, 20);
    normalize_color(&mut r, &mut g, &mut b);
    assert_eq!((r, g, b), (255, 32, 42));
}

#[test]
fn normalize_passes_overflow_on() {
    let (mut r, mut g, mut b) = (600, 200, 100);
    normalize_color(&mut r, &mut g, &mut b);
    assert_eq!((r, g, b), (255, 255, 389));
}

#[test]
fn normalize_leaves_valid_colour() {
    let (mut r, mut g, mut b) = (10, 255, 0);
    normalize_color(&mut r, &mut g, &mut b);
    assert_eq!((r, g, b), (10, 255, 0));
}

#[test]
fn normalize_only_first_large_channel_is_clipped() {
    let (mut r, mut g, mut b) = (100, 300, 400);
    normalize_color(&mut r, &mut g, &mut b);
    // green is the first channel above 255: its excess 45 gives 22 to each
    // other channel, and blue then passes its own excess on to red
    assert_eq!((r, g, b), (100 + 22 + (422 - 255), 255, 255));
}

#[test]
fn distribute_first_passes_excess_to_third() {
    let (mut a, mut b, mut c) = (301, 250, 0);
    distribute_first(&mut a, &mut b, &mut c);
    assert_eq!((a, b, c), (255, 255, 41));
}

#[test]
fn distribute_first_passes_excess_to_second() {
    let (mut a, mut b, mut c) = (301, 0, 250);
    distribute_first(&mut a, &mut b, &mut c);
    assert_eq!((a, b, c), (255, 41, 255));
}

#[test]
fn normalize_keeps_brightness_example() {
    let (mut r, mut g, mut b) = (0, 0, 459);
    normalize_color(&mut r, &mut g, &mut b);
    assert_eq!(r + g + b, 459);
    let (mut r, mut g, mut b) = (0, 0, 458);
    normalize_color(&mut r, &mut g, &mut b);
    assert_eq!(r + g + b, 457);
}

#[test]
fn bright_colour_from_scaled_channels() {
    assert_eq!(bright_color_from_channels(0, 0, 458), [101, 101, 255]);
    assert_eq!(bright_color_from_channels(153, 153, 153), [153, 153, 153]);
    assert_eq!(bright_color_from_channels(0, 0, 0), [0, 0, 0]);
}

#[test]
fn palette_constants() {
    assert_eq!(DEFAULT_CUSHION_COLORS.len(), 18);
    assert_eq!(DEFAULT_CUSHION_COLORS[0], [0, 0, 255]);
    assert_eq!(DEFAULT_CUSHION_COLORS[17], [255, 255, 255]);
    assert_eq!(FALLBACK_COLOR, [128, 128, 128]);
}
