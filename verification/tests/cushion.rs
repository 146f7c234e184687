use rustdirstat::cushion::{normalize_color, put_shaded_pixel};

#[test]
fn shaded_colour_is_clamped() {
    let (mut r, mut g, mut b) = (600, 200, 100);
    normalize_color(&mut r, &mut g, &mut b);
    assert_eq!((r, g, b), (255, 255, 255));
    let (mut r, mut g, mut b) = (-5, 10, 300);
    normalize_color(&mut r, &mut g, &mut b);
    assert_eq!((r, g, b), (17, 32, 255));
    let (mut r, mut g, mut b) = (-7, 40, 3);
    normalize_color(&mut r, &mut g, &mut b);
    assert_eq!((r, g, b), (0, 40, 3));
}

#[test]
fn pixel_is_written_at_its_offset() {
    let mut pixels = vec![0u8; 4 * 4 * 4];
    put_shaded_pixel(&mut pixels, 4, 1, 2, 0, 0, 459);
    assert_eq!(&pixels[36..40], &[102, 102, 255, 255]);
    assert!(pixels[..36].iter().all(|&p| p == 0));
    assert!(pixels[40..].iter().all(|&p| p == 0));
}
