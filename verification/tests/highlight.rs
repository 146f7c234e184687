use rustdirstat::highlight::{draw_selection_border, selected_tile};

fn pixel(p: &[u8], width: usize, x: usize, y: usize) -> [u8; 4] {
    let i = (y * width + x) * 4;
    [p[i], p[i + 1], p[i + 2], p[i + 3]]
}

#[test]
fn border_is_two_pixels_wide() {
    let mut pixels = vec![0u8; 6 * 6 * 4];
    draw_selection_border(&mut pixels, 6, 6, 0, 0, 6, 6);
    for y in 0..6 {
        for x in 0..6 {
            let inside = (2..4).contains(&x) && (2..4).contains(&y);
            let expected = if inside { [0, 0, 0, 0] } else { [255, 255, 255, 255] };
            assert_eq!(pixel(&pixels, 6, x, y), expected, "pixel ({x}, {y})");
        }
    }
}

#[test]
fn border_of_a_tile_inside_the_image() {
    let mut pixels = vec![0u8; 8 * 8 * 4];
    draw_selection_border(&mut pixels, 8, 8, 2, 1, 7, 7);
    assert_eq!(pixel(&pixels, 8, 2, 1), [255; 4]);
    assert_eq!(pixel(&pixels, 8, 6, 6), [255; 4]);
    assert_eq!(pixel(&pixels, 8, 4, 4), [0; 4]);
    assert_eq!(pixel(&pixels, 8, 1, 1), [0; 4]);
    assert_eq!(pixel(&pixels, 8, 7, 3), [0; 4]);
    assert_eq!(pixel(&pixels, 8, 3, 3), [255; 4]);
}

#[test]
fn box_is_limited_to_the_image() {
    let mut pixels = vec![0u8; 4 * 4 * 4];
    draw_selection_border(&mut pixels, 4, 4, 10, 10, 20, 20);
    // left and top are pulled back to the last column and row
    assert_eq!(pixel(&pixels, 4, 3, 3), [255; 4]);
    assert_eq!(pixel(&pixels, 4, 0, 0), [0; 4]);
}

#[test]
fn short_buffer_is_not_overrun() {
    let mut pixels = vec![0u8; 10];
    draw_selection_border(&mut pixels, 4, 4, 0, 0, 4, 4);
    assert_eq!(pixels.len(), 10);
    assert_eq!(&pixels[0..8], &[255; 8]);
    assert_eq!(&pixels[8..10], &[0, 0]);
}

#[test]
fn the_first_tile_of_the_selected_node_is_found() {
    let nodes = vec![7, 3, 9, 3];
    assert_eq!(selected_tile(&nodes, 3), Some(1));
    assert_eq!(selected_tile(&nodes, 9), Some(2));
    assert_eq!(selected_tile(&nodes, 4), None);
    assert_eq!(selected_tile(&Vec::new(), 4), None);
}
