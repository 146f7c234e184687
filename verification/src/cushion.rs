use vstd::prelude::*;
use crate::palette::{distribute_first, normalized, normalize_fits};

verus! {

/// `x` limited to the range of a colour channel.
pub open spec fn clamp_channel(x: int) -> int {
    if x < 0 {
        0
    } else if x > 255 {
        255
    } else {
        x
    }
}

/// The shaded colour as it is written to the image: normalised as in the
/// palette, then each channel limited to `0..=255`.
pub open spec fn shaded(r: int, g: int, b: int) -> (int, int, int) {
    let n = normalized(r, g, b);
    (clamp_channel(n.0), clamp_channel(n.1), clamp_channel(n.2))
}

fn clamp_i32(x: i32) -> (r: i32)
    ensures
        r as int == clamp_channel(x as int),
{
    if x < 0 {
        0
    } else if x > 255 {
        255
    } else {
        x
    }
}

/// Normalises a shaded colour and limits every channel to `0..=255`.
pub fn normalize_color(red: &mut i32, green: &mut i32, blue: &mut i32)
    requires
        normalize_fits(*old(red) as int, *old(green) as int, *old(blue) as int),
    ensures
        (*final(red) as int, *final(green) as int, *final(blue) as int) == shaded(
            *old(red) as int,
            *old(green) as int,
            *old(blue) as int,
        ),
        0 <= *final(red) <= 255,
        0 <= *final(green) <= 255,
        0 <= *final(blue) <= 255,
{
    if *red > 255 {
        distribute_first(red, green, blue);
    } else if *green > 255 {
        distribute_first(green, red, blue);
    } else if *blue > 255 {
        distribute_first(blue, red, green);
    }
    *red = clamp_i32(*red);
    *green = clamp_i32(*green);
    *blue = clamp_i32(*blue);
}

/// Byte offset of the pixel `(ix, iy)` in an RGBA image `img_width`
/// pixels wide.
pub open spec fn pixel_offset(img_width: int, ix: int, iy: int) -> int {
    (iy * img_width + ix) * 4
}

/// Writes one shaded pixel of a cushion tile: the colour `(red, green,
/// blue)` is normalised and limited to `0..=255` (see `shaded`), then
/// stored with full opacity at the pixel `(ix, iy)`.
pub fn put_shaded_pixel(
    pixels: &mut Vec<u8>,
    img_width: u32,
    ix: u32,
    iy: u32,
    red: i32,
    green: i32,
    blue: i32,
)
    requires
        normalize_fits(red as int, green as int, blue as int),
        pixel_offset(img_width as int, ix as int, iy as int) <= u32::MAX,
        pixel_offset(img_width as int, ix as int, iy as int) + 3 < old(pixels)@.len(),
    ensures
        ({
            let c = shaded(red as int, green as int, blue as int);
            let o = pixel_offset(img_width as int, ix as int, iy as int);
            final(pixels)@ == old(pixels)@.update(o, c.0 as u8).update(o + 1, c.1 as u8).update(
                o + 2,
                c.2 as u8,
            ).update(o + 3, 255u8)
        }),
{
    let mut r = red;
    let mut g = green;
    let mut b = blue;
    normalize_color(&mut r, &mut g, &mut b);
    proof {
        assert(0 <= (iy as int) * (img_width as int)) by (nonlinear_arith);
    }
    let idx = ((iy * img_width + ix) * 4) as usize;
    pixels[idx] = r as u8;
    pixels[idx + 1] = g as u8;
    pixels[idx + 2] = b as u8;
    pixels[idx + 3] = 255;
}

} // verus!
