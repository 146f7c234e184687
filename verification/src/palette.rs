use vstd::prelude::*;

verus! {

/// The base colours of the cushion palette, one per extension rank.
pub const DEFAULT_CUSHION_COLORS: [[u8; 3]; 18] = [
    [0, 0, 255],
    [255, 0, 0],
    [0, 255, 0],
    [255, 255, 0],
    [0, 255, 255],
    [255, 0, 255],
    [255, 170, 0],
    [0, 85, 255],
    [255, 0, 85],
    [85, 255, 0],
    [170, 0, 255],
    [0, 255, 85],
    [255, 0, 170],
    [0, 170, 255],
    [255, 85, 0],
    [0, 255, 170],
    [85, 0, 255],
    [255, 255, 255],
];

/// The colour of a tile whose extension has no palette entry.
pub const FALLBACK_COLOR: [u8; 3] = [128, 128, 128];

/// The channel triple after the excess of `first` above 255 has been
/// handed out: `first` becomes 255, half of the excess (rounded toward
/// zero) goes to each of `second` and `third`, and whatever then lifts
/// one of those two above 255 is passed on to the other.
pub open spec fn spread(first: int, second: int, third: int) -> (int, int, int) {
    let h = (first - 255) / 2;
    let s = second + h;
    let t = third + h;
    if s > 255 {
        (255, 255, t + (s - 255))
    } else if t > 255 {
        (255, s + (t - 255), 255)
    } else {
        (255, s, t)
    }
}

/// `spread(first, second, third)` can be computed in `i32` without overflow.
pub open spec fn spread_fits(first: int, second: int, third: int) -> bool {
    let h = (first - 255) / 2;
    let s = second + h;
    let t = third + h;
    &&& i32::MIN <= s <= i32::MAX
    &&& i32::MIN <= t <= i32::MAX
    &&& s > 255 ==> t + (s - 255) <= i32::MAX
    &&& (s <= 255 && t > 255) ==> s + (t - 255) <= i32::MAX
}

/// The colour after normalisation: the first channel (in red, green, blue
/// order) that exceeds 255 is clipped to 255 and its excess spread over
/// the two others; a colour with no channel above 255 is left as it is.
pub open spec fn normalized(r: int, g: int, b: int) -> (int, int, int) {
    if r > 255 {
        spread(r, g, b)
    } else if g > 255 {
        let (x, y, z) = spread(g, r, b);
        (y, x, z)
    } else if b > 255 {
        let (x, y, z) = spread(b, r, g);
        (y, z, x)
    } else {
        (r, g, b)
    }
}

/// Normalising `(r, g, b)` stays within `i32`.
pub open spec fn normalize_fits(r: int, g: int, b: int) -> bool {
    if r > 255 {
        spread_fits(r, g, b)
    } else if g > 255 {
        spread_fits(g, r, b)
    } else if b > 255 {
        spread_fits(b, r, g)
    } else {
        true
    }
}

/// Clips `first` to 255 and hands its excess to the two other channels.
pub fn distribute_first(first: &mut i32, second: &mut i32, third: &mut i32)
    requires
        *old(first) > 255,
        spread_fits(*old(first) as int, *old(second) as int, *old(third) as int),
    ensures
        (*final(first) as int, *final(second) as int, *final(third) as int) == spread(
            *old(first) as int,
            *old(second) as int,
            *old(third) as int,
        ),
{
    let h = (*first - 255) / 2;
    *first = 255;
    *second += h;
    *third += h;

    if *second > 255 {
        let j = *second - 255;
        *second = 255;
        *third += j;
    } else if *third > 255 {
        let j = *third - 255;
        *third = 255;
        *second += j;
    }
}

/// Brings a colour whose channels may exceed 255 back toward the valid
/// range, keeping its brightness (see `normalized`).
pub fn normalize_color(red: &mut i32, green: &mut i32, blue: &mut i32)
    requires
        normalize_fits(*old(red) as int, *old(green) as int, *old(blue) as int),
    ensures
        (*final(red) as int, *final(green) as int, *final(blue) as int) == normalized(
            *old(red) as int,
            *old(green) as int,
            *old(blue) as int,
        ),
{
    if *red > 255 {
        distribute_first(red, green, blue);
    } else if *green > 255 {
        distribute_first(green, red, blue);
    } else if *blue > 255 {
        distribute_first(blue, red, green);
    }
}

/// Sum of the three channels of a colour triple.
pub open spec fn channel_sum(c: (int, int, int)) -> int {
    c.0 + c.1 + c.2
}

/// Normalisation keeps the brightness of a colour: the channel sum after
/// it is the sum before it, or one less when the clipped excess was odd.
pub proof fn normalize_keeps_brightness(r: int, g: int, b: int)
    ensures
        r + g + b - 1 <= channel_sum(normalized(r, g, b)) <= r + g + b,
        (r > 255 && (r - 255) % 2 == 0) ==> channel_sum(normalized(r, g, b)) == r + g + b,
{
}

/// A colour with non-negative channels whose sum is at most three full
/// channels normalises without overflow to channels in `0..=255`.
pub proof fn normalize_bounds_bright_colors(r: int, g: int, b: int)
    requires
        0 <= r,
        0 <= g,
        0 <= b,
        r + g + b <= 765,
    ensures
        normalize_fits(r, g, b),
        0 <= normalized(r, g, b).0 <= 255,
        0 <= normalized(r, g, b).1 <= 255,
        0 <= normalized(r, g, b).2 <= 255,
{
}

/// The palette colour for channels already scaled to the target
/// brightness: the channels are normalised and each is then stored in a
/// byte (keeping its low eight bits, as a cast does).
pub fn bright_color_from_channels(red: i32, green: i32, blue: i32) -> (color: [u8; 3])
    requires
        normalize_fits(red as int, green as int, blue as int),
    ensures
        color[0] == normalized(red as int, green as int, blue as int).0 as u8,
        color[1] == normalized(red as int, green as int, blue as int).1 as u8,
        color[2] == normalized(red as int, green as int, blue as int).2 as u8,
{
    let mut r = red;
    let mut g = green;
    let mut b = blue;
    normalize_color(&mut r, &mut g, &mut b);
    [r as u8, g as u8, b as u8]
}

} // verus!
