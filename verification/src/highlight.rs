use vstd::prelude::*;
use vstd::arithmetic::div_mod::{lemma_fundamental_div_mod, lemma_fundamental_div_mod_converse};

verus! {

/// The pixel `(x, y)` of an image `width` pixels wide holds the bytes
/// `4 * (y * width + x)` to `4 * (y * width + x) + 3` of its RGBA buffer.
pub open spec fn byte_of_pixel(i: int, width: int, x: int, y: int) -> bool {
    (i / 4) % width == x && (i / 4) / width == y
}

/// The pixel whose bytes start at `4 * (y * width + x)` lies in a buffer of
/// `len` bytes.
pub open spec fn pixel_in_buffer(len: int, width: int, x: int, y: int) -> bool {
    (y * width + x) * 4 + 3 < len
}

/// A row of the two-pixel top or bottom edge of the box
/// `[x1, x2) x [y1, y2)`, in an image `height` rows high.
pub open spec fn row_edge(y1: int, y2: int, height: int, y: int) -> bool {
    ||| (y == y1 || y == y1 + 1) && y < height
    ||| y == y2 - 1
    ||| y == y2 - 2
}

/// A column of the two-pixel left or right edge of the box, in an image
/// `width` columns wide.
pub open spec fn column_edge(x1: int, x2: int, width: int, x: int) -> bool {
    ||| (x == x1 || x == x1 + 1) && x < width
    ||| x == x2 - 1
    ||| x == x2 - 2
}

/// The pixel `(x, y)` (both non-negative) lies on the two-pixel border
/// drawn around the box `[x1, x2) x [y1, y2)`.
pub open spec fn on_border(
    x1: int,
    y1: int,
    x2: int,
    y2: int,
    width: int,
    height: int,
    x: int,
    y: int,
) -> bool {
    ||| x1 <= x < x2 && row_edge(y1, y2, height, y)
    ||| y1 <= y < y2 && column_edge(x1, x2, width, x)
}

pub open spec fn min_int(a: int, b: int) -> int {
    if a <= b {
        a
    } else {
        b
    }
}

/// The box of a selected tile, given the corners of its rectangle in whole
/// pixels, limited to the image: the left and top edges to its last column
/// and row, the right and bottom edges to its width and height.
pub open spec fn selection_box(
    left: int,
    top: int,
    right: int,
    bottom: int,
    width: int,
    height: int,
) -> (int, int, int, int) {
    (
        min_int(left, if width > 0 { width - 1 } else { 0 }),
        min_int(top, if height > 0 { height - 1 } else { 0 }),
        min_int(right, width),
        min_int(bottom, height),
    )
}

/// The byte `i` of an RGBA buffer of `len` bytes belongs to a pixel of the
/// selection border of the tile with corners `(left, top)` and
/// `(right, bottom)`.
pub open spec fn highlighted(
    left: int,
    top: int,
    right: int,
    bottom: int,
    width: int,
    height: int,
    len: int,
    i: int,
) -> bool {
    let b = selection_box(left, top, right, bottom, width, height);
    &&& width > 0
    &&& on_border(b.0, b.1, b.2, b.3, width, height, (i / 4) % width, (i / 4) / width)
    &&& (i / 4) * 4 + 3 < len
}

proof fn lemma_pixel_of_byte(i: int, w: int, x: int, y: int)
    requires
        0 <= i,
        0 <= x < w,
        0 <= y,
    ensures
        byte_of_pixel(i, w, x, y) <==> ((y * w + x) * 4 <= i < (y * w + x) * 4 + 4),
{
    let k = y * w + x;
    assert(k == y * w + x);
    lemma_fundamental_div_mod_converse(k, w, y, x);
    if byte_of_pixel(i, w, x, y) {
        lemma_fundamental_div_mod(i / 4, w);
        assert(w * ((i / 4) / w) == y * w) by (nonlinear_arith)
            requires
                (i / 4) / w == y,
        ;
        assert(i / 4 == k);
        lemma_fundamental_div_mod(i, 4);
    }
    if k * 4 <= i < k * 4 + 4 {
        lemma_fundamental_div_mod_converse(i, 4, k, i - k * 4);
    }
}

proof fn lemma_pixel_index_bound(w: int, h: int, x: int, y: int)
    requires
        0 <= x < w,
        0 <= y < h,
    ensures
        y * w + x < w * h,
        0 <= y * w + x,
{
    assert(y * w <= (h - 1) * w) by (nonlinear_arith)
        requires
            0 <= y < h,
            0 < w,
    ;
    assert((h - 1) * w + w == w * h) by (nonlinear_arith);
    assert(0 <= y * w) by (nonlinear_arith)
        requires
            0 <= y,
            0 < w,
    ;
}

/// Whitens the pixel `(x, y)` when its four bytes lie in the buffer.
fn whiten_pixel(pixels: &mut Vec<u8>, width: u32, height: u32, x: u32, y: u32)
    requires
        x < width,
        y < height,
        (width as int) * (height as int) <= u32::MAX,
        (width as int) * (height as int) * 4 <= usize::MAX,
    ensures
        final(pixels)@.len() == old(pixels)@.len(),
        forall|i: int|
            0 <= i < old(pixels)@.len() ==> final(pixels)@[i] == if byte_of_pixel(
                i,
                width as int,
                x as int,
                y as int,
            ) && pixel_in_buffer(old(pixels)@.len() as int, width as int, x as int, y as int) {
                255u8
            } else {
                old(pixels)@[i]
            },
{
    proof {
        lemma_pixel_index_bound(width as int, height as int, x as int, y as int);
        assert forall|i: int| 0 <= i < pixels@.len() implies (byte_of_pixel(
            i,
            width as int,
            x as int,
            y as int,
        ) <==> ((y * width + x) * 4 <= i < (y * width + x) * 4 + 4)) by {
            lemma_pixel_of_byte(i, width as int, x as int, y as int);
        }
    }
    let k: u32 = y * width + x;
    let idx: usize = (k as usize) * 4;
    if idx + 3 < pixels.len() {
        pixels[idx] = 255;
        pixels[idx + 1] = 255;
        pixels[idx + 2] = 255;
        pixels[idx + 3] = 255;
    }
}

/// Bytes marked by the first `count` columns of the top and bottom edges
/// (columns `x1 .. x1 + count`), then by the first `rows` rows of the left
/// and right edges (rows `y1 .. y1 + rows`).
spec fn drawn(
    x1: int,
    y1: int,
    x2: int,
    y2: int,
    width: int,
    height: int,
    len: int,
    columns_done: int,
    rows_done: int,
    i: int,
) -> bool {
    let x = (i / 4) % width;
    let y = (i / 4) / width;
    &&& (i / 4) * 4 + 3 < len
    &&& {
        ||| x1 <= x < columns_done && row_edge(y1, y2, height, y)
        ||| y1 <= y < rows_done && column_edge(x1, x2, width, x)
    }
}

/// Draws the two-pixel white border of a selected tile into an RGBA
/// buffer. `left`, `top`, `right` and `bottom` are the corners of the
/// tile's rectangle in whole pixels; bytes outside the buffer are skipped.
pub fn draw_selection_border(
    pixels: &mut Vec<u8>,
    width: u32,
    height: u32,
    left: u32,
    top: u32,
    right: u32,
    bottom: u32,
)
    requires
        (width as int) * (height as int) <= u32::MAX,
        (width as int) * (height as int) * 4 <= usize::MAX,
    ensures
        final(pixels)@.len() == old(pixels)@.len(),
        forall|i: int|
            0 <= i < old(pixels)@.len() ==> #[trigger] final(pixels)@[i] == if highlighted(
                left as int,
                top as int,
                right as int,
                bottom as int,
                width as int,
                height as int,
                old(pixels)@.len() as int,
                i,
            ) {
                255u8
            } else {
                old(pixels)@[i]
            },
{
    let ghost old_pixels = pixels@;
    let ghost len = pixels@.len() as int;
    let ghost w = width as int;
    let ghost h = height as int;
    let x1 = if left < width.saturating_sub(1) { left } else { width.saturating_sub(1) };
    let y1 = if top < height.saturating_sub(1) { top } else { height.saturating_sub(1) };
    let x2 = if right < width { right } else { width };
    let y2 = if bottom < height { bottom } else { height };
    if width == 0 {
        // Every loop below is empty: no column lies before `x2 == 0`, and no
        // row edge or column edge passes the bounds checks.
        proof {
            assert forall|i: int| 0 <= i < len implies !highlighted(
                left as int,
                top as int,
                right as int,
                bottom as int,
                w,
                h,
                len,
                i,
            ) by {}
        }
        return;
    }
    let mut x = x1;
    while x < x2
        invariant
            0 < width,
            (width as int) * (height as int) <= u32::MAX,
            (width as int) * (height as int) * 4 <= usize::MAX,
            x1 <= x,
            x1 < x2 ==> x <= x2,
            x1 >= x2 ==> x == x1,
            x2 <= width,
            y2 <= height,
            y1 < height || y1 == 0,
            w == width as int,
            h == height as int,
            len == old_pixels.len(),
            pixels@.len() == len,
            forall|i: int|
                0 <= i < len ==> #[trigger] pixels@[i] == if drawn(
                    x1 as int,
                    y1 as int,
                    x2 as int,
                    y2 as int,
                    w,
                    h,
                    len,
                    x as int,
                    y1 as int,
                    i,
                ) {
                    255u8
                } else {
                    old_pixels[i]
                },
        decreases x2 - x,
    {
        let ghost before = pixels@;
        if y1 < height {
            whiten_pixel(pixels, width, height, x, y1);
        }
        if y1 + 1 < height {
            whiten_pixel(pixels, width, height, x, y1 + 1);
        }
        if y2 > 0 {
            whiten_pixel(pixels, width, height, x, y2 - 1);
        }
        if y2 > 1 {
            whiten_pixel(pixels, width, height, x, y2 - 2);
        }
        proof {
            assert forall|i: int| 0 <= i < len implies #[trigger] pixels@[i] == if drawn(
                x1 as int,
                y1 as int,
                x2 as int,
                y2 as int,
                w,
                h,
                len,
                x + 1,
                y1 as int,
                i,
            ) {
                255u8
            } else {
                old_pixels[i]
            } by {
                lemma_fundamental_div_mod(i / 4, w);
                assert(0 <= (i / 4) % w < w);
                assert(0 <= (i / 4) / w) by {
                    vstd::arithmetic::div_mod::lemma_div_pos_is_pos(i / 4, w);
                }
                let px = (i / 4) % w;
                let py = (i / 4) / w;
                assert(byte_of_pixel(i, w, px, py));
                assert((py * w + px) == i / 4) by (nonlinear_arith)
                    requires
                        i / 4 == w * py + px,
                ;
            }
        }
        x = x + 1;
    }
    let mut y = y1;
    while y < y2
        invariant
            0 < width,
            (width as int) * (height as int) <= u32::MAX,
            (width as int) * (height as int) * 4 <= usize::MAX,
            y1 <= y,
            y1 < y2 ==> y <= y2,
            y1 >= y2 ==> y == y1,
            x1 <= x,
            x1 < x2 ==> x == x2,
            x1 >= x2 ==> x == x1,
            x2 <= width,
            y2 <= height,
            x1 < width,
            w == width as int,
            h == height as int,
            len == old_pixels.len(),
            pixels@.len() == len,
            forall|i: int|
                0 <= i < len ==> #[trigger] pixels@[i] == if drawn(
                    x1 as int,
                    y1 as int,
                    x2 as int,
                    y2 as int,
                    w,
                    h,
                    len,
                    x as int,
                    y as int,
                    i,
                ) {
                    255u8
                } else {
                    old_pixels[i]
                },
        decreases y2 - y,
    {
        whiten_pixel(pixels, width, height, x1, y);
        if x1 + 1 < width {
            whiten_pixel(pixels, width, height, x1 + 1, y);
        }
        if x2 > 0 {
            whiten_pixel(pixels, width, height, x2 - 1, y);
        }
        if x2 > 1 {
            whiten_pixel(pixels, width, height, x2 - 2, y);
        }
        proof {
            assert forall|i: int| 0 <= i < len implies #[trigger] pixels@[i] == if drawn(
                x1 as int,
                y1 as int,
                x2 as int,
                y2 as int,
                w,
                h,
                len,
                x as int,
                y + 1,
                i,
            ) {
                255u8
            } else {
                old_pixels[i]
            } by {
                lemma_fundamental_div_mod(i / 4, w);
                assert(0 <= (i / 4) / w) by {
                    vstd::arithmetic::div_mod::lemma_div_pos_is_pos(i / 4, w);
                }
                let px = (i / 4) % w;
                let py = (i / 4) / w;
                assert(byte_of_pixel(i, w, px, py));
                assert((py * w + px) == i / 4) by (nonlinear_arith)
                    requires
                        i / 4 == w * py + px,
                ;
            }
        }
        y = y + 1;
    }
    proof {
        assert forall|i: int| 0 <= i < len implies drawn(
            x1 as int,
            y1 as int,
            x2 as int,
            y2 as int,
            w,
            h,
            len,
            x as int,
            y as int,
            i,
        ) == highlighted(left as int, top as int, right as int, bottom as int, w, h, len, i) by {
            lemma_fundamental_div_mod(i / 4, w);
        }
    }
}

/// Where the tile of `node` stands among the tiles, given the node of each
/// tile in drawing order: the first position that holds `node`, or `None`
/// when no tile stands for it.
pub fn selected_tile(tile_nodes: &Vec<u32>, node: u32) -> (found: Option<usize>)
    ensures
        match found {
            Some(i) => i < tile_nodes@.len() && tile_nodes@[i as int] == node && forall|j: int|
                0 <= j < i ==> tile_nodes@[j] != node,
            None => forall|j: int| 0 <= j < tile_nodes@.len() ==> tile_nodes@[j] != node,
        },
{
    let mut i: usize = 0;
    while i < tile_nodes.len()
        invariant
            0 <= i <= tile_nodes@.len(),
            forall|j: int| 0 <= j < i ==> tile_nodes@[j] != node,
        decreases tile_nodes@.len() - i,
    {
        if tile_nodes[i] == node {
            return Some(i);
        }
        i = i + 1;
    }
    None
}

/// The selection border lies where it belongs. With the tile limited to
/// the image as the box `[x1, x2) x [y1, y2)` (the left and top edges to the
/// last column and row, the right and bottom edges to the width and
/// height), every pixel in the buffer on columns `x1 .. x2` of the two
/// bottom rows `y2 - 1` and `y2 - 2` and of the two top rows `y1` and
/// `y1 + 1`, and every pixel on rows `y1 .. y2` of the two left columns
/// `x1`, `x1 + 1` and the two right columns `x2 - 1`, `x2 - 2`, is
/// whitened; no other row or column is touched, and, for a box at least
/// two pixels wide and high, no pixel outside the box.
pub proof fn selection_border_place(
    left: int,
    top: int,
    right: int,
    bottom: int,
    width: int,
    height: int,
    len: int,
    i: int,
)
    requires
        width > 0,
        height > 0,
        0 <= i,
        (i / 4) * 4 + 3 < len,
    ensures
        ({
            let x1 = if left <= width - 1 { left } else { width - 1 };
            let y1 = if top <= height - 1 { top } else { height - 1 };
            let x2 = if right <= width { right } else { width };
            let y2 = if bottom <= height { bottom } else { height };
            let x = (i / 4) % width;
            let y = (i / 4) / width;
            &&& x1 <= x < x2 && (y == y2 - 1 || y == y2 - 2) ==> highlighted(
                left,
                top,
                right,
                bottom,
                width,
                height,
                len,
                i,
            )
            &&& x1 <= x < x2 && (y == y1 || y == y1 + 1) && y < height ==> highlighted(
                left,
                top,
                right,
                bottom,
                width,
                height,
                len,
                i,
            )
            &&& y1 <= y < y2 && (x == x1 || x == x1 + 1 || x == x2 - 1 || x == x2 - 2) ==> highlighted(
                left,
                top,
                right,
                bottom,
                width,
                height,
                len,
                i,
            )
            &&& x2 >= x1 + 2 && y2 >= y1 + 2 && highlighted(left, top, right, bottom, width, height, len, i)
                ==> x1 <= x < x2 && y1 <= y < y2
            &&& highlighted(left, top, right, bottom, width, height, len, i) ==> (y == y1 || y == y1 + 1 || y
                == y2 - 1 || y == y2 - 2 || x == x1 || x == x1 + 1 || x == x2 - 1 || x == x2 - 2)
        }),
{
    let x = (i / 4) % width;
    assert(x < width);
}

} // verus!
