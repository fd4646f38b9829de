//! The raster of an image: which pixel is computed for which position.
use vstd::prelude::*;

verus! {

/// Where the pixel at column `x` of row `y` stands among the pixels of an image
/// `width` pixels wide, stored row by row.
pub open spec fn pixel_index(width: int, x: int, y: int) -> int {
    y * width + x
}

proof fn lemma_earlier_row(width: int, x: int, y: int, row: int)
    requires
        0 <= x < width,
        0 <= y < row,
    ensures
        pixel_index(width, x, y) < row * width,
        0 <= pixel_index(width, x, y),
{
    assert(y * width + x < row * width) by (nonlinear_arith)
        requires
            0 <= x < width,
            0 <= y < row,
    ;
    assert(0 <= y * width) by (nonlinear_arith)
        requires
            0 <= y,
            0 <= width,
    ;
}

/// Computes the pixels of a `width` by `height` image, row by row from the top,
/// each row from the left: the pixel at column `x` of row `y` is `shade(x, y)`.
pub fn render<F: Fn(usize, usize) -> [u8; 3]>(width: usize, height: usize, shade: F) -> (pixels:
    Vec<[u8; 3]>)
    requires
        width * height * 3 <= isize::MAX,
        forall|x: usize, y: usize| x < width && y < height ==> call_requires(shade, (x, y)),
    ensures
        pixels@.len() == width * height,
        forall|x: usize, y: usize|
            x < width && y < height ==> #[trigger] call_ensures(
                shade,
                (x, y),
                pixels@[pixel_index(width as int, x as int, y as int)],
            ),
{
    let mut pixels: Vec<[u8; 3]> = Vec::with_capacity(width * height);
    let mut y: usize = 0;
    while y < height
        invariant
            y <= height,
            width * height * 3 <= isize::MAX,
            forall|x: usize, y: usize| x < width && y < height ==> call_requires(shade, (x, y)),
            pixels@.len() == y * width,
            forall|px: usize, py: usize|
                px < width && py < y ==> #[trigger] call_ensures(
                    shade,
                    (px, py),
                    pixels@[pixel_index(width as int, px as int, py as int)],
                ),
        decreases height - y,
    {
        let mut x: usize = 0;
        assert(y * width + width <= width * height) by (nonlinear_arith)
            requires
                y < height,
        ;
        while x < width
            invariant
                x <= width,
                y < height,
                y * width + width <= width * height,
                width * height * 3 <= isize::MAX,
                forall|x: usize, y: usize| x < width && y < height ==> call_requires(shade, (x, y)),
                pixels@.len() == y * width + x,
                forall|px: usize, py: usize|
                    px < width && py < y ==> #[trigger] call_ensures(
                        shade,
                        (px, py),
                        pixels@[pixel_index(width as int, px as int, py as int)],
                    ),
                forall|px: usize|
                    px < x ==> #[trigger] call_ensures(
                        shade,
                        (px, y),
                        pixels@[pixel_index(width as int, px as int, y as int)],
                    ),
            decreases width - x,
        {
            let c = shade(x, y);
            let ghost before = pixels@;
            pixels.push(c);
            assert forall|px: usize, py: usize| px < width && py < y implies #[trigger] call_ensures(
                shade,
                (px, py),
                pixels@[pixel_index(width as int, px as int, py as int)],
            ) by {
                lemma_earlier_row(width as int, px as int, py as int, y as int);
                assert(pixels@[pixel_index(width as int, px as int, py as int)] == before[pixel_index(
                    width as int,
                    px as int,
                    py as int,
                )]);
            }
            assert(pixels@[pixel_index(width as int, x as int, y as int)] == c);
            x = x + 1;
        }
        assert((y + 1) * width == y * width + width) by (nonlinear_arith);
        y = y + 1;
    }
    assert(height * width == width * height) by (nonlinear_arith);
    pixels
}

} // verus!
