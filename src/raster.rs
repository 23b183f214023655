//! Assembly of the grayscale raster, one byte per pixel in row-major order.
use vstd::prelude::*;

use crate::escape::NUM_LOOPS;

verus! {

/// The byte of a pixel whose orbit broke out at step `i` (`255 - i`, taken
/// as a byte), or of one whose orbit stayed bounded (`0`).
pub open spec fn shade_spec(escape: Option<usize>) -> u8 {
    match escape {
        Some(i) => (255 - (i % 256)) as u8,
        None => 0,
    }
}

/// The byte of a pixel, given the escape result of its point: light for
/// an orbit that broke out early, dark near the set, black inside it.
pub fn shade(escape: Option<usize>) -> (r: u8)
    ensures
        r == shade_spec(escape),
        forall|i: usize| escape == Some(i) && i < NUM_LOOPS ==> r == 255 - i,
{
    match escape {
        Some(i) => 255 - (i % 256) as u8,
        None => 0,
    }
}

/// The position in the raster of the pixel in column `col` of row `row`,
/// for a raster `width` pixels wide.
pub open spec fn pixel_index(width: int, col: int, row: int) -> int {
    row * width + col
}

/// Renders a raster of `bounds.0` columns and `bounds.1` rows: `escape` is
/// asked once for each pixel `(col, row)`, row by row and left to right within
/// a row, and the pixel's byte is the shade of what it returns.
pub fn render<F: Fn((usize, usize)) -> Option<usize>>(bounds: (usize, usize), escape: F) -> (r: Vec<u8>)
    requires
        bounds.0 * bounds.1 <= usize::MAX,
        forall|p: (usize, usize)| p.0 < bounds.0 && p.1 < bounds.1 ==> #[trigger] escape.requires((p,)),
    ensures
        r@.len() == bounds.0 * bounds.1,
        forall|col: int, row: int|
            #![trigger r@[pixel_index(bounds.0 as int, col, row)]]
            0 <= col < bounds.0 && 0 <= row < bounds.1 ==> shaded(
                escape,
                (col as usize, row as usize),
                r@[pixel_index(bounds.0 as int, col, row)],
            ),
{
    let (width, height) = bounds;
    let mut pixels: Vec<u8> = Vec::new();
    let mut row: usize = 0;
    while row < height
        invariant
            width * height <= usize::MAX,
            row <= height,
            pixels@.len() == row * width,
            forall|p: (usize, usize)| p.0 < width && p.1 < height ==> #[trigger] escape.requires((p,)),
            rendered(escape, width as int, pixels@),
        decreases height - row,
    {
        let mut col: usize = 0;
        while col < width
            invariant
                width * height <= usize::MAX,
                row < height,
                col <= width,
                pixels@.len() == row * width + col,
                forall|p: (usize, usize)| p.0 < width && p.1 < height ==> #[trigger] escape.requires((p,)),
                rendered(escape, width as int, pixels@),
            decreases width - col,
        {
            proof {
                assert(row * width + col < width * height) by (nonlinear_arith)
                    requires
                        row < height,
                        col < width,
                ;
                lemma_row_major(width as int, col as int, row as int);
            }
            let e = escape((col, row));
            let ghost before = pixels@;
            pixels.push(shade(e));
            proof {
                assert(shaded(escape, (col, row), shade_spec(e)));
                assert forall|k: int|
                    #![trigger pixels@[k]]
                    0 <= k < pixels@.len() implies shaded(escape, pixel_at(width as int, k), pixels@[k]) by {
                    if k < before.len() {
                        assert(pixels@[k] == before[k]);
                    } else {
                        assert(pixel_at(width as int, k) == (col, row));
                    }
                }
            }
            col += 1;
        }
        row += 1;
        proof {
            assert(pixels@.len() == row * width) by (nonlinear_arith)
                requires
                    pixels@.len() == (row - 1) * width + width,
            ;
        }
    }
    proof {
        assert(width * height == height * width) by (nonlinear_arith);
        assert forall|col: int, row: int|
            #![trigger pixels@[pixel_index(width as int, col, row)]]
            0 <= col < width && 0 <= row < height implies shaded(
                escape,
                (col as usize, row as usize),
                pixels@[pixel_index(width as int, col, row)],
            ) by {
            lemma_row_major(width as int, col, row);
            assert(pixel_index(width as int, col, row) < width * height) by (nonlinear_arith)
                requires
                    row < height,
                    col < width,
                    pixel_index(width as int, col, row) == row * width + col,
            ;
            assert(pixel_at(width as int, pixel_index(width as int, col, row)) == (col as usize, row as usize));
        }
    }
    pixels
}

/// Each byte of `pixels` is the shade of a result that `escape` may give
/// for the pixel at that position.
pub open spec fn rendered<F: Fn((usize, usize)) -> Option<usize>>(escape: F, width: int, pixels: Seq<u8>) -> bool {
    forall|k: int|
        #![trigger pixels[k]]
        0 <= k < pixels.len() ==> shaded(escape, pixel_at(width, k), pixels[k])
}

/// `b` is the shade of a result that `escape` may give for pixel `p`.
pub open spec fn shaded<F: Fn((usize, usize)) -> Option<usize>>(escape: F, p: (usize, usize), b: u8) -> bool {
    exists|e: Option<usize>| #[trigger] escape.ensures((p,), e) && b == shade_spec(e)
}

/// Rendering is deterministic: when the escape result of a pixel is fixed by
/// the pixel alone, any two rasters that meet what `render` ensures for the
/// same bounds are byte for byte the same.
pub proof fn lemma_render_deterministic<F: Fn((usize, usize)) -> Option<usize>>(
    bounds: (usize, usize),
    escape: F,
    a: Seq<u8>,
    b: Seq<u8>,
)
    requires
        forall|p: (usize, usize), e1: Option<usize>, e2: Option<usize>|
            #[trigger] escape.ensures((p,), e1) && #[trigger] escape.ensures((p,), e2) ==> e1 == e2,
        a.len() == bounds.0 * bounds.1,
        b.len() == bounds.0 * bounds.1,
        forall|col: int, row: int|
            #![trigger a[pixel_index(bounds.0 as int, col, row)]]
            0 <= col < bounds.0 && 0 <= row < bounds.1 ==> shaded(
                escape,
                (col as usize, row as usize),
                a[pixel_index(bounds.0 as int, col, row)],
            ),
        forall|col: int, row: int|
            #![trigger b[pixel_index(bounds.0 as int, col, row)]]
            0 <= col < bounds.0 && 0 <= row < bounds.1 ==> shaded(
                escape,
                (col as usize, row as usize),
                b[pixel_index(bounds.0 as int, col, row)],
            ),
    ensures
        a == b,
{
    let width = bounds.0 as int;
    let height = bounds.1 as int;
    assert forall|k: int| 0 <= k < a.len() implies a[k] == b[k] by {
        assert(width > 0) by (nonlinear_arith)
            requires
                0 <= k < width * height,
                height >= 0,
        ;
        let col = k % width;
        let row = k / width;
        vstd::arithmetic::div_mod::lemma_fundamental_div_mod(k, width);
        assert(0 <= col < width);
        assert(row < height) by (nonlinear_arith)
            requires
                k == width * row + col,
                0 <= col,
                k < width * height,
                width > 0,
        ;
        assert(row >= 0) by (nonlinear_arith)
            requires
                k == width * row + col,
                col < width,
                k >= 0,
                width > 0,
        ;
        assert(pixel_index(width, col, row) == k) by (nonlinear_arith)
            requires
                k == width * row + col,
        ;
        let p = (col as usize, row as usize);
        assert(shaded(escape, p, a[pixel_index(width, col, row)]));
        assert(shaded(escape, p, b[pixel_index(width, col, row)]));
        let ea = choose|e: Option<usize>| #[trigger] escape.ensures((p,), e) && a[k] == shade_spec(e);
        let eb = choose|e: Option<usize>| #[trigger] escape.ensures((p,), e) && b[k] == shade_spec(e);
        assert(ea == eb);
    }
    assert(a =~= b);
}

/// The pixel `(col, row)` at position `k` of a raster `width` pixels wide.
pub open spec fn pixel_at(width: int, k: int) -> (usize, usize) {
    ((k % width) as usize, (k / width) as usize)
}

proof fn lemma_row_major(width: int, col: int, row: int)
    requires
        0 <= col < width,
        0 <= row,
    ensures
        pixel_index(width, col, row) % width == col,
        pixel_index(width, col, row) / width == row,
{
    vstd::arithmetic::div_mod::lemma_fundamental_div_mod_converse(
        pixel_index(width, col, row),
        width,
        row,
        col,
    );
}

} // verus!
