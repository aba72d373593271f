//! The grid renderer: fills a row-major buffer of grayscale bytes, one per
//! pixel, from a per-pixel escape-time evaluator.

use vstd::arithmetic::div_mod::{lemma_fundamental_div_mod, lemma_fundamental_div_mod_converse};
use vstd::prelude::*;

verus! {

/// The iteration limit of the escape test; escape counts then fit in a byte.
pub const ITERATION_LIMIT: u32 = 255;

/// Why a render was refused.
#[derive(Debug, Clone, Copy, PartialEq, Eq, Structural)]
pub enum RenderError {
    /// The buffer's length differs from width times height.
    SizeMismatch,
}

/// The gray level of a pixel: black for a point that did not escape, else
/// `255` minus the escape iteration taken as a byte (so earlier escapes are
/// brighter).
pub open spec fn intensity_of(escape: Option<u32>) -> u8 {
    match escape {
        None => 0,
        Some(count) => (255 - (count % 256)) as u8,
    }
}

/// Computes `intensity_of(escape)`.
pub fn intensity(escape: Option<u32>) -> (r: u8)
    ensures
        r == intensity_of(escape),
{
    match escape {
        None => 0,
        Some(count) => 255 - (count % 256) as u8,
    }
}

/// The per-pixel evaluator gives one result for each pixel.
pub open spec fn evaluator_deterministic<F: Fn(usize, usize) -> Option<u32>>(eval: F) -> bool {
    forall|column: usize, row: usize, a: Option<u32>, b: Option<u32>|
        eval.ensures((column, row), a) && eval.ensures((column, row), b) ==> a == b
}

/// The gray level of the pixel at (`column`, `row`).
pub open spec fn pixel<F: Fn(usize, usize) -> Option<u32>>(eval: F, column: int, row: int) -> u8 {
    intensity_of(choose|e: Option<u32>| #[trigger] eval.ensures((column as usize, row as usize), e))
}

/// The row-major bytes of `rows` rows of width `width`, from row `first_row`
/// on: byte `k` is the pixel at column `k % width` of row `first_row + k / width`.
pub open spec fn rows_rendering<F: Fn(usize, usize) -> Option<u32>>(
    eval: F,
    width: nat,
    first_row: nat,
    rows: nat,
) -> Seq<u8> {
    Seq::new(width * rows, |k: int| pixel(eval, k % (width as int), first_row + k / (width as int)))
}

/// Whether `eval` may be called on every pixel of the given rows.
pub open spec fn callable_on_rows<F: Fn(usize, usize) -> Option<u32>>(
    eval: F,
    width: nat,
    first_row: nat,
    rows: nat,
) -> bool {
    forall|column: usize, row: usize|
        column < width && first_row <= row < first_row + rows ==> eval.requires((column, row))
}

/// `eval` has a result for the pixel at (`column`, `row`).
pub open spec fn has_result<F: Fn(usize, usize) -> Option<u32>>(eval: F, column: usize, row: usize) -> bool {
    exists|e: Option<u32>| #[trigger] eval.ensures((column, row), e)
}

/// `eval` has a result for every pixel of the given rows; on such rows
/// `pixel` is that result's gray level.
pub open spec fn evaluated_on_rows<F: Fn(usize, usize) -> Option<u32>>(
    eval: F,
    width: nat,
    first_row: nat,
    rows: nat,
) -> bool {
    forall|column: usize, row: usize|
        column < width && first_row <= row < first_row + rows ==> #[trigger] has_result(eval, column, row)
}

proof fn lemma_index_split(column: int, row: int, width: int)
    requires
        0 <= column < width,
        0 <= row,
    ensures
        (row * width + column) % width == column,
        (row * width + column) / width == row,
{
    lemma_fundamental_div_mod_converse(row * width + column, width, row, column);
}

/// Fills `band` with the rows of width `width` that start at row `first_row`,
/// as many as `band` holds.
pub fn render_rows<F: Fn(usize, usize) -> Option<u32>>(
    band: &mut [u8],
    width: usize,
    first_row: usize,
    eval: &F,
)
    requires
        width > 0,
        old(band)@.len() % (width as nat) == 0,
        first_row + old(band)@.len() / (width as nat) <= usize::MAX,
        callable_on_rows(*eval, width as nat, first_row as nat, (old(band)@.len() / (width as nat)) as nat),
        evaluator_deterministic(*eval),
    ensures
        final(band)@ == rows_rendering(
            *eval,
            width as nat,
            first_row as nat,
            (old(band)@.len() / (width as nat)) as nat,
        ),
        evaluated_on_rows(*eval, width as nat, first_row as nat, (old(band)@.len() / (width as nat)) as nat),
{
    let len = band.len();
    let rows = len / width;
    proof {
        lemma_fundamental_div_mod(len as int, width as int);
    }
    let mut r: usize = 0;
    while r < rows
        invariant
            width > 0,
            rows == len / width,
            len == rows * width,
            band@.len() == len,
            r <= rows,
            first_row + rows <= usize::MAX,
            callable_on_rows(*eval, width as nat, first_row as nat, rows as nat),
            evaluator_deterministic(*eval),
            forall|column: usize, row: usize|
                column < width && first_row <= row < first_row + r ==> #[trigger] has_result(*eval, column, row),
            forall|k: int|
                0 <= k < r * width ==> band@[k] == pixel(
                    *eval,
                    k % (width as int),
                    first_row + k / (width as int),
                ),
        decreases rows - r,
    {
        let mut c: usize = 0;
        proof {
            assert((r + 1) * width <= rows * width) by (nonlinear_arith)
                requires
                    r < rows,
            ;
            assert((r + 1) * width == r * width + width) by (nonlinear_arith);
        }
        while c < width
            invariant
                width > 0,
                len == rows * width,
                band@.len() == len,
                r < rows,
                c <= width,
                (r + 1) * width <= len,
                (r + 1) * width == r * width + width,
                first_row + rows <= usize::MAX,
                callable_on_rows(*eval, width as nat, first_row as nat, rows as nat),
                evaluator_deterministic(*eval),
                forall|column: usize, row: usize|
                    column < width && first_row <= row < first_row + r ==> #[trigger] has_result(*eval, column, row),
                forall|column: usize| column < c ==> #[trigger] has_result(*eval, column, (first_row + r) as usize),
                forall|k: int|
                    0 <= k < r * width + c ==> band@[k] == pixel(
                        *eval,
                        k % (width as int),
                        first_row + k / (width as int),
                    ),
            decreases width - c,
        {
            let row = first_row + r;
            let e = eval(c, row);
            let idx = r * width + c;
            band[idx] = intensity(e);
            proof {
                lemma_index_split(c as int, r as int, width as int);
                let chosen = choose|x: Option<u32>| eval.ensures((c, row), x);
                assert(eval.ensures((c, row), chosen));
                assert(has_result(*eval, c, row));
            }
            c = c + 1;
        }
        proof {
            assert forall|column: usize, row: usize|
                column < width && first_row <= row < first_row + r + 1 implies #[trigger] has_result(
                *eval,
                column,
                row,
            ) by {
                if row == first_row + r {
                    assert(has_result(*eval, column, (first_row + r) as usize));
                }
            }
        }
        r = r + 1;
    }
    proof {
        assert(band@ =~= rows_rendering(*eval, width as nat, first_row as nat, rows as nat));
    }
}

/// Renders the whole grid of `bounds = (width, height)` into `pixels`, row by
/// row; the byte at `row * width + column` is the gray level of that pixel.
/// A buffer whose length is not `width * height` is refused and left as it is.
pub fn render<F: Fn(usize, usize) -> Option<u32>>(
    pixels: &mut [u8],
    bounds: (usize, usize),
    eval: &F,
) -> (r: Result<(), RenderError>)
    requires
        callable_on_rows(*eval, bounds.0 as nat, 0, bounds.1 as nat),
        evaluator_deterministic(*eval),
    ensures
        r is Err <==> old(pixels)@.len() != bounds.0 * bounds.1,
        r is Err ==> final(pixels)@ == old(pixels)@,
        r is Ok ==> final(pixels)@ == rows_rendering(*eval, bounds.0 as nat, 0, bounds.1 as nat),
        r is Ok ==> evaluated_on_rows(*eval, bounds.0 as nat, 0, bounds.1 as nat),
{
    let (width, height) = bounds;
    let len = pixels.len();
    match width.checked_mul(height) {
        None => {
            assert(len < width * height);
            return Err(RenderError::SizeMismatch);
        },
        Some(n) => {
            if len != n {
                return Err(RenderError::SizeMismatch);
            }
        },
    }
    if width == 0 {
        proof {
            assert(pixels@ =~= rows_rendering(*eval, 0, 0, height as nat));
        }
        return Ok(());
    }
    proof {
        lemma_index_split(0, height as int, width as int);
        assert(height * width == width * height) by (nonlinear_arith);
    }
    render_rows(pixels, width, 0, eval);
    Ok(())
}

/// The number of rows in each band when `height` rows are shared among
/// `bands` workers: the fewest with which `bands` bands cover every row.
pub fn band_height(height: usize, bands: usize) -> (r: usize)
    requires
        bands > 0,
    ensures
        r * bands >= height,
        r > 0 ==> (r - 1) * bands < height,
{
    let q = height / bands;
    let m = height % bands;
    proof {
        lemma_fundamental_div_mod(height as int, bands as int);
        assert(q * bands <= height) by (nonlinear_arith)
            requires
                height == bands * q + m,
                0 <= m,
        ;
        if bands > 1 {
            assert(q * 2 <= q * bands) by (nonlinear_arith)
                requires
                    bands >= 2,
                    q >= 0,
            ;
        }
    }
    if m == 0 {
        proof {
            assert(q * bands == height) by (nonlinear_arith)
                requires
                    height == bands * q + m,
                    m == 0,
            ;
            assert(q > 0 ==> (q - 1) * bands < height) by (nonlinear_arith)
                requires
                    q * bands == height,
                    bands > 0,
            ;
        }
        q
    } else {
        proof {
            assert((q + 1) * bands >= height && q * bands < height) by (nonlinear_arith)
                requires
                    height == bands * q + m,
                    0 < m < bands,
            ;
        }
        q + 1
    }
}

/// Rendering a run of rows in two bands, one after the other, gives the same
/// bytes as rendering it at once: a split of the grid by rows changes no pixel.
pub proof fn lemma_bands_match_whole<F: Fn(usize, usize) -> Option<u32>>(
    eval: F,
    width: nat,
    first_row: nat,
    upper: nat,
    lower: nat,
)
    requires
        width > 0,
    ensures
        rows_rendering(eval, width, first_row, upper + lower) == rows_rendering(
            eval,
            width,
            first_row,
            upper,
        ) + rows_rendering(eval, width, first_row + upper, lower),
{
    let whole = rows_rendering(eval, width, first_row, upper + lower);
    let top = rows_rendering(eval, width, first_row, upper);
    let bottom = rows_rendering(eval, width, first_row + upper, lower);
    assert(width * (upper + lower) == width * upper + width * lower) by (nonlinear_arith);
    assert forall|k: int| 0 <= k < whole.len() implies whole[k] == (top + bottom)[k] by {
        if k >= width * upper {
            let j = k - width * upper;
            lemma_fundamental_div_mod(j, width as int);
            let q = j / (width as int);
            let m = j % (width as int);
            assert(k == (upper + q) * width + m) by (nonlinear_arith)
                requires
                    k == j + width * upper,
                    j == width * q + m,
            ;
            lemma_fundamental_div_mod_converse(k, width as int, upper + q, m);
        }
    }
    assert(whole =~= top + bottom);
}

} // verus!
