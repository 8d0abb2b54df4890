//! Rasterization of a grayscale frame into lines of Braille glyphs.
//!
//! The frame buffer holds one byte of luminance per sub-pixel, row-major,
//! with a row stride (`skip`) that may exceed the logical width. A terminal
//! cell covers 2 columns by 4 rows of sub-pixels, so a grid of
//! `cells_wide x cells_high` cells reads a logical area of
//! `cells_wide * 2` by `cells_high * 4` sub-pixels. Cells are processed row
//! by row, left to right, and the eight sub-pixels of a cell in raster
//! order; each sub-pixel is thresholded, and with dithering enabled its
//! quantization error is spread to neighbours that are read later in the
//! same pass.
//!
//! Every residual the diffusion kernel produces is an integer multiple of
//! one sixteenth of a luminance unit, so the error buffer holds residuals
//! exactly, as whole counts of sixteenths.

use vstd::prelude::*;
use vstd::arithmetic::div_mod::{
    lemma_fundamental_div_mod, lemma_fundamental_div_mod_converse, lemma_div_pos_is_pos,
};

verus! {

/// Per-run rendering configuration.
pub struct Options {
    /// Spread each sub-pixel's quantization error to its unprocessed
    /// neighbours instead of thresholding in isolation.
    pub dither: bool,
    /// A sub-pixel is filled exactly when its corrected value is strictly
    /// below this threshold.
    pub threshold: u8,
}

/// The mathematical model of one rasterization pass.
pub ghost struct RasterModel {
    /// Luminance samples, row-major with stride `skip`.
    pub pixels: Seq<u8>,
    /// Distance in samples between consecutive sub-pixel rows.
    pub skip: int,
    /// Cell-grid width, in terminal cells.
    pub cells_wide: int,
    /// Cell-grid height, in terminal cells.
    pub cells_high: int,
    /// Fill threshold on corrected luminance.
    pub threshold: u8,
    /// Whether quantization error is diffused.
    pub dither: bool,
}

/// The model described by a set of rasterizer arguments.
pub open spec fn model_of(
    pixels: Seq<u8>,
    skip: int,
    cells_wide: int,
    cells_high: int,
    options: Options,
) -> RasterModel {
    RasterModel {
        pixels: pixels,
        skip: skip,
        cells_wide: cells_wide,
        cells_high: cells_high,
        threshold: options.threshold,
        dither: options.dither,
    }
}

/// Position of the sub-pixel handled `sub` steps into cell
/// `(cell_x, cell_y)` within the pass, counting all steps from the start.
pub open spec fn step_index(cells_wide: int, cell_x: int, cell_y: int, sub: int) -> int {
    (cell_y * cells_wide + cell_x) * 8 + sub
}

/// Corrected value of a sub-pixel: the raw sample plus its accumulated
/// residual (in sixteenths), rounded to the nearest integer with halves
/// rounding up, then saturated to one byte.
pub open spec fn corrected_value(raw: u8, residual: int) -> int {
    let rounded = (raw * 16 + residual + 8) / 16;
    if rounded > 255 {
        255
    } else {
        rounded
    }
}

/// The quantization error of one sub-pixel, in whole luminance units: the
/// corrected value itself when it is filled, else its distance above the
/// threshold. Both cases are nonnegative.
pub open spec fn quant_error(corrected: int, threshold: u8) -> int {
    if corrected < threshold {
        corrected
    } else {
        corrected - threshold
    }
}

/// Add `amount` sixteenths of error at logical coordinate `(x, y)` of a
/// `w x h` residual buffer; a coordinate outside the frame is dropped.
pub open spec fn add_at(errors: Seq<int>, w: int, h: int, x: int, y: int, amount: int) -> Seq<
    int,
> {
    if 0 <= x && x < w && 0 <= y && y < h {
        errors.update(y * w + x, errors[y * w + x] + amount)
    } else {
        errors
    }
}

/// One application of the error-diffusion kernel from `(x, y)`: weights
/// 7, 3, 5 and 1 sixteenths of the error `e` go to the right, lower-left,
/// lower and lower-right neighbours.
pub open spec fn diffuse(errors: Seq<int>, w: int, h: int, x: int, y: int, e: int) -> Seq<int> {
    let a = add_at(errors, w, h, x + 1, y, e * 7);
    let b = add_at(a, w, h, x - 1, y + 1, e * 3);
    let c = add_at(b, w, h, x, y + 1, e * 5);
    add_at(c, w, h, x + 1, y + 1, e * 1)
}

/// The cursor-home escape sequence that precedes every frame.
pub open spec fn home_escape() -> Seq<char> {
    seq!['\x1b', '[', '0', ';', '0', 'H']
}

/// An executable residual buffer realizes a model state when it has the
/// same length and the same value, in sixteenths, at every slot.
pub open spec fn errors_match(concrete: Seq<u128>, model: Seq<int>) -> bool {
    &&& concrete.len() == model.len()
    &&& forall|s: int| 0 <= s < model.len() ==> concrete[s] as int == #[trigger] model[s]
}

/// Every slot of a residual buffer lies in `0..=bound`.
pub open spec fn residuals_bounded(errors: Seq<int>, bound: int) -> bool {
    forall|s: int| 0 <= s < errors.len() ==> 0 <= #[trigger] errors[s] <= bound
}

impl RasterModel {
    /// Logical sub-pixel width of the frame.
    pub open spec fn width(self) -> int {
        self.cells_wide * 2
    }

    /// Logical sub-pixel height of the frame.
    pub open spec fn height(self) -> int {
        self.cells_high * 4
    }

    /// Number of sub-pixel steps in one full pass.
    pub open spec fn total_steps(self) -> int {
        self.cells_wide * self.cells_high * 8
    }

    /// The arguments describe a readable frame: a positive cell grid, a
    /// stride no smaller than the logical width, and a buffer that covers
    /// the last logical row.
    pub open spec fn wf(self) -> bool {
        &&& 1 <= self.cells_wide
        &&& 1 <= self.cells_high
        &&& self.width() <= self.skip
        &&& self.pixels.len() >= (self.height() - 1) * self.skip + self.width()
    }

    /// Logical x coordinate of the sub-pixel visited at step `k`.
    pub open spec fn step_x(self, k: int) -> int {
        ((k / 8) % self.cells_wide) * 2 + (k % 8) % 2
    }

    /// Logical y coordinate of the sub-pixel visited at step `k`.
    pub open spec fn step_y(self, k: int) -> int {
        ((k / 8) / self.cells_wide) * 4 + (k % 8) / 2
    }

    /// Slot of step `k`'s sub-pixel in the (unpadded) residual buffer.
    pub open spec fn error_index(self, k: int) -> int {
        self.step_y(k) * self.width() + self.step_x(k)
    }

    /// Raw luminance sample of step `k`'s sub-pixel, read with the stride.
    pub open spec fn raw_at(self, k: int) -> u8 {
        self.pixels[self.step_y(k) * self.skip + self.step_x(k)]
    }

    /// The residual buffer after one more step on state `errors`.
    pub open spec fn step_errors(self, errors: Seq<int>, k: int) -> Seq<int> {
        let corr = corrected_value(self.raw_at(k), errors[self.error_index(k)]);
        let zeroed = errors.update(self.error_index(k), 0);
        if self.dither {
            diffuse(
                zeroed,
                self.width(),
                self.height(),
                self.step_x(k),
                self.step_y(k),
                quant_error(corr, self.threshold),
            )
        } else {
            zeroed
        }
    }

    /// The residual buffer after the first `k` steps of the pass.
    pub open spec fn errors_after(self, k: nat) -> Seq<int>
        decreases k,
    {
        if k == 0 {
            Seq::new((self.width() * self.height()) as nat, |i: int| 0)
        } else {
            self.step_errors(self.errors_after((k - 1) as nat), k - 1)
        }
    }

    /// Corrected luminance seen at step `k`.
    pub open spec fn corrected_at(self, k: int) -> int {
        corrected_value(self.raw_at(k), self.errors_after(k as nat)[self.error_index(k)])
    }

    /// Whether step `k`'s sub-pixel is filled.
    pub open spec fn filled_at(self, k: int) -> bool {
        self.corrected_at(k) < self.threshold
    }

    /// The dot pattern of cell `c` (cells counted row-major).
    pub open spec fn cell_pattern(self, c: int) -> Seq<bool> {
        Seq::new(8, |i: int| self.filled_at(8 * c + i))
    }

    /// The glyph of cell `c`.
    pub open spec fn cell_glyph(self, c: int) -> char {
        crate::glyph::braille_char(self.cell_pattern(c))
    }

    /// The first `n` glyphs of cell row `cy`.
    pub open spec fn row_chars(self, cy: int, n: int) -> Seq<char>
        decreases n,
    {
        if n <= 0 {
            Seq::empty()
        } else {
            self.row_chars(cy, n - 1).push(self.cell_glyph(cy * self.cells_wide + (n - 1)))
        }
    }

    /// The first `n` complete rows of the frame, each ending in a newline.
    pub open spec fn rows_chars(self, n: int) -> Seq<char>
        decreases n,
    {
        if n <= 0 {
            Seq::empty()
        } else {
            self.rows_chars(n - 1) + self.row_chars(n - 1, self.cells_wide) + seq!['\n']
        }
    }

    /// The full text of one frame: the cursor-home escape, then every row.
    pub open spec fn frame_chars(self) -> Seq<char> {
        home_escape() + self.rows_chars(self.cells_high)
    }
}

/// A step number built from in-range cell coordinates is itself in range,
/// and visits the expected sub-pixel.
proof fn lemma_step_decompose(rs: RasterModel, cell_x: int, cell_y: int, sub: int)
    requires
        1 <= rs.cells_wide,
        0 <= cell_x < rs.cells_wide,
        0 <= cell_y < rs.cells_high,
        0 <= sub < 8,
    ensures
        0 <= step_index(rs.cells_wide, cell_x, cell_y, sub) < rs.total_steps(),
        rs.step_x(step_index(rs.cells_wide, cell_x, cell_y, sub)) == cell_x * 2 + sub % 2,
        rs.step_y(step_index(rs.cells_wide, cell_x, cell_y, sub)) == cell_y * 4 + sub / 2,
{
    let k = step_index(rs.cells_wide, cell_x, cell_y, sub);
    let cell = cell_y * rs.cells_wide + cell_x;
    assert(0 <= cell) by (nonlinear_arith)
        requires
            0 <= cell_x,
            0 <= cell_y,
            1 <= rs.cells_wide,
            cell == cell_y * rs.cells_wide + cell_x,
    ;
    lemma_fundamental_div_mod_converse(k, 8, cell, sub);
    lemma_fundamental_div_mod_converse(cell, rs.cells_wide, cell_y, cell_x);
    assert((cell_y * rs.cells_wide + cell_x) * 8 + sub < rs.cells_wide * rs.cells_high * 8)
        by (nonlinear_arith)
        requires
            0 <= cell_x < rs.cells_wide,
            0 <= cell_y < rs.cells_high,
            0 <= sub < 8,
    ;
}

/// Every step of the pass stays inside the logical frame.
proof fn lemma_step_position(rs: RasterModel, k: int)
    requires
        1 <= rs.cells_wide,
        1 <= rs.cells_high,
        0 <= k < rs.total_steps(),
    ensures
        0 <= rs.step_x(k) < rs.width(),
        0 <= rs.step_y(k) < rs.height(),
        0 <= rs.error_index(k) < rs.width() * rs.height(),
{
    let cell = k / 8;
    let sub = k % 8;
    lemma_fundamental_div_mod(k, 8);
    assert(8 * cell < rs.cells_wide * rs.cells_high * 8);
    let cx = cell % rs.cells_wide;
    let cy = cell / rs.cells_wide;
    lemma_fundamental_div_mod(cell, rs.cells_wide);
    assert(0 <= cy && cy < rs.cells_high) by (nonlinear_arith)
        requires
            cell == rs.cells_wide * cy + cx,
            0 <= cx < rs.cells_wide,
            0 <= cell,
            8 * cell < rs.cells_wide * rs.cells_high * 8,
            1 <= rs.cells_wide,
    ;
    lemma_fundamental_div_mod(sub, 2);
    assert(rs.step_y(k) * rs.width() + rs.step_x(k) < rs.width() * rs.height())
        by (nonlinear_arith)
        requires
            0 <= rs.step_x(k) < rs.width(),
            0 <= rs.step_y(k) < rs.height(),
    ;
}

/// A readable frame is large enough for its own residual buffer, and the
/// pass has exactly one step per sub-pixel.
proof fn lemma_frame_fits(rs: RasterModel)
    requires
        rs.wf(),
    ensures
        rs.total_steps() == rs.width() * rs.height(),
        rs.width() * rs.height() <= rs.pixels.len(),
{
    assert(rs.total_steps() == rs.width() * rs.height()) by (nonlinear_arith)
        requires
            rs.width() == rs.cells_wide * 2,
            rs.height() == rs.cells_high * 4,
            rs.total_steps() == rs.cells_wide * rs.cells_high * 8,
    ;
    assert(rs.width() * rs.height() <= (rs.height() - 1) * rs.skip + rs.width())
        by (nonlinear_arith)
        requires
            1 <= rs.height(),
            0 <= rs.width() <= rs.skip,
    ;
}

/// Adding a nonnegative amount at one coordinate keeps the buffer length
/// and raises the bound by at most that amount.
proof fn lemma_add_at_bounded(
    errors: Seq<int>,
    w: int,
    h: int,
    x: int,
    y: int,
    amount: int,
    bound: int,
)
    requires
        errors.len() == w * h,
        residuals_bounded(errors, bound),
        0 <= amount,
        0 <= bound,
    ensures
        add_at(errors, w, h, x, y, amount).len() == errors.len(),
        residuals_bounded(add_at(errors, w, h, x, y, amount), bound + amount),
{
    if 0 <= x && x < w && 0 <= y && y < h {
        assert(0 <= y * w + x < w * h) by (nonlinear_arith)
            requires
                0 <= x < w,
                0 <= y < h,
        ;
    }
}

/// After `k` steps every residual is between zero and `4080 * k`
/// sixteenths: each step deposits at most `16 * 255` sixteenths in total.
proof fn lemma_errors_after_bounds(rs: RasterModel, k: nat)
    requires
        1 <= rs.cells_wide,
        1 <= rs.cells_high,
        k <= rs.total_steps(),
    ensures
        rs.errors_after(k).len() == rs.width() * rs.height(),
        residuals_bounded(rs.errors_after(k), 4080 * (k as int)),
    decreases k,
{
    if k == 0 {
    } else {
        let j = (k - 1) as nat;
        lemma_errors_after_bounds(rs, j);
        lemma_step_position(rs, k - 1);
        let prev = rs.errors_after(j);
        let ei = rs.error_index(k - 1);
        let res = prev[ei];
        let raw = rs.raw_at(k - 1);
        lemma_div_pos_is_pos(raw * 16 + res + 8, 16);
        let corr = corrected_value(raw, res);
        let e = quant_error(corr, rs.threshold);
        assert(0 <= e <= 255);
        let zeroed = prev.update(ei, 0);
        assert(residuals_bounded(zeroed, 4080 * (j as int)));
        if rs.dither {
            let w = rs.width();
            let h = rs.height();
            let x = rs.step_x(k - 1);
            let y = rs.step_y(k - 1);
            let a = add_at(zeroed, w, h, x + 1, y, e * 7);
            let b = add_at(a, w, h, x - 1, y + 1, e * 3);
            let c = add_at(b, w, h, x, y + 1, e * 5);
            let d = add_at(c, w, h, x + 1, y + 1, e * 1);
            lemma_add_at_bounded(zeroed, w, h, x + 1, y, e * 7, 4080 * (j as int));
            lemma_add_at_bounded(a, w, h, x - 1, y + 1, e * 3, 4080 * (j as int) + e * 7);
            lemma_add_at_bounded(b, w, h, x, y + 1, e * 5, 4080 * (j as int) + e * 7 + e * 3);
            lemma_add_at_bounded(c, w, h, x + 1, y + 1, e * 1, 4080 * (j as int) + e * 7 + e * 3 + e * 5);
            assert(residuals_bounded(d, 4080 * (k as int)));
        } else {
            assert(residuals_bounded(rs.errors_after(k), 4080 * (k as int)));
        }
    }
}

/// Relies on `String::push`: it appends exactly the given character to the
/// end of the string.
#[verifier::external_body]
fn push_char(s: &mut String, c: char)
    ensures
        final(s)@ == old(s)@.push(c),
{
    s.push(c);
}

/// Threshold one sub-pixel: read its sample, apply and clear its residual,
/// decide whether it is filled, and (with dithering) spread the
/// quantization error to the neighbours the kernel names.
#[verifier::rlimit(100)]
fn quantize_sub(
    pixels: &[u8],
    options: &Options,
    skip_width: usize,
    scaled_width: usize,
    scaled_height: usize,
    errors: &mut Vec<u128>,
    cell_x: usize,
    cell_y: usize,
    sub: usize,
    model: Ghost<RasterModel>,
) -> (filled: bool)
    requires
        cell_x < scaled_width,
        cell_y < scaled_height,
        sub < 8,
        scaled_width * 2 <= skip_width,
        scaled_height * 4 <= usize::MAX,
        pixels@.len() >= (scaled_height * 4 - 1) * skip_width + scaled_width * 2,
        model@ == model_of(
            pixels@,
            skip_width as int,
            scaled_width as int,
            scaled_height as int,
            *options,
        ),
        errors_match(
            old(errors)@,
            model@.errors_after(
                step_index(scaled_width as int, cell_x as int, cell_y as int, sub as int) as nat,
            ),
        ),
    ensures
        errors_match(
            final(errors)@,
            model@.errors_after(
                (step_index(scaled_width as int, cell_x as int, cell_y as int, sub as int)
                    + 1) as nat,
            ),
        ),
        filled == model@.filled_at(
            step_index(scaled_width as int, cell_x as int, cell_y as int, sub as int),
        ),
{
    let ghost rs = model@;
    let ghost k: int = step_index(scaled_width as int, cell_x as int, cell_y as int, sub as int);
    proof {
        lemma_step_decompose(rs, cell_x as int, cell_y as int, sub as int);
        lemma_step_position(rs, k);
        lemma_frame_fits(rs);
        lemma_errors_after_bounds(rs, k as nat);
    }
    let pixel_count = pixels.len();
    let width = scaled_width * 2;
    let height = scaled_height * 4;
    let x = cell_x * 2 + sub % 2;
    let y = cell_y * 4 + sub / 2;
    proof {
        assert(x as int == rs.step_x(k));
        assert(y as int == rs.step_y(k));
        assert(width as int == rs.width());
        assert((y as int) * (width as int) + (x as int) == rs.error_index(k));
        assert(rs.error_index(k) < rs.width() * rs.height());
        assert(rs.width() * rs.height() <= pixel_count as int);
        assert((y as int) * (skip_width as int) <= (rs.height() - 1) * rs.skip)
            by (nonlinear_arith)
            requires
                0 <= y as int <= rs.height() - 1,
                0 <= rs.skip == skip_width as int,
        ;
        assert((y as int) * (skip_width as int) + (x as int) < pixel_count as int);
    }
    let ei = y * width + x;
    let pi = y * skip_width + x;
    proof {
        assert(ei as int == rs.error_index(k));
        assert(pi < pixels@.len());
    }
    let raw = pixels[pi];
    let res = errors[ei];
    let ghost m0 = rs.errors_after(k as nat);
    proof {
        assert(res as int == m0[ei as int]);
        assert(res as int <= 4080 * k);
        assert(4080 * k + 4088 <= u128::MAX) by (nonlinear_arith)
            requires
                0 <= k <= rs.total_steps(),
                rs.total_steps() <= rs.pixels.len(),
                rs.pixels.len() <= usize::MAX,
        ;
    }
    let sum: u128 = (raw as u128) * 16 + res + 8;
    let corrected = sum / 16;
    let corr: u8 = if corrected > 255 {
        255
    } else {
        corrected as u8
    };
    proof {
        assert(corr as int == corrected_value(raw, res as int));
        assert(corr as int == rs.corrected_at(k));
    }
    errors[ei] = 0;
    let ghost m1 = m0.update(ei as int, 0);
    proof {
        assert(errors_match(errors@, m1));
    }
    let filled = corr < options.threshold;
    if options.dither {
        let e: u8 = if filled {
            corr
        } else {
            corr - options.threshold
        };
        let ghost w_i = rs.width();
        let ghost h_i = rs.height();
        let ghost x_i = x as int;
        let ghost y_i = y as int;
        let ghost e_i = e as int;
        proof {
            assert(e_i == quant_error(rs.corrected_at(k), rs.threshold));
            lemma_add_at_bounded(m1, w_i, h_i, x_i + 1, y_i, e_i * 7, 4080 * k);
            lemma_add_at_bounded(
                add_at(m1, w_i, h_i, x_i + 1, y_i, e_i * 7),
                w_i,
                h_i,
                x_i - 1,
                y_i + 1,
                e_i * 3,
                4080 * k + e_i * 7,
            );
            lemma_add_at_bounded(
                add_at(add_at(m1, w_i, h_i, x_i + 1, y_i, e_i * 7), w_i, h_i, x_i - 1, y_i + 1,
                    e_i * 3),
                w_i,
                h_i,
                x_i,
                y_i + 1,
                e_i * 5,
                4080 * k + e_i * 7 + e_i * 3,
            );
        }
        let ghost m2 = add_at(m1, w_i, h_i, x_i + 1, y_i, e_i * 7);
        if x + 1 < width {
            proof {
                assert(y_i * w_i + (x_i + 1) < w_i * h_i) by (nonlinear_arith)
                    requires
                        0 <= x_i + 1 < w_i,
                        0 <= y_i < h_i,
                ;
            }
            let idx = ei + 1;
            proof {
                assert(idx as int == y_i * w_i + (x_i + 1));
                assert(idx < errors@.len());
                assert(errors@[idx as int] as int == m1[idx as int]);
            }
            let cur = errors[idx];
            errors[idx] = cur + (e as u128) * 7;
            proof {
                assert(errors_match(errors@, m2));
            }
        } else {
            proof {
                assert(m2 == m1);
                assert(errors_match(errors@, m2));
            }
        }
        let ghost m3 = add_at(m2, w_i, h_i, x_i - 1, y_i + 1, e_i * 3);
        if x >= 1 && y + 1 < height {
            proof {
                assert((y_i + 1) * w_i + x_i < w_i * h_i) by (nonlinear_arith)
                    requires
                        0 <= x_i < w_i,
                        0 <= y_i + 1 < h_i,
                ;
                assert((y_i + 1) * w_i == y_i * w_i + w_i) by (nonlinear_arith);
            }
            let idx = ei + width - 1;
            proof {
                assert(idx as int == (y_i + 1) * w_i + (x_i - 1));
                assert(idx < errors@.len());
            }
            let cur = errors[idx];
            errors[idx] = cur + (e as u128) * 3;
            proof {
                assert(errors_match(errors@, m3));
            }
        } else {
            proof {
                assert(m3 == m2);
            }
        }
        let ghost m4 = add_at(m3, w_i, h_i, x_i, y_i + 1, e_i * 5);
        if y + 1 < height {
            proof {
                assert((y_i + 1) * w_i + x_i < w_i * h_i) by (nonlinear_arith)
                    requires
                        0 <= x_i < w_i,
                        0 <= y_i + 1 < h_i,
                ;
                assert((y_i + 1) * w_i == y_i * w_i + w_i) by (nonlinear_arith);
            }
            let idx = ei + width;
            proof {
                assert(idx as int == (y_i + 1) * w_i + x_i);
                assert(idx < errors@.len());
            }
            let cur = errors[idx];
            errors[idx] = cur + (e as u128) * 5;
            proof {
                assert(errors_match(errors@, m4));
            }
        } else {
            proof {
                assert(m4 == m3);
            }
        }
        let ghost m5 = add_at(m4, w_i, h_i, x_i + 1, y_i + 1, e_i * 1);
        if x + 1 < width && y + 1 < height {
            proof {
                assert((y_i + 1) * w_i + (x_i + 1) < w_i * h_i) by (nonlinear_arith)
                    requires
                        0 <= x_i + 1 < w_i,
                        0 <= y_i + 1 < h_i,
                ;
                assert((y_i + 1) * w_i == y_i * w_i + w_i) by (nonlinear_arith);
            }
            let idx = ei + width + 1;
            proof {
                assert(idx as int == (y_i + 1) * w_i + (x_i + 1));
                assert(idx < errors@.len());
            }
            let cur = errors[idx];
            errors[idx] = cur + (e as u128) * 1;
            proof {
                assert(errors_match(errors@, m5));
            }
        } else {
            proof {
                assert(m5 == m4);
            }
        }
        proof {
            assert(rs.errors_after((k + 1) as nat) == rs.step_errors(m0, k));
            assert(rs.step_errors(m0, k) == m5);
        }
    } else {
        proof {
            assert(rs.errors_after((k + 1) as nat) == rs.step_errors(m0, k));
            assert(rs.step_errors(m0, k) == m1);
        }
    }
    filled
}

/// Quantize the eight sub-pixels of one cell, in raster order, and encode
/// the resulting dot pattern as its glyph.
#[verifier::rlimit(60)]
fn render_cell(
    pixels: &[u8],
    options: &Options,
    skip_width: usize,
    scaled_width: usize,
    scaled_height: usize,
    errors: &mut Vec<u128>,
    cell_x: usize,
    cell_y: usize,
    model: Ghost<RasterModel>,
) -> (glyph: char)
    requires
        cell_x < scaled_width,
        cell_y < scaled_height,
        scaled_width * 2 <= skip_width,
        scaled_height * 4 <= usize::MAX,
        pixels@.len() >= (scaled_height * 4 - 1) * skip_width + scaled_width * 2,
        model@ == model_of(
            pixels@,
            skip_width as int,
            scaled_width as int,
            scaled_height as int,
            *options,
        ),
        errors_match(
            old(errors)@,
            model@.errors_after(
                (((cell_y as int) * (scaled_width as int) + (cell_x as int)) * 8) as nat,
            ),
        ),
    ensures
        errors_match(
            final(errors)@,
            model@.errors_after(
                (((cell_y as int) * (scaled_width as int) + (cell_x as int) + 1) * 8) as nat,
            ),
        ),
        glyph == model@.cell_glyph((cell_y as int) * (scaled_width as int) + (cell_x as int)),
{
    let ghost rs = model@;
    let ghost cell: int = (cell_y as int) * (scaled_width as int) + (cell_x as int);
    let f0 = quantize_sub(
        pixels, options, skip_width, scaled_width, scaled_height, errors, cell_x, cell_y, 0,
        model);
    let f1 = quantize_sub(
        pixels, options, skip_width, scaled_width, scaled_height, errors, cell_x, cell_y, 1,
        model);
    let f2 = quantize_sub(
        pixels, options, skip_width, scaled_width, scaled_height, errors, cell_x, cell_y, 2,
        model);
    let f3 = quantize_sub(
        pixels, options, skip_width, scaled_width, scaled_height, errors, cell_x, cell_y, 3,
        model);
    let f4 = quantize_sub(
        pixels, options, skip_width, scaled_width, scaled_height, errors, cell_x, cell_y, 4,
        model);
    let f5 = quantize_sub(
        pixels, options, skip_width, scaled_width, scaled_height, errors, cell_x, cell_y, 5,
        model);
    let f6 = quantize_sub(
        pixels, options, skip_width, scaled_width, scaled_height, errors, cell_x, cell_y, 6,
        model);
    let f7 = quantize_sub(
        pixels, options, skip_width, scaled_width, scaled_height, errors, cell_x, cell_y, 7,
        model);
    let chunk: [bool; 8] = [f0, f1, f2, f3, f4, f5, f6, f7];
    proof {
        assert(chunk@ =~= rs.cell_pattern(cell));
        assert((((cell_y as int) * (scaled_width as int) + (cell_x as int)) * 8 + 7 + 1) as nat
            == (((cell_y as int) * (scaled_width as int) + (cell_x as int) + 1) * 8) as nat);
    }
    let glyph = crate::glyph::get_braille(chunk);
    proof {
        assert(glyph == rs.cell_glyph(cell));
    }
    glyph
}

/// Render one full cell row: quantize its cells left to right, append
/// their glyphs to `out`, and end the line with a newline.
#[verifier::loop_isolation(false)]
fn render_row(
    pixels: &[u8],
    options: &Options,
    skip_width: usize,
    scaled_width: usize,
    scaled_height: usize,
    errors: &mut Vec<u128>,
    out: &mut String,
    cell_y: usize,
    model: Ghost<RasterModel>,
)
    requires
        cell_y < scaled_height,
        scaled_width * 2 <= skip_width,
        scaled_height * 4 <= usize::MAX,
        scaled_width > 0 ==> pixels@.len() >= (scaled_height * 4 - 1) * skip_width + scaled_width
            * 2,
        model@ == model_of(
            pixels@,
            skip_width as int,
            scaled_width as int,
            scaled_height as int,
            *options,
        ),
        errors_match(
            old(errors)@,
            model@.errors_after(((cell_y as int) * (scaled_width as int) * 8) as nat),
        ),
    ensures
        errors_match(
            final(errors)@,
            model@.errors_after((((cell_y as int) + 1) * (scaled_width as int) * 8) as nat),
        ),
        final(out)@ == old(out)@ + model@.row_chars(cell_y as int, scaled_width as int) + seq![
            '\n',
        ],
{
    let ghost rs = model@;
    let ghost start: Seq<char> = out@;
    let mut cx: usize = 0;
    while cx < scaled_width
        invariant
            cx <= scaled_width,
            errors_match(
                errors@,
                rs.errors_after((((cell_y as int) * rs.cells_wide + (cx as int)) * 8) as nat),
            ),
            out@ == start + rs.row_chars(cell_y as int, cx as int),
        decreases scaled_width - cx,
    {
        let glyph = render_cell(
            pixels, options, skip_width, scaled_width, scaled_height, errors, cx, cell_y, model);
        push_char(out, glyph);
        proof {
            assert(out@ =~= start + rs.row_chars(cell_y as int, cx as int + 1));
        }
        cx += 1;
    }
    push_char(out, '\n');
    proof {
        assert(out@ =~= start + rs.row_chars(cell_y as int, scaled_width as int) + seq!['\n']);
        assert(((cell_y as int) * rs.cells_wide + rs.cells_wide) * 8 == (((cell_y as int) + 1)
            * rs.cells_wide) * 8) by (nonlinear_arith);
    }
}

/// Render one frame of terminal text from a grayscale buffer: the
/// cursor-home escape, then `scaled_height` lines of `scaled_width` Braille
/// glyphs, each line ending in a newline. Sub-pixels are thresholded in the
/// pass order and with the error diffusion that `options` selects.
#[verifier::loop_isolation(false)]
pub fn render_frame(
    pixels: &[u8],
    options: &Options,
    skip_width: usize,
    scaled_width: usize,
    scaled_height: usize,
) -> (out: String)
    requires
        scaled_width * 2 <= skip_width,
        scaled_height * 4 <= usize::MAX,
        scaled_width > 0 && scaled_height > 0 ==> pixels@.len() >= (scaled_height * 4 - 1)
            * skip_width + scaled_width * 2,
    ensures
        out@ == model_of(
            pixels@,
            skip_width as int,
            scaled_width as int,
            scaled_height as int,
            *options,
        ).frame_chars(),
{
    let ghost rs = model_of(
        pixels@,
        skip_width as int,
        scaled_width as int,
        scaled_height as int,
        *options,
    );
    let pixel_count = pixels.len();
    let width = scaled_width * 2;
    let height = scaled_height * 4;
    proof {
        if scaled_width > 0 && scaled_height > 0 {
            lemma_frame_fits(rs);
            assert((width as int) * (height as int) <= pixel_count as int);
        } else {
            assert((width as int) * (height as int) == 0) by (nonlinear_arith)
                requires
                    width as int == 0 || height as int == 0,
            ;
        }
    }
    let mut errors: Vec<u128> = Vec::new();
    let total = width * height;
    while errors.len() < total
        invariant
            errors@.len() <= total,
            forall|s: int| 0 <= s < errors@.len() ==> errors@[s] == 0u128,
        decreases total - errors@.len(),
    {
        errors.push(0);
    }
    let mut out = String::new();
    out.append("\x1b[0;0H");
    proof {
        reveal_strlit("\x1b[0;0H");
        assert(out@ =~= home_escape());
        assert(errors_match(errors@, rs.errors_after(0)));
        assert(out@ =~= home_escape() + rs.rows_chars(0));
    }
    let mut cy: usize = 0;
    while cy < scaled_height
        invariant
            cy <= scaled_height,
            errors_match(errors@, rs.errors_after(((cy as int) * rs.cells_wide * 8) as nat)),
            out@ == home_escape() + rs.rows_chars(cy as int),
        decreases scaled_height - cy,
    {
        render_row(
            pixels, options, skip_width, scaled_width, scaled_height, &mut errors, &mut out, cy,
            Ghost(rs));
        proof {
            assert(out@ =~= home_escape() + rs.rows_chars(cy as int + 1));
        }
        cy += 1;
    }
    proof {
        assert(out@ == home_escape() + rs.rows_chars(rs.cells_high));
    }
    out
}

/// The sum of all residuals in a buffer, in sixteenths.
pub open spec fn sum_residuals(errors: Seq<int>) -> int
    decreases errors.len(),
{
    if errors.len() == 0 {
        0
    } else {
        sum_residuals(errors.drop_last()) + errors.last()
    }
}

/// Overwriting one slot changes the sum by the difference at that slot.
proof fn lemma_sum_update(errors: Seq<int>, i: int, v: int)
    requires
        0 <= i < errors.len(),
    ensures
        sum_residuals(errors.update(i, v)) == sum_residuals(errors) - errors[i] + v,
    decreases errors.len(),
{
    let t = errors.update(i, v);
    if i == errors.len() - 1 {
        assert(t.drop_last() =~= errors.drop_last());
    } else {
        assert(t.drop_last() =~= errors.drop_last().update(i, v));
        lemma_sum_update(errors.drop_last(), i, v);
    }
}

/// A kernel deposit raises the total residual by exactly its amount when
/// its target lies inside the frame, and by nothing when it is dropped.
proof fn lemma_add_at_sum(errors: Seq<int>, w: int, h: int, x: int, y: int, amount: int)
    requires
        errors.len() == w * h,
    ensures
        add_at(errors, w, h, x, y, amount).len() == errors.len(),
        sum_residuals(add_at(errors, w, h, x, y, amount)) == sum_residuals(errors) + (
        if 0 <= x && x < w && 0 <= y && y < h {
            amount
        } else {
            0
        }),
{
    if 0 <= x && x < w && 0 <= y && y < h {
        assert(0 <= y * w + x < w * h) by (nonlinear_arith)
            requires
                0 <= x < w,
                0 <= y < h,
        ;
        lemma_sum_update(errors, y * w + x, errors[y * w + x] + amount);
    }
}

/// With dithering disabled the residual buffer stays all-zero through the
/// whole pass.
proof fn lemma_no_dither_zero(rs: RasterModel, k: nat)
    requires
        !rs.dither,
        1 <= rs.cells_wide,
        1 <= rs.cells_high,
        k <= rs.total_steps(),
    ensures
        rs.errors_after(k).len() == rs.width() * rs.height(),
        forall|s: int| 0 <= s < rs.errors_after(k).len() ==> #[trigger] rs.errors_after(k)[s]
            == 0,
    decreases k,
{
    if k > 0 {
        lemma_no_dither_zero(rs, (k - 1) as nat);
        lemma_step_position(rs, k - 1);
    }
}

/// With dithering disabled no residual ever accumulates, so each sub-pixel
/// is filled exactly when its raw sample lies strictly below the threshold.
pub proof fn lemma_no_dither_filled(rs: RasterModel, k: int)
    requires
        !rs.dither,
        1 <= rs.cells_wide,
        1 <= rs.cells_high,
        0 <= k < rs.total_steps(),
    ensures
        rs.filled_at(k) == (rs.raw_at(k) < rs.threshold),
{
    lemma_no_dither_zero(rs, k as nat);
    lemma_step_position(rs, k);
    let raw = rs.raw_at(k);
    lemma_fundamental_div_mod_converse(raw * 16 + 8, 16, raw as int, 8);
    assert(rs.corrected_at(k) == raw as int);
}

/// One dithering step away from the left, right and bottom edges conserves
/// error: it removes the sub-pixel's residual and deposits exactly sixteen
/// sixteenths of its quantization error on the four neighbours, since the
/// kernel weights 7, 3, 5 and 1 sum to 16.
pub proof fn lemma_error_conserved(rs: RasterModel, k: int)
    requires
        rs.dither,
        1 <= rs.cells_wide,
        1 <= rs.cells_high,
        0 <= k < rs.total_steps(),
        1 <= rs.step_x(k),
        rs.step_x(k) + 1 < rs.width(),
        rs.step_y(k) + 1 < rs.height(),
    ensures
        sum_residuals(rs.errors_after((k + 1) as nat)) == sum_residuals(rs.errors_after(k as nat))
            - rs.errors_after(k as nat)[rs.error_index(k)] + 16 * quant_error(
            rs.corrected_at(k),
            rs.threshold,
        ),
{
    lemma_errors_after_bounds(rs, k as nat);
    lemma_step_position(rs, k);
    let prev = rs.errors_after(k as nat);
    let w = rs.width();
    let h = rs.height();
    let x = rs.step_x(k);
    let y = rs.step_y(k);
    let e = quant_error(rs.corrected_at(k), rs.threshold);
    let zeroed = prev.update(rs.error_index(k), 0);
    lemma_sum_update(prev, rs.error_index(k), 0);
    let a = add_at(zeroed, w, h, x + 1, y, e * 7);
    let b = add_at(a, w, h, x - 1, y + 1, e * 3);
    let c = add_at(b, w, h, x, y + 1, e * 5);
    lemma_add_at_sum(zeroed, w, h, x + 1, y, e * 7);
    lemma_add_at_sum(a, w, h, x - 1, y + 1, e * 3);
    lemma_add_at_sum(b, w, h, x, y + 1, e * 5);
    lemma_add_at_sum(c, w, h, x + 1, y + 1, e * 1);
    assert(rs.errors_after((k + 1) as nat) == rs.step_errors(prev, k));
}

/// Round a sub-pixel row width up to the next multiple of 32, the
/// alignment the scaling stage pads each buffer row to.
pub fn padded_width(width: usize) -> (padded: usize)
    requires
        width + 31 <= usize::MAX,
    ensures
        padded % 32 == 0,
        width <= padded < width + 32,
{
    let remainder = width % 32;
    let adjust = 32 - remainder;
    let adjust = if adjust == 32 {
        0
    } else {
        adjust
    };
    proof {
        lemma_fundamental_div_mod(width as int, 32);
        if remainder != 0 {
            lemma_fundamental_div_mod_converse(
                width as int + (32 - remainder),
                32,
                width as int / 32 + 1,
                0,
            );
        }
    }
    width + adjust
}

} // verus!
