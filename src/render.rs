//! What a worker computes for one row: each pixel's colour from its
//! iteration count.

use vstd::prelude::*;
use crate::color::{Color, wavelength_color, wavelength_to_rgb};
use crate::frame::{distinct_cells, pixel_cell};
use crate::raster::frame_cells;
use vstd::arithmetic::div_mod::{lemma_fundamental_div_mod, lemma_fundamental_div_mod_converse};

verus! {

/// The wavelength that stands for an iteration count: `[0, max_iter)` spread
/// over `[380, 780)`.
pub open spec fn iteration_wavelength(count: int, max_iter: int) -> int {
    380 + count * 400 / max_iter
}

pub open spec fn iteration_color_of(count: int, max_iter: int) -> Color {
    wavelength_color(iteration_wavelength(count, max_iter))
}

/// One pixel of a row as it is handed to the assembler.
pub open spec fn row_pixel(y: int, counts: Seq<u32>, max_iter: int, x: int) -> (u32, u32, Color) {
    (x as u32, y as u32, iteration_color_of(counts[x] as int, max_iter))
}

/// The colour of a pixel whose orbit took `count` of `max_iter` iterations.
pub fn iteration_color(count: u32, max_iter: u32) -> (r: Color)
    requires
        count < max_iter,
    ensures
        r == iteration_color_of(count as int, max_iter as int),
        380 <= iteration_wavelength(count as int, max_iter as int) < 780,
{
    let scaled = (count as u64) * 400;
    assert(scaled < (max_iter as u64) * 400) by (nonlinear_arith)
        requires
            scaled == count * 400,
            count < max_iter,
    ;
    let step = scaled / (max_iter as u64);
    assert(step < 400) by (nonlinear_arith)
        requires
            step == scaled as int / max_iter as int,
            scaled < max_iter * 400,
            max_iter > 0,
    ;
    wavelength_to_rgb(380 + step as u32)
}

/// The pixels of row `y`, from the iteration count of each of its columns.
pub fn render_row(y: u32, counts: &Vec<u32>, max_iter: u32) -> (r: Vec<(u32, u32, Color)>)
    requires
        counts@.len() <= u32::MAX + 1,
        forall|x: int| 0 <= x < counts@.len() ==> #[trigger] counts@[x] < max_iter,
    ensures
        r@.len() == counts@.len(),
        forall|x: int|
            0 <= x < counts@.len() ==> #[trigger] r@[x] == row_pixel(
                y as int,
                counts@,
                max_iter as int,
                x,
            ),
{
    let mut row: Vec<(u32, u32, Color)> = Vec::new();
    let mut x: usize = 0;
    while x < counts.len()
        invariant
            x <= counts@.len() <= u32::MAX + 1,
            row@.len() == x,
            forall|x: int| 0 <= x < counts@.len() ==> #[trigger] counts@[x] < max_iter,
            forall|i: int|
                0 <= i < x ==> #[trigger] row@[i] == row_pixel(y as int, counts@, max_iter as int, i),
        decreases counts@.len() - x,
    {
        let color = iteration_color(counts[x], max_iter);
        row.push((x as u32, y, color));
        x += 1;
    }
    row
}

/// The pixels of rows `0 .. h`, row after row, row `y` rendered from the
/// counts `counts[y]`, as `render_row` returns them.
pub open spec fn frame_pixels(counts: Seq<Seq<u32>>, max_iter: int, h: int) -> Seq<
    (u32, u32, Color),
>
    decreases h,
{
    if h <= 0 {
        Seq::empty()
    } else {
        frame_pixels(counts, max_iter, h - 1) + Seq::new(
            counts[h - 1].len(),
            |x: int| row_pixel(h - 1, counts[h - 1], max_iter, x),
        )
    }
}

proof fn lemma_frame_pixel_cells(counts: Seq<Seq<u32>>, max_iter: int, width: int, h: int)
    requires
        0 < width <= u32::MAX + 1,
        0 <= h <= counts.len() <= u32::MAX + 1,
        forall|y: int| 0 <= y < counts.len() ==> (#[trigger] counts[y]).len() == width,
    ensures
        frame_pixels(counts, max_iter, h).len() == width * h,
        forall|k: int|
            0 <= k < width * h ==> pixel_cell(#[trigger] frame_pixels(counts, max_iter, h)[k]) == (
                k % width,
                k / width,
            ),
    decreases h,
{
    if h > 0 {
        lemma_frame_pixel_cells(counts, max_iter, width, h - 1);
        let fp = frame_pixels(counts, max_iter, h);
        let prev = frame_pixels(counts, max_iter, h - 1);
        assert(width * h == width * (h - 1) + width) by (nonlinear_arith);
        assert forall|k: int| 0 <= k < width * h implies pixel_cell(#[trigger] fp[k]) == (
            k % width,
            k / width,
        ) by {
            if k >= width * (h - 1) {
                let x = k - width * (h - 1);
                assert(fp[k] == row_pixel(h - 1, counts[h - 1], max_iter, x));
                assert(k == (h - 1) * width + x) by (nonlinear_arith)
                    requires
                        x == k - width * (h - 1),
                ;
                lemma_fundamental_div_mod_converse(k, width, h - 1, x);
            } else {
                assert(fp[k] == prev[k]);
            }
        }
    } else {
        assert(width * h == 0) by (nonlinear_arith)
            requires
                h == 0,
        ;
    }
}

/// The rows `0 .. height`, each rendered from `width` counts, hand the
/// assembler every cell of the frame exactly once: `width * height` pixels,
/// no cell twice, no cell missing.
pub proof fn lemma_rows_cover_frame(counts: Seq<Seq<u32>>, max_iter: int, width: int, height: int)
    requires
        0 <= width <= u32::MAX + 1,
        counts.len() == height <= u32::MAX + 1,
        forall|y: int| 0 <= y < height ==> (#[trigger] counts[y]).len() == width,
    ensures
        frame_pixels(counts, max_iter, height).len() == width * height,
        distinct_cells(frame_pixels(counts, max_iter, height)),
        frame_pixels(counts, max_iter, height).map_values(|p: (u32, u32, Color)| pixel_cell(p)).to_set()
            == frame_cells(width, height),
{
    let fp = frame_pixels(counts, max_iter, height);
    let cells = fp.map_values(|p: (u32, u32, Color)| pixel_cell(p));
    if width == 0 {
        lemma_empty_rows(counts, max_iter, height);
        assert(cells.to_set() =~= frame_cells(width, height));
    } else {
        lemma_frame_pixel_cells(counts, max_iter, width, height);
        assert forall|i: int, j: int| 0 <= i < j < fp.len() implies pixel_cell(#[trigger] fp[i])
            != pixel_cell(#[trigger] fp[j]) by {
            lemma_fundamental_div_mod(i, width);
            lemma_fundamental_div_mod(j, width);
        }
        assert forall|p: (int, int)| #[trigger] cells.to_set().contains(p) == frame_cells(
            width,
            height,
        ).contains(p) by {
            if frame_cells(width, height).contains(p) {
                let k = p.1 * width + p.0;
                assert(0 <= k < width * height) by (nonlinear_arith)
                    requires
                        0 <= p.0 < width,
                        0 <= p.1 < height,
                        k == p.1 * width + p.0,
                ;
                lemma_fundamental_div_mod_converse(k, width, p.1, p.0);
                assert(cells[k] == p);
            }
            if cells.to_set().contains(p) {
                let k = choose|k: int| 0 <= k < cells.len() && cells[k] == p;
                assert(pixel_cell(fp[k]) == (k % width, k / width));
                lemma_fundamental_div_mod(k, width);
                assert(0 <= k % width < width && 0 <= k / width < height) by (nonlinear_arith)
                    requires
                        0 <= k < width * height,
                        width > 0,
                        k == width * (k / width) + k % width,
                        0 <= k % width < width,
                ;
            }
        }
        assert(cells.to_set() =~= frame_cells(width, height));
    }
}

proof fn lemma_empty_rows(counts: Seq<Seq<u32>>, max_iter: int, h: int)
    requires
        0 <= h <= counts.len(),
        forall|y: int| 0 <= y < h ==> (#[trigger] counts[y]).len() == 0,
    ensures
        frame_pixels(counts, max_iter, h).len() == 0,
    decreases h,
{
    if h > 0 {
        lemma_empty_rows(counts, max_iter, h - 1);
    }
}

} // verus!
