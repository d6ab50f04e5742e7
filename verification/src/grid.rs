use vstd::prelude::*;

use crate::raster::lemma_cell_offset;

verus! {

/// The cell after `i` along an axis of `size` cells, staying on the last one.
pub open spec fn next_cell(i: int, size: int) -> int {
    if i + 1 < size {
        i + 1
    } else {
        size - 1
    }
}

/// Row-major positions, in a terrain grid, of the four cells around a sample
/// point and of the one nearest to it.
#[derive(Debug, Clone, Copy)]
pub struct GridCorners {
    pub upper_left: usize,
    pub upper_right: usize,
    pub lower_left: usize,
    pub lower_right: usize,
    pub nearest: usize,
}

/// The cells that a bilinear sample at `(x0 + fx, y0 + fy)` reads, with
/// `0 <= fx, fy < 1`: `(x0, y0)`, its right and lower neighbours (clamped to
/// the last column and row), and the nearest of the four, which lies right
/// when `right_half` (`fx >= 0.5`) and below when `lower_half` (`fy >= 0.5`).
pub fn sample_cells(width: usize, height: usize, x0: usize, y0: usize, right_half: bool, lower_half: bool) -> (r: GridCorners)
    requires
        x0 < width,
        y0 < height,
        width * height <= usize::MAX,
    ensures
        r.upper_left == y0 * width + x0,
        x0 + 1 < width ==> r.upper_right == y0 * width + x0 + 1,
        x0 + 1 >= width ==> r.upper_right == y0 * width + width - 1,
        y0 + 1 < height ==> r.lower_left == (y0 + 1) * width + x0,
        y0 + 1 >= height ==> r.lower_left == (height - 1) * width + x0,
        ({
            let x1 = if x0 + 1 < width { x0 + 1 } else { width - 1 };
            let y1 = if y0 + 1 < height { y0 + 1 } else { height - 1 };
            let nx = if right_half { x1 } else { x0 as int };
            let ny = if lower_half { y1 } else { y0 as int };
            &&& r.lower_right == y1 * width + x1
            &&& r.nearest == ny * width + nx
        }),
        r.upper_right == y0 * width + next_cell(x0 as int, width as int),
        r.lower_left == next_cell(y0 as int, height as int) * width + x0,
        r.upper_left < width * height,
        r.upper_right < width * height,
        r.lower_left < width * height,
        r.lower_right < width * height,
        r.nearest < width * height,
{
    let x1 = if x0 + 1 < width { x0 + 1 } else { width - 1 };
    let y1 = if y0 + 1 < height { y0 + 1 } else { height - 1 };
    let nx = if right_half { x1 } else { x0 };
    let ny = if lower_half { y1 } else { y0 };
    proof {
        let (w, h) = (width as int, height as int);
        lemma_cell_offset(w, h, x0 as int, y0 as int, x0 as int, y0 as int);
        lemma_cell_offset(w, h, x1 as int, y0 as int, x1 as int, y0 as int);
        lemma_cell_offset(w, h, x0 as int, y1 as int, x0 as int, y1 as int);
        lemma_cell_offset(w, h, x1 as int, y1 as int, x1 as int, y1 as int);
        lemma_cell_offset(w, h, nx as int, ny as int, nx as int, ny as int);
    }
    GridCorners {
        upper_left: y0 * width + x0,
        upper_right: y0 * width + x1,
        lower_left: y1 * width + x0,
        lower_right: y1 * width + x1,
        nearest: ny * width + nx,
    }
}

} // verus!
