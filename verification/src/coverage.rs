use vstd::prelude::*;

use crate::raster::lemma_before_row;

verus! {

/// Every pixel `(x, y)` of a `width` by `height` raster, row by row from the
/// top, each row from the left: pixel `(x, y)` stands at `y * width + x`.
pub fn pixel_grid(width: usize, height: usize) -> (r: Vec<(usize, usize)>)
    requires
        width * height <= usize::MAX,
    ensures
        r@.len() == width * height,
        forall|x: int, y: int|
            0 <= x < width && 0 <= y < height ==> #[trigger] r@[y * width + x] == (
            x as usize,
            y as usize,
        ),
{
    let ghost w = width as int;
    let mut r: Vec<(usize, usize)> = Vec::new();
    let mut y: usize = 0;
    while y < height
        invariant
            y <= height,
            w == width,
            width * height <= usize::MAX,
            r@.len() == y * w,
            forall|i: int, j: int|
                0 <= i < w && 0 <= j < y ==> #[trigger] r@[j * w + i] == (i as usize, j as usize),
        decreases height - y,
    {
        let mut x: usize = 0;
        while x < width
            invariant
                x <= width,
                y < height,
                w == width,
                r@.len() == y * w + x,
                forall|i: int, j: int|
                    0 <= i < w && 0 <= j < y ==> #[trigger] r@[j * w + i] == (i as usize, j as usize),
                forall|i: int| 0 <= i < x ==> #[trigger] r@[y * w + i] == (i as usize, y),
            decreases width - x,
        {
            let ghost prev = r@;
            r.push((x, y));
            proof {
                assert forall|i: int, j: int| 0 <= i < w && 0 <= j < y implies #[trigger] r@[j * w + i] == prev[j * w + i] by {
                    lemma_before_row(w, i, j, y as int);
                }
                assert forall|i: int| 0 <= i < x implies #[trigger] r@[y * w + i] == prev[y * w + i] by {}
            }
            x = x + 1;
        }
        proof {
            assert((y + 1) * w == y * w + w) by (nonlinear_arith);
        }
        y = y + 1;
    }
    proof {
        assert(height * w == width * height) by (nonlinear_arith)
            requires
                w == width,
        ;
    }
    r
}

} // verus!
