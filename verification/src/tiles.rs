use vstd::prelude::*;
use vstd::arithmetic::power2::{pow2, lemma_pow2_unfold, lemma_pow2_strictly_increases, lemma2_to64};

use crate::raster::{CoverageRaster, lemma_before_row};

verus! {

/// Side of a map tile, in pixels.
pub const TILE_SIZE: usize = 256;

/// A web-map tile: zoom level and column/row at that zoom.
#[derive(Debug, Clone, Copy)]
pub struct TileCoord {
    pub z: u8,
    pub x: u32,
    pub y: u32,
}

/// Number of values in the half-open range `lo..hi` (none when `hi <= lo`).
pub open spec fn span(lo: int, hi: int) -> int {
    if hi > lo {
        hi - lo
    } else {
        0
    }
}

/// Number of tiles along each axis at zoom level `zoom`: `2^zoom`.
pub fn zoom_scale(zoom: u8) -> (r: u32)
    requires
        zoom < 32,
    ensures
        r == pow2(zoom as nat),
{
    let mut r: u32 = 1;
    let mut k: u8 = 0;
    proof {
        lemma2_to64();
    }
    while k < zoom
        invariant
            k <= zoom < 32,
            r == pow2(k as nat),
        decreases zoom - k,
    {
        proof {
            lemma_pow2_unfold((k + 1) as nat);
            lemma_pow2_strictly_increases((k + 1) as nat, 32);
            lemma2_to64();
        }
        r = r * 2;
        k = k + 1;
    }
    r
}

/// Row-major offset arithmetic for a lattice `w` wide.
proof fn lemma_lattice_offset(w: int, i: int, j: int)
    requires
        0 <= i <= w,
        0 <= j,
    ensures
        j * w + i <= (j + 1) * w,
        (j + 1) * w == j * w + w,
        0 <= j * w,
{
    assert((j + 1) * w == j * w + w) by (nonlinear_arith);
    assert(0 <= j * w) by (nonlinear_arith)
        requires
            0 <= j,
            0 <= i <= w,
    ;
}

/// All tiles of zoom level `z` with column in `min_tx..max_tx` and row in
/// `min_ty..max_ty`, row by row from the top, each row from the left: the
/// tile of column `min_tx + i` and row `min_ty + j` stands at
/// `j * (max_tx - min_tx) + i`. An empty range of columns or rows gives no
/// tiles.
pub fn tiles_in_range(z: u8, min_tx: u32, max_tx: u32, min_ty: u32, max_ty: u32) -> (r: Vec<TileCoord>)
    ensures
        min_tx < max_tx && min_ty < max_ty ==> r@.len() == (max_tx - min_tx) * (max_ty - min_ty),
        max_tx <= min_tx || max_ty <= min_ty ==> r@.len() == 0,
        r@.len() == span(min_tx as int, max_tx as int) * span(min_ty as int, max_ty as int),
        forall|i: int, j: int|
            0 <= i < max_tx - min_tx && 0 <= j < max_ty - min_ty ==> {
                let t = #[trigger] r@[j * (max_tx - min_tx) + i];
                t.z == z && t.x == min_tx + i && t.y == min_ty + j
            },
        forall|k: int|
            0 <= k < r@.len() ==> {
                let t = #[trigger] r@[k];
                &&& t.z == z
                &&& min_tx <= t.x < max_tx
                &&& min_ty <= t.y < max_ty
            },
{
    let ghost w: int = if max_tx > min_tx { max_tx - min_tx } else { 0 };
    let mut r: Vec<TileCoord> = Vec::new();
    let mut ty = min_ty;
    while ty < max_ty
        invariant
            min_ty <= ty,
            max_ty > min_ty ==> ty <= max_ty,
            max_ty <= min_ty ==> ty == min_ty,
            w == if max_tx > min_tx { max_tx - min_tx } else { 0 },
            r@.len() == (ty - min_ty) * w,
            forall|i: int, j: int|
                0 <= i < w && 0 <= j < ty - min_ty ==> {
                    let t = #[trigger] r@[j * w + i];
                    t.z == z && t.x == min_tx + i && t.y == min_ty + j
                },
            forall|k: int|
                0 <= k < r@.len() ==> {
                    let t = #[trigger] r@[k];
                    &&& t.z == z
                    &&& min_tx <= t.x < max_tx
                    &&& min_ty <= t.y < max_ty
                },
        decreases max_ty - ty,
    {
        let ghost j0 = ty - min_ty;
        let mut tx = min_tx;
        while tx < max_tx
            invariant
                min_tx <= tx,
                max_tx > min_tx ==> tx <= max_tx,
                max_tx <= min_tx ==> tx == min_tx,
                min_ty <= ty < max_ty,
                j0 == ty - min_ty,
                w == if max_tx > min_tx { max_tx - min_tx } else { 0 },
                r@.len() == j0 * w + (tx - min_tx),
                forall|i: int, j: int|
                    0 <= i < w && 0 <= j < j0 ==> {
                        let t = #[trigger] r@[j * w + i];
                        t.z == z && t.x == min_tx + i && t.y == min_ty + j
                    },
                forall|i: int|
                    0 <= i < tx - min_tx ==> {
                        let t = #[trigger] r@[j0 * w + i];
                        t.z == z && t.x == min_tx + i && t.y == ty
                    },
                forall|k: int|
                    0 <= k < r@.len() ==> {
                        let t = #[trigger] r@[k];
                        &&& t.z == z
                        &&& min_tx <= t.x < max_tx
                        &&& min_ty <= t.y < max_ty
                    },
            decreases max_tx - tx,
        {
            proof {
                lemma_lattice_offset(w, tx - min_tx, j0);
            }
            let ghost prev = r@;
            r.push(TileCoord { z, x: tx, y: ty });
            proof {
                assert forall|i: int, j: int| 0 <= i < w && 0 <= j < j0 implies {
                    let t = #[trigger] r@[j * w + i];
                    t.z == z && t.x == min_tx + i && t.y == min_ty + j
                } by {
                    lemma_before_row(w, i, j, j0);
                    assert(r@[j * w + i] == prev[j * w + i]);
                }
                assert forall|i: int| 0 <= i < tx + 1 - min_tx implies {
                    let t = #[trigger] r@[j0 * w + i];
                    t.z == z && t.x == min_tx + i && t.y == ty
                } by {
                    if i < tx - min_tx {
                        assert(r@[j0 * w + i] == prev[j0 * w + i]);
                    }
                }
            }
            tx = tx + 1;
        }
        proof {
            lemma_lattice_offset(w, w, j0);
            assert forall|i: int, j: int|
                0 <= i < w && 0 <= j < j0 + 1 implies {
                    let t = #[trigger] r@[j * w + i];
                    t.z == z && t.x == min_tx + i && t.y == min_ty + j
                } by {
                if j == j0 {
                    assert(r@[j0 * w + i].y == ty);
                }
            }
        }
        ty = ty + 1;
    }
    proof {
        if max_ty > min_ty {
            assert((max_ty - min_ty) * w == (max_tx - min_tx) * (max_ty - min_ty) || max_tx <= min_tx) by (nonlinear_arith)
                requires
                    w == if max_tx > min_tx { max_tx - min_tx } else { 0 },
            ;
            if max_tx <= min_tx {
                assert((max_ty - min_ty) * 0 == 0) by (nonlinear_arith);
            }
        }
    }
    r
}

/// Samples `raster` on a lattice: the value at lattice position
/// `(px, py)`, stored at `py * columns.len() + px`, is the raster cell at
/// column `columns[px]` and row `rows[py]`, that is position
/// `rows[py] * width + columns[px]` of the raster's cells, or `nodata` where
/// that cell lies outside the raster. A map tile samples with `TILE_SIZE`
/// columns and rows.
pub fn sample_tile<B, R, V: Copy>(
    raster: &CoverageRaster<B, R, V>,
    columns: &Vec<usize>,
    rows: &Vec<usize>,
) -> (r: Vec<V>)
    requires
        raster.wf(),
    ensures
        r@.len() == rows@.len() * columns@.len(),
        forall|px: int, py: int|
            0 <= px < columns@.len() && 0 <= py < rows@.len() ==> #[trigger] r@[py * columns@.len() + px]
                == if columns@[px] < raster.width && rows@[py] < raster.height {
                raster.data@[rows@[py] * raster.width + columns@[px]]
            } else {
                raster.nodata
            },
{
    let ghost w = columns@.len() as int;
    let mut r: Vec<V> = Vec::new();
    let mut py: usize = 0;
    while py < rows.len()
        invariant
            py <= rows@.len(),
            w == columns@.len(),
            raster.wf(),
            r@.len() == py * w,
            forall|i: int, j: int|
                0 <= i < w && 0 <= j < py ==> #[trigger] r@[j * w + i] == if columns@[i] < raster.width
                    && rows@[j] < raster.height {
                    raster.data@[rows@[j] * raster.width + columns@[i]]
                } else {
                    raster.nodata
                },
        decreases rows@.len() - py,
    {
        let mut px: usize = 0;
        while px < columns.len()
            invariant
                px <= w,
                w == columns@.len(),
                py < rows@.len(),
                raster.wf(),
                r@.len() == py * w + px,
                forall|i: int, j: int|
                    0 <= i < w && 0 <= j < py ==> #[trigger] r@[j * w + i] == if columns@[i] < raster.width
                        && rows@[j] < raster.height {
                        raster.data@[rows@[j] * raster.width + columns@[i]]
                    } else {
                        raster.nodata
                    },
                forall|i: int|
                    0 <= i < px ==> #[trigger] r@[py * w + i] == if columns@[i] < raster.width
                        && rows@[py as int] < raster.height {
                        raster.data@[rows@[py as int] * raster.width + columns@[i]]
                    } else {
                        raster.nodata
                    },
            decreases w - px,
        {
            proof {
                lemma_lattice_offset(w, px as int, py as int);
            }
            let v = raster.get(columns[px], rows[py]);
            let ghost prev = r@;
            r.push(v);
            proof {
                assert forall|i: int, j: int| 0 <= i < w && 0 <= j < py implies #[trigger] r@[j * w + i]
                    == prev[j * w + i] by {
                    lemma_before_row(w, i, j, py as int);
                }
                assert forall|i: int| 0 <= i < px implies #[trigger] r@[py * w + i] == prev[py * w + i] by {}
            }
            px = px + 1;
        }
        proof {
            lemma_lattice_offset(w, w, py as int);
        }
        py = py + 1;
    }
    r
}

} // verus!
